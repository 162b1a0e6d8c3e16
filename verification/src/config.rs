//! The parameters of a scan, read from the text of its arguments.

use vstd::prelude::*;
use vstd::string::{is_ascii_spec_bytes, StringExecFns};
use vstd::utf8::is_ascii_chars;

verus! {

/// `c` is one of the ten decimal digits of ASCII.
pub open spec fn is_digit(c: char) -> bool {
    '0' <= c <= '9'
}

/// The number that the digit `c` stands for.
pub open spec fn digit_value(c: char) -> nat {
    (c as int - '0' as int) as nat
}

/// Every character of `text` is a decimal digit.
pub open spec fn all_digits(text: Seq<char>) -> bool {
    forall|i: int| 0 <= i < text.len() ==> is_digit(#[trigger] text[i])
}

/// The number that a sequence of digits writes in base ten; 0 for none.
pub open spec fn decimal_value(digits: Seq<char>) -> nat
    decreases digits.len(),
{
    if digits.len() == 0 {
        0
    } else {
        10 * decimal_value(digits.drop_last()) + digit_value(digits.last())
    }
}

/// `text` without the one `+` that may stand in front of a number.
pub open spec fn without_sign(text: Seq<char>) -> Seq<char> {
    if text.len() > 0 && text[0] == '+' {
        text.drop_first()
    } else {
        text
    }
}

/// The number that `text` writes, where it writes one no greater than `max`:
/// an optional `+`, then one or more decimal digits and nothing else.
pub open spec fn parse_decimal(text: Seq<char>, max: nat) -> Option<nat> {
    let digits = without_sign(text);
    if digits.len() > 0 && all_digits(digits) && decimal_value(digits) <= max {
        Some(decimal_value(digits))
    } else {
        None
    }
}

/// One more digit multiplies the value by ten and adds the digit.
proof fn lemma_decimal_value_step(digits: Seq<char>, k: int)
    requires
        0 <= k < digits.len(),
    ensures
        decimal_value(digits.take(k + 1)) == 10 * decimal_value(digits.take(k)) + digit_value(
            digits[k],
        ),
{
    assert(digits.take(k + 1).drop_last() =~= digits.take(k));
}

/// The digits read so far never write more than all of them do.
proof fn lemma_decimal_value_grows(digits: Seq<char>, k: int)
    requires
        0 <= k <= digits.len(),
    ensures
        decimal_value(digits.take(k)) <= decimal_value(digits),
    decreases digits.len() - k,
{
    if k < digits.len() {
        lemma_decimal_value_step(digits, k);
        lemma_decimal_value_grows(digits, k + 1);
    } else {
        assert(digits.take(k) =~= digits);
    }
}

/// A text with a character outside ASCII writes no number.
proof fn lemma_not_ascii_not_decimal(text: Seq<char>, max: nat)
    requires
        !is_ascii_chars(text),
    ensures
        parse_decimal(text, max) is None,
{
    let i = choose|i: int| 0 <= i < text.len() && !('\0' <= #[trigger] text[i] <= '\u{7f}');
    let digits = without_sign(text);
    if digits.len() == text.len() {
        assert(!is_digit(digits[i]));
    } else {
        assert(!is_digit(digits[i - 1]));
    }
}

/// The byte of `+` in ASCII.
const PLUS: u8 = 43;

/// The byte of the digit `0` in ASCII.
const ZERO: u8 = 48;

/// The byte of the digit `9` in ASCII.
const NINE: u8 = 57;

/// Reads a `u64` written in base ten, with a `+` in front or without.
pub fn parse_u64(text: &str) -> (r: Option<u64>)
    ensures
        r matches Some(value) ==> parse_decimal(text@, u64::MAX as nat) == Some(value as nat),
        r is None ==> parse_decimal(text@, u64::MAX as nat) is None,
{
    if !text.is_ascii() {
        proof {
            lemma_not_ascii_not_decimal(text@, u64::MAX as nat);
        }
        return None;
    }
    let bytes = text.as_bytes();
    let n = bytes.len();
    let first: usize = if n > 0 && bytes[0] == PLUS {
        1
    } else {
        0
    };
    let ghost digits = without_sign(text@);
    proof {
        is_ascii_spec_bytes(text);
        assert(n == text@.len());
        if n > 0 {
            assert(bytes@[0] == text@[0] as u8);
        }
        assert(digits.len() == n - first);
        assert(digits.take(0) =~= Seq::<char>::empty());
    }
    if first == n {
        return None;
    }
    let mut value: u64 = 0;
    let mut i: usize = first;
    while i < n
        invariant
            first <= i <= n,
            n == bytes@.len(),
            digits == without_sign(text@),
            digits.len() == n - first,
            forall|k: int| 0 <= k < digits.len() ==> bytes@[first + k] == #[trigger] digits[k] as u8,
            forall|k: int| 0 <= k < digits.len() ==> '\0' <= #[trigger] digits[k] <= '\u{7f}',
            all_digits(digits.take(i - first)),
            value == decimal_value(digits.take(i - first)),
        decreases n - i,
    {
        let byte = bytes[i];
        let ghost k = i - first;
        proof {
            lemma_decimal_value_step(digits, k);
            lemma_decimal_value_grows(digits, k + 1);
            assert(byte == digits[k] as u8);
        }
        if byte < ZERO || byte > NINE {
            assert(!is_digit(digits[k]));
            return None;
        }
        assert(is_digit(digits[k]) && digit_value(digits[k]) == byte - ZERO);
        let tens = match value.checked_mul(10) {
            Some(tens) => tens,
            None => {
                return None;
            },
        };
        value = match tens.checked_add((byte - ZERO) as u64) {
            Some(sum) => sum,
            None => {
                return None;
            },
        };
        i = i + 1;
        proof {
            let seen = digits.take(i - first);
            assert forall|j: int| 0 <= j < seen.len() implies is_digit(#[trigger] seen[j]) by {
                if j < k {
                    assert(digits.take(k)[j] == seen[j]);
                }
            }
        }
    }
    proof {
        assert(digits.take(i - first) =~= digits);
    }
    Some(value)
}

/// Reads a `usize` written in base ten, with a `+` in front or without.
pub fn parse_usize(text: &str) -> (r: Option<usize>)
    ensures
        r matches Some(value) ==> parse_decimal(text@, usize::MAX as nat) == Some(value as nat),
        r is None ==> parse_decimal(text@, usize::MAX as nat) is None,
{
    match parse_u64(text) {
        Some(value) => if value <= usize::MAX as u64 {
            Some(value as usize)
        } else {
            None
        },
        None => None,
    }
}

/// The arguments that a scan is asked for with.
#[derive(Debug, Clone, Copy, PartialEq, Eq, Structural)]
pub enum Argument {
    /// The size of the thread pool.
    Threads,
    /// The first number of the range.
    Start,
    /// The last number of the range.
    Stop,
}

impl Argument {
    /// How the complaint about a bad text for this argument begins, up to and
    /// with the quote that opens the text.
    pub open spec fn complaint(self) -> Seq<char> {
        match self {
            Argument::Threads => "The number of threads must be an integer, you entered '"@,
            Argument::Start => "Start must be an integer, you entered '"@,
            Argument::Stop => "Stop must be an integer, you entered '"@,
        }
    }
}

/// An argument whose text writes no number of its type.
#[derive(Debug, PartialEq, Eq)]
pub struct ParseError {
    /// The argument that was refused.
    pub argument: Argument,
    /// Its text, as it was given.
    pub input: String,
}

impl ParseError {
    /// The error in words, for the user: which argument, and the text given for it.
    pub fn message(&self) -> (text: String)
        ensures
            text@ == self.argument.complaint() + self.input@ + "'"@,
    {
        let mut text = match self.argument {
            Argument::Threads => "The number of threads must be an integer, you entered '",
            Argument::Start => "Start must be an integer, you entered '",
            Argument::Stop => "Stop must be an integer, you entered '",
        }.to_owned();
        text.append(self.input.as_str());
        text.append("'");
        text
    }
}

/// What a scan is run with.
#[derive(Debug, Clone, Copy, PartialEq, Eq)]
pub struct Config {
    /// The first number of the range.
    pub start: u64,
    /// The last number of the range.
    pub stop: u64,
    /// The size of the thread pool, where one was asked for.
    pub num_threads: Option<usize>,
}

/// The first of the three texts, in the order threads, start, stop, that
/// writes no number of its type, with its argument; `None` if each writes one.
pub open spec fn first_refused(threads: Option<&str>, start: &str, stop: &str) -> Option<
    (Argument, Seq<char>),
> {
    if threads is Some && parse_decimal(threads->0@, usize::MAX as nat) is None {
        Some((Argument::Threads, threads->0@))
    } else if parse_decimal(start@, u64::MAX as nat) is None {
        Some((Argument::Start, start@))
    } else if parse_decimal(stop@, u64::MAX as nat) is None {
        Some((Argument::Stop, stop@))
    } else {
        None
    }
}

impl Config {
    /// Reads the parameters of a scan from the texts of its arguments:
    /// `threads` where a pool size was given, `start` and `stop` always.
    ///
    /// Fails on the first text, in that order, that writes no number of its
    /// type, and hands the text back in the error.
    pub fn new(threads: Option<&str>, start: &str, stop: &str) -> (r: Result<Config, ParseError>)
        ensures
            match r {
                Ok(config) => {
                    &&& first_refused(threads, start, stop) is None
                    &&& match threads {
                        Some(text) => config.num_threads matches Some(n) && parse_decimal(
                            text@,
                            usize::MAX as nat,
                        ) == Some(n as nat),
                        None => config.num_threads is None,
                    }
                    &&& parse_decimal(start@, u64::MAX as nat) == Some(config.start as nat)
                    &&& parse_decimal(stop@, u64::MAX as nat) == Some(config.stop as nat)
                },
                Err(error) => first_refused(threads, start, stop) == Some(
                    (error.argument, error.input@),
                ),
            },
    {
        let num_threads = match threads {
            Some(text) => match parse_usize(text) {
                Some(n) => Some(n),
                None => {
                    return Err(ParseError { argument: Argument::Threads, input: text.to_owned() });
                },
            },
            None => None,
        };
        let start = match parse_u64(start) {
            Some(value) => value,
            None => {
                return Err(ParseError { argument: Argument::Start, input: start.to_owned() });
            },
        };
        let stop = match parse_u64(stop) {
            Some(value) => value,
            None => {
                return Err(ParseError { argument: Argument::Stop, input: stop.to_owned() });
            },
        };
        Ok(Config { start, stop, num_threads })
    }
}

} // verus!
