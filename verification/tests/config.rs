use primes_lib::config::{parse_u64, parse_usize};
use primes_lib::{Argument, Config, ParseError};

#[test]
fn plain_numbers_are_read() {
    assert_eq!(Some(0), parse_u64("0"));
    assert_eq!(Some(7), parse_u64("7"));
    assert_eq!(Some(1234567890), parse_u64("1234567890"));
    assert_eq!(Some(42), parse_usize("42"));
}

#[test]
fn a_leading_plus_and_leading_zeros_are_read() {
    assert_eq!(Some(5), parse_u64("+5"));
    assert_eq!(Some(0), parse_u64("+0"));
    assert_eq!(Some(12), parse_u64("0012"));
    assert_eq!(Some(12), parse_u64("+0012"));
    assert_eq!(Some(0), parse_u64("00000000000000000000000000"));
}

#[test]
fn the_largest_u64_is_read_and_the_next_is_not() {
    assert_eq!(Some(u64::MAX), parse_u64("18446744073709551615"));
    assert_eq!(None, parse_u64("18446744073709551616"));
    assert_eq!(None, parse_u64("18446744073709551620"));
    assert_eq!(None, parse_u64("99999999999999999999"));
    assert_eq!(None, parse_u64("184467440737095516150"));
    assert_eq!(Some(u64::MAX), parse_u64("+00018446744073709551615"));
}

#[test]
fn the_largest_usize_is_read_and_the_next_is_not() {
    let largest = usize::MAX.to_string();
    assert_eq!(Some(usize::MAX), parse_usize(&largest));
    let next = (usize::MAX as u128 + 1).to_string();
    assert_eq!(None, parse_usize(&next));
}

#[test]
fn texts_that_are_no_number_are_refused() {
    for text in [
        "", "+", "-", "-1", "-0", "++1", "+-1", "1+", " 1", "1 ", "1_000", "1.0", "1e3", "0x10",
        "abc", "12a", "a12", "１２", "٣", "1\u{0}", "\u{0}",
    ] {
        assert_eq!(None, parse_u64(text), "{:?}", text);
        assert_eq!(None, parse_usize(text), "{:?}", text);
    }
}

#[test]
fn reading_agrees_with_the_standard_library() {
    let texts = [
        "", "+", "-", "0", "+0", "-0", "1", "+1", "-1", "007", "+007", "4294967295", "4294967296",
        "18446744073709551615", "18446744073709551616", "+18446744073709551615",
        "018446744073709551615", "28446744073709551615", "18446744073709551615 ", "1 2", "1,2",
        "١٢٣", "12é", "é12", "+é", "++", "+ 1", "९", "0b1", "1u64", "/", ":", "0/", "9:",
    ];
    for text in texts {
        assert_eq!(text.parse::<u64>().ok(), parse_u64(text), "{:?}", text);
        assert_eq!(text.parse::<usize>().ok(), parse_usize(text), "{:?}", text);
    }
    for n in 0..3000u64 {
        let text = n.to_string();
        assert_eq!(Some(n), parse_u64(&text));
    }
}

#[test]
fn three_good_arguments_make_a_config() {
    let config = Config::new(Some("4"), "10", "20").unwrap();
    assert_eq!(Config { start: 10, stop: 20, num_threads: Some(4) }, config);
}

#[test]
fn the_thread_count_may_be_left_out() {
    let config = Config::new(None, "0", "7").unwrap();
    assert_eq!(Config { start: 0, stop: 7, num_threads: None }, config);
}

#[test]
fn a_config_does_not_compare_start_and_stop() {
    let config = Config::new(None, "10", "7").unwrap();
    assert_eq!(Config { start: 10, stop: 7, num_threads: None }, config);
}

#[test]
fn a_bad_thread_count_is_refused() {
    let error = Config::new(Some("four"), "10", "20").unwrap_err();
    assert_eq!(ParseError { argument: Argument::Threads, input: "four".to_string() }, error);
}

#[test]
fn a_bad_start_is_refused() {
    let error = Config::new(Some("4"), "-10", "20").unwrap_err();
    assert_eq!(ParseError { argument: Argument::Start, input: "-10".to_string() }, error);
}

#[test]
fn a_bad_stop_is_refused() {
    let error = Config::new(None, "10", "2o").unwrap_err();
    assert_eq!(ParseError { argument: Argument::Stop, input: "2o".to_string() }, error);
}

#[test]
fn the_first_bad_argument_is_the_one_reported() {
    let error = Config::new(Some("x"), "y", "z").unwrap_err();
    assert_eq!(Argument::Threads, error.argument);
    assert_eq!("x", error.input);
    let error = Config::new(Some("1"), "y", "z").unwrap_err();
    assert_eq!(Argument::Start, error.argument);
    assert_eq!("y", error.input);
    let error = Config::new(None, "y", "z").unwrap_err();
    assert_eq!(Argument::Start, error.argument);
    let error = Config::new(None, "1", "z").unwrap_err();
    assert_eq!(Argument::Stop, error.argument);
    assert_eq!("z", error.input);
}

#[test]
fn a_parse_error_is_put_in_words_with_the_text_given() {
    let error = Config::new(Some("many"), "1", "2").unwrap_err();
    assert_eq!(
        "The number of threads must be an integer, you entered 'many'",
        error.message()
    );
    let error = Config::new(None, "one", "2").unwrap_err();
    assert_eq!("Start must be an integer, you entered 'one'", error.message());
    let error = Config::new(None, "1", "").unwrap_err();
    assert_eq!("Stop must be an integer, you entered ''", error.message());
}

#[test]
fn a_config_feeds_a_scan() {
    let config = Config::new(None, "+0", "007").unwrap();
    assert_eq!(Ok(vec![2, 3, 5, 7]), primes_lib::primes(config.start, config.stop));
}
