//! The range scanner: every prime of an inclusive range, in ascending order.

use crate::primality::{is_prime, prime};
use rayon::iter::{IntoParallelIterator, ParallelIterator};
use vstd::prelude::*;

verus! {

/// Why a scan was refused.
#[derive(Debug, Clone, Copy, PartialEq, Eq, Structural)]
pub enum RangeError {
    /// The range ends before it starts.
    InvalidRange,
}

impl RangeError {
    /// The error in words, for the user.
    pub fn message(&self) -> (text: String)
        ensures
            text@ == "Start cannot be greater than stop."@,
    {
        "Start cannot be greater than stop.".to_owned()
    }
}

/// The numbers `lo, lo + 1, ..., hi` in this order; none when `hi < lo`.
pub open spec fn inclusive(lo: u64, hi: u64) -> Seq<u64> {
    Seq::new(
        if lo <= hi {
            (hi - lo + 1) as nat
        } else {
            0
        },
        |i: int| (lo + i) as u64,
    )
}

/// The primes among `lo, lo + 1, ..., hi`, in this order.
pub open spec fn primes_between(lo: u64, hi: u64) -> Seq<u64> {
    inclusive(lo, hi).filter(|n: u64| prime(n as nat))
}

/// Where a scan asked to start at `start` really starts: nothing below 2 is prime.
pub open spec fn scan_start(start: u64) -> u64 {
    if start < 2 {
        2
    } else {
        start
    }
}

/// Each element is smaller than every later one.
pub open spec fn ascending(s: Seq<u64>) -> bool {
    forall|i: int, j: int| 0 <= i < j < s.len() ==> s[i] < s[j]
}

/// An ascending sequence holds no value twice.
pub proof fn lemma_ascending_no_duplicates(s: Seq<u64>)
    requires
        ascending(s),
    ensures
        s.no_duplicates(),
{
    assert forall|i: int, j: int| 0 <= i < s.len() && 0 <= j < s.len() && i != j implies s[i]
        != s[j] by {
        if i < j {
            assert(s[i] < s[j]);
        } else {
            assert(s[j] < s[i]);
        }
    }
}

/// Filtering an ascending sequence leaves it ascending.
proof fn lemma_filter_ascending(s: Seq<u64>, pred: spec_fn(u64) -> bool)
    requires
        ascending(s),
    ensures
        ascending(s.filter(pred)),
    decreases s.len(),
{
    reveal(Seq::filter);
    if s.len() > 0 {
        let head = s.drop_last();
        let kept = head.filter(pred);
        lemma_filter_ascending(head, pred);
        assert forall|i: int| 0 <= i < kept.len() implies kept[i] < s.last() by {
            assert(kept.contains(kept[i]));
            head.lemma_filter_contains_rev(pred, kept[i]);
            let k = choose|k: int| 0 <= k < head.len() && head[k] == kept[i];
            assert(s[k] < s[s.len() - 1]);
        }
    }
}

/// `primes_between(lo, hi)` is ascending, holds nothing but primes of
/// `lo..=hi`, and misses none of them.
pub proof fn lemma_primes_between(lo: u64, hi: u64)
    ensures
        ascending(primes_between(lo, hi)),
        forall|i: int|
            0 <= i < primes_between(lo, hi).len() ==> {
                let p = #[trigger] primes_between(lo, hi)[i];
                lo <= p <= hi && prime(p as nat)
            },
        forall|n: u64|
            lo <= n <= hi && prime(n as nat) ==> #[trigger] primes_between(lo, hi).contains(n),
{
    let all = inclusive(lo, hi);
    let pred = |n: u64| prime(n as nat);
    let found = primes_between(lo, hi);
    lemma_filter_ascending(all, pred);
    assert forall|i: int| 0 <= i < found.len() implies {
        let p = #[trigger] found[i];
        lo <= p <= hi && prime(p as nat)
    } by {
        all.lemma_filter_pred(pred, i);
        assert(found.contains(found[i]));
        all.lemma_filter_contains_rev(pred, found[i]);
    }
    assert forall|n: u64| lo <= n <= hi && prime(n as nat) implies #[trigger] found.contains(
        n,
    ) by {
        assert(all[n - lo] == n);
        all.lemma_filter_contains(pred, n - lo);
    }
}

/// Two ascending sequences that hold the same values are the same sequence.
pub proof fn lemma_ascending_unique(a: Seq<u64>, b: Seq<u64>)
    requires
        ascending(a),
        ascending(b),
        forall|n: u64| a.contains(n) <==> b.contains(n),
    ensures
        a == b,
    decreases a.len(),
{
    if a.len() == 0 {
        if b.len() > 0 {
            assert(b.contains(b[0]));
        }
        assert(a =~= b);
    } else {
        let top = a.last();
        assert(a.contains(top));
        assert(b.len() > 0);
        assert(b.contains(b.last()));
        let i = choose|i: int| 0 <= i < b.len() && b[i] == top;
        let j = choose|j: int| 0 <= j < a.len() && a[j] == b.last();
        assert(b.last() == top);
        let head_a = a.drop_last();
        let head_b = b.drop_last();
        assert forall|n: u64| head_a.contains(n) <==> head_b.contains(n) by {
            if head_a.contains(n) {
                let k = choose|k: int| 0 <= k < head_a.len() && head_a[k] == n;
                assert(a[k] == n && n < top);
                assert(a.contains(n));
                let m = choose|m: int| 0 <= m < b.len() && b[m] == n;
                assert(head_b[m] == n);
            }
            if head_b.contains(n) {
                let k = choose|k: int| 0 <= k < head_b.len() && head_b[k] == n;
                assert(b[k] == n && n < top);
                assert(b.contains(n));
                let m = choose|m: int| 0 <= m < a.len() && a[m] == n;
                assert(head_a[m] == n);
            }
        }
        lemma_ascending_unique(head_a, head_b);
        assert(a =~= head_a.push(top));
        assert(b =~= head_b.push(top));
    }
}

/// Filters `lo..=hi` on rayon's current thread pool and collects what `keep` lets pass.
///
/// The body chains three of rayon's functions: `IntoParallelIterator::into_par_iter`
/// on the inclusive range, `ParallelIterator::filter` with `keep` as the test,
/// and `ParallelIterator::collect` into a `Vec`. The contract is not proved. It
/// claims of them that the range yields each of its values once and `keep` is
/// asked about each, that `filter` passes on exactly the values on which `keep`
/// answered `true`, and that collecting into a `Vec` keeps the order of the
/// range, however the pool splits the work and however many threads it has.
/// A range of more numbers than a vector can hold is left out. What a machine
/// may refuse to any program, memory or a thread for the pool, is no part of
/// the claim.
#[verifier::external_body]
fn par_filter<F: Fn(&u64) -> bool + Sync + Send>(lo: u64, hi: u64, keep: F) -> (kept: Vec<u64>)
    requires
        hi - lo < usize::MAX,
        forall|n: u64| lo <= n <= hi ==> call_requires(keep, (&n,)),
    ensures
        ascending(kept@),
        forall|i: int| 0 <= i < kept@.len() ==> lo <= #[trigger] kept@[i] <= hi,
        forall|n: u64| lo <= n <= hi && kept@.contains(n) ==> call_ensures(keep, (&n,), true),
        forall|n: u64| lo <= n <= hi && !kept@.contains(n) ==> call_ensures(keep, (&n,), false),
{
    (lo..=hi).into_par_iter().filter(keep).collect()
}

/// All primes `p` with `start <= p <= stop`, in ascending order.
///
/// Fails with [`RangeError::InvalidRange`] exactly when `stop < start`. A range
/// without primes gives an empty vector, not an error.
///
/// The numbers scanned must be few enough for a vector to hold them all, which
/// a vector's length, a `usize`, limits. Where a `usize` has 64 bits this is so
/// of every range.
pub fn primes(start: u64, stop: u64) -> (r: Result<Vec<u64>, RangeError>)
    requires
        stop - scan_start(start) < usize::MAX,
    ensures
        stop < start <==> r == Err::<Vec<u64>, RangeError>(RangeError::InvalidRange),
        start <= stop <==> r is Ok,
        r matches Ok(found) ==> {
            &&& found@ == primes_between(scan_start(start), stop)
            &&& ascending(found@)
            &&& found@.no_duplicates()
            &&& forall|i: int|
                0 <= i < found@.len() ==> {
                    let p = #[trigger] found@[i];
                    scan_start(start) <= p <= stop && prime(p as nat)
                }
            &&& forall|n: u64|
                scan_start(start) <= n <= stop && prime(n as nat) ==> #[trigger] found@.contains(
                    n,
                )
        },
{
    if stop < start {
        return Err(RangeError::InvalidRange);
    }
    let start = start.max(2);
    let keep = |n: &u64| -> (kept: bool)
        ensures
            kept == prime(*n as nat),
        { is_prime(*n) };
    let found = par_filter(start, stop, keep);
    proof {
        lemma_primes_between(start, stop);
        let expected = primes_between(start, stop);
        assert forall|n: u64| found@.contains(n) <==> expected.contains(n) by {
            if found@.contains(n) {
                let i = choose|i: int| 0 <= i < found@.len() && found@[i] == n;
                assert(start <= found@[i] <= stop);
            }
            if expected.contains(n) {
                let i = choose|i: int| 0 <= i < expected.len() && expected[i] == n;
                assert(start <= expected[i] <= stop && prime(expected[i] as nat));
            }
        }
        lemma_ascending_unique(found@, expected);
        lemma_ascending_no_duplicates(expected);
    }
    Ok(found)
}

/// Scanning is repeatable: whatever two calls of [`primes`] on one range
/// return, they return the same, on whatever pool and with however many
/// threads each of them ran.
pub proof fn lemma_primes_repeatable(
    start: u64,
    stop: u64,
    first: Result<Vec<u64>, RangeError>,
    second: Result<Vec<u64>, RangeError>,
)
    requires
        call_ensures(primes, (start, stop), first),
        call_ensures(primes, (start, stop), second),
    ensures
        first matches Ok(a) ==> second matches Ok(b) && a@ == b@,
        first matches Err(e) ==> second matches Err(f) && e == f,
{
}

} // verus!
