//! Calls into `rand` with the thread-local generator.
use rand::seq::{IteratorRandom, SliceRandom};
use vstd::prelude::*;

verus! {

/// `x` and `y` hold the same entries the same number of times.
pub open spec fn permutacao(x: Seq<usize>, y: Seq<usize>) -> bool {
    x.to_multiset() == y.to_multiset()
}

/// Calls `rand::seq::SliceRandom::shuffle` with `rand::thread_rng()`. The
/// source swaps entries in place, so the result is a permutation of the input;
/// which one depends on the generator.
#[verifier::external_body]
pub(crate) fn embaralhar(v: &mut Vec<usize>)
    ensures
        permutacao(final(v)@, old(v)@),
{
    v.shuffle(&mut rand::thread_rng());
}

/// Calls `rand::seq::IteratorRandom::choose_multiple` with `rand::thread_rng()`
/// on the entries of `candidatos`. The source fills a reservoir with the first
/// `k` entries and then overwrites slots with later entries, so the result has
/// `min(k, len)` entries taken from distinct positions of the input; which ones,
/// and their order, depend on the generator. The reservoir is allocated with
/// capacity `k` up front.
#[verifier::external_body]
pub(crate) fn escolher_varios(candidatos: Vec<usize>, k: usize) -> (r: Vec<usize>)
    requires
        k * 8 <= isize::MAX,
    ensures
        r@.len() == if k <= candidatos@.len() { k as int } else { candidatos@.len() as int },
        r@.to_multiset().subset_of(candidatos@.to_multiset()),
{
    candidatos.into_iter().choose_multiple(&mut rand::thread_rng(), k)
}

/// Calls `rand::seq::IteratorRandom::choose` with `rand::thread_rng()` on the
/// range `lo..=hi`. The source returns an element that the (non-empty) range
/// yields; which one depends on the generator. A range of `2^32` values has no
/// exact size hint on a 32-bit target, and the source's `usize` counters then
/// overflow, so the range must be shorter.
#[verifier::external_body]
pub(crate) fn sortear(lo: u32, hi: u32) -> (r: u32)
    requires
        lo <= hi,
        hi - lo < u32::MAX,
    ensures
        lo <= r <= hi,
{
    (lo..=hi).choose(&mut rand::thread_rng()).unwrap()
}

/// Calls `rand::seq::IteratorRandom::choose` with `rand::thread_rng()` on the
/// range `0..n`. The source returns an element that the (non-empty) range
/// yields; which one depends on the generator.
#[verifier::external_body]
pub(crate) fn sortear_indice(n: usize) -> (r: usize)
    requires
        n > 0,
    ensures
        r < n,
{
    (0..n).choose(&mut rand::thread_rng()).unwrap()
}

} // verus!
