//! Small helpers on sequences of item indices.
use std::collections::VecDeque;
use vstd::prelude::*;
use vstd::relations::{sorted_by, total_ordering};

verus! {

/// Whether `v` occurs in `s`.
pub fn contem(s: &[usize], v: usize) -> (r: bool)
    ensures
        r == s@.contains(v),
{
    let mut k: usize = 0;
    while k < s.len()
        invariant
            k <= s@.len(),
            forall|t: int| 0 <= t < k ==> s@[t] != v,
        decreases s@.len() - k,
    {
        if s[k] == v {
            assert(s@[k as int] == v);
            return true;
        }
        k = k + 1;
    }
    false
}

/// Whether `v` occurs in the queue `s`.
pub fn contem_fila(s: &VecDeque<usize>, v: usize) -> (r: bool)
    ensures
        r == s@.contains(v),
{
    let mut k: usize = 0;
    while k < s.len()
        invariant
            k <= s@.len(),
            forall|t: int| 0 <= t < k ==> s@[t] != v,
        decreases s@.len() - k,
    {
        if s[k] == v {
            assert(s@[k as int] == v);
            return true;
        }
        k = k + 1;
    }
    false
}

/// The items `0, 1, ..., n - 1` in that order.
pub open spec fn todos_itens(n: nat) -> Seq<usize> {
    Seq::new(n, |i: int| i as usize)
}

/// The vector `[0, 1, ..., n - 1]`.
pub fn itens(n: usize) -> (x: Vec<usize>)
    ensures
        x@ == todos_itens(n as nat),
{
    let mut x: Vec<usize> = Vec::new();
    let mut i: usize = 0;
    while i < n
        invariant
            i <= n,
            x@ == todos_itens(i as nat),
        decreases n - i,
    {
        x.push(i);
        proof {
            assert(x@ =~= todos_itens((i + 1) as nat));
        }
        i = i + 1;
    }
    x
}

/// The elements of the queue, front first, in a vector.
pub fn dq_vec<T: Copy>(dq: &VecDeque<T>) -> (v: Vec<T>)
    ensures
        v@ == dq@,
{
    let mut v: Vec<T> = Vec::new();
    let mut k: usize = 0;
    while k < dq.len()
        invariant
            k <= dq@.len(),
            v@ == dq@.take(k as int),
        decreases dq@.len() - k,
    {
        let e: T = dq[k];
        v.push(e);
        proof {
            assert(dq@.take(k + 1) =~= dq@.take(k as int).push(e));
        }
        k = k + 1;
    }
    assert(dq@.take(dq@.len() as int) =~= dq@);
    v
}

/// The ascending order of indices.
pub open spec fn ordem_crescente() -> spec_fn(usize, usize) -> bool {
    |x: usize, y: usize| x <= y
}

/// Calls `slice::sort` on `v`. Its documentation promises that the slice is
/// sorted (here by the order of `usize`), stably; the contract states that the
/// result is ascending and holds the same entries the same number of times.
#[verifier::external_body]
fn ordenar(v: &mut Vec<usize>)
    ensures
        final(v)@.to_multiset() == old(v)@.to_multiset(),
        sorted_by(final(v)@, ordem_crescente()),
{
    v.sort();
}

/// A copy of the slice in a vector.
pub fn copiar(s: &[usize]) -> (v: Vec<usize>)
    ensures
        v@ == s@,
{
    let mut v: Vec<usize> = Vec::new();
    let mut k: usize = 0;
    while k < s.len()
        invariant
            k <= s@.len(),
            v@ == s@.take(k as int),
        decreases s@.len() - k,
    {
        v.push(s[k]);
        proof {
            assert(s@.take(k + 1) =~= s@.take(k as int).push(s@[k as int]));
        }
        k = k + 1;
    }
    assert(s@.take(s@.len() as int) =~= s@);
    v
}

/// Whether `a` and `b` hold the same items the same number of times, in any order.
pub fn iguais(a: &[usize], b: &[usize]) -> (r: bool)
    ensures
        r == (a@.to_multiset() == b@.to_multiset()),
{
    if a.len() != b.len() {
        proof {
            if a@.to_multiset() == b@.to_multiset() {
                vstd::seq_lib::to_multiset_len(a@);
                vstd::seq_lib::to_multiset_len(b@);
            }
        }
        return false;
    }
    let mut va = copiar(a);
    let mut vb = copiar(b);
    proof {
        vstd::seq_lib::to_multiset_len(va@);
        vstd::seq_lib::to_multiset_len(vb@);
    }
    ordenar(&mut va);
    ordenar(&mut vb);
    let ghost leq = ordem_crescente();
    proof {
        vstd::seq_lib::to_multiset_len(va@);
        vstd::seq_lib::to_multiset_len(vb@);
    }
    let mut k: usize = 0;
    while k < va.len()
        invariant
            k <= va@.len(),
            va@.len() == vb@.len(),
            leq == ordem_crescente(),
            sorted_by(va@, leq),
            sorted_by(vb@, leq),
            va@.to_multiset() == a@.to_multiset(),
            vb@.to_multiset() == b@.to_multiset(),
            forall|t: int| 0 <= t < k ==> va@[t] == vb@[t],
        decreases va@.len() - k,
    {
        if va[k] != vb[k] {
            proof {
                if a@.to_multiset() == b@.to_multiset() {
                    assert(total_ordering(leq)) by {
                        assert forall|x: usize| #[trigger] leq(x, x) by {}
                        assert forall|x: usize, y: usize| #[trigger] leq(x, y) || leq(y, x) by {}
                        assert forall|x: usize, y: usize, z: usize| #[trigger] leq(x, y) && #[trigger] leq(y, z) implies leq(x, z) by {}
                        assert forall|x: usize, y: usize| #[trigger] leq(x, y) && #[trigger] leq(y, x) implies x == y by {}
                    }
                    vstd::seq_lib::lemma_sorted_unique(va@, vb@, leq);
                    assert(va@[k as int] == vb@[k as int]);
                }
            }
            return false;
        }
        k = k + 1;
    }
    assert(va@ =~= vb@);
    true
}

/// The items of `s` in ascending order.
pub fn solucao_ordenada(s: &[usize]) -> (r: Vec<usize>)
    ensures
        r@.to_multiset() == s@.to_multiset(),
        sorted_by(r@, ordem_crescente()),
{
    let mut r = copiar(s);
    ordenar(&mut r);
    r
}

} // verus!
