//! The data of an instance, random instances, and the thinning of the
//! penalty list of an instance read from a file.
use vstd::prelude::*;

use crate::sorteio::{sortear, sortear_indice};

verus! {

/// The weight of each item.
pub type Pesos = Vec<u32>;
/// The value of each item.
pub type Valores = Vec<u32>;
/// Penalty pairs `(i, j, d)`: `d` is subtracted from the value of a solution
/// that holds both `i` and `j`.
pub type Multas = Vec<(usize, usize, u32)>;

/// The items of a random instance: weights drawn in `5..=25` and values in
/// `3..=20`, with capacity `3 * n_itens` and `6 * n_itens` penalty pairs to draw.
pub fn gerar_itens(n_itens: u64) -> (r: (Pesos, Valores, u64, u64))
    requires
        n_itens <= usize::MAX,
        n_itens * 6 <= u64::MAX,
    ensures
        r.0@.len() == n_itens,
        r.1@.len() == n_itens,
        forall|i: int| 0 <= i < n_itens ==> 5 <= #[trigger] r.0@[i] <= 25,
        forall|i: int| 0 <= i < n_itens ==> 3 <= #[trigger] r.1@[i] <= 20,
        r.2 == 3 * n_itens,
        r.3 == 6 * n_itens,
{
    let mut pesos: Pesos = Vec::new();
    let mut valores: Valores = Vec::new();
    let b = n_itens * 3;
    let n_multas = n_itens * 6;
    let mut k: u64 = 0;
    while k < n_itens
        invariant
            k <= n_itens,
            pesos@.len() == k,
            valores@.len() == k,
            forall|i: int| 0 <= i < k ==> 5 <= #[trigger] pesos@[i] <= 25,
            forall|i: int| 0 <= i < k ==> 3 <= #[trigger] valores@[i] <= 20,
        decreases n_itens - k,
    {
        let pi = sortear(3, 20);
        let wi = sortear(5, 25);
        pesos.push(wi);
        valores.push(pi);
        k = k + 1;
    }
    (pesos, valores, b, n_multas)
}

/// Some pair of `multas` joins `u` and `v`, in either order.
pub open spec fn par_presente(multas: Seq<(usize, usize, u32)>, u: usize, v: usize) -> bool {
    exists|m: int|
        0 <= m < multas.len() && ((#[trigger] multas[m]).0 == u && multas[m].1 == v || multas[m].0 == v
            && multas[m].1 == u)
}

/// Every pair joins two distinct items below `n`, the smaller first, and no
/// two pairs join the same items.
pub open spec fn multas_normalizadas(multas: Seq<(usize, usize, u32)>, n: int) -> bool {
    &&& forall|m: int| 0 <= m < multas.len() ==> (#[trigger] multas[m]).0 < multas[m].1 < n
    &&& forall|a: int, c: int|
        0 <= a < c < multas.len() ==> !((#[trigger] multas[a]).0 == (#[trigger] multas[c]).0 && multas[a].1
            == multas[c].1)
}

/// A pair `u`, `v` can be added to `multas`: the two items differ and no pair
/// joins them yet.
pub open spec fn multa_admissivel(multas: Seq<(usize, usize, u32)>, u: usize, v: usize) -> bool {
    u != v && !par_presente(multas, u, v)
}

/// The pair joining `u` and `v` with penalty `d`, the smaller item first.
pub open spec fn par_ordenado(u: usize, v: usize, d: u32) -> (usize, usize, u32) {
    if u < v {
        (u, v, d)
    } else {
        (v, u, d)
    }
}

/// Whether the pair `u`, `v` can be added to `multas` (see `multa_admissivel`).
pub fn multa_admissivel_exec(multas: &Multas, u: usize, v: usize) -> (r: bool)
    ensures
        r == multa_admissivel(multas@, u, v),
{
    if u == v {
        return false;
    }
    let mut achado = false;
    let mut m: usize = 0;
    while m < multas.len()
        invariant
            m <= multas@.len(),
            achado == exists|t: int|
                0 <= t < m && ((#[trigger] multas@[t]).0 == u && multas@[t].1 == v || multas@[t].0 == v
                    && multas@[t].1 == u),
        decreases multas@.len() - m,
    {
        let (u2, v2, _d) = multas[m];
        achado = achado || (u2 == u && v2 == v || u2 == v && v2 == u);
        proof {
            if u2 == u && v2 == v || u2 == v && v2 == u {
                assert(multas@[m as int].0 == u2 && multas@[m as int].1 == v2);
            }
        }
        m = m + 1;
    }
    !achado
}

/// Appends the pair joining `u` and `v` with penalty `d`, the smaller item first.
pub fn registrar_multa(multas: &mut Multas, u: usize, v: usize, d: u32)
    ensures
        final(multas)@ == old(multas)@.push(par_ordenado(u, v, d)),
{
    if u < v {
        multas.push((u, v, d));
    } else {
        multas.push((v, u, d));
    }
}

/// One draw of a random penalty pair: two items below `n_itens` and, when the
/// pair is admissible (see `multa_admissivel`), a penalty in `2..=15`; the pair
/// is appended with the smaller item first. Whether a pair was appended is
/// returned. Which items and penalty are drawn is up to the generator.
pub fn sortear_multa(multas: &mut Multas, n_itens: usize) -> (adicionada: bool)
    requires
        n_itens > 0,
    ensures
        exists|u: usize, v: usize, d: u32|
            #![trigger par_ordenado(u, v, d)]
            u < n_itens && v < n_itens && 2 <= d <= 15 && adicionada == multa_admissivel(old(multas)@, u, v)
                && final(multas)@ == (if adicionada {
                old(multas)@.push(par_ordenado(u, v, d))
            } else {
                old(multas)@
            }),
        multas_normalizadas(old(multas)@, n_itens as int) ==> multas_normalizadas(final(multas)@, n_itens as int),
{
    let u = sortear_indice(n_itens);
    let v = sortear_indice(n_itens);
    if !multa_admissivel_exec(multas, u, v) {
        assert(par_ordenado(u, v, 2) == par_ordenado(u, v, 2));
        return false;
    }
    let d = sortear(2, 15);
    let ghost antes = multas@;
    registrar_multa(multas, u, v, d);
    proof {
        let (a, c, _x) = par_ordenado(u, v, d);
        assert(!par_presente(antes, a, c));
        lemma_multa_nova(antes, a, c, d, n_itens as int);
    }
    true
}

/// Appending a new pair `a < c < n` keeps a penalty list normalised.
pub proof fn lemma_multa_nova(multas: Seq<(usize, usize, u32)>, a: usize, c: usize, d: u32, n: int)
    requires
        a < c < n,
        !par_presente(multas, a, c),
    ensures
        multas_normalizadas(multas, n) ==> multas_normalizadas(multas.push((a, c, d)), n),
{
    let t = multas.push((a, c, d));
    if multas_normalizadas(multas, n) {
        assert forall|m: int| 0 <= m < t.len() implies (#[trigger] t[m]).0 < t[m].1 < n by {
            if m < multas.len() {
                assert(t[m] == multas[m]);
            }
        }
        assert forall|x: int, y: int| 0 <= x < y < t.len() implies !((#[trigger] t[x]).0 == (
        #[trigger] t[y]).0 && t[x].1 == t[y].1) by {
            if y == multas.len() {
                assert(t[x] == multas[x]);
                if t[x].0 == a && t[x].1 == c {
                    assert(par_presente(multas, a, c));
                }
            } else {
                assert(t[x] == multas[x] && t[y] == multas[y]);
            }
        }
    }
}

/// The thinning of a penalty list: the pair at position `cont` is removed,
/// the position advances by 10 (modulo the new length), until `n_multas` pairs
/// are left.
pub open spec fn reduzir(multas: Seq<(usize, usize, u32)>, n_multas: nat, cont: int) -> Seq<(usize, usize, u32)>
    decreases multas.len(),
{
    if multas.len() <= n_multas || cont < 0 || cont >= multas.len() {
        multas
    } else {
        let m2 = multas.remove(cont);
        if m2.len() == 0 {
            m2
        } else {
            reduzir(m2, n_multas, (cont + 10) % (m2.len() as int))
        }
    }
}

/// Thins the penalty list of an instance read from a file down to `n_multas`
/// pairs (see `reduzir`), starting at position 10.
pub fn reduzir_multas(multas: &mut Multas, n_multas: usize)
    requires
        n_multas == old(multas)@.len() || (1 <= n_multas < old(multas)@.len() && old(multas)@.len() > 10),
    ensures
        final(multas)@ == reduzir(old(multas)@, n_multas as nat, 10),
        final(multas)@.len() == n_multas,
        forall|k: int| 0 <= k < final(multas)@.len() ==> old(multas)@.contains(#[trigger] final(multas)@[k]),
{
    let ghost orig = multas@;
    let mut cont: usize = 10;
    while multas.len() != n_multas
        invariant
            n_multas <= multas@.len(),
            multas@.len() > n_multas ==> cont < multas@.len(),
            n_multas >= 1 || multas@.len() == n_multas,
            reduzir(orig, n_multas as nat, 10) == reduzir(multas@, n_multas as nat, cont as int),
            forall|k: int| 0 <= k < multas@.len() ==> orig.contains(#[trigger] multas@[k]),
        decreases multas@.len(),
    {
        let ghost antes = multas@;
        multas.remove(cont);
        proof {
            assert forall|k: int| 0 <= k < multas@.len() implies orig.contains(#[trigger] multas@[k]) by {
                if k < cont {
                    assert(multas@[k] == antes[k]);
                    assert(orig.contains(antes[k]));
                } else {
                    assert(multas@[k] == antes[k + 1]);
                    assert(orig.contains(antes[k + 1]));
                }
            }
        }
        let tamanho = multas.len();
        cont = ((cont as u128 + 10) % (tamanho as u128)) as usize;
    }
}

} // verus!
