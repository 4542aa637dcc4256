//! Local search moves for the maximum weight independent set variant, where a
//! penalty pair is an edge that a solution must not hold both ends of.
//!
//! As in `ils_vnd`, each function that draws a random order has a companion
//! that takes the order as an argument and has an exact contract.
use vstd::prelude::*;

use crate::carrossel::{conflita, lemma_contem_indice, lemma_peso_push};
use crate::ils_vnd::{
    ajustar, disjuntos, fora_de, inverter, itens_fora_de, lemma_ajustar, lemma_fora_de_completo, lemma_livres, lemma_permutacao_sem_repeticao,
    lemma_prefixo, lemma_reverso, lemma_todos_itens,
};
use crate::instancias::multas_normalizadas;
use crate::sorteio::{embaralhar, permutacao};
use crate::utils::{contem, copiar, itens, todos_itens};
use crate::{
    calcular_peso_total, calcular_valor_total, indices_menores, lemma_peso_cabe, lemma_peso_limitado,
    multa_ativa, peso_de, soma_multas, soma_valores, valor_de, Dados, Problema,
};

verus! {

/// Some penalty pair joins `v` to an item of `r`.
pub open spec fn em_conflito(v: usize, multas: Seq<(usize, usize, u32)>, r: Seq<usize>) -> bool {
    exists|m: int| 0 <= m < multas.len() && conflita(v, #[trigger] multas[m], r)
}

/// No penalty pair has both ends in `r`.
pub open spec fn independente(multas: Seq<(usize, usize, u32)>, r: Seq<usize>) -> bool {
    forall|m: int| 0 <= m < multas.len() ==> !multa_ativa(#[trigger] multas[m], r)
}

/// No penalty pair joins an item to itself.
pub open spec fn sem_lacos(multas: Seq<(usize, usize, u32)>) -> bool {
    forall|m: int| 0 <= m < multas.len() ==> #[trigger] multas[m].0 != multas[m].1
}

/// A feasible independent set.
pub open spec fn viavel_mwis(problema: &Problema, r: Seq<usize>) -> bool {
    problema.viavel(r) && independente(problema.multas@, r)
}

/// Takes the entries of `x` from the last one back, appending to `r` each one
/// that has no penalty pair with the items already in `r` and fits in `b_res`.
pub open spec fn preencher_mwis(d: Dados, b_res: int, x: Seq<usize>, r: Seq<usize>) -> Seq<usize>
    decreases x.len(),
{
    if x.len() == 0 {
        r
    } else {
        let v = x.last();
        if !em_conflito(v, d.multas, r) && b_res >= d.pesos[v as int] {
            preencher_mwis(d, b_res - d.pesos[v as int], x.drop_last(), r.push(v))
        } else {
            preencher_mwis(d, b_res, x.drop_last(), r)
        }
    }
}

/// The items of `s` joined to `ins` by a penalty pair, in the order of the
/// pairs (an item once per pair).
pub open spec fn adjacentes(ins: usize, multas: Seq<(usize, usize, u32)>, s: Seq<usize>) -> Seq<usize>
    decreases multas.len(),
{
    if multas.len() == 0 {
        Seq::empty()
    } else {
        let a = adjacentes(ins, multas.drop_last(), s);
        let m = multas.last();
        let a1 = if ins == m.0 && s.contains(m.1) {
            a.push(m.1)
        } else {
            a
        };
        if ins == m.1 && s.contains(m.0) {
            a1.push(m.0)
        } else {
            a1
        }
    }
}

/// The entries of `s`, in order, that are not in `a`.
pub open spec fn tirar(s: Seq<usize>, a: Seq<usize>) -> Seq<usize>
    decreases s.len(),
{
    if s.len() == 0 {
        Seq::empty()
    } else {
        let c = tirar(s.drop_last(), a);
        if a.contains(s.last()) {
            c
        } else {
            c.push(s.last())
        }
    }
}

/// `ins` replaces its neighbours in `s`.
pub open spec fn trocar(ins: usize, multas: Seq<(usize, usize, u32)>, s: Seq<usize>) -> Seq<usize> {
    tirar(s, adjacentes(ins, multas, s)).push(ins)
}

/// The first neighbourhood's move: `ins` replaces its neighbours, the sequence
/// is reversed, and entries are dropped from the end until it fits.
pub open spec fn mover_k1(d: Dados, b: int, s: Seq<usize>, ins: usize) -> Seq<usize> {
    ajustar(d, b, trocar(ins, d.multas, s).reverse())
}

/// The first move of the first neighbourhood that improves on `s`, trying the
/// entries of `v` from the last one back; `s` when none does.
pub open spec fn melhora_mwis_k1(d: Dados, b: int, s: Seq<usize>, v: Seq<usize>) -> Seq<usize>
    decreases v.len(),
{
    if v.len() == 0 {
        s
    } else {
        let t = mover_k1(d, b, s, v.last());
        if valor_de(s, d.valores, d.multas) < valor_de(t, d.valores, d.multas) {
            t
        } else {
            melhora_mwis_k1(d, b, s, v.drop_last())
        }
    }
}

/// Pops the entries of `v` from the end, remembering the last one popped that
/// has no penalty pair with `s`.
pub open spec fn escolher_add(multas: Seq<(usize, usize, u32)>, s: Seq<usize>, v: Seq<usize>, atual: Option<usize>) -> Option<usize>
    decreases v.len(),
{
    if v.len() == 0 {
        atual
    } else {
        let a = v.last();
        escolher_add(
            multas,
            s,
            v.drop_last(),
            if !em_conflito(a, multas, s) {
                Some(a)
            } else {
                atual
            },
        )
    }
}

/// The second neighbourhood's move: the entry at `idx` leaves, the item
/// `escolher_add` picks from `v` (if any) enters, the sequence is reversed
/// and entries are dropped from the end until it fits.
pub open spec fn mover_k2(d: Dados, b: int, s: Seq<usize>, idx: int, v: Seq<usize>) -> Seq<usize> {
    let t = s.remove(idx);
    let t1 = match escolher_add(d.multas, s, v, None) {
        Some(a) => t.push(a),
        None => t,
    };
    ajustar(d, b, t1.reverse())
}

/// The first move of the second neighbourhood that improves on `s`, for the
/// positions of `s` from `idx` on; the first move uses up `v`, so the later
/// ones only remove. `s` when none improves.
pub open spec fn melhora_mwis_k2(d: Dados, b: int, s: Seq<usize>, idx: int, v: Seq<usize>) -> Seq<usize>
    decreases s.len() - idx,
{
    if idx < 0 || idx >= s.len() {
        s
    } else {
        let t = mover_k2(d, b, s, idx, v);
        if valor_de(s, d.valores, d.multas) < valor_de(t, d.valores, d.multas) {
            t
        } else {
            melhora_mwis_k2(d, b, s, idx + 1, Seq::empty())
        }
    }
}

/// First improvement in neighbourhood `k` (1 or 2) with the outside items in
/// the order `v`.
pub open spec fn primeira_melhora_mwis(d: Dados, b: int, k: usize, s: Seq<usize>, v: Seq<usize>) -> Seq<usize> {
    if k == 1 {
        melhora_mwis_k1(d, b, s, v)
    } else {
        melhora_mwis_k2(d, b, s, 0, v)
    }
}

/// The insertions of a perturbation: the first `k - cont` entries of `x`, in
/// order, each replacing its neighbours.
pub open spec fn inserir_mwis(multas: Seq<(usize, usize, u32)>, x: Seq<usize>, r: Seq<usize>, k: nat, cont: nat) -> Seq<usize>
    decreases x.len(),
{
    if x.len() == 0 || cont >= k {
        r
    } else {
        inserir_mwis(multas, x.drop_first(), trocar(x[0], multas, r), k, cont + 1)
    }
}

/// The deterministic part of one perturbation round: the insertions, then
/// entries dropped from the end until the solution fits.
pub open spec fn perturbar_mwis(d: Dados, b: int, k: nat, x: Seq<usize>, r: Seq<usize>) -> Seq<usize> {
    ajustar(d, b, inserir_mwis(d.multas, x, r, k, 0))
}

/// The entries of `r` all occur in `s`.
pub open spec fn contido(r: Seq<usize>, s: Seq<usize>) -> bool {
    forall|i: usize| r.contains(i) ==> s.contains(i)
}

pub proof fn lemma_independente_contido(multas: Seq<(usize, usize, u32)>, r: Seq<usize>, s: Seq<usize>)
    requires
        contido(r, s),
        independente(multas, s),
    ensures
        independente(multas, r),
{
    assert forall|m: int| 0 <= m < multas.len() implies !multa_ativa(#[trigger] multas[m], r) by {
        if multa_ativa(multas[m], r) {
            assert(multa_ativa(multas[m], s));
        }
    }
}

/// Adding an item without conflicts keeps a set independent.
pub proof fn lemma_independente_push(multas: Seq<(usize, usize, u32)>, r: Seq<usize>, v: usize)
    requires
        sem_lacos(multas),
        independente(multas, r),
        !em_conflito(v, multas, r),
    ensures
        independente(multas, r.push(v)),
{
    let t = r.push(v);
    assert forall|m: int| 0 <= m < multas.len() implies !multa_ativa(#[trigger] multas[m], t) by {
        let e = multas[m];
        assert(!conflita(v, e, r));
        assert(e.0 != e.1);
        if t.contains(e.0) && t.contains(e.1) {
            let a = choose|a: int| 0 <= a < t.len() && t[a] == e.0;
            let c = choose|c: int| 0 <= c < t.len() && t[c] == e.1;
            if a < r.len() && c < r.len() {
                assert(r[a] == e.0 && r[c] == e.1);
                assert(multa_ativa(e, r));
            } else if a < r.len() {
                assert(r[a] == e.0);
                assert(r.contains(e.0));
            } else if c < r.len() {
                assert(r[c] == e.1);
                assert(r.contains(e.1));
            }
        }
    }
}

/// The penalty sum of an independent set is zero.
pub proof fn lemma_soma_multas_independente(multas: Seq<(usize, usize, u32)>, r: Seq<usize>)
    requires
        independente(multas, r),
    ensures
        soma_multas(multas, r) == 0,
    decreases multas.len(),
{
    if multas.len() > 0 {
        let md = multas.drop_last();
        assert(independente(md, r)) by {
            assert forall|m: int| 0 <= m < md.len() implies !multa_ativa(#[trigger] md[m], r) by {
                assert(md[m] == multas[m]);
            }
        }
        lemma_soma_multas_independente(md, r);
        assert(multas[multas.len() - 1] == multas.last());
    }
}

/// For an independent set, the objective is the plain sum of the values: no
/// penalty applies.
pub proof fn lemma_valor_independente(valores: Seq<u32>, multas: Seq<(usize, usize, u32)>, r: Seq<usize>)
    requires
        independente(multas, r),
    ensures
        valor_de(r, valores, multas) == soma_valores(r, valores),
{
    lemma_soma_multas_independente(multas, r);
}

/// `tirar` keeps a sub-sequence of the entries outside `a`.
pub proof fn lemma_tirar(s: Seq<usize>, a: Seq<usize>, n: int)
    requires
        indices_menores(s, n),
    ensures
        indices_menores(tirar(s, a), n),
        contido(tirar(s, a), s),
        forall|i: usize| tirar(s, a).contains(i) ==> !a.contains(i),
        s.no_duplicates() ==> tirar(s, a).no_duplicates(),
    decreases s.len(),
{
    if s.len() > 0 {
        let sd = s.drop_last();
        assert(indices_menores(sd, n)) by {
            assert forall|k: int| 0 <= k < sd.len() implies #[trigger] sd[k] < n by {
                assert(s[k] < n);
            }
        }
        lemma_tirar(sd, a, n);
        let c = tirar(sd, a);
        assert(s[s.len() - 1] == s.last());
        assert forall|i: usize| c.contains(i) implies s.contains(i) by {
            assert(sd.contains(i));
            let k = choose|k: int| 0 <= k < sd.len() && sd[k] == i;
            assert(s[k] == i);
        }
        if !a.contains(s.last()) {
            let cp = c.push(s.last());
            assert forall|i: usize| cp.contains(i) implies s.contains(i) && !a.contains(i) by {
                let k = choose|k: int| 0 <= k < cp.len() && cp[k] == i;
                if k < c.len() {
                    assert(c[k] == i);
                    assert(c.contains(i));
                }
            }
            if s.no_duplicates() {
                assert(sd.no_duplicates()) by {
                    assert forall|x: int, y: int| 0 <= x < y < sd.len() implies sd[x] != sd[y] by {
                        assert(s[x] != s[y]);
                    }
                }
                assert(!c.contains(s.last())) by {
                    if c.contains(s.last()) {
                        assert(sd.contains(s.last()));
                        let k = choose|k: int| 0 <= k < sd.len() && sd[k] == s.last();
                        assert(s[k] == s[s.len() - 1]);
                    }
                }
                assert forall|x: int, y: int| 0 <= x < y < cp.len() implies cp[x] != cp[y] by {
                    if y == c.len() {
                        assert(c.contains(c[x]));
                    }
                }
            }
        } else if s.no_duplicates() {
            assert(sd.no_duplicates()) by {
                assert forall|x: int, y: int| 0 <= x < y < sd.len() implies sd[x] != sd[y] by {
                    assert(s[x] != s[y]);
                }
            }
        }
    }
}

/// Every item of `s` that shares a pair with `ins` is among its neighbours.
pub proof fn lemma_adjacentes(ins: usize, multas: Seq<(usize, usize, u32)>, s: Seq<usize>)
    ensures
        forall|m: int|
            0 <= m < multas.len() ==> {
                &&& (ins == (#[trigger] multas[m]).0 && s.contains(multas[m].1)) ==> adjacentes(
                    ins,
                    multas,
                    s,
                ).contains(multas[m].1)
                &&& (ins == multas[m].1 && s.contains(multas[m].0)) ==> adjacentes(ins, multas, s).contains(
                    multas[m].0,
                )
            },
    decreases multas.len(),
{
    if multas.len() > 0 {
        let md = multas.drop_last();
        lemma_adjacentes(ins, md, s);
        let a = adjacentes(ins, md, s);
        let e = multas.last();
        let a1 = if ins == e.0 && s.contains(e.1) {
            a.push(e.1)
        } else {
            a
        };
        let a2 = adjacentes(ins, multas, s);
        assert(a2 == if ins == e.1 && s.contains(e.0) {
            a1.push(e.0)
        } else {
            a1
        });
        assert forall|i: usize| a.contains(i) implies a2.contains(i) by {
            let k = choose|k: int| 0 <= k < a.len() && a[k] == i;
            assert(a1[k] == i);
            assert(a2[k] == i);
        }
        assert forall|i: usize| a1.contains(i) implies a2.contains(i) by {
            let k = choose|k: int| 0 <= k < a1.len() && a1[k] == i;
            assert(a2[k] == i);
        }
        if ins == e.0 && s.contains(e.1) {
            assert(a1[a.len() as int] == e.1);
            assert(a1.contains(e.1));
        }
        if ins == e.1 && s.contains(e.0) {
            assert(a2[a1.len() as int] == e.0);
        }
        assert forall|m: int| 0 <= m < multas.len() implies {
            &&& (ins == (#[trigger] multas[m]).0 && s.contains(multas[m].1)) ==> a2.contains(multas[m].1)
            &&& (ins == multas[m].1 && s.contains(multas[m].0)) ==> a2.contains(multas[m].0)
        } by {
            if m < multas.len() - 1 {
                assert(multas[m] == md[m]);
                if ins == multas[m].0 && s.contains(multas[m].1) {
                    assert(a.contains(md[m].1));
                }
                if ins == multas[m].1 && s.contains(multas[m].0) {
                    assert(a.contains(md[m].0));
                }
            } else {
                assert(multas[m] == e);
            }
        }
    }
}

/// `trocar` leaves no conflict for `ins` and keeps an independent set independent.
pub proof fn lemma_trocar(multas: Seq<(usize, usize, u32)>, ins: usize, s: Seq<usize>, n: int)
    requires
        indices_menores(s, n),
        ins < n,
    ensures
        indices_menores(trocar(ins, multas, s), n),
        forall|i: usize| trocar(ins, multas, s).contains(i) ==> s.contains(i) || i == ins,
        (s.no_duplicates() && !s.contains(ins)) ==> trocar(ins, multas, s).no_duplicates(),
        (sem_lacos(multas) && independente(multas, s)) ==> independente(multas, trocar(ins, multas, s)),
{
    let a = adjacentes(ins, multas, s);
    let t = tirar(s, a);
    lemma_tirar(s, a, n);
    lemma_adjacentes(ins, multas, s);
    let tp = t.push(ins);
    assert forall|i: usize| tp.contains(i) implies s.contains(i) || i == ins by {
        let k = choose|k: int| 0 <= k < tp.len() && tp[k] == i;
        if k < t.len() {
            assert(t[k] == i);
            assert(t.contains(i));
        }
    }
    if s.no_duplicates() && !s.contains(ins) {
        assert(!t.contains(ins));
        assert forall|x: int, y: int| 0 <= x < y < tp.len() implies tp[x] != tp[y] by {
            if y == t.len() {
                assert(t.contains(t[x]));
            }
        }
    }
    if sem_lacos(multas) && independente(multas, s) {
        assert(contido(t, s));
        lemma_independente_contido(multas, t, s);
        assert(!em_conflito(ins, multas, t)) by {
            if em_conflito(ins, multas, t) {
                let m = choose|m: int| 0 <= m < multas.len() && conflita(ins, #[trigger] multas[m], t);
                let e = multas[m];
                if ins == e.0 && t.contains(e.1) {
                    assert(s.contains(e.1));
                    assert(a.contains(e.1));
                } else {
                    assert(s.contains(e.0));
                    assert(a.contains(e.0));
                }
            }
        }
        lemma_independente_push(multas, t, ins);
    }
}

/// A sequence and its reversal hold the same items.
pub proof fn lemma_reverso_contido(t: Seq<usize>)
    ensures
        contido(t.reverse(), t),
        contido(t, t.reverse()),
{
    let r = t.reverse();
    assert forall|i: usize| r.contains(i) implies t.contains(i) by {
        let k = choose|k: int| 0 <= k < r.len() && r[k] == i;
        assert(t[t.len() - 1 - k] == i);
    }
    assert forall|i: usize| t.contains(i) implies r.contains(i) by {
        let k = choose|k: int| 0 <= k < t.len() && t[k] == i;
        assert(r[t.len() - 1 - k] == i);
    }
}

/// Reversing and cutting to fit keeps feasibility and independence.
pub proof fn lemma_ajustar_reverso(d: Dados, b: int, t: Seq<usize>, n: int)
    requires
        0 <= b,
        indices_menores(t, n),
    ensures
        indices_menores(ajustar(d, b, t.reverse()), n),
        peso_de(ajustar(d, b, t.reverse()), d.pesos) <= b,
        contido(ajustar(d, b, t.reverse()), t),
        t.no_duplicates() ==> ajustar(d, b, t.reverse()).no_duplicates(),
{
    lemma_reverso(t, n);
    lemma_reverso_contido(t);
    lemma_ajustar(d, b, t.reverse());
    lemma_prefixo(ajustar(d, b, t.reverse()), t.reverse(), n);
}

/// `preencher_mwis` extends `r` with distinct new items without conflicts,
/// within `b_res`.
pub proof fn lemma_preencher_mwis(d: Dados, b_res: int, x: Seq<usize>, r: Seq<usize>, n: int)
    requires
        d.pesos.len() == n,
        indices_menores(x, n),
        indices_menores(r, n),
    ensures
        ({
            let res = preencher_mwis(d, b_res, x, r);
            &&& r.is_prefix_of(res)
            &&& indices_menores(res, n)
            &&& (x.no_duplicates() && r.no_duplicates() && disjuntos(x, r)) ==> res.no_duplicates()
            &&& b_res >= 0 ==> peso_de(res, d.pesos) <= peso_de(r, d.pesos) + b_res
            &&& b_res < 0 ==> res == r
            &&& (sem_lacos(d.multas) && independente(d.multas, r)) ==> independente(d.multas, res)
        }),
    decreases x.len(),
{
    if x.len() > 0 {
        let v = x.last();
        let xd = x.drop_last();
        assert(x[x.len() - 1] == v);
        assert(indices_menores(xd, n)) by {
            assert forall|k: int| 0 <= k < xd.len() implies #[trigger] xd[k] < n by {
                assert(x[k] < n);
            }
        }
        let hip = x.no_duplicates() && r.no_duplicates() && disjuntos(x, r);
        if x.no_duplicates() {
            assert(xd.no_duplicates()) by {
                assert forall|a: int, b: int| 0 <= a < b < xd.len() implies xd[a] != xd[b] by {
                    assert(x[a] != x[b]);
                }
            }
        }
        if !em_conflito(v, d.multas, r) && b_res >= d.pesos[v as int] {
            let r2 = r.push(v);
            assert(indices_menores(r2, n));
            if hip {
                assert(!r.contains(v)) by {
                    assert(!r.contains(x[x.len() - 1]));
                }
                assert(r2.no_duplicates()) by {
                    assert forall|a: int, b: int| 0 <= a < b < r2.len() implies r2[a] != r2[b] by {
                        if b == r.len() {
                            assert(r.contains(r[a]));
                        }
                    }
                }
                assert(disjuntos(xd, r2)) by {
                    assert forall|k: int| 0 <= k < xd.len() implies !r2.contains(#[trigger] xd[k]) by {
                        assert(!r.contains(x[k]));
                        assert(x[k] != x[x.len() - 1]);
                        if r2.contains(xd[k]) {
                            let t = choose|t: int| 0 <= t < r2.len() && r2[t] == xd[k];
                            if t < r.len() {
                                assert(r[t] == xd[k]);
                            }
                        }
                    }
                }
            }
            if sem_lacos(d.multas) && independente(d.multas, r) {
                lemma_independente_push(d.multas, r, v);
            }
            lemma_preencher_mwis(d, b_res - d.pesos[v as int], xd, r2, n);
            lemma_peso_push(r, v, d.pesos);
            let res = preencher_mwis(d, b_res, x, r);
            assert(r.is_prefix_of(res)) by {
                assert forall|k: int| 0 <= k < r.len() implies r[k] == res[k] by {
                    assert(r2[k] == r[k]);
                }
            }
        } else {
            if hip {
                assert(disjuntos(xd, r)) by {
                    assert forall|k: int| 0 <= k < xd.len() implies !r.contains(#[trigger] xd[k]) by {
                        assert(!r.contains(x[k]));
                    }
                }
            }
            lemma_preencher_mwis(d, b_res, xd, r, n);
        }
    } else {
        assert(r.is_prefix_of(r));
    }
}

/// `preencher_mwis` only appends to `r`.
pub proof fn lemma_preencher_mwis_prefixo(d: Dados, b_res: int, x: Seq<usize>, r: Seq<usize>)
    ensures
        r.is_prefix_of(preencher_mwis(d, b_res, x, r)),
    decreases x.len(),
{
    if x.len() > 0 {
        let v = x.last();
        if !em_conflito(v, d.multas, r) && b_res >= d.pesos[v as int] {
            let r2 = r.push(v);
            lemma_preencher_mwis_prefixo(d, b_res - d.pesos[v as int], x.drop_last(), r2);
            let res = preencher_mwis(d, b_res, x, r);
            assert forall|k: int| 0 <= k < r.len() implies r[k] == res[k] by {
                assert(r2[k] == r[k]);
            }
        } else {
            lemma_preencher_mwis_prefixo(d, b_res, x.drop_last(), r);
        }
    } else {
        assert(r.is_prefix_of(r));
    }
}

/// A prefix weighs no more than the whole.
pub proof fn lemma_peso_prefixo(r: Seq<usize>, t: Seq<usize>, pesos: Seq<u32>)
    requires
        r.is_prefix_of(t),
    ensures
        peso_de(r, pesos) <= peso_de(t, pesos),
    decreases t.len(),
{
    if t.len() == r.len() {
        assert(r =~= t);
    } else {
        assert(r.is_prefix_of(t.drop_last())) by {
            assert forall|k: int| 0 <= k < r.len() implies r[k] == t.drop_last()[k] by {
                assert(r[k] == t[k]);
            }
        }
        lemma_peso_prefixo(r, t.drop_last(), pesos);
    }
}

/// A conflict with the items of `r` is a conflict with those of any sequence
/// that `r` is a prefix of.
pub proof fn lemma_conflito_prefixo(v: usize, multas: Seq<(usize, usize, u32)>, r: Seq<usize>, t: Seq<usize>)
    requires
        r.is_prefix_of(t),
        em_conflito(v, multas, r),
    ensures
        em_conflito(v, multas, t),
{
    let m = choose|m: int| 0 <= m < multas.len() && conflita(v, #[trigger] multas[m], r);
    let e = multas[m];
    if v == e.0 && r.contains(e.1) {
        let a = choose|a: int| 0 <= a < r.len() && r[a] == e.1;
        assert(t[a] == e.1);
    } else {
        let a = choose|a: int| 0 <= a < r.len() && r[a] == e.0;
        assert(t[a] == e.0);
    }
    assert(conflita(v, multas[m], t));
}

/// The greedy filling cannot be extended: every entry of `x` ends up in the
/// result, has a penalty pair with an item of it, or weighs more than the
/// capacity left (`b_res` less the weight added).
pub proof fn lemma_preencher_mwis_maximal(d: Dados, b_res: int, x: Seq<usize>, r: Seq<usize>)
    ensures
        forall|k: int|
            0 <= k < x.len() ==> preencher_mwis(d, b_res, x, r).contains(#[trigger] x[k]) || em_conflito(
                x[k],
                d.multas,
                preencher_mwis(d, b_res, x, r),
            ) || d.pesos[x[k] as int] > b_res - (peso_de(preencher_mwis(d, b_res, x, r), d.pesos) - peso_de(
                r,
                d.pesos,
            )),
    decreases x.len(),
{
    if x.len() > 0 {
        let v = x.last();
        let xd = x.drop_last();
        let res = preencher_mwis(d, b_res, x, r);
        if !em_conflito(v, d.multas, r) && b_res >= d.pesos[v as int] {
            let r2 = r.push(v);
            let b2 = b_res - d.pesos[v as int];
            lemma_preencher_mwis_maximal(d, b2, xd, r2);
            lemma_preencher_mwis_prefixo(d, b2, xd, r2);
            lemma_peso_push(r, v, d.pesos);
            assert(res == preencher_mwis(d, b2, xd, r2));
            assert forall|k: int| 0 <= k < x.len() implies res.contains(#[trigger] x[k]) || em_conflito(
                x[k],
                d.multas,
                res,
            ) || d.pesos[x[k] as int] > b_res - (peso_de(res, d.pesos) - peso_de(r, d.pesos)) by {
                if k == x.len() - 1 {
                    assert(res[r.len() as int] == r2[r.len() as int]);
                } else {
                    assert(xd[k] == x[k]);
                }
            }
        } else {
            lemma_preencher_mwis_maximal(d, b_res, xd, r);
            lemma_preencher_mwis_prefixo(d, b_res, xd, r);
            lemma_peso_prefixo(r, res, d.pesos);
            assert forall|k: int| 0 <= k < x.len() implies res.contains(#[trigger] x[k]) || em_conflito(
                x[k],
                d.multas,
                res,
            ) || d.pesos[x[k] as int] > b_res - (peso_de(res, d.pesos) - peso_de(r, d.pesos)) by {
                if k == x.len() - 1 {
                    if em_conflito(v, d.multas, r) {
                        lemma_conflito_prefixo(v, d.multas, r, res);
                    }
                } else {
                    assert(xd[k] == x[k]);
                }
            }
        }
    }
}

/// Whether some penalty pair joins `v` to an item of `r`.
fn em_conflito_exec(v: usize, multas: &Vec<(usize, usize, u32)>, r: &[usize]) -> (achado: bool)
    ensures
        achado == em_conflito(v, multas@, r@),
{
    let mut m: usize = 0;
    while m < multas.len()
        invariant
            m <= multas@.len(),
            forall|t: int| 0 <= t < m ==> !conflita(v, #[trigger] multas@[t], r@),
        decreases multas@.len() - m,
    {
        let (i, j, _d) = multas[m];
        if v == i && contem(r, j) || v == j && contem(r, i) {
            assert(conflita(v, multas@[m as int], r@));
            return true;
        }
        m = m + 1;
    }
    false
}

/// The neighbours of `ins` in `s`, as `adjacentes` states.
fn adjacentes_exec(ins: usize, multas: &Vec<(usize, usize, u32)>, s: &[usize]) -> (a: Vec<usize>)
    ensures
        a@ == adjacentes(ins, multas@, s@),
{
    let mut a: Vec<usize> = Vec::new();
    let mut m: usize = 0;
    while m < multas.len()
        invariant
            m <= multas@.len(),
            a@ == adjacentes(ins, multas@.take(m as int), s@),
        decreases multas@.len() - m,
    {
        let (i, j, _d) = multas[m];
        proof {
            assert(multas@.take(m + 1).drop_last() =~= multas@.take(m as int));
            assert(multas@.take(m + 1).last() == multas@[m as int]);
        }
        if ins == i && contem(s, j) {
            a.push(j);
        }
        if ins == j && contem(s, i) {
            a.push(i);
        }
        m = m + 1;
    }
    assert(multas@.take(multas@.len() as int) =~= multas@);
    a
}

/// The entries of `s` that are not in `a`.
fn tirar_exec(s: &[usize], a: &[usize]) -> (r: Vec<usize>)
    ensures
        r@ == tirar(s@, a@),
{
    let mut r: Vec<usize> = Vec::new();
    let mut k: usize = 0;
    while k < s.len()
        invariant
            k <= s@.len(),
            r@ == tirar(s@.take(k as int), a@),
        decreases s@.len() - k,
    {
        proof {
            assert(s@.take(k + 1).drop_last() =~= s@.take(k as int));
        }
        if !contem(a, s[k]) {
            r.push(s[k]);
        }
        k = k + 1;
    }
    assert(s@.take(s@.len() as int) =~= s@);
    r
}

/// `ins` replaces its neighbours in `s`.
fn trocar_exec(ins: usize, multas: &Vec<(usize, usize, u32)>, s: &[usize]) -> (r: Vec<usize>)
    ensures
        r@ == trocar(ins, multas@, s@),
{
    let adj = adjacentes_exec(ins, multas, s);
    let mut r = tirar_exec(s, adj.as_slice());
    r.push(ins);
    r
}

/// Drops the last entry of `t` until its weight is at most `b`, recomputing
/// the weight after each drop.
fn ajustar_exec(problema: &Problema, t: &mut Vec<usize>)
    requires
        problema.bem_formado(),
        indices_menores(old(t)@, problema.n_itens()),
    ensures
        final(t)@ == ajustar(problema.dados(), problema.b as int, old(t)@),
        indices_menores(final(t)@, problema.n_itens()),
{
    let ghost d = problema.dados();
    let ghost alvo = ajustar(d, problema.b as int, t@);
    assert(t@.len() == t.len());
    proof {
        lemma_peso_cabe(t@, problema.pesos@);
    }
    let mut b_res: i128 = problema.b as i128 - calcular_peso_total(t.as_slice(), problema) as i128;
    while b_res < 0
        invariant
            d == problema.dados(),
            problema.bem_formado(),
            indices_menores(t@, problema.n_itens()),
            b_res == problema.b - peso_de(t@, problema.pesos@),
            alvo == ajustar(d, problema.b as int, t@),
        decreases t@.len(),
    {
        let ghost antes = t@;
        proof {
            lemma_peso_limitado(antes, problema.pesos@);
        }
        t.pop();
        proof {
            assert(t@ == antes.drop_last());
            assert(indices_menores(t@, problema.n_itens())) by {
                assert forall|j: int| 0 <= j < t@.len() implies #[trigger] t@[j] < problema.n_itens() by {
                    assert(antes[j] < problema.n_itens());
                }
            }
        }
        assert(t@.len() == t.len());
        proof {
            lemma_peso_cabe(t@, problema.pesos@);
        }
        b_res = problema.b as i128 - calcular_peso_total(t.as_slice(), problema) as i128;
    }
    assert(peso_de(t@, problema.pesos@) <= problema.b);
}

/// Greedy filling of `s` with the items of `x`, taken from the last one back,
/// each kept when it has no penalty pair with the items kept and fits.
pub fn add_free_vertices_mwis_com_ordem(s: &mut Vec<usize>, problema: &Problema, x: Vec<usize>)
    requires
        problema.bem_formado(),
        indices_menores(old(s)@, problema.n_itens()),
        indices_menores(x@, problema.n_itens()),
    ensures
        final(s)@ == preencher_mwis(problema.dados(), problema.b - peso_de(old(s)@, problema.pesos@), x@, old(s)@),
        forall|k: int|
            0 <= k < x@.len() ==> final(s)@.contains(#[trigger] x@[k]) || em_conflito(
                x@[k],
                problema.multas@,
                final(s)@,
            ) || problema.pesos@[x@[k] as int] > problema.b - peso_de(final(s)@, problema.pesos@),
{
    proof {
        lemma_preencher_mwis_maximal(problema.dados(), problema.b - peso_de(s@, problema.pesos@), x@, s@);
    }
    let ghost d = problema.dados();
    assert(s@.len() == s.len());
    proof {
        lemma_peso_cabe(s@, problema.pesos@);
    }
    let mut b_res: i128 = problema.b as i128 - calcular_peso_total(s.as_slice(), problema) as i128;
    let ghost alvo = preencher_mwis(d, b_res as int, x@, s@);
    let mut x = x;
    while x.len() > 0
        invariant
            d == problema.dados(),
            problema.bem_formado(),
            indices_menores(x@, problema.n_itens()),
            -(0xffff_ffff_ffff_ffff * 0xffff_ffffint) <= b_res <= 0xffff_ffff_ffff_ffff,
            alvo == preencher_mwis(d, b_res as int, x@, s@),
        decreases x@.len(),
    {
        let ghost antes = x@;
        let v = x.pop().unwrap();
        proof {
            assert(x@ == antes.drop_last());
            assert(antes[antes.len() - 1] < problema.n_itens());
            assert(indices_menores(x@, problema.n_itens())) by {
                assert forall|k: int| 0 <= k < x@.len() implies #[trigger] x@[k] < problema.n_itens() by {
                    assert(antes[k] < problema.n_itens());
                }
            }
        }
        let achado = em_conflito_exec(v, problema.multas, s.as_slice());
        if !achado && b_res >= problema.pesos[v] as i128 {
            b_res = b_res - problema.pesos[v] as i128;
            s.push(v);
        }
    }
}

/// Greedy filling of `s` with the items outside it in a random order, each
/// kept when it has no penalty pair with the items kept and fits. Whatever the
/// order drawn, a feasible independent set stays one (with no penalty pair
/// joining an item to itself), and the result cannot be extended: every item
/// left out has a penalty pair with an item of it or does not fit in the
/// capacity left.
pub fn add_free_vertices_mwis(s: &mut Vec<usize>, problema: &Problema)
    requires
        problema.bem_formado(),
        indices_menores(old(s)@, problema.n_itens()),
    ensures
        exists|x: Seq<usize>|
            #[trigger] permutacao(x, fora_de(todos_itens(problema.n_itens() as nat), old(s)@)) && final(s)@
                == preencher_mwis(problema.dados(), problema.b - peso_de(old(s)@, problema.pesos@), x, old(s)@),
        old(s)@.is_prefix_of(final(s)@),
        indices_menores(final(s)@, problema.n_itens()),
        problema.viavel(old(s)@) ==> problema.viavel(final(s)@),
        (sem_lacos(problema.multas@) && independente(problema.multas@, old(s)@)) ==> independente(
            problema.multas@,
            final(s)@,
        ),
        forall|v: usize|
            v < problema.n_itens() && !final(s)@.contains(v) ==> em_conflito(v, problema.multas@, final(s)@)
                || problema.pesos@[v as int] > problema.b - peso_de(final(s)@, problema.pesos@),
{
    let ghost s0 = s@;
    let n = problema.valores.len();
    let mut x = itens_fora_de(n, s.as_slice());
    let ghost livres = x@;
    embaralhar(&mut x);
    proof {
        lemma_livres(n as nat, s0);
        lemma_permutacao_sem_repeticao(x@, livres, n as int);
        assert(disjuntos(x@, s0)) by {
            assert forall|j: int| 0 <= j < x@.len() implies !s0.contains(#[trigger] x@[j]) by {
                assert(x@.contains(x@[j]));
                assert(livres.contains(x@[j]));
                let t = choose|t: int| 0 <= t < livres.len() && livres[t] == x@[j];
                assert(!s0.contains(livres[t]));
            }
        }
        lemma_preencher_mwis(problema.dados(), problema.b - peso_de(s0, problema.pesos@), x@, s0, n as int);
    }
    let ghost xs = x@;
    add_free_vertices_mwis_com_ordem(s, problema, x);
    assert(permutacao(xs, fora_de(todos_itens(problema.n_itens() as nat), s0)));
    proof {
        lemma_todos_itens(n as nat);
        assert forall|v: usize|
            v < problema.n_itens() && !s@.contains(v) implies em_conflito(v, problema.multas@, s@)
                || problema.pesos@[v as int] > problema.b - peso_de(s@, problema.pesos@) by {
            if s0.contains(v) {
                let a = choose|a: int| 0 <= a < s0.len() && s0[a] == v;
                assert(s@[a] == v);
            }
            lemma_fora_de_completo(todos_itens(n as nat), s0, v);
            assert(xs.contains(v));
            let k = choose|k: int| 0 <= k < xs.len() && xs[k] == v;
            assert(s@.contains(xs[k]) || em_conflito(xs[k], problema.multas@, s@)
                || problema.pesos@[xs[k] as int] > problema.b - peso_de(s@, problema.pesos@));
        }
    }
}

/// Greedy construction of an independent set from the items in the order
/// `x`, taken from the last one back.
pub fn initialize_mwis_com_ordem(problema: &Problema, x: Vec<usize>) -> (r: Vec<usize>)
    requires
        problema.bem_formado(),
        indices_menores(x@, problema.n_itens()),
    ensures
        r@ == preencher_mwis(problema.dados(), problema.b as int, x@, Seq::empty()),
{
    let mut r: Vec<usize> = Vec::new();
    proof {
        assert(peso_de(r@, problema.pesos@) == 0);
    }
    add_free_vertices_mwis_com_ordem(&mut r, problema, x);
    r
}

/// Greedy construction of an independent set from the items in a random
/// order. Whatever the order drawn, the result is feasible, and independent
/// when no penalty pair joins an item to itself.
pub fn initialize_mwis(problema: &Problema) -> (r: Vec<usize>)
    requires
        problema.bem_formado(),
    ensures
        exists|x: Seq<usize>|
            #[trigger] permutacao(x, todos_itens(problema.n_itens() as nat)) && r@ == preencher_mwis(
                problema.dados(),
                problema.b as int,
                x,
                Seq::empty(),
            ),
        problema.viavel(r@),
        sem_lacos(problema.multas@) ==> independente(problema.multas@, r@),
{
    let n = problema.valores.len();
    let mut x = itens(n);
    embaralhar(&mut x);
    proof {
        lemma_todos_itens(n as nat);
        lemma_permutacao_sem_repeticao(x@, todos_itens(n as nat), n as int);
        let e = Seq::<usize>::empty();
        lemma_preencher_mwis(problema.dados(), problema.b as int, x@, e, n as int);
        assert(peso_de(e, problema.pesos@) == 0);
    }
    let ghost xs = x@;
    let r = initialize_mwis_com_ordem(problema, x);
    assert(permutacao(xs, todos_itens(problema.n_itens() as nat)));
    r
}

pub proof fn lemma_mover_k1(d: Dados, b: int, s: Seq<usize>, ins: usize, n: int)
    requires
        0 <= b,
        indices_menores(s, n),
        ins < n,
    ensures
        indices_menores(mover_k1(d, b, s, ins), n),
        peso_de(mover_k1(d, b, s, ins), d.pesos) <= b,
        (s.no_duplicates() && !s.contains(ins)) ==> mover_k1(d, b, s, ins).no_duplicates(),
        (sem_lacos(d.multas) && independente(d.multas, s)) ==> independente(d.multas, mover_k1(d, b, s, ins)),
{
    let t = trocar(ins, d.multas, s);
    lemma_trocar(d.multas, ins, s, n);
    lemma_ajustar_reverso(d, b, t, n);
    if sem_lacos(d.multas) && independente(d.multas, s) {
        lemma_independente_contido(d.multas, ajustar(d, b, t.reverse()), t);
    }
}

pub proof fn lemma_melhora_mwis_k1(d: Dados, b: int, s: Seq<usize>, v: Seq<usize>, n: int)
    requires
        0 <= b,
        indices_menores(s, n),
        indices_menores(v, n),
    ensures
        ({
            let r = melhora_mwis_k1(d, b, s, v);
            &&& indices_menores(r, n)
            &&& r == s || valor_de(s, d.valores, d.multas) < valor_de(r, d.valores, d.multas)
            &&& (s.no_duplicates() && peso_de(s, d.pesos) <= b && disjuntos(v, s)) ==> (r.no_duplicates()
                && peso_de(r, d.pesos) <= b)
            &&& (sem_lacos(d.multas) && independente(d.multas, s)) ==> independente(d.multas, r)
        }),
    decreases v.len(),
{
    if v.len() > 0 {
        let vd = v.drop_last();
        assert(v[v.len() - 1] == v.last());
        assert(v.last() < n);
        lemma_mover_k1(d, b, s, v.last(), n);
        assert(indices_menores(vd, n)) by {
            assert forall|k: int| 0 <= k < vd.len() implies #[trigger] vd[k] < n by {
                assert(v[k] < n);
            }
        }
        if disjuntos(v, s) {
            assert(!s.contains(v[v.len() - 1]));
            assert(disjuntos(vd, s)) by {
                assert forall|k: int| 0 <= k < vd.len() implies !s.contains(#[trigger] vd[k]) by {
                    assert(!s.contains(v[k]));
                }
            }
        }
        lemma_melhora_mwis_k1(d, b, s, vd, n);
    }
}

pub proof fn lemma_escolher_add(multas: Seq<(usize, usize, u32)>, s: Seq<usize>, v: Seq<usize>, atual: Option<usize>)
    ensures
        escolher_add(multas, s, v, atual) matches Some(a) ==> (atual == Some(a) || (v.contains(a)
            && !em_conflito(a, multas, s))),
    decreases v.len(),
{
    if v.len() > 0 {
        let a = v.last();
        let prox = if !em_conflito(a, multas, s) {
            Some(a)
        } else {
            atual
        };
        lemma_escolher_add(multas, s, v.drop_last(), prox);
        assert(v[v.len() - 1] == a);
        if let Some(x) = escolher_add(multas, s, v, atual) {
            if v.drop_last().contains(x) {
                let k = choose|k: int| 0 <= k < v.drop_last().len() && v.drop_last()[k] == x;
                assert(v[k] == x);
            }
        }
    }
}

pub proof fn lemma_mover_k2(d: Dados, b: int, s: Seq<usize>, idx: int, v: Seq<usize>, n: int)
    requires
        0 <= b,
        0 <= idx < s.len(),
        indices_menores(s, n),
        indices_menores(v, n),
    ensures
        indices_menores(mover_k2(d, b, s, idx, v), n),
        peso_de(mover_k2(d, b, s, idx, v), d.pesos) <= b,
        (s.no_duplicates() && disjuntos(v, s)) ==> mover_k2(d, b, s, idx, v).no_duplicates(),
        (sem_lacos(d.multas) && independente(d.multas, s)) ==> independente(d.multas, mover_k2(d, b, s, idx, v)),
{
    let t = s.remove(idx);
    assert(contido(t, s)) by {
        assert forall|i: usize| t.contains(i) implies s.contains(i) by {
            let k = choose|k: int| 0 <= k < t.len() && t[k] == i;
            if k < idx {
                assert(s[k] == i);
            } else {
                assert(s[k + 1] == i);
            }
        }
    }
    assert(indices_menores(t, n)) by {
        assert forall|k: int| 0 <= k < t.len() implies #[trigger] t[k] < n by {
            if k < idx {
                assert(s[k] == t[k]);
            } else {
                assert(s[k + 1] == t[k]);
            }
        }
    }
    if s.no_duplicates() {
        assert forall|x: int, y: int| 0 <= x < y < t.len() implies t[x] != t[y] by {
            let x2 = if x < idx { x } else { x + 1 };
            let y2 = if y < idx { y } else { y + 1 };
            assert(t[x] == s[x2]);
            assert(t[y] == s[y2]);
        }
    }
    lemma_escolher_add(d.multas, s, v, None);
    let t1 = match escolher_add(d.multas, s, v, None) {
        Some(a) => t.push(a),
        None => t,
    };
    match escolher_add(d.multas, s, v, None) {
        Some(a) => {
            lemma_contem_indice(v, n, a);
            assert(indices_menores(t1, n));
            if s.no_duplicates() && disjuntos(v, s) {
                let k = choose|k: int| 0 <= k < v.len() && v[k] == a;
                assert(!s.contains(v[k]));
                assert(!t.contains(a));
                assert forall|x: int, y: int| 0 <= x < y < t1.len() implies t1[x] != t1[y] by {
                    if y == t.len() {
                        assert(t.contains(t[x]));
                    }
                }
            }
            assert(contido(t1, s.push(a))) by {
                assert forall|i: usize| t1.contains(i) implies s.push(a).contains(i) by {
                    let k = choose|k: int| 0 <= k < t1.len() && t1[k] == i;
                    if k < t.len() {
                        assert(t.contains(t[k]));
                        assert(s.contains(i));
                        let j = choose|j: int| 0 <= j < s.len() && s[j] == i;
                        assert(s.push(a)[j] == i);
                    } else {
                        assert(s.push(a)[s.len() as int] == a);
                    }
                }
            }
            if sem_lacos(d.multas) && independente(d.multas, s) {
                lemma_independente_contido(d.multas, t, s);
                assert(!em_conflito(a, d.multas, t)) by {
                    if em_conflito(a, d.multas, t) {
                        let m = choose|m: int| 0 <= m < d.multas.len() && conflita(a, #[trigger] d.multas[m], t);
                        assert(conflita(a, d.multas[m], s));
                    }
                }
                lemma_independente_push(d.multas, t, a);
            }
        },
        None => {
            if sem_lacos(d.multas) && independente(d.multas, s) {
                lemma_independente_contido(d.multas, t, s);
            }
        },
    }
    lemma_ajustar_reverso(d, b, t1, n);
    if sem_lacos(d.multas) && independente(d.multas, s) {
        lemma_independente_contido(d.multas, ajustar(d, b, t1.reverse()), t1);
    }
}

pub proof fn lemma_melhora_mwis_k2(d: Dados, b: int, s: Seq<usize>, idx: int, v: Seq<usize>, n: int)
    requires
        0 <= b,
        indices_menores(s, n),
        indices_menores(v, n),
    ensures
        ({
            let r = melhora_mwis_k2(d, b, s, idx, v);
            &&& indices_menores(r, n)
            &&& r == s || valor_de(s, d.valores, d.multas) < valor_de(r, d.valores, d.multas)
            &&& (s.no_duplicates() && peso_de(s, d.pesos) <= b && disjuntos(v, s)) ==> (r.no_duplicates()
                && peso_de(r, d.pesos) <= b)
            &&& (sem_lacos(d.multas) && independente(d.multas, s)) ==> independente(d.multas, r)
        }),
    decreases s.len() - idx,
{
    if 0 <= idx < s.len() {
        lemma_mover_k2(d, b, s, idx, v, n);
        let e = Seq::<usize>::empty();
        assert(disjuntos(e, s));
        lemma_melhora_mwis_k2(d, b, s, idx + 1, e, n);
    }
}

/// First improvement in neighbourhood `k` with the outside items in the order
/// `v_menos_s`, as `primeira_melhora_mwis` states.
#[verifier::loop_isolation(false)]
pub fn first_improvement_mwis_com_ordem(k: usize, s: &[usize], problema: &Problema, v_menos_s: Vec<usize>) -> (r:
    Vec<usize>)
    requires
        k == 1 || k == 2,
        problema.bem_formado(),
        indices_menores(s@, problema.n_itens()),
        indices_menores(v_menos_s@, problema.n_itens()),
    ensures
        r@ == primeira_melhora_mwis(problema.dados(), problema.b as int, k, s@, v_menos_s@),
        indices_menores(r@, problema.n_itens()),
        r@ == s@ || valor_de(s@, problema.valores@, problema.multas@) < valor_de(r@, problema.valores@, problema.multas@),
        (problema.viavel(s@) && disjuntos(v_menos_s@, s@)) ==> problema.viavel(r@),
        (sem_lacos(problema.multas@) && independente(problema.multas@, s@)) ==> independente(problema.multas@, r@),
{
    let ghost d = problema.dados();
    let ghost b = problema.b as int;
    let ghost v0 = v_menos_s@;
    proof {
        lemma_melhora_mwis_k1(d, b, s@, v0, problema.n_itens());
        lemma_melhora_mwis_k2(d, b, s@, 0, v0, problema.n_itens());
    }
    let ghost s0 = s@;
    let s_c = copiar(s);
    let mut v_rest = v_menos_s;
    if k == 1 {
        while v_rest.len() > 0
            invariant
                k == 1,
                s_c@ == s0,
                d == problema.dados(),
                b == problema.b as int,
                problema.bem_formado(),
                indices_menores(s_c@, problema.n_itens()),
                indices_menores(v_rest@, problema.n_itens()),
                melhora_mwis_k1(d, b, s_c@, v0) == melhora_mwis_k1(d, b, s_c@, v_rest@),
            decreases v_rest@.len(),
        {
            let ghost antes = v_rest@;
            let ins = v_rest.pop().unwrap();
            proof {
                assert(v_rest@ == antes.drop_last());
                assert(antes[antes.len() - 1] < problema.n_itens());
                assert(indices_menores(v_rest@, problema.n_itens())) by {
                    assert forall|j: int| 0 <= j < v_rest@.len() implies #[trigger] v_rest@[j]
                        < problema.n_itens() by {
                        assert(antes[j] < problema.n_itens());
                    }
                }
                lemma_trocar(problema.multas@, ins, s_c@, problema.n_itens());
                lemma_reverso(trocar(ins, problema.multas@, s_c@), problema.n_itens());
            }
            let mut s_tmp = trocar_exec(ins, problema.multas, s_c.as_slice());
            inverter(&mut s_tmp);
            ajustar_exec(problema, &mut s_tmp);
            assert(antes.last() == ins);
            assert(s_tmp@ == mover_k1(d, b, s_c@, antes.last()));
            if calcular_valor_total(s_c.as_slice(), problema) < calcular_valor_total(s_tmp.as_slice(), problema) {
                assert(melhora_mwis_k1(d, b, s_c@, antes) == s_tmp@);
                return s_tmp;
            }
        }
        s_c
    } else {
        let mut idx: usize = 0;
        while idx < s_c.len()
            invariant
                k == 2,
                s_c@ == s0,
                idx <= s_c@.len(),
                d == problema.dados(),
                b == problema.b as int,
                problema.bem_formado(),
                indices_menores(s_c@, problema.n_itens()),
                indices_menores(v_rest@, problema.n_itens()),
                idx > 0 ==> v_rest@.len() == 0,
                melhora_mwis_k2(d, b, s_c@, 0, v0) == melhora_mwis_k2(d, b, s_c@, idx as int, v_rest@),
            decreases s_c@.len() - idx,
        {
            let ghost vi = v_rest@;
            let mut s_tmp = copiar(s_c.as_slice());
            let mut add_1: Option<usize> = None;
            let mut add_2: Option<usize> = None;

            while v_rest.len() > 0
                invariant
                    escolher_add(problema.multas@, s_c@, vi, None) == escolher_add(
                        problema.multas@,
                        s_c@,
                        v_rest@,
                        add_1,
                    ),
                    s_tmp@ == s_c@,
                decreases v_rest@.len(),
            {
                let add = v_rest.pop().unwrap();
                let achado = em_conflito_exec(add, problema.multas, s_tmp.as_slice());
                if !achado {
                    add_1 = Some(add);
                }
            }

            while v_rest.len() > 0
                invariant
                    v_rest@.len() == 0,
                    add_2 is None,
                decreases v_rest@.len(),
            {
                let add = v_rest.pop().unwrap();
                let achado = em_conflito_exec(add, problema.multas, s_tmp.as_slice());
                if !achado {
                    add_2 = Some(add);
                }
            }

            s_tmp.remove(idx);
            if add_1.is_some() {
                s_tmp.push(add_1.unwrap());
            }
            if add_2.is_some() {
                s_tmp.push(add_2.unwrap());
            }
            proof {
                lemma_escolher_add(problema.multas@, s_c@, vi, None);
                if let Some(a) = add_1 {
                    lemma_contem_indice(vi, problema.n_itens(), a);
                }
                assert(indices_menores(s_tmp@, problema.n_itens())) by {
                    assert forall|j: int| 0 <= j < s_tmp@.len() implies #[trigger] s_tmp@[j] < problema.n_itens() by {
                        if j < idx {
                            assert(s_tmp@[j] == s_c@[j]);
                        } else if j < s_c@.len() - 1 {
                            assert(s_tmp@[j] == s_c@[j + 1]);
                        }
                    }
                }
            }
            let ghost t1 = s_tmp@;
            inverter(&mut s_tmp);
            proof {
                lemma_reverso(t1, problema.n_itens());
            }
            ajustar_exec(problema, &mut s_tmp);
            assert(s_tmp@ == mover_k2(d, b, s_c@, idx as int, vi)) by {
                let t = s_c@.remove(idx as int);
                match escolher_add(d.multas, s_c@, vi, None) {
                    Some(a) => assert(t1 =~= t.push(a)),
                    None => assert(t1 =~= t),
                }
            }
            if calcular_valor_total(s_c.as_slice(), problema) < calcular_valor_total(s_tmp.as_slice(), problema) {
                assert(melhora_mwis_k2(d, b, s_c@, idx as int, vi) == s_tmp@);
                return s_tmp;
            }
            assert(v_rest@ =~= Seq::<usize>::empty());
            assert(melhora_mwis_k2(d, b, s_c@, idx as int, vi) == melhora_mwis_k2(d, b, s_c@, idx + 1, v_rest@));
            idx = idx + 1;
        }
        s_c
    }
}

/// First improvement in neighbourhood `k` (1: insert an outside item in place
/// of its neighbours; 2: drop one item and insert one outside item without
/// conflicts), with the outside items in a random order. Whatever the order
/// drawn, the result is `s` or strictly better, feasible when `s` is, and
/// independent when `s` is (with no pair joining an item to itself).
pub fn first_improvement_mwis(k: usize, s: &[usize], problema: &Problema) -> (r: Vec<usize>)
    requires
        k == 1 || k == 2,
        problema.bem_formado(),
        indices_menores(s@, problema.n_itens()),
    ensures
        exists|v: Seq<usize>|
            #[trigger] permutacao(v, fora_de(todos_itens(problema.n_itens() as nat), s@)) && r@
                == primeira_melhora_mwis(problema.dados(), problema.b as int, k, s@, v),
        indices_menores(r@, problema.n_itens()),
        r@ == s@ || valor_de(s@, problema.valores@, problema.multas@) < valor_de(r@, problema.valores@, problema.multas@),
        problema.viavel(s@) ==> problema.viavel(r@),
        (sem_lacos(problema.multas@) && independente(problema.multas@, s@)) ==> independente(problema.multas@, r@),
{
    let n = problema.valores.len();
    let mut v_menos_s = itens_fora_de(n, s);
    let ghost livres = v_menos_s@;
    embaralhar(&mut v_menos_s);
    proof {
        lemma_livres(n as nat, s@);
        lemma_permutacao_sem_repeticao(v_menos_s@, livres, n as int);
        assert(disjuntos(v_menos_s@, s@)) by {
            assert forall|j: int| 0 <= j < v_menos_s@.len() implies !s@.contains(#[trigger] v_menos_s@[j]) by {
                assert(v_menos_s@.contains(v_menos_s@[j]));
                assert(livres.contains(v_menos_s@[j]));
                let t = choose|t: int| 0 <= t < livres.len() && livres[t] == v_menos_s@[j];
                assert(!s@.contains(livres[t]));
            }
        }
    }
    let ghost v = v_menos_s@;
    let r = first_improvement_mwis_com_ordem(k, s, problema, v_menos_s);
    assert(permutacao(v, fora_de(todos_itens(problema.n_itens() as nat), s@)));
    r
}

pub proof fn lemma_inserir_mwis(multas: Seq<(usize, usize, u32)>, x: Seq<usize>, r: Seq<usize>, k: nat, cont: nat, n: int)
    requires
        indices_menores(x, n),
        indices_menores(r, n),
    ensures
        ({
            let res = inserir_mwis(multas, x, r, k, cont);
            &&& indices_menores(res, n)
            &&& (r.no_duplicates() && x.no_duplicates() && disjuntos(x, r)) ==> res.no_duplicates()
            &&& (sem_lacos(multas) && independente(multas, r)) ==> independente(multas, res)
        }),
    decreases x.len(),
{
    if !(x.len() == 0 || cont >= k) {
        let x0 = x[0];
        let xd = x.drop_first();
        let t = trocar(x0, multas, r);
        lemma_trocar(multas, x0, r, n);
        assert(indices_menores(xd, n)) by {
            assert forall|j: int| 0 <= j < xd.len() implies #[trigger] xd[j] < n by {
                assert(x[j + 1] < n);
            }
        }
        if r.no_duplicates() && x.no_duplicates() && disjuntos(x, r) {
            assert(!r.contains(x[0]));
            assert(xd.no_duplicates()) by {
                assert forall|a: int, c: int| 0 <= a < c < xd.len() implies xd[a] != xd[c] by {
                    assert(x[a + 1] != x[c + 1]);
                }
            }
            assert(disjuntos(xd, t)) by {
                assert forall|j: int| 0 <= j < xd.len() implies !t.contains(#[trigger] xd[j]) by {
                    assert(!r.contains(x[j + 1]));
                    assert(x[j + 1] != x[0]);
                }
            }
        }
        lemma_inserir_mwis(multas, xd, t, k, cont + 1, n);
    }
}

/// The deterministic part of a perturbation round, as `perturbar_mwis` states:
/// the first `k` items of `x` enter `r`, each in place of its neighbours, then
/// entries are dropped from the end until the solution fits.
pub fn perturb_mwis_com_ordem(k: usize, r: &[usize], problema: &Problema, x: &[usize]) -> (res: Vec<usize>)
    requires
        problema.bem_formado(),
        indices_menores(r@, problema.n_itens()),
        indices_menores(x@, problema.n_itens()),
    ensures
        res@ == perturbar_mwis(problema.dados(), problema.b as int, k as nat, x@, r@),
        indices_menores(res@, problema.n_itens()),
        peso_de(res@, problema.pesos@) <= problema.b,
        (r@.no_duplicates() && x@.no_duplicates() && disjuntos(x@, r@)) ==> res@.no_duplicates(),
        (sem_lacos(problema.multas@) && independente(problema.multas@, r@)) ==> independente(problema.multas@, res@),
{
    let ghost d = problema.dados();
    let ghost alvo = inserir_mwis(problema.multas@, x@, r@, k as nat, 0);
    proof {
        lemma_inserir_mwis(problema.multas@, x@, r@, k as nat, 0, problema.n_itens());
    }
    let mut r_v = copiar(r);
    let mut n_adicionados: usize = 0;
    let mut j: usize = 0;
    assert(x@.skip(0) =~= x@);
    while j < x.len()
        invariant_except_break
            alvo == inserir_mwis(problema.multas@, x@.skip(j as int), r_v@, k as nat, n_adicionados as nat),
        invariant
            j <= x@.len(),
            n_adicionados == j,
            n_adicionados <= k,
            problema.bem_formado(),
            indices_menores(x@, problema.n_itens()),
            indices_menores(r_v@, problema.n_itens()),
        ensures
            alvo == r_v@,
        decreases x@.len() - j,
    {
        if n_adicionados == k {
            break;
        }
        let v = x[j];
        proof {
            assert(x@.skip(j as int)[0] == v);
            assert(x@.skip(j as int).drop_first() =~= x@.skip(j + 1));
            lemma_trocar(problema.multas@, v, r_v@, problema.n_itens());
        }
        r_v = trocar_exec(v, problema.multas, r_v.as_slice());
        n_adicionados = n_adicionados + 1;
        j = j + 1;
    }
    let ghost t = r_v@;
    ajustar_exec(problema, &mut r_v);
    proof {
        lemma_ajustar(d, problema.b as int, t);
        lemma_prefixo(r_v@, t, problema.n_itens());
        if sem_lacos(problema.multas@) && independente(problema.multas@, r@) {
            lemma_independente_contido(problema.multas@, r_v@, t);
        }
    }
    r_v
}

/// One round of the perturbation of an independent set `s` whose current
/// candidate is `r`: the items outside `s`, in a random order, enter `r` `k`
/// at a time (see `perturb_mwis_com_ordem`), then the greedy filling adds free
/// items in another random order. Whatever was drawn, the result is feasible
/// when `r` repeats no item and holds only items of `s`, and it is independent
/// when `r` is (with no pair joining an item to itself).
pub fn perturb_mwis_passo(k: usize, s: &[usize], r: &[usize], problema: &Problema) -> (res: Vec<usize>)
    requires
        problema.bem_formado(),
        indices_menores(s@, problema.n_itens()),
        indices_menores(r@, problema.n_itens()),
    ensures
        exists|x: Seq<usize>, y: Seq<usize>|
            #![trigger permutacao(x, fora_de(todos_itens(problema.n_itens() as nat), s@)), permutacao(y, fora_de(todos_itens(problema.n_itens() as nat), perturbar_mwis(problema.dados(), problema.b as int, k as nat, x, r@)))]
            permutacao(x, fora_de(todos_itens(problema.n_itens() as nat), s@))
            && permutacao(y, fora_de(todos_itens(problema.n_itens() as nat), perturbar_mwis(problema.dados(), problema.b as int, k as nat, x, r@)))
            && res@ == preencher_mwis(
                problema.dados(),
                problema.b - peso_de(perturbar_mwis(problema.dados(), problema.b as int, k as nat, x, r@), problema.pesos@),
                y,
                perturbar_mwis(problema.dados(), problema.b as int, k as nat, x, r@),
            ),
        indices_menores(res@, problema.n_itens()),
        (r@.no_duplicates() && contido(r@, s@)) ==> problema.viavel(res@),
        (sem_lacos(problema.multas@) && independente(problema.multas@, r@)) ==> independente(problema.multas@, res@),
{
    let n = problema.valores.len();
    let mut x = itens_fora_de(n, s);
    let ghost livres = x@;
    embaralhar(&mut x);
    proof {
        lemma_livres(n as nat, s@);
        lemma_permutacao_sem_repeticao(x@, livres, n as int);
        if contido(r@, s@) {
            assert(disjuntos(x@, r@)) by {
                assert forall|j: int| 0 <= j < x@.len() implies !r@.contains(#[trigger] x@[j]) by {
                    assert(x@.contains(x@[j]));
                    assert(livres.contains(x@[j]));
                    let t = choose|t: int| 0 <= t < livres.len() && livres[t] == x@[j];
                    assert(!s@.contains(livres[t]));
                }
            }
        }
    }
    let mut res = perturb_mwis_com_ordem(k, r, problema, x.as_slice());
    let ghost p = res@;
    add_free_vertices_mwis(&mut res, problema);
    assert(permutacao(x@, fora_de(todos_itens(problema.n_itens() as nat), s@)));
    let ghost y = choose|y: Seq<usize>|
        #[trigger] permutacao(y, fora_de(todos_itens(problema.n_itens() as nat), p)) && res@ == preencher_mwis(
            problema.dados(),
            problema.b - peso_de(p, problema.pesos@),
            y,
            p,
        );
    assert(permutacao(y, fora_de(todos_itens(problema.n_itens() as nat), p)));
    res
}

/// A normalised penalty list (as random instances have) joins no item to itself.
pub proof fn lemma_normalizadas_sem_lacos(multas: Seq<(usize, usize, u32)>, n: int)
    requires
        multas_normalizadas(multas, n),
    ensures
        sem_lacos(multas),
{
    assert forall|m: int| 0 <= m < multas.len() implies #[trigger] multas[m].0 != multas[m].1 by {
        assert(multas[m].0 < multas[m].1);
    }
}

} // verus!
