//! Iterated local search with variable neighbourhood descent.
//!
//! Each function that draws random numbers has a companion that takes the
//! random outcome (an order of items, or a sample) as an argument and whose
//! contract fixes its result exactly; the function that draws states what
//! holds whatever was drawn.
use vstd::prelude::*;

use crate::carrossel::{lemma_contem_indice, lemma_peso_drop_first, lemma_peso_push};
use crate::sorteio::{embaralhar, escolher_varios, permutacao};
use crate::carrossel::guloso_total;
use crate::instancias::{Multas, Pesos, Valores};
use crate::utils::{contem, copiar, dq_vec, todos_itens};
use crate::{
    calcular_peso_total, calcular_valor_total, dados, indices_menores, lemma_peso_cabe, lemma_peso_limitado,
    peso_de, valor_de, Dados, Problema,
};

verus! {

/// The entries of `x`, in order, that are not in `s`.
pub open spec fn fora_de(x: Seq<usize>, s: Seq<usize>) -> Seq<usize>
    decreases x.len(),
{
    if x.len() == 0 {
        Seq::empty()
    } else {
        let c = fora_de(x.drop_last(), s);
        if s.contains(x.last()) {
            c
        } else {
            c.push(x.last())
        }
    }
}

/// Takes the entries of `x` from the last one back, appending to `r` each one
/// that fits in the residual capacity `b_res`.
pub open spec fn preencher(d: Dados, b_res: int, x: Seq<usize>, r: Seq<usize>) -> Seq<usize>
    decreases x.len(),
{
    if x.len() == 0 {
        r
    } else {
        let v = x.last();
        if b_res >= d.pesos[v as int] {
            preencher(d, b_res - d.pesos[v as int], x.drop_last(), r.push(v))
        } else {
            preencher(d, b_res, x.drop_last(), r)
        }
    }
}

/// Drops the last entry of `t` until its weight is at most `b`.
pub open spec fn ajustar(d: Dados, b: int, t: Seq<usize>) -> Seq<usize>
    decreases t.len(),
{
    if peso_de(t, d.pesos) <= b || t.len() == 0 {
        t
    } else {
        ajustar(d, b, t.drop_last())
    }
}

/// Drops the last entry of `s` (at least one, while there is one) until the
/// residual capacity, `b_res` plus the weights dropped, reaches `need`.
pub open spec fn remover_ate(d: Dados, b_res: int, need: int, s: Seq<usize>) -> Seq<usize>
    decreases s.len(),
{
    if s.len() == 0 {
        s
    } else {
        let b1 = b_res + d.pesos[s.last() as int];
        if b1 >= need {
            s.drop_last()
        } else {
            remover_ate(d, b1, need, s.drop_last())
        }
    }
}

/// The perturbation of `s` that brings in the items of `x`: entries of `s` are
/// dropped from the end until `x` would fit, `x` is appended, and entries are
/// dropped from the end until the whole fits.
pub open spec fn perturbar(d: Dados, b: int, x: Seq<usize>, s: Seq<usize>) -> Seq<usize> {
    ajustar(d, b, remover_ate(d, b - peso_de(s, d.pesos), peso_de(x, d.pesos), s) + x)
}

/// No entry of `x` occurs in `s`.
pub open spec fn disjuntos(x: Seq<usize>, s: Seq<usize>) -> bool {
    forall|k: int| 0 <= k < x.len() ==> !s.contains(#[trigger] x[k])
}

pub proof fn lemma_fora_de(x: Seq<usize>, s: Seq<usize>)
    ensures
        forall|t: int|
            0 <= t < fora_de(x, s).len() ==> x.contains(#[trigger] fora_de(x, s)[t]) && !s.contains(
                fora_de(x, s)[t],
            ),
        x.no_duplicates() ==> fora_de(x, s).no_duplicates(),
    decreases x.len(),
{
    if x.len() > 0 {
        lemma_fora_de(x.drop_last(), s);
        let c = fora_de(x.drop_last(), s);
        assert forall|t: int| 0 <= t < c.len() implies x.contains(#[trigger] c[t]) by {
            let k = choose|k: int| 0 <= k < x.drop_last().len() && x.drop_last()[k] == c[t];
            assert(x[k] == c[t]);
        }
        assert(x[x.len() - 1] == x.last());
        if x.no_duplicates() && !s.contains(x.last()) {
            assert(x.drop_last().no_duplicates()) by {
                assert forall|a: int, b: int| 0 <= a < b < x.drop_last().len() implies x.drop_last()[a]
                    != x.drop_last()[b] by {
                    assert(x[a] != x[b]);
                }
            }
            assert(!c.contains(x.last())) by {
                if c.contains(x.last()) {
                    let t = choose|t: int| 0 <= t < c.len() && c[t] == x.last();
                    assert(x.drop_last().contains(c[t]));
                    let k = choose|k: int| 0 <= k < x.drop_last().len() && x.drop_last()[k] == c[t];
                    assert(x[k] == x[x.len() - 1]);
                }
            }
            assert forall|a: int, b: int| 0 <= a < b < c.push(x.last()).len() implies c.push(x.last())[a]
                != c.push(x.last())[b] by {
                if b == c.len() {
                    assert(c.contains(c[a]));
                }
            }
        } else if x.no_duplicates() {
            assert(x.drop_last().no_duplicates()) by {
                assert forall|a: int, b: int| 0 <= a < b < x.drop_last().len() implies x.drop_last()[a]
                    != x.drop_last()[b] by {
                    assert(x[a] != x[b]);
                }
            }
        }
    }
}

/// Every entry of `x` outside `s` is in `fora_de(x, s)`.
pub proof fn lemma_fora_de_completo(x: Seq<usize>, s: Seq<usize>, v: usize)
    requires
        x.contains(v),
        !s.contains(v),
    ensures
        fora_de(x, s).contains(v),
    decreases x.len(),
{
    let c = fora_de(x.drop_last(), s);
    if x.last() == v {
        assert(c.push(v)[c.len() as int] == v);
    } else {
        let k = choose|k: int| 0 <= k < x.len() && x[k] == v;
        assert(k < x.len() - 1);
        assert(x.drop_last()[k] == v);
        lemma_fora_de_completo(x.drop_last(), s, v);
        if !s.contains(x.last()) {
            let t = choose|t: int| 0 <= t < c.len() && c[t] == v;
            assert(c.push(x.last())[t] == v);
        }
    }
}

/// `todos_itens(n)` lists each of the `n` items once.
pub proof fn lemma_todos_itens(n: nat)
    requires
        n <= usize::MAX,
    ensures
        todos_itens(n).no_duplicates(),
        indices_menores(todos_itens(n), n as int),
        forall|i: usize| i < n ==> todos_itens(n).contains(i),
{
    assert forall|i: usize| i < n implies todos_itens(n).contains(i) by {
        assert(todos_itens(n)[i as int] == i);
    }
    assert forall|a: int, b: int| 0 <= a < b < n implies todos_itens(n)[a] != todos_itens(n)[b] by {}
}

/// The items outside `s`, listed once each.
pub proof fn lemma_livres(n: nat, s: Seq<usize>)
    requires
        n <= usize::MAX,
    ensures
        fora_de(todos_itens(n), s).no_duplicates(),
        indices_menores(fora_de(todos_itens(n), s), n as int),
        disjuntos(fora_de(todos_itens(n), s), s),
{
    lemma_todos_itens(n);
    lemma_fora_de(todos_itens(n), s);
    let c = fora_de(todos_itens(n), s);
    assert forall|t: int| 0 <= t < c.len() implies #[trigger] c[t] < n by {
        lemma_contem_indice(todos_itens(n), n as int, c[t]);
    }
}

/// A sequence with the same entries as one without duplicates has none.
pub proof fn lemma_permutacao_sem_repeticao(x: Seq<usize>, y: Seq<usize>, n: int)
    requires
        permutacao(x, y),
        y.no_duplicates(),
        indices_menores(y, n),
    ensures
        x.no_duplicates(),
        indices_menores(x, n),
        x.len() == y.len(),
        forall|i: usize| x.contains(i) <==> y.contains(i),
{
    broadcast use vstd::seq_lib::group_to_multiset_ensures;
    y.lemma_multiset_has_no_duplicates();
    assert forall|v: usize| x.to_multiset().contains(v) implies x.to_multiset().count(v) == 1 by {
        assert(y.to_multiset().count(v) == 1);
    }
    x.lemma_multiset_has_no_duplicates_conv();
    vstd::seq_lib::to_multiset_len(x);
    vstd::seq_lib::to_multiset_len(y);
    assert forall|i: usize| x.contains(i) <==> y.contains(i) by {
        assert(x.to_multiset().count(i) == y.to_multiset().count(i));
    }
    assert forall|k: int| 0 <= k < x.len() implies #[trigger] x[k] < n by {
        assert(x.contains(x[k]));
        assert(y.contains(x[k]));
        lemma_contem_indice(y, n, x[k]);
    }
}

/// A prefix of a sequence of distinct items is one too.
pub proof fn lemma_prefixo(r: Seq<usize>, t: Seq<usize>, n: int)
    requires
        r.is_prefix_of(t),
        indices_menores(t, n),
    ensures
        t.no_duplicates() ==> r.no_duplicates(),
        indices_menores(r, n),
        forall|i: usize| r.contains(i) ==> t.contains(i),
{
    if t.no_duplicates() {
        assert forall|a: int, b: int| 0 <= a < b < r.len() implies r[a] != r[b] by {
            assert(t[a] != t[b]);
        }
    }
    assert forall|k: int| 0 <= k < r.len() implies #[trigger] r[k] < n by {
        assert(t[k] < n);
    }
    assert forall|i: usize| r.contains(i) implies t.contains(i) by {
        let k = choose|k: int| 0 <= k < r.len() && r[k] == i;
        assert(t[k] == i);
    }
}

/// `preencher` extends `r` with distinct new items, within `b_res`.
pub proof fn lemma_preencher(d: Dados, b_res: int, x: Seq<usize>, r: Seq<usize>, n: int)
    requires
        d.pesos.len() == n,
        indices_menores(x, n),
        indices_menores(r, n),
        x.no_duplicates(),
        r.no_duplicates(),
        disjuntos(x, r),
    ensures
        ({
            let res = preencher(d, b_res, x, r);
            &&& r.is_prefix_of(res)
            &&& res.no_duplicates()
            &&& indices_menores(res, n)
            &&& b_res >= 0 ==> peso_de(res, d.pesos) <= peso_de(r, d.pesos) + b_res
            &&& b_res < 0 ==> res == r
        }),
    decreases x.len(),
{
    if x.len() > 0 {
        let v = x.last();
        let xd = x.drop_last();
        assert(x[x.len() - 1] == v);
        assert(xd.no_duplicates()) by {
            assert forall|a: int, b: int| 0 <= a < b < xd.len() implies xd[a] != xd[b] by {
                assert(x[a] != x[b]);
            }
        }
        assert(indices_menores(xd, n)) by {
            assert forall|k: int| 0 <= k < xd.len() implies #[trigger] xd[k] < n by {
                assert(x[k] < n);
            }
        }
        assert(v < n);
        assert(d.pesos[v as int] >= 0);
        if b_res >= d.pesos[v as int] {
            let r2 = r.push(v);
            assert(!r.contains(v)) by {
                assert(!r.contains(x[x.len() - 1]));
            }
            assert(r2.no_duplicates()) by {
                assert forall|a: int, b: int| 0 <= a < b < r2.len() implies r2[a] != r2[b] by {
                    if b == r.len() {
                        assert(r.contains(r[a]));
                    }
                }
            }
            assert(indices_menores(r2, n));
            assert(disjuntos(xd, r2)) by {
                assert forall|k: int| 0 <= k < xd.len() implies !r2.contains(#[trigger] xd[k]) by {
                    assert(!r.contains(x[k]));
                    assert(x[k] != x[x.len() - 1]);
                    if r2.contains(xd[k]) {
                        let t = choose|t: int| 0 <= t < r2.len() && r2[t] == xd[k];
                        if t < r.len() {
                            assert(r[t] == xd[k]);
                        }
                    }
                }
            }
            lemma_preencher(d, b_res - d.pesos[v as int], xd, r2, n);
            lemma_peso_push(r, v, d.pesos);
            let res = preencher(d, b_res, x, r);
            assert(r.is_prefix_of(res)) by {
                assert forall|k: int| 0 <= k < r.len() implies r[k] == res[k] by {
                    assert(r2[k] == r[k]);
                }
            }
        } else {
            assert(disjuntos(xd, r)) by {
                assert forall|k: int| 0 <= k < xd.len() implies !r.contains(#[trigger] xd[k]) by {
                    assert(!r.contains(x[k]));
                }
            }
            lemma_preencher(d, b_res, xd, r, n);
        }
    } else {
        assert(r.is_prefix_of(r));
    }
}

/// `ajustar` keeps a prefix that fits.
pub proof fn lemma_ajustar(d: Dados, b: int, t: Seq<usize>)
    requires
        0 <= b,
    ensures
        ajustar(d, b, t).is_prefix_of(t),
        peso_de(ajustar(d, b, t), d.pesos) <= b,
    decreases t.len(),
{
    if !(peso_de(t, d.pesos) <= b || t.len() == 0) {
        lemma_ajustar(d, b, t.drop_last());
        let r = ajustar(d, b, t);
        assert forall|k: int| 0 <= k < r.len() implies r[k] == t[k] by {
            assert(t.drop_last()[k] == t[k]);
        }
    } else {
        assert(t.is_prefix_of(t));
        if t.len() == 0 {
            assert(peso_de(t, d.pesos) == 0);
        }
    }
}

/// `remover_ate` keeps a prefix.
pub proof fn lemma_remover_ate(d: Dados, b_res: int, need: int, s: Seq<usize>)
    ensures
        remover_ate(d, b_res, need, s).is_prefix_of(s),
    decreases s.len(),
{
    if s.len() > 0 {
        let b1 = b_res + d.pesos[s.last() as int];
        if b1 < need {
            lemma_remover_ate(d, b1, need, s.drop_last());
        }
        let r = remover_ate(d, b_res, need, s);
        assert forall|k: int| 0 <= k < r.len() implies r[k] == s[k] by {
            assert(s.drop_last()[k] == s[k]);
        }
    } else {
        assert(s.is_prefix_of(s));
    }
}

/// A feasible solution stays feasible through a perturbation with new items.
pub proof fn lemma_perturbar(d: Dados, b: int, x: Seq<usize>, s: Seq<usize>, n: int)
    requires
        0 <= b,
        x.no_duplicates(),
        s.no_duplicates(),
        indices_menores(x, n),
        indices_menores(s, n),
        disjuntos(x, s),
    ensures
        perturbar(d, b, x, s).no_duplicates(),
        indices_menores(perturbar(d, b, x, s), n),
        peso_de(perturbar(d, b, x, s), d.pesos) <= b,
{
    let s1 = remover_ate(d, b - peso_de(s, d.pesos), peso_de(x, d.pesos), s);
    lemma_remover_ate(d, b - peso_de(s, d.pesos), peso_de(x, d.pesos), s);
    lemma_prefixo(s1, s, n);
    let t = s1 + x;
    assert(t.no_duplicates()) by {
        assert forall|a: int, c: int| 0 <= a < c < t.len() implies t[a] != t[c] by {
            if a < s1.len() && c >= s1.len() {
                assert(t[c] == x[c - s1.len()]);
                assert(!s.contains(x[c - s1.len()]));
                assert(s1.contains(s1[a]));
            } else if a >= s1.len() {
                assert(x[a - s1.len()] != x[c - s1.len()]);
            }
        }
    }
    assert(indices_menores(t, n)) by {
        assert forall|k: int| 0 <= k < t.len() implies #[trigger] t[k] < n by {
            if k >= s1.len() {
                assert(t[k] == x[k - s1.len()]);
            }
        }
    }
    lemma_ajustar(d, b, t);
    lemma_prefixo(ajustar(d, b, t), t, n);
}

/// The items `0..n` that are not in `s`, in increasing order.
pub fn itens_fora_de(n: usize, s: &[usize]) -> (x: Vec<usize>)
    ensures
        x@ == fora_de(todos_itens(n as nat), s@),
{
    let mut x: Vec<usize> = Vec::new();
    let mut i: usize = 0;
    while i < n
        invariant
            i <= n,
            x@ == fora_de(todos_itens(i as nat), s@),
        decreases n - i,
    {
        proof {
            assert(todos_itens((i + 1) as nat).drop_last() =~= todos_itens(i as nat));
            assert(todos_itens((i + 1) as nat).last() == i);
        }
        if !contem(s, i) {
            x.push(i);
        }
        i = i + 1;
    }
    x
}

/// Greedy filling: takes the entries of `x` from the last one back and keeps
/// each one that fits in the capacity left.
pub fn initialize_com_ordem(problema: &Problema, x: Vec<usize>) -> (r: Vec<usize>)
    requires
        problema.bem_formado(),
        indices_menores(x@, problema.n_itens()),
    ensures
        r@ == preencher(problema.dados(), problema.b as int, x@, Seq::empty()),
{
    let ghost d = problema.dados();
    let ghost alvo = preencher(d, problema.b as int, x@, Seq::empty());
    let mut r: Vec<usize> = Vec::new();
    let mut x = x;
    let mut b_res: u64 = problema.b;
    while x.len() > 0
        invariant
            d == problema.dados(),
            problema.bem_formado(),
            indices_menores(x@, problema.n_itens()),
            alvo == preencher(d, b_res as int, x@, r@),
        decreases x@.len(),
    {
        let ghost antes = x@;
        let v = x.pop().unwrap();
        proof {
            assert(x@ == antes.drop_last());
            assert(antes[antes.len() - 1] < problema.n_itens());
            assert(indices_menores(x@, problema.n_itens())) by {
                assert forall|k: int| 0 <= k < x@.len() implies #[trigger] x@[k] < problema.n_itens() by {
                    assert(antes[k] < problema.n_itens());
                }
            }
        }
        if b_res >= problema.pesos[v] as u64 {
            b_res = b_res - problema.pesos[v] as u64;
            r.push(v);
        }
    }
    r
}

/// `s` is a greedy filling of the empty knapsack with the items taken in
/// some order (see `preencher`).
pub open spec fn inicial_possivel(d: Dados, b: int, s: Seq<usize>) -> bool {
    exists|x: Seq<usize>|
        #[trigger] permutacao(x, todos_itens(d.valores.len())) && s == preencher(d, b, x, Seq::empty())
}

/// A random greedy filling: the items in a random order, then
/// `initialize_com_ordem`. Whatever the order drawn, the result is a feasible
/// solution.
pub fn initialize(problema: &Problema) -> (r: Vec<usize>)
    requires
        problema.bem_formado(),
    ensures
        inicial_possivel(problema.dados(), problema.b as int, r@),
        problema.viavel(r@),
{
    let n = problema.valores.len();
    let mut x = crate::utils::itens(n);
    embaralhar(&mut x);
    proof {
        lemma_todos_itens(n as nat);
        lemma_permutacao_sem_repeticao(x@, todos_itens(n as nat), n as int);
        let e = Seq::<usize>::empty();
        lemma_preencher(problema.dados(), problema.b as int, x@, e, n as int);
        assert(peso_de(e, problema.pesos@) == 0);
    }
    let ghost xs = x@;
    let r = initialize_com_ordem(problema, x);
    assert(todos_itens(problema.n_itens() as nat) == todos_itens(problema.dados().valores.len()));
    assert(permutacao(xs, todos_itens(problema.dados().valores.len())));
    r
}

/// Greedy filling of `s` with the items outside it, taken from the highest
/// index down, each kept when it fits in the capacity left.
pub fn add_free_vertices(s: &mut Vec<usize>, problema: &Problema)
    requires
        problema.bem_formado(),
        indices_menores(old(s)@, problema.n_itens()),
    ensures
        final(s)@ == preencher(
            problema.dados(),
            problema.b - peso_de(old(s)@, problema.pesos@),
            fora_de(todos_itens(problema.n_itens() as nat), old(s)@),
            old(s)@,
        ),
        old(s)@.is_prefix_of(final(s)@),
        indices_menores(final(s)@, problema.n_itens()),
        problema.viavel(old(s)@) ==> problema.viavel(final(s)@),
{
    let ghost d = problema.dados();
    let ghost s0 = s@;
    let mut x = itens_fora_de(problema.valores.len(), s.as_slice());
    assert(s@.len() == s.len());
    proof {
        lemma_livres(problema.n_itens() as nat, s0);
        lemma_peso_cabe(s0, problema.pesos@);
    }
    let peso_s = calcular_peso_total(s.as_slice(), problema);
    let mut b_res: i128 = problema.b as i128 - peso_s as i128;
    let ghost alvo = preencher(d, b_res as int, x@, s@);
    while x.len() > 0
        invariant
            d == problema.dados(),
            problema.bem_formado(),
            indices_menores(x@, problema.n_itens()),
            -0xffff_ffff_ffff_ffff * 0xffff_ffffint <= b_res <= 0xffff_ffff_ffff_ffff,
            alvo == preencher(d, b_res as int, x@, s@),
        decreases x@.len(),
    {
        let ghost antes = x@;
        let v = x.pop().unwrap();
        proof {
            assert(x@ == antes.drop_last());
            assert(antes[antes.len() - 1] < problema.n_itens());
            assert(indices_menores(x@, problema.n_itens())) by {
                assert forall|k: int| 0 <= k < x@.len() implies #[trigger] x@[k] < problema.n_itens() by {
                    assert(antes[k] < problema.n_itens());
                }
            }
        }
        if b_res >= problema.pesos[v] as i128 {
            s.push(v);
            b_res = b_res - problema.pesos[v] as i128;
        }
    }
    proof {
        let xs = fora_de(todos_itens(problema.n_itens() as nat), s0);
        if problema.viavel(s0) {
            lemma_preencher(d, problema.b - peso_de(s0, d.pesos), xs, s0, problema.n_itens());
        } else {
            lemma_preencher_prefixo(d, problema.b - peso_de(s0, d.pesos), xs, s0, problema.n_itens());
        }
    }
}

/// `preencher` only appends entries of `x`.
pub proof fn lemma_preencher_prefixo(d: Dados, b_res: int, x: Seq<usize>, r: Seq<usize>, n: int)
    requires
        indices_menores(x, n),
        indices_menores(r, n),
    ensures
        r.is_prefix_of(preencher(d, b_res, x, r)),
        indices_menores(preencher(d, b_res, x, r), n),
    decreases x.len(),
{
    if x.len() > 0 {
        let v = x.last();
        let xd = x.drop_last();
        assert(x[x.len() - 1] == v);
        assert(indices_menores(xd, n)) by {
            assert forall|k: int| 0 <= k < xd.len() implies #[trigger] xd[k] < n by {
                assert(x[k] < n);
            }
        }
        if b_res >= d.pesos[v as int] {
            let r2 = r.push(v);
            lemma_preencher_prefixo(d, b_res - d.pesos[v as int], xd, r2, n);
            let res = preencher(d, b_res, x, r);
            assert forall|k: int| 0 <= k < r.len() implies r[k] == res[k] by {
                assert(r2[k] == r[k]);
            }
        } else {
            lemma_preencher_prefixo(d, b_res, xd, r, n);
        }
    } else {
        assert(r.is_prefix_of(r));
    }
}

/// Entries of `r` all come from `c`, and are distinct when those of `c` are.
pub proof fn lemma_submulticonjunto(r: Seq<usize>, c: Seq<usize>)
    requires
        r.to_multiset().subset_of(c.to_multiset()),
    ensures
        forall|i: usize| r.contains(i) ==> c.contains(i),
        c.no_duplicates() ==> r.no_duplicates(),
{
    broadcast use vstd::seq_lib::group_to_multiset_ensures;
    assert forall|i: usize| r.contains(i) implies c.contains(i) by {
        assert(r.to_multiset().count(i) <= c.to_multiset().count(i));
    }
    if c.no_duplicates() {
        c.lemma_multiset_has_no_duplicates();
        assert forall|v: usize| r.to_multiset().contains(v) implies r.to_multiset().count(v) == 1 by {
            assert(r.to_multiset().count(v) <= c.to_multiset().count(v));
            assert(c.to_multiset().count(v) > 0);
        }
        r.lemma_multiset_has_no_duplicates_conv();
    }
}

/// The perturbation that brings in the items of `x`, as `perturbar` states.
pub fn perturb_com(x: &[usize], s: &[usize], problema: &Problema) -> (r: Vec<usize>)
    requires
        problema.bem_formado(),
        indices_menores(x@, problema.n_itens()),
        indices_menores(s@, problema.n_itens()),
    ensures
        r@ == perturbar(problema.dados(), problema.b as int, x@, s@),
        indices_menores(r@, problema.n_itens()),
        (x@.no_duplicates() && s@.no_duplicates() && disjuntos(x@, s@)) ==> problema.viavel(r@),
{
    let ghost d = problema.dados();
    let ghost b = problema.b as int;
    assert(x@.len() == x.len() && s@.len() == s.len());
    proof {
        lemma_peso_cabe(x@, problema.pesos@);
        lemma_peso_cabe(s@, problema.pesos@);
    }
    let peso_necessario = calcular_peso_total(x, problema);
    let mut s_v = copiar(s);
    let mut b_res: i128 = problema.b as i128 - calcular_peso_total(s, problema) as i128;
    let ghost s1 = remover_ate(d, b_res as int, peso_necessario as int, s@);
    loop
        invariant_except_break
            s1 == remover_ate(d, b_res as int, peso_necessario as int, s_v@),
        invariant
            d == problema.dados(),
            problema.bem_formado(),
            indices_menores(s_v@, problema.n_itens()),
            b_res + peso_de(s_v@, problema.pesos@) == b,
            b == problema.b as int,
            0 <= peso_necessario <= 0xffff_ffff_ffff_ffff * 0xffff_ffffint,
            s_v@.len() <= usize::MAX,
        ensures
            s_v@ == s1,
        decreases s_v@.len(),
    {
        let ghost antes = s_v@;
        proof {
            lemma_peso_cabe(antes, problema.pesos@);
        }
        match s_v.pop() {
            Some(removido) => {
                proof {
                    assert(s_v@ == antes.drop_last());
                    assert(antes[antes.len() - 1] < problema.n_itens());
                    assert(peso_de(antes, problema.pesos@) == peso_de(s_v@, problema.pesos@)
                        + problema.pesos@[removido as int]);
                    lemma_peso_limitado(s_v@, problema.pesos@);
                    assert(indices_menores(s_v@, problema.n_itens())) by {
                        assert forall|k: int| 0 <= k < s_v@.len() implies #[trigger] s_v@[k]
                            < problema.n_itens() by {
                            assert(antes[k] < problema.n_itens());
                        }
                    }
                }
                assert(b_res + problema.pesos@[removido as int] <= b);
                assert(b_res >= -(0xffff_ffff_ffff_ffff * 0xffff_ffffint));
                b_res = b_res + problema.pesos[removido] as i128;
                if b_res >= peso_necessario as i128 {
                    break;
                }
            },
            None => {
                break;
            },
        }
    }
    let mut k: usize = 0;
    while k < x.len()
        invariant
            k <= x@.len(),
            d == problema.dados(),
            problema.bem_formado(),
            indices_menores(x@, problema.n_itens()),
            indices_menores(s1, problema.n_itens()),
            s_v@ == s1 + x@.take(k as int),
        decreases x@.len() - k,
    {
        s_v.push(x[k]);
        proof {
            assert(s1 + x@.take(k + 1) =~= (s1 + x@.take(k as int)).push(x@[k as int]));
        }
        k = k + 1;
    }
    assert(x@.take(x@.len() as int) =~= x@);
    let ghost t = s_v@;
    assert(indices_menores(t, problema.n_itens())) by {
        assert forall|j: int| 0 <= j < t.len() implies #[trigger] t[j] < problema.n_itens() by {
            if j >= s1.len() {
                assert(t[j] == x@[j - s1.len()]);
            }
        }
    }
    assert(s_v@.len() == s_v.len());
    proof {
        lemma_peso_cabe(t, problema.pesos@);
    }
    let mut b_res: i128 = problema.b as i128 - calcular_peso_total(s_v.as_slice(), problema) as i128;
    while b_res < 0
        invariant
            d == problema.dados(),
            problema.bem_formado(),
            indices_menores(s_v@, problema.n_itens()),
            b_res + peso_de(s_v@, problema.pesos@) == b,
            b >= 0,
            ajustar(d, b, t) == ajustar(d, b, s_v@),
        decreases s_v@.len(),
    {
        let ghost antes = s_v@;
        proof {
            lemma_peso_limitado(antes, problema.pesos@);
            assert(antes.len() > 0);
        }
        let removido = s_v.pop().unwrap();
        proof {
            assert(s_v@ == antes.drop_last());
            assert(antes[antes.len() - 1] < problema.n_itens());
            assert(indices_menores(s_v@, problema.n_itens())) by {
                assert forall|j: int| 0 <= j < s_v@.len() implies #[trigger] s_v@[j] < problema.n_itens() by {
                    assert(antes[j] < problema.n_itens());
                }
            }
        }
        b_res = b_res + problema.pesos[removido] as i128;
    }
    proof {
        lemma_remover_ate(d, problema.b - peso_de(s@, d.pesos), peso_de(x@, d.pesos), s@);
        lemma_ajustar(d, b, t);
        lemma_prefixo(ajustar(d, b, t), t, problema.n_itens());
        if x@.no_duplicates() && s@.no_duplicates() && disjuntos(x@, s@) {
            lemma_perturbar(d, b, x@, s@, problema.n_itens());
        }
    }
    s_v
}

/// `r` is a perturbation of `s` that brings in `k` items drawn from outside
/// `s` (all of them when there are fewer), as `perturbar` states.
pub open spec fn perturbacao_possivel(d: Dados, b: int, k: usize, s: Seq<usize>, r: Seq<usize>) -> bool {
    let livres = fora_de(todos_itens(d.valores.len()), s);
    exists|x: Seq<usize>|
        #![trigger perturbar(d, b, x, s)]
        x.len() == (if k <= livres.len() {
            k as int
        } else {
            livres.len() as int
        }) && x.to_multiset().subset_of(livres.to_multiset()) && r == perturbar(d, b, x, s)
}

/// Brings `k` random items from outside `s` into it (all of them when there
/// are fewer), as `perturb_com` does. Whatever the sample, a solution without
/// repeated items becomes a feasible one.
pub fn perturb(k: usize, s: &[usize], problema: &Problema) -> (r: Vec<usize>)
    requires
        problema.bem_formado(),
        indices_menores(s@, problema.n_itens()),
        k * 8 <= isize::MAX,
    ensures
        perturbacao_possivel(problema.dados(), problema.b as int, k, s@, r@),
        indices_menores(r@, problema.n_itens()),
        s@.no_duplicates() ==> problema.viavel(r@),
{
    let n = problema.valores.len();
    let candidatos = itens_fora_de(n, s);
    proof {
        lemma_livres(n as nat, s@);
    }
    let ghost c = candidatos@;
    let x = escolher_varios(candidatos, k);
    proof {
        lemma_submulticonjunto(x@, c);
        assert(indices_menores(x@, n as int)) by {
            assert forall|j: int| 0 <= j < x@.len() implies #[trigger] x@[j] < n by {
                assert(x@.contains(x@[j]));
                lemma_contem_indice(c, n as int, x@[j]);
            }
        }
        assert(disjuntos(x@, s@)) by {
            assert forall|j: int| 0 <= j < x@.len() implies !s@.contains(#[trigger] x@[j]) by {
                assert(x@.contains(x@[j]));
                let t = choose|t: int| 0 <= t < c.len() && c[t] == x@[j];
                assert(!s@.contains(c[t]));
            }
        }
    }
    let r = perturb_com(x.as_slice(), s, problema);
    proof {
        if s@.no_duplicates() {
            lemma_perturbar(problema.dados(), problema.b as int, x@, s@, n as int);
        }
    }
    r
}

/// The first neighbourhood's move that inserts `a` into `s`: `a` is appended;
/// if that does not fit, the sequence is reversed (so `a` comes first) and
/// entries are dropped from the end until it fits.
pub open spec fn inserir_k1(d: Dados, b: int, s: Seq<usize>, a: usize) -> Seq<usize> {
    let t = s.push(a);
    if peso_de(t, d.pesos) <= b {
        t
    } else {
        ajustar(d, b, t.reverse())
    }
}

/// The first move of the first neighbourhood, trying the items of `v` in
/// order, that improves on the value of `s`; `s` when none does.
pub open spec fn melhora_k1(d: Dados, b: int, s: Seq<usize>, v: Seq<usize>) -> Seq<usize>
    decreases v.len(),
{
    if v.len() == 0 {
        s
    } else {
        let t = inserir_k1(d, b, s, v[0]);
        if valor_de(s, d.valores, d.multas) < valor_de(t, d.valores, d.multas) {
            t
        } else {
            melhora_k1(d, b, s, v.drop_first())
        }
    }
}

/// `s` without the occurrences of `x`.
pub open spec fn sem(s: Seq<usize>, x: usize) -> Seq<usize>
    decreases s.len(),
{
    if s.len() == 0 {
        Seq::empty()
    } else {
        let c = sem(s.drop_last(), x);
        if s.last() == x {
            c
        } else {
            c.push(s.last())
        }
    }
}

/// The second neighbourhood's insertions: entries are popped from the end of
/// `v`; while fewer than two were added, one that fits in `b_res` is appended
/// to `t`; the entry popped once two were added is discarded and the popping
/// stops. Gives the new `t` and what is left of `v`.
pub open spec fn inserir_k2(d: Dados, b_res: int, t: Seq<usize>, v: Seq<usize>, adicionados: nat) -> (
    Seq<usize>,
    Seq<usize>,
)
    decreases v.len(),
{
    if v.len() == 0 {
        (t, v)
    } else {
        let add = v.last();
        let vr = v.drop_last();
        if adicionados == 2 {
            (t, vr)
        } else if b_res >= d.pesos[add as int] {
            inserir_k2(d, b_res - d.pesos[add as int], t.push(add), vr, adicionados + 1)
        } else {
            inserir_k2(d, b_res, t, vr, adicionados)
        }
    }
}

/// The first move of the second neighbourhood that improves on `s`: for each
/// entry of `s` from position `idx` on, the solution without it receives up
/// to two items of `v` (which the moves share and use up); `s` when none improves.
pub open spec fn melhora_k2(d: Dados, b: int, s: Seq<usize>, idx: int, v: Seq<usize>) -> Seq<usize>
    decreases s.len() - idx,
{
    if idx < 0 || idx >= s.len() {
        s
    } else {
        let t0 = sem(s, s[idx]);
        let (t, vr) = inserir_k2(d, b - peso_de(t0, d.pesos), t0, v, 0);
        if valor_de(s, d.valores, d.multas) < valor_de(t, d.valores, d.multas) {
            t
        } else {
            melhora_k2(d, b, s, idx + 1, vr)
        }
    }
}

/// First improvement in neighbourhood `k` (1 or 2) with the outside items in
/// the order `v`; any other `k` gives `s`.
pub open spec fn primeira_melhora(d: Dados, b: int, k: usize, s: Seq<usize>, v: Seq<usize>) -> Seq<usize> {
    if k == 1 {
        melhora_k1(d, b, s, v)
    } else if k == 2 {
        melhora_k2(d, b, s, 0, v)
    } else {
        s
    }
}

pub proof fn lemma_reverso(t: Seq<usize>, n: int)
    requires
        indices_menores(t, n),
    ensures
        indices_menores(t.reverse(), n),
        t.no_duplicates() ==> t.reverse().no_duplicates(),
{
    let r = t.reverse();
    assert forall|k: int| 0 <= k < r.len() implies #[trigger] r[k] < n by {
        assert(r[k] == t[t.len() - 1 - k]);
    }
    if t.no_duplicates() {
        assert forall|a: int, b: int| 0 <= a < b < r.len() implies r[a] != r[b] by {
            assert(r[a] == t[t.len() - 1 - a]);
            assert(r[b] == t[t.len() - 1 - b]);
        }
    }
}

pub proof fn lemma_sem(s: Seq<usize>, x: usize, n: int, pesos: Seq<u32>)
    requires
        indices_menores(s, n),
    ensures
        indices_menores(sem(s, x), n),
        forall|i: usize| sem(s, x).contains(i) ==> s.contains(i),
        s.no_duplicates() ==> sem(s, x).no_duplicates(),
        peso_de(sem(s, x), pesos) <= peso_de(s, pesos),
    decreases s.len(),
{
    if s.len() > 0 {
        let sd = s.drop_last();
        assert(indices_menores(sd, n)) by {
            assert forall|k: int| 0 <= k < sd.len() implies #[trigger] sd[k] < n by {
                assert(s[k] < n);
            }
        }
        lemma_sem(sd, x, n, pesos);
        let c = sem(sd, x);
        assert(s[s.len() - 1] == s.last());
        assert forall|i: usize| c.contains(i) implies s.contains(i) by {
            assert(sd.contains(i));
            let k = choose|k: int| 0 <= k < sd.len() && sd[k] == i;
            assert(s[k] == i);
        }
        if s.last() != x {
            lemma_peso_push(c, s.last(), pesos);
            if s.no_duplicates() {
                assert(sd.no_duplicates()) by {
                    assert forall|a: int, b: int| 0 <= a < b < sd.len() implies sd[a] != sd[b] by {
                        assert(s[a] != s[b]);
                    }
                }
                assert(!c.contains(s.last())) by {
                    if c.contains(s.last()) {
                        assert(sd.contains(s.last()));
                        let k = choose|k: int| 0 <= k < sd.len() && sd[k] == s.last();
                        assert(s[k] == s[s.len() - 1]);
                    }
                }
                assert forall|a: int, b: int| 0 <= a < b < c.push(s.last()).len() implies c.push(
                    s.last(),
                )[a] != c.push(s.last())[b] by {
                    if b == c.len() {
                        assert(c.contains(c[a]));
                    }
                }
            }
        } else if s.no_duplicates() {
            assert(sd.no_duplicates()) by {
                assert forall|a: int, b: int| 0 <= a < b < sd.len() implies sd[a] != sd[b] by {
                    assert(s[a] != s[b]);
                }
            }
        }
    }
}

pub proof fn lemma_inserir_k1(d: Dados, b: int, s: Seq<usize>, a: usize, n: int)
    requires
        0 <= b,
        indices_menores(s, n),
        a < n,
    ensures
        indices_menores(inserir_k1(d, b, s, a), n),
        peso_de(inserir_k1(d, b, s, a), d.pesos) <= b,
        s.no_duplicates() && !s.contains(a) ==> inserir_k1(d, b, s, a).no_duplicates(),
{
    let t = s.push(a);
    assert(indices_menores(t, n));
    if s.no_duplicates() && !s.contains(a) {
        assert forall|x: int, y: int| 0 <= x < y < t.len() implies t[x] != t[y] by {
            if y == s.len() {
                assert(s.contains(s[x]));
            }
        }
    }
    if !(peso_de(t, d.pesos) <= b) {
        lemma_reverso(t, n);
        lemma_ajustar(d, b, t.reverse());
        lemma_prefixo(ajustar(d, b, t.reverse()), t.reverse(), n);
    }
}

pub proof fn lemma_melhora_k1(d: Dados, b: int, s: Seq<usize>, v: Seq<usize>, n: int)
    requires
        0 <= b,
        indices_menores(s, n),
        indices_menores(v, n),
    ensures
        ({
            let r = melhora_k1(d, b, s, v);
            &&& indices_menores(r, n)
            &&& r == s || valor_de(s, d.valores, d.multas) < valor_de(r, d.valores, d.multas)
            &&& (s.no_duplicates() && peso_de(s, d.pesos) <= b && disjuntos(v, s)) ==> (
            r.no_duplicates() && peso_de(r, d.pesos) <= b)
        }),
    decreases v.len(),
{
    if v.len() > 0 {
        assert(v[0] < n);
        lemma_inserir_k1(d, b, s, v[0], n);
        let vd = v.drop_first();
        assert(indices_menores(vd, n)) by {
            assert forall|k: int| 0 <= k < vd.len() implies #[trigger] vd[k] < n by {
                assert(v[k + 1] < n);
            }
        }
        if disjuntos(v, s) {
            assert(!s.contains(v[0]));
            assert(disjuntos(vd, s)) by {
                assert forall|k: int| 0 <= k < vd.len() implies !s.contains(#[trigger] vd[k]) by {
                    assert(!s.contains(v[k + 1]));
                }
            }
        }
        lemma_melhora_k1(d, b, s, vd, n);
    }
}

pub proof fn lemma_inserir_k2(
    d: Dados,
    b_res: int,
    t: Seq<usize>,
    v: Seq<usize>,
    adicionados: nat,
    n: int,
)
    requires
        d.pesos.len() == n,
        indices_menores(t, n),
        indices_menores(v, n),
    ensures
        ({
            let (t2, v2) = inserir_k2(d, b_res, t, v, adicionados);
            &&& indices_menores(t2, n)
            &&& v2.is_prefix_of(v)
            &&& (t.no_duplicates() && v.no_duplicates() && disjuntos(v, t) && 0 <= b_res) ==> (
            t2.no_duplicates() && peso_de(t2, d.pesos) <= peso_de(t, d.pesos) + b_res)
        }),
    decreases v.len(),
{
    if v.len() > 0 {
        let add = v.last();
        let vr = v.drop_last();
        assert(v[v.len() - 1] == add);
        assert(add < n);
        assert(indices_menores(vr, n)) by {
            assert forall|k: int| 0 <= k < vr.len() implies #[trigger] vr[k] < n by {
                assert(v[k] < n);
            }
        }
        let hip = t.no_duplicates() && v.no_duplicates() && disjuntos(v, t);
        if v.no_duplicates() {
            assert(vr.no_duplicates()) by {
                assert forall|a: int, b: int| 0 <= a < b < vr.len() implies vr[a] != vr[b] by {
                    assert(v[a] != v[b]);
                }
            }
        }
        if adicionados == 2 {
            let (t2, v2) = inserir_k2(d, b_res, t, v, adicionados);
            assert(v2 == vr);
            assert forall|k: int| 0 <= k < v2.len() implies v2[k] == v[k] by {}
        } else if b_res >= d.pesos[add as int] {
            let tp = t.push(add);
            assert(indices_menores(tp, n));
            lemma_peso_push(t, add, d.pesos);
            if hip {
                assert(!t.contains(add)) by {
                    assert(!t.contains(v[v.len() - 1]));
                }
                assert(tp.no_duplicates()) by {
                    assert forall|a: int, b: int| 0 <= a < b < tp.len() implies tp[a] != tp[b] by {
                        if b == t.len() {
                            assert(t.contains(t[a]));
                        }
                    }
                }
                assert(disjuntos(vr, tp)) by {
                    assert forall|k: int| 0 <= k < vr.len() implies !tp.contains(#[trigger] vr[k]) by {
                        assert(!t.contains(v[k]));
                        assert(v[k] != v[v.len() - 1]);
                        if tp.contains(vr[k]) {
                            let j = choose|j: int| 0 <= j < tp.len() && tp[j] == vr[k];
                            if j < t.len() {
                                assert(t[j] == vr[k]);
                            }
                        }
                    }
                }
            }
            lemma_inserir_k2(d, b_res - d.pesos[add as int], tp, vr, adicionados + 1, n);
            let (t2, v2) = inserir_k2(d, b_res, t, v, adicionados);
            assert forall|k: int| 0 <= k < v2.len() implies v2[k] == v[k] by {
                assert(vr[k] == v[k]);
            }
        } else {
            if hip {
                assert(disjuntos(vr, t)) by {
                    assert forall|k: int| 0 <= k < vr.len() implies !t.contains(#[trigger] vr[k]) by {
                        assert(!t.contains(v[k]));
                    }
                }
            }
            lemma_inserir_k2(d, b_res, t, vr, adicionados, n);
            let (t2, v2) = inserir_k2(d, b_res, t, v, adicionados);
            assert forall|k: int| 0 <= k < v2.len() implies v2[k] == v[k] by {
                assert(vr[k] == v[k]);
            }
        }
    } else {
        assert(v.is_prefix_of(v));
    }
}

pub proof fn lemma_melhora_k2(d: Dados, b: int, s: Seq<usize>, idx: int, v: Seq<usize>, n: int)
    requires
        0 <= b,
        d.pesos.len() == n,
        indices_menores(s, n),
        indices_menores(v, n),
    ensures
        ({
            let r = melhora_k2(d, b, s, idx, v);
            &&& indices_menores(r, n)
            &&& r == s || valor_de(s, d.valores, d.multas) < valor_de(r, d.valores, d.multas)
            &&& (s.no_duplicates() && peso_de(s, d.pesos) <= b && v.no_duplicates() && disjuntos(v, s))
                ==> (r.no_duplicates() && peso_de(r, d.pesos) <= b)
        }),
    decreases s.len() - idx,
{
    if 0 <= idx < s.len() {
        let t0 = sem(s, s[idx]);
        lemma_sem(s, s[idx], n, d.pesos);
        lemma_peso_limitado(t0, d.pesos);
        let hip = s.no_duplicates() && peso_de(s, d.pesos) <= b && v.no_duplicates() && disjuntos(v, s);
        if hip {
            assert(disjuntos(v, t0)) by {
                assert forall|k: int| 0 <= k < v.len() implies !t0.contains(#[trigger] v[k]) by {
                    assert(!s.contains(v[k]));
                }
            }
        }
        lemma_inserir_k2(d, b - peso_de(t0, d.pesos), t0, v, 0, n);
        let (t, vr) = inserir_k2(d, b - peso_de(t0, d.pesos), t0, v, 0);
        lemma_prefixo(vr, v, n);
        if hip {
            assert(disjuntos(vr, s)) by {
                assert forall|k: int| 0 <= k < vr.len() implies !s.contains(#[trigger] vr[k]) by {
                    assert(vr[k] == v[k]);
                    assert(!s.contains(v[k]));
                }
            }
        }
        lemma_melhora_k2(d, b, s, idx + 1, vr, n);
    }
}

/// Reverses `v` in place.
pub fn inverter(v: &mut Vec<usize>)
    ensures
        final(v)@ == old(v)@.reverse(),
{
    let ghost orig = v@;
    let mut r: Vec<usize> = Vec::new();
    let len = v.len();
    let mut k: usize = 0;
    while k < len
        invariant
            k <= len,
            len == orig.len(),
            v@ == orig,
            r@ =~= orig.reverse().take(k as int),
        decreases len - k,
    {
        r.push(v[len - 1 - k]);
        proof {
            assert(orig.reverse().take(k + 1) =~= orig.reverse().take(k as int).push(orig[len - 1 - k]));
        }
        k = k + 1;
    }
    assert(orig.reverse().take(len as int) =~= orig.reverse());
    *v = r;
}

/// `s` without the occurrences of `x`.
fn sem_exec(s: &[usize], x: usize) -> (r: Vec<usize>)
    ensures
        r@ == sem(s@, x),
{
    let mut r: Vec<usize> = Vec::new();
    let mut k: usize = 0;
    while k < s.len()
        invariant
            k <= s@.len(),
            r@ == sem(s@.take(k as int), x),
        decreases s@.len() - k,
    {
        proof {
            assert(s@.take(k + 1).drop_last() =~= s@.take(k as int));
        }
        if s[k] != x {
            r.push(s[k]);
        }
        k = k + 1;
    }
    assert(s@.take(s@.len() as int) =~= s@);
    r
}

/// The first neighbourhood's move inserting `a`, as `inserir_k1` states.
fn inserir_k1_exec(problema: &Problema, s: &[usize], a: usize) -> (r: Vec<usize>)
    requires
        problema.bem_formado(),
        indices_menores(s@, problema.n_itens()),
        a < problema.n_itens(),
        problema.pesos@[a as int] <= problema.b,
        !s@.contains(a),
    ensures
        r@ == inserir_k1(problema.dados(), problema.b as int, s@, a),
{
    let ghost d = problema.dados();
    let ghost b = problema.b as int;
    let ghost t = s@.push(a);
    let mut s_tmp = copiar(s);
    s_tmp.push(a);
    assert(indices_menores(s_tmp@, problema.n_itens()));
    assert(s_tmp@.len() == s_tmp.len());
    proof {
        lemma_peso_cabe(s_tmp@, problema.pesos@);
    }
    let mut b_res: i128 = problema.b as i128 - calcular_peso_total(s_tmp.as_slice(), problema) as i128;
    let ghost mut invertido = false;
    while b_res < 0
        invariant
            d == problema.dados(),
            b == problema.b as int,
            problema.bem_formado(),
            t == s@.push(a),
            !s@.contains(a),
            problema.pesos@[a as int] <= b,
            indices_menores(s_tmp@, problema.n_itens()),
            b_res + peso_de(s_tmp@, problema.pesos@) == b,
            !invertido ==> s_tmp@ == t,
            invertido ==> {
                &&& !(peso_de(t, d.pesos) <= b)
                &&& ajustar(d, b, t.reverse()) == ajustar(d, b, s_tmp@)
                &&& s_tmp@.len() >= 1
                &&& s_tmp@[0] == a
                &&& forall|j: int| 1 <= j < s_tmp@.len() ==> #[trigger] s_tmp@[j] != a
            },
        decreases s_tmp@.len() + if invertido {
            0int
        } else {
            1int
        },
    {
        let ghost antes = s_tmp@;
        proof {
            lemma_peso_limitado(antes, problema.pesos@);
            if invertido && antes.len() == 1 {
                assert(antes.last() == a);
                assert(antes.drop_last().len() == 0);
                assert(peso_de(antes, problema.pesos@) == peso_de(antes.drop_last(), problema.pesos@)
                    + problema.pesos@[a as int]);
                assert(false);
            }
            if invertido {
                assert(antes.len() >= 2);
                assert(antes[antes.len() - 1] != a);
            }
        }
        let removido = s_tmp.pop().unwrap();
        proof {
            assert(s_tmp@ == antes.drop_last());
            assert(removido == antes[antes.len() - 1]);
        }
        if removido == a {
            assert(!invertido);
            s_tmp.push(removido);
            assert(s_tmp@ == t);
            inverter(&mut s_tmp);
            proof {
                invertido = true;
                lemma_reverso(t, problema.n_itens());
                assert(t.reverse()[0] == a);
                assert forall|j: int| 1 <= j < t.reverse().len() implies #[trigger] t.reverse()[j] != a by {
                    assert(t.reverse()[j] == t[t.len() - 1 - j]);
                    assert(t[t.len() - 1 - j] == s@[t.len() - 1 - j]);
                    assert(s@.contains(s@[t.len() - 1 - j]));
                }
                vstd::seq_lib::to_multiset_len(t);
                t.lemma_reverse_to_multiset();
                vstd::seq_lib::to_multiset_len(t.reverse());
                assert(peso_de(t.reverse(), problema.pesos@) == peso_de(t, problema.pesos@)) by {
                    lemma_peso_reverso(t, problema.pesos@);
                }
            }
        } else {
            proof {
                assert(invertido);
                assert(peso_de(antes, problema.pesos@) == peso_de(s_tmp@, problema.pesos@)
                    + problema.pesos@[removido as int]);
                assert(s_tmp@.len() >= 1);
                assert(s_tmp@[0] == antes[0]);
                assert(indices_menores(s_tmp@, problema.n_itens())) by {
                    assert forall|j: int| 0 <= j < s_tmp@.len() implies #[trigger] s_tmp@[j]
                        < problema.n_itens() by {
                        assert(antes[j] < problema.n_itens());
                    }
                }
                assert forall|j: int| 1 <= j < s_tmp@.len() implies #[trigger] s_tmp@[j] != a by {
                    assert(antes[j] != a);
                }
            }
            b_res = b_res + problema.pesos[removido] as i128;
        }
    }
    s_tmp
}

pub proof fn lemma_peso_reverso(t: Seq<usize>, pesos: Seq<u32>)
    ensures
        peso_de(t.reverse(), pesos) == peso_de(t, pesos),
    decreases t.len(),
{
    if t.len() > 0 {
        lemma_peso_reverso(t.drop_last(), pesos);
        let r = t.reverse();
        assert(r.len() > 0);
        lemma_peso_drop_first(r, pesos);
        assert(r.drop_first() =~= t.drop_last().reverse());
        assert(r[0] == t.last());
    }
}

/// The second neighbourhood's insertions into `t`, as `inserir_k2` states,
/// popping from `v`.
fn inserir_k2_exec(problema: &Problema, t: &mut Vec<usize>, b_res: i128, v: &mut Vec<usize>)
    requires
        problema.bem_formado(),
        indices_menores(old(v)@, problema.n_itens()),
        -(0xffff_ffff_ffff_ffff * 0xffff_ffffint) <= b_res <= 0xffff_ffff_ffff_ffff,
    ensures
        (final(t)@, final(v)@) == inserir_k2(problema.dados(), b_res as int, old(t)@, old(v)@, 0),
{
    let ghost d = problema.dados();
    let ghost alvo = inserir_k2(d, b_res as int, t@, v@, 0);
    let mut b_res = b_res;
    let mut adicionados: usize = 0;
    loop
        invariant_except_break
            alvo == inserir_k2(d, b_res as int, t@, v@, adicionados as nat),
        invariant
            d == problema.dados(),
            problema.bem_formado(),
            indices_menores(v@, problema.n_itens()),
            adicionados <= 2,
            -(0xffff_ffff_ffff_ffff * 0xffff_ffffint) <= b_res <= 0xffff_ffff_ffff_ffff,
        ensures
            alvo == (t@, v@),
        decreases v@.len(),
    {
        let ghost antes = v@;
        match v.pop() {
            Some(add) => {
                proof {
                    assert(v@ == antes.drop_last());
                    assert(antes[antes.len() - 1] < problema.n_itens());
                    assert(indices_menores(v@, problema.n_itens())) by {
                        assert forall|j: int| 0 <= j < v@.len() implies #[trigger] v@[j] < problema.n_itens() by {
                            assert(antes[j] < problema.n_itens());
                        }
                    }
                }
                if adicionados == 2 {
                    break;
                }
                if b_res >= problema.pesos[add] as i128 {
                    t.push(add);
                    adicionados = adicionados + 1;
                    b_res = b_res - problema.pesos[add] as i128;
                }
            },
            None => {
                break;
            },
        }
    }
}

/// First improvement in neighbourhood `k` with the outside items in the order
/// `v_menos_s`, as `primeira_melhora` states.
pub fn first_improvement_com_ordem(k: usize, s: &[usize], problema: &Problema, v_menos_s: Vec<usize>) -> (r:
    Vec<usize>)
    requires
        problema.bem_formado(),
        indices_menores(s@, problema.n_itens()),
        indices_menores(v_menos_s@, problema.n_itens()),
        disjuntos(v_menos_s@, s@),
        k == 1 ==> forall|j: int| 0 <= j < v_menos_s@.len() ==> problema.pesos@[#[trigger] v_menos_s@[j] as int] <= problema.b,
    ensures
        r@ == primeira_melhora(problema.dados(), problema.b as int, k, s@, v_menos_s@),
        indices_menores(r@, problema.n_itens()),
        r@ == s@ || valor_de(s@, problema.valores@, problema.multas@) < valor_de(r@, problema.valores@, problema.multas@),
        (problema.viavel(s@) && v_menos_s@.no_duplicates()) ==> problema.viavel(r@),
{
    let ghost d = problema.dados();
    let ghost b = problema.b as int;
    proof {
        lemma_melhora_k1(d, b, s@, v_menos_s@, problema.n_itens());
        lemma_melhora_k2(d, b, s@, 0, v_menos_s@, problema.n_itens());
    }
    if k == 1 {
        let mut j: usize = 0;
        assert(v_menos_s@.skip(0) =~= v_menos_s@);
        while j < v_menos_s.len()
            invariant
                k == 1,
                j <= v_menos_s@.len(),
                d == problema.dados(),
                b == problema.b as int,
                problema.bem_formado(),
                indices_menores(s@, problema.n_itens()),
                indices_menores(v_menos_s@, problema.n_itens()),
                disjuntos(v_menos_s@, s@),
                forall|t: int| 0 <= t < v_menos_s@.len() ==> problema.pesos@[#[trigger] v_menos_s@[t] as int] <= problema.b,
                melhora_k1(d, b, s@, v_menos_s@) == melhora_k1(d, b, s@, v_menos_s@.skip(j as int)),
            decreases v_menos_s@.len() - j,
        {
            let adicionar = v_menos_s[j];
            proof {
                assert(v_menos_s@.skip(j as int)[0] == adicionar);
                assert(v_menos_s@.skip(j as int).drop_first() =~= v_menos_s@.skip(j + 1));
                assert(!s@.contains(v_menos_s@[j as int]));
                lemma_inserir_k1(d, b, s@, adicionar, problema.n_itens());
            }
            let s_tmp = inserir_k1_exec(problema, s, adicionar);
            if calcular_valor_total(s, problema) < calcular_valor_total(s_tmp.as_slice(), problema) {
                assert(valor_de(s@, d.valores, d.multas) < valor_de(s_tmp@, d.valores, d.multas));
                assert(s_tmp@ == inserir_k1(d, b, s@, v_menos_s@.skip(j as int)[0]));
                assert(melhora_k1(d, b, s@, v_menos_s@.skip(j as int)) == s_tmp@);
                return s_tmp;
            }
            j = j + 1;
        }
        assert(v_menos_s@.skip(j as int).len() == 0);
    } else if k == 2 {
        let mut v = v_menos_s;
        let mut idx: usize = 0;
        while idx < s.len()
            invariant
                k == 2,
                idx <= s@.len(),
                (problema.viavel(s@) && v_menos_s@.no_duplicates()) ==> problema.viavel(
                    melhora_k2(d, b, s@, 0, v_menos_s@),
                ),
                d == problema.dados(),
                b == problema.b as int,
                problema.bem_formado(),
                indices_menores(s@, problema.n_itens()),
                indices_menores(v@, problema.n_itens()),
                melhora_k2(d, b, s@, 0, v_menos_s@) == melhora_k2(d, b, s@, idx as int, v@),
            decreases s@.len() - idx,
        {
            let removido = s[idx];
            let mut s_tmp = sem_exec(s, removido);
            proof {
                lemma_sem(s@, removido, problema.n_itens(), problema.pesos@);
                lemma_peso_limitado(s_tmp@, problema.pesos@);
                lemma_inserir_k2(d, b - peso_de(s_tmp@, d.pesos), s_tmp@, v@, 0, problema.n_itens());
                lemma_prefixo(inserir_k2(d, b - peso_de(s_tmp@, d.pesos), s_tmp@, v@, 0).1, v@, problema.n_itens());
            }
            assert(s_tmp@.len() == s_tmp.len());
            proof {
                lemma_peso_cabe(s_tmp@, problema.pesos@);
            }
            let b_res: i128 = problema.b as i128 - calcular_peso_total(s_tmp.as_slice(), problema) as i128;
            let ghost t0 = s_tmp@;
            let ghost v0 = v@;
            let ghost par = inserir_k2(d, b - peso_de(t0, d.pesos), t0, v0, 0);
            assert(b_res == b - peso_de(t0, d.pesos));
            inserir_k2_exec(problema, &mut s_tmp, b_res, &mut v);
            assert(s_tmp@ == par.0 && v@ == par.1);
            assert(t0 == sem(s@, s@[idx as int]));
            if calcular_valor_total(s, problema) < calcular_valor_total(s_tmp.as_slice(), problema) {
                assert(valor_de(s@, d.valores, d.multas) < valor_de(s_tmp@, d.valores, d.multas));
                assert(melhora_k2(d, b, s@, idx as int, v0) == s_tmp@);
                return s_tmp;
            }
            idx = idx + 1;
        }
    }
    copiar(s)
}

/// First improvement in neighbourhood `k` (1: insert one outside item; 2:
/// swap one item for up to two outside items), trying the outside items in a
/// random order. Whatever the order drawn, the result is `s` or strictly better
/// than `s`, and it is feasible when `s` is. In the first neighbourhood an
/// outside item heavier than the capacity would be inserted and dropped
/// forever, hence the precondition on those items.
pub fn first_improvement(k: usize, s: &[usize], problema: &Problema) -> (r: Vec<usize>)
    requires
        problema.bem_formado(),
        indices_menores(s@, problema.n_itens()),
        k == 1 ==> forall|i: usize| i < problema.n_itens() && !s@.contains(i) ==> problema.pesos@[i as int] <= problema.b,
    ensures
        exists|v: Seq<usize>|
            #[trigger] permutacao(v, fora_de(todos_itens(problema.n_itens() as nat), s@)) && r@ == primeira_melhora(
                problema.dados(),
                problema.b as int,
                k,
                s@,
                v,
            ),
        indices_menores(r@, problema.n_itens()),
        r@ == s@ || valor_de(s@, problema.valores@, problema.multas@) < valor_de(r@, problema.valores@, problema.multas@),
        problema.viavel(s@) ==> problema.viavel(r@),
{
    let n = problema.valores.len();
    let mut v_menos_s = itens_fora_de(n, s);
    let ghost livres = v_menos_s@;
    embaralhar(&mut v_menos_s);
    proof {
        lemma_livres(n as nat, s@);
        lemma_permutacao_sem_repeticao(v_menos_s@, livres, n as int);
        lemma_fora_de(todos_itens(n as nat), s@);
        assert(disjuntos(v_menos_s@, s@)) by {
            assert forall|j: int| 0 <= j < v_menos_s@.len() implies !s@.contains(#[trigger] v_menos_s@[j]) by {
                assert(v_menos_s@.contains(v_menos_s@[j]));
                assert(livres.contains(v_menos_s@[j]));
                let t = choose|t: int| 0 <= t < livres.len() && livres[t] == v_menos_s@[j];
                assert(!s@.contains(livres[t]));
            }
        }
        if k == 1 {
            assert forall|j: int| 0 <= j < v_menos_s@.len() implies problema.pesos@[#[trigger] v_menos_s@[j] as int]
                <= problema.b by {
                assert(v_menos_s@[j] < n);
            }
        }
    }
    let ghost v = v_menos_s@;
    let r = first_improvement_com_ordem(k, s, problema, v_menos_s);
    assert(permutacao(v, fora_de(todos_itens(problema.n_itens() as nat), s@)));
    r
}

/// The local search when round after round the outside items are tried in
/// the orders of `ordens`: in neighbourhood `k`, the first improvement of `s`
/// (see `primeira_melhora`); when it is no better, the next neighbourhood;
/// when it is, it is filled greedily (see `preencher`) and the search goes
/// back to neighbourhood 1. It stops after neighbourhood 2 fails or after 200
/// rounds. `None` when an order is not an arrangement of the items outside
/// the current solution, or the orders run out first.
pub open spec fn busca_local(d: Dados, b: int, k: nat, iter: nat, s: Seq<usize>, ordens: Seq<Seq<usize>>) -> Option<
    Seq<usize>,
>
    decreases 200 - iter,
{
    if !(k <= 2 && iter < 200) {
        Some(s)
    } else if ordens.len() == 0 || !permutacao(ordens[0], fora_de(todos_itens(d.valores.len()), s)) {
        None
    } else {
        let sp = primeira_melhora(d, b, k as usize, s, ordens[0]);
        if valor_de(sp, d.valores, d.multas) <= valor_de(s, d.valores, d.multas) {
            busca_local(d, b, k + 1, iter + 1, s, ordens.drop_first())
        } else {
            busca_local(
                d,
                b,
                1,
                iter + 1,
                preencher(d, b - peso_de(sp, d.pesos), fora_de(todos_itens(d.valores.len()), sp), sp),
                ordens.drop_first(),
            )
        }
    }
}

/// The local search from `s` can end in `r`: some orders of the outside items,
/// one per round, lead it there (see `busca_local`).
pub open spec fn busca_local_possivel(d: Dados, b: int, s: Seq<usize>, r: Seq<usize>) -> bool {
    exists|ordens: Seq<Seq<usize>>| #[trigger] busca_local(d, b, 1, 0, s, ordens) == Some(r)
}

/// Local search: first improvement in neighbourhood 1, then 2, going back to
/// 1 after each improvement (followed by a greedy filling), for at most 200
/// rounds, as `busca_local` states for the orders drawn.
fn local_search(s: &[usize], problema: &Problema) -> (r: Vec<usize>)
    requires
        problema.bem_formado(),
        indices_menores(s@, problema.n_itens()),
        forall|i: int| 0 <= i < problema.n_itens() ==> problema.pesos@[i] <= problema.b,
    ensures
        busca_local_possivel(problema.dados(), problema.b as int, s@, r@),
        indices_menores(r@, problema.n_itens()),
        problema.viavel(s@) ==> problema.viavel(r@),
{
    let ghost d = problema.dados();
    let ghost b = problema.b as int;
    let mut k: usize = 1;
    let mut s_v = copiar(s);
    let mut iter: usize = 0;
    let max_iter: usize = 200;
    let ghost mut ordens: Seq<Seq<usize>> = Seq::empty();
    assert forall|resto: Seq<Seq<usize>>|
        #[trigger] busca_local(d, b, 1, 0, s@, ordens + resto) == busca_local(d, b, 1, 0, s_v@, resto) by {
        assert(ordens + resto =~= resto);
    }
    while k <= 2 && iter < max_iter
        invariant
            d == problema.dados(),
            b == problema.b as int,
            problema.bem_formado(),
            forall|i: int| 0 <= i < problema.n_itens() ==> problema.pesos@[i] <= problema.b,
            indices_menores(s_v@, problema.n_itens()),
            problema.viavel(s@) ==> problema.viavel(s_v@),
            iter <= max_iter,
            max_iter == 200,
            1 <= k <= 3,
            forall|resto: Seq<Seq<usize>>|
                #[trigger] busca_local(d, b, 1, 0, s@, ordens + resto) == busca_local(
                    d,
                    b,
                    k as nat,
                    iter as nat,
                    s_v@,
                    resto,
                ),
        decreases max_iter - iter,
    {
        let ghost k0 = k;
        let ghost it0 = iter;
        let ghost s0 = s_v@;
        iter = iter + 1;
        let sp = first_improvement(k, s_v.as_slice(), problema);
        let ghost v = choose|v: Seq<usize>|
            #[trigger] permutacao(v, fora_de(todos_itens(problema.n_itens() as nat), s0)) && sp@ == primeira_melhora(
                d,
                b,
                k0,
                s0,
                v,
            );
        if calcular_valor_total(sp.as_slice(), problema) <= calcular_valor_total(s_v.as_slice(), problema) {
            k = k + 1;
        } else {
            k = 1;
            s_v = sp;
            add_free_vertices(&mut s_v, problema);
        }
        proof {
            assert forall|resto: Seq<Seq<usize>>|
                #[trigger] busca_local(d, b, 1, 0, s@, ordens.push(v) + resto) == busca_local(
                    d,
                    b,
                    k as nat,
                    iter as nat,
                    s_v@,
                    resto,
                ) by {
                let r1 = seq![v] + resto;
                assert(ordens.push(v) + resto =~= ordens + r1);
                assert(r1[0] == v);
                assert(r1.drop_first() =~= resto);
                assert(busca_local(d, b, 1, 0, s@, ordens + r1) == busca_local(d, b, k0 as nat, it0 as nat, s0, r1));
            }
            ordens = ordens.push(v);
        }
    }
    proof {
        assert(ordens + Seq::<Seq<usize>>::empty() =~= ordens);
        assert(busca_local(d, b, 1, 0, s@, ordens + Seq::<Seq<usize>>::empty()) == Some(s_v@));
    }
    s_v
}

/// The state of the iterated search between two rounds: the current solution,
/// the best solution accepted, the value the acceptance rule holds as the
/// local optimum, and the rule's counter.
pub struct EstadoIls {
    pub s: Seq<usize>,
    pub s_opt: Seq<usize>,
    pub otimo: int,
    pub i: usize,
}

/// The state after the first local search has given `s`.
pub open spec fn estado_inicial(d: Dados, s: Seq<usize>) -> EstadoIls {
    EstadoIls { s, s_opt: s, otimo: valor_de(s, d.valores, d.multas), i: 1 }
}

/// The round's candidate `sp` is not accepted and the counter has run past a
/// third of the current solution's length: the current solution is perturbed
/// by two items.
pub open spec fn recomeca(d: Dados, e: EstadoIls, sp: Seq<usize>) -> bool {
    valor_de(sp, d.valores, d.multas) <= valor_de(e.s, d.valores, d.multas) && !(e.i <= e.s.len() / 3)
}

/// The acceptance rule, given the round's candidate `sp` and, when the
/// current solution is perturbed (see `recomeca`), the perturbation `p2`. A
/// better candidate becomes the current solution and resets the counter to 1;
/// when it beats the local optimum, that is raised and the counter goes down
/// by a third of its length; when it beats the best solution, it becomes the
/// best and the counter goes down by four times its length (both with
/// wrapping). Otherwise the counter goes up while it is at most a third of the
/// current solution's length; past that, the local optimum becomes the current
/// value and the current solution becomes `p2`.
pub open spec fn aceitar(d: Dados, e: EstadoIls, sp: Seq<usize>, p2: Seq<usize>) -> EstadoIls {
    let vs = valor_de(e.s, d.valores, d.multas);
    let vsp = valor_de(sp, d.valores, d.multas);
    if vs < vsp {
        let otimo1 = if e.otimo < vsp {
            vsp
        } else {
            e.otimo
        };
        let i1 = if e.otimo < vsp {
            vstd::wrapping::usize_specs::wrapping_sub(1, (sp.len() / 3) as usize)
        } else {
            1
        };
        if valor_de(e.s_opt, d.valores, d.multas) < vsp {
            EstadoIls {
                s: sp,
                s_opt: sp,
                otimo: otimo1,
                i: vstd::wrapping::usize_specs::wrapping_sub(
                    i1,
                    vstd::wrapping::usize_specs::wrapping_mul(sp.len() as usize, 4),
                ),
            }
        } else {
            EstadoIls { s: sp, s_opt: e.s_opt, otimo: otimo1, i: i1 }
        }
    } else if e.i <= e.s.len() / 3 {
        EstadoIls { s: e.s, s_opt: e.s_opt, otimo: e.otimo, i: (e.i + 1) as usize }
    } else {
        EstadoIls { s: p2, s_opt: e.s_opt, otimo: vs, i: e.i }
    }
}

/// One round can take the state `e` to `e2`: the current solution perturbed by
/// one item gives `sp1`, the local search from `sp1` gives the candidate `sp`,
/// and, when the current solution is perturbed, two items give `p2`; then the
/// acceptance rule (see `aceitar`).
pub open spec fn rodada_possivel(d: Dados, b: int, e: EstadoIls, e2: EstadoIls) -> bool {
    exists|sp1: Seq<usize>, sp: Seq<usize>, p2: Seq<usize>|
        #![trigger busca_local_possivel(d, b, sp1, sp), aceitar(d, e, sp, p2)]
        perturbacao_possivel(d, b, 1, e.s, sp1) && busca_local_possivel(d, b, sp1, sp) && (recomeca(d, e, sp)
            ==> perturbacao_possivel(d, b, 2, e.s, p2)) && e2 == aceitar(d, e, sp, p2)
}

/// `n` rounds can take the state `e` to one whose best solution is `r`.
pub open spec fn rodadas_alcancam(d: Dados, b: int, n: nat, e: EstadoIls, r: Seq<usize>) -> bool
    decreases n,
{
    if n == 0 {
        r == e.s_opt
    } else {
        exists|e2: EstadoIls| #[trigger] rodada_possivel(d, b, e, e2) && rodadas_alcancam(d, b, (n - 1) as nat, e2, r)
    }
}

/// A round never lowers the value of the best solution held: the state after
/// a round holds a best solution at least as valuable as before.
pub proof fn lei_rodada_nao_piora_melhor(d: Dados, b: int, e: EstadoIls, e2: EstadoIls)
    requires
        rodada_possivel(d, b, e, e2),
    ensures
        valor_de(e2.s_opt, d.valores, d.multas) >= valor_de(e.s_opt, d.valores, d.multas),
{
    let (sp1, sp, p2) = choose|sp1: Seq<usize>, sp: Seq<usize>, p2: Seq<usize>|
        #![trigger busca_local_possivel(d, b, sp1, sp), aceitar(d, e, sp, p2)]
        perturbacao_possivel(d, b, 1, e.s, sp1) && busca_local_possivel(d, b, sp1, sp) && (recomeca(d, e, sp)
            ==> perturbacao_possivel(d, b, 2, e.s, p2)) && e2 == aceitar(d, e, sp, p2);
    assert(e2 == aceitar(d, e, sp, p2));
}

/// After any number of rounds, the solution given is worth at least the best
/// solution held when the rounds began.
pub proof fn lei_rodadas_dao_o_melhor(d: Dados, b: int, n: nat, e: EstadoIls, r: Seq<usize>)
    requires
        rodadas_alcancam(d, b, n, e, r),
    ensures
        valor_de(r, d.valores, d.multas) >= valor_de(e.s_opt, d.valores, d.multas),
    decreases n,
{
    if n > 0 {
        let e2 = choose|e2: EstadoIls| #[trigger] rodada_possivel(d, b, e, e2) && rodadas_alcancam(d, b, (n - 1) as nat, e2, r);
        lei_rodada_nao_piora_melhor(d, b, e, e2);
        lei_rodadas_dao_o_melhor(d, b, (n - 1) as nat, e2, r);
    }
}

/// The iterated search gives the best solution it found, not the last one:
/// its result is worth at least the local optimum reached from its random
/// greedy start.
pub proof fn lei_ils_nao_perde_o_otimo_inicial(d: Dados, b: int, r: Seq<usize>)
    requires
        ils_possivel(d, b, r),
    ensures
        exists|s0: Seq<usize>, s1: Seq<usize>|
            #![trigger busca_local_possivel(d, b, s0, s1)]
            inicial_possivel(d, b, s0) && busca_local_possivel(d, b, s0, s1) && valor_de(r, d.valores, d.multas)
                >= valor_de(s1, d.valores, d.multas),
{
    let (s0, s1) = choose|s0: Seq<usize>, s1: Seq<usize>|
        #![trigger busca_local_possivel(d, b, s0, s1), rodadas_alcancam(d, b, 5, estado_inicial(d, s1), r)]
        inicial_possivel(d, b, s0) && busca_local_possivel(d, b, s0, s1) && rodadas_alcancam(
            d,
            b,
            5,
            estado_inicial(d, s1),
            r,
        );
    lei_rodadas_dao_o_melhor(d, b, 5, estado_inicial(d, s1), r);
}

/// The iterated search can give `r`: a random greedy start `s0`, the local
/// search from it to `s1`, and five rounds from there (see `rodadas_alcancam`).
pub open spec fn ils_possivel(d: Dados, b: int, r: Seq<usize>) -> bool {
    exists|s0: Seq<usize>, s1: Seq<usize>|
        #![trigger busca_local_possivel(d, b, s0, s1), rodadas_alcancam(d, b, 5, estado_inicial(d, s1), r)]
        inicial_possivel(d, b, s0) && busca_local_possivel(d, b, s0, s1) && rodadas_alcancam(
            d,
            b,
            5,
            estado_inicial(d, s1),
            r,
        )
}

/// Iterated local search with variable neighbourhood descent: a random greedy
/// solution improved by local search, then five rounds of perturbation and
/// local search with an acceptance rule; gives the best solution accepted, as
/// `ils_possivel` states for the random draws made. The counter of the
/// acceptance rule is decremented with wrapping arithmetic. Every item must
/// fit in the knapsack alone, or the local search could loop forever (see
/// `first_improvement`). Whatever the draws, the result is a feasible solution.
pub fn ils_vnd(pesos: &Pesos, valores: &Valores, multas: &Multas, b: u64) -> (r: Vec<usize>)
    requires
        pesos@.len() == valores@.len(),
        forall|i: int| 0 <= i < valores@.len() ==> pesos@[i] <= b,
    ensures
        ils_possivel(dados(pesos, valores, multas), b as int, r@),
        exists|s0: Seq<usize>, s1: Seq<usize>|
            #![trigger busca_local_possivel(dados(pesos, valores, multas), b as int, s0, s1)]
            inicial_possivel(dados(pesos, valores, multas), b as int, s0) && busca_local_possivel(
                dados(pesos, valores, multas),
                b as int,
                s0,
                s1,
            ) && valor_de(r@, valores@, multas@) >= valor_de(s1, valores@, multas@),
        indices_menores(r@, valores@.len() as int),
        r@.no_duplicates(),
        peso_de(r@, pesos@) <= b,
{
    let max_iter: usize = 5;
    let c1: usize = 1;
    let c2: usize = 3;
    let c3: usize = 4;
    let c4: usize = 2;

    let problema = &Problema { pesos, valores, multas, b };
    let ghost d = problema.dados();
    let ghost bb = b as int;

    let guloso = false;
    let mut s: Vec<usize>;
    if guloso {
        s = dq_vec(&guloso_total(problema.pesos, problema.valores, problema.multas, problema.b));
    } else {
        s = initialize(problema);
    }
    let ghost s0 = s@;

    s = local_search(s.as_slice(), problema);
    let ghost s1 = s@;
    let mut s_opt: Vec<usize> = copiar(s.as_slice());

    let mut otimo_valor_local = calcular_valor_total(s.as_slice(), problema);

    let mut i: usize = 1;
    let ghost e_ini = estado_inicial(d, s1);

    let mut rodada: usize = 0;
    while rodada < max_iter
        invariant
            problema.pesos == pesos,
            problema.valores == valores,
            problema.multas == multas,
            problema.b == b,
            d == problema.dados(),
            bb == b as int,
            problema.bem_formado(),
            forall|t: int| 0 <= t < problema.n_itens() ==> problema.pesos@[t] <= problema.b,
            problema.viavel(s@),
            problema.viavel(s_opt@),
            rodada <= max_iter,
            max_iter == 5,
            c1 == 1,
            c2 == 3,
            c3 == 4,
            c4 == 2,
            forall|r: Seq<usize>|
                #[trigger] rodadas_alcancam(
                    d,
                    bb,
                    (5 - rodada) as nat,
                    EstadoIls { s: s@, s_opt: s_opt@, otimo: otimo_valor_local as int, i },
                    r,
                ) ==> rodadas_alcancam(d, bb, 5, e_ini, r),
        decreases max_iter - rodada,
    {
        let ghost e0 = EstadoIls { s: s@, s_opt: s_opt@, otimo: otimo_valor_local as int, i };
        let mut sp: Vec<usize> = perturb(c1, s.as_slice(), problema);
        let ghost sp1 = sp@;
        sp = local_search(sp.as_slice(), problema);
        let ghost spv = sp@;
        let ghost mut p2 = s@;

        if calcular_valor_total(s.as_slice(), problema) < calcular_valor_total(sp.as_slice(), problema) {
            s = sp;
            i = 1;

            let valor_s = calcular_valor_total(s.as_slice(), problema);

            if otimo_valor_local < valor_s {
                otimo_valor_local = valor_s;
                i = i.wrapping_sub(s.len() / c2);
            }

            if calcular_valor_total(s_opt.as_slice(), problema) < valor_s {
                s_opt = copiar(s.as_slice());
                i = i.wrapping_sub(s.len().wrapping_mul(c3));
            }
        } else if i <= s.len() / c2 {
            i = i + 1;
        } else {
            otimo_valor_local = calcular_valor_total(s.as_slice(), problema);
            s = perturb(c4, s.as_slice(), problema);
            proof {
                p2 = s@;
            }
        }
        proof {
            let e1 = EstadoIls { s: s@, s_opt: s_opt@, otimo: otimo_valor_local as int, i };
            assert(e1 == aceitar(d, e0, spv, p2));
            assert(busca_local_possivel(d, bb, sp1, spv));
            assert(rodada_possivel(d, bb, e0, e1));
            assert forall|r: Seq<usize>|
                #[trigger] rodadas_alcancam(d, bb, (5 - (rodada + 1)) as nat, e1, r) implies rodadas_alcancam(
                d,
                bb,
                5,
                e_ini,
                r,
            ) by {
                assert(rodadas_alcancam(d, bb, (5 - rodada) as nat, e0, r));
            }
        }
        rodada = rodada + 1;
    }
    proof {
        assert(rodada == 5);
        let e_fim = EstadoIls { s: s@, s_opt: s_opt@, otimo: otimo_valor_local as int, i };
        assert(rodadas_alcancam(d, bb, (5 - rodada) as nat, e_fim, s_opt@));
        assert(busca_local_possivel(d, bb, s0, s1));
        assert(rodadas_alcancam(d, bb, 5, estado_inicial(d, s1), s_opt@));
        assert(ils_possivel(d, bb, s_opt@));
        lei_ils_nao_perde_o_otimo_inicial(d, bb, s_opt@);
    }
    s_opt
}

} // verus!
