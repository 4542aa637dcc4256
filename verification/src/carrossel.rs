//! The greedy constructor and the carousel greedy.
//!
//! The greedy step adds, among the items of `x` that are not yet in the
//! solution and fit in the residual capacity, the one with the highest ratio
//! of gain to weight (the last such item of `x` on a tie), where the gain of an
//! item is its value less the penalties it shares with items already chosen.
//! It adds nothing when no item fits or the best ratio is negative.
use std::collections::VecDeque;
use vstd::prelude::*;

use crate::instancias::{Multas, Pesos, Valores};
use crate::utils::{contem_fila, itens, todos_itens};
use crate::{dados, indices_menores, lemma_peso_limitado, peso_de, soma_multas, valor_de, Dados};

verus! {

/// `a` and `b` differ in length, or some entry of `a` is missing from `b`.
pub open spec fn diferentes_spec(a: Seq<usize>, b: Seq<usize>) -> bool {
    a.len() != b.len() || exists|k: int| 0 <= k < a.len() && !b.contains(#[trigger] a[k])
}

/// Whether `a` and the queue `b` differ in length or some entry of `a` is not in `b`.
pub fn diferentes(a: &[usize], b: &VecDeque<usize>) -> (r: bool)
    ensures
        r == diferentes_spec(a@, b@),
{
    if a.len() != b.len() {
        return true;
    }
    let mut k: usize = 0;
    while k < a.len()
        invariant
            k <= a@.len(),
            a@.len() == b@.len(),
            forall|t: int| 0 <= t < k ==> b@.contains(#[trigger] a@[t]),
        decreases a@.len() - k,
    {
        if !contem_fila(b, a[k]) {
            assert(!b@.contains(a@[k as int]));
            return true;
        }
        k = k + 1;
    }
    false
}

/// Penalty pair `m` applies between item `i` and the items of `s`.
pub open spec fn conflita(i: usize, m: (usize, usize, u32), s: Seq<usize>) -> bool {
    (i == m.0 && s.contains(m.1)) || (i == m.1 && s.contains(m.0))
}

/// The penalties that adding `i` to `s` would bring.
pub open spec fn multas_com(i: usize, multas: Seq<(usize, usize, u32)>, s: Seq<usize>) -> int
    decreases multas.len(),
{
    if multas.len() == 0 {
        0
    } else {
        multas_com(i, multas.drop_last(), s) + if conflita(i, multas.last(), s) {
            multas.last().2 as int
        } else {
            0
        }
    }
}

/// The value of `i` less the penalties it shares with the items of `s`.
pub open spec fn ganho(i: usize, d: Dados, s: Seq<usize>) -> int {
    d.valores[i as int] - multas_com(i, d.multas, s)
}

/// The ratio `ga / wa` is below `gc / wc`, where a zero weight gives an
/// infinite ratio of the sign of the gain. With a positive weight on either
/// side this is the cross product `ga * wc < gc * wa`; two infinite ratios
/// differ only by their signs. (A zero weight with a zero gain has no ratio;
/// see `passo_falha`.)
pub open spec fn menor_razao(ga: int, wa: int, gc: int, wc: int) -> bool {
    if wa == 0 && wc == 0 {
        ga < 0 && gc > 0
    } else {
        ga * wc < gc * wa
    }
}

/// The ratio gain/weight of `a` is below that of `c` (see `menor_razao`).
pub open spec fn razao_menor(a: usize, c: usize, d: Dados, s: Seq<usize>) -> bool {
    menor_razao(ganho(a, d, s), d.pesos[a as int] as int, ganho(c, d, s), d.pesos[c as int] as int)
}

/// The entries of `x`, in order, that fit in `b_res` and are not in `s`.
pub open spec fn candidatos(x: Seq<usize>, d: Dados, b_res: int, s: Seq<usize>) -> Seq<usize>
    decreases x.len(),
{
    if x.len() == 0 {
        Seq::empty()
    } else {
        let c = candidatos(x.drop_last(), d, b_res, s);
        let i = x.last();
        if d.pesos[i as int] <= b_res && !s.contains(i) {
            c.push(i)
        } else {
            c
        }
    }
}

/// The last entry of `c` whose ratio is not below that of any other entry.
pub open spec fn melhor(c: Seq<usize>, d: Dados, s: Seq<usize>) -> usize
    decreases c.len(),
{
    if c.len() <= 1 {
        c[0]
    } else {
        let m = melhor(c.drop_last(), d, s);
        if razao_menor(c.last(), m, d, s) {
            m
        } else {
            c.last()
        }
    }
}

/// The item that the greedy step adds to `s`, if any.
pub open spec fn escolha(d: Dados, b_res: int, x: Seq<usize>, s: Seq<usize>) -> Option<usize> {
    let c = candidatos(x, d, b_res, s);
    if c.len() == 0 {
        None
    } else {
        let m = melhor(c, d, s);
        if ganho(m, d, s) < 0 {
            None
        } else {
            Some(m)
        }
    }
}

/// The solution that repeated greedy steps make of `s`, with residual
/// capacity `b_res`, until `s` holds every item of `x` or no step adds one.
pub open spec fn completar(d: Dados, b_res: int, x: Seq<usize>, s: Seq<usize>) -> Seq<usize>
    decreases restantes(x, s),
{
    if !diferentes_spec(x, s) {
        s
    } else {
        match escolha(d, b_res, x, s) {
            Some(i) => {
                proof {
                    lemma_escolha(d, b_res, x, s);
                    lemma_restantes_push(x, s, i);
                }
                completar(d, b_res - d.pesos[i as int], x, s.push(i))
            },
            None => s,
        }
    }
}

/// No greedy step of `completar` fails (see `passo_falha`).
pub open spec fn completar_ok(d: Dados, b_res: int, x: Seq<usize>, s: Seq<usize>) -> bool
    decreases restantes(x, s),
{
    if !diferentes_spec(x, s) {
        true
    } else if passo_falha(d, b_res, x, s) {
        false
    } else {
        match escolha(d, b_res, x, s) {
            Some(i) => {
                proof {
                    lemma_escolha(d, b_res, x, s);
                    lemma_restantes_push(x, s, i);
                }
                completar_ok(d, b_res - d.pesos[i as int], x, s.push(i))
            },
            None => true,
        }
    }
}

/// Adding an entry of `x` does not raise the count of the entries left out.
pub proof fn lemma_restantes_push_le(x: Seq<usize>, s: Seq<usize>, i: usize)
    ensures
        restantes(x, s.push(i)) <= restantes(x, s),
    decreases x.len(),
{
    if x.len() > 0 {
        lemma_restantes_push_le(x.drop_last(), s, i);
        if s.contains(x.last()) {
            let a = choose|a: int| 0 <= a < s.len() && s[a] == x.last();
            assert(s.push(i)[a] == x.last());
        }
    }
}

/// Adding an entry of `x` that was left out lowers the count.
pub proof fn lemma_restantes_push(x: Seq<usize>, s: Seq<usize>, i: usize)
    requires
        x.contains(i),
        !s.contains(i),
    ensures
        restantes(x, s.push(i)) < restantes(x, s),
    decreases x.len(),
{
    let xd = x.drop_last();
    if x.last() == i {
        lemma_restantes_push_le(xd, s, i);
        assert(s.push(i)[s.len() as int] == i);
    } else {
        let k = choose|k: int| 0 <= k < x.len() && x[k] == i;
        assert(k != x.len() - 1);
        assert(xd[k] == i);
        lemma_restantes_push(xd, s, i);
        if s.push(i).contains(x.last()) {
            let a = choose|a: int| 0 <= a < s.push(i).len() && s.push(i)[a] == x.last();
            assert(a < s.len());
            assert(s[a] == x.last());
        }
        if s.contains(x.last()) {
            let a = choose|a: int| 0 <= a < s.len() && s[a] == x.last();
            assert(s.push(i)[a] == x.last());
        }
    }
}

/// `n` carousel rounds: each drops the oldest item and makes one greedy step.
/// `None` when the queue runs empty or a step fails or adds nothing.
pub open spec fn rodadas(d: Dados, n: nat, b_res: int, x: Seq<usize>, s: Seq<usize>) -> Option<(int, Seq<usize>)>
    decreases n,
{
    if n == 0 {
        Some((b_res, s))
    } else if s.len() == 0 {
        None
    } else {
        let s1 = s.drop_first();
        let b1 = b_res + d.pesos[s[0] as int];
        if passo_falha(d, b1, x, s1) {
            None
        } else {
            match escolha(d, b1, x, s1) {
                Some(i) => rodadas(d, (n - 1) as nat, b1 - d.pesos[i as int], x, s1.push(i)),
                None => None,
            }
        }
    }
}

/// How many items of a greedy solution of `t` items the carousel keeps:
/// `t` less the floor of `0.4 * t`.
pub open spec fn mantidos(t: int) -> int {
    t - (2 * t) / 5
}

/// The carousel greedy: a greedy solution, cut to its oldest `mantidos` items,
/// then as many carousel rounds as the greedy solution had items, then a
/// greedy completion. `None` where a round finds no item to add, or a greedy
/// step fails (see `passo_falha`).
pub open spec fn carrossel_spec(d: Dados, b: int) -> Option<Seq<usize>> {
    let x = todos_itens(d.valores.len());
    let s0 = completar(d, b, x, Seq::empty());
    let t = s0.len() as int;
    let s1 = s0.take(mantidos(t));
    if !completar_ok(d, b, x, Seq::empty()) {
        None
    } else {
        match rodadas(d, t as nat, b - peso_de(s1, d.pesos), x, s1) {
            Some((b2, s2)) => if completar_ok(d, b2, x, s2) {
                Some(completar(d, b2, x, s2))
            } else {
                None
            },
            None => None,
        }
    }
}

/// The items of `x` are items of the instance.
pub open spec fn itens_validos(d: Dados, x: Seq<usize>) -> bool {
    &&& d.pesos.len() == d.valores.len()
    &&& indices_menores(x, d.valores.len() as int)
}

/// The greedy step cannot rank its candidates: there are at least two, and
/// one of them has zero weight and zero gain, a ratio that compares with
/// nothing.
pub open spec fn passo_falha(d: Dados, b_res: int, x: Seq<usize>, s: Seq<usize>) -> bool {
    let c = candidatos(x, d, b_res, s);
    c.len() >= 2 && exists|k: int| 0 <= k < c.len() && d.pesos[#[trigger] c[k] as int] == 0 && ganho(c[k], d, s) == 0
}

/// The number of entries of `x` that are not in `s`.
pub open spec fn restantes(x: Seq<usize>, s: Seq<usize>) -> nat
    decreases x.len(),
{
    if x.len() == 0 {
        0
    } else {
        restantes(x.drop_last(), s) + if s.contains(x.last()) {
            0nat
        } else {
            1nat
        }
    }
}

/// No greedy step can extend `s`: it holds all of `x`, or nothing is added
/// with residual capacity `b_res`.
pub open spec fn maximal(d: Dados, b_res: int, x: Seq<usize>, s: Seq<usize>) -> bool {
    !diferentes_spec(x, s) || escolha(d, b_res, x, s) is None
}

/// `s.push(i)` holds what `s` holds, and `i`.
proof fn lemma_contem_push(s: Seq<usize>, i: usize, v: usize)
    ensures
        s.push(i).contains(v) == (s.contains(v) || v == i),
{
    if s.contains(v) {
        let a = choose|a: int| 0 <= a < s.len() && s[a] == v;
        assert(s.push(i)[a] == v);
    }
    if v == i {
        assert(s.push(i)[s.len() as int] == i);
    }
    if s.push(i).contains(v) {
        let a = choose|a: int| 0 <= a < s.push(i).len() && s.push(i)[a] == v;
        if a < s.len() {
            assert(s[a] == v);
        }
    }
}

/// The penalties that apply once `i` joins `s` are those that applied to `s`
/// and those that `i` shares with `s`.
proof fn lemma_soma_multas_push(multas: Seq<(usize, usize, u32)>, s: Seq<usize>, i: usize)
    requires
        !s.contains(i),
        forall|m: int| 0 <= m < multas.len() ==> #[trigger] multas[m].0 != multas[m].1,
    ensures
        soma_multas(multas, s.push(i)) == soma_multas(multas, s) + multas_com(i, multas, s),
    decreases multas.len(),
{
    if multas.len() > 0 {
        let md = multas.drop_last();
        assert forall|m: int| 0 <= m < md.len() implies #[trigger] md[m].0 != md[m].1 by {
            assert(md[m] == multas[m]);
        }
        lemma_soma_multas_push(md, s, i);
        let e = multas.last();
        assert(e == multas[multas.len() - 1]);
        lemma_contem_push(s, i, e.0);
        lemma_contem_push(s, i, e.1);
    }
}

/// The gain of an item is what adding it adds to the objective: the value of
/// `s` with `i` is the value of `s` plus `ganho(i, d, s)`, for an item `i`
/// outside `s` and a penalty list with no pair joining an item to itself.
/// Every pair that joins `i` to an item of `s` is subtracted, each once.
pub proof fn lei_ganho_e_acrescimo_de_valor(d: Dados, s: Seq<usize>, i: usize)
    requires
        !s.contains(i),
        forall|m: int| 0 <= m < d.multas.len() ==> #[trigger] d.multas[m].0 != d.multas[m].1,
    ensures
        valor_de(s.push(i), d.valores, d.multas) == valor_de(s, d.valores, d.multas) + ganho(i, d, s),
{
    lemma_soma_multas_push(d.multas, s, i);
    assert(s.push(i).drop_last() =~= s);
}

pub proof fn lemma_multas_com_limitadas(i: usize, multas: Seq<(usize, usize, u32)>, s: Seq<usize>)
    ensures
        0 <= multas_com(i, multas, s) <= multas.len() * 0xffff_ffff,
    decreases multas.len(),
{
    if multas.len() > 0 {
        lemma_multas_com_limitadas(i, multas.drop_last(), s);
    }
}

pub proof fn lemma_candidatos(x: Seq<usize>, d: Dados, b_res: int, s: Seq<usize>)
    ensures
        forall|t: int|
            0 <= t < candidatos(x, d, b_res, s).len() ==> {
                let i = #[trigger] candidatos(x, d, b_res, s)[t];
                &&& x.contains(i)
                &&& d.pesos[i as int] <= b_res
                &&& !s.contains(i)
            },
    decreases x.len(),
{
    if x.len() > 0 {
        lemma_candidatos(x.drop_last(), d, b_res, s);
        let c = candidatos(x.drop_last(), d, b_res, s);
        assert forall|t: int| 0 <= t < c.len() implies x.contains(#[trigger] c[t]) by {
            assert(x.drop_last().contains(c[t]));
            let k = choose|k: int| 0 <= k < x.drop_last().len() && x.drop_last()[k] == c[t];
            assert(x[k] == c[t]);
        }
        assert(x[x.len() - 1] == x.last());
    }
}

pub proof fn lemma_melhor_pertence(c: Seq<usize>, d: Dados, s: Seq<usize>)
    requires
        c.len() > 0,
    ensures
        c.contains(melhor(c, d, s)),
    decreases c.len(),
{
    if c.len() > 1 {
        lemma_melhor_pertence(c.drop_last(), d, s);
        let m = melhor(c.drop_last(), d, s);
        let k = choose|k: int| 0 <= k < c.drop_last().len() && c.drop_last()[k] == m;
        assert(c[k] == m);
        assert(c[c.len() - 1] == c.last());
    } else {
        assert(c[0] == melhor(c, d, s));
    }
}

/// What the greedy step adds comes from `x`, is new to `s` and fits.
pub proof fn lemma_escolha(d: Dados, b_res: int, x: Seq<usize>, s: Seq<usize>)
    ensures
        escolha(d, b_res, x, s) matches Some(i) ==> {
            &&& x.contains(i)
            &&& !s.contains(i)
            &&& d.pesos[i as int] <= b_res
            &&& ganho(i, d, s) >= 0
        },
{
    let c = candidatos(x, d, b_res, s);
    if c.len() > 0 {
        lemma_candidatos(x, d, b_res, s);
        lemma_melhor_pertence(c, d, s);
        let m = melhor(c, d, s);
        let k = choose|k: int| 0 <= k < c.len() && c[k] == m;
        assert(c[k] == m);
    }
}

pub proof fn lemma_peso_push(s: Seq<usize>, i: usize, pesos: Seq<u32>)
    ensures
        peso_de(s.push(i), pesos) == peso_de(s, pesos) + pesos[i as int],
{
    assert(s.push(i).drop_last() =~= s);
}

pub proof fn lemma_peso_drop_first(s: Seq<usize>, pesos: Seq<u32>)
    requires
        s.len() > 0,
    ensures
        peso_de(s, pesos) == pesos[s[0] as int] + peso_de(s.drop_first(), pesos),
    decreases s.len(),
{
    if s.len() > 1 {
        lemma_peso_drop_first(s.drop_last(), pesos);
        assert(s.drop_last().drop_first() =~= s.drop_first().drop_last());
        assert(s.drop_first().last() == s.last());
        assert(s.drop_last()[0] == s[0]);
        assert(peso_de(s.drop_first(), pesos) == peso_de(s.drop_first().drop_last(), pesos)
            + pesos[s.drop_first().last() as int]);
    } else {
        assert(s.drop_first().len() == 0);
        assert(s.drop_last().len() == 0);
        assert(s.last() == s[0]);
        assert(peso_de(s, pesos) == peso_de(s.drop_last(), pesos) + pesos[s.last() as int]);
    }
}

pub proof fn lemma_peso_take(s: Seq<usize>, k: int, pesos: Seq<u32>)
    requires
        0 <= k <= s.len(),
    ensures
        peso_de(s.take(k), pesos) <= peso_de(s, pesos),
    decreases s.len(),
{
    if k < s.len() {
        lemma_peso_take(s.drop_last(), k, pesos);
        assert(s.drop_last().take(k) =~= s.take(k));
    } else {
        assert(s.take(k) =~= s);
    }
}

/// Index sets: an entry of `x` is an item when `x` names only items.
pub proof fn lemma_contem_indice(x: Seq<usize>, n: int, i: usize)
    requires
        indices_menores(x, n),
        x.contains(i),
    ensures
        i < n,
{
    let k = choose|k: int| 0 <= k < x.len() && x[k] == i;
    assert(x[k] < n);
}

/// One greedy step keeps a solution feasible: `b_res` stays the capacity left.
pub proof fn lemma_passo(d: Dados, b: int, b_res: int, x: Seq<usize>, s: Seq<usize>, i: usize)
    requires
        itens_validos(d, x),
        indices_menores(s, d.valores.len() as int),
        s.no_duplicates(),
        b_res + peso_de(s, d.pesos) == b,
        escolha(d, b_res, x, s) == Some(i),
    ensures
        indices_menores(s.push(i), d.valores.len() as int),
        s.push(i).no_duplicates(),
        (b_res - d.pesos[i as int]) + peso_de(s.push(i), d.pesos) == b,
        0 <= b_res - d.pesos[i as int] <= b_res,
        restantes(x, s.push(i)) < restantes(x, s),
{
    lemma_escolha(d, b_res, x, s);
    lemma_contem_indice(x, d.valores.len() as int, i);
    lemma_peso_push(s, i, d.pesos);
    lemma_restantes_push(x, s, i);
    assert forall|a: int, c: int| 0 <= a < c < s.push(i).len() implies s.push(i)[a] != s.push(i)[c] by {
        if c == s.len() {
            assert(s.contains(s[a]));
        }
    }
}

/// The carousel rounds start from the oldest items of the greedy solution:
/// when the carousel gives `r`, the rounds began from a prefix `s1` of the
/// greedy solution `g` holding `mantidos(|g|)` of its items (the cut removes
/// the items added last), and `r` is the greedy completion of what the
/// rounds left.
pub proof fn lei_carrossel_parte_dos_primeiros(d: Dados, b: int)
    ensures
        carrossel_spec(d, b) matches Some(r) ==> {
            let x = todos_itens(d.valores.len());
            let g = completar(d, b, x, Seq::empty());
            exists|s1: Seq<usize>, b2: int, s2: Seq<usize>|
                #![trigger rodadas(d, g.len(), b - peso_de(s1, d.pesos), x, s1), completar(d, b2, x, s2)]
                s1.is_prefix_of(g) && s1.len() == mantidos(g.len() as int) && rodadas(
                    d,
                    g.len(),
                    b - peso_de(s1, d.pesos),
                    x,
                    s1,
                ) == Some((b2, s2)) && r == completar(d, b2, x, s2)
        },
{
    if let Some(r) = carrossel_spec(d, b) {
        let x = todos_itens(d.valores.len());
        let g = completar(d, b, x, Seq::empty());
        let t = g.len() as int;
        let s1 = g.take(mantidos(t));
        assert(0 <= mantidos(t) <= t);
        assert(s1.is_prefix_of(g));
        let (b2, s2) = rodadas(d, t as nat, b - peso_de(s1, d.pesos), x, s1)->0;
        assert(rodadas(d, g.len(), b - peso_de(s1, d.pesos), x, s1) == Some((b2, s2)));
        assert(r == completar(d, b2, x, s2));
    }
}

/// The greedy completion of a feasible solution is feasible, extends it, and
/// cannot be extended by another greedy step.
pub proof fn lemma_completar(d: Dados, b: int, b_res: int, x: Seq<usize>, s: Seq<usize>)
    requires
        itens_validos(d, x),
        indices_menores(s, d.valores.len() as int),
        s.no_duplicates(),
        b_res + peso_de(s, d.pesos) == b,
        0 <= b_res,
    ensures
        ({
            let r = completar(d, b_res, x, s);
            &&& indices_menores(r, d.valores.len() as int)
            &&& r.no_duplicates()
            &&& peso_de(r, d.pesos) <= b
            &&& s.is_prefix_of(r)
            &&& maximal(d, b - peso_de(r, d.pesos), x, r)
        }),
    decreases restantes(x, s),
{
    if diferentes_spec(x, s) {
        match escolha(d, b_res, x, s) {
            Some(i) => {
                lemma_passo(d, b, b_res, x, s, i);
                lemma_escolha(d, b_res, x, s);
                lemma_completar(d, b, b_res - d.pesos[i as int], x, s.push(i));
                let r = completar(d, b_res, x, s);
                assert(s.is_prefix_of(s.push(i)));
                assert(s.is_prefix_of(r)) by {
                    assert(s.push(i).is_prefix_of(r));
                    assert forall|k: int| 0 <= k < s.len() implies s[k] == r[k] by {
                        assert(s.push(i)[k] == s[k]);
                    }
                }
            },
            None => {
                assert(s.is_prefix_of(s));
            },
        }
    } else {
        assert(s.is_prefix_of(s));
    }
}

/// Carousel rounds keep a solution feasible.
pub proof fn lemma_rodadas(d: Dados, b: int, n: nat, b_res: int, x: Seq<usize>, s: Seq<usize>)
    requires
        itens_validos(d, x),
        indices_menores(s, d.valores.len() as int),
        s.no_duplicates(),
        b_res + peso_de(s, d.pesos) == b,
        0 <= b_res,
    ensures
        rodadas(d, n, b_res, x, s) matches Some((b2, s2)) ==> {
            &&& indices_menores(s2, d.valores.len() as int)
            &&& s2.no_duplicates()
            &&& b2 + peso_de(s2, d.pesos) == b
            &&& 0 <= b2
        },
    decreases n,
{
    if n > 0 && s.len() > 0 {
        let s1 = s.drop_first();
        let b1 = b_res + d.pesos[s[0] as int];
        lemma_peso_drop_first(s, d.pesos);
        assert(s1.no_duplicates()) by {
            assert forall|a: int, c: int| 0 <= a < c < s1.len() implies s1[a] != s1[c] by {
                assert(s[a + 1] != s[c + 1]);
            }
        }
        assert(indices_menores(s1, d.valores.len() as int)) by {
            assert forall|k: int| 0 <= k < s1.len() implies #[trigger] s1[k] < d.valores.len() by {
                assert(s[k + 1] < d.valores.len());
            }
        }
        match escolha(d, b1, x, s1) {
            Some(i) => {
                lemma_passo(d, b, b1, x, s1, i);
                lemma_rodadas(d, b, (n - 1) as nat, b1 - d.pesos[i as int], x, s1.push(i));
            },
            None => {},
        }
    }
}

/// Under the well-formedness of the instance, the carousel result is feasible
/// and cannot be extended by a greedy step.
pub proof fn lemma_carrossel(d: Dados, b: int)
    requires
        itens_validos(d, todos_itens(d.valores.len())),
        0 <= b,
    ensures
        carrossel_spec(d, b) matches Some(r) ==> {
            &&& indices_menores(r, d.valores.len() as int)
            &&& r.no_duplicates()
            &&& peso_de(r, d.pesos) <= b
            &&& maximal(d, b - peso_de(r, d.pesos), todos_itens(d.valores.len()), r)
        },
{
    let x = todos_itens(d.valores.len());
    let e = Seq::<usize>::empty();
    assert(e.no_duplicates());
    lemma_completar(d, b, b, x, e);
    let s0 = completar(d, b, x, e);
    let t = s0.len() as int;
    let s1 = s0.take(mantidos(t));
    lemma_peso_take(s0, mantidos(t), d.pesos);
    lemma_peso_limitado(s1, d.pesos);
    assert(s1.no_duplicates()) by {
        assert forall|a: int, c: int| 0 <= a < c < s1.len() implies s1[a] != s1[c] by {
            assert(s0[a] != s0[c]);
        }
    }
    assert(indices_menores(s1, d.valores.len() as int)) by {
        assert forall|k: int| 0 <= k < s1.len() implies #[trigger] s1[k] < d.valores.len() by {
            assert(s0[k] < d.valores.len());
        }
    }
    lemma_rodadas(d, b, t as nat, b - peso_de(s1, d.pesos), x, s1);
    match rodadas(d, t as nat, b - peso_de(s1, d.pesos), x, s1) {
        Some((b2, s2)) => {
            lemma_completar(d, b, b2, x, s2);
        },
        None => {},
    }
}

/// The gain of `i` with respect to the items of the queue `s`.
fn ganho_de(i: usize, valores: &Valores, multas: &Multas, s: &VecDeque<usize>) -> (g: i128)
    requires
        i < valores@.len(),
    ensures
        g == valores@[i as int] - multas_com(i, multas@, s@),
        -(0xffff_ffff_ffff_ffff * 0xffff_ffffint) <= g <= 0xffff_ffff,
{
    let mut pp_i: i128 = valores[i] as i128;
    let mut m: usize = 0;
    while m < multas.len()
        invariant
            m <= multas@.len(),
            i < valores@.len(),
            pp_i == valores@[i as int] - multas_com(i, multas@.take(m as int), s@),
        decreases multas@.len() - m,
    {
        let (i_m, j_m, d) = multas[m];
        proof {
            assert(multas@.take(m + 1).drop_last() =~= multas@.take(m as int));
            lemma_multas_com_limitadas(i, multas@.take(m as int), s@);
            assert(m * 0xffff_ffff <= 0xffff_ffff_ffff_ffff * 0xffff_ffffint) by (nonlinear_arith)
                requires m <= 0xffff_ffff_ffff_ffffint;
        }
        if i == i_m && contem_fila(s, j_m) || i == j_m && contem_fila(s, i_m) {
            pp_i = pp_i - d as i128;
        }
        m = m + 1;
    }
    proof {
        assert(multas@.take(multas@.len() as int) =~= multas@);
        lemma_multas_com_limitadas(i, multas@, s@);
        assert(multas@.len() * 0xffff_ffff <= 0xffff_ffff_ffff_ffff * 0xffff_ffffint) by (nonlinear_arith)
            requires multas@.len() <= 0xffff_ffff_ffff_ffffint;
    }
    pp_i
}

/// Whether `ga / wa < gb / wb`, as `menor_razao` states, by exact integer
/// arithmetic.
fn razao_menor_exec(ga: i128, wa: u32, gb: i128, wb: u32) -> (r: bool)
    requires
        -(0xffff_ffff_ffff_ffff * 0xffff_ffffint) <= ga <= 0xffff_ffff,
        -(0xffff_ffff_ffff_ffff * 0xffff_ffffint) <= gb <= 0xffff_ffff,
    ensures
        r == menor_razao(ga as int, wa as int, gb as int, wb as int),
{
    if wa == 0 && wb == 0 {
        ga < 0 && gb > 0
    } else if ga >= 0 && gb >= 0 {
        assert(ga * wb <= 0xffff_ffff * 0xffff_ffffint) by (nonlinear_arith)
            requires 0 <= ga <= 0xffff_ffff, 0 <= wb <= 0xffff_ffff;
        assert(gb * wa <= 0xffff_ffff * 0xffff_ffffint) by (nonlinear_arith)
            requires 0 <= gb <= 0xffff_ffff, 0 <= wa <= 0xffff_ffff;
        assert(0 <= ga * wb && 0 <= gb * wa) by (nonlinear_arith)
            requires 0 <= ga, 0 <= gb, 0 <= wa, 0 <= wb;
        (ga as u128) * (wb as u128) < (gb as u128) * (wa as u128)
    } else if ga < 0 && gb >= 0 {
        assert(ga * wb <= 0 && 0 <= gb * wa) by (nonlinear_arith)
            requires ga < 0, gb >= 0, wa >= 0, wb >= 0;
        assert(wb > 0 ==> ga * wb < 0) by (nonlinear_arith)
            requires ga < 0, wb >= 0;
        assert(gb > 0 && wa > 0 ==> gb * wa > 0) by (nonlinear_arith)
            requires gb >= 0, wa >= 0;
        assert(wb == 0 ==> ga * wb == 0) by (nonlinear_arith);
        assert(gb == 0 || wa == 0 ==> gb * wa == 0) by (nonlinear_arith);
        wb > 0 || (gb > 0 && wa > 0)
    } else if ga >= 0 && gb < 0 {
        assert(ga * wb >= 0 && 0 >= gb * wa) by (nonlinear_arith)
            requires ga >= 0, gb < 0, wa >= 0, wb >= 0;
        false
    } else {
        let na: u128 = (-ga) as u128;
        let nb: u128 = (-gb) as u128;
        assert(na * wb <= (0xffff_ffff_ffff_ffff * 0xffff_ffffint) * 0xffff_ffff) by (nonlinear_arith)
            requires 0 <= na <= 0xffff_ffff_ffff_ffff * 0xffff_ffffint, 0 <= wb <= 0xffff_ffff;
        assert(nb * wa <= (0xffff_ffff_ffff_ffff * 0xffff_ffffint) * 0xffff_ffff) by (nonlinear_arith)
            requires 0 <= nb <= 0xffff_ffff_ffff_ffff * 0xffff_ffffint, 0 <= wa <= 0xffff_ffff;
        assert(0 <= na * wb && 0 <= nb * wa) by (nonlinear_arith)
            requires 0 <= na, 0 <= nb, 0 <= wa, 0 <= wb;
        assert((ga * wb < gb * wa) == (nb * wa < na * wb)) by (nonlinear_arith)
            requires na == -ga, nb == -gb;
        na * (wb as u128) > nb * (wa as u128)
    }
}

/// The outcome of a greedy step.
enum Passo {
    /// The item added.
    Adiciona(usize),
    /// No item is added.
    Nenhum,
    /// The candidates cannot be ranked (see `passo_falha`).
    Falha,
}

/// The greedy step: the item that it adds to `s`, none, or a failure where
/// the candidates cannot be ranked.
fn guloso_add_unico(
    pesos: &Pesos,
    valores: &Valores,
    multas: &Multas,
    b_res: i128,
    x: &[usize],
    s: &VecDeque<usize>,
) -> (r: Passo)
    requires
        itens_validos(dados(pesos, valores, multas), x@),
    ensures
        match r {
            Passo::Adiciona(i) => !passo_falha(dados(pesos, valores, multas), b_res as int, x@, s@) && escolha(
                dados(pesos, valores, multas),
                b_res as int,
                x@,
                s@,
            ) == Some(i),
            Passo::Nenhum => !passo_falha(dados(pesos, valores, multas), b_res as int, x@, s@) && escolha(
                dados(pesos, valores, multas),
                b_res as int,
                x@,
                s@,
            ) is None,
            Passo::Falha => passo_falha(dados(pesos, valores, multas), b_res as int, x@, s@),
        },
{
    let ghost d = dados(pesos, valores, multas);
    let mut x_iter: Vec<usize> = Vec::new();
    let mut k: usize = 0;
    while k < x.len()
        invariant
            k <= x@.len(),
            d == dados(pesos, valores, multas),
            itens_validos(d, x@),
            x_iter@ == candidatos(x@.take(k as int), d, b_res as int, s@),
        decreases x@.len() - k,
    {
        let i = x[k];
        proof {
            assert(x@.take(k + 1).drop_last() =~= x@.take(k as int));
            assert(x@[k as int] < valores@.len());
        }
        if pesos[i] as i128 <= b_res && !contem_fila(s, i) {
            x_iter.push(i);
        }
        k = k + 1;
    }
    assert(x@.take(x@.len() as int) =~= x@);
    if x_iter.len() == 0 {
        return Passo::Nenhum;
    }
    proof {
        lemma_candidatos(x@, d, b_res as int, s@);
    }
    let ghost c = x_iter@;
    assert forall|t: int| 0 <= t < c.len() implies #[trigger] c[t] < valores@.len() by {
        let kk = choose|kk: int| 0 <= kk < x@.len() && x@[kk] == c[t];
        assert(x@[kk] < valores@.len());
    }
    let mut razoes: Vec<(usize, i128)> = Vec::new();
    let mut t: usize = 0;
    while t < x_iter.len()
        invariant
            t <= c.len(),
            pesos@.len() == valores@.len(),
            x_iter@ == c,
            d == dados(pesos, valores, multas),
            forall|u: int| 0 <= u < c.len() ==> #[trigger] c[u] < valores@.len(),
            razoes@.len() == t,
            forall|u: int|
                0 <= u < t ==> #[trigger] razoes@[u].0 == c[u] && razoes@[u].1 == ganho(c[u], d, s@),
            forall|u: int|
                0 <= u < t ==> -(0xffff_ffff_ffff_ffff * 0xffff_ffffint) <= #[trigger] razoes@[u].1
                    <= 0xffff_ffff,
        decreases c.len() - t,
    {
        let i = x_iter[t];
        let g = ganho_de(i, valores, multas, s);
        razoes.push((i, g));
        t = t + 1;
    }
    if razoes.len() >= 2 {
        let mut u: usize = 0;
        while u < razoes.len()
            invariant
                u <= c.len(),
                c.len() >= 2,
                c == candidatos(x@, d, b_res as int, s@),
                razoes@.len() == c.len(),
                pesos@.len() == valores@.len(),
                d == dados(pesos, valores, multas),
                forall|w: int| 0 <= w < c.len() ==> #[trigger] c[w] < valores@.len(),
                forall|w: int|
                    0 <= w < c.len() ==> #[trigger] razoes@[w].0 == c[w] && razoes@[w].1 == ganho(c[w], d, s@),
                forall|w: int| 0 <= w < u ==> !(d.pesos[#[trigger] c[w] as int] == 0 && ganho(c[w], d, s@) == 0),
            decreases c.len() - u,
        {
            let (i, g) = razoes[u];
            assert(razoes@[u as int].0 == c[u as int] && razoes@[u as int].1 == ganho(c[u as int], d, s@));
            if pesos[i] == 0 && g == 0 {
                assert(d.pesos[c[u as int] as int] == 0 && ganho(c[u as int], d, s@) == 0);
                return Passo::Falha;
            }
            u = u + 1;
        }
    }
    assert(!passo_falha(d, b_res as int, x@, s@));
    let mut melhor_idx: usize = 0;
    let mut t: usize = 1;
    proof {
        assert(c.take(1).len() == 1);
        assert(melhor(c.take(1), d, s@) == c.take(1)[0]);
    }
    while t < razoes.len()
        invariant
            1 <= t <= c.len(),
            pesos@.len() == valores@.len(),
            razoes@.len() == c.len(),
            d == dados(pesos, valores, multas),
            forall|u: int| 0 <= u < c.len() ==> #[trigger] c[u] < valores@.len(),
            forall|u: int|
                0 <= u < c.len() ==> #[trigger] razoes@[u].0 == c[u] && razoes@[u].1 == ganho(c[u], d, s@),
            forall|u: int|
                0 <= u < c.len() ==> -(0xffff_ffff_ffff_ffff * 0xffff_ffffint) <= #[trigger] razoes@[u].1
                    <= 0xffff_ffff,
            melhor_idx < c.len(),
            razoes@[melhor_idx as int].0 == melhor(c.take(t as int), d, s@),
        decreases c.len() - t,
    {
        let (i_novo, g_novo) = razoes[t];
        let (i_melhor, g_melhor) = razoes[melhor_idx];
        proof {
            assert(c.take(t + 1).drop_last() =~= c.take(t as int));
            assert(c.take(t + 1).last() == c[t as int]);
            assert(razoes@[t as int].0 == c[t as int] && razoes@[t as int].1 == ganho(c[t as int], d, s@));
            assert(razoes@[melhor_idx as int].0 == c[melhor_idx as int] && razoes@[melhor_idx as int].1 == ganho(c[melhor_idx as int], d, s@));
        }
        if !razao_menor_exec(g_novo, pesos[i_novo], g_melhor, pesos[i_melhor]) {
            melhor_idx = t;
        }
        t = t + 1;
    }
    assert(c.take(c.len() as int) =~= c);
    let (i_opt, g_opt) = razoes[melhor_idx];
    assert(razoes@[melhor_idx as int].0 == c[melhor_idx as int] && razoes@[melhor_idx as int].1 == ganho(c[melhor_idx as int], d, s@));
    if g_opt < 0 {
        return Passo::Nenhum;
    }
    Passo::Adiciona(i_opt)
}

/// Repeats the greedy step on `s`, starting with residual capacity `b_res`,
/// until `s` holds every item of `x` or a step adds nothing; `false` where a
/// step fails (see `passo_falha`).
fn guloso_add_completar(
    pesos: &Pesos,
    valores: &Valores,
    multas: &Multas,
    b_res: i128,
    x: &[usize],
    s: &mut VecDeque<usize>,
) -> (ok: bool)
    requires
        itens_validos(dados(pesos, valores, multas), x@),
        0 <= b_res <= 0xffff_ffff_ffff_ffff,
    ensures
        ok == completar_ok(dados(pesos, valores, multas), b_res as int, x@, old(s)@),
        ok ==> final(s)@ == completar(dados(pesos, valores, multas), b_res as int, x@, old(s)@),
{
    let ghost d = dados(pesos, valores, multas);
    let ghost alvo = completar(d, b_res as int, x@, s@);
    let ghost alvo_ok = completar_ok(d, b_res as int, x@, s@);
    let mut b_res = b_res;
    let mut ok = true;
    loop
        invariant_except_break
            ok,
            alvo == completar(d, b_res as int, x@, s@),
            alvo_ok == completar_ok(d, b_res as int, x@, s@),
        invariant
            d == dados(pesos, valores, multas),
            itens_validos(d, x@),
            0 <= b_res <= 0xffff_ffff_ffff_ffff,
        ensures
            ok == alvo_ok,
            ok ==> s@ == alvo,
        decreases restantes(x@, s@),
    {
        if !diferentes(x, s) {
            break;
        }
        match guloso_add_unico(pesos, valores, multas, b_res, x, s) {
            Passo::Adiciona(i) => {
                proof {
                    lemma_escolha(d, b_res as int, x@, s@);
                    lemma_restantes_push(x@, s@, i);
                    lemma_contem_indice(x@, valores@.len() as int, i);
                }
                s.push_back(i);
                b_res = b_res - pesos[i] as i128;
            },
            Passo::Nenhum => {
                break;
            },
            Passo::Falha => {
                ok = false;
                break;
            },
        }
    }
    ok
}

/// The weight of the items of the queue `s`.
fn peso_da_fila(pesos: &Pesos, s: &VecDeque<usize>) -> (peso: u128)
    requires
        indices_menores(s@, pesos@.len() as int),
    ensures
        peso == peso_de(s@, pesos@),
{
    let mut peso: u128 = 0;
    let mut k: usize = 0;
    while k < s.len()
        invariant
            k <= s@.len(),
            indices_menores(s@, pesos@.len() as int),
            peso == peso_de(s@.take(k as int), pesos@),
        decreases s@.len() - k,
    {
        let item = s[k];
        proof {
            assert(s@.take(k + 1).drop_last() =~= s@.take(k as int));
            lemma_peso_limitado(s@.take(k as int), pesos@);
            assert(k * 0xffff_ffff <= 0xffff_ffff_ffff_ffff * 0xffff_ffffint) by (nonlinear_arith)
                requires k <= 0xffff_ffff_ffff_ffffint;
        }
        peso = peso + pesos[item] as u128;
        k = k + 1;
    }
    assert(s@.take(s@.len() as int) =~= s@);
    peso
}

/// The carousel greedy, or `None` on the instances where a carousel round
/// finds no item to add.
pub fn carrossel_guloso_verificado(pesos: &Pesos, valores: &Valores, multas: &Multas, b: u64) -> (r:
    Option<VecDeque<usize>>)
    requires
        itens_validos(dados(pesos, valores, multas), todos_itens(valores@.len())),
    ensures
        match r {
            Some(s) => carrossel_spec(dados(pesos, valores, multas), b as int) == Some(s@),
            None => carrossel_spec(dados(pesos, valores, multas), b as int) is None,
        },
        r matches Some(s) ==> {
            let d = dados(pesos, valores, multas);
            let x = todos_itens(valores@.len());
            let g = completar(d, b as int, x, Seq::empty());
            exists|s1: Seq<usize>, b2: int, s2: Seq<usize>|
                #![trigger rodadas(d, g.len(), b - peso_de(s1, d.pesos), x, s1), completar(d, b2, x, s2)]
                s1.is_prefix_of(g) && s1.len() == mantidos(g.len() as int) && rodadas(
                    d,
                    g.len(),
                    b - peso_de(s1, d.pesos),
                    x,
                    s1,
                ) == Some((b2, s2)) && s@ == completar(d, b2, x, s2)
        },
{
    proof {
        lei_carrossel_parte_dos_primeiros(dados(pesos, valores, multas), b as int);
    }
    let ghost d = dados(pesos, valores, multas);
    let n_itens = valores.len();
    let x = itens(n_itens);
    let ghost xs = x@;

    let mut s: VecDeque<usize> = VecDeque::new();
    if !guloso_add_completar(pesos, valores, multas, b as i128, x.as_slice(), &mut s) {
        return None;
    }
    let ghost s0 = s@;
    proof {
        let e = Seq::<usize>::empty();
        assert(e.no_duplicates());
        lemma_completar(d, b as int, b as int, xs, e);
    }

    let tamanho_solucao = s.len();
    let max_itens = tamanho_solucao - (tamanho_solucao / 5 * 2 + tamanho_solucao % 5 * 2 / 5);
    assert(max_itens == mantidos(tamanho_solucao as int));
    let n_remover = tamanho_solucao - max_itens;
    let mut r: usize = 0;
    while r < n_remover
        invariant
            r <= n_remover,
            n_remover + max_itens == s0.len(),
            s@ == s0.take(s0.len() - r),
        decreases n_remover - r,
    {
        s.pop_back();
        assert(s0.take(s0.len() - r).subrange(0, s0.len() - r - 1) =~= s0.take(s0.len() - r - 1));
        r = r + 1;
    }
    let ghost s1 = s@;
    assert(s1 == s0.take(mantidos(tamanho_solucao as int)));
    proof {
        lemma_peso_take(s0, max_itens as int, pesos@);
        assert(s1.no_duplicates()) by {
            assert forall|a: int, c: int| 0 <= a < c < s1.len() implies s1[a] != s1[c] by {
                assert(s0[a] != s0[c]);
            }
        }
        assert(indices_menores(s1, n_itens as int)) by {
            assert forall|k: int| 0 <= k < s1.len() implies #[trigger] s1[k] < n_itens by {
                assert(s0[k] < n_itens);
            }
        }
        lemma_peso_limitado(s1, pesos@);
    }
    let peso_s = peso_da_fila(pesos, &s);
    let mut b_res: i128 = b as i128 - peso_s as i128;
    let ghost b1 = b_res as int;

    let mut it: usize = 0;
    while it < tamanho_solucao
        invariant
            it <= tamanho_solucao,
            d == dados(pesos, valores, multas),
            xs == x@,
            xs == todos_itens(n_itens as nat),
            n_itens == valores@.len(),
            itens_validos(d, xs),
            indices_menores(s@, n_itens as int),
            s@.no_duplicates(),
            b_res + peso_de(s@, pesos@) == b,
            0 <= b_res,
            s0 == completar(d, b as int, xs, Seq::empty()),
            tamanho_solucao == s0.len(),
            s1 == s0.take(mantidos(tamanho_solucao as int)),
            b1 == b - peso_de(s1, pesos@),
            rodadas(d, tamanho_solucao as nat, b1, xs, s1) == rodadas(
                d,
                (tamanho_solucao - it) as nat,
                b_res as int,
                xs,
                s@,
            ),
        decreases tamanho_solucao - it,
    {
        let ghost s_antes = s@;
        let ghost b_antes = b_res as int;
        let option_mais_velho = s.pop_front();
        if option_mais_velho.is_none() {
            return None;
        }
        let mais_velho = option_mais_velho.unwrap();
        proof {
            assert(s@ == s_antes.drop_first());
            assert(s_antes[0] < n_itens);
            lemma_peso_drop_first(s_antes, pesos@);
            assert(s@.no_duplicates()) by {
                assert forall|a: int, c: int| 0 <= a < c < s@.len() implies s@[a] != s@[c] by {
                    assert(s_antes[a + 1] != s_antes[c + 1]);
                }
            }
            assert(indices_menores(s@, n_itens as int)) by {
                assert forall|k: int| 0 <= k < s@.len() implies #[trigger] s@[k] < n_itens by {
                    assert(s_antes[k + 1] < n_itens);
                }
            }
            lemma_peso_limitado(s@, pesos@);
        }
        b_res = b_res + pesos[mais_velho] as i128;
        match guloso_add_unico(pesos, valores, multas, b_res, x.as_slice(), &s) {
            Passo::Adiciona(i) => {
                proof {
                    lemma_passo(d, b as int, b_res as int, xs, s@, i);
                    lemma_escolha(d, b_res as int, xs, s@);
                    lemma_contem_indice(xs, n_itens as int, i);
                }
                s.push_back(i);
                b_res = b_res - pesos[i] as i128;
            },
            _ => {
                return None;
            },
        }
        it = it + 1;
    }
    proof {
        lemma_peso_limitado(s@, pesos@);
    }
    if !guloso_add_completar(pesos, valores, multas, b_res, x.as_slice(), &mut s) {
        return None;
    }
    Some(s)
}

/// The carousel greedy on an instance where every round finds an item to add.
pub fn carrossel_guloso(pesos: &Pesos, valores: &Valores, multas: &Multas, b: u64) -> (s: VecDeque<usize>)
    requires
        itens_validos(dados(pesos, valores, multas), todos_itens(valores@.len())),
        carrossel_spec(dados(pesos, valores, multas), b as int) is Some,
    ensures
        carrossel_spec(dados(pesos, valores, multas), b as int) == Some(s@),
        indices_menores(s@, valores@.len() as int),
        s@.no_duplicates(),
        peso_de(s@, pesos@) <= b,
        maximal(dados(pesos, valores, multas), b - peso_de(s@, pesos@), todos_itens(valores@.len()), s@),
{
    proof {
        lemma_carrossel(dados(pesos, valores, multas), b as int);
    }
    carrossel_guloso_verificado(pesos, valores, multas, b).unwrap()
}

/// The greedy solution, or `None` on the instances where a greedy step
/// fails (see `passo_falha`).
pub fn guloso_total_verificado(pesos: &Pesos, valores: &Valores, multas: &Multas, b: u64) -> (r: Option<
    VecDeque<usize>,
>)
    requires
        itens_validos(dados(pesos, valores, multas), todos_itens(valores@.len())),
    ensures
        match r {
            Some(s) => completar_ok(dados(pesos, valores, multas), b as int, todos_itens(valores@.len()), Seq::empty())
                && s@ == completar(dados(pesos, valores, multas), b as int, todos_itens(valores@.len()), Seq::empty()),
            None => !completar_ok(dados(pesos, valores, multas), b as int, todos_itens(valores@.len()), Seq::empty()),
        },
{
    let n_itens = valores.len();
    let x = itens(n_itens);
    let mut s: VecDeque<usize> = VecDeque::new();
    if guloso_add_completar(pesos, valores, multas, b as i128, x.as_slice(), &mut s) {
        Some(s)
    } else {
        None
    }
}

/// The greedy solution: greedy steps from the empty solution on all items,
/// on an instance where no greedy step fails.
pub fn guloso_total(pesos: &Pesos, valores: &Valores, multas: &Multas, b: u64) -> (s: VecDeque<usize>)
    requires
        itens_validos(dados(pesos, valores, multas), todos_itens(valores@.len())),
        completar_ok(dados(pesos, valores, multas), b as int, todos_itens(valores@.len()), Seq::empty()),
    ensures
        s@ == completar(dados(pesos, valores, multas), b as int, todos_itens(valores@.len()), Seq::empty()),
        indices_menores(s@, valores@.len() as int),
        s@.no_duplicates(),
        peso_de(s@, pesos@) <= b,
        maximal(dados(pesos, valores, multas), b - peso_de(s@, pesos@), todos_itens(valores@.len()), s@),
{
    proof {
        let e = Seq::<usize>::empty();
        assert(e.no_duplicates());
        lemma_completar(dados(pesos, valores, multas), b as int, b as int, todos_itens(valores@.len()), e);
    }
    guloso_total_verificado(pesos, valores, multas, b).unwrap()
}

} // verus!
