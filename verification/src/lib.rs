//! Heuristics for the 0-1 knapsack problem with pairwise penalties (and for the
//! maximum weight independent set problem that it generalises): a greedy
//! constructor, a carousel greedy, and an iterated local search with variable
//! neighbourhood descent.
//!
//! Weights, values and penalties are non-negative integers. A solution is a
//! sequence of item indices; its weight is the sum of the weights of its
//! entries, and its value is the sum of their values minus the penalty of
//! every pair `(i, j, d)` whose two items both occur in it.
use vstd::prelude::*;

pub mod carrossel;
pub mod cplex;
pub mod ils_vnd;
pub mod ils_vnd_mwis;
pub mod instancias;
pub mod leitura;
pub mod sorteio;
pub mod utils;

use crate::instancias::{Multas, Pesos, Valores};
use crate::utils::contem;

verus! {

/// One instance of the problem: item weights, item values, penalty pairs and
/// the knapsack capacity `b`.
pub struct Problema<'a> {
    pub pesos: &'a Pesos,
    pub valores: &'a Valores,
    pub multas: &'a Multas,
    pub b: u64,
}

/// The data of an instance as mathematical sequences.
pub struct Dados {
    pub pesos: Seq<u32>,
    pub valores: Seq<u32>,
    pub multas: Seq<(usize, usize, u32)>,
}

/// The data held by three vectors of an instance.
pub open spec fn dados(pesos: &Pesos, valores: &Valores, multas: &Multas) -> Dados {
    Dados { pesos: pesos@, valores: valores@, multas: multas@ }
}

impl<'a> Problema<'a> {
    /// The data of the instance.
    pub open spec fn dados(&self) -> Dados {
        dados(self.pesos, self.valores, self.multas)
    }

    /// Every item of the instance has a weight: the items are `0..valores.len()`.
    pub open spec fn bem_formado(&self) -> bool {
        self.pesos@.len() == self.valores@.len()
    }

    /// The number of items.
    pub open spec fn n_itens(&self) -> int {
        self.valores@.len() as int
    }

    /// `s` fits in the knapsack and names each valid item at most once.
    pub open spec fn viavel(&self, s: Seq<usize>) -> bool {
        &&& indices_menores(s, self.n_itens())
        &&& s.no_duplicates()
        &&& peso_de(s, self.pesos@) <= self.b
    }
}

/// Every entry of `s` is below `n`.
pub open spec fn indices_menores(s: Seq<usize>, n: int) -> bool {
    forall|k: int| 0 <= k < s.len() ==> #[trigger] s[k] < n
}

/// The total weight of the entries of `s`, an entry counted as often as it occurs.
pub open spec fn peso_de(s: Seq<usize>, pesos: Seq<u32>) -> int
    decreases s.len(),
{
    if s.len() == 0 {
        0
    } else {
        peso_de(s.drop_last(), pesos) + pesos[s.last() as int]
    }
}

/// The total value of the entries of `s`, an entry counted as often as it occurs.
pub open spec fn soma_valores(s: Seq<usize>, valores: Seq<u32>) -> int
    decreases s.len(),
{
    if s.len() == 0 {
        0
    } else {
        soma_valores(s.drop_last(), valores) + valores[s.last() as int]
    }
}

/// A penalty pair applies to `s` when both of its items occur in `s`.
pub open spec fn multa_ativa(m: (usize, usize, u32), s: Seq<usize>) -> bool {
    s.contains(m.0) && s.contains(m.1)
}

/// The sum of the penalties of the pairs that apply to `s`.
pub open spec fn soma_multas(multas: Seq<(usize, usize, u32)>, s: Seq<usize>) -> int
    decreases multas.len(),
{
    if multas.len() == 0 {
        0
    } else {
        soma_multas(multas.drop_last(), s) + if multa_ativa(multas.last(), s) {
            multas.last().2 as int
        } else {
            0
        }
    }
}

/// The number of penalty pairs that apply to `s`.
pub open spec fn n_multas_ativas(multas: Seq<(usize, usize, u32)>, s: Seq<usize>) -> int
    decreases multas.len(),
{
    if multas.len() == 0 {
        0
    } else {
        n_multas_ativas(multas.drop_last(), s) + if multa_ativa(multas.last(), s) {
            1int
        } else {
            0
        }
    }
}

/// The objective: values of the entries minus the penalties that apply.
pub open spec fn valor_de(s: Seq<usize>, valores: Seq<u32>, multas: Seq<(usize, usize, u32)>) -> int {
    soma_valores(s, valores) - soma_multas(multas, s)
}

pub proof fn lemma_peso_limitado(s: Seq<usize>, pesos: Seq<u32>)
    ensures
        0 <= peso_de(s, pesos) <= s.len() * 0xffff_ffff,
    decreases s.len(),
{
    if s.len() > 0 {
        lemma_peso_limitado(s.drop_last(), pesos);
    }
}

/// The weight of a sequence that fits in memory fits in 96 bits.
pub proof fn lemma_peso_cabe(s: Seq<usize>, pesos: Seq<u32>)
    requires
        s.len() <= usize::MAX,
    ensures
        0 <= peso_de(s, pesos) <= 0xffff_ffff_ffff_ffff * 0xffff_ffffint,
{
    lemma_peso_limitado(s, pesos);
    assert(s.len() * 0xffff_ffff <= 0xffff_ffff_ffff_ffff * 0xffff_ffffint) by (nonlinear_arith)
        requires s.len() <= 0xffff_ffff_ffff_ffffint;
}

pub proof fn lemma_valores_limitados(s: Seq<usize>, valores: Seq<u32>)
    ensures
        0 <= soma_valores(s, valores) <= s.len() * 0xffff_ffff,
    decreases s.len(),
{
    if s.len() > 0 {
        lemma_valores_limitados(s.drop_last(), valores);
    }
}

pub proof fn lemma_multas_limitadas(multas: Seq<(usize, usize, u32)>, s: Seq<usize>)
    ensures
        0 <= soma_multas(multas, s) <= multas.len() * 0xffff_ffff,
        0 <= n_multas_ativas(multas, s) <= multas.len(),
    decreases multas.len(),
{
    if multas.len() > 0 {
        lemma_multas_limitadas(multas.drop_last(), s);
    }
}

/// The total weight of the items of `s`.
pub fn calcular_peso_total(s: &[usize], problema: &Problema) -> (peso: u128)
    requires
        indices_menores(s@, problema.pesos@.len() as int),
    ensures
        peso == peso_de(s@, problema.pesos@),
{
    let mut peso_total: u128 = 0;
    let mut k: usize = 0;
    while k < s.len()
        invariant
            k <= s@.len(),
            indices_menores(s@, problema.pesos@.len() as int),
            peso_total == peso_de(s@.take(k as int), problema.pesos@),
        decreases s@.len() - k,
    {
        let item = s[k];
        proof {
            assert(s@.take(k + 1).drop_last() =~= s@.take(k as int));
            lemma_peso_limitado(s@.take(k as int), problema.pesos@);
            assert(k * 0xffff_ffff <= 0xffff_ffff_ffff_ffff * 0xffff_ffffint) by (nonlinear_arith)
                requires k <= 0xffff_ffff_ffff_ffffint;
        }
        peso_total = peso_total + problema.pesos[item] as u128;
        k = k + 1;
    }
    assert(s@.take(s@.len() as int) =~= s@);
    peso_total
}

/// The sum of the values of the items of `s`, less the penalties of the
/// pairs whose two items are both in `s`.
pub fn calcular_valor_total(s: &[usize], problema: &Problema) -> (valor: i128)
    requires
        indices_menores(s@, problema.valores@.len() as int),
    ensures
        valor == valor_de(s@, problema.valores@, problema.multas@),
{
    let (soma, multas, _n) = somas_de_valor(s, problema);
    soma - multas
}

/// The total weight, the value, and the number of penalty pairs that apply.
pub fn calcular_peso_valor_total(s: &[usize], problema: &Problema) -> (r: (u128, i128, usize))
    requires
        indices_menores(s@, problema.pesos@.len() as int),
        indices_menores(s@, problema.valores@.len() as int),
    ensures
        r.0 == peso_de(s@, problema.pesos@),
        r.1 == valor_de(s@, problema.valores@, problema.multas@),
        r.2 == n_multas_ativas(problema.multas@, s@),
{
    let peso_total = calcular_peso_total(s, problema);
    let (soma, multas, n_penalidades) = somas_de_valor(s, problema);
    (peso_total, soma - multas, n_penalidades)
}

/// The sum of the values, the sum of the penalties that apply, and their number.
fn somas_de_valor(s: &[usize], problema: &Problema) -> (r: (i128, i128, usize))
    requires
        indices_menores(s@, problema.valores@.len() as int),
    ensures
        r.0 == soma_valores(s@, problema.valores@),
        r.1 == soma_multas(problema.multas@, s@),
        r.2 == n_multas_ativas(problema.multas@, s@),
        0 <= r.0 <= 0xffff_ffff_ffff_ffff_ffff_ffff,
        0 <= r.1 <= 0xffff_ffff_ffff_ffff_ffff_ffff,
{
    let mut valor_total: i128 = 0;
    let mut k: usize = 0;
    while k < s.len()
        invariant
            k <= s@.len(),
            indices_menores(s@, problema.valores@.len() as int),
            valor_total == soma_valores(s@.take(k as int), problema.valores@),
        decreases s@.len() - k,
    {
        let item = s[k];
        proof {
            assert(s@.take(k + 1).drop_last() =~= s@.take(k as int));
            lemma_valores_limitados(s@.take(k as int), problema.valores@);
            assert(k * 0xffff_ffff <= 0xffff_ffff_ffff_ffff * 0xffff_ffffint) by (nonlinear_arith)
                requires k <= 0xffff_ffff_ffff_ffffint;
        }
        valor_total = valor_total + problema.valores[item] as i128;
        k = k + 1;
    }
    assert(s@.take(s@.len() as int) =~= s@);
    let mut multas_total: i128 = 0;
    let mut n_penalidades: usize = 0;
    let mut m: usize = 0;
    while m < problema.multas.len()
        invariant
            m <= problema.multas@.len(),
            multas_total == soma_multas(problema.multas@.take(m as int), s@),
            n_penalidades == n_multas_ativas(problema.multas@.take(m as int), s@),
        decreases problema.multas@.len() - m,
    {
        let (i, j, d) = problema.multas[m];
        proof {
            assert(problema.multas@.take(m + 1).drop_last() =~= problema.multas@.take(m as int));
            lemma_multas_limitadas(problema.multas@.take(m as int), s@);
            assert(m * 0xffff_ffff <= 0xffff_ffff_ffff_ffff * 0xffff_ffffint) by (nonlinear_arith)
                requires m <= 0xffff_ffff_ffff_ffffint;
        }
        if contem(s, i) && contem(s, j) {
            n_penalidades = n_penalidades + 1;
            multas_total = multas_total + d as i128;
        }
        m = m + 1;
    }
    assert(problema.multas@.take(problema.multas@.len() as int) =~= problema.multas@);
    proof {
        lemma_valores_limitados(s@, problema.valores@);
        lemma_multas_limitadas(problema.multas@, s@);
        assert(s@.len() * 0xffff_ffff <= 0xffff_ffff_ffff_ffff * 0xffff_ffffint) by (nonlinear_arith)
            requires s@.len() <= 0xffff_ffff_ffff_ffffint;
        assert(problema.multas@.len() * 0xffff_ffff <= 0xffff_ffff_ffff_ffff * 0xffff_ffffint) by (nonlinear_arith)
            requires problema.multas@.len() <= 0xffff_ffff_ffff_ffffint;
    }
    (valor_total, multas_total, n_penalidades)
}

pub proof fn lemma_peso_remove(t: Seq<usize>, i: int, pesos: Seq<u32>)
    requires
        0 <= i < t.len(),
    ensures
        peso_de(t, pesos) == peso_de(t.remove(i), pesos) + pesos[t[i] as int],
    decreases t.len(),
{
    if i == t.len() - 1 {
        assert(t.remove(i) =~= t.drop_last());
    } else {
        lemma_peso_remove(t.drop_last(), i, pesos);
        assert(t.remove(i).drop_last() =~= t.drop_last().remove(i));
        assert(t.remove(i).last() == t.last());
        assert(t.drop_last()[i] == t[i]);
    }
}

pub proof fn lemma_peso_permutacao(s: Seq<usize>, t: Seq<usize>, pesos: Seq<u32>)
    requires
        s.to_multiset() == t.to_multiset(),
    ensures
        peso_de(s, pesos) == peso_de(t, pesos),
    decreases s.len(),
{
    broadcast use vstd::seq_lib::group_to_multiset_ensures;
    vstd::seq_lib::to_multiset_len(s);
    vstd::seq_lib::to_multiset_len(t);
    if s.len() > 0 {
        let x = s.last();
        assert(s.contains(x)) by {
            assert(s[s.len() - 1] == x);
        }
        assert(s.to_multiset().count(x) > 0);
        assert(t.contains(x));
        let i = choose|i: int| 0 <= i < t.len() && t[i] == x;
        vstd::seq_lib::to_multiset_remove(t, i);
        vstd::seq_lib::to_multiset_remove(s, s.len() - 1);
        assert(s.remove(s.len() - 1) =~= s.drop_last());
        lemma_peso_permutacao(s.drop_last(), t.remove(i), pesos);
        lemma_peso_remove(t, i, pesos);
    }
}

pub proof fn lemma_soma_valores_peso(s: Seq<usize>, valores: Seq<u32>)
    ensures
        soma_valores(s, valores) == peso_de(s, valores),
    decreases s.len(),
{
    if s.len() > 0 {
        lemma_soma_valores_peso(s.drop_last(), valores);
    }
}

pub proof fn lemma_multas_mesmos_itens(multas: Seq<(usize, usize, u32)>, s: Seq<usize>, t: Seq<usize>)
    requires
        forall|i: usize| s.contains(i) == t.contains(i),
    ensures
        soma_multas(multas, s) == soma_multas(multas, t),
        n_multas_ativas(multas, s) == n_multas_ativas(multas, t),
    decreases multas.len(),
{
    if multas.len() > 0 {
        lemma_multas_mesmos_itens(multas.drop_last(), s, t);
        assert(multa_ativa(multas.last(), s) == multa_ativa(multas.last(), t));
    }
}

/// The weight, the value and the number of penalty pairs that apply depend
/// only on which items a solution holds and how often, not on their order.
pub proof fn lemma_ordem_irrelevante(s: Seq<usize>, t: Seq<usize>, d: Dados)
    requires
        s.to_multiset() == t.to_multiset(),
    ensures
        peso_de(s, d.pesos) == peso_de(t, d.pesos),
        valor_de(s, d.valores, d.multas) == valor_de(t, d.valores, d.multas),
        n_multas_ativas(d.multas, s) == n_multas_ativas(d.multas, t),
{
    broadcast use vstd::seq_lib::group_to_multiset_ensures;
    lemma_peso_permutacao(s, t, d.pesos);
    lemma_peso_permutacao(s, t, d.valores);
    lemma_soma_valores_peso(s, d.valores);
    lemma_soma_valores_peso(t, d.valores);
    assert forall|i: usize| s.contains(i) == t.contains(i) by {
        vstd::seq_lib::to_multiset_contains(s, i);
        vstd::seq_lib::to_multiset_contains(t, i);
    }
    lemma_multas_mesmos_itens(d.multas, s, t);
}

/// The methods that the benchmarks compare.
#[derive(Debug)]
pub enum Executor {
    CPlex,
    Guloso,
    Carrossel,
    ILsVNd,
}

} // verus!
