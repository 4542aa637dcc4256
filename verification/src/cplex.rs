//! The text exchanged with the external exact solver: the instance it reads,
//! and the line of chosen items it prints.
use vstd::prelude::*;

use crate::instancias::{Multas, Pesos, Valores};
use crate::leitura::{dividir, dividir_exec, ler_usize, ler_usize_exec, pedacos};

verus! {

/// The decimal digits of `n`, without leading zeros.
pub open spec fn decimal(n: nat) -> Seq<u8>
    decreases n,
{
    if n < 10 {
        seq![(48 + n) as u8]
    } else {
        decimal(n / 10).push((48 + n % 10) as u8)
    }
}

/// Each number on a line of its own.
pub open spec fn linhas_numeros(xs: Seq<u32>) -> Seq<u8>
    decreases xs.len(),
{
    if xs.len() == 0 {
        Seq::empty()
    } else {
        linhas_numeros(xs.drop_last()) + decimal(xs.last() as nat) + seq![10u8]
    }
}

/// Each penalty pair on a line of its own: `i j d`.
pub open spec fn linhas_multas(ms: Seq<(usize, usize, u32)>) -> Seq<u8>
    decreases ms.len(),
{
    if ms.len() == 0 {
        Seq::empty()
    } else {
        let m = ms.last();
        linhas_multas(ms.drop_last()) + decimal(m.0 as nat) + seq![32u8] + decimal(m.1 as nat) + seq![32u8]
            + decimal(m.2 as nat) + seq![10u8]
    }
}

/// The solver's input: a line `n b m` (items, capacity, pairs), then the
/// values, the weights and the pairs, one per line.
pub open spec fn texto_entrada(b: u64, multas: Seq<(usize, usize, u32)>, valores: Seq<u32>, pesos: Seq<u32>) -> Seq<u8> {
    decimal(valores.len()) + seq![32u8] + decimal(b as nat) + seq![32u8] + decimal(multas.len()) + seq![10u8]
        + linhas_numeros(valores) + linhas_numeros(pesos) + linhas_multas(multas)
}

/// Appends the decimal digits of `n` to `out`.
fn escrever_decimal(out: &mut Vec<u8>, n: u64)
    ensures
        final(out)@ == old(out)@ + decimal(n as nat),
    decreases n,
{
    if n < 10 {
        out.push((48 + n) as u8);
        assert(decimal(n as nat) =~= seq![(48 + n) as u8]);
    } else {
        escrever_decimal(out, n / 10);
        out.push((48 + n % 10) as u8);
    }
}

/// The text of the solver's input, as `texto_entrada` states.
pub fn entrada_cplex(b: u64, multas: &Multas, valores: &Valores, pesos: &Pesos) -> (r: Vec<u8>)
    ensures
        r@ == texto_entrada(b, multas@, valores@, pesos@),
{
    let mut out: Vec<u8> = Vec::new();
    escrever_decimal(&mut out, valores.len() as u64);
    out.push(32);
    escrever_decimal(&mut out, b);
    out.push(32);
    escrever_decimal(&mut out, multas.len() as u64);
    out.push(10);
    let ghost cabecalho = out@;
    assert(cabecalho =~= decimal(valores@.len()) + seq![32u8] + decimal(b as nat) + seq![32u8] + decimal(
        multas@.len(),
    ) + seq![10u8]);
    let mut k: usize = 0;
    while k < valores.len()
        invariant
            k <= valores@.len(),
            out@ == cabecalho + linhas_numeros(valores@.take(k as int)),
        decreases valores@.len() - k,
    {
        proof {
            assert(valores@.take(k + 1).drop_last() =~= valores@.take(k as int));
        }
        escrever_decimal(&mut out, valores[k] as u64);
        out.push(10);
        proof {
            assert(out@ =~= cabecalho + linhas_numeros(valores@.take(k + 1)));
        }
        k = k + 1;
    }
    assert(valores@.take(valores@.len() as int) =~= valores@);
    let ghost ate_valores = out@;
    let mut k: usize = 0;
    while k < pesos.len()
        invariant
            k <= pesos@.len(),
            out@ == ate_valores + linhas_numeros(pesos@.take(k as int)),
        decreases pesos@.len() - k,
    {
        proof {
            assert(pesos@.take(k + 1).drop_last() =~= pesos@.take(k as int));
        }
        escrever_decimal(&mut out, pesos[k] as u64);
        out.push(10);
        proof {
            assert(out@ =~= ate_valores + linhas_numeros(pesos@.take(k + 1)));
        }
        k = k + 1;
    }
    assert(pesos@.take(pesos@.len() as int) =~= pesos@);
    let ghost ate_pesos = out@;
    let mut k: usize = 0;
    while k < multas.len()
        invariant
            k <= multas@.len(),
            out@ == ate_pesos + linhas_multas(multas@.take(k as int)),
        decreases multas@.len() - k,
    {
        proof {
            assert(multas@.take(k + 1).drop_last() =~= multas@.take(k as int));
            assert(multas@.take(k + 1).last() == multas@[k as int]);
        }
        let (i, j, d) = multas[k];
        escrever_decimal(&mut out, i as u64);
        out.push(32);
        escrever_decimal(&mut out, j as u64);
        out.push(32);
        escrever_decimal(&mut out, d as u64);
        out.push(10);
        proof {
            assert(out@ =~= ate_pesos + linhas_multas(multas@.take(k + 1)));
        }
        k = k + 1;
    }
    assert(multas@.take(multas@.len() as int) =~= multas@);
    assert(out@ =~= texto_entrada(b, multas@, valores@, pesos@));
    out
}

/// Every piece read as a `usize`, in order; `None` if one is not a number.
pub open spec fn ler_todos(ps: Seq<Seq<u8>>) -> Option<Seq<usize>>
    decreases ps.len(),
{
    if ps.len() == 0 {
        Some(Seq::empty())
    } else {
        match (ler_todos(ps.drop_last()), ler_usize(ps.last())) {
            (Some(r), Some(x)) => Some(r.push(x)),
            _ => None,
        }
    }
}

/// The item numbers of a line of numbers separated by spaces, as the solver
/// prints them; `None` where a piece is not a number.
pub fn ler_itens(linha: &[u8]) -> (r: Option<Vec<usize>>)
    ensures
        match r {
            Some(v) => ler_todos(dividir(linha@, 32)) == Some(v@),
            None => ler_todos(dividir(linha@, 32)) is None,
        },
{
    let ss = dividir_exec(linha);
    let ghost sv = dividir(linha@, 32);
    let mut itens: Vec<usize> = Vec::new();
    let mut k: usize = 0;
    while k < ss.len()
        invariant
            k <= ss@.len(),
            pedacos(linha@, ss@) == sv,
            sv == dividir(linha@, 32),
            forall|t: int| 0 <= t < ss@.len() ==> (#[trigger] ss@[t]).0 <= ss@[t].1 <= linha@.len(),
            ler_todos(sv.take(k as int)) == Some(itens@),
        decreases ss@.len() - k,
    {
        let (a, f) = ss[k];
        proof {
            assert(sv.take(k + 1).drop_last() =~= sv.take(k as int));
            assert(sv.take(k + 1).last() == sv[k as int]);
            assert(pedacos(linha@, ss@)[k as int] == sv[k as int]);
        }
        match ler_usize_exec(linha, a, f) {
            Some(x) => {
                itens.push(x);
            },
            None => {
                proof {
                    lemma_ler_todos_falha(sv, k + 1);
                }
                return None;
            },
        }
        k = k + 1;
    }
    assert(sv.take(ss@.len() as int) =~= sv);
    Some(itens)
}

/// Once a piece fails, the whole line fails.
pub proof fn lemma_ler_todos_falha(ps: Seq<Seq<u8>>, k: int)
    requires
        0 < k <= ps.len(),
        ler_todos(ps.take(k)) is None,
    ensures
        ler_todos(ps) is None,
    decreases ps.len() - k,
{
    if k < ps.len() {
        assert(ps.take(k + 1).drop_last() =~= ps.take(k));
        lemma_ler_todos_falha(ps, k + 1);
    } else {
        assert(ps.take(k) =~= ps);
    }
}

} // verus!
