//! The text format of instance files.
//!
//! A line is split at each space. A line `p _ n` starts an instance of `n`
//! items, all of weight and value zero; `n i v` gives item `i` (counted from
//! 1) the value `v` and the weight `2 v`; `not_e i j` adds a penalty pair
//! between items `i` and `j` (counted from 1) of `(v_i + v_j) / 25`; other
//! lines are ignored. The capacity is a quarter of the total weight.
//!
//! All quantities are stored multiplied by 100, which makes them integers and
//! leaves every comparison that the heuristics make unchanged: a value `v`
//! is stored as `100 v`, a weight as `200 v`, a penalty as `4 (v_i + v_j)`.
//! Hundredths are the coarsest unit in which every quantity of the format is
//! a whole number: the penalties are multiples of `1/25` and the capacity a
//! multiple of `1/2`.
//!
//! Weights and values are 32-bit numbers throughout the library: the greedy
//! ratio comparison multiplies a sum of up to `usize::MAX` terms by a weight,
//! which fits in 128 bits only for 32-bit terms. Reading a file therefore
//! requires every value `v` to give a weight `200 v` within 32 bits
//! (`valores_cabem`, which `valores_cabem_exec` tests).
use vstd::prelude::*;

use crate::instancias::{Multas, Pesos, Valores};
use crate::Dados;

verus! {

/// The pieces of `s` between the bytes equal to `sep`, empty pieces included,
/// as `str::split` gives them.
pub open spec fn dividir(s: Seq<u8>, sep: u8) -> Seq<Seq<u8>>
    decreases s.len(),
{
    if s.len() == 0 {
        seq![Seq::empty()]
    } else {
        let r = dividir(s.drop_last(), sep);
        if s.last() == sep {
            r.push(Seq::empty())
        } else {
            r.update(r.len() - 1, r.last().push(s.last()))
        }
    }
}

/// An ASCII decimal digit.
pub open spec fn digito(c: u8) -> bool {
    48 <= c <= 57
}

/// The number that a string of decimal digits denotes.
pub open spec fn valor_digitos(s: Seq<u8>) -> nat
    decreases s.len(),
{
    if s.len() == 0 {
        0
    } else {
        valor_digitos(s.drop_last()) * 10 + (s.last() - 48) as nat
    }
}

/// Every byte is a decimal digit.
pub open spec fn so_digitos(d: Seq<u8>) -> bool {
    forall|i: int| 0 <= i < d.len() ==> digito(#[trigger] d[i])
}

/// `s` without a leading `+`.
pub open spec fn sem_sinal(s: Seq<u8>) -> Seq<u8> {
    if s.len() > 0 && s[0] == 43 {
        s.drop_first()
    } else {
        s
    }
}

/// What `usize::from_str` gives: an optional `+` then at least one digit and
/// nothing else, denoting a number that fits in `usize`.
pub open spec fn ler_usize(s: Seq<u8>) -> Option<usize> {
    let d = sem_sinal(s);
    if d.len() == 0 || !so_digitos(d) || valor_digitos(d) > usize::MAX {
        None
    } else {
        Some(valor_digitos(d) as usize)
    }
}

/// An item number of the file (counted from 1) as an index (counted from 0).
pub open spec fn ler_indice(s: Seq<u8>) -> Option<usize> {
    match ler_usize(s) {
        Some(i) => if i >= 1 {
            Some((i - 1) as usize)
        } else {
            None
        },
        None => None,
    }
}

/// `n` copies of zero.
pub open spec fn zeros(n: nat) -> Seq<u32> {
    Seq::new(n, |i: int| 0u32)
}

/// A value line `n i v` gives a scaled weight `200 v` that fits in 32 bits
/// (any other line qualifies).
pub open spec fn valor_cabe(linha: Seq<u8>) -> bool {
    let ss = dividir(linha, 32);
    (ss[0] =~= seq![110u8] && ss.len() >= 3) ==> match ler_usize(ss[2]) {
        Some(v) => 200 * v <= u32::MAX,
        None => true,
    }
}

/// Every line qualifies under `valor_cabe`.
pub open spec fn valores_cabem(linhas: Seq<Seq<u8>>) -> bool {
    forall|k: int| 0 <= k < linhas.len() ==> valor_cabe(#[trigger] linhas[k])
}

/// The effect of one line on the data read so far; `None` where the line is
/// malformed (a missing field, a field that is not a number, an item number
/// that is zero or beyond the items) or where `p` asks for more items than a
/// vector can hold. The weight is `200 v` as a 32-bit number, which the
/// reader's precondition (`valores_cabem`) makes exact.
pub open spec fn interpretar_linha(d: Dados, linha: Seq<u8>) -> Option<Dados> {
    let ss = dividir(linha, 32);
    if ss[0] =~= seq![112u8] {
        if ss.len() < 3 {
            None
        } else {
            match ler_usize(ss[2]) {
                Some(n) => if n * 8 > isize::MAX {
                    None
                } else {
                    Some(Dados { pesos: zeros(n as nat), valores: zeros(n as nat), multas: d.multas })
                },
                None => None,
            }
        }
    } else if ss[0] =~= seq![110u8] {
        if ss.len() < 3 {
            None
        } else {
            match (ler_indice(ss[1]), ler_usize(ss[2])) {
                (Some(idx), Some(valor)) => if idx >= d.pesos.len() || idx >= d.valores.len() {
                    None
                } else {
                    Some(
                        Dados {
                            pesos: d.pesos.update(idx as int, (200 * valor) as u32),
                            valores: d.valores.update(idx as int, (100 * valor) as u32),
                            multas: d.multas,
                        },
                    )
                },
                _ => None,
            }
        }
    } else if ss[0] =~= seq![110u8, 111u8, 116u8, 95u8, 101u8] {
        if ss.len() < 3 {
            None
        } else {
            match (ler_indice(ss[1]), ler_indice(ss[2])) {
                (Some(i), Some(j)) => if i >= d.valores.len() || j >= d.valores.len() {
                    None
                } else {
                    Some(
                        Dados {
                            pesos: d.pesos,
                            valores: d.valores,
                            multas: d.multas.push(
                                (i, j, ((d.valores[i as int] + d.valores[j as int]) / 25) as u32),
                            ),
                        },
                    )
                },
                _ => None,
            }
        }
    } else {
        Some(d)
    }
}

/// The data that the lines give, from no items and no pairs.
pub open spec fn ler_linhas(linhas: Seq<Seq<u8>>) -> Option<Dados>
    decreases linhas.len(),
{
    if linhas.len() == 0 {
        Some(Dados { pesos: Seq::empty(), valores: Seq::empty(), multas: Seq::empty() })
    } else {
        match ler_linhas(linhas.drop_last()) {
            Some(d) => interpretar_linha(d, linhas.last()),
            None => None,
        }
    }
}

/// The sum of the entries.
pub open spec fn soma(p: Seq<u32>) -> int
    decreases p.len(),
{
    if p.len() == 0 {
        0
    } else {
        soma(p.drop_last()) + p.last()
    }
}

/// The lines as byte sequences.
pub open spec fn vistas(linhas: Seq<Vec<u8>>) -> Seq<Seq<u8>> {
    linhas.map_values(|l: Vec<u8>| l@)
}

pub proof fn lemma_dividir_nao_vazio(s: Seq<u8>, sep: u8)
    ensures
        dividir(s, sep).len() >= 1,
    decreases s.len(),
{
    if s.len() > 0 {
        lemma_dividir_nao_vazio(s.drop_last(), sep);
    }
}

/// The pieces of `s` that the bounds `r` mark.
pub open spec fn pedacos(s: Seq<u8>, r: Seq<(usize, usize)>) -> Seq<Seq<u8>> {
    Seq::new(r.len(), |t: int| s.subrange(r[t].0 as int, r[t].1 as int))
}

/// The bounds of the pieces of `s` between spaces.
pub(crate) fn dividir_exec(s: &[u8]) -> (r: Vec<(usize, usize)>)
    ensures
        pedacos(s@, r@) == dividir(s@, 32),
        forall|t: int| 0 <= t < r@.len() ==> (#[trigger] r@[t]).0 <= r@[t].1 <= s@.len(),
{
    let mut partes: Vec<(usize, usize)> = Vec::new();
    let mut ini: usize = 0;
    let mut k: usize = 0;
    assert(s@.take(0) =~= Seq::<u8>::empty());
    assert(pedacos(s@, partes@).push(s@.subrange(0, 0)) =~= dividir(s@.take(0), 32));
    while k < s.len()
        invariant
            k <= s@.len(),
            ini <= k,
            forall|t: int| 0 <= t < partes@.len() ==> (#[trigger] partes@[t]).0 <= partes@[t].1 <= k,
            pedacos(s@, partes@).push(s@.subrange(ini as int, k as int)) == dividir(s@.take(k as int), 32),
        decreases s@.len() - k,
    {
        let ghost antes = partes@;
        proof {
            assert(s@.take(k + 1).drop_last() =~= s@.take(k as int));
            assert(s@.take(k + 1).last() == s@[k as int]);
            lemma_dividir_nao_vazio(s@.take(k as int), 32);
        }
        if s[k] == 32 {
            let ghost ini_antes = ini;
            partes.push((ini, k));
            ini = k + 1;
            proof {
                assert(dividir(s@.take(k + 1), 32) == dividir(s@.take(k as int), 32).push(Seq::empty()));
                assert(s@.subrange(ini as int, k + 1) =~= Seq::<u8>::empty());
                assert(pedacos(s@, partes@) =~= pedacos(s@, antes).push(s@.subrange(ini_antes as int, k as int)));
                assert(pedacos(s@, partes@).push(s@.subrange(ini as int, k + 1)) =~= dividir(
                    s@.take(k + 1),
                    32,
                ));
            }
        } else {
            proof {
                let r = dividir(s@.take(k as int), 32);
                assert(s@.subrange(ini as int, k + 1) =~= s@.subrange(ini as int, k as int).push(s@[k as int]));
                assert(pedacos(s@, partes@).push(s@.subrange(ini as int, k + 1)) =~= r.update(
                    r.len() - 1,
                    r.last().push(s@[k as int]),
                ));
            }
        }
        k = k + 1;
    }
    let ghost antes = partes@;
    partes.push((ini, k));
    assert(s@.take(k as int) =~= s@);
    assert(pedacos(s@, partes@) =~= pedacos(s@, antes).push(s@.subrange(ini as int, k as int)));
    partes
}

/// Whether the bytes of `s` from `ini` to `fim` are those of `w`.
fn igual_a(s: &[u8], ini: usize, fim: usize, w: &[u8]) -> (r: bool)
    requires
        ini <= fim <= s@.len(),
    ensures
        r == (s@.subrange(ini as int, fim as int) =~= w@),
{
    if fim - ini != w.len() {
        return false;
    }
    let mut k: usize = 0;
    while k < w.len()
        invariant
            k <= w@.len(),
            fim - ini == w@.len(),
            ini <= fim <= s@.len(),
            forall|t: int| 0 <= t < k ==> s@[ini + t] == w@[t],
        decreases w@.len() - k,
    {
        if s[ini + k] != w[k] {
            assert(s@.subrange(ini as int, fim as int)[k as int] != w@[k as int]);
            return false;
        }
        k = k + 1;
    }
    assert(s@.subrange(ini as int, fim as int) =~= w@);
    true
}

pub proof fn lemma_valor_digitos_cresce(d: Seq<u8>, k: int)
    requires
        0 <= k <= d.len(),
        so_digitos(d),
    ensures
        valor_digitos(d.take(k)) <= valor_digitos(d),
    decreases d.len() - k,
{
    if k < d.len() {
        let d2 = d.take(k + 1);
        assert(d2.drop_last() =~= d.take(k));
        assert forall|i: int| 0 <= i < d2.len() implies digito(#[trigger] d2[i]) by {
            assert(d2[i] == d[i]);
        }
        lemma_valor_digitos_cresce(d, k + 1);
    } else {
        assert(d.take(k) =~= d);
    }
}

/// `usize::from_str` on the bytes of `s` from `ini` to `fim`.
#[verifier::loop_isolation(false)]
pub(crate) fn ler_usize_exec(s: &[u8], ini: usize, fim: usize) -> (r: Option<usize>)
    requires
        ini <= fim <= s@.len(),
    ensures
        r == ler_usize(s@.subrange(ini as int, fim as int)),
{
    let ghost t = s@.subrange(ini as int, fim as int);
    let mut a = ini;
    if ini < fim && s[ini] == 43 {
        a = ini + 1;
    }
    let ghost d = s@.subrange(a as int, fim as int);
    assert(d =~= sem_sinal(t));
    if a == fim {
        return None;
    }
    let mut acc: u128 = 0;
    let mut k: usize = a;
    while k < fim
        invariant
            a <= k <= fim <= s@.len(),
            d == s@.subrange(a as int, fim as int),
            forall|i: int| a <= i < k ==> digito(#[trigger] s@[i]),
            acc == valor_digitos(d.take(k - a)),
            acc <= usize::MAX,
        decreases fim - k,
    {
        let c = s[k];
        proof {
            assert(d.take(k - a + 1).drop_last() =~= d.take(k - a));
            assert(d.take(k - a + 1).last() == c);
        }
        assert(d[k - a] == s@[k as int]);
        if c < 48 || c > 57 {
            proof {
                assert(!digito(d[k - a]));
                assert(!so_digitos(d));
                assert(ler_usize(t) is None);
            }
            return None;
        }
        let novo: u128 = acc * 10 + (c - 48) as u128;
        if novo > usize::MAX as u128 {
            proof {
                assert forall|i: int| 0 <= i < d.len() implies digito(#[trigger] d[i]) || i > k - a by {
                    if i <= k - a {
                        assert(d[i] == s@[a + i]);
                    }
                }
                if so_digitos(d) {
                    lemma_valor_digitos_cresce(d, k - a + 1);
                    assert(valor_digitos(d) > usize::MAX);
                }
                assert(ler_usize(t) is None);
            }
            return None;
        }
        acc = novo;
        k = k + 1;
    }
    proof {
        assert(d.take(fim - a) =~= d);
        assert forall|i: int| 0 <= i < d.len() implies digito(#[trigger] d[i]) by {
            assert(d[i] == s@[a + i]);
        }
        assert(so_digitos(d));
    }
    Some(acc as usize)
}

/// `ler_indice` on the bytes of `s` from `ini` to `fim`.
fn ler_indice_exec(s: &[u8], ini: usize, fim: usize) -> (r: Option<usize>)
    requires
        ini <= fim <= s@.len(),
    ensures
        r == ler_indice(s@.subrange(ini as int, fim as int)),
{
    match ler_usize_exec(s, ini, fim) {
        Some(i) => if i >= 1 {
            Some(i - 1)
        } else {
            None
        },
        None => None,
    }
}

/// Applies one line to the data read so far, as `interpretar_linha` states;
/// `false` where it gives `None`.
fn interpretar_linha_exec(pesos: &mut Pesos, valores: &mut Valores, multas: &mut Multas, linha: &[u8]) -> (ok:
    bool)
    requires
        valor_cabe(linha@),
    ensures
        ok == interpretar_linha(Dados { pesos: old(pesos)@, valores: old(valores)@, multas: old(multas)@ }, linha@)
            is Some,
        ok ==> interpretar_linha(Dados { pesos: old(pesos)@, valores: old(valores)@, multas: old(multas)@ }, linha@)
            == Some(Dados { pesos: final(pesos)@, valores: final(valores)@, multas: final(multas)@ }),
{
    let ghost d = Dados { pesos: pesos@, valores: valores@, multas: multas@ };
    let ss = dividir_exec(linha);
    proof {
        lemma_dividir_nao_vazio(linha@, 32);
    }
    let ghost sv = dividir(linha@, 32);
    assert(ss@.len() == sv.len());
    assert(pedacos(linha@, ss@)[0] == sv[0]);
    let (i0, f0) = ss[0];
    if igual_a(linha, i0, f0, &[112u8]) {
        assert(sv[0] =~= seq![112u8]);
        if ss.len() < 3 {
            return false;
        }
        let (i2, f2) = ss[2];
        assert(pedacos(linha@, ss@)[2] == sv[2]);
        match ler_usize_exec(linha, i2, f2) {
            Some(n) => {
                if n as u128 * 8 > isize::MAX as u128 {
                    return false;
                }
                let mut p: Pesos = Vec::new();
                let mut v: Valores = Vec::new();
                let mut k: usize = 0;
                while k < n
                    invariant
                        k <= n,
                        p@ == zeros(k as nat),
                        v@ == zeros(k as nat),
                    decreases n - k,
                {
                    p.push(0);
                    v.push(0);
                    proof {
                        assert(p@ =~= zeros((k + 1) as nat));
                        assert(v@ =~= zeros((k + 1) as nat));
                    }
                    k = k + 1;
                }
                *pesos = p;
                *valores = v;
                true
            },
            None => false,
        }
    } else if igual_a(linha, i0, f0, &[110u8]) {
        assert(sv[0] =~= seq![110u8]);
        assert(!(sv[0] =~= seq![112u8])) by {
            assert(sv[0][0] != 112u8);
        }
        if ss.len() < 3 {
            return false;
        }
        let (i1, f1) = ss[1];
        let (i2, f2) = ss[2];
        assert(pedacos(linha@, ss@)[1] == sv[1]);
        assert(pedacos(linha@, ss@)[2] == sv[2]);
        let idx = ler_indice_exec(linha, i1, f1);
        let valor = ler_usize_exec(linha, i2, f2);
        match (idx, valor) {
            (Some(idx), Some(valor)) => {
                if idx >= pesos.len() || idx >= valores.len() {
                    return false;
                }
                assert(200 * valor <= u32::MAX);
                pesos.set(idx, (valor * 200) as u32);
                valores.set(idx, (valor * 100) as u32);
                true
            },
            _ => false,
        }
    } else if igual_a(linha, i0, f0, &[110u8, 111u8, 116u8, 95u8, 101u8]) {
        assert(sv[0] =~= seq![110u8, 111u8, 116u8, 95u8, 101u8]);
        assert(!(sv[0] =~= seq![112u8])) by {
            assert(sv[0].len() != 1);
        }
        assert(!(sv[0] =~= seq![110u8])) by {
            assert(sv[0].len() != 1);
        }
        if ss.len() < 3 {
            return false;
        }
        let (i1, f1) = ss[1];
        let (i2, f2) = ss[2];
        assert(pedacos(linha@, ss@)[1] == sv[1]);
        assert(pedacos(linha@, ss@)[2] == sv[2]);
        let i = ler_indice_exec(linha, i1, f1);
        let j = ler_indice_exec(linha, i2, f2);
        match (i, j) {
            (Some(i), Some(j)) => {
                if i >= valores.len() || j >= valores.len() {
                    return false;
                }
                let dd: u64 = (valores[i] as u64 + valores[j] as u64) / 25;
                multas.push((i, j, dd as u32));
                true
            },
            _ => false,
        }
    } else {
        proof {
            if sv[0] =~= seq![112u8] || sv[0] =~= seq![110u8] || sv[0] =~= seq![110u8, 111u8, 116u8, 95u8, 101u8] {
                assert(false);
            }
        }
        true
    }
}

/// Whether a value line's scaled weight fits in 32 bits (see `valor_cabe`).
fn valor_cabe_exec(linha: &[u8]) -> (r: bool)
    ensures
        r == valor_cabe(linha@),
{
    let ss = dividir_exec(linha);
    proof {
        lemma_dividir_nao_vazio(linha@, 32);
    }
    let ghost sv = dividir(linha@, 32);
    assert(ss@.len() == sv.len());
    assert(pedacos(linha@, ss@)[0] == sv[0]);
    let (i0, f0) = ss[0];
    if !igual_a(linha, i0, f0, &[110u8]) || ss.len() < 3 {
        return true;
    }
    let (i2, f2) = ss[2];
    assert(pedacos(linha@, ss@)[2] == sv[2]);
    match ler_usize_exec(linha, i2, f2) {
        Some(v) => v as u128 * 200 <= u32::MAX as u128,
        None => true,
    }
}

/// Whether every line qualifies under `valor_cabe`, the precondition of
/// `interpretar_instancia`.
pub fn valores_cabem_exec(linhas: &Vec<Vec<u8>>) -> (r: bool)
    ensures
        r == valores_cabem(vistas(linhas@)),
{
    let mut k: usize = 0;
    while k < linhas.len()
        invariant
            k <= linhas@.len(),
            forall|t: int| 0 <= t < k ==> valor_cabe(#[trigger] vistas(linhas@)[t]),
        decreases linhas@.len() - k,
    {
        assert(vistas(linhas@)[k as int] == linhas@[k as int]@);
        if !valor_cabe_exec(linhas[k].as_slice()) {
            return false;
        }
        k = k + 1;
    }
    true
}

/// The instance that the lines of a file describe (see the module's
/// documentation): weights, values, penalty pairs and capacity, scaled by
/// 100. `None` where `ler_linhas` gives `None` or the capacity exceeds 64 bits.
/// Every value must give a scaled weight within 32 bits (`valores_cabem`):
/// weights and values are 32-bit numbers throughout the library.
pub fn interpretar_instancia(linhas: &Vec<Vec<u8>>) -> (r: Option<(Pesos, Valores, Multas, u64)>)
    requires
        valores_cabem(vistas(linhas@)),
    ensures
        match r {
            Some((p, v, m, b)) => ler_linhas(vistas(linhas@)) == Some(Dados { pesos: p@, valores: v@, multas: m@ })
                && b == soma(p@) / 4,
            None => ler_linhas(vistas(linhas@)) is None || soma(ler_linhas(vistas(linhas@))->0.pesos) / 4
                > u64::MAX,
        },
{
    let mut pesos: Pesos = Vec::new();
    let mut valores: Valores = Vec::new();
    let mut multas: Multas = Vec::new();
    let mut k: usize = 0;
    while k < linhas.len()
        invariant
            k <= linhas@.len(),
            valores_cabem(vistas(linhas@)),
            ler_linhas(vistas(linhas@).take(k as int)) == Some(Dados { pesos: pesos@, valores: valores@, multas: multas@ }),
        decreases linhas@.len() - k,
    {
        assert(valor_cabe(vistas(linhas@)[k as int]));
        proof {
            assert(vistas(linhas@).take(k + 1).drop_last() =~= vistas(linhas@).take(k as int));
            assert(vistas(linhas@).take(k + 1).last() == linhas@[k as int]@);
        }
        if !interpretar_linha_exec(&mut pesos, &mut valores, &mut multas, linhas[k].as_slice()) {
            proof {
                lemma_ler_linhas_falha(vistas(linhas@), k + 1);
            }
            return None;
        }
        k = k + 1;
    }
    assert(vistas(linhas@).take(linhas@.len() as int) =~= vistas(linhas@));
    let mut total: u128 = 0;
    let mut t: usize = 0;
    while t < pesos.len()
        invariant
            t <= pesos@.len(),
            total == soma(pesos@.take(t as int)),
            total <= t * 0xffff_ffff,
        decreases pesos@.len() - t,
    {
        proof {
            assert(pesos@.take(t + 1).drop_last() =~= pesos@.take(t as int));
            assert(t * 0xffff_ffff <= 0xffff_ffff_ffff_ffff * 0xffff_ffffint) by (nonlinear_arith)
                requires t <= 0xffff_ffff_ffff_ffffint;
        }
        total = total + pesos[t] as u128;
        t = t + 1;
    }
    assert(pesos@.take(pesos@.len() as int) =~= pesos@);
    if total / 4 > u64::MAX as u128 {
        return None;
    }
    Some((pesos, valores, multas, (total / 4) as u64))
}

/// Once a line fails, the whole file fails.
pub proof fn lemma_ler_linhas_falha(linhas: Seq<Seq<u8>>, k: int)
    requires
        0 < k <= linhas.len(),
        ler_linhas(linhas.take(k)) is None,
    ensures
        ler_linhas(linhas) is None,
    decreases linhas.len() - k,
{
    if k < linhas.len() {
        assert(linhas.take(k + 1).drop_last() =~= linhas.take(k));
        lemma_ler_linhas_falha(linhas, k + 1);
    } else {
        assert(linhas.take(k) =~= linhas);
    }
}

} // verus!
