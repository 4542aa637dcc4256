use mochila::instancias::{Multas, Pesos, Valores};
use mochila::{calcular_peso_total, calcular_peso_valor_total, calcular_valor_total, Problema};

fn instancia() -> (Pesos, Valores, Multas, u64) {
    (
        vec![4, 3, 2, 5, 1],
        vec![8, 6, 3, 7, 1],
        vec![(0, 1, 5), (2, 3, 1), (1, 4, 2)],
        8,
    )
}

#[test]
fn peso_total_soma_os_pesos() {
    let (p, v, m, b) = instancia();
    let problema = Problema { pesos: &p, valores: &v, multas: &m, b };
    assert_eq!(calcular_peso_total(&[1, 2], &problema), 5);
    assert_eq!(calcular_peso_total(&[0, 1, 2, 3, 4], &problema), 15);
    assert_eq!(calcular_peso_total(&[], &problema), 0);
    assert_eq!(calcular_peso_total(&[3, 3], &problema), 10);
}

#[test]
fn valor_total_desconta_multas() {
    let (p, v, m, b) = instancia();
    let problema = Problema { pesos: &p, valores: &v, multas: &m, b };
    assert_eq!(calcular_valor_total(&[1, 2], &problema), 9);
    assert_eq!(calcular_valor_total(&[0, 1, 2, 3, 4], &problema), 17);
    assert_eq!(calcular_valor_total(&[0, 1], &problema), 9);
    assert_eq!(calcular_valor_total(&[4, 1], &problema), 5);
    assert_eq!(calcular_valor_total(&[], &problema), 0);
}

#[test]
fn valor_pode_ser_negativo() {
    let p: Pesos = vec![1, 1];
    let v: Valores = vec![1, 1];
    let m: Multas = vec![(0, 1, 10)];
    let problema = Problema { pesos: &p, valores: &v, multas: &m, b: 5 };
    assert_eq!(calcular_valor_total(&[0, 1], &problema), -8);
}

#[test]
fn peso_valor_total_conta_penalidades() {
    let (p, v, m, b) = instancia();
    let problema = Problema { pesos: &p, valores: &v, multas: &m, b };
    assert_eq!(calcular_peso_valor_total(&[0, 1, 2, 3, 4], &problema), (15, 17, 3));
    assert_eq!(calcular_peso_valor_total(&[1, 2], &problema), (5, 9, 0));
    assert_eq!(calcular_peso_valor_total(&[1, 4], &problema), (4, 5, 1));
}

#[test]
fn ordem_nao_muda_peso_nem_valor() {
    let (p, v, m, b) = instancia();
    let problema = Problema { pesos: &p, valores: &v, multas: &m, b };
    let a = calcular_peso_valor_total(&[4, 0, 3, 1], &problema);
    let c = calcular_peso_valor_total(&mochila::utils::solucao_ordenada(&[4, 0, 3, 1]), &problema);
    assert_eq!(a, c);
    assert_eq!(a, (13, 22 - 7, 2));
}
