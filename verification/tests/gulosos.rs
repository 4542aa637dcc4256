use std::collections::VecDeque;

use mochila::carrossel::{carrossel_guloso, carrossel_guloso_verificado, guloso_total, guloso_total_verificado};
use mochila::instancias::{Multas, Pesos, Valores};
use mochila::utils::dq_vec;
use mochila::{calcular_peso_total, Problema};

fn instancia() -> (Pesos, Valores, Multas, u64) {
    (
        vec![4, 3, 2, 5, 1],
        vec![8, 6, 3, 7, 1],
        vec![(0, 1, 5), (2, 3, 1), (1, 4, 2)],
        8,
    )
}

#[test]
fn guloso_escolhe_a_maior_razao_e_a_ultima_no_empate() {
    let (p, v, m, b) = instancia();
    let s = guloso_total(&p, &v, &m, b);
    assert_eq!(dq_vec(&s), vec![1, 2]);
}

#[test]
fn guloso_sem_multas_enche_por_razao() {
    let p: Pesos = vec![2, 3, 4, 5, 9, 4];
    let v: Valores = vec![3, 4, 5, 8, 10, 6];
    let m: Multas = vec![(0, 3, 2), (1, 2, 1), (3, 5, 3), (2, 4, 4)];
    let s = guloso_total(&p, &v, &m, 12);
    assert_eq!(dq_vec(&s), vec![3, 1, 2]);
}

#[test]
fn guloso_com_capacidade_zero_e_vazio() {
    let (p, v, m, _b) = instancia();
    let s = guloso_total(&p, &v, &m, 0);
    assert!(s.is_empty());
}

#[test]
fn guloso_para_quando_todos_os_itens_entram() {
    let p: Pesos = vec![1, 1, 1];
    let v: Valores = vec![1, 2, 3];
    let m: Multas = vec![];
    let s = guloso_total(&p, &v, &m, 100);
    assert_eq!(dq_vec(&s), vec![2, 1, 0]);
}

#[test]
fn carrossel_em_instancia_pequena() {
    let (p, v, m, b) = instancia();
    let s = carrossel_guloso(&p, &v, &m, b);
    assert_eq!(dq_vec(&s), vec![1, 2]);
    let p: Pesos = vec![2, 3, 4, 5, 9, 4];
    let v: Valores = vec![3, 4, 5, 8, 10, 6];
    let m: Multas = vec![(0, 3, 2), (1, 2, 1), (3, 5, 3), (2, 4, 4)];
    let s = carrossel_guloso(&p, &v, &m, 12);
    assert_eq!(dq_vec(&s), vec![1, 3, 2]);
    let problema = Problema { pesos: &p, valores: &v, multas: &m, b: 12 };
    assert!(calcular_peso_total(&dq_vec(&s), &problema) <= 12);
}

#[test]
fn carrossel_verificado_sem_itens() {
    let p: Pesos = vec![];
    let v: Valores = vec![];
    let m: Multas = vec![];
    let r = carrossel_guloso_verificado(&p, &v, &m, 10);
    assert_eq!(r, Some(VecDeque::new()));
}

#[test]
fn carrossel_verificado_falha_sem_item_bom() {
    // The greedy solution is [1, 0]; once item 1 leaves, the only candidate
    // left is 1 again, whose penalty with 0 exceeds its value.
    let p: Pesos = vec![3, 1];
    let v: Valores = vec![5, 2];
    let m: Multas = vec![(1, 0, 5)];
    assert_eq!(dq_vec(&guloso_total(&p, &v, &m, 6)), vec![1, 0]);
    assert_eq!(carrossel_guloso_verificado(&p, &v, &m, 6), None);
}

#[test]
fn carrossel_verificado_concorda_com_carrossel() {
    let p: Pesos = vec![1, 1];
    let v: Valores = vec![10, 1];
    let m: Multas = vec![(0, 1, 5)];
    let r = carrossel_guloso_verificado(&p, &v, &m, 1);
    assert_eq!(r.map(|s| dq_vec(&s)), Some(vec![0]));
    assert_eq!(dq_vec(&carrossel_guloso(&p, &v, &m, 1)), vec![0]);
}

#[test]
fn guloso_poe_primeiro_o_item_de_peso_zero() {
    // A zero weight with a positive gain is an infinite ratio.
    let p: Pesos = vec![0, 2, 3];
    let v: Valores = vec![1, 5, 3];
    let m: Multas = vec![];
    assert_eq!(dq_vec(&guloso_total(&p, &v, &m, 4)), vec![0, 1]);
}

#[test]
fn guloso_empate_entre_razoes_infinitas_fica_com_o_ultimo() {
    let p: Pesos = vec![0, 0, 1];
    let v: Valores = vec![5, 3, 2];
    let m: Multas = vec![(0, 1, 4)];
    assert_eq!(dq_vec(&guloso_total(&p, &v, &m, 5)), vec![1, 0, 2]);
}

#[test]
fn guloso_falha_com_peso_e_ganho_zero_entre_candidatos() {
    let p: Pesos = vec![0, 1];
    let v: Valores = vec![0, 1];
    let m: Multas = vec![];
    assert_eq!(guloso_total_verificado(&p, &v, &m, 5), None);
    assert_eq!(carrossel_guloso_verificado(&p, &v, &m, 5), None);
    // Alone, such an item is taken: nothing is compared.
    let p: Pesos = vec![0];
    let v: Valores = vec![0];
    assert_eq!(guloso_total_verificado(&p, &v, &m, 5).map(|s| dq_vec(&s)), Some(vec![0]));
}
