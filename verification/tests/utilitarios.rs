use std::collections::VecDeque;

use mochila::carrossel::diferentes;
use mochila::utils::{dq_vec, iguais, solucao_ordenada};

#[test]
fn dq_vec_mantem_a_ordem() {
    let mut dq: VecDeque<usize> = VecDeque::new();
    dq.push_back(3);
    dq.push_back(1);
    dq.push_front(7);
    assert_eq!(dq_vec(&dq), vec![7, 3, 1]);
    let vazio: VecDeque<usize> = VecDeque::new();
    assert_eq!(dq_vec(&vazio), Vec::<usize>::new());
}

#[test]
fn iguais_ignora_a_ordem() {
    assert!(iguais(&[3, 1, 2], &[2, 3, 1]));
    assert!(iguais(&[], &[]));
    assert!(iguais(&[5, 5, 1], &[5, 1, 5]));
}

#[test]
fn iguais_conta_repeticoes() {
    assert!(!iguais(&[1, 2], &[1, 2, 2]));
    assert!(!iguais(&[1, 1, 2], &[1, 2, 2]));
    assert!(!iguais(&[1, 2, 3], &[1, 2, 4]));
}

#[test]
fn diferentes_compara_tamanho_e_itens() {
    let dq: VecDeque<usize> = VecDeque::from(vec![2, 0, 1]);
    assert!(!diferentes(&[0, 1, 2], &dq));
    assert!(diferentes(&[0, 1], &dq));
    assert!(diferentes(&[0, 1, 3], &dq));
    let vazio: VecDeque<usize> = VecDeque::new();
    assert!(!diferentes(&[], &vazio));
}

#[test]
fn solucao_ordenada_ordena() {
    assert_eq!(solucao_ordenada(&[4, 0, 3, 1]), vec![0, 1, 3, 4]);
    assert_eq!(solucao_ordenada(&[2, 2, 1]), vec![1, 2, 2]);
}
