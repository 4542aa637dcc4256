use mochila::ils_vnd_mwis::{
    add_free_vertices_mwis, add_free_vertices_mwis_com_ordem, first_improvement_mwis,
    first_improvement_mwis_com_ordem, initialize_mwis, initialize_mwis_com_ordem, perturb_mwis_com_ordem,
    perturb_mwis_passo,
};
use mochila::instancias::{Multas, Pesos, Valores};
use mochila::utils::iguais;
use mochila::{calcular_peso_total, calcular_peso_valor_total, calcular_valor_total, Problema};

fn caminho() -> (Pesos, Valores, Multas, u64) {
    (vec![2, 2, 2, 2, 2], vec![5, 4, 3, 2, 6], vec![(0, 1, 1), (1, 2, 1), (2, 3, 1), (3, 4, 1)], 6)
}

fn independente(s: &[usize], m: &Multas) -> bool {
    m.iter().all(|&(i, j, _)| !(s.contains(&i) && s.contains(&j)))
}

#[test]
fn initialize_mwis_com_ordem_evita_vizinhos() {
    let (p, v, m, b) = caminho();
    let problema = Problema { pesos: &p, valores: &v, multas: &m, b };
    assert_eq!(initialize_mwis_com_ordem(&problema, vec![0, 1, 2, 3, 4]), vec![4, 2, 0]);
    assert_eq!(initialize_mwis_com_ordem(&problema, vec![4, 3, 2, 1, 0]), vec![0, 2, 4]);
}

#[test]
fn initialize_mwis_e_independente() {
    let (p, v, m, b) = caminho();
    let problema = Problema { pesos: &p, valores: &v, multas: &m, b };
    for _ in 0..30 {
        let r = initialize_mwis(&problema);
        assert!(independente(&r, &m));
        assert!(calcular_peso_total(&r, &problema) <= b as u128);
        // No penalty applies to an independent set.
        assert_eq!(calcular_peso_valor_total(&r, &problema).2, 0);
    }
}

#[test]
fn add_free_vertices_mwis_respeita_conflitos() {
    let (p, v, m, b) = caminho();
    let problema = Problema { pesos: &p, valores: &v, multas: &m, b };
    let mut s = vec![1];
    add_free_vertices_mwis_com_ordem(&mut s, &problema, vec![3, 4, 0]);
    assert_eq!(s, vec![1, 4]);
    let mut t = vec![1];
    add_free_vertices_mwis(&mut t, &problema);
    assert!(independente(&t, &m));
    assert_eq!(t[0], 1);
}

#[test]
fn first_improvement_mwis_k1_troca_vizinhos() {
    let (p, v, m, b) = caminho();
    let problema = Problema { pesos: &p, valores: &v, multas: &m, b };
    assert_eq!(first_improvement_mwis_com_ordem(1, &[1, 3], &problema, vec![2, 0, 4]), vec![4, 1]);
    assert_eq!(first_improvement_mwis_com_ordem(1, &[0, 2], &problema, vec![4, 1, 3]), vec![4, 2, 0]);
}

#[test]
fn first_improvement_mwis_k2_troca_um_item() {
    let (p, v, m, b) = caminho();
    let problema = Problema { pesos: &p, valores: &v, multas: &m, b };
    assert_eq!(first_improvement_mwis_com_ordem(2, &[3], &problema, vec![0, 1, 4]), vec![0]);
    assert_eq!(first_improvement_mwis_com_ordem(2, &[0, 3], &problema, vec![1, 2, 4]), vec![0, 3]);
}

#[test]
fn first_improvement_mwis_melhora_ou_devolve() {
    let (p, v, m, b) = caminho();
    let problema = Problema { pesos: &p, valores: &v, multas: &m, b };
    for s in [vec![1, 3], vec![0, 2], vec![3], vec![]] {
        for k in [1usize, 2] {
            let r = first_improvement_mwis(k, &s, &problema);
            assert!(r == s || calcular_valor_total(&s, &problema) < calcular_valor_total(&r, &problema));
            assert!(independente(&r, &m));
        }
    }
}

#[test]
fn perturb_mwis_com_ordem_insere_k_itens() {
    let (p, v, m, b) = caminho();
    let problema = Problema { pesos: &p, valores: &v, multas: &m, b };
    assert_eq!(perturb_mwis_com_ordem(0, &[1, 3], &problema, &[0, 2, 4]), vec![1, 3]);
    assert_eq!(perturb_mwis_com_ordem(5, &[1, 3], &problema, &[0, 2, 4]), vec![0, 2, 4]);
}

#[test]
fn perturb_mwis_passo_mantem_independencia() {
    let (p, v, m, b) = caminho();
    let problema = Problema { pesos: &p, valores: &v, multas: &m, b };
    let s = vec![1, 3];
    let mut r = s.clone();
    let mut rodadas = 0;
    while iguais(&s, &r) && rodadas < 1000 {
        r = perturb_mwis_passo(1, &s, &r, &problema);
        assert!(independente(&r, &m));
        assert!(calcular_peso_total(&r, &problema) <= b as u128);
        rodadas += 1;
    }
    assert!(!iguais(&s, &r));
}

#[test]
fn add_free_vertices_mwis_nao_deixa_item_que_caberia() {
    // A path 0-1-2-3-4 with a capacity for two items: whatever the order, every
    // item left out conflicts with one kept or no longer fits.
    let p: Pesos = vec![3, 3, 3, 3, 3];
    let v: Valores = vec![5, 4, 3, 2, 6];
    let m: Multas = vec![(0, 1, 1), (1, 2, 1), (2, 3, 1), (3, 4, 1)];
    let problema = Problema { pesos: &p, valores: &v, multas: &m, b: 7 };
    for _ in 0..30 {
        let mut s: Vec<usize> = Vec::new();
        add_free_vertices_mwis(&mut s, &problema);
        let livre = 7 - calcular_peso_total(&s, &problema) as u64;
        assert_eq!(s.len(), 2);
        for item in 0..5usize {
            if !s.contains(&item) {
                let conflito = m.iter().any(|&(i, j, _)| (i == item && s.contains(&j)) || (j == item && s.contains(&i)));
                assert!(conflito || p[item] as u64 > livre);
            }
        }
    }
    let mut s = vec![2];
    add_free_vertices_mwis_com_ordem(&mut s, &problema, vec![4, 1, 0]);
    assert_eq!(s, vec![2, 0]);
}
