use mochila::ils_vnd::{
    add_free_vertices, first_improvement, first_improvement_com_ordem, ils_vnd, initialize,
    initialize_com_ordem, perturb, perturb_com,
};
use mochila::instancias::{Multas, Pesos, Valores};
use mochila::{calcular_peso_total, calcular_valor_total, Problema};

fn instancia() -> (Pesos, Valores, Multas, u64) {
    (
        vec![4, 3, 2, 5, 1],
        vec![8, 6, 3, 7, 1],
        vec![(0, 1, 5), (2, 3, 1), (1, 4, 2)],
        8,
    )
}

fn sem_repeticao(s: &[usize]) -> bool {
    let mut v = s.to_vec();
    v.sort();
    v.windows(2).all(|w| w[0] != w[1])
}

#[test]
fn initialize_com_ordem_enche_do_fim_para_o_inicio() {
    let (p, v, m, b) = instancia();
    let problema = Problema { pesos: &p, valores: &v, multas: &m, b };
    assert_eq!(initialize_com_ordem(&problema, vec![0, 1, 2, 3, 4]), vec![4, 3, 2]);
    assert_eq!(initialize_com_ordem(&problema, vec![3, 0, 4, 2, 1]), vec![1, 2, 4]);
    assert_eq!(initialize_com_ordem(&problema, vec![]), Vec::<usize>::new());
}

#[test]
fn initialize_embaralha_os_itens() {
    // With every item fitting, the result is the drawn order reversed; an
    // order left as it was would give 29, 28, ..., 0.
    let p: Pesos = vec![1; 30];
    let v: Valores = vec![1; 30];
    let m: Multas = vec![];
    let problema = Problema { pesos: &p, valores: &v, multas: &m, b: 30 };
    let r = initialize(&problema);
    let mut ordenado = r.clone();
    ordenado.sort();
    assert_eq!(ordenado, (0..30).collect::<Vec<usize>>());
    assert_ne!(r, (0..30).rev().collect::<Vec<usize>>());
}

#[test]
fn initialize_e_viavel() {
    let (p, v, m, b) = instancia();
    let problema = Problema { pesos: &p, valores: &v, multas: &m, b };
    for _ in 0..50 {
        let r = initialize(&problema);
        assert!(calcular_peso_total(&r, &problema) <= b as u128);
        assert!(sem_repeticao(&r));
        assert!(r.iter().all(|&i| i < 5));
    }
}

#[test]
fn add_free_vertices_adiciona_do_maior_indice() {
    let (p, v, m, b) = instancia();
    let problema = Problema { pesos: &p, valores: &v, multas: &m, b };
    let mut s = vec![1];
    add_free_vertices(&mut s, &problema);
    assert_eq!(s, vec![1, 4, 2]);
    let mut cheio = vec![0, 3];
    add_free_vertices(&mut cheio, &problema);
    assert_eq!(cheio, vec![0, 3]);
}

#[test]
fn add_free_vertices_nao_mexe_em_solucao_acima_da_capacidade() {
    let p: Pesos = vec![1, 1, 1, 1, 1];
    let v: Valores = vec![8, 6, 3, 7, 1];
    let m: Multas = vec![];
    let problema = Problema { pesos: &p, valores: &v, multas: &m, b: 2 };
    let mut s = vec![0, 1, 2, 3];
    add_free_vertices(&mut s, &problema);
    assert_eq!(s, vec![0, 1, 2, 3]);
}

#[test]
fn perturb_com_abre_espaco_e_corta() {
    let (p, v, m, b) = instancia();
    let problema = Problema { pesos: &p, valores: &v, multas: &m, b };
    assert_eq!(perturb_com(&[3], &[1, 2], &problema), vec![1, 3]);
    assert_eq!(perturb_com(&[0, 3], &[1, 2, 4], &problema), vec![0]);
}

#[test]
fn perturb_remove_ao_menos_um_item() {
    let p: Pesos = vec![1; 5];
    let v: Valores = vec![1; 5];
    let m: Multas = vec![];
    let problema = Problema { pesos: &p, valores: &v, multas: &m, b: 100 };
    assert_eq!(perturb_com(&[3], &[0, 1], &problema), vec![0, 3]);
}

#[test]
fn perturb_traz_k_itens_de_fora() {
    // A sample handed back whole would bring in 2, 3 and 4.
    let p: Pesos = vec![1; 5];
    let v: Valores = vec![1; 5];
    let m: Multas = vec![];
    let problema = Problema { pesos: &p, valores: &v, multas: &m, b: 100 };
    for _ in 0..20 {
        let r = perturb(1, &[0, 1], &problema);
        assert_eq!(r.len(), 2);
        assert_eq!(r[0], 0);
        assert!(r[1] >= 2 && r[1] <= 4);
    }
}

#[test]
fn first_improvement_k1_insere_e_inverte() {
    let (p, v, m, b) = instancia();
    let problema = Problema { pesos: &p, valores: &v, multas: &m, b };
    assert_eq!(first_improvement_com_ordem(1, &[1], &problema, vec![4, 0, 3, 2]), vec![1, 0]);
    assert_eq!(first_improvement_com_ordem(1, &[1, 2], &problema, vec![3, 0, 4]), vec![0, 2]);
    assert_eq!(first_improvement_com_ordem(1, &[1, 0], &problema, vec![2, 3, 4]), vec![2, 0]);
}

#[test]
fn first_improvement_k2_troca_um_por_ate_dois() {
    let (p, v, m, b) = instancia();
    let problema = Problema { pesos: &p, valores: &v, multas: &m, b };
    assert_eq!(first_improvement_com_ordem(2, &[1, 2], &problema, vec![0, 3, 4]), vec![2, 4, 3]);
    assert_eq!(first_improvement_com_ordem(2, &[4, 2], &problema, vec![0, 3, 1]), vec![2, 1]);
}

#[test]
fn first_improvement_outro_k_devolve_a_entrada() {
    let (p, v, m, b) = instancia();
    let problema = Problema { pesos: &p, valores: &v, multas: &m, b };
    assert_eq!(first_improvement_com_ordem(3, &[1, 2], &problema, vec![0]), vec![1, 2]);
}

#[test]
fn first_improvement_melhora_ou_devolve_a_entrada() {
    let (p, v, m, b) = instancia();
    let problema = Problema { pesos: &p, valores: &v, multas: &m, b };
    for s in [vec![1], vec![1, 2], vec![0, 2], vec![4], vec![]] {
        for k in [1usize, 2] {
            let r = first_improvement(k, &s, &problema);
            assert!(
                r == s || calcular_valor_total(&s, &problema) < calcular_valor_total(&r, &problema)
            );
            assert!(calcular_peso_total(&r, &problema) <= b as u128);
            assert!(sem_repeticao(&r));
        }
    }
}

#[test]
fn ils_vnd_devolve_solucao_viavel() {
    let (p, v, m, b) = instancia();
    let problema = Problema { pesos: &p, valores: &v, multas: &m, b };
    for _ in 0..10 {
        let r = ils_vnd(&p, &v, &m, b);
        assert!(calcular_peso_total(&r, &problema) <= b as u128);
        assert!(sem_repeticao(&r));
        assert!(r.iter().all(|&i| i < 5));
    }
}

#[test]
fn ils_vnd_em_instancia_gerada() {
    let (p, v, b, _n) = mochila::instancias::gerar_itens(40);
    let mut multas: Multas = vec![];
    while multas.len() < 60 {
        mochila::instancias::sortear_multa(&mut multas, 40);
    }
    let problema = Problema { pesos: &p, valores: &v, multas: &multas, b };
    let r = ils_vnd(&p, &v, &multas, b);
    assert!(calcular_peso_total(&r, &problema) <= b as u128);
    assert!(sem_repeticao(&r));
}
