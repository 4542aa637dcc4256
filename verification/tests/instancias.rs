use mochila::instancias::{
    gerar_itens, multa_admissivel_exec, reduzir_multas, registrar_multa, sortear_multa, Multas,
};
use mochila::cplex::{entrada_cplex, ler_itens};
use mochila::leitura::{interpretar_instancia, valores_cabem_exec};

fn linhas(texto: &str) -> Vec<Vec<u8>> {
    texto.lines().map(|l| l.as_bytes().to_vec()).collect()
}

#[test]
fn gerar_itens_respeita_os_intervalos() {
    let (p, v, b, n_multas) = gerar_itens(200);
    assert_eq!(p.len(), 200);
    assert_eq!(v.len(), 200);
    assert_eq!(b, 600);
    assert_eq!(n_multas, 1200);
    assert!(p.iter().all(|&x| (5..=25).contains(&x)));
    assert!(v.iter().all(|&x| (3..=20).contains(&x)));
    // A draw that always gave the lower bound would make every weight 5.
    assert!(p.iter().any(|&x| x != 5));
}

#[test]
fn sortear_multa_normaliza_os_pares() {
    let mut m: Multas = Vec::new();
    let mut tentativas = 0;
    while m.len() < 30 && tentativas < 100_000 {
        sortear_multa(&mut m, 50);
        tentativas += 1;
    }
    assert_eq!(m.len(), 30);
    for (k, &(i, j, d)) in m.iter().enumerate() {
        assert!(i < j && j < 50);
        assert!((2..=15).contains(&d));
        for &(i2, j2, _) in &m[k + 1..] {
            assert!(!(i == i2 && j == j2));
        }
    }
    assert!(m.iter().any(|&(i, _, _)| i != 0));
}

#[test]
fn sortear_multa_com_um_item_nada_adiciona() {
    let mut m: Multas = Vec::new();
    assert!(!sortear_multa(&mut m, 1));
    assert!(m.is_empty());
}

#[test]
fn multa_admissivel_recusa_par_repetido_e_item_igual() {
    let m: Multas = vec![(1, 4, 7), (0, 2, 3)];
    assert!(!multa_admissivel_exec(&m, 4, 1));
    assert!(!multa_admissivel_exec(&m, 1, 4));
    assert!(!multa_admissivel_exec(&m, 2, 0));
    assert!(!multa_admissivel_exec(&m, 3, 3));
    assert!(multa_admissivel_exec(&m, 3, 1));
    assert!(multa_admissivel_exec(&m, 1, 2));
}

#[test]
fn registrar_multa_poe_o_menor_item_primeiro() {
    let mut m: Multas = vec![(1, 4, 7)];
    registrar_multa(&mut m, 5, 2, 9);
    registrar_multa(&mut m, 0, 3, 2);
    assert_eq!(m, vec![(1, 4, 7), (2, 5, 9), (0, 3, 2)]);
}

#[test]
fn reduzir_multas_remove_de_dez_em_dez() {
    let mut m: Multas = (0..15).map(|i| (i, i + 1, 1)).collect();
    reduzir_multas(&mut m, 12);
    let esperado: Multas = vec![
        (0, 1, 1),
        (1, 2, 1),
        (2, 3, 1),
        (4, 5, 1),
        (5, 6, 1),
        (7, 8, 1),
        (8, 9, 1),
        (9, 10, 1),
        (11, 12, 1),
        (12, 13, 1),
        (13, 14, 1),
        (14, 15, 1),
    ];
    assert_eq!(m, esperado);
    let mut igual: Multas = vec![(0, 1, 2)];
    reduzir_multas(&mut igual, 1);
    assert_eq!(igual, vec![(0, 1, 2)]);
}

#[test]
fn interpretar_instancia_escala_por_cem() {
    let texto = "c comentario\np edge 3 2\nn 1 5\nn 3 10\nnot_e 1 3\ne 1 2\nnot_e 2 3";
    let (p, v, m, b) = interpretar_instancia(&linhas(texto)).unwrap();
    assert_eq!(v, vec![500, 0, 1000]);
    assert_eq!(p, vec![1000, 0, 2000]);
    assert_eq!(m, vec![(0, 2, 60), (1, 2, 40)]);
    assert_eq!(b, 750);
}

#[test]
fn interpretar_instancia_vazia() {
    let (p, v, m, b) = interpretar_instancia(&Vec::new()).unwrap();
    assert!(p.is_empty() && v.is_empty() && m.is_empty());
    assert_eq!(b, 0);
}

#[test]
fn interpretar_instancia_recusa_linhas_malformadas() {
    assert!(interpretar_instancia(&linhas("p edge")).is_none());
    assert!(interpretar_instancia(&linhas("p edge x")).is_none());
    assert!(interpretar_instancia(&linhas("p edge 2\nn 0 4")).is_none());
    assert!(interpretar_instancia(&linhas("p edge 2\nn 3 4")).is_none());
    assert!(interpretar_instancia(&linhas("n 1 4")).is_none());
    assert!(interpretar_instancia(&linhas("p edge 2\nnot_e 1 5")).is_none());
    assert!(interpretar_instancia(&linhas("p edge 2\nn 1 -4")).is_none());
    assert!(interpretar_instancia(&linhas("p  edge 2")).is_none());
}

#[test]
fn interpretar_instancia_aceita_sinal_mais() {
    let (p, v, _m, _b) = interpretar_instancia(&linhas("p edge +2\nn +1 007")).unwrap();
    assert_eq!(v, vec![700, 0]);
    assert_eq!(p, vec![1400, 0]);
}

#[test]
fn ler_itens_le_os_numeros() {
    assert_eq!(ler_itens(b"3 1 20"), Some(vec![3, 1, 20]));
    assert_eq!(ler_itens(b"7"), Some(vec![7]));
    assert_eq!(ler_itens(b"3  1"), None);
    assert_eq!(ler_itens(b""), None);
    assert_eq!(ler_itens(b"99999999999999999999999"), None);
}

#[test]
fn entrada_cplex_lista_os_dados() {
    let texto = entrada_cplex(120, &vec![(0, 2, 7), (1, 2, 15)], &vec![3, 20, 0], &vec![5, 25, 10]);
    assert_eq!(String::from_utf8(texto).unwrap(), "3 120 2\n3\n20\n0\n5\n25\n10\n0 2 7\n1 2 15\n");
    let vazio = entrada_cplex(0, &vec![], &vec![], &vec![]);
    assert_eq!(String::from_utf8(vazio).unwrap(), "0 0 0\n");
}

#[test]
fn valores_cabem_no_limite_de_32_bits() {
    let grande = linhas("p edge 1\nn 1 21474837");
    assert!(!valores_cabem_exec(&grande));
    let limite = linhas("p edge 1\nn 1 21474836\nnot_e 1 99999999999\nn x y");
    assert!(valores_cabem_exec(&limite));
    let (p, v, _m, b) = interpretar_instancia(&linhas("p edge 1\nn 1 21474836")).unwrap();
    assert_eq!(p, vec![4294967200]);
    assert_eq!(v, vec![2147483600]);
    assert_eq!(b, 1073741800);
}
