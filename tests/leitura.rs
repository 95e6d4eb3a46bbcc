use sat_dpll::busca::{literais_resposta, resolver, Resultado};
use sat_dpll::dimacs::{ler_dimacs, ler_i32, ler_literais, ler_usize, ErroDimacs, Formula};

fn linhas(texto: &str) -> Vec<Vec<Vec<u8>>> {
    texto
        .lines()
        .map(|l| l.split_whitespace().map(|t| t.as_bytes().to_vec()).collect())
        .collect()
}

fn ler(texto: &str) -> Result<Formula, ErroDimacs> {
    ler_dimacs(&linhas(texto))
}

fn clausulas(f: &Formula) -> Vec<Vec<i32>> {
    f.clausulas.iter().map(|c| c.literais().clone()).collect()
}

#[test]
fn le_arquivo_com_comentarios() {
    let f = ler("c exemplo\nc outro\np cnf 3 2\n1 -2 0\n\n2 3 -1 0\n").unwrap();
    assert_eq!(f.num_atomos, 3);
    assert_eq!(clausulas(&f), vec![vec![1, -2], vec![2, 3, -1]]);
}

#[test]
fn zero_termina_a_clausula() {
    let f = ler("p cnf 3 1\n1 2 0 3 abc\n").unwrap();
    assert_eq!(clausulas(&f), vec![vec![1, 2]]);
}

#[test]
fn linha_sem_zero_vai_ate_o_fim() {
    let f = ler("p cnf 3 1\n1 -3\n").unwrap();
    assert_eq!(clausulas(&f), vec![vec![1, -3]]);
}

#[test]
fn linha_so_com_zero_e_clausula_vazia() {
    let f = ler("p cnf 1 1\n0\n").unwrap();
    assert_eq!(clausulas(&f), vec![Vec::<i32>::new()]);
}

#[test]
fn repeticoes_sao_juntadas() {
    let f = ler("p cnf 2 1\n1 1 -2 1 0\n").unwrap();
    assert_eq!(clausulas(&f), vec![vec![1, -2]]);
}

#[test]
fn sem_linha_p_e_sem_clausulas() {
    let f = ler("c nada\n").unwrap();
    assert_eq!(f.num_atomos, 0);
    assert!(f.clausulas.is_empty());
}

#[test]
fn clausula_antes_da_linha_p() {
    assert_eq!(ler("1 2 0\np cnf 2 1\n").err(), Some(ErroDimacs::SemLinhaP));
}

#[test]
fn linha_p_repetida() {
    assert_eq!(ler("p cnf 2 1\np cnf 2 1\n").err(), Some(ErroDimacs::LinhaPRepetida));
}

#[test]
fn linha_p_incompleta() {
    assert_eq!(ler("p cnf 2\n").err(), Some(ErroDimacs::LinhaPIncompleta));
}

#[test]
fn contagem_invalida_na_linha_p() {
    assert_eq!(ler("p cnf x 1\n").err(), Some(ErroDimacs::NumeroInvalido));
    assert_eq!(ler("p cnf 2 -1\n").err(), Some(ErroDimacs::NumeroInvalido));
}

#[test]
fn literal_nao_numerico() {
    assert_eq!(ler("p cnf 2 1\n1 a 0\n").err(), Some(ErroDimacs::NumeroInvalido));
}

#[test]
fn literal_fora_do_intervalo() {
    assert_eq!(ler("p cnf 2 1\n1 -3 0\n").err(), Some(ErroDimacs::LiteralForaDoIntervalo));
}

#[test]
fn primeiro_erro_prevalece() {
    assert_eq!(ler("p cnf 2\n1 a 0\n").err(), Some(ErroDimacs::LinhaPIncompleta));
}

#[test]
fn le_inteiros() {
    assert_eq!(ler_i32(&b"42".to_vec()), Some(42));
    assert_eq!(ler_i32(&b"-17".to_vec()), Some(-17));
    assert_eq!(ler_i32(&b"+5".to_vec()), Some(5));
    assert_eq!(ler_i32(&b"2147483647".to_vec()), Some(i32::MAX));
    assert_eq!(ler_i32(&b"-2147483648".to_vec()), Some(i32::MIN));
    assert_eq!(ler_i32(&b"2147483648".to_vec()), None);
    assert_eq!(ler_i32(&b"99999999999999999999999".to_vec()), None);
    assert_eq!(ler_i32(&b"-".to_vec()), None);
    assert_eq!(ler_i32(&b"".to_vec()), None);
    assert_eq!(ler_i32(&b"1x".to_vec()), None);
}

#[test]
fn le_naturais() {
    assert_eq!(ler_usize(&b"7".to_vec()), Some(7));
    assert_eq!(ler_usize(&b"+7".to_vec()), Some(7));
    assert_eq!(ler_usize(&b"-0".to_vec()), None);
    assert_eq!(ler_usize(&b"18446744073709551616".to_vec()), None);
}

#[test]
fn le_literais_ate_zero() {
    let toks: Vec<Vec<u8>> = vec![b"3".to_vec(), b"-1".to_vec(), b"0".to_vec(), b"z".to_vec()];
    assert_eq!(ler_literais(&toks), Some(vec![3, -1]));
    let ruins: Vec<Vec<u8>> = vec![b"3".to_vec(), b"z".to_vec(), b"0".to_vec()];
    assert_eq!(ler_literais(&ruins), None);
}

#[test]
fn do_texto_ao_resultado() {
    let f = ler("p cnf 2 2\n1 2 0\n-1 0\n").unwrap();
    match resolver(f.num_atomos, f.clausulas) {
        Resultado::Satisfazivel(v) => assert_eq!(literais_resposta(&v), vec![-1, 2]),
        Resultado::Insatisfazivel => panic!("expected SAT"),
    }
}

#[test]
fn do_texto_ao_unsat() {
    let f = ler("p cnf 2 4\n1 2 0\n-1 -2 0\n1 -2 0\n-1 2 0\n").unwrap();
    assert!(matches!(resolver(f.num_atomos, f.clausulas), Resultado::Insatisfazivel));
}
