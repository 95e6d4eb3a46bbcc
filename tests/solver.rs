use sat_dpll::busca::{dpll, literais_resposta, resolver, Resultado};
use sat_dpll::clausula::Clausula;
use sat_dpll::heuristica::escolher_literal;
use sat_dpll::propagacao::simplifica;

fn formula(cs: &[&[i32]]) -> Vec<Clausula> {
    cs.iter().map(|c| Clausula::nova(c.to_vec())).collect()
}

fn vista(cs: &Vec<Clausula>) -> Vec<Vec<i32>> {
    cs.iter().map(|c| c.literais().clone()).collect()
}

fn satisfaz(cs: &[Vec<i32>], v: &[Option<bool>]) -> bool {
    cs.iter().all(|c| {
        c.iter().any(|&l| {
            let valor = v[(l.abs() - 1) as usize] != Some(false);
            valor == (l > 0)
        })
    })
}

fn forca_bruta(n: usize, cs: &[Vec<i32>]) -> bool {
    (0u32..(1u32 << n)).any(|m| {
        let v: Vec<Option<bool>> = (0..n).map(|a| Some(m & (1 << a) != 0)).collect();
        satisfaz(cs, &v)
    })
}

#[test]
fn cenario_unidade_em_cadeia() {
    let r = resolver(2, formula(&[&[1, 2], &[-1]]));
    match r {
        Resultado::Satisfazivel(v) => {
            assert_eq!(v, vec![Some(false), Some(true)]);
            assert_eq!(literais_resposta(&v), vec![-1, 2]);
        }
        Resultado::Insatisfazivel => panic!("expected SAT"),
    }
}

#[test]
fn cenario_contradicao_unitaria() {
    assert!(matches!(resolver(1, formula(&[&[1], &[-1]])), Resultado::Insatisfazivel));
}

#[test]
fn cenario_quatro_clausulas_insatisfaziveis() {
    let r = resolver(2, formula(&[&[1, 2], &[-1, -2], &[1, -2], &[-1, 2]]));
    assert!(matches!(r, Resultado::Insatisfazivel));
}

#[test]
fn formula_vazia_e_satisfazivel_sem_atribuicoes() {
    match resolver(3, Vec::new()) {
        Resultado::Satisfazivel(v) => {
            assert_eq!(v, vec![None, None, None]);
            assert_eq!(literais_resposta(&v), vec![1, 2, 3]);
        }
        Resultado::Insatisfazivel => panic!("expected SAT"),
    }
}

#[test]
fn formula_vazia_sem_atomos() {
    match resolver(0, Vec::new()) {
        Resultado::Satisfazivel(v) => assert!(v.is_empty()),
        Resultado::Insatisfazivel => panic!("expected SAT"),
    }
}

#[test]
fn clausula_vazia_e_insatisfazivel() {
    assert!(matches!(resolver(1, formula(&[&[1], &[]])), Resultado::Insatisfazivel));
}

#[test]
fn contradicao_deixa_clausula_vazia() {
    let mut cs = formula(&[&[1], &[-1]]);
    let mut v = vec![None];
    simplifica(&mut cs, &mut v);
    assert_eq!(vista(&cs), vec![Vec::<i32>::new()]);
    assert_eq!(v, vec![Some(true)]);
}

#[test]
fn simplifica_propaga_em_cadeia() {
    let mut cs = formula(&[&[1, 2], &[-1], &[-2, 3, 4], &[2, 5]]);
    let mut v = vec![None; 5];
    simplifica(&mut cs, &mut v);
    assert_eq!(vista(&cs), vec![vec![3, 4]]);
    assert_eq!(v, vec![Some(false), Some(true), None, None, None]);
}

#[test]
fn simplifica_duas_vezes_nada_muda() {
    let mut cs = formula(&[&[1, 2, 3], &[-1], &[-2, 3], &[2, -3, 4]]);
    let mut v = vec![None; 4];
    simplifica(&mut cs, &mut v);
    let (cs1, v1) = (vista(&cs), v.clone());
    simplifica(&mut cs, &mut v);
    assert_eq!(vista(&cs), cs1);
    assert_eq!(v, v1);
    assert!(cs.iter().all(|c| c.tamanho() != 1));
}

#[test]
fn simplifica_sem_unitarias_nao_muda() {
    let mut cs = formula(&[&[1, 2], &[-1, -2]]);
    let mut v = vec![None, Some(true)];
    simplifica(&mut cs, &mut v);
    assert_eq!(vista(&cs), vec![vec![1, 2], vec![-1, -2]]);
    assert_eq!(v, vec![None, Some(true)]);
}

#[test]
fn escolhe_literal_mais_frequente_nas_menores() {
    let cs = formula(&[&[1, 2], &[-1, 2], &[3, 4, 5], &[3, 4, 1]]);
    assert_eq!(escolher_literal(&cs), 2);
}

#[test]
fn escolhe_menor_literal_no_empate() {
    let cs = formula(&[&[1, 2], &[-1, -2]]);
    assert_eq!(escolher_literal(&cs), -2);
}

#[test]
fn escolhe_so_entre_as_menores() {
    let cs = formula(&[&[5, 6, 7], &[5, 6, 8], &[5, 7, 8], &[-3, 4]]);
    assert_eq!(escolher_literal(&cs), -3);
}

#[test]
fn nova_clausula_junta_repeticoes() {
    let c = Clausula::nova(vec![2, 1, 2, 1, -3]);
    assert_eq!(c.literais(), &vec![2, 1, -3]);
    assert_eq!(c.tamanho(), 3);
    assert!(c.contem(-3));
    assert!(!c.contem(3));
    assert_eq!(c.sem(1).literais(), &vec![2, -3]);
}

#[test]
fn repeticao_faz_clausula_unitaria() {
    let r = resolver(1, formula(&[&[-1, -1]]));
    match r {
        Resultado::Satisfazivel(v) => assert_eq!(v, vec![Some(false)]),
        Resultado::Insatisfazivel => panic!("expected SAT"),
    }
}

#[test]
fn dpll_ramifica_e_acha_modelo() {
    let cs = formula(&[&[1, 2], &[-1, 3], &[-2, -3], &[2, 3]]);
    let vistas = vista(&cs);
    let mut v = vec![None; 3];
    assert!(dpll(cs, &mut v));
    assert!(satisfaz(&vistas, &v));
}

#[test]
fn dpll_nao_toca_atomos_ausentes() {
    let cs = formula(&[&[1, 3], &[-1, 3]]);
    let mut v = vec![None, Some(false), None];
    assert!(dpll(cs, &mut v));
    assert_eq!(v[1], Some(false));
}

#[test]
fn casa_dos_pombos_tres_em_dois() {
    // pigeon i in hole j is atom 2 * i + j + 1
    let mut cs: Vec<Vec<i32>> = Vec::new();
    for i in 0..3 {
        cs.push(vec![2 * i + 1, 2 * i + 2]);
    }
    for j in 0..2 {
        for a in 0..3 {
            for b in (a + 1)..3 {
                cs.push(vec![-(2 * a + j + 1), -(2 * b + j + 1)]);
            }
        }
    }
    let f: Vec<Clausula> = cs.iter().map(|c| Clausula::nova(c.clone())).collect();
    assert!(matches!(resolver(6, f), Resultado::Insatisfazivel));
}

#[test]
fn concorda_com_forca_bruta_em_formulas_pequenas() {
    let mut semente: u64 = 0x2545F4914F6CDD1D;
    let mut proximo = move || {
        semente ^= semente << 13;
        semente ^= semente >> 7;
        semente ^= semente << 17;
        semente
    };
    for _ in 0..300 {
        let n = (proximo() % 6 + 1) as usize;
        let m = (proximo() % 12) as usize;
        let mut cs: Vec<Vec<i32>> = Vec::new();
        for _ in 0..m {
            let tam = (proximo() % 3 + 1) as usize;
            let mut c: Vec<i32> = Vec::new();
            for _ in 0..tam {
                let a = (proximo() % n as u64 + 1) as i32;
                let l = if proximo() % 2 == 0 { a } else { -a };
                if !c.contains(&l) {
                    c.push(l);
                }
            }
            cs.push(c);
        }
        let f: Vec<Clausula> = cs.iter().map(|c| Clausula::nova(c.clone())).collect();
        let esperado = forca_bruta(n, &cs);
        match resolver(n, f) {
            Resultado::Satisfazivel(v) => {
                assert!(esperado);
                assert_eq!(v.len(), n);
                assert!(satisfaz(&cs, &v));
            }
            Resultado::Insatisfazivel => assert!(!esperado),
        }
    }
}
