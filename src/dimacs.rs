use vstd::prelude::*;

use crate::clausula::{
    clausula_valida, clausulas_validas, lemma_sem_repeticoes, literal_valido, sem_repeticoes, visao,
    Clausula,
};

verus! {

/// Why a CNF text was refused.
#[derive(Debug, PartialEq, Eq, Structural)]
pub enum ErroDimacs {
    /// A clause line came before the `p` line.
    SemLinhaP,
    /// A second `p` line.
    LinhaPRepetida,
    /// The `p` line has fewer than four tokens.
    LinhaPIncompleta,
    /// A token that must be a number is not one, or is out of range.
    NumeroInvalido,
    /// A literal names no atom of the declared count.
    LiteralForaDoIntervalo,
}

/// A formula: its declared atom count and its clauses, in order.
pub struct Formula {
    pub num_atomos: usize,
    pub clausulas: Vec<Clausula>,
}

/// An ASCII decimal digit.
pub open spec fn digito(b: u8) -> bool {
    48 <= b <= 57
}

/// A non-empty run of decimal digits.
pub open spec fn so_digitos(d: Seq<u8>) -> bool {
    d.len() > 0 && forall|i: int| 0 <= i < d.len() ==> digito(#[trigger] d[i])
}

/// The number that a run of decimal digits writes.
pub open spec fn valor_digitos(d: Seq<u8>) -> nat
    decreases d.len(),
{
    if d.len() == 0 {
        0
    } else {
        10 * valor_digitos(d.drop_last()) + (d.last() - 48) as nat
    }
}

/// The integer that a token writes: digits, after an optional sign.
pub open spec fn inteiro(t: Seq<u8>) -> Option<int> {
    if t.len() > 0 && (t[0] == 45 || t[0] == 43) {
        let d = t.subrange(1, t.len() as int);
        if !so_digitos(d) {
            None
        } else if t[0] == 45 {
            Some(-valor_digitos(d))
        } else {
            Some(valor_digitos(d) as int)
        }
    } else if so_digitos(t) {
        Some(valor_digitos(t) as int)
    } else {
        None
    }
}

/// The token read as an `i32`, if it writes one in range.
pub open spec fn i32_de(t: Seq<u8>) -> Option<i32> {
    match inteiro(t) {
        Some(x) => if i32::MIN <= x <= i32::MAX {
            Some(x as i32)
        } else {
            None
        },
        None => None,
    }
}

/// The token read as a `usize`: no minus sign, and in range.
pub open spec fn usize_de(t: Seq<u8>) -> Option<usize> {
    if t.len() > 0 && t[0] == 45 {
        None
    } else {
        match inteiro(t) {
            Some(x) => if 0 <= x <= usize::MAX {
                Some(x as usize)
            } else {
                None
            },
            None => None,
        }
    }
}

/// The literals of a clause line: its numbers up to the first zero, or to the
/// end; `None` if a token before that writes no `i32`.
pub open spec fn literais_da_linha(toks: Seq<Seq<u8>>) -> Option<Seq<i32>>
    decreases toks.len(),
{
    if toks.len() == 0 {
        Some(Seq::empty())
    } else {
        match i32_de(toks[0]) {
            None => None,
            Some(x) => if x == 0 {
                Some(Seq::empty())
            } else {
                match literais_da_linha(toks.drop_first()) {
                    Some(r) => Some(seq![x] + r),
                    None => None,
                }
            },
        }
    }
}

/// The state of reading: the error met if any, the declared atom count once
/// the `p` line was read, and the clauses read.
pub type Estado = (Option<ErroDimacs>, Option<usize>, Seq<Seq<i32>>);

/// Reading one line, given as its whitespace-separated tokens. Empty lines
/// and lines beginning with `c` are skipped; the line beginning with `p`
/// declares the atom count (third token) and the clause count (fourth token,
/// read but not used); any other line is a clause.
pub open spec fn passo(e: Estado, toks: Seq<Seq<u8>>) -> Estado {
    let (erro, n, cs) = e;
    if erro is Some || toks.len() == 0 {
        e
    } else if toks[0].len() > 0 && toks[0][0] == 99 {
        e
    } else if toks[0].len() > 0 && toks[0][0] == 112 {
        if n is Some {
            (Some(ErroDimacs::LinhaPRepetida), n, cs)
        } else if toks.len() < 4 {
            (Some(ErroDimacs::LinhaPIncompleta), n, cs)
        } else if usize_de(toks[2]) is None || usize_de(toks[3]) is None {
            (Some(ErroDimacs::NumeroInvalido), n, cs)
        } else {
            (None, usize_de(toks[2]), cs)
        }
    } else if n is None {
        (Some(ErroDimacs::SemLinhaP), n, cs)
    } else {
        match literais_da_linha(toks) {
            None => (Some(ErroDimacs::NumeroInvalido), n, cs),
            Some(ls) => if forall|j: int| 0 <= j < ls.len() ==> literal_valido(#[trigger] ls[j], n->Some_0 as nat) {
                (None, n, cs.push(sem_repeticoes(ls)))
            } else {
                (Some(ErroDimacs::LiteralForaDoIntervalo), n, cs)
            },
        }
    }
}

/// Reading the lines in order, from the empty state.
pub open spec fn leitura(ls: Seq<Seq<Seq<u8>>>) -> Estado
    decreases ls.len(),
{
    if ls.len() == 0 {
        (None, None, Seq::empty())
    } else {
        passo(leitura(ls.drop_last()), ls.last())
    }
}

/// The tokens of a line as byte sequences.
pub open spec fn vista_tokens(toks: Seq<Vec<u8>>) -> Seq<Seq<u8>> {
    toks.map_values(|t: Vec<u8>| t@)
}

/// The lines as sequences of tokens.
pub open spec fn vista_linhas(ls: Seq<Vec<Vec<u8>>>) -> Seq<Seq<Seq<u8>>> {
    ls.map_values(|l: Vec<Vec<u8>>| vista_tokens(l@))
}

proof fn lemma_valor_cresce(d: Seq<u8>, k: int)
    requires
        0 <= k <= d.len(),
    ensures
        valor_digitos(d.subrange(0, k)) <= valor_digitos(d),
    decreases d.len() - k,
{
    if k < d.len() {
        lemma_valor_cresce(d, k + 1);
        assert(d.subrange(0, k + 1).drop_last() == d.subrange(0, k));
    } else {
        assert(d.subrange(0, k) == d);
    }
}

/// The digits of `t` from `inicio` on, read as a number if they are all digits
/// and it fits in a `u64`.
fn ler_digitos(t: &Vec<u8>, inicio: usize) -> (r: Option<u64>)
    requires
        inicio <= t@.len(),
    ensures
        ({
            let d = t@.subrange(inicio as int, t@.len() as int);
            r == if so_digitos(d) && valor_digitos(d) <= u64::MAX {
                Some(valor_digitos(d) as u64)
            } else {
                None
            }
        }),
{
    let ghost d = t@.subrange(inicio as int, t@.len() as int);
    if inicio >= t.len() {
        return None;
    }
    let mut acc: u64 = 0;
    let mut excedeu = false;
    let mut k: usize = inicio;
    while k < t.len()
        invariant
            inicio <= k <= t@.len(),
            d == t@.subrange(inicio as int, t@.len() as int),
            forall|i: int| 0 <= i < k - inicio ==> digito(#[trigger] d[i]),
            !excedeu ==> acc == valor_digitos(d.subrange(0, k - inicio)),
            excedeu ==> valor_digitos(d.subrange(0, k - inicio)) > u64::MAX,
        decreases t@.len() - k,
    {
        let b = t[k];
        assert(d[k - inicio] == b);
        if b < 48 || b > 57 {
            assert(!digito(d[k - inicio]));
            return None;
        }
        let dg: u64 = (b - 48) as u64;
        assert(d.subrange(0, k + 1 - inicio).drop_last() == d.subrange(0, k - inicio));
        if !excedeu {
            match acc.checked_mul(10) {
                Some(m) => match m.checked_add(dg) {
                    Some(a) => {
                        acc = a;
                    },
                    None => {
                        excedeu = true;
                    },
                },
                None => {
                    excedeu = true;
                },
            }
        }
        k = k + 1;
    }
    assert(d.subrange(0, d.len() as int) == d);
    if excedeu {
        None
    } else {
        Some(acc)
    }
}

/// The token read as an `i32`.
pub fn ler_i32(t: &Vec<u8>) -> (r: Option<i32>)
    ensures
        r == i32_de(t@),
{
    if t.len() > 0 && (t[0] == 45 || t[0] == 43) {
        match ler_digitos(t, 1) {
            Some(v) => {
                if t[0] == 45 {
                    if v <= 2147483648 {
                        Some((0 - (v as i64)) as i32)
                    } else {
                        None
                    }
                } else if v <= 2147483647 {
                    Some(v as i32)
                } else {
                    None
                }
            },
            None => None,
        }
    } else {
        assert(t@.subrange(0, t@.len() as int) == t@);
        match ler_digitos(t, 0) {
            Some(v) => if v <= 2147483647 {
                Some(v as i32)
            } else {
                None
            },
            None => None,
        }
    }
}

/// The token read as a `usize`.
pub fn ler_usize(t: &Vec<u8>) -> (r: Option<usize>)
    ensures
        r == usize_de(t@),
{
    if t.len() > 0 && t[0] == 45 {
        None
    } else if t.len() > 0 && t[0] == 43 {
        match ler_digitos(t, 1) {
            Some(v) => if v <= usize::MAX as u64 {
                Some(v as usize)
            } else {
                None
            },
            None => None,
        }
    } else {
        assert(t@.subrange(0, t@.len() as int) == t@);
        match ler_digitos(t, 0) {
            Some(v) => if v <= usize::MAX as u64 {
                Some(v as usize)
            } else {
                None
            },
            None => None,
        }
    }
}

/// Joins a known prefix of literals to what the rest of a line gives.
pub open spec fn junta(a: Seq<i32>, o: Option<Seq<i32>>) -> Option<Seq<i32>> {
    match o {
        Some(r) => Some(a + r),
        None => None,
    }
}

/// The literals of a clause line.
pub fn ler_literais(toks: &Vec<Vec<u8>>) -> (r: Option<Vec<i32>>)
    ensures
        match r {
            Some(v) => literais_da_linha(vista_tokens(toks@)) == Some(v@),
            None => literais_da_linha(vista_tokens(toks@)) is None,
        },
{
    let ghost ts = vista_tokens(toks@);
    let mut acc: Vec<i32> = Vec::new();
    let mut k: usize = 0;
    assert(ts.subrange(0, ts.len() as int) == ts);
    assert(acc@ + Seq::<i32>::empty() == acc@);
    while k < toks.len()
        invariant
            k <= toks@.len(),
            ts == vista_tokens(toks@),
            literais_da_linha(ts) == junta(acc@, literais_da_linha(ts.subrange(k as int, ts.len() as int))),
        decreases toks@.len() - k,
    {
        let ghost resto = ts.subrange(k as int, ts.len() as int);
        assert(resto[0] == toks@[k as int]@);
        assert(resto.drop_first() == ts.subrange(k + 1, ts.len() as int));
        match ler_i32(&toks[k]) {
            None => {
                return None;
            },
            Some(x) => {
                if x == 0 {
                    assert(acc@ + Seq::<i32>::empty() == acc@);
                    return Some(acc);
                }
                let ghost antes = acc@;
                acc.push(x);
                proof {
                    match literais_da_linha(resto.drop_first()) {
                        Some(r) => {
                            assert(antes + (seq![x] + r) == acc@ + r);
                        },
                        None => {},
                    }
                }
            },
        }
        k = k + 1;
    }
    assert(ts.subrange(k as int, ts.len() as int) == Seq::<Seq<u8>>::empty());
    assert(acc@ + Seq::<i32>::empty() == acc@);
    Some(acc)
}

/// Whether every literal names an atom among `1..=n`.
fn literais_no_intervalo(ls: &Vec<i32>, n: usize) -> (r: bool)
    ensures
        r == forall|j: int| 0 <= j < ls@.len() ==> literal_valido(#[trigger] ls@[j], n as nat),
{
    let mut k: usize = 0;
    while k < ls.len()
        invariant
            k <= ls@.len(),
            forall|j: int| 0 <= j < k ==> literal_valido(#[trigger] ls@[j], n as nat),
        decreases ls@.len() - k,
    {
        let l = ls[k];
        if l == 0 || l == i32::MIN {
            return false;
        }
        let a: u64 = if l < 0 {
            (0 - (l as i64)) as u64
        } else {
            l as u64
        };
        if a > n as u64 {
            return false;
        }
        k = k + 1;
    }
    true
}

/// Reads one line into the state: the exact step of `passo` from a state
/// without error.
pub fn ler_linha(toks: &Vec<Vec<u8>>, n: Option<usize>, clausulas: &mut Vec<Clausula>) -> (r: (
    Option<ErroDimacs>,
    Option<usize>,
))
    ensures
        passo((None, n, visao(old(clausulas)@)), vista_tokens(toks@)) == (r.0, r.1, visao(
            final(clausulas)@,
        )),
{
    let ghost ts = vista_tokens(toks@);
    if toks.len() == 0 {
        return (None, n);
    }
    assert(ts[0] == toks@[0]@);
    let primeiro = &toks[0];
    if primeiro.len() > 0 && primeiro[0] == 99 {
        return (None, n);
    }
    if primeiro.len() > 0 && primeiro[0] == 112 {
        if n.is_some() {
            return (Some(ErroDimacs::LinhaPRepetida), n);
        }
        if toks.len() < 4 {
            return (Some(ErroDimacs::LinhaPIncompleta), n);
        }
        assert(ts[2] == toks@[2]@);
        assert(ts[3] == toks@[3]@);
        let atomos = ler_usize(&toks[2]);
        let num_clausulas = ler_usize(&toks[3]);
        if atomos.is_none() || num_clausulas.is_none() {
            return (Some(ErroDimacs::NumeroInvalido), n);
        }
        return (None, atomos);
    }
    match n {
        None => (Some(ErroDimacs::SemLinhaP), n),
        Some(m) => match ler_literais(toks) {
            None => (Some(ErroDimacs::NumeroInvalido), n),
            Some(ls) => {
                if literais_no_intervalo(&ls, m) {
                    let c = Clausula::nova(ls);
                    let ghost antes = clausulas@;
                    clausulas.push(c);
                    assert(visao(clausulas@) == visao(antes).push(c@));
                    (None, n)
                } else {
                    (Some(ErroDimacs::LiteralForaDoIntervalo), n)
                }
            },
        },
    }
}

/// What a state without error holds: no clause before the atom count, and
/// clauses valid over it after.
pub open spec fn estado_valido(e: Estado) -> bool {
    match e.1 {
        None => e.2.len() == 0,
        Some(n) => clausulas_validas(e.2, n as nat),
    }
}

proof fn lemma_passo_valido(e: Estado, toks: Seq<Seq<u8>>)
    requires
        e.0 is None,
        estado_valido(e),
    ensures
        passo(e, toks).0 is None ==> estado_valido(passo(e, toks)),
{
    let e2 = passo(e, toks);
    if e2.0 is None && e2.2 != e.2 {
        let ls = literais_da_linha(toks)->Some_0;
        let n = e.1->Some_0 as nat;
        let c = sem_repeticoes(ls);
        lemma_sem_repeticoes(ls);
        assert(e2.2 == e.2.push(c));
        assert forall|j: int| 0 <= j < c.len() implies literal_valido(#[trigger] c[j], n) by {
            assert(c.contains(c[j]));
            assert(ls.contains(c[j]));
        }
        assert(clausula_valida(c, n));
        assert forall|i: int| 0 <= i < e2.2.len() implies clausula_valida(#[trigger] e2.2[i], n) by {
            if i < e.2.len() {
                assert(e2.2[i] == e.2[i]);
            }
        }
    }
}

/// Reads a CNF text given as lines of whitespace-separated tokens. The result
/// is what reading the lines in order gives: the first error met, or the
/// declared atom count (0 if no `p` line came) with the clauses, each valid
/// over that count.
pub fn ler_dimacs(linhas: &Vec<Vec<Vec<u8>>>) -> (r: Result<Formula, ErroDimacs>)
    ensures
        ({
            let e = leitura(vista_linhas(linhas@));
            match r {
                Ok(f) => {
                    &&& e.0 is None
                    &&& f.num_atomos == match e.1 {
                        Some(n) => n,
                        None => 0,
                    }
                    &&& visao(f.clausulas@) == e.2
                    &&& clausulas_validas(visao(f.clausulas@), f.num_atomos as nat)
                },
                Err(x) => e.0 == Some(x),
            }
        }),
{
    let ghost ls = vista_linhas(linhas@);
    let mut erro: Option<ErroDimacs> = None;
    let mut n: Option<usize> = None;
    let mut clausulas: Vec<Clausula> = Vec::new();
    let mut k: usize = 0;
    assert(ls.subrange(0, 0) == Seq::<Seq<Seq<u8>>>::empty());
    while k < linhas.len()
        invariant
            k <= linhas@.len(),
            ls == vista_linhas(linhas@),
            leitura(ls.subrange(0, k as int)) == (erro, n, visao(clausulas@)),
            erro is None ==> estado_valido((erro, n, visao(clausulas@))),
        decreases linhas@.len() - k,
    {
        assert(ls.subrange(0, k + 1).drop_last() == ls.subrange(0, k as int));
        assert(ls[k as int] == vista_tokens(linhas@[k as int]@));
        if erro.is_none() {
            proof {
                lemma_passo_valido((erro, n, visao(clausulas@)), ls[k as int]);
            }
            let (e2, n2) = ler_linha(&linhas[k], n, &mut clausulas);
            erro = e2;
            n = n2;
        }
        k = k + 1;
    }
    assert(ls.subrange(0, ls.len() as int) == ls);
    match erro {
        Some(x) => Err(x),
        None => {
            let num_atomos: usize = match n {
                Some(m) => m,
                None => 0,
            };
            Ok(Formula { num_atomos, clausulas })
        },
    }
}

} // verus!
