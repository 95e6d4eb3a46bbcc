use vstd::prelude::*;

use crate::clausula::{
    atomo, clausula_satisfeita, clausula_valida, clausulas_validas, completa,
    literal_valido, literal_verdadeiro, oposto, satisfaz, satisfazivel, verdadeiro_em, visao,
    Clausula,
};
use crate::heuristica::{escolher_literal, tamanho_minimo};
use crate::propagacao::{
    atomos_contidos, contida, lemma_propaga, ocorre, preserva_fora, reduz, resolvida,
    primeira_unitaria, simplifica, tem_unitaria,
};

verus! {

/// The valuation makes some literal of the clause true.
pub open spec fn clausula_verdadeira(c: Seq<i32>, v: Seq<Option<bool>>) -> bool {
    exists|j: int| 0 <= j < c.len() && #[trigger] verdadeiro_em(c[j], v)
}

/// The valuation makes some literal of every clause true.
pub open spec fn valoracao_satisfaz(s: Seq<Seq<i32>>, v: Seq<Option<bool>>) -> bool {
    forall|i: int| 0 <= i < s.len() ==> clausula_verdadeira(#[trigger] s[i], v)
}

/// How many of the atoms `1..=n` the store mentions.
pub open spec fn num_atomos(s: Seq<Seq<i32>>, n: nat) -> nat
    decreases n,
{
    if n == 0 {
        0
    } else {
        num_atomos(s, (n - 1) as nat) + if ocorre(s, n as int) {
            1nat
        } else {
            0nat
        }
    }
}

/// What shrinks from one search call to the next: twice the atoms still
/// mentioned, plus one while no unit clause is pending.
pub open spec fn medida(s: Seq<Seq<i32>>, n: nat) -> nat {
    2 * num_atomos(s, n) + if tem_unitaria(s) {
        0nat
    } else {
        1nat
    }
}

proof fn lemma_num_atomos(s: Seq<Seq<i32>>, s2: Seq<Seq<i32>>, n: nat)
    requires
        atomos_contidos(s2, s),
    ensures
        num_atomos(s2, n) <= num_atomos(s, n),
        (exists|a: int| 1 <= a <= n && ocorre(s, a) && !ocorre(s2, a)) ==> num_atomos(s2, n)
            < num_atomos(s, n),
    decreases n,
{
    if n > 0 {
        lemma_num_atomos(s, s2, (n - 1) as nat);
        if exists|a: int| 1 <= a <= n && ocorre(s, a) && !ocorre(s2, a) {
            let a = choose|a: int| 1 <= a <= n && ocorre(s, a) && !ocorre(s2, a);
            if a < n {
                assert(1 <= a <= (n - 1) as nat && ocorre(s, a) && !ocorre(s2, a));
            }
        }
    }
}

/// A valuation that makes a literal of each clause true stands for a total
/// assignment that satisfies the store.
pub proof fn lemma_valoracao_satisfaz(s: Seq<Seq<i32>>, v: Seq<Option<bool>>)
    requires
        clausulas_validas(s, v.len()),
        valoracao_satisfaz(s, v),
    ensures
        satisfaz(s, completa(v)),
        satisfazivel(s),
{
    assert forall|i: int| 0 <= i < s.len() implies clausula_satisfeita(#[trigger] s[i], completa(v)) by {
        assert(clausula_verdadeira(s[i], v));
        let j = choose|j: int| 0 <= j < s[i].len() && #[trigger] verdadeiro_em(s[i][j], v);
        assert(literal_verdadeiro(s[i][j], completa(v)));
    }
    assert(satisfaz(s, completa(v)));
}

/// A branch's result carried back to the store it came from.
proof fn lemma_ramo(
    s: Seq<Seq<i32>>,
    s1: Seq<Seq<i32>>,
    c: Seq<Seq<i32>>,
    v0: Seq<Option<bool>>,
    v1: Seq<Option<bool>>,
    v2: Seq<Option<bool>>,
)
    requires
        clausulas_validas(s, v0.len()),
        preserva_fora(s, v0, v1),
        atomos_contidos(s1, s),
        atomos_contidos(c, s1),
        preserva_fora(c, v1, v2),
    ensures
        preserva_fora(s, v0, v2),
        reduz(s, s1, v1) && c.len() >= s1.len() && (forall|k: int| 0 <= k < s1.len() ==> c[k] == s1[k])
            && valoracao_satisfaz(c, v2) ==> valoracao_satisfaz(s, v2),
{
    assert forall|k: int| 0 <= k < v0.len() && !ocorre(s, k + 1) implies #[trigger] v2[k] == v0[k] by {
        assert(v1[k] == v0[k]);
        assert(!ocorre(s1, k + 1));
        assert(!ocorre(c, k + 1));
    }
    if reduz(s, s1, v1) && c.len() >= s1.len() && (forall|k: int| 0 <= k < s1.len() ==> c[k] == s1[k])
        && valoracao_satisfaz(c, v2) {
        assert forall|i: int| 0 <= i < s.len() implies clausula_verdadeira(#[trigger] s[i], v2) by {
            assert(resolvida(s[i], s1, v1));
            assert(clausula_valida(s[i], v0.len()));
            if exists|j: int|
                0 <= j < s[i].len() && verdadeiro_em(#[trigger] s[i][j], v1) && !ocorre(s1, atomo(s[i][j])) {
                let j = choose|j: int|
                    0 <= j < s[i].len() && verdadeiro_em(#[trigger] s[i][j], v1) && !ocorre(
                        s1,
                        atomo(s[i][j]),
                    );
                assert(literal_valido(s[i][j], v0.len()));
                let k = atomo(s[i][j]) - 1;
                assert(!ocorre(c, k + 1));
                assert(v2[k] == v1[k]);
                assert(verdadeiro_em(s[i][j], v2));
            } else {
                let k = choose|k: int| 0 <= k < s1.len() && contida(#[trigger] s1[k], s[i]);
                assert(c[k] == s1[k]);
                assert(clausula_verdadeira(c[k], v2));
                let j = choose|j: int| 0 <= j < c[k].len() && #[trigger] verdadeiro_em(c[k][j], v2);
                assert(c[k].contains(c[k][j]));
                let jj = choose|jj: int| 0 <= jj < s[i].len() && s[i][jj] == c[k][j];
                assert(verdadeiro_em(s[i][jj], v2));
            }
        }
    }
}

fn copia_clausulas(clausulas: &Vec<Clausula>) -> (r: Vec<Clausula>)
    ensures
        visao(r@) == visao(clausulas@),
{
    let mut r: Vec<Clausula> = Vec::new();
    let mut k: usize = 0;
    while k < clausulas.len()
        invariant
            k <= clausulas.len(),
            visao(r@) == visao(clausulas@).subrange(0, k as int),
        decreases clausulas.len() - k,
    {
        let c = clausulas[k].copia();
        let ghost antes = r@;
        r.push(c);
        assert(visao(r@) == visao(antes).push(c@));
        assert(visao(clausulas@).subrange(0, k + 1) == visao(clausulas@).subrange(0, k as int).push(
            c@,
        ));
        k = k + 1;
    }
    assert(visao(clausulas@).subrange(0, k as int) == visao(clausulas@));
    r
}

/// The DPLL search: propagate units, stop on an empty store (satisfiable) or
/// an empty clause (unsatisfiable), else branch on the chosen literal, first
/// as true and, only if that fails, as false.
///
/// The answer is whether the store is satisfiable. The valuation is shared by
/// every branch and never rolled back: only atoms that the store mentions are
/// written, and on success it makes a literal of every clause true.
pub fn dpll(clausulas: Vec<Clausula>, valoracao: &mut Vec<Option<bool>>) -> (r: bool)
    requires
        clausulas_validas(visao(clausulas@), old(valoracao)@.len()),
    ensures
        r == satisfazivel(visao(clausulas@)),
        r ==> valoracao_satisfaz(visao(clausulas@), final(valoracao)@),
        preserva_fora(visao(clausulas@), old(valoracao)@, final(valoracao)@),
        clausulas@.len() == 0 ==> r && final(valoracao)@ == old(valoracao)@,
    decreases medida(visao(clausulas@), old(valoracao)@.len()),
{
    let ghost s = visao(clausulas@);
    let ghost v0 = valoracao@;
    let ghost n = v0.len();
    let mut clausulas = clausulas;
    simplifica(&mut clausulas, valoracao);
    let ghost s1 = visao(clausulas@);
    let ghost v1 = valoracao@;
    proof {
        lemma_propaga(s, v0);
        lemma_num_atomos(s, s1, n);
    }
    if clausulas.len() == 0 {
        proof {
            if s.len() == 0 {
                assert(primeira_unitaria(s) == 0);
                assert(v1 == v0);
            }
            assert forall|i: int| 0 <= i < s.len() implies clausula_verdadeira(#[trigger] s[i], v1) by {
                assert(resolvida(s[i], s1, v1));
                let j = choose|j: int|
                    0 <= j < s[i].len() && verdadeiro_em(#[trigger] s[i][j], v1) && !ocorre(
                        s1,
                        atomo(s[i][j]),
                    );
                assert(verdadeiro_em(s[i][j], v1));
            }
            lemma_valoracao_satisfaz(s, v1);
        }
        return true;
    }
    if tem_clausula_vazia(&clausulas) {
        proof {
            let k = choose|k: int| 0 <= k < s1.len() && (#[trigger] s1[k]).len() == 0;
            assert forall|sigma: spec_fn(int) -> bool| !satisfaz(s, sigma) by {
                if satisfaz(s, sigma) {
                    assert(satisfaz(s1, sigma));
                    assert(clausula_satisfeita(s1[k], sigma));
                }
            }
        }
        return false;
    }
    assert forall|i: int| 0 <= i < clausulas@.len() implies (#[trigger] clausulas@[i])@.len() > 0 by {
        assert(s1[i] == clausulas@[i]@);
    }
    let l = escolher_literal(&clausulas);
    let ghost i_l = choose|i: int|
        0 <= i < s1.len() && (#[trigger] s1[i]).len() == tamanho_minimo(s1) && s1[i].contains(l);
    proof {
        let j = choose|j: int| 0 <= j < s1[i_l].len() && s1[i_l][j] == l;
        assert(clausula_valida(s1[i_l], n));
        assert(literal_valido(s1[i_l][j], n));
        assert(ocorre(s1, atomo(l)));
    }
    let mut positivo = copia_clausulas(&clausulas);
    positivo.push(Clausula::unitaria(l));
    let ghost cp = visao(positivo@);
    proof {
        assert(cp == s1.push(seq![l]));
        lemma_ramo_valido(s1, l, n);
        lemma_num_atomos(s1, cp, n);
        lemma_num_atomos(cp, s1, n);
        assert(tem_unitaria(cp)) by {
            assert(cp[s1.len() as int].len() == 1);
        }
    }
    if dpll(positivo, valoracao) {
        proof {
            lemma_ramo(s, s1, cp, v0, v1, valoracao@);
            lemma_valoracao_satisfaz(s, valoracao@);
        }
        return true;
    }
    let ghost v2 = valoracao@;
    let mut negativo = clausulas;
    negativo.push(Clausula::unitaria(-l));
    let ghost cn = visao(negativo@);
    proof {
        assert(cn == s1.push(seq![oposto(l)]));
        lemma_ramo_valido(s1, oposto(l), n);
        lemma_num_atomos(s1, cn, n);
        lemma_num_atomos(cn, s1, n);
        assert(tem_unitaria(cn)) by {
            assert(cn[s1.len() as int].len() == 1);
        }
        lemma_ramo(s, s1, cp, v0, v1, v2);
        assert(atomos_contidos(s1, s));
    }
    let r = dpll(negativo, valoracao);
    proof {
        lemma_ramo(s, s, cn, v0, v2, valoracao@);
        if r {
            lemma_ramo(s, s1, cn, v0, v1, valoracao@);
            lemma_valoracao_satisfaz(s, valoracao@);
        } else {
            lemma_divisao(s1, l);
            assert forall|sigma: spec_fn(int) -> bool| !satisfaz(s, sigma) by {
                if satisfaz(s, sigma) {
                    assert(satisfaz(s1, sigma));
                }
            }
        }
    }
    r
}

/// A store of valid clauses stays valid, and mentions the same atoms, when a
/// unit clause on an atom that it already mentions is added.
proof fn lemma_ramo_valido(s1: Seq<Seq<i32>>, l: i32, n: nat)
    requires
        clausulas_validas(s1, n),
        literal_valido(l, n),
        ocorre(s1, atomo(l)),
    ensures
        clausulas_validas(s1.push(seq![l]), n),
        atomos_contidos(s1.push(seq![l]), s1),
        atomos_contidos(s1, s1.push(seq![l])),
{
    let c = s1.push(seq![l]);
    assert forall|i: int| 0 <= i < c.len() implies clausula_valida(#[trigger] c[i], n) by {
        if i < s1.len() {
            assert(c[i] == s1[i]);
        } else {
            assert(c[i] == seq![l]);
            assert(c[i][0] == l);
        }
    }
    assert forall|a: int| ocorre(c, a) implies ocorre(s1, a) by {
        let (i, j) = choose|i: int, j: int|
            0 <= i < c.len() && 0 <= j < c[i].len() && atomo(#[trigger] c[i][j]) == a;
        if i < s1.len() {
            assert(c[i] == s1[i]);
            assert(atomo(s1[i][j]) == a);
        } else {
            assert(c[i][j] == l);
        }
    }
    assert forall|a: int| ocorre(s1, a) implies ocorre(c, a) by {
        let (i, j) = choose|i: int, j: int|
            0 <= i < s1.len() && 0 <= j < s1[i].len() && atomo(#[trigger] s1[i][j]) == a;
        assert(c[i] == s1[i]);
        assert(atomo(c[i][j]) == a);
    }
}

/// Splitting on a literal loses no model: a store that is unsatisfiable with
/// `{l}` added and with `{-l}` added is unsatisfiable.
proof fn lemma_divisao(s1: Seq<Seq<i32>>, l: i32)
    requires
        l != 0,
        l != i32::MIN,
        !satisfazivel(s1.push(seq![l])),
        !satisfazivel(s1.push(seq![oposto(l)])),
    ensures
        !satisfazivel(s1),
{
    let cp = s1.push(seq![l]);
    let cn = s1.push(seq![oposto(l)]);
    assert forall|sigma: spec_fn(int) -> bool| !satisfaz(s1, sigma) by {
        if satisfaz(s1, sigma) {
            if literal_verdadeiro(l, sigma) {
                assert forall|i: int| 0 <= i < cp.len() implies clausula_satisfeita(
                    #[trigger] cp[i],
                    sigma,
                ) by {
                    if i < s1.len() {
                        assert(cp[i] == s1[i]);
                    } else {
                        assert(literal_verdadeiro(cp[i][0], sigma));
                    }
                }
                assert(satisfaz(cp, sigma));
            } else {
                assert forall|i: int| 0 <= i < cn.len() implies clausula_satisfeita(
                    #[trigger] cn[i],
                    sigma,
                ) by {
                    if i < s1.len() {
                        assert(cn[i] == s1[i]);
                    } else {
                        assert(literal_verdadeiro(cn[i][0], sigma));
                    }
                }
                assert(satisfaz(cn, sigma));
            }
        }
    }
}

fn tem_clausula_vazia(clausulas: &Vec<Clausula>) -> (r: bool)
    ensures
        r == exists|k: int| 0 <= k < clausulas@.len() && (#[trigger] visao(clausulas@)[k]).len() == 0,
{
    let ghost s = visao(clausulas@);
    let mut k: usize = 0;
    while k < clausulas.len()
        invariant
            k <= clausulas.len(),
            s == visao(clausulas@),
            forall|i: int| 0 <= i < k ==> (#[trigger] s[i]).len() > 0,
        decreases clausulas.len() - k,
    {
        assert(s[k as int] == clausulas@[k as int]@);
        if clausulas[k].tamanho() == 0 {
            return true;
        }
        k = k + 1;
    }
    false
}

/// The verdict on a formula: unsatisfiable, or satisfiable with a valuation
/// indexed by atom (atom `a` at `a - 1`; `None` for an atom left unassigned).
#[derive(Debug)]
pub enum Resultado {
    Insatisfazivel,
    Satisfazivel(Vec<Option<bool>>),
}

/// Decides the formula given by its atom count and its clauses. On a
/// satisfiable formula the valuation makes a literal of every clause true, so
/// the total assignment that takes unassigned atoms as true satisfies it, and
/// atoms that no clause mentions are left unassigned.
pub fn resolver(num_atomos: usize, clausulas: Vec<Clausula>) -> (r: Resultado)
    requires
        clausulas_validas(visao(clausulas@), num_atomos as nat),
    ensures
        match r {
            Resultado::Insatisfazivel => !satisfazivel(visao(clausulas@)),
            Resultado::Satisfazivel(v) => {
                &&& satisfazivel(visao(clausulas@))
                &&& v@.len() == num_atomos
                &&& valoracao_satisfaz(visao(clausulas@), v@)
                &&& satisfaz(visao(clausulas@), completa(v@))
                &&& forall|k: int|
                    0 <= k < num_atomos && !ocorre(visao(clausulas@), k + 1) ==> (#[trigger] v@[k])
                        is None
            },
        },
        clausulas@.len() == 0 ==> r is Satisfazivel,
{
    let ghost s = visao(clausulas@);
    let mut valoracao: Vec<Option<bool>> = Vec::new();
    let mut k: usize = 0;
    while k < num_atomos
        invariant
            k <= num_atomos,
            valoracao@.len() == k,
            forall|i: int| 0 <= i < k ==> (#[trigger] valoracao@[i]) is None,
        decreases num_atomos - k,
    {
        valoracao.push(None);
        k = k + 1;
    }
    let ghost v0 = valoracao@;
    if dpll(clausulas, &mut valoracao) {
        proof {
            lemma_valoracao_satisfaz(s, valoracao@);
            assert forall|k: int| 0 <= k < num_atomos && !ocorre(s, k + 1) implies (#[trigger] valoracao@[k]) is None by {
                assert(v0[k] is None);
            }
        }
        Resultado::Satisfazivel(valoracao)
    } else {
        Resultado::Insatisfazivel
    }
}

/// The answer line for a satisfiable formula: for each atom `a` in order, `-a`
/// if the valuation makes it false and `a` otherwise (also when unassigned).
pub fn literais_resposta(valoracao: &Vec<Option<bool>>) -> (r: Vec<i32>)
    requires
        valoracao@.len() <= i32::MAX,
    ensures
        r@.len() == valoracao@.len(),
        forall|k: int|
            0 <= k < r@.len() ==> #[trigger] r@[k] == if valoracao@[k] == Some(false) {
                -(k + 1)
            } else {
                k + 1
            },
{
    let mut r: Vec<i32> = Vec::new();
    let mut k: usize = 0;
    while k < valoracao.len()
        invariant
            k <= valoracao@.len(),
            valoracao@.len() <= i32::MAX,
            r@.len() == k,
            forall|i: int|
                0 <= i < k ==> #[trigger] r@[i] == if valoracao@[i] == Some(false) {
                    -(i + 1)
                } else {
                    i + 1
                },
        decreases valoracao@.len() - k,
    {
        let a: i32 = (k + 1) as i32;
        match valoracao[k] {
            Some(false) => r.push(-a),
            _ => r.push(a),
        }
        k = k + 1;
    }
    r
}

} // verus!
