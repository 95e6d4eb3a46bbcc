use vstd::prelude::*;

use crate::clausula::{
    atomo, clausula_satisfeita, clausula_valida, clausulas_validas, literal_verdadeiro,
    oposto, satisfaz, sem_literal, verdadeiro_em, visao, Clausula, lemma_sem_literal, literal_valido, satisfazivel,
};

verus! {

/// How many literals the store holds, over all its clauses.
pub open spec fn tamanho_total(s: Seq<Seq<i32>>) -> nat
    decreases s.len(),
{
    if s.len() == 0 {
        0
    } else {
        tamanho_total(s.drop_last()) + s.last().len()
    }
}

/// Place of the first unit clause at or after `i`; the store's length if none.
pub open spec fn primeira_unitaria_desde(s: Seq<Seq<i32>>, i: int) -> int
    decreases s.len() - i,
{
    if i < 0 || i >= s.len() {
        s.len() as int
    } else if s[i].len() == 1 {
        i
    } else {
        primeira_unitaria_desde(s, i + 1)
    }
}

/// Place of the first unit clause of the store; its length if none.
pub open spec fn primeira_unitaria(s: Seq<Seq<i32>>) -> int {
    primeira_unitaria_desde(s, 0)
}

/// The store holds a clause of exactly one literal.
pub open spec fn tem_unitaria(s: Seq<Seq<i32>>) -> bool {
    exists|i: int| 0 <= i < s.len() && (#[trigger] s[i]).len() == 1
}

/// One propagation step on literal `l`: the clauses holding `l` are dropped
/// and the opposite literal leaves the others, whose order is kept.
pub open spec fn elimina(s: Seq<Seq<i32>>, l: i32) -> Seq<Seq<i32>>
    decreases s.len(),
{
    if s.len() == 0 {
        s
    } else {
        let r = elimina(s.drop_last(), l);
        if s.last().contains(l) {
            r
        } else {
            r.push(sem_literal(s.last(), oposto(l)))
        }
    }
}

/// The valuation after `l` was made true.
pub open spec fn atribui(v: Seq<Option<bool>>, l: i32) -> Seq<Option<bool>> {
    v.update(atomo(l) - 1, Some(l > 0))
}

/// Unit propagation to its fixpoint: while some clause is a unit, the first
/// one's literal is made true and propagated.
pub open spec fn propaga(s: Seq<Seq<i32>>, v: Seq<Option<bool>>) -> (Seq<Seq<i32>>, Seq<Option<bool>>)
    decreases tamanho_total(s),
    via propaga_decresce
{
    let i = primeira_unitaria(s);
    if 0 <= i < s.len() {
        let l = s[i][0];
        propaga(elimina(s, l), atribui(v, l))
    } else {
        (s, v)
    }
}

#[via_fn]
proof fn propaga_decresce(s: Seq<Seq<i32>>, v: Seq<Option<bool>>) {
    let i = primeira_unitaria(s);
    if 0 <= i < s.len() {
        lemma_primeira_unitaria(s, 0);
        lemma_elimina(s, s[i][0]);
        assert(s[i].contains(s[i][0]));
    }
}

/// Some literal of some clause of the store is on atom `a`.
pub open spec fn ocorre(s: Seq<Seq<i32>>, a: int) -> bool {
    exists|i: int, j: int| 0 <= i < s.len() && 0 <= j < s[i].len() && atomo(#[trigger] s[i][j]) == a
}

/// Every literal of `c1` is in `c2`.
pub open spec fn contida(c1: Seq<i32>, c2: Seq<i32>) -> bool {
    forall|x: i32| c1.contains(x) ==> c2.contains(x)
}

/// Clause `c` is dealt with by the store `s2` under the valuation `v2`: either
/// `v2` makes one of its literals true on an atom that `s2` no longer
/// mentions, or a clause of `s2` holds only literals of `c`.
pub open spec fn resolvida(c: Seq<i32>, s2: Seq<Seq<i32>>, v2: Seq<Option<bool>>) -> bool {
    ||| exists|j: int| 0 <= j < c.len() && verdadeiro_em(#[trigger] c[j], v2) && !ocorre(s2, atomo(c[j]))
    ||| exists|k: int| 0 <= k < s2.len() && contida(#[trigger] s2[k], c)
}

/// Every clause of `s` is dealt with by `s2` under `v2`.
pub open spec fn reduz(s: Seq<Seq<i32>>, s2: Seq<Seq<i32>>, v2: Seq<Option<bool>>) -> bool {
    forall|i: int| 0 <= i < s.len() ==> resolvida(#[trigger] s[i], s2, v2)
}

/// `v2` differs from `v` only on atoms that the store `s` mentions.
pub open spec fn preserva_fora(s: Seq<Seq<i32>>, v: Seq<Option<bool>>, v2: Seq<Option<bool>>) -> bool {
    &&& v2.len() == v.len()
    &&& forall|k: int| 0 <= k < v.len() && !ocorre(s, k + 1) ==> #[trigger] v2[k] == v[k]
}

/// Every atom that `s2` mentions is mentioned by `s`.
pub open spec fn atomos_contidos(s2: Seq<Seq<i32>>, s: Seq<Seq<i32>>) -> bool {
    forall|a: int| ocorre(s2, a) ==> ocorre(s, a)
}

proof fn lemma_primeira_unitaria(s: Seq<Seq<i32>>, k: int)
    requires
        0 <= k <= s.len(),
    ensures
        k <= primeira_unitaria_desde(s, k) <= s.len(),
        primeira_unitaria_desde(s, k) < s.len() ==> s[primeira_unitaria_desde(s, k)].len() == 1,
        forall|j: int| k <= j < primeira_unitaria_desde(s, k) ==> s[j].len() != 1,
    decreases s.len() - k,
{
    if k < s.len() && s[k].len() != 1 {
        lemma_primeira_unitaria(s, k + 1);
    }
}

/// The first unit clause exists exactly when some unit clause does.
pub proof fn lemma_tem_unitaria(s: Seq<Seq<i32>>)
    ensures
        tem_unitaria(s) <==> primeira_unitaria(s) < s.len(),
        0 <= primeira_unitaria(s) <= s.len(),
        primeira_unitaria(s) < s.len() ==> s[primeira_unitaria(s)].len() == 1,
{
    lemma_primeira_unitaria(s, 0);
    if tem_unitaria(s) {
        let i = choose|i: int| 0 <= i < s.len() && (#[trigger] s[i]).len() == 1;
        assert(primeira_unitaria(s) <= i);
    }
    if primeira_unitaria(s) < s.len() {
        assert(s[primeira_unitaria(s)].len() == 1);
    }
}

/// What one propagation step keeps, drops and shrinks.
pub proof fn lemma_elimina(s: Seq<Seq<i32>>, l: i32)
    ensures
        tamanho_total(elimina(s, l)) <= tamanho_total(s),
        (exists|i: int| 0 <= i < s.len() && (#[trigger] s[i]).contains(l)) ==> tamanho_total(
            elimina(s, l),
        ) < tamanho_total(s),
        forall|k: int|
            0 <= k < elimina(s, l).len() ==> exists|i: int|
                0 <= i < s.len() && !s[i].contains(l) && #[trigger] elimina(s, l)[k]
                    == sem_literal(#[trigger] s[i], oposto(l)),
        forall|i: int|
            0 <= i < s.len() && !(#[trigger] s[i]).contains(l) ==> elimina(s, l).contains(
                sem_literal(s[i], oposto(l)),
            ),
    decreases s.len(),
{
    if s.len() > 0 {
        let p = s.drop_last();
        let e = elimina(s, l);
        let r = elimina(p, l);
        lemma_elimina(p, l);
        lemma_sem_literal(s.last(), oposto(l));
        if !s.last().contains(l) {
            let x = sem_literal(s.last(), oposto(l));
            assert(r.push(x).drop_last() == r);
            assert(tamanho_total(e) == tamanho_total(r) + x.len());
        }
        if exists|i: int| 0 <= i < s.len() && (#[trigger] s[i]).contains(l) {
            let i = choose|i: int| 0 <= i < s.len() && (#[trigger] s[i]).contains(l);
            if i < p.len() {
                assert(p[i].contains(l));
            }
        }
        assert forall|k: int| 0 <= k < e.len() implies exists|i: int|
            0 <= i < s.len() && !s[i].contains(l) && #[trigger] e[k] == sem_literal(
                #[trigger] s[i],
                oposto(l),
            ) by {
            if k < r.len() {
                let i = choose|i: int|
                    0 <= i < p.len() && !p[i].contains(l) && #[trigger] r[k] == sem_literal(
                        #[trigger] p[i],
                        oposto(l),
                    );
                assert(s[i] == p[i]);
            } else {
                assert(s[s.len() - 1] == s.last());
            }
        }
        assert forall|i: int| 0 <= i < s.len() && !(#[trigger] s[i]).contains(l) implies e.contains(
            sem_literal(s[i], oposto(l)),
        ) by {
            if i < p.len() {
                assert(p[i] == s[i]);
                let k = choose|k: int| 0 <= k < r.len() && r[k] == sem_literal(p[i], oposto(l));
                if !s.last().contains(l) {
                    assert(e[k] == r[k]);
                }
            } else {
                assert(e[r.len() as int] == sem_literal(s[i], oposto(l)));
            }
        }
    }
}

/// One propagation step, on the first unit clause: what it keeps and what it
/// settles.
proof fn lemma_passo(s: Seq<Seq<i32>>, v: Seq<Option<bool>>)
    requires
        clausulas_validas(s, v.len()),
        primeira_unitaria(s) < s.len(),
    ensures
        ({
            let l = s[primeira_unitaria(s)][0];
            let s1 = elimina(s, l);
            let v1 = atribui(v, l);
            &&& clausulas_validas(s1, v.len())
            &&& 1 <= atomo(l) <= v.len()
            &&& ocorre(s, atomo(l))
            &&& !ocorre(s1, atomo(l))
            &&& atomos_contidos(s1, s)
            &&& preserva_fora(s, v, v1)
            &&& reduz(s, s1, v1)
            &&& forall|sigma: spec_fn(int) -> bool| satisfaz(s, sigma) ==> satisfaz(s1, sigma)
        }),
{
    lemma_tem_unitaria(s);
    let i0 = primeira_unitaria(s);
    let l = s[i0][0];
    let s1 = elimina(s, l);
    let v1 = atribui(v, l);
    let n = v.len();
    lemma_elimina(s, l);
    assert(clausula_valida(s[i0], n));
    assert(literal_valido(s[i0][0], n));
    assert(atomo(s[i0][0]) == atomo(l));
    assert(s[i0].contains(l));
    assert forall|k: int| 0 <= k < s1.len() implies {
        &&& clausula_valida(#[trigger] s1[k], n)
        &&& forall|j: int| 0 <= j < s1[k].len() ==> atomo(#[trigger] s1[k][j]) != atomo(l)
    } by {
        let i = choose|i: int|
            0 <= i < s.len() && !s[i].contains(l) && #[trigger] s1[k] == sem_literal(
                #[trigger] s[i],
                oposto(l),
            );
        lemma_sem_literal(s[i], oposto(l));
        assert(clausula_valida(s[i], n));
        assert forall|j: int| 0 <= j < s1[k].len() implies literal_valido(#[trigger] s1[k][j], n)
            && atomo(s1[k][j]) != atomo(l) by {
            assert(s1[k].contains(s1[k][j]));
            assert(sem_literal(s[i], oposto(l)).contains(s1[k][j]));
            assert(s[i].contains(s1[k][j]));
            let jj = choose|jj: int| 0 <= jj < s[i].len() && s[i][jj] == s1[k][j];
            assert(literal_valido(s[i][jj], n));
        }
    }
    assert(!ocorre(s1, atomo(l)));
    assert forall|a: int| ocorre(s1, a) implies ocorre(s, a) by {
        let (k, j) = choose|k: int, j: int|
            0 <= k < s1.len() && 0 <= j < s1[k].len() && atomo(#[trigger] s1[k][j]) == a;
        let i = choose|i: int|
            0 <= i < s.len() && !s[i].contains(l) && #[trigger] s1[k] == sem_literal(
                #[trigger] s[i],
                oposto(l),
            );
        lemma_sem_literal(s[i], oposto(l));
        assert(s1[k].contains(s1[k][j]));
        let jj = choose|jj: int| 0 <= jj < s[i].len() && s[i][jj] == s1[k][j];
        assert(atomo(s[i][jj]) == a);
    }
    assert forall|k: int| 0 <= k < v.len() && !ocorre(s, k + 1) implies #[trigger] v1[k] == v[k] by {
        assert(k + 1 != atomo(l));
    }
    assert forall|i: int| 0 <= i < s.len() implies resolvida(#[trigger] s[i], s1, v1) by {
        if s[i].contains(l) {
            let j = choose|j: int| 0 <= j < s[i].len() && s[i][j] == l;
            assert(verdadeiro_em(s[i][j], v1));
        } else {
            let k = choose|k: int| 0 <= k < s1.len() && s1[k] == sem_literal(s[i], oposto(l));
            lemma_sem_literal(s[i], oposto(l));
            assert(contida(s1[k], s[i]));
        }
    }
    assert forall|sigma: spec_fn(int) -> bool| satisfaz(s, sigma) implies satisfaz(s1, sigma) by {
        assert(clausula_satisfeita(s[i0], sigma));
        let j0 = choose|j: int| 0 <= j < s[i0].len() && #[trigger] literal_verdadeiro(s[i0][j], sigma);
        assert(j0 == 0);
        assert(literal_verdadeiro(l, sigma));
        assert forall|k: int| 0 <= k < s1.len() implies clausula_satisfeita(#[trigger] s1[k], sigma) by {
            let i = choose|i: int|
                0 <= i < s.len() && !s[i].contains(l) && #[trigger] s1[k] == sem_literal(
                    #[trigger] s[i],
                    oposto(l),
                );
            lemma_sem_literal(s[i], oposto(l));
            assert(clausula_satisfeita(s[i], sigma));
            let j = choose|j: int| 0 <= j < s[i].len() && #[trigger] literal_verdadeiro(s[i][j], sigma);
            assert(s[i].contains(s[i][j]));
            assert(s[i][j] != oposto(l));
            assert(s1[k].contains(s[i][j]));
            let jj = choose|jj: int| 0 <= jj < s1[k].len() && s1[k][jj] == s[i][j];
            assert(literal_verdadeiro(s1[k][jj], sigma));
        }
    }
}

/// What unit propagation to its fixpoint keeps and what it settles.
pub proof fn lemma_propaga(s: Seq<Seq<i32>>, v: Seq<Option<bool>>)
    requires
        clausulas_validas(s, v.len()),
    ensures
        ({
            let (s2, v2) = propaga(s, v);
            &&& clausulas_validas(s2, v.len())
            &&& !tem_unitaria(s2)
            &&& preserva_fora(s, v, v2)
            &&& atomos_contidos(s2, s)
            &&& tem_unitaria(s) ==> exists|a: int| 1 <= a <= v.len() && ocorre(s, a) && !ocorre(s2, a)
            &&& reduz(s, s2, v2)
            &&& forall|sigma: spec_fn(int) -> bool| satisfaz(s, sigma) ==> satisfaz(s2, sigma)
        }),
    decreases tamanho_total(s),
{
    lemma_tem_unitaria(s);
    let i0 = primeira_unitaria(s);
    let n = v.len();
    if i0 < s.len() {
        let l = s[i0][0];
        let s1 = elimina(s, l);
        let v1 = atribui(v, l);
        lemma_passo(s, v);
        lemma_elimina(s, l);
        assert(s[i0].contains(l));
        lemma_propaga(s1, v1);
        let (s2, v2) = propaga(s, v);
        assert((s2, v2) == propaga(s1, v1));
        assert(ocorre(s, atomo(l)) && !ocorre(s2, atomo(l)));
        assert forall|k: int| 0 <= k < v.len() && !ocorre(s, k + 1) implies #[trigger] v2[k] == v[k] by {
            assert(v1[k] == v[k]);
            assert(!ocorre(s1, k + 1));
        }
        assert forall|i: int| 0 <= i < s.len() implies resolvida(#[trigger] s[i], s2, v2) by {
            assert(resolvida(s[i], s1, v1));
            assert(clausula_valida(s[i], n));
            if exists|j: int| 0 <= j < s[i].len() && verdadeiro_em(#[trigger] s[i][j], v1) && !ocorre(s1, atomo(s[i][j])) {
                let j = choose|j: int| 0 <= j < s[i].len() && verdadeiro_em(#[trigger] s[i][j], v1) && !ocorre(s1, atomo(s[i][j]));
                assert(literal_valido(s[i][j], n));
                let k = atomo(s[i][j]) - 1;
                assert(v2[k] == v1[k]);
                assert(verdadeiro_em(s[i][j], v2));
            } else {
                let k = choose|k: int| 0 <= k < s1.len() && contida(#[trigger] s1[k], s[i]);
                assert(resolvida(s1[k], s2, v2));
                if exists|j: int| 0 <= j < s1[k].len() && verdadeiro_em(#[trigger] s1[k][j], v2) && !ocorre(s2, atomo(s1[k][j])) {
                    let j = choose|j: int| 0 <= j < s1[k].len() && verdadeiro_em(#[trigger] s1[k][j], v2) && !ocorre(s2, atomo(s1[k][j]));
                    assert(s1[k].contains(s1[k][j]));
                    let jj = choose|jj: int| 0 <= jj < s[i].len() && s[i][jj] == s1[k][j];
                    assert(verdadeiro_em(s[i][jj], v2));
                } else {
                    let k2 = choose|k2: int| 0 <= k2 < s2.len() && contida(#[trigger] s2[k2], s1[k]);
                    assert(contida(s2[k2], s[i]));
                }
            }
        }
    } else {
        assert forall|i: int| 0 <= i < s.len() implies resolvida(#[trigger] s[i], s, v) by {
            assert(contida(s[i], s[i]));
        }
    }
}

/// Unit propagation is idempotent: once at its fixpoint no unit clause is
/// left, so running it again changes neither the store nor the valuation.
pub proof fn lei_propaga_idempotente(s: Seq<Seq<i32>>, v: Seq<Option<bool>>)
    requires
        clausulas_validas(s, v.len()),
    ensures
        propaga(propaga(s, v).0, propaga(s, v).1) == propaga(s, v),
        !tem_unitaria(propaga(s, v).0),
{
    lemma_propaga(s, v);
    let (s2, v2) = propaga(s, v);
    lemma_tem_unitaria(s2);
    assert(propaga(s2, v2) == (s2, v2));
}

/// The store holds the clause of no literal: a conflict.
pub open spec fn tem_vazia(s: Seq<Seq<i32>>) -> bool {
    s.contains(Seq::<i32>::empty())
}

proof fn lemma_contradicao(s: Seq<Seq<i32>>, v: Seq<Option<bool>>, x: i32)
    requires
        clausulas_validas(s, v.len()),
        literal_valido(x, v.len()),
        tem_vazia(s) || (s.contains(seq![x]) && s.contains(seq![oposto(x)])),
    ensures
        tem_vazia(propaga(s, v).0),
    decreases tamanho_total(s),
{
    lemma_tem_unitaria(s);
    let i0 = primeira_unitaria(s);
    if i0 < s.len() {
        let l = s[i0][0];
        let e = elimina(s, l);
        lemma_passo(s, v);
        lemma_elimina(s, l);
        assert(s[i0].contains(l));
        let vazia = Seq::<i32>::empty();
        let ux: Seq<i32> = seq![x];
        let un: Seq<i32> = seq![oposto(x)];
        assert(sem_literal(vazia, oposto(l)) == vazia);
        assert(!vazia.contains(l));
        if tem_vazia(s) {
            let k = choose|k: int| 0 <= k < s.len() && s[k] == vazia;
            assert(!s[k].contains(l));
            assert(e.contains(sem_literal(s[k], oposto(l))));
        } else {
            let kx = choose|k: int| 0 <= k < s.len() && s[k] == ux;
            let kn = choose|k: int| 0 <= k < s.len() && s[k] == un;
            assert(ux.drop_last() == vazia);
            assert(un.drop_last() == vazia);
            lemma_sem_literal(ux, oposto(l));
            lemma_sem_literal(un, oposto(l));
            if l == x {
                assert(!s[kn].contains(l)) by {
                    assert(un[0] != l);
                }
                assert(sem_literal(un, oposto(l)) == vazia);
                assert(e.contains(sem_literal(s[kn], oposto(l))));
            } else if l == oposto(x) {
                assert(!s[kx].contains(l)) by {
                    assert(ux[0] != l);
                }
                assert(sem_literal(ux, oposto(l)) == vazia);
                assert(e.contains(sem_literal(s[kx], oposto(l))));
            } else {
                assert(!s[kx].contains(l)) by {
                    assert(ux[0] != l);
                }
                assert(!s[kn].contains(l)) by {
                    assert(un[0] != l);
                }
                assert(sem_literal(ux, oposto(l)) == ux);
                assert(sem_literal(un, oposto(l)) == un);
                assert(e.contains(sem_literal(s[kx], oposto(l))));
                assert(e.contains(sem_literal(s[kn], oposto(l))));
            }
        }
        lemma_contradicao(e, atribui(v, l), x);
    } else {
        if !tem_vazia(s) {
            let kx = choose|k: int| 0 <= k < s.len() && s[k] == seq![x];
            assert(s[kx].len() == 1);
        }
    }
}

/// A store that holds both unit clauses `{x}` and `{-x}` is unsatisfiable, and
/// unit propagation on it ends with an empty clause.
pub proof fn lei_contradicao(s: Seq<Seq<i32>>, v: Seq<Option<bool>>, x: i32)
    requires
        clausulas_validas(s, v.len()),
        s.contains(seq![x]),
        s.contains(seq![oposto(x)]),
    ensures
        !satisfazivel(s),
        tem_vazia(propaga(s, v).0),
{
    let kx = choose|k: int| 0 <= k < s.len() && s[k] == seq![x];
    let kn = choose|k: int| 0 <= k < s.len() && s[k] == seq![oposto(x)];
    assert(clausula_valida(s[kx], v.len()));
    assert(literal_valido(s[kx][0], v.len()));
    lemma_contradicao(s, v, x);
    assert forall|sigma: spec_fn(int) -> bool| !satisfaz(s, sigma) by {
        if satisfaz(s, sigma) {
            assert(clausula_satisfeita(s[kx], sigma));
            assert(clausula_satisfeita(s[kn], sigma));
            assert(literal_verdadeiro(s[kx][0], sigma));
            assert(literal_verdadeiro(s[kn][0], sigma));
        }
    }
}

/// Unit propagation: while some clause is a unit, its literal is made true in
/// the valuation, the clauses that hold it are dropped and its opposite leaves
/// the others.
pub fn simplifica(clausulas: &mut Vec<Clausula>, valoracao: &mut Vec<Option<bool>>)
    requires
        clausulas_validas(visao(old(clausulas)@), old(valoracao)@.len()),
    ensures
        (visao(final(clausulas)@), final(valoracao)@) == propaga(visao(old(clausulas)@), old(valoracao)@),
{
    let ghost s0 = visao(clausulas@);
    let ghost v0 = valoracao@;
    loop
        invariant
            clausulas_validas(visao(clausulas@), valoracao@.len()),
            valoracao@.len() == v0.len(),
            propaga(visao(clausulas@), valoracao@) == propaga(s0, v0),
            s0 == visao(old(clausulas)@),
            v0 == old(valoracao)@,
        decreases tamanho_total(visao(clausulas@)),
    {
        let ghost s = visao(clausulas@);
        proof {
            lemma_tem_unitaria(s);
            lemma_primeira_unitaria(s, 0);
        }
        let mut i: usize = 0;
        while i < clausulas.len() && clausulas[i].tamanho() != 1
            invariant
                i <= clausulas.len(),
                s == visao(clausulas@),
                primeira_unitaria_desde(s, i as int) == primeira_unitaria(s),
            decreases clausulas.len() - i,
        {
            i = i + 1;
        }
        if i == clausulas.len() {
            assert(primeira_unitaria(s) == s.len());
            assert(propaga(s, valoracao@) == (s, valoracao@));
            return;
        }
        assert(s[i as int] == clausulas[i as int]@);
        let l = clausulas[i].literais()[0];
        assert(clausula_valida(s[i as int], valoracao@.len()));
        assert(literal_valido(s[i as int][0], valoracao@.len()));
        let ghost v = valoracao@;
        proof {
            lemma_passo(s, v);
            lemma_elimina(s, l);
            assert(s[i as int].contains(l));
        }
        let mut novas: Vec<Clausula> = Vec::new();
        let mut k: usize = 0;
        while k < clausulas.len()
            invariant
                k <= clausulas.len(),
                s == visao(clausulas@),
                l != i32::MIN,
                visao(novas@) == elimina(s.subrange(0, k as int), l),
            decreases clausulas.len() - k,
        {
            assert(s.subrange(0, k + 1).drop_last() == s.subrange(0, k as int));
            assert(s[k as int] == clausulas[k as int]@);
            if !clausulas[k].contem(l) {
                let c = clausulas[k].sem(-l);
                let ghost antes = novas@;
                novas.push(c);
                assert(visao(novas@) == visao(antes).push(c@));
            }
            k = k + 1;
        }
        assert(s.subrange(0, s.len() as int) == s);
        *clausulas = novas;
        let a: usize = if l < 0 { (-l) as usize } else { l as usize };
        valoracao.set(a - 1, Some(l > 0));
        assert(valoracao@ == atribui(v, l));
    }
}

} // verus!
