use vstd::prelude::*;

use crate::clausula::{visao, Clausula};

verus! {

/// The size of the shortest clause of the store (0 for an empty store).
pub open spec fn tamanho_minimo(s: Seq<Seq<i32>>) -> nat
    decreases s.len(),
{
    if s.len() == 0 {
        0
    } else if s.len() == 1 {
        s[0].len()
    } else {
        let p = tamanho_minimo(s.drop_last());
        if s.last().len() < p {
            s.last().len()
        } else {
            p
        }
    }
}

/// How many clauses of size `m` hold the literal `x`.
pub open spec fn ocorrencias(s: Seq<Seq<i32>>, m: nat, x: i32) -> nat
    decreases s.len(),
{
    if s.len() == 0 {
        0
    } else {
        ocorrencias(s.drop_last(), m, x) + if s.last().len() == m && s.last().contains(x) {
            1nat
        } else {
            0nat
        }
    }
}

/// Among the clauses of size `m`, `r` is at least as good a choice as `x`:
/// it occurs more often, or as often and is the smaller literal.
pub open spec fn supera(s: Seq<Seq<i32>>, m: nat, r: i32, x: i32) -> bool {
    ||| ocorrencias(s, m, x) < ocorrencias(s, m, r)
    ||| ocorrencias(s, m, x) == ocorrencias(s, m, r) && r <= x
}

/// `r` stands in a clause of the smallest size.
pub open spec fn candidato(s: Seq<Seq<i32>>, r: i32) -> bool {
    exists|i: int|
        0 <= i < s.len() && (#[trigger] s[i]).len() == tamanho_minimo(s) && s[i].contains(r)
}

/// The branching literal: of the literals in clauses of the smallest size, the
/// one found in most of those clauses, the smallest literal on a tie.
pub open spec fn melhor_literal(s: Seq<Seq<i32>>, r: i32) -> bool {
    &&& candidato(s, r)
    &&& forall|i: int, j: int|
        0 <= i < s.len() && s[i].len() == tamanho_minimo(s) && 0 <= j < s[i].len() ==> supera(
            s,
            tamanho_minimo(s),
            r,
            #[trigger] s[i][j],
        )
}

/// The smallest size is that of some clause, and no clause is shorter.
pub proof fn lemma_tamanho_minimo(s: Seq<Seq<i32>>)
    requires
        s.len() > 0,
    ensures
        exists|i: int| 0 <= i < s.len() && (#[trigger] s[i]).len() == tamanho_minimo(s),
        forall|i: int| 0 <= i < s.len() ==> tamanho_minimo(s) <= (#[trigger] s[i]).len(),
    decreases s.len(),
{
    if s.len() == 1 {
        assert(s[0].len() == tamanho_minimo(s));
    } else {
        let p = s.drop_last();
        lemma_tamanho_minimo(p);
        let i = choose|i: int| 0 <= i < p.len() && (#[trigger] p[i]).len() == tamanho_minimo(p);
        assert(s[i] == p[i]);
        assert(s[s.len() - 1] == s.last());
        assert forall|k: int| 0 <= k < s.len() implies tamanho_minimo(s) <= (#[trigger] s[k]).len() by {
            if k < p.len() {
                assert(s[k] == p[k]);
            }
        }
    }
}

/// The branching literal is unique: no two literals both meet
/// `melhor_literal`, so the choice does not depend on any iteration order.
pub proof fn lemma_melhor_literal_unico(s: Seq<Seq<i32>>, r1: i32, r2: i32)
    requires
        melhor_literal(s, r1),
        melhor_literal(s, r2),
    ensures
        r1 == r2,
{
    let i1 = choose|i: int|
        0 <= i < s.len() && (#[trigger] s[i]).len() == tamanho_minimo(s) && s[i].contains(r1);
    let j1 = choose|j: int| 0 <= j < s[i1].len() && s[i1][j] == r1;
    let i2 = choose|i: int|
        0 <= i < s.len() && (#[trigger] s[i]).len() == tamanho_minimo(s) && s[i].contains(r2);
    let j2 = choose|j: int| 0 <= j < s[i2].len() && s[i2][j] == r2;
    assert(supera(s, tamanho_minimo(s), r1, s[i2][j2]));
    assert(supera(s, tamanho_minimo(s), r2, s[i1][j1]));
}

fn conta_ocorrencias(clausulas: &Vec<Clausula>, m: usize, x: i32) -> (r: usize)
    ensures
        r == ocorrencias(visao(clausulas@), m as nat, x),
{
    let ghost s = visao(clausulas@);
    let mut cnt: usize = 0;
    let mut k: usize = 0;
    while k < clausulas.len()
        invariant
            k <= clausulas.len(),
            s == visao(clausulas@),
            cnt <= k,
            cnt == ocorrencias(s.subrange(0, k as int), m as nat, x),
        decreases clausulas.len() - k,
    {
        assert(s.subrange(0, k + 1).drop_last() == s.subrange(0, k as int));
        assert(s[k as int] == clausulas[k as int]@);
        if clausulas[k].tamanho() == m && clausulas[k].contem(x) {
            cnt = cnt + 1;
        }
        k = k + 1;
    }
    assert(s.subrange(0, s.len() as int) == s);
    cnt
}

/// The literal to branch on: the one that occurs in most of the shortest
/// clauses, the smallest of those on a tie.
pub fn escolher_literal(clausulas: &Vec<Clausula>) -> (r: i32)
    requires
        clausulas@.len() > 0,
        forall|i: int| 0 <= i < clausulas@.len() ==> (#[trigger] clausulas@[i])@.len() > 0,
    ensures
        melhor_literal(visao(clausulas@), r),
{
    let ghost s = visao(clausulas@);
    proof {
        lemma_tamanho_minimo(s);
    }
    // the smallest size
    let mut m: usize = clausulas[0].tamanho();
    let mut im: usize = 0;
    let mut i: usize = 1;
    assert(s[0] == clausulas@[0]@);
    while i < clausulas.len()
        invariant
            1 <= i <= clausulas.len(),
            s == visao(clausulas@),
            im < i,
            s[im as int].len() == m,
            forall|k: int| 0 <= k < i ==> m <= (#[trigger] s[k]).len(),
        decreases clausulas.len() - i,
    {
        assert(s[i as int] == clausulas@[i as int]@);
        if clausulas[i].tamanho() < m {
            m = clausulas[i].tamanho();
            im = i;
        }
        i = i + 1;
    }
    let ghost mt = tamanho_minimo(s);
    assert(m == mt) by {
        let k = choose|k: int| 0 <= k < s.len() && (#[trigger] s[k]).len() == mt;
        assert(s[k].len() >= m);
        assert(s[im as int].len() >= mt);
    }
    assert(s[im as int] == clausulas@[im as int]@);
    assert(s[im as int].len() > 0);
    let mut r: i32 = clausulas[im].literais()[0];
    assert(s[im as int].contains(r));
    let mut melhor: usize = conta_ocorrencias(clausulas, m, r);
    let mut i: usize = 0;
    while i < clausulas.len()
        invariant
            i <= clausulas.len(),
            s == visao(clausulas@),
            m == tamanho_minimo(s),
            candidato(s, r),
            melhor == ocorrencias(s, m as nat, r),
            forall|a: int, b: int|
                0 <= a < i && s[a].len() == m && 0 <= b < s[a].len() ==> supera(
                    s,
                    m as nat,
                    r,
                    #[trigger] s[a][b],
                ),
        decreases clausulas.len() - i,
    {
        assert(s[i as int] == clausulas@[i as int]@);
        if clausulas[i].tamanho() == m {
            let lits = clausulas[i].literais();
            let mut j: usize = 0;
            while j < lits.len()
                invariant
                    j <= lits@.len(),
                    lits@ == s[i as int],
                    i < s.len(),
                    s[i as int].len() == m,
                    s == visao(clausulas@),
                    m == tamanho_minimo(s),
                    candidato(s, r),
                    melhor == ocorrencias(s, m as nat, r),
                    forall|a: int, b: int|
                        0 <= a < i && s[a].len() == m && 0 <= b < s[a].len() ==> supera(
                            s,
                            m as nat,
                            r,
                            #[trigger] s[a][b],
                        ),
                    forall|b: int| 0 <= b < j ==> supera(s, m as nat, r, #[trigger] s[i as int][b]),
                decreases lits@.len() - j,
            {
                let x = lits[j];
                let c = conta_ocorrencias(clausulas, m, x);
                if c > melhor || (c == melhor && x < r) {
                    r = x;
                    melhor = c;
                    assert(s[i as int].contains(x)) by {
                        assert(s[i as int][j as int] == x);
                    }
                }
                j = j + 1;
            }
        }
        i = i + 1;
    }
    r
}

} // verus!
