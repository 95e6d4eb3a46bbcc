use vstd::prelude::*;

verus! {

/// The atom that a literal speaks of: its magnitude.
pub open spec fn atomo(l: i32) -> int {
    if l < 0 {
        -l
    } else {
        l as int
    }
}

/// The literal of opposite polarity on the same atom.
pub open spec fn oposto(l: i32) -> i32 {
    (-l) as i32
}

/// A literal that may stand in a clause over atoms `1..=n`.
pub open spec fn literal_valido(l: i32, n: nat) -> bool {
    l != 0 && l != i32::MIN && atomo(l) <= n
}

/// A clause over atoms `1..=n`: a set of literals, held without repetition.
pub open spec fn clausula_valida(c: Seq<i32>, n: nat) -> bool {
    &&& c.no_duplicates()
    &&& forall|j: int| 0 <= j < c.len() ==> literal_valido(#[trigger] c[j], n)
}

/// Every clause of a store is valid over atoms `1..=n`.
pub open spec fn clausulas_validas(s: Seq<Seq<i32>>, n: nat) -> bool {
    forall|i: int| 0 <= i < s.len() ==> clausula_valida(#[trigger] s[i], n)
}

/// A total truth assignment makes a literal true.
pub open spec fn literal_verdadeiro(l: i32, sigma: spec_fn(int) -> bool) -> bool {
    sigma(atomo(l)) == (l > 0)
}

/// A total truth assignment makes some literal of the clause true.
pub open spec fn clausula_satisfeita(c: Seq<i32>, sigma: spec_fn(int) -> bool) -> bool {
    exists|j: int| 0 <= j < c.len() && #[trigger] literal_verdadeiro(c[j], sigma)
}

/// A total truth assignment satisfies every clause of a store.
pub open spec fn satisfaz(s: Seq<Seq<i32>>, sigma: spec_fn(int) -> bool) -> bool {
    forall|i: int| 0 <= i < s.len() ==> clausula_satisfeita(#[trigger] s[i], sigma)
}

/// Some total truth assignment satisfies the store.
pub open spec fn satisfazivel(s: Seq<Seq<i32>>) -> bool {
    exists|sigma: spec_fn(int) -> bool| satisfaz(s, sigma)
}

/// The valuation assigns the literal's atom the value that makes it true.
pub open spec fn verdadeiro_em(l: i32, v: Seq<Option<bool>>) -> bool {
    v[atomo(l) - 1] == Some(l > 0)
}

/// The total assignment that a valuation stands for: an atom it leaves
/// unassigned counts as true.
pub open spec fn completa(v: Seq<Option<bool>>) -> spec_fn(int) -> bool {
    |a: int| v[a - 1] != Some(false)
}

/// A clause: a set of signed literals, held without repetition in the order
/// of first appearance.
pub struct Clausula {
    literais: Vec<i32>,
}

impl View for Clausula {
    type V = Seq<i32>;

    closed spec fn view(&self) -> Seq<i32> {
        self.literais@
    }
}

/// The literals of a store, clause by clause.
pub open spec fn visao(s: Seq<Clausula>) -> Seq<Seq<i32>> {
    s.map_values(|c: Clausula| c@)
}

/// The literals of `c` with repetitions dropped, each kept at its first place.
pub open spec fn sem_repeticoes(c: Seq<i32>) -> Seq<i32>
    decreases c.len(),
{
    if c.len() == 0 {
        c
    } else {
        let r = sem_repeticoes(c.drop_last());
        if r.contains(c.last()) {
            r
        } else {
            r.push(c.last())
        }
    }
}

/// The literals of `c` other than `x`, in their order.
pub open spec fn sem_literal(c: Seq<i32>, x: i32) -> Seq<i32>
    decreases c.len(),
{
    if c.len() == 0 {
        c
    } else {
        let r = sem_literal(c.drop_last(), x);
        if c.last() == x {
            r
        } else {
            r.push(c.last())
        }
    }
}

/// What `sem_repeticoes` keeps: the same literals, once each.
pub proof fn lemma_sem_repeticoes(c: Seq<i32>)
    ensures
        sem_repeticoes(c).no_duplicates(),
        forall|x: i32| #[trigger] sem_repeticoes(c).contains(x) <==> c.contains(x),
    decreases c.len(),
{
    if c.len() > 0 {
        let p = c.drop_last();
        lemma_sem_repeticoes(p);
        assert forall|x: i32| c.contains(x) <==> (p.contains(x) || x == c.last()) by {
            if c.contains(x) {
                let j = choose|j: int| 0 <= j < c.len() && c[j] == x;
                if j < c.len() - 1 {
                    assert(p[j] == x);
                }
            }
            if p.contains(x) {
                let j = choose|j: int| 0 <= j < p.len() && p[j] == x;
                assert(c[j] == x);
            }
            if x == c.last() {
                assert(c[c.len() - 1] == x);
            }
        }
        let r = sem_repeticoes(p);
        if !r.contains(c.last()) {
            let q = r.push(c.last());
            assert forall|x: i32| q.contains(x) <==> (r.contains(x) || x == c.last()) by {
                if q.contains(x) {
                    let j = choose|j: int| 0 <= j < q.len() && q[j] == x;
                    if j < r.len() {
                        assert(r[j] == x);
                    }
                }
                if r.contains(x) {
                    let j = choose|j: int| 0 <= j < r.len() && r[j] == x;
                    assert(q[j] == x);
                }
                if x == c.last() {
                    assert(q[r.len() as int] == x);
                }
            }
            assert forall|a: int, b: int| 0 <= a < q.len() && 0 <= b < q.len() && a != b implies q[a]
                != q[b] by {
                if a == r.len() {
                    assert(r[b] == q[b]);
                } else if b == r.len() {
                    assert(r[a] == q[a]);
                }
            }
        }
    }
}

/// What `sem_literal` keeps: the literals of `c` but `x`, never more of them.
pub proof fn lemma_sem_literal(c: Seq<i32>, x: i32)
    ensures
        forall|y: i32| #[trigger] sem_literal(c, x).contains(y) <==> (c.contains(y) && y != x),
        sem_literal(c, x).len() <= c.len(),
        c.no_duplicates() ==> sem_literal(c, x).no_duplicates(),
    decreases c.len(),
{
    if c.len() > 0 {
        let p = c.drop_last();
        lemma_sem_literal(p, x);
        let r = sem_literal(p, x);
        assert forall|y: i32| c.contains(y) <==> (p.contains(y) || y == c.last()) by {
            if c.contains(y) {
                let j = choose|j: int| 0 <= j < c.len() && c[j] == y;
                if j < c.len() - 1 {
                    assert(p[j] == y);
                }
            }
            if p.contains(y) {
                let j = choose|j: int| 0 <= j < p.len() && p[j] == y;
                assert(c[j] == y);
            }
            if y == c.last() {
                assert(c[c.len() - 1] == y);
            }
        }
        if c.no_duplicates() {
            assert(p.no_duplicates());
            assert(!p.contains(c.last())) by {
                if p.contains(c.last()) {
                    let j = choose|j: int| 0 <= j < p.len() && p[j] == c.last();
                    assert(c[j] == c[c.len() - 1]);
                }
            }
        }
        if c.last() != x {
            let q = r.push(c.last());
            assert forall|y: i32| q.contains(y) <==> (r.contains(y) || y == c.last()) by {
                if q.contains(y) {
                    let j = choose|j: int| 0 <= j < q.len() && q[j] == y;
                    if j < r.len() {
                        assert(r[j] == y);
                    }
                }
                if r.contains(y) {
                    let j = choose|j: int| 0 <= j < r.len() && r[j] == y;
                    assert(q[j] == y);
                }
                if y == c.last() {
                    assert(q[r.len() as int] == y);
                }
            }
            if c.no_duplicates() {
                assert forall|a: int, b: int|
                    0 <= a < q.len() && 0 <= b < q.len() && a != b implies q[a] != q[b] by {
                    if a == r.len() {
                        assert(r.contains(q[b]));
                    } else if b == r.len() {
                        assert(r.contains(q[a]));
                    }
                }
            }
        }
    }
}

impl Clausula {
    /// The clause of the given literals, repetitions collapsed.
    pub fn nova(literais: Vec<i32>) -> (r: Clausula)
        ensures
            r@ == sem_repeticoes(literais@),
    {
        let mut v: Vec<i32> = Vec::new();
        let mut i: usize = 0;
        while i < literais.len()
            invariant
                i <= literais.len(),
                v@ == sem_repeticoes(literais@.subrange(0, i as int)),
            decreases literais.len() - i,
        {
            let x = literais[i];
            let mut achou = false;
            let mut k: usize = 0;
            while k < v.len()
                invariant
                    k <= v.len(),
                    achou == v@.subrange(0, k as int).contains(x),
                decreases v.len() - k,
            {
                if v[k] == x {
                    achou = true;
                }
                proof {
                    let a = v@.subrange(0, k as int);
                    let b = v@.subrange(0, k + 1);
                    assert(b[k as int] == v[k as int]);
                    if a.contains(x) {
                        let j = choose|j: int| 0 <= j < a.len() && a[j] == x;
                        assert(b[j] == x);
                    }
                    if b.contains(x) && v[k as int] != x {
                        let j = choose|j: int| 0 <= j < b.len() && b[j] == x;
                        assert(a[j] == x);
                    }
                }
                k = k + 1;
            }
            assert(v@.subrange(0, v.len() as int) == v@);
            assert(literais@.subrange(0, i + 1).drop_last() == literais@.subrange(0, i as int));
            if !achou {
                v.push(x);
            }
            i = i + 1;
        }
        assert(literais@.subrange(0, literais.len() as int) == literais@);
        Clausula { literais: v }
    }

    /// The unit clause `{l}`.
    pub fn unitaria(l: i32) -> (r: Clausula)
        ensures
            r@ == seq![l],
    {
        let mut v: Vec<i32> = Vec::new();
        v.push(l);
        assert(v@ == seq![l]);
        Clausula { literais: v }
    }

    /// The literals, in order.
    pub fn literais(&self) -> (r: &Vec<i32>)
        ensures
            r@ == self@,
    {
        &self.literais
    }

    /// How many literals the clause holds.
    pub fn tamanho(&self) -> (r: usize)
        ensures
            r == self@.len(),
    {
        self.literais.len()
    }

    /// Whether the clause holds `l`.
    pub fn contem(&self, l: i32) -> (r: bool)
        ensures
            r == self@.contains(l),
    {
        let mut k: usize = 0;
        while k < self.literais.len()
            invariant
                k <= self@.len(),
                forall|j: int| 0 <= j < k ==> self@[j] != l,
            decreases self@.len() - k,
        {
            if self.literais[k] == l {
                return true;
            }
            k = k + 1;
        }
        false
    }

    /// The clause without the literal `x`.
    pub fn sem(&self, x: i32) -> (r: Clausula)
        ensures
            r@ == sem_literal(self@, x),
    {
        let mut v: Vec<i32> = Vec::new();
        let mut i: usize = 0;
        while i < self.literais.len()
            invariant
                i <= self@.len(),
                v@ == sem_literal(self@.subrange(0, i as int), x),
            decreases self@.len() - i,
        {
            assert(self@.subrange(0, i + 1).drop_last() == self@.subrange(0, i as int));
            if self.literais[i] != x {
                v.push(self.literais[i]);
            }
            i = i + 1;
        }
        assert(self@.subrange(0, self@.len() as int) == self@);
        Clausula { literais: v }
    }

    /// A copy of the clause.
    pub fn copia(&self) -> (r: Clausula)
        ensures
            r@ == self@,
    {
        Clausula { literais: self.literais.clone() }
    }
}

} // verus!
