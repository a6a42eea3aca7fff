//! The algebra a segment tree is built over: values that combine, with an
//! identity, and modifiers that act on values and compose.
use vstd::prelude::*;

verus! {

/// An associative combine operation.
pub trait Semigroup: Sized {
    /// What `merge` computes.
    spec fn spec_merge(self, other: Self) -> Self;

    fn merge(self, other: Self) -> (r: Self)
        ensures
            r == self.spec_merge(other),
    ;

    /// `a.merge(b.merge(c)) == a.merge(b).merge(c)`
    proof fn lemma_merge_assoc(a: Self, b: Self, c: Self)
        ensures
            a.spec_merge(b.spec_merge(c)) == a.spec_merge(b).spec_merge(c),
    ;
}

impl<A: Semigroup, B: Semigroup> Semigroup for (A, B) {
    open spec fn spec_merge(self, other: Self) -> Self {
        (self.0.spec_merge(other.0), self.1.spec_merge(other.1))
    }

    fn merge(self, other: Self) -> (r: Self) {
        let (a, b) = self;
        let (oa, ob) = other;
        (A::merge(a, oa), B::merge(b, ob))
    }

    proof fn lemma_merge_assoc(a: Self, b: Self, c: Self) {
        A::lemma_merge_assoc(a.0, b.0, c.0);
        B::lemma_merge_assoc(a.1, b.1, c.1);
    }
}

/// A semigroup with an identity element.
pub trait Monoid: Semigroup {
    /// What `empty` returns.
    spec fn spec_empty() -> Self;

    fn empty() -> (r: Self)
        ensures
            r == Self::spec_empty(),
    ;

    /// `empty().merge(a) == a.merge(empty()) == a`
    proof fn lemma_empty_identity(a: Self)
        ensures
            Self::spec_empty().spec_merge(a) == a,
            a.spec_merge(Self::spec_empty()) == a,
    ;
}

impl<A: Monoid, B: Monoid> Monoid for (A, B) {
    open spec fn spec_empty() -> Self {
        (A::spec_empty(), B::spec_empty())
    }

    fn empty() -> (r: Self) {
        (A::empty(), B::empty())
    }

    proof fn lemma_empty_identity(a: Self) {
        A::lemma_empty_identity(a.0);
        B::lemma_empty_identity(a.1);
    }
}

/// A modifier acting on values of `V`. Modifiers form a monoid of their
/// own: `empty()` changes nothing, and `new.merge(old)` acts as `old`
/// followed by `new`.
pub trait Applier<V: Semigroup>: Monoid {
    /// What `apply` computes.
    spec fn spec_apply(self, to: V) -> V;

    fn apply(&self, to: V) -> (r: V)
        ensures
            r == self.spec_apply(to),
    ;

    /// `m.apply(a.merge(b)) == m.apply(a).merge(m.apply(b))`
    proof fn lemma_apply_distributes(m: Self, a: V, b: V)
        ensures
            m.spec_apply(a.spec_merge(b)) == m.spec_apply(a).spec_merge(m.spec_apply(b)),
    ;

    /// `new.merge(old).apply(v) == new.apply(old.apply(v))`
    proof fn lemma_apply_composes(new: Self, old: Self, v: V)
        ensures
            new.spec_merge(old).spec_apply(v) == new.spec_apply(old.spec_apply(v)),
    ;

    /// `empty().apply(v) == v`
    proof fn lemma_apply_empty(v: V)
        ensures
            Self::spec_empty().spec_apply(v) == v,
    ;
}

impl<
    A: Semigroup,
    B: Semigroup,
    MA: Applier<A>,
    MB: Applier<B>,
> Applier<(A, B)> for (MA, MB) {
    open spec fn spec_apply(self, to: (A, B)) -> (A, B) {
        (self.0.spec_apply(to.0), self.1.spec_apply(to.1))
    }

    fn apply(&self, to: (A, B)) -> (r: (A, B)) {
        let (ma, mb) = self;
        let (a, b) = to;
        (ma.apply(a), mb.apply(b))
    }

    proof fn lemma_apply_distributes(m: Self, a: (A, B), b: (A, B)) {
        MA::lemma_apply_distributes(m.0, a.0, b.0);
        MB::lemma_apply_distributes(m.1, a.1, b.1);
    }

    proof fn lemma_apply_composes(new: Self, old: Self, v: (A, B)) {
        MA::lemma_apply_composes(new.0, old.0, v.0);
        MB::lemma_apply_composes(new.1, old.1, v.1);
    }

    proof fn lemma_apply_empty(v: (A, B)) {
        MA::lemma_apply_empty(v.0);
        MB::lemma_apply_empty(v.1);
    }
}

/// The left fold of `merge` over `s`, starting from `empty()`.
pub open spec fn fold_merge<V: Monoid>(s: Seq<V>) -> V
    decreases s.len(),
{
    if s.len() == 0 {
        V::spec_empty()
    } else {
        fold_merge(s.drop_last()).spec_merge(s.last())
    }
}

/// Every position of `s` acted on by `m`.
pub open spec fn apply_each<V: Semigroup, M: Applier<V>>(m: M, s: Seq<V>) -> Seq<V> {
    s.map_values(|v: V| m.spec_apply(v))
}

pub proof fn lemma_fold_single<V: Monoid>(a: V)
    ensures
        fold_merge(seq![a]) == a,
{
    assert(seq![a].drop_last() =~= Seq::<V>::empty());
    assert(fold_merge(Seq::<V>::empty()) == V::spec_empty());
    V::lemma_empty_identity(a);
}

/// Folding a concatenation merges the folds of its two parts.
pub proof fn lemma_fold_append<V: Monoid>(a: Seq<V>, b: Seq<V>)
    ensures
        fold_merge(a + b) == fold_merge(a).spec_merge(fold_merge(b)),
    decreases b.len(),
{
    if b.len() == 0 {
        assert(a + b =~= a);
        V::lemma_empty_identity(fold_merge(a));
    } else {
        assert((a + b).drop_last() =~= a + b.drop_last());
        lemma_fold_append(a, b.drop_last());
        V::lemma_merge_assoc(fold_merge(a), fold_merge(b.drop_last()), b.last());
    }
}

/// On a non-empty sequence, acting on every position and then folding is
/// the same as folding and then acting once.
pub proof fn lemma_fold_apply_each<V: Monoid, M: Applier<V>>(m: M, s: Seq<V>)
    requires
        s.len() > 0,
    ensures
        fold_merge(apply_each(m, s)) == m.spec_apply(fold_merge(s)),
    decreases s.len(),
{
    let t = apply_each(m, s);
    if s.len() == 1 {
        assert(s =~= seq![s[0]]);
        assert(t =~= seq![m.spec_apply(s[0])]);
        lemma_fold_single(s[0]);
        lemma_fold_single(m.spec_apply(s[0]));
    } else {
        assert(t.drop_last() =~= apply_each(m, s.drop_last()));
        lemma_fold_apply_each(m, s.drop_last());
        M::lemma_apply_distributes(m, fold_merge(s.drop_last()), s.last());
    }
}

/// Acting with `old` and then with `new` is acting with `new.merge(old)`.
pub proof fn lemma_apply_each_composes<V: Semigroup, M: Applier<V>>(new: M, old: M, s: Seq<V>)
    ensures
        apply_each(new, apply_each(old, s)) == apply_each(new.spec_merge(old), s),
{
    assert forall|i: int| 0 <= i < s.len() implies apply_each(new, apply_each(old, s))[i]
        == apply_each(new.spec_merge(old), s)[i] by {
        M::lemma_apply_composes(new, old, s[i]);
    }
    assert(apply_each(new, apply_each(old, s)) =~= apply_each(new.spec_merge(old), s));
}

/// Acting with `empty()` leaves every position as it was.
pub proof fn lemma_apply_each_empty<V: Semigroup, M: Applier<V>>(s: Seq<V>)
    ensures
        apply_each(M::spec_empty(), s) == s,
{
    assert forall|i: int| 0 <= i < s.len() implies apply_each(M::spec_empty(), s)[i] == s[i] by {
        M::lemma_apply_empty(s[i]);
    }
    assert(apply_each(M::spec_empty(), s) =~= s);
}

} // verus!
