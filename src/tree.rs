//! The persistent segment tree: build, range query and lazy range apply.
use std::ops::Range;
use std::rc::Rc;
use vstd::prelude::*;

use crate::algebra::{
    apply_each, fold_merge, lemma_apply_each_composes, lemma_apply_each_empty,
    lemma_fold_append, lemma_fold_apply_each, lemma_fold_single, Applier, Monoid, Semigroup,
};

verus! {

/// A node of the tree. Every node reads its own positions as `0..size()`.
/// A `Branch` splits them at `size / 2`; its `value` is the aggregate of
/// its positions with `modifier` already applied, and `modifier` is still
/// owed to both children. Children are shared between versions.
#[derive(Debug)]
pub enum SegTree<V, M> {
    Empty,
    Unit(V),
    Branch { size: usize, modifier: M, value: V, left: Rc<SegTree<V, M>>, right: Rc<SegTree<V, M>> },
}

/// `clone` on `T` returns a value equal to its argument.
pub open spec fn clone_is_exact<T: Clone>() -> bool {
    forall|a: T, b: T| #[trigger] call_ensures(T::clone, (&a,), b) ==> a == b
}

/// The values of `s` at the positions of `range` that lie in `0..s.len()`;
/// empty where `range` is empty, inverted or out of bounds.
pub open spec fn window<T>(s: Seq<T>, range: Range<usize>) -> Seq<T> {
    let lo = if range.start < s.len() { range.start as int } else { s.len() as int };
    let hi = if range.end < s.len() { range.end as int } else { s.len() as int };
    if lo < hi { s.subrange(lo, hi) } else { Seq::empty() }
}

/// `s` with `m` applied at each position of `range`.
pub open spec fn apply_in<V: Semigroup, M: Applier<V>>(s: Seq<V>, range: Range<usize>, m: M) -> Seq<V> {
    Seq::new(
        s.len(),
        |i: int|
            if range.start <= i < range.end {
                m.spec_apply(s[i])
            } else {
                s[i]
            },
    )
}

impl<V, M> SegTree<V, M> {
    /// The number of positions the node covers.
    pub open spec fn spec_size(&self) -> nat {
        match self {
            SegTree::Empty => 0,
            SegTree::Unit(_) => 1,
            SegTree::Branch { size, .. } => *size as nat,
        }
    }

    pub fn size(&self) -> (r: usize)
        ensures
            r == self.spec_size(),
    {
        match self {
            SegTree::Empty => 0,
            SegTree::Unit(_) => 1,
            SegTree::Branch { size, .. } => *size,
        }
    }
}

impl<V: Monoid, M: Applier<V>> SegTree<V, M> {
    /// The values at the node's positions, with every pending modifier
    /// applied.
    pub open spec fn values(&self) -> Seq<V>
        decreases self,
    {
        match self {
            SegTree::Empty => Seq::empty(),
            SegTree::Unit(v) => seq![*v],
            SegTree::Branch { modifier, left, right, .. } => apply_each(
                *modifier,
                left.values() + right.values(),
            ),
        }
    }

    /// Sizes add up, each branch splits at its midpoint, and each branch's
    /// stored aggregate is the fold of its values.
    pub open spec fn wf(&self) -> bool
        decreases self,
    {
        match self {
            SegTree::Empty => true,
            SegTree::Unit(_) => true,
            SegTree::Branch { size, value, left, right, .. } => {
                &&& *size >= 2
                &&& left.spec_size() == *size / 2
                &&& right.spec_size() == *size - *size / 2
                &&& left.wf()
                &&& right.wf()
                &&& *value == fold_merge(self.values())
            },
        }
    }

    /// Every branch of the node has the identity as its pending modifier,
    /// as a freshly built tree does.
    pub open spec fn fresh(&self) -> bool
        decreases self,
    {
        match self {
            SegTree::Empty => true,
            SegTree::Unit(_) => true,
            SegTree::Branch { modifier, left, right, .. } => {
                &&& *modifier == M::spec_empty()
                &&& left.fresh()
                &&& right.fresh()
            },
        }
    }

    /// A well-formed branch with the identity as pending modifier stores the
    /// merge of its two children's aggregates.
    pub proof fn lemma_fresh_branch_value(&self)
        requires
            self.wf(),
            self matches SegTree::Branch { modifier, .. } && modifier == M::spec_empty(),
        ensures
            (self matches SegTree::Branch { value, left, right, .. } && value == fold_merge(
                left.values(),
            ).spec_merge(fold_merge(right.values()))),
    {
        if let SegTree::Branch { left, right, .. } = self {
            lemma_apply_each_empty::<V, M>(left.values() + right.values());
            lemma_fold_append(left.values(), right.values());
        }
    }

    /// A well-formed node has as many values as it has positions.
    pub proof fn lemma_values_len(&self)
        requires
            self.wf(),
        ensures
            self.values().len() == self.spec_size(),
        decreases self,
    {
        if let SegTree::Branch { left, right, .. } = self {
            left.lemma_values_len();
            right.lemma_values_len();
        }
    }
}

impl<V: Monoid + Clone, M: Applier<V> + Clone> SegTree<V, M> {
    /// The aggregate of the whole node.
    fn all(&self) -> (r: V)
        requires
            self.wf(),
            clone_is_exact::<V>(),
        ensures
            r == fold_merge(self.values()),
    {
        match self {
            SegTree::Empty => {
                assert(self.values() =~= Seq::<V>::empty());
                assert(fold_merge(Seq::<V>::empty()) == V::spec_empty());
                V::empty()
            },
            SegTree::Unit(v) => {
                proof {
                    assert(self.values() =~= seq![*v]);
                    lemma_fold_single(*v);
                }
                v.clone()
            },
            SegTree::Branch { value, .. } => value.clone(),
        }
    }

    /// The node with `m` applied to all of its positions, without
    /// descending: `m` is composed into a branch's pending modifier.
    fn apply_all(&self, m: M) -> (r: Self)
        requires
            self.wf(),
            clone_is_exact::<V>(),
            clone_is_exact::<M>(),
        ensures
            r.wf(),
            r.spec_size() == self.spec_size(),
            r.values() == apply_each(m, self.values()),
    {
        match self {
            SegTree::Empty => {
                assert(apply_each(m, self.values()) =~= Seq::<V>::empty());
                SegTree::Empty
            },
            SegTree::Unit(v) => {
                let r = SegTree::Unit(m.apply(v.clone()));
                assert(r.values() =~= apply_each(m, self.values()));
                r
            },
            SegTree::Branch { size, modifier, value, left, right } => {
                let r = SegTree::Branch {
                    size: *size,
                    value: m.apply(value.clone()),
                    modifier: M::merge(m, modifier.clone()),
                    left: left.clone(),
                    right: right.clone(),
                };
                proof {
                    let inner = left.values() + right.values();
                    lemma_apply_each_composes(m, *modifier, inner);
                    assert(r.values() == apply_each(m, self.values()));
                    self.lemma_values_len();
                    lemma_fold_apply_each(m, self.values());
                }
                r
            },
        }
    }

    /// The tree over positions `offset..offset + len`, position `i` holding
    /// `init(offset + i)`.
    fn build_inner<F: Fn(usize) -> V>(offset: usize, len: usize, init: &F) -> (r: Self)
        requires
            offset + len <= usize::MAX + 1,
            forall|i: usize| offset <= i < offset + len ==> #[trigger] init.requires((i,)),
            clone_is_exact::<V>(),
        ensures
            r.wf(),
            r.fresh(),
            r.spec_size() == len,
            r.values().len() == len,
            forall|i: int| 0 <= i < len ==> init.ensures(((offset + i) as usize,), #[trigger] r.values()[i]),
        decreases len,
    {
        if len == 0 {
            SegTree::Empty
        } else if len == 1 {
            SegTree::Unit(init(offset))
        } else {
            let mid = len / 2;
            let l = Self::build_inner(offset, mid, init);
            let r = Self::build_inner(offset + mid, len - mid, init);
            let value = V::merge(l.all(), r.all());
            let t = SegTree::Branch {
                size: len,
                modifier: M::empty(),
                value,
                left: Rc::new(l),
                right: Rc::new(r),
            };
            proof {
                lemma_apply_each_empty::<V, M>(l.values() + r.values());
                lemma_fold_append(l.values(), r.values());
                assert forall|i: int| 0 <= i < len implies init.ensures(
                    ((offset + i) as usize,),
                    #[trigger] t.values()[i],
                ) by {
                    if i >= mid {
                        assert(r.values()[i - mid] == t.values()[i]);
                        assert(((offset + mid) + (i - mid)) as usize == (offset + i) as usize);
                    }
                }
            }
            t
        }
    }

    /// The tree over positions `0..len`, position `i` holding `init(i)`.
    pub fn build<F: Fn(usize) -> V>(len: usize, init: F) -> (r: Self)
        requires
            forall|i: usize| i < len ==> #[trigger] init.requires((i,)),
            clone_is_exact::<V>(),
        ensures
            r.wf(),
            r.fresh(),
            r.spec_size() == len,
            r.values().len() == len,
            forall|i: int| 0 <= i < len ==> init.ensures((i as usize,), #[trigger] r.values()[i]),
    {
        Self::build_inner(0, len, &init)
    }

    /// The aggregate of the values at the positions of `range` that lie in
    /// `0..size()`.
    pub fn query(&self, range: Range<usize>) -> (r: V)
        requires
            self.wf(),
            clone_is_exact::<V>(),
        ensures
            r == fold_merge(window(self.values(), range)),
        decreases self.spec_size(),
    {
        proof {
            self.lemma_values_len();
        }
        match self {
            SegTree::Empty => {
                assert(window(self.values(), range) =~= Seq::<V>::empty());
                V::empty()
            },
            SegTree::Unit(v) => {
                if range.start == 0 && range.end > 0 {
                    assert(window(self.values(), range) =~= seq![*v]);
                    proof {
                        lemma_fold_single(*v);
                    }
                    v.clone()
                } else {
                    assert(window(self.values(), range) =~= Seq::<V>::empty());
                    V::empty()
                }
            },
            SegTree::Branch { size, modifier, value, left, right } => {
                if range.start == 0 && *size <= range.end {
                    assert(window(self.values(), range) =~= self.values());
                    value.clone()
                } else if range.start >= range.end || range.start >= *size {
                    assert(window(self.values(), range) =~= Seq::<V>::empty());
                    V::empty()
                } else {
                    let mid = *size / 2;
                    let ghost ls = left.values();
                    let ghost rs = right.values();
                    let ghost hi: int = if range.end < *size { range.end as int } else { *size as int };
                    proof {
                        left.lemma_values_len();
                        right.lemma_values_len();
                    }
                    let inner = if range.end <= mid {
                        let sub = range.start..range.end;
                        let q = left.query(sub);
                        assert(window(ls, sub) =~= ls.subrange(range.start as int, hi));
                        q
                    } else if mid <= range.start {
                        let sub = range.start - mid..range.end - mid;
                        let q = right.query(sub);
                        assert(window(rs, sub) =~= rs.subrange(range.start - mid, hi - mid));
                        q
                    } else {
                        let sub_l = range.start..mid;
                        let sub_r = 0..range.end - mid;
                        let ql = left.query(sub_l);
                        let qr = right.query(sub_r);
                        assert(window(ls, sub_l) =~= ls.subrange(range.start as int, mid as int));
                        assert(window(rs, sub_r) =~= rs.subrange(0, hi - mid));
                        proof {
                            lemma_fold_append(window(ls, sub_l), window(rs, sub_r));
                        }
                        V::merge(ql, qr)
                    };
                    let ghost part = (ls + rs).subrange(range.start as int, hi);
                    assert(window(self.values(), range) =~= apply_each(*modifier, part));
                    if range.end <= mid {
                        assert(part =~= ls.subrange(range.start as int, hi));
                    } else if mid <= range.start {
                        assert(part =~= rs.subrange(range.start - mid, hi - mid));
                    } else {
                        assert(part =~= ls.subrange(range.start as int, mid as int) + rs.subrange(0, hi - mid));
                    }
                    proof {
                        lemma_fold_apply_each(*modifier, part);
                    }
                    modifier.apply(inner)
                }
            },
        }
    }

    /// A new version of the tree with `m` applied at the positions of
    /// `range` that lie in `0..size()`. Subtrees that `range` does not reach
    /// are shared with `self`, which stays as it was.
    pub fn apply(&self, range: Range<usize>, m: M) -> (r: Self)
        requires
            self.wf(),
            clone_is_exact::<V>(),
            clone_is_exact::<M>(),
        ensures
            r.wf(),
            r.spec_size() == self.spec_size(),
            r.values() == apply_in(self.values(), range, m),
            self.spec_size() >= 2 && !(range.start == 0 && self.spec_size() <= range.end) ==> (
            r matches SegTree::Branch { modifier, .. } && modifier == M::spec_empty()),
        decreases self.spec_size(),
    {
        match self {
            SegTree::Empty => {
                assert(apply_in(self.values(), range, m) =~= self.values());
                SegTree::Empty
            },
            SegTree::Unit(v) => {
                if range.start == 0 && range.end > 0 {
                    let r = SegTree::Unit(m.apply(v.clone()));
                    assert(r.values() =~= apply_in(self.values(), range, m));
                    r
                } else {
                    let r = SegTree::Unit(v.clone());
                    assert(r.values() =~= apply_in(self.values(), range, m));
                    r
                }
            },
            SegTree::Branch { size, modifier, value, left, right } => {
                proof {
                    self.lemma_values_len();
                }
                if range.start == 0 && *size <= range.end {
                    let r = SegTree::Branch {
                        size: *size,
                        value: m.apply(value.clone()),
                        modifier: M::merge(m, modifier.clone()),
                        left: left.clone(),
                        right: right.clone(),
                    };
                    proof {
                        lemma_apply_each_composes(m, *modifier, left.values() + right.values());
                        lemma_fold_apply_each(m, self.values());
                        assert(apply_in(self.values(), range, m) =~= apply_each(m, self.values()));
                    }
                    r
                } else {
                    let mid = *size / 2;
                    // Push the pending modifier one level down, so that the
                    // rebuilt node can start over with none.
                    let pushed_l = left.apply_all(modifier.clone());
                    let pushed_r = right.apply_all(modifier.clone());
                    let ghost pl = pushed_l.values();
                    let ghost pr = pushed_r.values();
                    let new_left = if range.start < mid {
                        let end = if range.end < mid { range.end } else { mid };
                        pushed_l.apply(range.start..end, m.clone())
                    } else {
                        pushed_l
                    };
                    let new_right = if mid < range.end {
                        let start = if range.start > mid { range.start } else { mid };
                        pushed_r.apply(start - mid..range.end - mid, m)
                    } else {
                        pushed_r
                    };
                    let value = V::merge(new_left.all(), new_right.all());
                    proof {
                        left.lemma_values_len();
                        right.lemma_values_len();
                        pushed_l.lemma_values_len();
                        pushed_r.lemma_values_len();
                        new_left.lemma_values_len();
                        new_right.lemma_values_len();
                        let inner = new_left.values() + new_right.values();
                        lemma_apply_each_empty::<V, M>(inner);
                        lemma_fold_append(new_left.values(), new_right.values());
                        assert(self.values() =~= pl + pr);
                        assert(inner =~= apply_in(self.values(), range, m));
                    }
                    SegTree::Branch {
                        size: *size,
                        modifier: M::empty(),
                        value,
                        left: Rc::new(new_left),
                        right: Rc::new(new_right),
                    }
                }
            },
        }
    }
}

} // verus!
