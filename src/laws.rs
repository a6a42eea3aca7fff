//! Laws relating `build`, `query` and `apply`, stated over the values a
//! tree holds (`SegTree::values`) and the aggregates `query` returns
//! (`fold_merge` of a `window`).
use std::ops::Range;
use vstd::prelude::*;

use crate::algebra::{fold_merge, lemma_fold_single, Applier, Monoid};
use crate::tree::{apply_in, window, SegTree};

verus! {

/// `t` is what `SegTree::build(n, init)` returns.
pub open spec fn built_from<V: Monoid, M: Applier<V>, F: Fn(usize) -> V>(
    t: SegTree<V, M>,
    n: usize,
    init: F,
) -> bool {
    &&& t.wf()
    &&& t.spec_size() == n
    &&& t.values().len() == n
    &&& forall|i: int| 0 <= i < n ==> init.ensures((i as usize,), #[trigger] t.values()[i])
}

/// Querying `0..n` on a tree built from `init` folds `merge` over
/// `init(0), ..., init(n - 1)`, starting from `empty()`.
pub proof fn lemma_build_query_whole<V: Monoid, M: Applier<V>, F: Fn(usize) -> V>(
    t: SegTree<V, M>,
    n: usize,
    init: F,
    expected: Seq<V>,
)
    requires
        built_from(t, n, init),
        forall|i: usize, a: V, b: V|
            init.ensures((i,), a) && init.ensures((i,), b) ==> a == b,
        expected.len() == n,
        forall|i: int| 0 <= i < n ==> init.ensures((i as usize,), #[trigger] expected[i]),
    ensures
        fold_merge(window(t.values(), 0..n)) == fold_merge(expected),
{
    assert forall|i: int| 0 <= i < n implies t.values()[i] == expected[i] by {
        assert(init.ensures((i as usize,), t.values()[i]));
        assert(init.ensures((i as usize,), expected[i]));
    }
    assert(window(t.values(), 0..n) =~= expected);
}

/// Before any apply, querying the single position `i` of a tree built from
/// `init` gives a value that `init(i)` returns.
pub proof fn lemma_build_query_one<V: Monoid, M: Applier<V>, F: Fn(usize) -> V>(
    t: SegTree<V, M>,
    n: usize,
    init: F,
    i: usize,
)
    requires
        built_from(t, n, init),
        i < n,
    ensures
        init.ensures((i,), fold_merge(window(t.values(), i..(i + 1) as usize))),
{
    let v = t.values()[i as int];
    assert(window(t.values(), i..(i + 1) as usize) =~= seq![v]);
    lemma_fold_single(v);
}

/// The modifier acting at position `i` after applying `m1` over `r1` and
/// then `m2` over `r2`: the later one composed after the earlier one.
pub open spec fn modifier_at<V: Monoid, M: Applier<V>>(
    i: int,
    r1: Range<usize>,
    m1: M,
    r2: Range<usize>,
    m2: M,
) -> M {
    let in1 = r1.start <= i < r1.end;
    let in2 = r2.start <= i < r2.end;
    if in1 && in2 {
        m2.spec_merge(m1)
    } else if in1 {
        m1
    } else if in2 {
        m2
    } else {
        M::spec_empty()
    }
}

/// Applying `m1` over `r1` and then `m2` over `r2` gives the tree whose
/// every position holds its original value acted on by the modifiers whose
/// ranges cover it, composed in the order applied; so every query on it
/// equals the fold of those values.
pub proof fn lemma_two_applies<V: Monoid, M: Applier<V>>(
    t0: SegTree<V, M>,
    t1: SegTree<V, M>,
    t2: SegTree<V, M>,
    r1: Range<usize>,
    m1: M,
    r2: Range<usize>,
    m2: M,
    q: Range<usize>,
)
    requires
        t0.wf(),
        t1.values() == apply_in(t0.values(), r1, m1),
        t2.values() == apply_in(t1.values(), r2, m2),
    ensures
        fold_merge(window(t2.values(), q)) == fold_merge(
            window(
                Seq::new(
                    t0.values().len(),
                    |i: int| modifier_at(i, r1, m1, r2, m2).spec_apply(t0.values()[i]),
                ),
                q,
            ),
        ),
{
    let s = t0.values();
    let expected = Seq::new(
        s.len(),
        |i: int| modifier_at(i, r1, m1, r2, m2).spec_apply(s[i]),
    );
    assert forall|i: int| 0 <= i < s.len() implies t2.values()[i] == expected[i] by {
        M::lemma_apply_composes(m2, m1, s[i]);
        M::lemma_apply_empty(s[i]);
    }
    assert(t2.values() =~= expected);
}

/// Applying `empty()` over any range leaves every position, and so every
/// query, as it was.
pub proof fn lemma_apply_empty_changes_nothing<V: Monoid, M: Applier<V>>(
    t: SegTree<V, M>,
    range: Range<usize>,
    q: Range<usize>,
)
    requires
        t.wf(),
    ensures
        apply_in(t.values(), range, M::spec_empty()) == t.values(),
        fold_merge(window(apply_in(t.values(), range, M::spec_empty()), q)) == fold_merge(
            window(t.values(), q),
        ),
{
    assert forall|i: int| 0 <= i < t.values().len() implies apply_in(
        t.values(),
        range,
        M::spec_empty(),
    )[i] == t.values()[i] by {
        M::lemma_apply_empty(t.values()[i]);
    }
    assert(apply_in(t.values(), range, M::spec_empty()) =~= t.values());
}

/// A query over an empty, inverted or out-of-bounds range gives `empty()`.
pub proof fn lemma_query_outside<V: Monoid, M: Applier<V>>(t: SegTree<V, M>, q: Range<usize>)
    requires
        t.wf(),
        q.start >= q.end || q.start >= t.spec_size(),
    ensures
        fold_merge(window(t.values(), q)) == V::spec_empty(),
{
    t.lemma_values_len();
    assert(window(t.values(), q) =~= Seq::<V>::empty());
}

/// A tree built over no positions has size 0, and every query on it gives
/// `empty()`.
pub proof fn lemma_build_empty<V: Monoid, M: Applier<V>, F: Fn(usize) -> V>(
    t: SegTree<V, M>,
    init: F,
    q: Range<usize>,
)
    requires
        built_from(t, 0, init),
    ensures
        t.spec_size() == 0,
        fold_merge(window(t.values(), q)) == V::spec_empty(),
{
    assert(window(t.values(), q) =~= Seq::<V>::empty());
}

} // verus!
