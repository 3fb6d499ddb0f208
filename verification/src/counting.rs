//! Counting the true entries of a list of truth values.

use vstd::prelude::*;
use crate::semantics::ones;

verus! {

/// The list is sorted with `t` true entries: they fill its last `t` positions.
pub open spec fn is_sorted_with(v: Seq<bool>, t: nat) -> bool {
    forall|i: int| 0 <= i < v.len() ==> #[trigger] v[i] == (i >= v.len() - t)
}

/// No true entry stands before a false one.
pub open spec fn ascending(v: Seq<bool>) -> bool {
    forall|i: int, j: int| 0 <= i < j < v.len() && #[trigger] v[i] ==> #[trigger] v[j]
}

pub proof fn lemma_ones_bound(v: Seq<bool>)
    ensures
        ones(v) <= v.len(),
    decreases v.len(),
{
    if v.len() > 0 {
        lemma_ones_bound(v.drop_last());
    }
}

pub proof fn lemma_ones_concat(x: Seq<bool>, y: Seq<bool>)
    ensures
        ones(x + y) == ones(x) + ones(y),
    decreases y.len(),
{
    if y.len() == 0 {
        assert(x + y =~= x);
    } else {
        assert((x + y).drop_last() =~= x + y.drop_last());
        assert((x + y).last() == y.last());
        lemma_ones_concat(x, y.drop_last());
    }
}

/// The count is zero exactly when no entry is true.
pub proof fn lemma_ones_none(v: Seq<bool>)
    ensures
        ones(v) == 0 <==> (forall|i: int| 0 <= i < v.len() ==> !#[trigger] v[i]),
    decreases v.len(),
{
    if v.len() > 0 {
        let w = v.drop_last();
        lemma_ones_none(w);
        if ones(v) == 0 {
            assert forall|i: int| 0 <= i < v.len() implies !#[trigger] v[i] by {
                if i < w.len() {
                    assert(w[i] == v[i]);
                }
            }
        }
        if forall|i: int| 0 <= i < v.len() ==> !#[trigger] v[i] {
            assert forall|i: int| 0 <= i < w.len() implies !#[trigger] w[i] by {
                assert(w[i] == v[i]);
            }
            assert(!v[v.len() - 1]);
        }
    }
}

/// The count is the length exactly when every entry is true.
pub proof fn lemma_ones_all(v: Seq<bool>)
    ensures
        ones(v) == v.len() <==> (forall|i: int| 0 <= i < v.len() ==> #[trigger] v[i]),
    decreases v.len(),
{
    if v.len() > 0 {
        let w = v.drop_last();
        lemma_ones_all(w);
        lemma_ones_bound(w);
        if ones(v) == v.len() {
            assert forall|i: int| 0 <= i < v.len() implies #[trigger] v[i] by {
                if i < w.len() {
                    assert(w[i] == v[i]);
                }
            }
        }
        if forall|i: int| 0 <= i < v.len() ==> #[trigger] v[i] {
            assert forall|i: int| 0 <= i < w.len() implies #[trigger] w[i] by {
                assert(w[i] == v[i]);
            }
            assert(v[v.len() - 1]);
        }
    }
}

/// The count is at most one exactly when no two entries are true together.
pub proof fn lemma_ones_pairs(v: Seq<bool>)
    ensures
        ones(v) <= 1 <==> (forall|i: int, j: int|
            0 <= i < j < v.len() ==> !(#[trigger] v[i] && #[trigger] v[j])),
    decreases v.len(),
{
    if v.len() > 0 {
        let w = v.drop_last();
        let last = v.len() - 1;
        lemma_ones_pairs(w);
        lemma_ones_none(w);
        if ones(v) <= 1 {
            assert forall|i: int, j: int| 0 <= i < j < v.len() implies !(#[trigger] v[i]
                && #[trigger] v[j]) by {
                if j < last {
                    assert(w[i] == v[i] && w[j] == v[j]);
                } else if v[j] {
                    assert(ones(w) == 0);
                    assert(w[i] == v[i]);
                }
            }
        }
        if forall|i: int, j: int| 0 <= i < j < v.len() ==> !(#[trigger] v[i] && #[trigger] v[j]) {
            assert forall|i: int, j: int| 0 <= i < j < w.len() implies !(#[trigger] w[i]
                && #[trigger] w[j]) by {
                assert(w[i] == v[i] && w[j] == v[j]);
            }
            if v[last] {
                assert forall|i: int| 0 <= i < w.len() implies !#[trigger] w[i] by {
                    assert(w[i] == v[i]);
                    assert(!(v[i] && v[last]));
                }
            }
        }
    }
}

/// Replacing one entry changes the count by the difference of the two values.
pub proof fn lemma_ones_update(v: Seq<bool>, i: int, b: bool)
    requires
        0 <= i < v.len(),
    ensures
        ones(v.update(i, b)) + (if v[i] { 1nat } else { 0nat }) == ones(v) + (if b { 1nat } else { 0nat }),
    decreases v.len(),
{
    let u = v.update(i, b);
    if i == v.len() - 1 {
        assert(u.drop_last() =~= v.drop_last());
    } else {
        assert(u.drop_last() =~= v.drop_last().update(i, b));
        lemma_ones_update(v.drop_last(), i, b);
    }
}

/// A list that is sorted with `t` true entries has `t` true entries.
pub proof fn lemma_sorted_ones(v: Seq<bool>, t: nat)
    requires
        t <= v.len(),
        is_sorted_with(v, t),
    ensures
        ones(v) == t,
    decreases v.len(),
{
    if v.len() > 0 {
        let w = v.drop_last();
        assert(v.last() == v[v.len() - 1]);
        if t == 0 {
            assert forall|i: int| 0 <= i < w.len() implies #[trigger] w[i] == (i >= w.len() - 0) by {
                assert(w[i] == v[i]);
            }
            lemma_sorted_ones(w, 0);
        } else {
            let s = (t - 1) as nat;
            assert forall|i: int| 0 <= i < w.len() implies #[trigger] w[i] == (i >= w.len() - s) by {
                assert(w[i] == v[i]);
            }
            lemma_sorted_ones(w, s);
        }
    }
}

/// An ascending list is sorted with as many true entries as it has.
pub proof fn lemma_ascending_sorted(v: Seq<bool>)
    requires
        ascending(v),
    ensures
        is_sorted_with(v, ones(v)),
        ones(v) <= v.len(),
    decreases v.len(),
{
    lemma_ones_bound(v);
    if v.len() > 0 {
        let w = v.drop_last();
        let last = v.len() - 1;
        assert forall|i: int, j: int| 0 <= i < j < w.len() && #[trigger] w[i] implies #[trigger] w[j] by {
            assert(w[i] == v[i] && w[j] == v[j]);
        }
        lemma_ascending_sorted(w);
        if v[last] {
            assert forall|i: int| 0 <= i < v.len() implies #[trigger] v[i] == (i >= v.len() - ones(v)) by {
                if i < last {
                    assert(w[i] == v[i]);
                }
            }
        } else {
            assert forall|i: int| 0 <= i < w.len() implies !#[trigger] w[i] by {
                assert(w[i] == v[i]);
                if v[i] {
                    assert(v[last]);
                }
            }
            lemma_ones_none(w);
        }
    }
}

} // verus!
