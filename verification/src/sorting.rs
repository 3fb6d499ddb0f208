//! Comparator networks on truth values: what a sequence of compare-and-swap
//! steps does to a list of booleans, and why the networks used here sort.

use vstd::prelude::*;
use crate::semantics::ones;
use crate::counting::{is_sorted_with, ascending, lemma_ones_update, lemma_ones_concat,
    lemma_sorted_ones, lemma_ascending_sorted};

verus! {

/// Every step compares a lower position with a higher one inside the list.
pub open spec fn swaps_within(swaps: Seq<(usize, usize)>, len: nat) -> bool {
    forall|k: int| 0 <= k < swaps.len() ==> (#[trigger] swaps[k]).0 < swaps[k].1 < len
}

/// One compare-and-swap step: the conjunction of the two entries goes to the
/// lower position, their disjunction to the higher one.
pub open spec fn compare(v: Seq<bool>, low: int, high: int) -> Seq<bool> {
    v.update(low, v[low] && v[high]).update(high, v[low] || v[high])
}

/// The list after the first `k` steps of `swaps`.
pub open spec fn run(v: Seq<bool>, swaps: Seq<(usize, usize)>, k: nat) -> Seq<bool>
    decreases k,
{
    if k == 0 {
        v
    } else {
        compare(run(v, swaps, (k - 1) as nat), swaps[k - 1].0 as int, swaps[k - 1].1 as int)
    }
}

/// The comparator sequences for lists of two to seven entries.  Shorter lists
/// need no step.
pub open spec fn small_network(n: nat) -> Seq<(usize, usize)> {
    if n == 2 {
        seq![(0, 1)]
    } else if n == 3 {
        seq![(0, 2), (0, 1), (1, 2)]
    } else if n == 4 {
        seq![(0, 2), (1, 3), (0, 1), (2, 3), (1, 2)]
    } else if n == 5 {
        seq![(0, 3), (1, 4), (0, 2), (1, 3), (0, 1), (2, 4), (1, 2), (3, 4), (2, 3)]
    } else if n == 6 {
        seq![
            (0, 5), (1, 3), (2, 4), (1, 2), (3, 4), (0, 3),
            (2, 5), (0, 1), (2, 3), (4, 5), (1, 2), (3, 4),
        ]
    } else if n == 7 {
        seq![
            (0, 6), (2, 3), (4, 5), (0, 2), (1, 4), (3, 6), (0, 1), (2, 5),
            (3, 4), (1, 2), (4, 6), (2, 3), (4, 5), (1, 2), (3, 4), (5, 6),
        ]
    } else {
        Seq::empty()
    }
}

/// The steps that compare the positions 1 and 2, 3 and 4, and so on, in a
/// list of `len` entries whose first and last entry take no part.
pub open spec fn adjacent_swaps(len: nat) -> Seq<(usize, usize)> {
    Seq::new(
        if len >= 2 { ((len - 2) / 2) as nat } else { 0 },
        |k: int| ((2 * k + 1) as usize, (2 * k + 2) as usize),
    )
}

pub proof fn lemma_small_network_within(n: nat)
    ensures
        swaps_within(small_network(n), n),
{
}

pub proof fn lemma_adjacent_swaps_within(len: nat)
    requires
        len <= usize::MAX,
    ensures
        swaps_within(adjacent_swaps(len), len),
{
}

/// A step keeps the number of true entries.
pub proof fn lemma_compare_ones(v: Seq<bool>, low: int, high: int)
    requires
        0 <= low < high < v.len(),
    ensures
        compare(v, low, high).len() == v.len(),
        ones(compare(v, low, high)) == ones(v),
{
    let u = v.update(low, v[low] && v[high]);
    lemma_ones_update(v, low, v[low] && v[high]);
    lemma_ones_update(u, high, v[low] || v[high]);
}

/// A run of steps keeps the length and the number of true entries.
pub proof fn lemma_run_ones(v: Seq<bool>, swaps: Seq<(usize, usize)>, k: nat)
    requires
        swaps_within(swaps, v.len()),
        k <= swaps.len(),
    ensures
        run(v, swaps, k).len() == v.len(),
        ones(run(v, swaps, k)) == ones(v),
    decreases k,
{
    if k > 0 {
        lemma_run_ones(v, swaps, (k - 1) as nat);
        lemma_compare_ones(run(v, swaps, (k - 1) as nat), swaps[k - 1].0 as int, swaps[k - 1].1 as int);
    }
}

/// A list in which no true entry stands directly before a false one is
/// ascending.
pub proof fn lemma_adjacent_ascending(v: Seq<bool>)
    requires
        forall|i: int| 0 <= i < v.len() - 1 && #[trigger] v[i] ==> v[i + 1],
    ensures
        ascending(v),
{
    assert forall|i: int, j: int| 0 <= i < j < v.len() && #[trigger] v[i] implies #[trigger] v[j] by {
        lemma_reach(v, i, j);
    }
}

proof fn lemma_reach(v: Seq<bool>, i: int, j: int)
    requires
        forall|i: int| 0 <= i < v.len() - 1 && #[trigger] v[i] ==> v[i + 1],
        0 <= i <= j < v.len(),
        v[i],
    ensures
        v[j],
    decreases j - i,
{
    if i < j {
        assert(v[i + 1]);
        lemma_reach(v, i + 1, j);
    }
}

/// What step `k` of a run does, position by position.
proof fn lemma_run_step(v: Seq<bool>, swaps: Seq<(usize, usize)>, k: nat, low: int, high: int)
    requires
        1 <= k <= swaps.len(),
        swaps_within(swaps, v.len()),
        swaps[k - 1].0 == low,
        swaps[k - 1].1 == high,
    ensures
        run(v, swaps, k).len() == v.len(),
        run(v, swaps, k)[low] == (run(v, swaps, (k - 1) as nat)[low] && run(v, swaps, (k - 1) as nat)[high]),
        run(v, swaps, k)[high] == (run(v, swaps, (k - 1) as nat)[low] || run(v, swaps, (k - 1) as nat)[high]),
        forall|i: int|
            0 <= i < v.len() && i != low && i != high ==> #[trigger] run(v, swaps, k)[i] == run(
                v,
                swaps,
                (k - 1) as nat,
            )[i],
{
    lemma_run_ones(v, swaps, (k - 1) as nat);
    lemma_run_ones(v, swaps, k);
}

/// The comparator sequence for two entries sorts.
proof fn lemma_sorts_two(v: Seq<bool>)
    requires
        v.len() == 2,
    ensures
        ascending(run(v, small_network(2), 1)),
{
    reveal_with_fuel(run, 2);
}

/// The comparator sequence for three entries sorts.
proof fn lemma_sorts_three(v: Seq<bool>)
    requires
        v.len() == 3,
    ensures
        ascending(run(v, small_network(3), 3)),
{
    reveal_with_fuel(run, 4);
    let w = run(v, small_network(3), 3);
    assert(w[0] ==> w[1]);
    assert(w[1] ==> w[2]);
    lemma_adjacent_ascending(w);
}

/// The comparator sequence for four entries sorts.
proof fn lemma_sorts_four(v: Seq<bool>)
    requires
        v.len() == 4,
    ensures
        ascending(run(v, small_network(4), 5)),
{
    reveal_with_fuel(run, 6);
    let w = run(v, small_network(4), 5);
    assert(w[0] ==> w[1]);
    assert(w[1] ==> w[2]);
    assert(w[2] ==> w[3]);
    lemma_adjacent_ascending(w);
}

/// The comparator sequence for five entries sorts.
proof fn lemma_sorts_five(v: Seq<bool>)
    requires
        v.len() == 5,
    ensures
        ascending(run(v, small_network(5), 9)),
{
    let t = small_network(5);
    lemma_run_step(v, t, 1, 0, 3);
    lemma_run_step(v, t, 2, 1, 4);
    lemma_run_step(v, t, 3, 0, 2);
    lemma_run_step(v, t, 4, 1, 3);
    lemma_run_step(v, t, 5, 0, 1);
    lemma_run_step(v, t, 6, 2, 4);
    lemma_run_step(v, t, 7, 1, 2);
    lemma_run_step(v, t, 8, 3, 4);
    lemma_run_step(v, t, 9, 2, 3);
    let w = run(v, t, 9);
    assert(w[0] ==> w[1]);
    assert(w[1] ==> w[2]);
    assert(w[2] ==> w[3]);
    assert(w[3] ==> w[4]);
    lemma_adjacent_ascending(w);
}

/// The comparator sequence for six entries sorts.
proof fn lemma_sorts_six(v: Seq<bool>)
    requires
        v.len() == 6,
    ensures
        ascending(run(v, small_network(6), 12)),
{
    let t = small_network(6);
    lemma_run_step(v, t, 1, 0, 5);
    lemma_run_step(v, t, 2, 1, 3);
    lemma_run_step(v, t, 3, 2, 4);
    lemma_run_step(v, t, 4, 1, 2);
    lemma_run_step(v, t, 5, 3, 4);
    lemma_run_step(v, t, 6, 0, 3);
    lemma_run_step(v, t, 7, 2, 5);
    lemma_run_step(v, t, 8, 0, 1);
    lemma_run_step(v, t, 9, 2, 3);
    lemma_run_step(v, t, 10, 4, 5);
    lemma_run_step(v, t, 11, 1, 2);
    lemma_run_step(v, t, 12, 3, 4);
    let w = run(v, t, 12);
    assert(w[0] ==> w[1]);
    assert(w[1] ==> w[2]);
    assert(w[2] ==> w[3]);
    assert(w[3] ==> w[4]);
    assert(w[4] ==> w[5]);
    lemma_adjacent_ascending(w);
}

/// The comparator sequence for seven entries sorts.
proof fn lemma_sorts_seven(v: Seq<bool>)
    requires
        v.len() == 7,
    ensures
        ascending(run(v, small_network(7), 16)),
{
    let t = small_network(7);
    lemma_run_step(v, t, 1, 0, 6);
    lemma_run_step(v, t, 2, 2, 3);
    lemma_run_step(v, t, 3, 4, 5);
    lemma_run_step(v, t, 4, 0, 2);
    lemma_run_step(v, t, 5, 1, 4);
    lemma_run_step(v, t, 6, 3, 6);
    lemma_run_step(v, t, 7, 0, 1);
    lemma_run_step(v, t, 8, 2, 5);
    lemma_run_step(v, t, 9, 3, 4);
    lemma_run_step(v, t, 10, 1, 2);
    lemma_run_step(v, t, 11, 4, 6);
    lemma_run_step(v, t, 12, 2, 3);
    lemma_run_step(v, t, 13, 4, 5);
    lemma_run_step(v, t, 14, 1, 2);
    lemma_run_step(v, t, 15, 3, 4);
    lemma_run_step(v, t, 16, 5, 6);
    let w = run(v, t, 16);
    assert(w[0] ==> w[1]);
    assert(w[1] ==> w[2]);
    assert(w[2] ==> w[3]);
    assert(w[3] ==> w[4]);
    assert(w[4] ==> w[5]);
    assert(w[5] ==> w[6]);
    lemma_adjacent_ascending(w);
}

/// The comparator sequence for a list of fewer than eight entries sorts it:
/// the result keeps the number of true entries and holds them at its end.
pub proof fn lemma_small_network_sorts(v: Seq<bool>)
    requires
        v.len() < 8,
    ensures
        run(v, small_network(v.len()), small_network(v.len()).len()).len() == v.len(),
        is_sorted_with(run(v, small_network(v.len()), small_network(v.len()).len()), ones(v)),
{
    let n = v.len();
    let table = small_network(n);
    let w = run(v, table, table.len());
    lemma_small_network_within(n);
    lemma_run_ones(v, table, table.len());
    if n == 2 {
        lemma_sorts_two(v);
    } else if n == 3 {
        lemma_sorts_three(v);
    } else if n == 4 {
        lemma_sorts_four(v);
    } else if n == 5 {
        lemma_sorts_five(v);
    } else if n == 6 {
        lemma_sorts_six(v);
    } else if n == 7 {
        lemma_sorts_seven(v);
    }
    lemma_ascending_sorted(w);
}

/// What the adjacent steps do: after `k` of them, each of the first `k`
/// pairs holds its conjunction first and its disjunction second, and the
/// other entries are as before.
pub proof fn lemma_adjacent_run(v: Seq<bool>, k: nat)
    requires
        v.len() <= usize::MAX,
        k <= adjacent_swaps(v.len()).len(),
    ensures
        run(v, adjacent_swaps(v.len()), k) == Seq::new(
            v.len(),
            |j: int|
                if 1 <= j <= 2 * k {
                    if j % 2 == 1 {
                        v[j] && v[j + 1]
                    } else {
                        v[j - 1] || v[j]
                    }
                } else {
                    v[j]
                },
        ),
    decreases k,
{
    let swaps = adjacent_swaps(v.len());
    let target = Seq::new(
        v.len(),
        |j: int|
            if 1 <= j <= 2 * k {
                if j % 2 == 1 {
                    v[j] && v[j + 1]
                } else {
                    v[j - 1] || v[j]
                }
            } else {
                v[j]
            },
    );
    if k == 0 {
        assert(run(v, swaps, k) =~= target);
    } else {
        lemma_adjacent_run(v, (k - 1) as nat);
        let w = run(v, swaps, (k - 1) as nat);
        assert(swaps[k - 1] == ((2 * k - 1) as usize, (2 * k) as usize));
        assert(run(v, swaps, k) == compare(w, 2 * k - 1, 2 * k as int));
        assert(run(v, swaps, k) =~= target);
    }
}

/// Every other entry of a sorted list, taken from an even-length list at the
/// even or at the odd positions, is sorted again; the odd positions get the
/// larger half of the true entries.
pub proof fn lemma_every_other_sorted(v: Seq<bool>, t: nat, offset: int)
    requires
        v.len() % 2 == 0,
        t <= v.len(),
        is_sorted_with(v, t),
        offset == 0 || offset == 1,
    ensures
        is_sorted_with(Seq::new(v.len() / 2, |i: int| v[2 * i + offset]), ((t + offset) / 2) as nat),
        ones(Seq::new(v.len() / 2, |i: int| v[2 * i + offset])) == (t + offset) / 2,
{
    let half = Seq::new(v.len() / 2, |i: int| v[2 * i + offset]);
    let s = ((t + offset) / 2) as nat;
    assert forall|i: int| 0 <= i < half.len() implies #[trigger] half[i] == (i >= half.len() - s) by {
        assert(half[i] == v[2 * i + offset]);
    }
    lemma_sorted_ones(half, s);
}

/// The positions of one parity in the concatenation of two sorted lists of
/// the same even length hold as many true entries as the positions of that
/// parity in the two lists together.
pub proof fn lemma_joined_every_other(left: Seq<bool>, right: Seq<bool>, tl: nat, tr: nat, offset: int)
    requires
        left.len() == right.len(),
        left.len() % 2 == 0,
        tl <= left.len(),
        tr <= right.len(),
        is_sorted_with(left, tl),
        is_sorted_with(right, tr),
        offset == 0 || offset == 1,
    ensures
        ones(Seq::new(left.len(), |i: int| (left + right)[2 * i + offset])) == (tl + offset) / 2 + (tr
            + offset) / 2,
{
    let h = left.len();
    let joined = left + right;
    let picked = Seq::new(h, |i: int| joined[2 * i + offset]);
    let a = Seq::new(h / 2, |i: int| left[2 * i + offset]);
    let b = Seq::new(h / 2, |i: int| right[2 * i + offset]);
    assert(picked =~= a + b) by {
        assert forall|i: int| 0 <= i < h implies picked[i] == (a + b)[i] by {
            if i < h / 2 {
                assert(joined[2 * i + offset] == left[2 * i + offset]);
            } else {
                assert(joined[2 * i + offset] == right[2 * i + offset - h]);
                assert(2 * i + offset - h == 2 * (i - h / 2) + offset);
            }
        }
    }
    lemma_ones_concat(a, b);
    lemma_every_other_sorted(left, tl, offset);
    lemma_every_other_sorted(right, tr, offset);
}

/// The merge step: two sorted lists of the same even length, one for the even and
/// one for the odd positions, whose counts differ as those of the two
/// parities of two sorted halves do, give a sorted list once they are
/// interleaved and the adjacent steps have run.
pub proof fn lemma_merge_sorted(evens: Seq<bool>, odds: Seq<bool>, tl: nat, tr: nat)
    requires
        evens.len() == odds.len(),
        evens.len() % 2 == 0,
        2 * evens.len() <= usize::MAX,
        tl <= evens.len(),
        tr <= evens.len(),
        is_sorted_with(evens, tl / 2 + tr / 2),
        is_sorted_with(odds, (tl + 1) / 2 + (tr + 1) / 2),
    ensures
        ({
            let woven = Seq::new(
                2 * evens.len(),
                |j: int| if j % 2 == 0 { evens[j / 2] } else { odds[j / 2] },
            );
            let merged = run(woven, adjacent_swaps(woven.len()), adjacent_swaps(woven.len()).len());
            merged.len() == woven.len() && is_sorted_with(merged, tl + tr)
        }),
{
    let h = evens.len();
    let woven = Seq::new(2 * h, |j: int| if j % 2 == 0 { evens[j / 2] } else { odds[j / 2] });
    let steps = adjacent_swaps(woven.len());
    let merged = run(woven, steps, steps.len());
    lemma_adjacent_run(woven, steps.len());
    assert(tl == 2 * (tl / 2) + tl % 2 && (tl + 1) / 2 == tl / 2 + tl % 2);
    assert(tr == 2 * (tr / 2) + tr % 2 && (tr + 1) / 2 == tr / 2 + tr % 2);
    assert forall|j: int| 0 <= j < merged.len() implies #[trigger] merged[j] == (j >= merged.len() - (tl
        + tr)) by {
        if 1 <= j <= 2 * steps.len() {
            if j % 2 == 1 {
                let i = j / 2;
                assert(woven[j] == odds[i]);
                assert(woven[j + 1] == evens[i + 1]);
            } else {
                let i = j / 2;
                assert(woven[j - 1] == odds[i - 1]);
                assert(woven[j] == evens[i]);
            }
        } else {
            if j % 2 == 0 {
                assert(woven[j] == evens[j / 2]);
            } else {
                assert(woven[j] == odds[j / 2]);
            }
        }
    }
}

} // verus!
