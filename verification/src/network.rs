//! The sorting network: clauses that tie a list of fresh output literals to a
//! list of input literals so that, under every satisfying assignment, the
//! outputs are the inputs in sorted order, the true ones last.
//!
//! The building block is the comparator gate, which allocates two literals
//! and ties them to the conjunction and the disjunction of two given ones.
//! Lists of fewer than eight literals are sorted by a fixed sequence of gates.
//! A longer list is padded to a multiple of four with literals that are forced
//! true, its two halves
//! are sorted, then the literals at the odd and at the even positions of the
//! two sorted halves are sorted, and one pass of gates over the interleaved
//! results puts the neighbours in order.

use vstd::prelude::*;
use vstd::slice::{slice_subrange, slice_to_vec};
use varisat::CnfFormula;
use crate::lit::{Lit, in_range, MAX_VAR_COUNT};
use crate::formula::{Cnf, model, formula_clauses, formula_var_count, new_lit, add_known_clause};
use crate::semantics::{Assignment, lit_true, clause_true, satisfies, truth, ones, count_true,
    agree_below, assign, lemma_satisfies_concat, lemma_satisfies_base, lemma_agree_satisfies,
    lemma_agree_truth};
use crate::counting::{is_sorted_with, lemma_ones_bound, lemma_ones_concat, lemma_sorted_ones};
use crate::sorting::{swaps_within, compare, run, small_network, adjacent_swaps,
    lemma_small_network_within, lemma_adjacent_swaps_within, lemma_small_network_sorts,
    lemma_joined_every_other, lemma_merge_sorted};

verus! {

/// Lists shorter than this are sorted by a fixed sequence of gates.
pub const TABLE_LIMIT: usize = 8;

/// The eight clauses of a comparator gate: `low` is true exactly when `x` and
/// `y` both are, `high` exactly when one of them is.
pub open spec fn gate_clauses(x: Lit, y: Lit, low: Lit, high: Lit) -> Seq<Seq<Lit>> {
    seq![
        seq![x, y, low.negated()],
        seq![x, y, high.negated()],
        seq![x, y.negated(), low.negated()],
        seq![x, y.negated(), high],
        seq![x.negated(), y, low.negated()],
        seq![x.negated(), y, high],
        seq![x.negated(), y.negated(), low],
        seq![x.negated(), y.negated(), high],
    ]
}

/// The formula after a gate on `x` and `y`, and the two outputs: the next two
/// variables of `f`, the conjunction first.
pub open spec fn with_gate(f: Cnf, x: Lit, y: Lit) -> (Cnf, Lit, Lit) {
    let low = Lit::of_var(f.var_count);
    let high = Lit::of_var(f.var_count + 1);
    (f.with_vars(2).with_clauses(gate_clauses(x, y, low, high)), low, high)
}

/// The formula and the list after the first `k` steps of `swaps`: each step
/// puts a gate on the literals at its two positions and replaces them by its
/// two outputs.
pub open spec fn swapped(f: Cnf, lits: Seq<Lit>, swaps: Seq<(usize, usize)>, k: nat) -> (Cnf, Seq<Lit>)
    decreases k,
{
    if k == 0 {
        (f, lits)
    } else {
        let (g, cur) = swapped(f, lits, swaps, (k - 1) as nat);
        let low = swaps[k - 1].0 as int;
        let high = swaps[k - 1].1 as int;
        let gate = with_gate(g, cur[low], cur[high]);
        (gate.0, cur.update(low, gate.1).update(high, gate.2))
    }
}

/// The positive literals of `count` variables from `first` on.
pub open spec fn fresh_lits(first: nat, count: nat) -> Seq<Lit> {
    Seq::new(count, |k: int| Lit::of_var((first + k) as nat))
}

/// One clause for each literal, holding nothing but that literal.
pub open spec fn unit_clauses(lits: Seq<Lit>) -> Seq<Seq<Lit>> {
    Seq::new(lits.len(), |k: int| seq![lits[k]])
}

/// The `count` literals at the positions `offset`, `offset + 2`, and so on.
pub open spec fn every_other(lits: Seq<Lit>, offset: int, count: nat) -> Seq<Lit> {
    Seq::new(count, |i: int| lits[2 * i + offset])
}

/// The two lists in turn: `evens` at the even positions, `odds` at the odd ones.
pub open spec fn interleaved(evens: Seq<Lit>, odds: Seq<Lit>) -> Seq<Lit> {
    Seq::new(2 * evens.len(), |j: int| if j % 2 == 0 { evens[j / 2] } else { odds[j / 2] })
}

/// The number of literals that pad a list of `n` literals: as many as bring
/// its length to the next multiple of four, so that the two halves of the
/// padded list, and the halves of those, split evenly.
pub open spec fn padding(n: nat) -> nat {
    (2 * half_padded(n) - n) as nat
}

/// Half the length of a padded list of `n` literals: an even number, twice
/// the quarter of `n`, rounded up.
pub open spec fn half_padded(n: nat) -> nat {
    2 * ((n + 3) / 4)
}

/// The lists and formulas that the construction for eight or more literals
/// goes through, in the order in which it makes them.
pub struct Stages {
    /// The inputs, followed by the padding literals.
    pub padded: Seq<Lit>,
    /// The formula with the padding variables and their unit clauses.
    pub with_padding: Cnf,
    /// The sorted second half of `padded`.
    pub right: Seq<Lit>,
    pub with_right: Cnf,
    /// The sorted first half of `padded`.
    pub left: Seq<Lit>,
    pub with_left: Cnf,
    /// The sorted odd positions of `left` followed by `right`.
    pub odds: Seq<Lit>,
    pub with_odds: Cnf,
    /// The sorted even positions of `left` followed by `right`.
    pub evens: Seq<Lit>,
    pub with_evens: Cnf,
    /// `evens` and `odds` interleaved.
    pub woven: Seq<Lit>,
    /// `woven` after the pass of gates over its neighbours.
    pub merged: Seq<Lit>,
    pub with_merged: Cnf,
}

/// The stages of the construction for a list of eight or more literals.
pub open spec fn stages(f: Cnf, lits: Seq<Lit>) -> Stages
    recommends
        lits.len() >= TABLE_LIMIT,
    decreases lits.len(), 0nat,
{
    let n = lits.len();
    let p = padding(n);
    let h = half_padded(n) as int;
    let m = 2 * h;
    let padded = lits + fresh_lits(f.var_count, p);
    let with_padding = f.with_vars(p).with_clauses(unit_clauses(fresh_lits(f.var_count, p)));
    if n < TABLE_LIMIT {
        Stages {
            padded,
            with_padding,
            right: padded,
            with_right: with_padding,
            left: padded,
            with_left: with_padding,
            odds: padded,
            with_odds: with_padding,
            evens: padded,
            with_evens: with_padding,
            woven: padded,
            merged: padded,
            with_merged: with_padding,
        }
    } else {
        let (with_right, right) = with_network(with_padding, padded.subrange(h, m));
        let (with_left, left) = with_network(with_right, padded.subrange(0, h));
        let joined = left + right;
        let (with_odds, odds) = with_network(with_left, every_other(joined, 1, h as nat));
        let (with_evens, evens) = with_network(with_odds, every_other(joined, 0, h as nat));
        let woven = interleaved(evens, odds);
        let steps = adjacent_swaps(m as nat);
        let (with_merged, merged) = swapped(with_evens, woven, steps, steps.len());
        Stages {
            padded,
            with_padding,
            right,
            with_right,
            left,
            with_left,
            odds,
            with_odds,
            evens,
            with_evens,
            woven,
            merged,
            with_merged,
        }
    }
}

/// The formula after the sorting network over `lits`, and the outputs.
pub open spec fn with_network(f: Cnf, lits: Seq<Lit>) -> (Cnf, Seq<Lit>)
    decreases lits.len(), 1nat,
{
    let n = lits.len();
    if n < TABLE_LIMIT {
        swapped(f, lits, small_network(n), small_network(n).len())
    } else {
        let s = stages(f, lits);
        (s.with_merged, s.merged.take(n as int))
    }
}

/// The number of variables that the sorting network over `n` literals
/// allocates.
pub open spec fn network_vars(n: nat) -> nat
    decreases n,
{
    if n < TABLE_LIMIT {
        2 * small_network(n).len()
    } else {
        let h = half_padded(n);
        padding(n) + 4 * network_vars(h) + 2 * adjacent_swaps(2 * h).len()
    }
}

/// The network allocates at least one variable per literal, but for lists of
/// fewer than two literals, which need none.
pub proof fn lemma_network_vars_lower(n: nat)
    ensures
        n >= 2 ==> network_vars(n) >= n,
    decreases n,
{
    if n >= TABLE_LIMIT {
        lemma_network_vars_lower(half_padded(n));
    }
}

/// A run of `k` gates adds eight clauses for each gate.
pub proof fn lemma_swapped_size(f: Cnf, lits: Seq<Lit>, swaps: Seq<(usize, usize)>, k: nat)
    ensures
        swapped(f, lits, swaps, k).0.clauses.len() == f.clauses.len() + 8 * k,
    decreases k,
{
    if k > 0 {
        lemma_swapped_size(f, lits, swaps, (k - 1) as nat);
    }
}

/// The size of the sorting network: it adds at most four clauses for each
/// variable that it allocates.
pub proof fn network_size(f: Cnf, lits: Seq<Lit>)
    ensures
        with_network(f, lits).0.clauses.len() <= f.clauses.len() + 4 * network_vars(lits.len()),
    decreases lits.len(),
{
    let n = lits.len();
    if n < TABLE_LIMIT {
        lemma_swapped_size(f, lits, small_network(n), small_network(n).len());
    } else {
        let p = padding(n);
        let h = half_padded(n) as int;
        let m = 2 * h;
        let c = network_vars(h as nat);
        let steps = adjacent_swaps(m as nat);
        assert(network_vars(n) == p + 4 * c + 2 * steps.len());
        let padded = lits + fresh_lits(f.var_count, p);
        let g0 = f.with_vars(p).with_clauses(unit_clauses(fresh_lits(f.var_count, p)));
        assert(g0.clauses.len() == f.clauses.len() + p);
        let second = padded.subrange(h, m);
        let first = padded.subrange(0, h);
        let (g1, right) = with_network(g0, second);
        network_size(g0, second);
        let (g2, left) = with_network(g1, first);
        network_size(g1, first);
        let odd_inputs = every_other(left + right, 1, h as nat);
        let even_inputs = every_other(left + right, 0, h as nat);
        let (g3, odds) = with_network(g2, odd_inputs);
        network_size(g2, odd_inputs);
        let (g4, evens) = with_network(g3, even_inputs);
        network_size(g3, even_inputs);
        let woven = interleaved(evens, odds);
        let (g5, merged) = swapped(g4, woven, steps, steps.len());
        lemma_swapped_size(g4, woven, steps, steps.len());
        assert(stages(f, lits).with_merged == g5);
        assert(g5.clauses.len() <= f.clauses.len() + p + 16 * c + 8 * steps.len());
    }
}

/// What a clause of three literals means.
pub proof fn lemma_clause_three(a: Assignment, p: Lit, q: Lit, r: Lit)
    ensures
        clause_true(a, seq![p, q, r]) == (lit_true(a, p) || lit_true(a, q) || lit_true(a, r)),
{
    let c = seq![p, q, r];
    assert(c[0] == p && c[1] == q && c[2] == r);
    if lit_true(a, p) {
        assert(lit_true(a, c[0]));
    }
    if lit_true(a, q) {
        assert(lit_true(a, c[1]));
    }
    if lit_true(a, r) {
        assert(lit_true(a, c[2]));
    }
}

/// The clauses of a gate say that `low` is the conjunction and `high` the
/// disjunction of `x` and `y`, and nothing else.
pub proof fn lemma_gate_meaning(a: Assignment, x: Lit, y: Lit, low: Lit, high: Lit)
    ensures
        satisfies(a, gate_clauses(x, y, low, high)) <==> (lit_true(a, low) == (lit_true(a, x) && lit_true(
            a,
            y,
        )) && lit_true(a, high) == (lit_true(a, x) || lit_true(a, y))),
{
    let cs = gate_clauses(x, y, low, high);
    lemma_clause_three(a, x, y, low.negated());
    lemma_clause_three(a, x, y, high.negated());
    lemma_clause_three(a, x, y.negated(), low.negated());
    lemma_clause_three(a, x, y.negated(), high);
    lemma_clause_three(a, x.negated(), y, low.negated());
    lemma_clause_three(a, x.negated(), y, high);
    lemma_clause_three(a, x.negated(), y.negated(), low);
    lemma_clause_three(a, x.negated(), y.negated(), high);
    assert(cs.len() == 8);
    if satisfies(a, cs) {
        assert(clause_true(a, cs[0]));
        assert(clause_true(a, cs[1]));
        assert(clause_true(a, cs[2]));
        assert(clause_true(a, cs[3]));
        assert(clause_true(a, cs[4]));
        assert(clause_true(a, cs[5]));
        assert(clause_true(a, cs[6]));
        assert(clause_true(a, cs[7]));
    }
}

/// The shape of a gate: two more variables, the old clauses first, and
/// nothing but known variables in the new ones.
pub proof fn lemma_gate_shape(f: Cnf, x: Lit, y: Lit)
    requires
        x.var < f.var_count,
        y.var < f.var_count,
        f.var_count + 2 <= MAX_VAR_COUNT,
    ensures
        with_gate(f, x, y).0.var_count == f.var_count + 2,
        with_gate(f, x, y).0.extends(f),
        with_gate(f, x, y).1.var == f.var_count,
        with_gate(f, x, y).2.var == f.var_count + 1,
        f.wf() ==> with_gate(f, x, y).0.wf(),
{
    let (g, low, high) = with_gate(f, x, y);
    let cs = gate_clauses(x, y, low, high);
    if f.wf() {
        assert forall|j: int| 0 <= j < g.clauses.len() implies in_range(#[trigger] g.clauses[j], g.var_count) by {
            if j < f.clauses.len() {
                assert(g.clauses[j] == f.clauses[j]);
                assert(in_range(f.clauses[j], f.var_count));
            } else {
                assert(g.clauses[j] == cs[j - f.clauses.len()]);
            }
        }
    }
}

/// The shape of a run of gates.
pub proof fn lemma_swapped_shape(f: Cnf, lits: Seq<Lit>, swaps: Seq<(usize, usize)>, k: nat)
    requires
        swaps_within(swaps, lits.len()),
        k <= swaps.len(),
        in_range(lits, f.var_count),
        f.var_count + 2 * k <= MAX_VAR_COUNT,
    ensures
        swapped(f, lits, swaps, k).0.var_count == f.var_count + 2 * k,
        swapped(f, lits, swaps, k).1.len() == lits.len(),
        in_range(swapped(f, lits, swaps, k).1, swapped(f, lits, swaps, k).0.var_count),
        swapped(f, lits, swaps, k).0.extends(f),
        f.wf() ==> swapped(f, lits, swaps, k).0.wf(),
    decreases k,
{
    if k > 0 {
        lemma_swapped_shape(f, lits, swaps, (k - 1) as nat);
        let (g, cur) = swapped(f, lits, swaps, (k - 1) as nat);
        let low = swaps[k - 1].0 as int;
        let high = swaps[k - 1].1 as int;
        lemma_gate_shape(g, cur[low], cur[high]);
    }
}

/// Soundness of a run of gates: under an assignment that satisfies the
/// formula after the run, the literals after the run have the values that
/// the compare-and-swap steps give to the values of the literals before it.
pub proof fn lemma_swapped_sound(f: Cnf, lits: Seq<Lit>, swaps: Seq<(usize, usize)>, k: nat, a: Assignment)
    requires
        swaps_within(swaps, lits.len()),
        k <= swaps.len(),
        in_range(lits, f.var_count),
        f.var_count + 2 * k <= MAX_VAR_COUNT,
        satisfies(a, swapped(f, lits, swaps, k).0.clauses),
    ensures
        satisfies(a, f.clauses),
        truth(a, swapped(f, lits, swaps, k).1) == run(truth(a, lits), swaps, k),
    decreases k,
{
    if k > 0 {
        let (g, cur) = swapped(f, lits, swaps, (k - 1) as nat);
        let low = swaps[k - 1].0 as int;
        let high = swaps[k - 1].1 as int;
        let gate = with_gate(g, cur[low], cur[high]);
        lemma_swapped_shape(f, lits, swaps, (k - 1) as nat);
        lemma_satisfies_concat(a, g.clauses, gate_clauses(cur[low], cur[high], gate.1, gate.2));
        lemma_swapped_sound(f, lits, swaps, (k - 1) as nat, a);
        lemma_gate_meaning(a, cur[low], cur[high], gate.1, gate.2);
        let w = run(truth(a, lits), swaps, (k - 1) as nat);
        assert(w[low] == lit_true(a, cur[low]));
        assert(w[high] == lit_true(a, cur[high]));
        assert(truth(a, cur.update(low, gate.1).update(high, gate.2)) =~= compare(w, low, high));
    } else {
        assert(truth(a, lits) =~= run(truth(a, lits), swaps, 0));
    }
}

/// Completeness of a gate: the two outputs can be given the values that the
/// gate demands.
pub proof fn lemma_gate_complete(f: Cnf, x: Lit, y: Lit, a: Assignment) -> (b: Assignment)
    requires
        f.wf(),
        x.var < f.var_count,
        y.var < f.var_count,
        f.var_count + 2 <= MAX_VAR_COUNT,
        satisfies(a, f.clauses),
    ensures
        agree_below(a, b, f.var_count),
        satisfies(b, with_gate(f, x, y).0.clauses),
{
    let (g, low, high) = with_gate(f, x, y);
    let b = assign(
        assign(a, f.var_count, lit_true(a, x) && lit_true(a, y)),
        f.var_count + 1,
        lit_true(a, x) || lit_true(a, y),
    );
    assert(agree_below(a, b, f.var_count));
    lemma_agree_satisfies(a, b, f);
    assert(lit_true(b, x) == lit_true(a, x)) by {
        assert(a(x.var as nat) == b(x.var as nat));
    }
    assert(lit_true(b, y) == lit_true(a, y)) by {
        assert(a(y.var as nat) == b(y.var as nat));
    }
    lemma_gate_meaning(b, x, y, low, high);
    lemma_satisfies_concat(b, f.clauses, gate_clauses(x, y, low, high));
    b
}

/// Completeness of a run of gates.
pub proof fn lemma_swapped_complete(
    f: Cnf,
    lits: Seq<Lit>,
    swaps: Seq<(usize, usize)>,
    k: nat,
    a: Assignment,
) -> (b: Assignment)
    requires
        f.wf(),
        swaps_within(swaps, lits.len()),
        k <= swaps.len(),
        in_range(lits, f.var_count),
        f.var_count + 2 * k <= MAX_VAR_COUNT,
        satisfies(a, f.clauses),
    ensures
        agree_below(a, b, f.var_count),
        satisfies(b, swapped(f, lits, swaps, k).0.clauses),
    decreases k,
{
    if k == 0 {
        a
    } else {
        let (g, cur) = swapped(f, lits, swaps, (k - 1) as nat);
        let low = swaps[k - 1].0 as int;
        let high = swaps[k - 1].1 as int;
        lemma_swapped_shape(f, lits, swaps, (k - 1) as nat);
        let c = lemma_swapped_complete(f, lits, swaps, (k - 1) as nat, a);
        let b = lemma_gate_complete(g, cur[low], cur[high], c);
        b
    }
}

/// What the unit clauses of a list of literals mean.
pub proof fn lemma_unit_clauses_meaning(a: Assignment, lits: Seq<Lit>)
    ensures
        satisfies(a, unit_clauses(lits)) <==> (forall|k: int|
            0 <= k < lits.len() ==> lit_true(a, #[trigger] lits[k])),
{
    let cs = unit_clauses(lits);
    assert forall|k: int| 0 <= k < lits.len() implies clause_true(a, #[trigger] cs[k]) == lit_true(
        a,
        lits[k],
    ) by {
        let c = cs[k];
        assert(c[0] == lits[k]);
        if lit_true(a, lits[k]) {
            assert(lit_true(a, c[0]));
        }
    }
    if satisfies(a, cs) {
        assert forall|k: int| 0 <= k < lits.len() implies lit_true(a, #[trigger] lits[k]) by {
            assert(clause_true(a, cs[k]));
        }
    }
}

/// What is known of the stages of the construction for eight or more
/// literals: how many variables each stage has, how long its list is, and
/// that lists and clauses speak of known variables only.
pub open spec fn stages_shape(f: Cnf, lits: Seq<Lit>) -> bool {
    let n = lits.len();
    let p = padding(n);
    let h = half_padded(n);
    let m = 2 * h;
    let c = network_vars(h);
    let s = stages(f, lits);
    &&& m <= MAX_VAR_COUNT && m == n + p && p <= 3 && 4 <= h < n && h % 2 == 0
    &&& adjacent_swaps(m).len() == h - 1
    &&& swaps_within(adjacent_swaps(m), m)
    &&& network_vars(n) == p + 4 * c + 2 * (h - 1)
    &&& s.with_padding.var_count == f.var_count + p
    &&& s.with_right.var_count == s.with_padding.var_count + c
    &&& s.with_left.var_count == s.with_right.var_count + c
    &&& s.with_odds.var_count == s.with_left.var_count + c
    &&& s.with_evens.var_count == s.with_odds.var_count + c
    &&& s.with_merged.var_count == s.with_evens.var_count + 2 * (h - 1)
    &&& s.padded.len() == m
    &&& s.right.len() == h
    &&& s.left.len() == h
    &&& s.odds.len() == h
    &&& s.evens.len() == h
    &&& s.woven.len() == m
    &&& s.merged.len() == m
    &&& in_range(s.padded, s.with_padding.var_count)
    &&& in_range(s.right, s.with_right.var_count)
    &&& in_range(s.left, s.with_left.var_count)
    &&& in_range(s.left + s.right, s.with_left.var_count)
    &&& in_range(s.odds, s.with_odds.var_count)
    &&& in_range(s.evens, s.with_evens.var_count)
    &&& in_range(s.woven, s.with_evens.var_count)
    &&& in_range(s.merged, s.with_merged.var_count)
    &&& s.with_padding.extends(f)
    &&& s.with_right.extends(s.with_padding)
    &&& s.with_left.extends(s.with_right)
    &&& s.with_odds.extends(s.with_left)
    &&& s.with_evens.extends(s.with_odds)
    &&& s.with_merged.extends(s.with_evens)
    &&& f.wf() ==> s.with_padding.wf() && s.with_right.wf() && s.with_left.wf() && s.with_odds.wf()
        && s.with_evens.wf() && s.with_merged.wf()
}

/// The padding stage keeps the formula well formed.
proof fn lemma_padding_shape(f: Cnf, count: nat)
    requires
        f.var_count + count <= MAX_VAR_COUNT,
    ensures
        in_range(fresh_lits(f.var_count, count), f.var_count + count),
        f.wf() ==> f.with_vars(count).with_clauses(unit_clauses(fresh_lits(f.var_count, count))).wf(),
{
    let fresh = fresh_lits(f.var_count, count);
    let g = f.with_vars(count).with_clauses(unit_clauses(fresh));
    if f.wf() {
        assert forall|j: int| 0 <= j < g.clauses.len() implies in_range(#[trigger] g.clauses[j], g.var_count) by {
            if j < f.clauses.len() {
                assert(g.clauses[j] == f.clauses[j]);
                assert(in_range(f.clauses[j], f.var_count));
            } else {
                assert(g.clauses[j] == unit_clauses(fresh)[j - f.clauses.len()]);
            }
        }
    }
}

/// The stages of the construction have the shape that `stages_shape` states.
pub proof fn lemma_network_stages(f: Cnf, lits: Seq<Lit>)
    requires
        lits.len() >= TABLE_LIMIT,
        in_range(lits, f.var_count),
        f.var_count + network_vars(lits.len()) <= MAX_VAR_COUNT,
    ensures
        stages_shape(f, lits),
    decreases lits.len(), 0nat,
{
    let n = lits.len();
    let p = padding(n);
    let h = half_padded(n);
    let m = 2 * h;
    let c = network_vars(h);
    let s = stages(f, lits);
    lemma_network_vars_lower(n);
    lemma_network_vars_lower(h);
    lemma_adjacent_swaps_within(m);
    lemma_padding_shape(f, p);
    let joined = s.left + s.right;
    lemma_network_shape(s.with_padding, s.padded.subrange(h as int, m as int));
    lemma_network_shape(s.with_right, s.padded.subrange(0, h as int));
    assert(in_range(joined, s.with_left.var_count));
    lemma_network_shape(s.with_left, every_other(joined, 1, h));
    lemma_network_shape(s.with_odds, every_other(joined, 0, h));
    assert(in_range(s.woven, s.with_evens.var_count)) by {
        assert forall|j: int| 0 <= j < s.woven.len() implies (#[trigger] s.woven[j]).var
            < s.with_evens.var_count by {
            if j % 2 == 0 {
                assert(s.woven[j] == s.evens[j / 2]);
            } else {
                assert(s.woven[j] == s.odds[j / 2]);
            }
        }
    }
    lemma_swapped_shape(s.with_evens, s.woven, adjacent_swaps(m), adjacent_swaps(m).len());
}

/// The shape of the sorting network: it allocates `network_vars` variables,
/// gives as many outputs as it got inputs, and keeps the old clauses first.
pub proof fn lemma_network_shape(f: Cnf, lits: Seq<Lit>)
    requires
        in_range(lits, f.var_count),
        f.var_count + network_vars(lits.len()) <= MAX_VAR_COUNT,
    ensures
        with_network(f, lits).0.var_count == f.var_count + network_vars(lits.len()),
        with_network(f, lits).1.len() == lits.len(),
        in_range(with_network(f, lits).1, with_network(f, lits).0.var_count),
        with_network(f, lits).0.extends(f),
        f.wf() ==> with_network(f, lits).0.wf(),
    decreases lits.len(), 1nat,
{
    let n = lits.len();
    if n < TABLE_LIMIT {
        lemma_small_network_within(n);
        lemma_swapped_shape(f, lits, small_network(n), small_network(n).len());
    } else {
        lemma_network_stages(f, lits);
        let s = stages(f, lits);
        assert(in_range(s.merged.take(n as int), s.with_merged.var_count)) by {
            assert forall|i: int| 0 <= i < n implies (#[trigger] s.merged.take(n as int)[i]).var
                < s.with_merged.var_count by {
                assert(s.merged.take(n as int)[i] == s.merged[i]);
            }
        }
    }
}

/// Literals that are all true add their number to the count of a list that
/// they are appended to.
proof fn lemma_padded_count(a: Assignment, lits: Seq<Lit>, fresh: Seq<Lit>)
    requires
        forall|k: int| 0 <= k < fresh.len() ==> lit_true(a, #[trigger] fresh[k]),
    ensures
        count_true(a, lits + fresh) == count_true(a, lits) + fresh.len(),
{
    let all_true = Seq::new(fresh.len(), |i: int| true);
    assert(truth(a, lits + fresh) =~= truth(a, lits) + all_true) by {
        assert forall|i: int| 0 <= i < lits.len() + fresh.len() implies truth(a, lits + fresh)[i] == (truth(
            a,
            lits,
        ) + all_true)[i] by {
            if i >= lits.len() {
                assert((lits + fresh)[i] == fresh[i - lits.len()]);
            }
        }
    }
    lemma_sorted_ones(all_true, fresh.len());
    lemma_ones_concat(truth(a, lits), all_true);
}

/// The count over a list is the sum of the counts over its two parts.
proof fn lemma_split_count(a: Assignment, lits: Seq<Lit>, at: int)
    requires
        0 <= at <= lits.len(),
    ensures
        count_true(a, lits) == count_true(a, lits.subrange(0, at)) + count_true(
            a,
            lits.subrange(at, lits.len() as int),
        ),
        count_true(a, lits.subrange(0, at)) <= at,
        count_true(a, lits.subrange(at, lits.len() as int)) <= lits.len() - at,
{
    let first = truth(a, lits.subrange(0, at));
    let second = truth(a, lits.subrange(at, lits.len() as int));
    assert(truth(a, lits) =~= first + second);
    lemma_ones_concat(first, second);
    lemma_ones_bound(first);
    lemma_ones_bound(second);
}

/// How many literals are true at the positions of one parity in two sorted
/// lists of the same even length, one after the other.
proof fn lemma_parity_count(a: Assignment, left: Seq<Lit>, right: Seq<Lit>, tl: nat, tr: nat, offset: int)
    requires
        left.len() == right.len(),
        left.len() % 2 == 0,
        tl <= left.len(),
        tr <= right.len(),
        is_sorted_with(truth(a, left), tl),
        is_sorted_with(truth(a, right), tr),
        offset == 0 || offset == 1,
    ensures
        count_true(a, every_other(left + right, offset, left.len())) == (tl + offset) / 2 + (tr + offset)
            / 2,
{
    let sorted_left = truth(a, left);
    let sorted_right = truth(a, right);
    assert(truth(a, every_other(left + right, offset, left.len())) =~= Seq::new(
        left.len(),
        |i: int| (sorted_left + sorted_right)[2 * i + offset],
    ));
    lemma_joined_every_other(sorted_left, sorted_right, tl, tr, offset);
}

/// Soundness of the merge: the pass of gates over the neighbours of the
/// interleaved sorted parities gives a sorted list.
proof fn lemma_merge_sound(f: Cnf, evens: Seq<Lit>, odds: Seq<Lit>, tl: nat, tr: nat, a: Assignment)
    requires
        evens.len() == odds.len(),
        evens.len() % 2 == 0,
        tl <= evens.len(),
        tr <= evens.len(),
        in_range(interleaved(evens, odds), f.var_count),
        f.var_count + 2 * adjacent_swaps(2 * evens.len()).len() <= MAX_VAR_COUNT,
        2 * evens.len() <= MAX_VAR_COUNT,
        is_sorted_with(truth(a, evens), tl / 2 + tr / 2),
        is_sorted_with(truth(a, odds), (tl + 1) / 2 + (tr + 1) / 2),
        satisfies(
            a,
            swapped(
                f,
                interleaved(evens, odds),
                adjacent_swaps(2 * evens.len()),
                adjacent_swaps(2 * evens.len()).len(),
            ).0.clauses,
        ),
    ensures
        is_sorted_with(
            truth(
                a,
                swapped(
                    f,
                    interleaved(evens, odds),
                    adjacent_swaps(2 * evens.len()),
                    adjacent_swaps(2 * evens.len()).len(),
                ).1,
            ),
            tl + tr,
        ),
{
    let woven = interleaved(evens, odds);
    let steps = adjacent_swaps(2 * evens.len());
    let sorted_evens = truth(a, evens);
    let sorted_odds = truth(a, odds);
    lemma_adjacent_swaps_within(2 * evens.len());
    lemma_swapped_sound(f, woven, steps, steps.len(), a);
    assert(truth(a, woven) =~= Seq::new(
        2 * sorted_evens.len(),
        |j: int| if j % 2 == 0 { sorted_evens[j / 2] } else { sorted_odds[j / 2] },
    ));
    lemma_merge_sorted(sorted_evens, sorted_odds, tl, tr);
}

/// A sorted list that loses its last entries, all of them true, stays
/// sorted, with that many true entries fewer.
proof fn lemma_cut_sorted(a: Assignment, lits: Seq<Lit>, n: int, t: nat)
    requires
        0 <= n <= lits.len(),
        is_sorted_with(truth(a, lits), (t + (lits.len() - n)) as nat),
    ensures
        is_sorted_with(truth(a, lits.take(n)), t),
{
    let whole = truth(a, lits);
    let kept = truth(a, lits.take(n));
    assert forall|i: int| 0 <= i < kept.len() implies #[trigger] kept[i] == (i >= kept.len() - t) by {
        assert(kept[i] == whole[i]);
    }
}

/// Soundness of the sorting network: under an assignment that satisfies the
/// formula after the network, the outputs are sorted and as many of them are
/// true as inputs are.
pub proof fn lemma_network_sound(f: Cnf, lits: Seq<Lit>, a: Assignment)
    requires
        in_range(lits, f.var_count),
        f.var_count + network_vars(lits.len()) <= MAX_VAR_COUNT,
        satisfies(a, with_network(f, lits).0.clauses),
    ensures
        satisfies(a, f.clauses),
        is_sorted_with(truth(a, with_network(f, lits).1), count_true(a, lits)),
    decreases lits.len(),
{
    let n = lits.len();
    if n < TABLE_LIMIT {
        let table = small_network(n);
        lemma_small_network_within(n);
        lemma_swapped_sound(f, lits, table, table.len(), a);
        lemma_small_network_sorts(truth(a, lits));
    } else {
        let p = padding(n);
        let h = half_padded(n);
        let m = 2 * h;
        let s = stages(f, lits);
        lemma_network_stages(f, lits);
        let steps = adjacent_swaps(m);
        // down the stages: what satisfies the last formula satisfies them all
        lemma_swapped_sound(s.with_evens, s.woven, steps, steps.len(), a);
        lemma_satisfies_base(a, s.with_evens, s.with_odds);
        lemma_satisfies_base(a, s.with_odds, s.with_left);
        lemma_satisfies_base(a, s.with_left, s.with_right);
        lemma_satisfies_base(a, s.with_right, s.with_padding);
        lemma_satisfies_base(a, s.with_padding, f);
        // the padding literals are true
        let fresh = fresh_lits(f.var_count, p);
        lemma_satisfies_concat(a, f.clauses, unit_clauses(fresh));
        lemma_unit_clauses_meaning(a, fresh);
        lemma_padded_count(a, lits, fresh);
        // the two halves
        let first = s.padded.subrange(0, h as int);
        let second = s.padded.subrange(h as int, m as int);
        let tl = count_true(a, first);
        let tr = count_true(a, second);
        lemma_split_count(a, s.padded, h as int);
        lemma_network_sound(s.with_padding, second, a);
        lemma_network_sound(s.with_right, first, a);
        // the two parities of the sorted halves
        lemma_parity_count(a, s.left, s.right, tl, tr, 1);
        lemma_parity_count(a, s.left, s.right, tl, tr, 0);
        lemma_network_sound(s.with_left, every_other(s.left + s.right, 1, h), a);
        lemma_network_sound(s.with_odds, every_other(s.left + s.right, 0, h), a);
        // the merge, and the cut that takes the padding away
        lemma_merge_sound(s.with_evens, s.evens, s.odds, tl, tr, a);
        lemma_cut_sorted(a, s.merged, n as int, count_true(a, lits));
    }
}

/// The assignment `a`, changed to `value` on `count` variables from `first` on.
pub open spec fn assign_range(a: Assignment, first: nat, count: nat, value: bool) -> Assignment {
    |v: nat| if first <= v < first + count { value } else { a(v) }
}

/// Completeness of the sorting network: whatever the inputs are, the new
/// variables can be given values that satisfy the clauses of the network.
pub proof fn lemma_network_complete(f: Cnf, lits: Seq<Lit>, a: Assignment) -> (b: Assignment)
    requires
        f.wf(),
        in_range(lits, f.var_count),
        f.var_count + network_vars(lits.len()) <= MAX_VAR_COUNT,
        satisfies(a, f.clauses),
    ensures
        agree_below(a, b, f.var_count),
        satisfies(b, with_network(f, lits).0.clauses),
    decreases lits.len(),
{
    let n = lits.len();
    if n < TABLE_LIMIT {
        let table = small_network(n);
        lemma_small_network_within(n);
        lemma_swapped_complete(f, lits, table, table.len(), a)
    } else {
        let p = padding(n);
        let h = half_padded(n);
        let m = 2 * h;
        let s = stages(f, lits);
        lemma_network_stages(f, lits);
        let steps = adjacent_swaps(m);
        let fresh = fresh_lits(f.var_count, p);
        let b0 = assign_range(a, f.var_count, p, true);
        assert(agree_below(a, b0, f.var_count));
        lemma_agree_satisfies(a, b0, f);
        lemma_unit_clauses_meaning(b0, fresh);
        lemma_satisfies_concat(b0, f.clauses, unit_clauses(fresh));
        let joined = s.left + s.right;
        let b1 = lemma_network_complete(s.with_padding, s.padded.subrange(h as int, m as int), b0);
        let b2 = lemma_network_complete(s.with_right, s.padded.subrange(0, h as int), b1);
        let b3 = lemma_network_complete(s.with_left, every_other(joined, 1, h), b2);
        let b4 = lemma_network_complete(s.with_odds, every_other(joined, 0, h), b3);
        let b5 = lemma_swapped_complete(s.with_evens, s.woven, steps, steps.len(), b4);
        b5
    }
}

/// The comparator sequence for a list of `n` literals, where `n` is below
/// eight; no step for a longer list.
pub fn small_network_swaps(n: usize) -> (swaps: Vec<(usize, usize)>)
    ensures
        swaps@ == small_network(n as nat),
{
    let swaps: Vec<(usize, usize)> = if n == 2 {
        vec![(0, 1)]
    } else if n == 3 {
        vec![(0, 2), (0, 1), (1, 2)]
    } else if n == 4 {
        vec![(0, 2), (1, 3), (0, 1), (2, 3), (1, 2)]
    } else if n == 5 {
        vec![(0, 3), (1, 4), (0, 2), (1, 3), (0, 1), (2, 4), (1, 2), (3, 4), (2, 3)]
    } else if n == 6 {
        vec![
            (0, 5), (1, 3), (2, 4), (1, 2), (3, 4), (0, 3),
            (2, 5), (0, 1), (2, 3), (4, 5), (1, 2), (3, 4),
        ]
    } else if n == 7 {
        vec![
            (0, 6), (2, 3), (4, 5), (0, 2), (1, 4), (3, 6), (0, 1), (2, 5),
            (3, 4), (1, 2), (4, 6), (2, 3), (4, 5), (1, 2), (3, 4), (5, 6),
        ]
    } else {
        Vec::new()
    };
    proof {
        assert(swaps@ =~= small_network(n as nat));
    }
    swaps
}

/// The number of variables that the sorting network over `n` literals
/// allocates, if a formula can hold that many.
pub fn network_var_count(n: usize) -> (count: Option<usize>)
    ensures
        match count {
            Some(c) => c == network_vars(n as nat) && c <= MAX_VAR_COUNT,
            None => network_vars(n as nat) > MAX_VAR_COUNT,
        },
    decreases n,
{
    if n < TABLE_LIMIT {
        let steps: usize = if n < 2 {
            0
        } else if n == 2 {
            1
        } else if n == 3 {
            3
        } else if n == 4 {
            5
        } else if n == 5 {
            9
        } else if n == 6 {
            12
        } else {
            16
        };
        assert(steps == small_network(n as nat).len());
        Some(2 * steps)
    } else if n > MAX_VAR_COUNT {
        proof {
            lemma_network_vars_lower(n as nat);
        }
        None
    } else {
        let p = (4 - n % 4) % 4;
        let h = (n + p) / 2;
        assert(p == padding(n as nat) && h == half_padded(n as nat));
        match network_var_count(h) {
            None => None,
            Some(c) => {
                let total = p + 4 * c + 2 * (h - 1);
                if total > MAX_VAR_COUNT {
                    None
                } else {
                    Some(total)
                }
            },
        }
    }
}

/// Puts a comparator gate on `x` and `y`: allocates the two outputs and adds
/// the clauses of `gate_clauses`.  Returns the conjunction first.
pub(crate) fn sort_swap(formula: &mut CnfFormula, x: Lit, y: Lit) -> (outputs: (Lit, Lit))
    requires
        x.var < formula_var_count(*old(formula)),
        y.var < formula_var_count(*old(formula)),
        formula_var_count(*old(formula)) + 2 <= MAX_VAR_COUNT,
    ensures
        model(*final(formula)) == with_gate(model(*old(formula)), x, y).0,
        outputs.0 == with_gate(model(*old(formula)), x, y).1,
        outputs.1 == with_gate(model(*old(formula)), x, y).2,
{
    let ghost f = model(*formula);
    let low = new_lit(formula);
    let high = new_lit(formula);
    let c0 = [x, y, low.negate()];
    let c1 = [x, y, high.negate()];
    let c2 = [x, y.negate(), low.negate()];
    let c3 = [x, y.negate(), high];
    let c4 = [x.negate(), y, low.negate()];
    let c5 = [x.negate(), y, high];
    let c6 = [x.negate(), y.negate(), low];
    let c7 = [x.negate(), y.negate(), high];
    proof {
        assert(c0@ =~= seq![x, y, low.negated()]);
        assert(c1@ =~= seq![x, y, high.negated()]);
        assert(c2@ =~= seq![x, y.negated(), low.negated()]);
        assert(c3@ =~= seq![x, y.negated(), high]);
        assert(c4@ =~= seq![x.negated(), y, low.negated()]);
        assert(c5@ =~= seq![x.negated(), y, high]);
        assert(c6@ =~= seq![x.negated(), y.negated(), low]);
        assert(c7@ =~= seq![x.negated(), y.negated(), high]);
    }
    add_known_clause(formula, c0.as_slice());
    add_known_clause(formula, c1.as_slice());
    add_known_clause(formula, c2.as_slice());
    add_known_clause(formula, c3.as_slice());
    add_known_clause(formula, c4.as_slice());
    add_known_clause(formula, c5.as_slice());
    add_known_clause(formula, c6.as_slice());
    add_known_clause(formula, c7.as_slice());
    proof {
        assert(formula_clauses(*formula) =~= f.clauses + gate_clauses(x, y, low, high));
    }
    (low, high)
}

/// Runs the steps of `swaps` on `lits`: each step puts a gate on the literals
/// at its two positions and stores its two outputs there.
pub(crate) fn apply_swaps(formula: &mut CnfFormula, lits: &mut Vec<Lit>, swaps: &Vec<(usize, usize)>)
    requires
        swaps_within(swaps@, old(lits)@.len()),
        in_range(old(lits)@, formula_var_count(*old(formula))),
        formula_var_count(*old(formula)) + 2 * swaps@.len() <= MAX_VAR_COUNT,
    ensures
        model(*final(formula)) == swapped(model(*old(formula)), old(lits)@, swaps@, swaps@.len()).0,
        final(lits)@ == swapped(model(*old(formula)), old(lits)@, swaps@, swaps@.len()).1,
{
    let ghost f = model(*formula);
    let ghost start = lits@;
    let mut k: usize = 0;
    while k < swaps.len()
        invariant
            k <= swaps@.len(),
            swaps_within(swaps@, start.len()),
            in_range(start, f.var_count),
            f.var_count + 2 * swaps@.len() <= MAX_VAR_COUNT,
            model(*formula) == swapped(f, start, swaps@, k as nat).0,
            lits@ == swapped(f, start, swaps@, k as nat).1,
        decreases swaps.len() - k,
    {
        proof {
            lemma_swapped_shape(f, start, swaps@, k as nat);
        }
        let step = swaps[k];
        let outputs = sort_swap(formula, lits[step.0], lits[step.1]);
        lits[step.0] = outputs.0;
        lits[step.1] = outputs.1;
        k += 1;
    }
}

/// The `count` literals of `lits` at the positions `offset`, `offset + 2`,
/// and so on.
pub(crate) fn every_other_of(lits: &Vec<Lit>, offset: usize, count: usize) -> (picked: Vec<Lit>)
    requires
        offset <= 1,
        2 * count <= lits@.len(),
    ensures
        picked@ == every_other(lits@, offset as int, count as nat),
{
    let len = lits.len();
    let mut picked: Vec<Lit> = Vec::new();
    let mut i: usize = 0;
    while i < count
        invariant
            i <= count,
            offset <= 1,
            len == lits@.len(),
            2 * count <= len,
            picked@ == every_other(lits@, offset as int, i as nat),
        decreases count - i,
    {
        picked.push(lits[2 * i + offset]);
        proof {
            assert(picked@ =~= every_other(lits@, offset as int, (i + 1) as nat));
        }
        i += 1;
    }
    picked
}

/// The two lists in turn, starting with the first entry of `evens`.
pub(crate) fn interleave(evens: &Vec<Lit>, odds: &Vec<Lit>) -> (woven: Vec<Lit>)
    requires
        evens@.len() == odds@.len(),
    ensures
        woven@ == interleaved(evens@, odds@),
{
    let mut woven: Vec<Lit> = Vec::new();
    let mut i: usize = 0;
    while i < evens.len()
        invariant
            i <= evens@.len(),
            evens@.len() == odds@.len(),
            woven@.len() == 2 * i,
            forall|j: int| 0 <= j < 2 * i ==> #[trigger] woven@[j] == interleaved(evens@, odds@)[j],
        decreases evens.len() - i,
    {
        woven.push(evens[i]);
        woven.push(odds[i]);
        i += 1;
    }
    proof {
        assert(woven@ =~= interleaved(evens@, odds@));
    }
    woven
}

/// Appends `count` fresh literals to `lits` and forces each of them true by
/// a unit clause.
pub(crate) fn add_padding(formula: &mut CnfFormula, lits: &mut Vec<Lit>, count: usize)
    requires
        formula_var_count(*old(formula)) + count <= MAX_VAR_COUNT,
    ensures
        model(*final(formula)) == model(*old(formula)).with_vars(count as nat).with_clauses(
            unit_clauses(fresh_lits(formula_var_count(*old(formula)), count as nat)),
        ),
        final(lits)@ == old(lits)@ + fresh_lits(formula_var_count(*old(formula)), count as nat),
{
    let ghost f = model(*formula);
    let ghost start = lits@;
    let mut added: usize = 0;
    proof {
        assert(formula_clauses(*formula) =~= f.clauses + unit_clauses(fresh_lits(f.var_count, 0)));
        assert(lits@ =~= start + fresh_lits(f.var_count, 0));
    }
    while added < count
        invariant
            added <= count,
            f.var_count + count <= MAX_VAR_COUNT,
            formula_var_count(*formula) == f.var_count + added,
            formula_clauses(*formula) == f.clauses + unit_clauses(fresh_lits(f.var_count, added as nat)),
            lits@ == start + fresh_lits(f.var_count, added as nat),
        decreases count - added,
    {
        let ghost before = fresh_lits(f.var_count, added as nat);
        let lit = new_lit(formula);
        lits.push(lit);
        let clause = [lit];
        proof {
            assert(clause@ =~= seq![lit]);
        }
        add_known_clause(formula, clause.as_slice());
        proof {
            let after = fresh_lits(f.var_count, (added + 1) as nat);
            assert(after =~= before.push(lit));
            assert(unit_clauses(after) =~= unit_clauses(before).push(clause@));
            assert(lits@ =~= start + after);
            assert(formula_clauses(*formula) =~= f.clauses + unit_clauses(after));
        }
        added += 1;
    }
}

/// Puts a gate on the literals at the positions 1 and 2, then 3 and 4, and so
/// on, and stores the outputs there.  The first and the last literal of a
/// list of even length take no part.
pub(crate) fn fix_neighbours(formula: &mut CnfFormula, lits: &mut Vec<Lit>)
    requires
        old(lits)@.len() % 2 == 0,
        old(lits)@.len() <= MAX_VAR_COUNT,
        in_range(old(lits)@, formula_var_count(*old(formula))),
        formula_var_count(*old(formula)) + 2 * adjacent_swaps(old(lits)@.len()).len() <= MAX_VAR_COUNT,
    ensures
        model(*final(formula)) == swapped(
            model(*old(formula)),
            old(lits)@,
            adjacent_swaps(old(lits)@.len()),
            adjacent_swaps(old(lits)@.len()).len(),
        ).0,
        final(lits)@ == swapped(
            model(*old(formula)),
            old(lits)@,
            adjacent_swaps(old(lits)@.len()),
            adjacent_swaps(old(lits)@.len()).len(),
        ).1,
{
    let ghost f = model(*formula);
    let ghost start = lits@;
    let len = lits.len();
    let ghost steps = adjacent_swaps(len as nat);
    if len < 2 {
        return ;
    }
    proof {
        lemma_adjacent_swaps_within(len as nat);
    }
    let mut i: usize = 1;
    while i < len - 1
        invariant
            1 <= i <= len - 1,
            len % 2 == 0,
            len == start.len(),
            len <= MAX_VAR_COUNT,
            steps == adjacent_swaps(len as nat),
            swaps_within(steps, len as nat),
            in_range(start, f.var_count),
            f.var_count + 2 * steps.len() <= MAX_VAR_COUNT,
            model(*formula) == swapped(f, start, steps, (i / 2) as nat).0,
            lits@ == swapped(f, start, steps, (i / 2) as nat).1,
        decreases len - i,
    {
        if i % 2 == 1 {
            proof {
                lemma_swapped_shape(f, start, steps, (i / 2) as nat);
                assert(steps[(i / 2) as int] == (i, (i + 1) as usize));
            }
            let outputs = sort_swap(formula, lits[i], lits[i + 1]);
            lits[i] = outputs.0;
            lits[i + 1] = outputs.1;
        }
        i += 1;
    }
}

/// Adds the sorting network over `vars` and returns its outputs.
pub(crate) fn encode_network(formula: &mut CnfFormula, vars: &[Lit]) -> (outputs: Vec<Lit>)
    requires
        in_range(vars@, formula_var_count(*old(formula))),
        formula_var_count(*old(formula)) + network_vars(vars@.len()) <= MAX_VAR_COUNT,
    ensures
        model(*final(formula)) == with_network(model(*old(formula)), vars@).0,
        outputs@ == with_network(model(*old(formula)), vars@).1,
    decreases vars@.len(),
{
    let n = vars.len();
    let ghost f = model(*formula);
    let mut lits = slice_to_vec(vars);
    if n < TABLE_LIMIT {
        let swaps = small_network_swaps(n);
        proof {
            lemma_small_network_within(n as nat);
        }
        apply_swaps(formula, &mut lits, &swaps);
        return lits;
    }
    let ghost s = stages(f, vars@);
    proof {
        lemma_network_stages(f, vars@);
    }
    let padding_amount = (4 - n % 4) % 4;
    assert(padding_amount == padding(n as nat));
    add_padding(formula, &mut lits, padding_amount);
    let m = lits.len();
    let h = m / 2;
    let mut right = encode_network(formula, slice_subrange(lits.as_slice(), h, m));
    let mut joined = encode_network(formula, slice_subrange(lits.as_slice(), 0, h));
    joined.append(&mut right);
    let odd_inputs = every_other_of(&joined, 1, h);
    let even_inputs = every_other_of(&joined, 0, h);
    let odds = encode_network(formula, odd_inputs.as_slice());
    let evens = encode_network(formula, even_inputs.as_slice());
    let mut woven = interleave(&evens, &odds);
    fix_neighbours(formula, &mut woven);
    woven.truncate(m - padding_amount);
    proof {
        assert(woven@ =~= s.merged.take(n as int));
    }
    woven
}

} // verus!
