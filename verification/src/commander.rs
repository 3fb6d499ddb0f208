//! The commander encoding of "at most one of these literals is true", with a
//! literal that tells whether one is.
//!
//! A short list is encoded directly: every two literals exclude each other,
//! and a fresh literal, the commander, is tied to their disjunction.  A longer
//! list is split in three parts; each part gets a commander of its own, and
//! the three commanders are then encoded directly.

use vstd::prelude::*;
use vstd::slice::slice_subrange;
use varisat::CnfFormula;
use crate::lit::{Lit, in_range, MAX_VAR_COUNT};
use crate::formula::{Cnf, model, formula_clauses, formula_var_count, new_lit, add_known_clause};
use crate::buffer::{buffer_lits, buffer_new, buffer_from, buffer_push, buffer_slice, div_ceil};
use crate::semantics::{Assignment, lit_true, clause_true, satisfies, truth, ones, count_true,
    agree_below, assign, lemma_satisfies_push, lemma_satisfies_concat, lemma_satisfies_base,
    lemma_agree_satisfies, lemma_agree_truth};
use crate::counting::{lemma_ones_bound, lemma_ones_concat, lemma_ones_none, lemma_ones_pairs};

verus! {

/// Lists shorter than this are encoded directly.
pub const DIRECT_LIMIT: usize = 6;

/// The clauses by which `vars[i]` excludes each of the first `count` literals.
pub open spec fn exclusion_row(vars: Seq<Lit>, i: int, count: nat) -> Seq<Seq<Lit>> {
    Seq::new(count, |j: int| seq![vars[i].negated(), vars[j].negated()])
}

/// The clauses by which every two of the first `rows` literals exclude each
/// other, row by row.
pub open spec fn exclusions(vars: Seq<Lit>, rows: nat) -> Seq<Seq<Lit>>
    decreases rows,
{
    if rows == 0 {
        Seq::empty()
    } else {
        exclusions(vars, (rows - 1) as nat) + exclusion_row(vars, rows - 1, (rows - 1) as nat)
    }
}

/// The clauses by which each of the first `count` literals implies `commander`.
pub open spec fn implications(vars: Seq<Lit>, commander: Lit, count: nat) -> Seq<Seq<Lit>> {
    Seq::new(count, |k: int| seq![commander, vars[k].negated()])
}

/// The direct encoding of `vars` with the given commander: the exclusions,
/// the clause by which the commander implies that some literal is true, and
/// the implications from each literal to the commander.
pub open spec fn group_clauses(vars: Seq<Lit>, commander: Lit) -> Seq<Seq<Lit>> {
    exclusions(vars, vars.len()) + seq![vars.push(commander.negated())] + implications(
        vars,
        commander,
        vars.len(),
    )
}

/// The formula after the direct encoding of `vars`, and the commander, which
/// is the next variable of `f`.
pub open spec fn with_group(f: Cnf, vars: Seq<Lit>) -> (Cnf, Lit) {
    (f.with_vars(1).with_clauses(group_clauses(vars, f.next_lit())), f.next_lit())
}

/// The size of the first two parts of a list of `n` literals: a third of `n`,
/// rounded up.
pub open spec fn part_size(n: nat) -> nat {
    (n + 2) / 3
}

/// The formula after the commander encoding of `inputs`, and the commander.
pub open spec fn with_commander(f: Cnf, inputs: Seq<Lit>) -> (Cnf, Lit)
    decreases inputs.len(),
{
    let n = inputs.len();
    if n < DIRECT_LIMIT {
        with_group(f, inputs)
    } else {
        let size = part_size(n) as int;
        let (f1, c1) = with_commander(f, inputs.subrange(0, size));
        let (f2, c2) = with_commander(f1, inputs.subrange(size, 2 * size));
        let (f3, c3) = with_commander(f2, inputs.subrange(2 * size, n as int));
        with_group(f3, seq![c1, c2, c3])
    }
}

/// The number of variables that the commander encoding of `n` literals
/// allocates.
pub open spec fn commander_vars(n: nat) -> nat
    decreases n,
{
    if n < DIRECT_LIMIT {
        1
    } else {
        let size = part_size(n);
        2 * commander_vars(size) + commander_vars((n - 2 * size) as nat) + 1
    }
}

/// The number of pairs among `rows` items.
pub open spec fn pairs(rows: nat) -> nat
    decreases rows,
{
    if rows == 0 {
        0
    } else {
        pairs((rows - 1) as nat) + (rows - 1) as nat
    }
}

/// The number of clauses that the commander encoding of `n` literals adds.
pub open spec fn commander_clauses(n: nat) -> nat
    decreases n,
{
    if n < DIRECT_LIMIT {
        pairs(n) + 1 + n
    } else {
        let size = part_size(n);
        2 * commander_clauses(size) + commander_clauses((n - 2 * size) as nat) + 7
    }
}

pub proof fn lemma_exclusions_len(vars: Seq<Lit>, rows: nat)
    ensures
        exclusions(vars, rows).len() == pairs(rows),
    decreases rows,
{
    if rows > 0 {
        lemma_exclusions_len(vars, (rows - 1) as nat);
    }
}

/// The size of the commander encoding: it adds `commander_clauses` clauses,
/// which for one literal or more are fewer than six per literal, where the
/// exclusions of every two literals alone would be `pairs` many.
pub proof fn commander_size(f: Cnf, inputs: Seq<Lit>)
    ensures
        with_commander(f, inputs).0.clauses.len() == f.clauses.len() + commander_clauses(inputs.len()),
        inputs.len() >= 1 ==> commander_clauses(inputs.len()) <= 6 * inputs.len() - 4,
        inputs.len() >= 1 ==> commander_vars(inputs.len()) <= inputs.len(),
    decreases inputs.len(),
{
    let n = inputs.len();
    lemma_commander_vars_bound(n);
    if n < DIRECT_LIMIT {
        lemma_exclusions_len(inputs, n);
        reveal_with_fuel(pairs, 6);
    } else {
        let size = part_size(n) as int;
        let (f1, c1) = with_commander(f, inputs.subrange(0, size));
        let (f2, c2) = with_commander(f1, inputs.subrange(size, 2 * size));
        let (f3, c3) = with_commander(f2, inputs.subrange(2 * size, n as int));
        commander_size(f, inputs.subrange(0, size));
        commander_size(f1, inputs.subrange(size, 2 * size));
        commander_size(f2, inputs.subrange(2 * size, n as int));
        lemma_exclusions_len(seq![c1, c2, c3], 3);
        reveal_with_fuel(pairs, 4);
    }
}

/// The encoding allocates at most one variable per literal.
pub proof fn lemma_commander_vars_bound(n: nat)
    ensures
        1 <= commander_vars(n),
        n >= 2 ==> commander_vars(n) <= n - 1,
        commander_vars(n) <= n + 1,
    decreases n,
{
    if n >= DIRECT_LIMIT {
        let size = part_size(n);
        lemma_commander_vars_bound(size);
        lemma_commander_vars_bound((n - 2 * size) as nat);
    }
}

/// What a clause of two negated literals means.
pub proof fn lemma_exclusion_clause(a: Assignment, x: Lit, y: Lit)
    ensures
        clause_true(a, seq![x.negated(), y.negated()]) == !(lit_true(a, x) && lit_true(a, y)),
{
    let c = seq![x.negated(), y.negated()];
    assert(c[0] == x.negated() && c[1] == y.negated());
    if !lit_true(a, x) {
        assert(lit_true(a, c[0]));
    }
    if !lit_true(a, y) {
        assert(lit_true(a, c[1]));
    }
}

/// What an implication from `x` to `commander` means.
pub proof fn lemma_implication_clause(a: Assignment, commander: Lit, x: Lit)
    ensures
        clause_true(a, seq![commander, x.negated()]) == (lit_true(a, x) ==> lit_true(a, commander)),
{
    let c = seq![commander, x.negated()];
    assert(c[0] == commander && c[1] == x.negated());
    if lit_true(a, commander) {
        assert(lit_true(a, c[0]));
    }
    if !lit_true(a, x) {
        assert(lit_true(a, c[1]));
    }
}

/// What the exclusions among the first `rows` literals mean.
pub proof fn lemma_exclusions_meaning(a: Assignment, vars: Seq<Lit>, rows: nat)
    requires
        rows <= vars.len(),
    ensures
        satisfies(a, exclusions(vars, rows)) <==> (forall|j: int, i: int|
            0 <= j < i < rows ==> !(#[trigger] truth(a, vars)[j] && #[trigger] truth(a, vars)[i])),
    decreases rows,
{
    let v = truth(a, vars);
    if rows > 0 {
        let r = (rows - 1) as nat;
        let row = exclusion_row(vars, r as int, r);
        lemma_exclusions_meaning(a, vars, r);
        lemma_satisfies_concat(a, exclusions(vars, r), row);
        assert forall|j: int| 0 <= j < r implies clause_true(a, #[trigger] row[j]) == !(v[j] && v[r as int]) by {
            lemma_exclusion_clause(a, vars[r as int], vars[j]);
        }
        if satisfies(a, exclusions(vars, rows)) {
            assert forall|j: int, i: int| 0 <= j < i < rows implies !(#[trigger] v[j] && #[trigger] v[i]) by {
                if i == r {
                    assert(clause_true(a, row[j]));
                }
            }
        }
        if forall|j: int, i: int| 0 <= j < i < rows ==> !(#[trigger] v[j] && #[trigger] v[i]) {
            assert forall|j: int| 0 <= j < row.len() implies clause_true(a, #[trigger] row[j]) by {
                assert(!(v[j] && v[r as int]));
            }
        }
    }
}

/// The implications from every literal to the commander say that the
/// commander is true when a literal is.
pub proof fn lemma_implications_meaning(a: Assignment, vars: Seq<Lit>, commander: Lit)
    ensures
        satisfies(a, implications(vars, commander, vars.len())) <==> (count_true(a, vars) >= 1
            ==> lit_true(a, commander)),
{
    let v = truth(a, vars);
    let imp = implications(vars, commander, vars.len());
    lemma_ones_none(v);
    assert forall|k: int| 0 <= k < vars.len() implies clause_true(a, #[trigger] imp[k]) == (v[k]
        ==> lit_true(a, commander)) by {
        lemma_implication_clause(a, commander, vars[k]);
    }
    if satisfies(a, imp) && ones(v) >= 1 {
        let i = choose|i: int| 0 <= i < v.len() && #[trigger] v[i];
        assert(clause_true(a, imp[i]));
    }
    if ones(v) >= 1 ==> lit_true(a, commander) {
        assert forall|k: int| 0 <= k < imp.len() implies clause_true(a, #[trigger] imp[k]) by {
            if v[k] {
                assert(ones(v) >= 1);
            }
        }
    }
}

/// The direct encoding says that at most one literal is true, and that the
/// commander is true exactly when one is.
pub proof fn lemma_group_meaning(a: Assignment, vars: Seq<Lit>, commander: Lit)
    ensures
        satisfies(a, group_clauses(vars, commander)) <==> (count_true(a, vars) <= 1 && (lit_true(
            a,
            commander,
        ) <==> count_true(a, vars) >= 1)),
{
    let v = truth(a, vars);
    let n = vars.len();
    let ex = exclusions(vars, n);
    let big = vars.push(commander.negated());
    let imp = implications(vars, commander, n);
    lemma_satisfies_concat(a, ex + seq![big], imp);
    lemma_satisfies_push(a, ex, big);
    assert(ex + seq![big] =~= ex.push(big));
    lemma_exclusions_meaning(a, vars, n);
    lemma_ones_pairs(v);
    lemma_ones_none(v);
    // the clause that lets the commander demand a true literal
    assert(clause_true(a, big) <==> (!lit_true(a, commander) || ones(v) >= 1)) by {
        if clause_true(a, big) {
            let i = choose|i: int| 0 <= i < big.len() && lit_true(a, #[trigger] big[i]);
            if i < n {
                assert(big[i] == vars[i]);
                assert(v[i]);
            } else {
                assert(big[i] == commander.negated());
            }
        }
        if !lit_true(a, commander) {
            assert(big[n as int] == commander.negated());
            assert(lit_true(a, big[n as int]));
        }
        if ones(v) >= 1 {
            let i = choose|i: int| 0 <= i < v.len() && #[trigger] v[i];
            assert(big[i] == vars[i]);
            assert(lit_true(a, big[i]));
        }
    }
    lemma_implications_meaning(a, vars, commander);
}

/// The shape of the direct encoding: one more variable, the old clauses
/// first, and nothing but known variables in the new ones.
pub proof fn lemma_group_shape(f: Cnf, vars: Seq<Lit>)
    requires
        in_range(vars, f.var_count),
        f.var_count < MAX_VAR_COUNT,
    ensures
        with_group(f, vars).0.var_count == f.var_count + 1,
        with_group(f, vars).0.extends(f),
        with_group(f, vars).1 == f.next_lit(),
        with_group(f, vars).1.var == f.var_count,
        f.wf() ==> with_group(f, vars).0.wf(),
{
    let g = with_group(f, vars).0;
    let c = f.next_lit();
    lemma_exclusions_range(vars, vars.len(), f.var_count);
    if f.wf() {
        let ex = exclusions(vars, vars.len());
        let added = group_clauses(vars, c);
        assert forall|j: int| 0 <= j < g.clauses.len() implies in_range(#[trigger] g.clauses[j], g.var_count) by {
            if j < f.clauses.len() {
                assert(g.clauses[j] == f.clauses[j]);
                assert(in_range(f.clauses[j], f.var_count));
            } else {
                let k = j - f.clauses.len();
                assert(g.clauses[j] == added[k]);
                if k < ex.len() {
                    assert(added[k] == ex[k]);
                } else if k == ex.len() {
                    assert(added[k] == vars.push(c.negated()));
                } else {
                    assert(added[k] == implications(vars, c, vars.len())[k - ex.len() - 1]);
                }
            }
        }
    }
}

/// The exclusion clauses speak of the variables of their literals only.
pub proof fn lemma_exclusions_range(vars: Seq<Lit>, rows: nat, bound: nat)
    requires
        rows <= vars.len(),
        in_range(vars, bound),
    ensures
        forall|j: int| 0 <= j < exclusions(vars, rows).len() ==> in_range(#[trigger] exclusions(vars, rows)[j], bound),
    decreases rows,
{
    if rows > 0 {
        let r = (rows - 1) as nat;
        lemma_exclusions_range(vars, r, bound);
        let before = exclusions(vars, r);
        let row = exclusion_row(vars, r as int, r);
        assert forall|j: int| 0 <= j < exclusions(vars, rows).len() implies in_range(
            #[trigger] exclusions(vars, rows)[j],
            bound,
        ) by {
            if j < before.len() {
                assert(exclusions(vars, rows)[j] == before[j]);
            } else {
                assert(exclusions(vars, rows)[j] == row[j - before.len()]);
            }
        }
    }
}

/// The shape of the commander encoding: it allocates `commander_vars`
/// variables, keeps the old clauses first, and its commander is the variable
/// allocated last.
pub proof fn lemma_commander_shape(f: Cnf, inputs: Seq<Lit>)
    requires
        in_range(inputs, f.var_count),
        f.var_count + commander_vars(inputs.len()) <= MAX_VAR_COUNT,
    ensures
        with_commander(f, inputs).0.var_count == f.var_count + commander_vars(inputs.len()),
        with_commander(f, inputs).0.extends(f),
        with_commander(f, inputs).1 == Lit::of_var((f.var_count + commander_vars(inputs.len()) - 1) as nat),
        with_commander(f, inputs).1.var == f.var_count + commander_vars(inputs.len()) - 1,
        f.wf() ==> with_commander(f, inputs).0.wf(),
    decreases inputs.len(),
{
    let n = inputs.len();
    if n < DIRECT_LIMIT {
        lemma_group_shape(f, inputs);
    } else {
        let size = part_size(n) as int;
        let p1 = inputs.subrange(0, size);
        let p2 = inputs.subrange(size, 2 * size);
        let p3 = inputs.subrange(2 * size, n as int);
        lemma_commander_vars_bound(size as nat);
        lemma_commander_vars_bound((n - 2 * size) as nat);
        let (f1, c1) = with_commander(f, p1);
        lemma_commander_shape(f, p1);
        let (f2, c2) = with_commander(f1, p2);
        lemma_commander_shape(f1, p2);
        let (f3, c3) = with_commander(f2, p3);
        lemma_commander_shape(f2, p3);
        let heads = seq![c1, c2, c3];
        lemma_group_shape(f3, heads);
    }
}

/// Soundness of the commander encoding: an assignment that satisfies the
/// encoded formula satisfies the formula before, makes at most one input
/// true, and makes the commander true exactly when it makes an input true.
pub proof fn lemma_commander_sound(f: Cnf, inputs: Seq<Lit>, a: Assignment)
    requires
        satisfies(a, with_commander(f, inputs).0.clauses),
    ensures
        satisfies(a, f.clauses),
        count_true(a, inputs) <= 1,
        lit_true(a, with_commander(f, inputs).1) <==> count_true(a, inputs) >= 1,
    decreases inputs.len(),
{
    let n = inputs.len();
    if n < DIRECT_LIMIT {
        lemma_satisfies_concat(a, f.clauses, group_clauses(inputs, f.next_lit()));
        lemma_group_meaning(a, inputs, f.next_lit());
    } else {
        let size = part_size(n) as int;
        let p1 = inputs.subrange(0, size);
        let p2 = inputs.subrange(size, 2 * size);
        let p3 = inputs.subrange(2 * size, n as int);
        let (f1, c1) = with_commander(f, p1);
        let (f2, c2) = with_commander(f1, p2);
        let (f3, c3) = with_commander(f2, p3);
        let heads = seq![c1, c2, c3];
        lemma_satisfies_concat(a, f3.clauses, group_clauses(heads, f3.next_lit()));
        lemma_group_meaning(a, heads, f3.next_lit());
        lemma_commander_sound(f2, p3, a);
        lemma_commander_sound(f1, p2, a);
        lemma_commander_sound(f, p1, a);
        lemma_parts_count(a, inputs);
        lemma_heads_count(a, c1, c2, c3);
    }
}

/// The count over a list is the sum of the counts over its three parts.
pub proof fn lemma_parts_count(a: Assignment, inputs: Seq<Lit>)
    requires
        inputs.len() >= DIRECT_LIMIT,
    ensures
        count_true(a, inputs) == count_true(a, inputs.subrange(0, part_size(inputs.len()) as int))
            + count_true(a, inputs.subrange(part_size(inputs.len()) as int, 2 * part_size(inputs.len()) as int))
            + count_true(a, inputs.subrange(2 * part_size(inputs.len()) as int, inputs.len() as int)),
{
    let n = inputs.len();
    let size = part_size(n) as int;
    let t1 = truth(a, inputs.subrange(0, size));
    let t2 = truth(a, inputs.subrange(size, 2 * size));
    let t3 = truth(a, inputs.subrange(2 * size, n as int));
    assert(truth(a, inputs) =~= t1 + t2 + t3);
    lemma_ones_concat(t1 + t2, t3);
    lemma_ones_concat(t1, t2);
}

/// The count over three literals is the number of true ones among them.
pub proof fn lemma_heads_count(a: Assignment, c1: Lit, c2: Lit, c3: Lit)
    ensures
        count_true(a, seq![c1, c2, c3]) == (if lit_true(a, c1) { 1nat } else { 0nat }) + (if lit_true(a, c2) { 1nat } else { 0nat })
            + (if lit_true(a, c3) { 1nat } else { 0nat }),
{
    let v = truth(a, seq![c1, c2, c3]);
    let v2 = v.drop_last();
    let v1 = v2.drop_last();
    let v0 = v1.drop_last();
    assert(v.last() == lit_true(a, c3));
    assert(v2.last() == lit_true(a, c2));
    assert(v1.last() == lit_true(a, c1));
    assert(v0.len() == 0);
    assert(ones(v) == ones(v2) + if v.last() { 1nat } else { 0nat });
    assert(ones(v2) == ones(v1) + if v2.last() { 1nat } else { 0nat });
    assert(ones(v1) == ones(v0) + if v1.last() { 1nat } else { 0nat });
}

/// Completeness of the commander encoding: an assignment that satisfies the
/// formula before and makes at most one input true can be changed on the new
/// variables alone so that it satisfies the encoded formula.
pub proof fn lemma_commander_complete(f: Cnf, inputs: Seq<Lit>, a: Assignment) -> (b: Assignment)
    requires
        f.wf(),
        in_range(inputs, f.var_count),
        f.var_count + commander_vars(inputs.len()) <= MAX_VAR_COUNT,
        satisfies(a, f.clauses),
        count_true(a, inputs) <= 1,
    ensures
        agree_below(a, b, f.var_count),
        satisfies(b, with_commander(f, inputs).0.clauses),
    decreases inputs.len(),
{
    let n = inputs.len();
    if n < DIRECT_LIMIT {
        lemma_group_complete(f, inputs, a)
    } else {
        let size = part_size(n) as int;
        let p1 = inputs.subrange(0, size);
        let p2 = inputs.subrange(size, 2 * size);
        let p3 = inputs.subrange(2 * size, n as int);
        let (f1, c1) = with_commander(f, p1);
        let (f2, c2) = with_commander(f1, p2);
        let (f3, c3) = with_commander(f2, p3);
        let heads = seq![c1, c2, c3];
        lemma_commander_vars_bound(size as nat);
        lemma_commander_vars_bound((n - 2 * size) as nat);
        lemma_commander_shape(f, p1);
        lemma_commander_shape(f1, p2);
        lemma_commander_shape(f2, p3);
        lemma_parts_count(a, inputs);
        let b1 = lemma_commander_complete(f, p1, a);
        lemma_agree_truth(a, b1, f.var_count, p2);
        let b2 = lemma_commander_complete(f1, p2, b1);
        lemma_agree_truth(a, b2, f.var_count, p3);
        let b3 = lemma_commander_complete(f2, p3, b2);
        lemma_agree_truth(a, b3, f.var_count, inputs);
        // under `b3` each head tells whether its part holds a true literal
        lemma_commander_sound(f2, p3, b3);
        lemma_commander_sound(f1, p2, b3);
        lemma_commander_sound(f, p1, b3);
        lemma_parts_count(b3, inputs);
        lemma_heads_count(b3, c1, c2, c3);
        let b = lemma_group_complete(f3, heads, b3);
        b
    }
}

/// Completeness of the direct encoding.
pub proof fn lemma_group_complete(f: Cnf, vars: Seq<Lit>, a: Assignment) -> (b: Assignment)
    requires
        f.wf(),
        in_range(vars, f.var_count),
        f.var_count < MAX_VAR_COUNT,
        satisfies(a, f.clauses),
        count_true(a, vars) <= 1,
    ensures
        agree_below(a, b, f.var_count),
        satisfies(b, with_group(f, vars).0.clauses),
{
    let b = assign(a, f.var_count, count_true(a, vars) >= 1);
    assert(agree_below(a, b, f.var_count));
    lemma_agree_satisfies(a, b, f);
    lemma_agree_truth(a, b, f.var_count, vars);
    assert(lit_true(b, f.next_lit()) == (count_true(a, vars) >= 1));
    lemma_group_meaning(b, vars, f.next_lit());
    lemma_satisfies_concat(b, f.clauses, group_clauses(vars, f.next_lit()));
    b
}

/// The shape of the three partial encodings of a long list.
pub proof fn lemma_parts_shape(f: Cnf, inputs: Seq<Lit>)
    requires
        inputs.len() >= DIRECT_LIMIT,
        in_range(inputs, f.var_count),
        f.var_count + commander_vars(inputs.len()) <= MAX_VAR_COUNT,
    ensures
        ({
            let n = inputs.len();
            let size = part_size(n) as int;
            let (f1, c1) = with_commander(f, inputs.subrange(0, size));
            let (f2, c2) = with_commander(f1, inputs.subrange(size, 2 * size));
            let (f3, c3) = with_commander(f2, inputs.subrange(2 * size, n as int));
            &&& 0 < size < 2 * size < n <= 3 * size
            &&& f1.var_count == f.var_count + commander_vars(size as nat)
            &&& f2.var_count == f1.var_count + commander_vars(size as nat)
            &&& f3.var_count == f2.var_count + commander_vars((n - 2 * size) as nat)
            &&& f3.var_count + 1 == f.var_count + commander_vars(n)
            &&& in_range(seq![c1, c2, c3], f3.var_count)
        }),
{
    let n = inputs.len();
    let size = part_size(n) as int;
    lemma_commander_vars_bound(size as nat);
    lemma_commander_vars_bound((n - 2 * size) as nat);
    let (f1, c1) = with_commander(f, inputs.subrange(0, size));
    lemma_commander_shape(f, inputs.subrange(0, size));
    let (f2, c2) = with_commander(f1, inputs.subrange(size, 2 * size));
    lemma_commander_shape(f1, inputs.subrange(size, 2 * size));
    let (f3, c3) = with_commander(f2, inputs.subrange(2 * size, n as int));
    lemma_commander_shape(f2, inputs.subrange(2 * size, n as int));
}

/// The number of variables that the commander encoding of `n` literals
/// allocates.
pub fn commander_var_count(n: usize) -> (count: usize)
    ensures
        count == commander_vars(n as nat),
    decreases n,
{
    if n < DIRECT_LIMIT {
        1
    } else {
        let size = div_ceil(n, 3);
        proof {
            lemma_commander_vars_bound(size as nat);
            lemma_commander_vars_bound((n - 2 * size) as nat);
        }
        let part = commander_var_count(size);
        let rest = commander_var_count(n - 2 * size);
        2 * part + rest + 1
    }
}

/// Encodes `vars` directly: allocates the commander and adds the clauses of
/// `group_clauses`.
pub(crate) fn encode_group(formula: &mut CnfFormula, vars: &[Lit]) -> (commander: Lit)
    requires
        in_range(vars@, formula_var_count(*old(formula))),
        formula_var_count(*old(formula)) < MAX_VAR_COUNT,
    ensures
        model(*final(formula)) == with_group(model(*old(formula)), vars@).0,
        commander == with_group(model(*old(formula)), vars@).1,
{
    let ghost f = model(*formula);
    let commander = new_lit(formula);
    let n = vars.len();
    let mut i: usize = 0;
    while i < n
        invariant
            n == vars@.len(),
            i <= n,
            in_range(vars@, f.var_count),
            f.var_count < MAX_VAR_COUNT,
            formula_var_count(*formula) == f.var_count + 1,
            formula_clauses(*formula) == f.clauses + exclusions(vars@, i as nat),
        decreases n - i,
    {
        let ghost before = f.clauses + exclusions(vars@, i as nat);
        proof {
            assert(before + exclusion_row(vars@, i as int, 0) =~= before);
        }
        let mut j: usize = 0;
        while j < i
            invariant
                n == vars@.len(),
                j <= i < n,
                in_range(vars@, f.var_count),
                f.var_count < MAX_VAR_COUNT,
                formula_var_count(*formula) == f.var_count + 1,
                before == f.clauses + exclusions(vars@, i as nat),
                formula_clauses(*formula) == before + exclusion_row(vars@, i as int, j as nat),
            decreases i - j,
        {
            let clause = [vars[i].negate(), vars[j].negate()];
            proof {
                assert(clause@ =~= seq![vars@[i as int].negated(), vars@[j as int].negated()]);
            }
            add_known_clause(formula, clause.as_slice());
            proof {
                assert(exclusion_row(vars@, i as int, (j + 1) as nat) =~= exclusion_row(
                    vars@,
                    i as int,
                    j as nat,
                ).push(clause@));
                assert(formula_clauses(*formula) =~= before + exclusion_row(
                    vars@,
                    i as int,
                    (j + 1) as nat,
                ));
            }
            j += 1;
        }
        proof {
            assert(formula_clauses(*formula) =~= f.clauses + exclusions(vars@, (i + 1) as nat));
        }
        i += 1;
    }
    let mut big = buffer_from(vars);
    buffer_push(&mut big, commander.negate());
    add_known_clause(formula, buffer_slice(&big));
    let ghost before = f.clauses + exclusions(vars@, n as nat) + seq![
        vars@.push(commander.negated()),
    ];
    proof {
        assert(formula_clauses(*formula) =~= before + implications(vars@, commander, 0));
    }
    let mut k: usize = 0;
    while k < n
        invariant
            n == vars@.len(),
            k <= n,
            in_range(vars@, f.var_count),
            f.var_count < MAX_VAR_COUNT,
            commander == f.next_lit(),
            formula_var_count(*formula) == f.var_count + 1,
            formula_clauses(*formula) == before + implications(vars@, commander, k as nat),
        decreases n - k,
    {
        let clause = [commander, vars[k].negate()];
        proof {
            assert(clause@ =~= seq![commander, vars@[k as int].negated()]);
        }
        add_known_clause(formula, clause.as_slice());
        proof {
            assert(implications(vars@, commander, (k + 1) as nat) =~= implications(
                vars@,
                commander,
                k as nat,
            ).push(clause@));
            assert(formula_clauses(*formula) =~= before + implications(
                vars@,
                commander,
                (k + 1) as nat,
            ));
        }
        k += 1;
    }
    proof {
        assert(formula_clauses(*formula) =~= with_group(f, vars@).0.clauses);
    }
    commander
}

/// Adds the commander encoding of `inputs` and returns the commander.
pub(crate) fn encode_commander(formula: &mut CnfFormula, inputs: &[Lit]) -> (commander: Lit)
    requires
        in_range(inputs@, formula_var_count(*old(formula))),
        formula_var_count(*old(formula)) + commander_vars(inputs@.len()) <= MAX_VAR_COUNT,
    ensures
        model(*final(formula)) == with_commander(model(*old(formula)), inputs@).0,
        commander == with_commander(model(*old(formula)), inputs@).1,
    decreases inputs@.len(),
{
    let n = inputs.len();
    proof {
        lemma_commander_vars_bound(n as nat);
    }
    if n < DIRECT_LIMIT {
        return encode_group(formula, inputs);
    }
    let size = div_ceil(n, 3);
    let ghost f = model(*formula);
    let ghost r1 = with_commander(f, inputs@.subrange(0, size as int));
    let ghost r2 = with_commander(r1.0, inputs@.subrange(size as int, 2 * size));
    let ghost r3 = with_commander(r2.0, inputs@.subrange(2 * size, n as int));
    proof {
        lemma_parts_shape(f, inputs@);
    }
    let mut heads = buffer_new();
    let mut start: usize = 0;
    while start < n
        invariant
            n == inputs@.len(),
            n >= DIRECT_LIMIT,
            size == part_size(n as nat),
            0 < size < 2 * size < n <= 3 * size,
            in_range(inputs@, f.var_count),
            f.var_count + commander_vars(n as nat) <= MAX_VAR_COUNT,
            r1 == with_commander(f, inputs@.subrange(0, size as int)),
            r2 == with_commander(r1.0, inputs@.subrange(size as int, 2 * size)),
            r3 == with_commander(r2.0, inputs@.subrange(2 * size, n as int)),
            start == 0 || start == size || start == 2 * size || start == n,
            start == 0 ==> model(*formula) == f && buffer_lits(heads) == Seq::<Lit>::empty(),
            start == size ==> model(*formula) == r1.0 && buffer_lits(heads) == seq![r1.1],
            start == 2 * size ==> model(*formula) == r2.0 && buffer_lits(heads) == seq![r1.1, r2.1],
            start == n ==> model(*formula) == r3.0 && buffer_lits(heads) == seq![r1.1, r2.1, r3.1],
        decreases n - start,
    {
        let end = if n - start < size { n } else { start + size };
        let part = slice_subrange(inputs, start, end);
        proof {
            lemma_parts_shape(f, inputs@);
        }
        let head = encode_commander(formula, part);
        let ghost earlier = buffer_lits(heads);
        buffer_push(&mut heads, head);
        proof {
            assert(buffer_lits(heads) =~= earlier.push(head));
            if start == 0 {
                assert(buffer_lits(heads) =~= seq![r1.1]);
            } else if start == size {
                assert(buffer_lits(heads) =~= seq![r1.1, r2.1]);
            } else {
                assert(buffer_lits(heads) =~= seq![r1.1, r2.1, r3.1]);
            }
        }
        start = end;
    }
    proof {
        lemma_parts_shape(f, inputs@);
    }
    encode_group(formula, buffer_slice(&heads))
}

} // verus!
