//! The constraints that callers ask for: exactly one, at most one, and
//! exactly `k` of a list of literals; and the commander and the sorting
//! network on their own.
//!
//! Every function here first decides whether the formula can take the
//! encoding.  If it cannot, the function says why and leaves the formula as it
//! was.  If it can, the function adds the encoding, and its contract states
//! both the clauses that were added and what they mean.

use vstd::prelude::*;
use varisat::CnfFormula;
use crate::lit::{Lit, in_range, MAX_VAR_COUNT};
use crate::formula::{Cnf, EncodeError, model, formula_clauses, formula_var_count, add_clause,
    add_known_clause, all_below, knows_all, cover, lemma_cover_bounds, lemma_cover_next};
use crate::semantics::{Assignment, lit_true, clause_true, satisfies, truth, count_true,
    agree_below, forces, allows, at_most_one, exactly, commanded, lemma_satisfies_push,
    lemma_satisfies_concat, lemma_agree_truth};
use crate::counting::{is_sorted_with, lemma_ones_none, lemma_ones_all, lemma_ones_pairs};
use crate::commander::{with_commander, commander_vars, implications, encode_commander,
    commander_var_count, lemma_commander_shape, lemma_commander_sound, lemma_commander_complete,
    lemma_implications_meaning};
use crate::network::{with_network, network_vars, fresh_lits, encode_network,
    network_var_count, lemma_network_shape, lemma_network_sound, lemma_network_complete};

verus! {

/// Why the commander encoding of `inputs` cannot be added to `f`, if it
/// cannot.
pub open spec fn commander_refusal(f: Cnf, inputs: Seq<Lit>) -> Option<EncodeError> {
    if !in_range(inputs, f.var_count) {
        Some(EncodeError::UnknownVariable)
    } else if f.var_count + commander_vars(inputs.len()) > MAX_VAR_COUNT {
        Some(EncodeError::TooManyVariables)
    } else {
        None
    }
}

/// Why "exactly one of `inputs`" cannot be added to `f`, if it cannot.
pub open spec fn exactly_one_refusal(f: Cnf, inputs: Seq<Lit>) -> Option<EncodeError> {
    if inputs.len() == 0 {
        Some(EncodeError::EmptyInput)
    } else {
        commander_refusal(f, inputs)
    }
}

/// Why the sorting network over `vars` cannot be added to `f`, if it cannot.
pub open spec fn network_refusal(f: Cnf, vars: Seq<Lit>) -> Option<EncodeError> {
    if !in_range(vars, f.var_count) {
        Some(EncodeError::UnknownVariable)
    } else if f.var_count + network_vars(vars.len()) > MAX_VAR_COUNT {
        Some(EncodeError::TooManyVariables)
    } else {
        None
    }
}

/// The number of variables that "exactly `k` of `n` literals" allocates.
pub open spec fn exactly_vars(n: nat, k: nat) -> nat {
    if k == 0 || k == n {
        0
    } else if k == 1 {
        commander_vars(n)
    } else {
        network_vars(n)
    }
}

/// Why "exactly `k` of `vars`" cannot be added to `f`, if it cannot.  Where
/// `k` is zero or the number of literals, the encoding allocates nothing and
/// takes every literal that a formula can hold, whether or not `f` has its
/// variable yet.
pub open spec fn exactly_refusal(f: Cnf, vars: Seq<Lit>, k: nat) -> Option<EncodeError> {
    if vars.len() == 0 {
        Some(EncodeError::EmptyInput)
    } else if k > vars.len() {
        Some(EncodeError::CountOutOfRange)
    } else if k == 0 || k == vars.len() {
        if !in_range(vars, MAX_VAR_COUNT as nat) {
            Some(EncodeError::UnknownVariable)
        } else {
            None
        }
    } else if !in_range(vars, f.var_count) {
        Some(EncodeError::UnknownVariable)
    } else if f.var_count + exactly_vars(vars.len(), k) > MAX_VAR_COUNT {
        Some(EncodeError::TooManyVariables)
    } else {
        None
    }
}

/// The formula with the commander encoding of `inputs` and the clause that
/// makes the commander true.
pub open spec fn with_exactly_one(f: Cnf, inputs: Seq<Lit>) -> Cnf {
    let (g, commander) = with_commander(f, inputs);
    g.with_clause(seq![commander])
}

/// The formula with the commander encoding of `inputs` and, for every input,
/// the clause by which it implies the commander.
pub open spec fn with_at_most_one(f: Cnf, inputs: Seq<Lit>) -> Cnf {
    let (g, commander) = with_commander(f, inputs);
    g.with_clauses(implications(inputs, commander, inputs.len()))
}

/// One clause for each literal, which gives the literal the value `value`.
pub open spec fn forced(lits: Seq<Lit>, value: bool) -> Seq<Seq<Lit>> {
    Seq::new(lits.len(), |i: int| seq![if value { lits[i] } else { lits[i].negated() }])
}

/// The formula with one clause for each literal, which gives the literal the
/// value `value`, and with the variable count raised to cover the literals.
pub open spec fn with_forced(f: Cnf, lits: Seq<Lit>, value: bool) -> Cnf {
    Cnf { var_count: cover(f.var_count, lits), clauses: f.clauses + forced(lits, value) }
}

/// The formula with the encoding of "exactly `k` of `vars`": all false for
/// `k == 0`, all true for `k == vars.len()`, the commander encoding for
/// `k == 1`, and otherwise the sorting network with two clauses on its
/// outputs, which say that at least `k` inputs are true and that fewer than
/// `k + 1` are.
pub open spec fn with_exactly(f: Cnf, vars: Seq<Lit>, k: nat) -> Cnf {
    let n = vars.len();
    if k == 0 {
        with_forced(f, vars, false)
    } else if k == n {
        with_forced(f, vars, true)
    } else if k == 1 {
        with_exactly_one(f, vars)
    } else {
        let (g, sorted) = with_network(f, vars);
        g.with_clause(seq![sorted[n - k - 1].negated()]).with_clause(seq![sorted[n - k]])
    }
}

/// The demand that `outputs` hold the values of `inputs` in sorted order:
/// output `i` is true exactly when at least `inputs.len() - i` inputs are.
pub open spec fn sorts(inputs: Seq<Lit>, outputs: Seq<Lit>) -> spec_fn(Assignment) -> bool {
    |a: Assignment| is_sorted_with(truth(a, outputs), count_true(a, inputs))
}

/// The demand that every assignment meets.
pub open spec fn anything() -> spec_fn(Assignment) -> bool {
    |a: Assignment| true
}

/// What a clause of one literal means.
pub proof fn lemma_unit_clause(a: Assignment, lit: Lit)
    ensures
        clause_true(a, seq![lit]) == lit_true(a, lit),
{
    let c = seq![lit];
    assert(c[0] == lit);
    if lit_true(a, lit) {
        assert(lit_true(a, c[0]));
    }
}

/// What the commander encoding means: every assignment that satisfies it
/// makes at most one input true and the commander true exactly when an input
/// is; and every assignment that makes at most one input true can be
/// extended to satisfy it.
pub proof fn commander_meaning(f: Cnf, inputs: Seq<Lit>)
    requires
        commander_refusal(f, inputs) is None,
    ensures
        forces(f, with_commander(f, inputs).0, commanded(inputs, with_commander(f, inputs).1)),
        with_commander(f, inputs).0.extends(f),
        f.wf() ==> with_commander(f, inputs).0.wf(),
        f.wf() ==> allows(f, with_commander(f, inputs).0, at_most_one(inputs)),
{
    let (g, commander) = with_commander(f, inputs);
    lemma_commander_shape(f, inputs);
    assert forall|a: Assignment| #[trigger] satisfies(a, g.clauses) implies satisfies(a, f.clauses)
        && commanded(inputs, commander)(a) by {
        lemma_commander_sound(f, inputs, a);
    }
    if f.wf() {
        assert forall|a: Assignment| #[trigger] satisfies(a, f.clauses) && at_most_one(inputs)(
            a,
        ) implies exists|b: Assignment|
            agree_below(a, b, f.var_count) && #[trigger] satisfies(b, g.clauses) by {
            let b = lemma_commander_complete(f, inputs, a);
            assert(agree_below(a, b, f.var_count) && satisfies(b, g.clauses));
        }
    }
}

/// Completeness of "exactly one": an assignment that satisfies `f` and makes
/// exactly one input true can be changed on the new variables so that it
/// satisfies the encoding.
pub proof fn lemma_exactly_one_complete(f: Cnf, inputs: Seq<Lit>, a: Assignment) -> (b: Assignment)
    requires
        f.wf(),
        commander_refusal(f, inputs) is None,
        satisfies(a, f.clauses),
        count_true(a, inputs) == 1,
    ensures
        agree_below(a, b, f.var_count),
        satisfies(b, with_exactly_one(f, inputs).clauses),
{
    let (g, commander) = with_commander(f, inputs);
    let b = lemma_commander_complete(f, inputs, a);
    lemma_agree_truth(a, b, f.var_count, inputs);
    lemma_commander_sound(f, inputs, b);
    lemma_unit_clause(b, commander);
    lemma_satisfies_push(b, g.clauses, seq![commander]);
    b
}

/// What "exactly one" means: the assignments that satisfy the encoding are
/// those that satisfy the formula before and make exactly one input true,
/// extended to the new variables.
pub proof fn exactly_one_meaning(f: Cnf, inputs: Seq<Lit>)
    requires
        commander_refusal(f, inputs) is None,
    ensures
        forces(f, with_exactly_one(f, inputs), exactly(inputs, 1)),
        with_exactly_one(f, inputs).extends(f),
        f.wf() ==> with_exactly_one(f, inputs).wf(),
        f.wf() ==> allows(f, with_exactly_one(f, inputs), exactly(inputs, 1)),
{
    let (g, commander) = with_commander(f, inputs);
    let e = with_exactly_one(f, inputs);
    lemma_commander_shape(f, inputs);
    assert forall|a: Assignment| #[trigger] satisfies(a, e.clauses) implies satisfies(a, f.clauses)
        && exactly(inputs, 1)(a) by {
        lemma_satisfies_push(a, g.clauses, seq![commander]);
        lemma_unit_clause(a, commander);
        lemma_commander_sound(f, inputs, a);
    }
    if f.wf() {
        assert forall|j: int| 0 <= j < e.clauses.len() implies in_range(#[trigger] e.clauses[j], e.var_count) by {
            if j < g.clauses.len() {
                assert(e.clauses[j] == g.clauses[j]);
            }
        }
        assert forall|a: Assignment| #[trigger] satisfies(a, f.clauses) && exactly(inputs, 1)(
            a,
        ) implies exists|b: Assignment|
            agree_below(a, b, f.var_count) && #[trigger] satisfies(b, e.clauses) by {
            let b = lemma_exactly_one_complete(f, inputs, a);
            assert(agree_below(a, b, f.var_count) && satisfies(b, e.clauses));
        }
    }
}

/// Two "exactly one" constraints, one added after the other, both hold under
/// every assignment that satisfies the result, whether or not their inputs
/// overlap.  So where no assignment makes exactly one literal of each list
/// true, the result cannot be satisfied.
pub proof fn exactly_one_twice(f: Cnf, first: Seq<Lit>, second: Seq<Lit>)
    requires
        commander_refusal(f, first) is None,
        commander_refusal(with_exactly_one(f, first), second) is None,
    ensures
        forall|a: Assignment| #[trigger]
            satisfies(a, with_exactly_one(with_exactly_one(f, first), second).clauses) ==> satisfies(
                a,
                f.clauses,
            ) && count_true(a, first) == 1 && count_true(a, second) == 1,
        (forall|a: Assignment| !(count_true(a, first) == 1 && count_true(a, second) == 1)) ==> forall|
            a: Assignment,
        | !#[trigger] satisfies(a, with_exactly_one(with_exactly_one(f, first), second).clauses),
{
    let g = with_exactly_one(f, first);
    exactly_one_meaning(f, first);
    exactly_one_meaning(g, second);
    assert forall|a: Assignment| #[trigger]
        satisfies(a, with_exactly_one(g, second).clauses) implies satisfies(a, f.clauses)
        && count_true(a, first) == 1 && count_true(a, second) == 1 by {
        assert(satisfies(a, g.clauses) && exactly(second, 1)(a));
        assert(satisfies(a, f.clauses) && exactly(first, 1)(a));
    }
}

/// "Exactly one" of `n` fresh variables, with nothing else demanded of them,
/// can be satisfied.
pub proof fn exactly_one_satisfiable(n: nat)
    requires
        1 <= n,
        n + commander_vars(n) <= MAX_VAR_COUNT,
    ensures
        exists|b: Assignment| #[trigger]
            satisfies(
                b,
                with_exactly_one(Cnf { var_count: n, clauses: Seq::empty() }, fresh_lits(0, n)).clauses,
            ),
{
    let f = Cnf { var_count: n, clauses: Seq::empty() };
    let inputs = fresh_lits(0, n);
    let a: Assignment = |v: nat| v == 0;
    let v = truth(a, inputs);
    assert forall|i: int| 0 <= i < n implies #[trigger] v[i] == (i == 0) by {
        assert(inputs[i] == Lit::of_var(i as nat));
    }
    assert(v[0]);
    lemma_ones_pairs(v);
    lemma_ones_none(v);
    let b = lemma_exactly_one_complete(f, inputs, a);
    assert(satisfies(b, with_exactly_one(f, inputs).clauses));
}

/// Completeness of "at most one".
pub proof fn lemma_at_most_one_complete(f: Cnf, inputs: Seq<Lit>, a: Assignment) -> (b: Assignment)
    requires
        f.wf(),
        commander_refusal(f, inputs) is None,
        satisfies(a, f.clauses),
        count_true(a, inputs) <= 1,
    ensures
        agree_below(a, b, f.var_count),
        satisfies(b, with_at_most_one(f, inputs).clauses),
{
    let (g, commander) = with_commander(f, inputs);
    let b = lemma_commander_complete(f, inputs, a);
    lemma_commander_sound(f, inputs, b);
    lemma_implications_meaning(b, inputs, commander);
    lemma_satisfies_concat(b, g.clauses, implications(inputs, commander, inputs.len()));
    b
}

/// What "at most one" means: the assignments that satisfy the encoding make
/// at most one input true, and every assignment that satisfies the formula
/// before and makes at most one input true, the one that makes none true
/// among them, can be extended to satisfy the encoding.
pub proof fn at_most_one_meaning(f: Cnf, inputs: Seq<Lit>)
    requires
        commander_refusal(f, inputs) is None,
    ensures
        forces(f, with_at_most_one(f, inputs), at_most_one(inputs)),
        with_at_most_one(f, inputs).extends(f),
        f.wf() ==> with_at_most_one(f, inputs).wf(),
        f.wf() ==> allows(f, with_at_most_one(f, inputs), at_most_one(inputs)),
{
    let (g, commander) = with_commander(f, inputs);
    let e = with_at_most_one(f, inputs);
    let imp = implications(inputs, commander, inputs.len());
    lemma_commander_shape(f, inputs);
    assert forall|a: Assignment| #[trigger] satisfies(a, e.clauses) implies satisfies(a, f.clauses)
        && at_most_one(inputs)(a) by {
        lemma_satisfies_concat(a, g.clauses, imp);
        lemma_commander_sound(f, inputs, a);
    }
    if f.wf() {
        assert forall|j: int| 0 <= j < e.clauses.len() implies in_range(#[trigger] e.clauses[j], e.var_count) by {
            if j < g.clauses.len() {
                assert(e.clauses[j] == g.clauses[j]);
            } else {
                assert(e.clauses[j] == imp[j - g.clauses.len()]);
            }
        }
        assert forall|a: Assignment| #[trigger] satisfies(a, f.clauses) && at_most_one(inputs)(
            a,
        ) implies exists|b: Assignment|
            agree_below(a, b, f.var_count) && #[trigger] satisfies(b, e.clauses) by {
            let b = lemma_at_most_one_complete(f, inputs, a);
            assert(agree_below(a, b, f.var_count) && satisfies(b, e.clauses));
        }
    }
}

/// What the sorting network means: every assignment that satisfies it
/// gives the outputs the values of the inputs in sorted order, and every
/// assignment can be extended to satisfy it.
pub proof fn network_meaning(f: Cnf, vars: Seq<Lit>)
    requires
        network_refusal(f, vars) is None,
    ensures
        with_network(f, vars).1.len() == vars.len(),
        with_network(f, vars).0.extends(f),
        forces(f, with_network(f, vars).0, sorts(vars, with_network(f, vars).1)),
        f.wf() ==> with_network(f, vars).0.wf(),
        f.wf() ==> allows(f, with_network(f, vars).0, anything()),
{
    let (g, sorted) = with_network(f, vars);
    lemma_network_shape(f, vars);
    assert forall|a: Assignment| #[trigger] satisfies(a, g.clauses) implies satisfies(a, f.clauses)
        && sorts(vars, sorted)(a) by {
        lemma_network_sound(f, vars, a);
    }
    if f.wf() {
        assert forall|a: Assignment| #[trigger] satisfies(a, f.clauses) && anything()(a) implies exists|
            b: Assignment,
        |
            agree_below(a, b, f.var_count) && #[trigger] satisfies(b, g.clauses) by {
            let b = lemma_network_complete(f, vars, a);
            assert(agree_below(a, b, f.var_count) && satisfies(b, g.clauses));
        }
    }
}

/// What the clauses of `forced` mean.
pub proof fn lemma_forced_meaning(a: Assignment, lits: Seq<Lit>, value: bool)
    ensures
        satisfies(a, forced(lits, value)) <==> count_true(a, lits) == (if value { lits.len() } else { 0 }),
{
    let cs = forced(lits, value);
    let v = truth(a, lits);
    lemma_ones_none(v);
    lemma_ones_all(v);
    assert forall|i: int| 0 <= i < lits.len() implies clause_true(a, #[trigger] cs[i]) == (v[i] == value) by {
        lemma_unit_clause(a, if value { lits[i] } else { lits[i].negated() });
    }
    if satisfies(a, cs) {
        assert forall|i: int| 0 <= i < v.len() implies #[trigger] v[i] == value by {
            assert(clause_true(a, cs[i]));
        }
    }
    if count_true(a, lits) == (if value { lits.len() } else { 0 }) {
        assert forall|i: int| 0 <= i < cs.len() implies clause_true(a, #[trigger] cs[i]) by {
            assert(v[i] == value);
        }
    }
}

/// Soundness of "exactly `k`": an assignment that satisfies the encoding
/// satisfies the formula before and makes exactly `k` of the literals true.
pub proof fn lemma_exactly_sound(f: Cnf, vars: Seq<Lit>, k: nat, a: Assignment)
    requires
        exactly_refusal(f, vars, k) is None,
        satisfies(a, with_exactly(f, vars, k).clauses),
    ensures
        satisfies(a, f.clauses),
        count_true(a, vars) == k,
{
    let n = vars.len();
    if k == 0 {
        lemma_satisfies_concat(a, f.clauses, forced(vars, false));
        lemma_forced_meaning(a, vars, false);
    } else if k == n {
        lemma_satisfies_concat(a, f.clauses, forced(vars, true));
        lemma_forced_meaning(a, vars, true);
    } else if k == 1 {
        let (g, commander) = with_commander(f, vars);
        lemma_satisfies_push(a, g.clauses, seq![commander]);
        lemma_unit_clause(a, commander);
        lemma_commander_sound(f, vars, a);
    } else {
        let (g, sorted) = with_network(f, vars);
        let low = seq![sorted[n - k - 1].negated()];
        let high = seq![sorted[n - k]];
        lemma_network_shape(f, vars);
        lemma_satisfies_push(a, g.with_clause(low).clauses, high);
        lemma_satisfies_push(a, g.clauses, low);
        lemma_unit_clause(a, sorted[n - k - 1].negated());
        lemma_unit_clause(a, sorted[n - k]);
        lemma_network_sound(f, vars, a);
        let v = truth(a, sorted);
        assert(v[n - k - 1] == lit_true(a, sorted[n - k - 1]));
        assert(v[n - k] == lit_true(a, sorted[n - k]));
    }
}

/// Completeness of "exactly `k`": an assignment that satisfies the formula
/// before and makes exactly `k` of the literals true can be changed on the
/// new variables so that it satisfies the encoding.
pub proof fn lemma_exactly_complete(f: Cnf, vars: Seq<Lit>, k: nat, a: Assignment) -> (b: Assignment)
    requires
        f.wf(),
        exactly_refusal(f, vars, k) is None,
        satisfies(a, f.clauses),
        count_true(a, vars) == k,
    ensures
        agree_below(a, b, f.var_count),
        satisfies(b, with_exactly(f, vars, k).clauses),
{
    let n = vars.len();
    if k == 0 {
        lemma_forced_meaning(a, vars, false);
        lemma_satisfies_concat(a, f.clauses, forced(vars, false));
        a
    } else if k == n {
        lemma_forced_meaning(a, vars, true);
        lemma_satisfies_concat(a, f.clauses, forced(vars, true));
        a
    } else if k == 1 {
        lemma_exactly_one_complete(f, vars, a)
    } else {
        let (g, sorted) = with_network(f, vars);
        let low = seq![sorted[n - k - 1].negated()];
        let high = seq![sorted[n - k]];
        lemma_network_shape(f, vars);
        let b = lemma_network_complete(f, vars, a);
        lemma_agree_truth(a, b, f.var_count, vars);
        lemma_network_sound(f, vars, b);
        let v = truth(b, sorted);
        assert(v[n - k - 1] == lit_true(b, sorted[n - k - 1]));
        assert(v[n - k] == lit_true(b, sorted[n - k]));
        lemma_unit_clause(b, sorted[n - k - 1].negated());
        lemma_unit_clause(b, sorted[n - k]);
        lemma_satisfies_push(b, g.clauses, low);
        lemma_satisfies_push(b, g.with_clause(low).clauses, high);
        b
    }
}

/// The encoding of "exactly `k`" keeps the old clauses first and speaks of
/// known variables only.
pub proof fn lemma_exactly_shape(f: Cnf, vars: Seq<Lit>, k: nat)
    requires
        exactly_refusal(f, vars, k) is None,
    ensures
        k == 0 || k == vars.len() ==> with_exactly(f, vars, k).var_count == cover(f.var_count, vars),
        0 < k < vars.len() ==> with_exactly(f, vars, k).var_count == f.var_count + exactly_vars(
            vars.len(),
            k,
        ),
        with_exactly(f, vars, k).extends(f),
        f.wf() ==> with_exactly(f, vars, k).wf(),
{
    let n = vars.len();
    let e = with_exactly(f, vars, k);
    if k == 0 || k == n {
        let cs = forced(vars, k != 0);
        lemma_cover_bounds(f.var_count, vars);
        if f.wf() {
            assert forall|j: int| 0 <= j < e.clauses.len() implies in_range(#[trigger] e.clauses[j], e.var_count) by {
                if j < f.clauses.len() {
                    assert(e.clauses[j] == f.clauses[j]);
                } else {
                    assert(e.clauses[j] == cs[j - f.clauses.len()]);
                }
            }
        }
    } else if k == 1 {
        exactly_one_meaning(f, vars);
        lemma_commander_shape(f, vars);
    } else {
        let (g, sorted) = with_network(f, vars);
        lemma_network_shape(f, vars);
        if f.wf() {
            assert forall|j: int| 0 <= j < e.clauses.len() implies in_range(#[trigger] e.clauses[j], e.var_count) by {
                if j < g.clauses.len() {
                    assert(e.clauses[j] == g.clauses[j]);
                }
            }
        }
    }
}

/// What "exactly `k`" means: the assignments that satisfy the encoding are
/// those that satisfy the formula before and make exactly `k` of the literals
/// true, extended to the new variables.
pub proof fn exactly_meaning(f: Cnf, vars: Seq<Lit>, k: nat)
    requires
        exactly_refusal(f, vars, k) is None,
    ensures
        forces(f, with_exactly(f, vars, k), exactly(vars, k)),
        f.wf() ==> allows(f, with_exactly(f, vars, k), exactly(vars, k)),
{
    let e = with_exactly(f, vars, k);
    assert forall|a: Assignment| #[trigger] satisfies(a, e.clauses) implies satisfies(a, f.clauses)
        && exactly(vars, k)(a) by {
        lemma_exactly_sound(f, vars, k, a);
    }
    if f.wf() {
        assert forall|a: Assignment| #[trigger] satisfies(a, f.clauses) && exactly(vars, k)(a) implies exists|
            b: Assignment,
        |
            agree_below(a, b, f.var_count) && #[trigger] satisfies(b, e.clauses) by {
            let b = lemma_exactly_complete(f, vars, k, a);
            assert(agree_below(a, b, f.var_count) && satisfies(b, e.clauses));
        }
    }
}

/// Tells whether the formula can take `extra` more variables.
fn has_room(formula: &CnfFormula, extra: usize) -> (fits: bool)
    ensures
        fits == (formula_var_count(*formula) + extra <= MAX_VAR_COUNT),
{
    let count = formula.var_count();
    count <= MAX_VAR_COUNT && extra <= MAX_VAR_COUNT - count
}

/// Decides whether the formula can take the commander encoding of `inputs`.
fn check_commander(formula: &CnfFormula, inputs: &[Lit]) -> (refusal: Option<EncodeError>)
    ensures
        refusal == commander_refusal(model(*formula), inputs@),
        model(*formula).wf(),
{
    if !knows_all(formula, inputs) {
        Some(EncodeError::UnknownVariable)
    } else if !has_room(formula, commander_var_count(inputs.len())) {
        Some(EncodeError::TooManyVariables)
    } else {
        None
    }
}

/// Adds the commander encoding of `input_variables` to the formula and
/// returns the commander: a literal that is true exactly when one of the
/// inputs is, while no two inputs can be true together.
pub fn commander_exactly_one(formula: &mut CnfFormula, input_variables: &[Lit]) -> (result: Result<
    Lit,
    EncodeError,
>)
    ensures
        match result {
            Ok(commander) => {
                &&& commander_refusal(model(*old(formula)), input_variables@) is None
                &&& model(*final(formula)) == with_commander(model(*old(formula)), input_variables@).0
                &&& commander == with_commander(model(*old(formula)), input_variables@).1
                &&& model(*final(formula)).extends(model(*old(formula)))
                &&& forces(
                    model(*old(formula)),
                    model(*final(formula)),
                    commanded(input_variables@, commander),
                )
                &&& allows(model(*old(formula)), model(*final(formula)), at_most_one(input_variables@))
            },
            Err(error) => {
                &&& commander_refusal(model(*old(formula)), input_variables@) == Some(error)
                &&& *final(formula) == *old(formula)
            },
        },
{
    match check_commander(formula, input_variables) {
        Some(error) => Err(error),
        None => {
            proof {
                commander_meaning(model(*formula), input_variables@);
            }
            Ok(encode_commander(formula, input_variables))
        },
    }
}

/// Adds clauses that make exactly one of `input_variables` true.
pub fn add_exactly_one(formula: &mut CnfFormula, input_variables: &[Lit]) -> (result: Result<
    (),
    EncodeError,
>)
    ensures
        match result {
            Ok(_) => {
                &&& exactly_one_refusal(model(*old(formula)), input_variables@) is None
                &&& model(*final(formula)) == with_exactly_one(model(*old(formula)), input_variables@)
                &&& model(*final(formula)).extends(model(*old(formula)))
                &&& forces(model(*old(formula)), model(*final(formula)), exactly(input_variables@, 1))
                &&& allows(model(*old(formula)), model(*final(formula)), exactly(input_variables@, 1))
            },
            Err(error) => {
                &&& exactly_one_refusal(model(*old(formula)), input_variables@) == Some(error)
                &&& *final(formula) == *old(formula)
            },
        },
{
    if input_variables.len() == 0 {
        return Err(EncodeError::EmptyInput);
    }
    match check_commander(formula, input_variables) {
        Some(error) => Err(error),
        None => {
            proof {
                exactly_one_meaning(model(*formula), input_variables@);
            }
            encode_exactly_one(formula, input_variables);
            Ok(())
        },
    }
}

/// Adds the commander encoding and makes the commander true.
fn encode_exactly_one(formula: &mut CnfFormula, inputs: &[Lit])
    requires
        commander_refusal(model(*old(formula)), inputs@) is None,
    ensures
        model(*final(formula)) == with_exactly_one(model(*old(formula)), inputs@),
{
    proof {
        lemma_commander_shape(model(*formula), inputs@);
    }
    let commander = encode_commander(formula, inputs);
    let clause = [commander];
    proof {
        assert(clause@ =~= seq![commander]);
    }
    add_known_clause(formula, clause.as_slice());
}

/// Adds clauses that let at most one of `input_variables` be true.
pub fn add_at_most_one(formula: &mut CnfFormula, input_variables: &[Lit]) -> (result: Result<
    (),
    EncodeError,
>)
    ensures
        match result {
            Ok(_) => {
                &&& commander_refusal(model(*old(formula)), input_variables@) is None
                &&& model(*final(formula)) == with_at_most_one(model(*old(formula)), input_variables@)
                &&& model(*final(formula)).extends(model(*old(formula)))
                &&& forces(model(*old(formula)), model(*final(formula)), at_most_one(input_variables@))
                &&& allows(model(*old(formula)), model(*final(formula)), at_most_one(input_variables@))
            },
            Err(error) => {
                &&& commander_refusal(model(*old(formula)), input_variables@) == Some(error)
                &&& *final(formula) == *old(formula)
            },
        },
{
    match check_commander(formula, input_variables) {
        Some(error) => Err(error),
        None => {
            let ghost f = model(*formula);
            proof {
                at_most_one_meaning(f, input_variables@);
                lemma_commander_shape(f, input_variables@);
            }
            let commander = encode_commander(formula, input_variables);
            let ghost g = model(*formula);
            let n = input_variables.len();
            let mut k: usize = 0;
            proof {
                assert(formula_clauses(*formula) =~= g.clauses + implications(input_variables@, commander, 0));
            }
            while k < n
                invariant
                    n == input_variables@.len(),
                    k <= n,
                    in_range(input_variables@, g.var_count),
                    commander.var < g.var_count,
                    g.var_count <= MAX_VAR_COUNT,
                    formula_var_count(*formula) == g.var_count,
                    formula_clauses(*formula) == g.clauses + implications(
                        input_variables@,
                        commander,
                        k as nat,
                    ),
                decreases n - k,
            {
                let clause = [commander, input_variables[k].negate()];
                proof {
                    assert(clause@ =~= seq![commander, input_variables@[k as int].negated()]);
                }
                add_known_clause(formula, clause.as_slice());
                proof {
                    assert(implications(input_variables@, commander, (k + 1) as nat) =~= implications(
                        input_variables@,
                        commander,
                        k as nat,
                    ).push(clause@));
                    assert(formula_clauses(*formula) =~= g.clauses + implications(
                        input_variables@,
                        commander,
                        (k + 1) as nat,
                    ));
                }
                k += 1;
            }
            Ok(())
        },
    }
}

/// Adds a sorting network over `vars` to the formula and returns its
/// outputs: as many literals as `vars` has, of which, under every satisfying
/// assignment, as many are true as inputs are, and those the last.
pub fn make_sorting_network(formula: &mut CnfFormula, vars: &[Lit]) -> (result: Result<
    Vec<Lit>,
    EncodeError,
>)
    ensures
        match result {
            Ok(sorted) => {
                &&& network_refusal(model(*old(formula)), vars@) is None
                &&& model(*final(formula)) == with_network(model(*old(formula)), vars@).0
                &&& sorted@ == with_network(model(*old(formula)), vars@).1
                &&& sorted@.len() == vars@.len()
                &&& model(*final(formula)).extends(model(*old(formula)))
                &&& forces(model(*old(formula)), model(*final(formula)), sorts(vars@, sorted@))
                &&& allows(model(*old(formula)), model(*final(formula)), anything())
            },
            Err(error) => {
                &&& network_refusal(model(*old(formula)), vars@) == Some(error)
                &&& *final(formula) == *old(formula)
            },
        },
{
    if !knows_all(formula, vars) {
        return Err(EncodeError::UnknownVariable);
    }
    match network_var_count(vars.len()) {
        None => Err(EncodeError::TooManyVariables),
        Some(extra) => {
            if !has_room(formula, extra) {
                return Err(EncodeError::TooManyVariables);
            }
            proof {
                network_meaning(model(*formula), vars@);
            }
            Ok(encode_network(formula, vars))
        },
    }
}

/// Adds one clause for each literal, which gives the literal the value
/// `value`.  The formula takes the variables of the literals that it does not
/// have yet.
fn force_all(formula: &mut CnfFormula, lits: &[Lit], value: bool)
    requires
        in_range(lits@, MAX_VAR_COUNT as nat),
    ensures
        model(*final(formula)) == with_forced(model(*old(formula)), lits@, value),
{
    let ghost f = model(*formula);
    let n = lits.len();
    let mut i: usize = 0;
    proof {
        assert(formula_clauses(*formula) =~= f.clauses + forced(lits@, value).take(0));
    }
    proof {
        assert(lits@.take(0) =~= Seq::<Lit>::empty());
    }
    while i < n
        invariant
            n == lits@.len(),
            i <= n,
            in_range(lits@, MAX_VAR_COUNT as nat),
            formula_var_count(*formula) == cover(f.var_count, lits@.take(i as int)),
            formula_clauses(*formula) == f.clauses + forced(lits@, value).take(i as int),
        decreases n - i,
    {
        let lit = if value { lits[i] } else { lits[i].negate() };
        let clause = [lit];
        proof {
            assert(clause@ =~= seq![lit]);
            lemma_cover_next(f.var_count, lits@, i as int, lit);
        }
        add_clause(formula, clause.as_slice());
        proof {
            assert(forced(lits@, value).take(i + 1) =~= forced(lits@, value).take(i as int).push(clause@));
            assert(formula_clauses(*formula) =~= f.clauses + forced(lits@, value).take(i + 1));
        }
        i += 1;
    }
    proof {
        assert(forced(lits@, value).take(n as int) =~= forced(lits@, value));
        assert(lits@.take(n as int) =~= lits@);
    }
}

/// Adds clauses that make exactly `k` of `vars` true.
pub fn exactly_k(formula: &mut CnfFormula, vars: &[Lit], k: usize) -> (result: Result<(), EncodeError>)
    ensures
        match result {
            Ok(_) => {
                &&& exactly_refusal(model(*old(formula)), vars@, k as nat) is None
                &&& model(*final(formula)) == with_exactly(model(*old(formula)), vars@, k as nat)
                &&& model(*final(formula)).extends(model(*old(formula)))
                &&& forces(model(*old(formula)), model(*final(formula)), exactly(vars@, k as nat))
                &&& allows(model(*old(formula)), model(*final(formula)), exactly(vars@, k as nat))
            },
            Err(error) => {
                &&& exactly_refusal(model(*old(formula)), vars@, k as nat) == Some(error)
                &&& *final(formula) == *old(formula)
            },
        },
{
    let n = vars.len();
    let ghost f = model(*formula);
    if n == 0 {
        return Err(EncodeError::EmptyInput);
    }
    if k > n {
        return Err(EncodeError::CountOutOfRange);
    }
    let known = knows_all(formula, vars);
    if k == 0 || k == n {
        if !all_below(vars, MAX_VAR_COUNT) {
            return Err(EncodeError::UnknownVariable);
        }
        force_all(formula, vars, k != 0);
    } else if !known {
        return Err(EncodeError::UnknownVariable);
    } else if k == 1 {
        if !has_room(formula, commander_var_count(n)) {
            return Err(EncodeError::TooManyVariables);
        }
        encode_exactly_one(formula, vars);
    } else {
        match network_var_count(n) {
            None => {
                return Err(EncodeError::TooManyVariables);
            },
            Some(extra) => {
                if !has_room(formula, extra) {
                    return Err(EncodeError::TooManyVariables);
                }
            },
        }
        proof {
            lemma_network_shape(f, vars@);
        }
        let sorted = encode_network(formula, vars);
        let below = [sorted[n - k - 1].negate()];
        let at = [sorted[n - k]];
        proof {
            assert(below@ =~= seq![sorted@[n - k - 1].negated()]);
            assert(at@ =~= seq![sorted@[n - k]]);
        }
        add_known_clause(formula, below.as_slice());
        add_known_clause(formula, at.as_slice());
    }
    proof {
        lemma_exactly_shape(f, vars@, k as nat);
        exactly_meaning(f, vars@, k as nat);
    }
    Ok(())
}

} // verus!
