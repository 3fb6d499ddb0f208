//! What a formula means: assignments, and when an assignment satisfies a
//! literal, a clause or a list of clauses.

use vstd::prelude::*;
use crate::lit::{Lit, in_range};
use crate::formula::Cnf;

verus! {

/// A truth value for every variable, by the variable's index.
pub type Assignment = spec_fn(nat) -> bool;

/// The literal is true under the assignment.
pub open spec fn lit_true(a: Assignment, lit: Lit) -> bool {
    a(lit.var as nat) == lit.positive
}

/// At least one literal of the clause is true under the assignment.
pub open spec fn clause_true(a: Assignment, clause: Seq<Lit>) -> bool {
    exists|i: int| 0 <= i < clause.len() && lit_true(a, #[trigger] clause[i])
}

/// Every clause of the list is true under the assignment.
pub open spec fn satisfies(a: Assignment, clauses: Seq<Seq<Lit>>) -> bool {
    forall|j: int| 0 <= j < clauses.len() ==> clause_true(a, #[trigger] clauses[j])
}

/// The truth values of a list of literals, position by position.
pub open spec fn truth(a: Assignment, lits: Seq<Lit>) -> Seq<bool> {
    Seq::new(lits.len(), |i: int| lit_true(a, lits[i]))
}

/// The number of `true` entries of a list of truth values.
pub open spec fn ones(v: Seq<bool>) -> nat
    decreases v.len(),
{
    if v.len() == 0 {
        0
    } else {
        ones(v.drop_last()) + if v.last() { 1nat } else { 0nat }
    }
}

/// The number of positions of `lits` whose literal is true under `a`.
pub open spec fn count_true(a: Assignment, lits: Seq<Lit>) -> nat {
    ones(truth(a, lits))
}

/// The two assignments give the same value to every variable below `bound`.
pub open spec fn agree_below(a: Assignment, b: Assignment, bound: nat) -> bool {
    forall|v: nat| v < bound ==> #[trigger] a(v) == b(v)
}

/// The assignment `a`, changed to `value` at variable `var`.
pub open spec fn assign(a: Assignment, var: nat, value: bool) -> Assignment {
    |v: nat| if v == var { value } else { a(v) }
}

/// Every assignment that satisfies `g` satisfies `f` and meets `demand`.
pub open spec fn forces(f: Cnf, g: Cnf, demand: spec_fn(Assignment) -> bool) -> bool {
    forall|a: Assignment| #[trigger] satisfies(a, g.clauses) ==> satisfies(a, f.clauses) && demand(a)
}

/// Every assignment that satisfies `f` and meets `demand` can be changed on
/// the variables that `f` does not have so that it satisfies `g`.
pub open spec fn allows(f: Cnf, g: Cnf, demand: spec_fn(Assignment) -> bool) -> bool {
    forall|a: Assignment| #[trigger] satisfies(a, f.clauses) && demand(a) ==> exists|b: Assignment|
        agree_below(a, b, f.var_count) && #[trigger] satisfies(b, g.clauses)
}

/// The demand that at most one of `lits` is true.
pub open spec fn at_most_one(lits: Seq<Lit>) -> spec_fn(Assignment) -> bool {
    |a: Assignment| count_true(a, lits) <= 1
}

/// The demand that exactly `k` of `lits` are true.
pub open spec fn exactly(lits: Seq<Lit>, k: nat) -> spec_fn(Assignment) -> bool {
    |a: Assignment| count_true(a, lits) == k
}

/// The demand that at most one of `lits` is true and that `commander` tells
/// whether one is.
pub open spec fn commanded(lits: Seq<Lit>, commander: Lit) -> spec_fn(Assignment) -> bool {
    |a: Assignment| count_true(a, lits) <= 1 && (lit_true(a, commander) <==> count_true(a, lits) >= 1)
}

pub proof fn lemma_satisfies_push(a: Assignment, clauses: Seq<Seq<Lit>>, clause: Seq<Lit>)
    ensures
        satisfies(a, clauses.push(clause)) == (satisfies(a, clauses) && clause_true(a, clause)),
{
    let all = clauses.push(clause);
    if satisfies(a, all) {
        assert forall|j: int| 0 <= j < clauses.len() implies clause_true(a, #[trigger] clauses[j]) by {
            assert(all[j] == clauses[j]);
        }
        assert(all[clauses.len() as int] == clause);
    }
    if satisfies(a, clauses) && clause_true(a, clause) {
        assert forall|j: int| 0 <= j < all.len() implies clause_true(a, #[trigger] all[j]) by {
            if j < clauses.len() {
                assert(all[j] == clauses[j]);
            }
        }
    }
}

pub proof fn lemma_satisfies_concat(a: Assignment, first: Seq<Seq<Lit>>, second: Seq<Seq<Lit>>)
    ensures
        satisfies(a, first + second) == (satisfies(a, first) && satisfies(a, second)),
{
    let all = first + second;
    if satisfies(a, all) {
        assert forall|j: int| 0 <= j < first.len() implies clause_true(a, #[trigger] first[j]) by {
            assert(all[j] == first[j]);
        }
        assert forall|j: int| 0 <= j < second.len() implies clause_true(a, #[trigger] second[j]) by {
            assert(all[first.len() + j] == second[j]);
        }
    }
    if satisfies(a, first) && satisfies(a, second) {
        assert forall|j: int| 0 <= j < all.len() implies clause_true(a, #[trigger] all[j]) by {
            if j < first.len() {
                assert(all[j] == first[j]);
            } else {
                assert(all[j] == second[j - first.len()]);
            }
        }
    }
}

/// Clauses that contradict what a formula forces make it unsatisfiable: if
/// `g` forces `demand` and no assignment that satisfies `extra` meets
/// `demand`, then no assignment satisfies `g` together with `extra`.
pub proof fn contradiction_is_unsatisfiable(
    f: Cnf,
    g: Cnf,
    demand: spec_fn(Assignment) -> bool,
    extra: Seq<Seq<Lit>>,
)
    requires
        forces(f, g, demand),
        forall|a: Assignment| #[trigger] satisfies(a, extra) ==> !demand(a),
    ensures
        forall|a: Assignment| !#[trigger] satisfies(a, g.clauses + extra),
{
    assert forall|a: Assignment| !#[trigger] satisfies(a, g.clauses + extra) by {
        lemma_satisfies_concat(a, g.clauses, extra);
    }
}

/// An assignment that satisfies a formula satisfies every formula that it
/// extends.
pub proof fn lemma_satisfies_base(a: Assignment, f: Cnf, base: Cnf)
    requires
        f.extends(base),
        satisfies(a, f.clauses),
    ensures
        satisfies(a, base.clauses),
{
    assert forall|j: int| 0 <= j < base.clauses.len() implies clause_true(a, #[trigger] base.clauses[j]) by {
        assert(f.clauses[j] == base.clauses[j]);
    }
}

/// Assignments that agree on the variables of a clause give it the same value.
pub proof fn lemma_agree_clause(a: Assignment, b: Assignment, bound: nat, clause: Seq<Lit>)
    requires
        agree_below(a, b, bound),
        in_range(clause, bound),
    ensures
        clause_true(a, clause) == clause_true(b, clause),
{
    if clause_true(a, clause) {
        let i = choose|i: int| 0 <= i < clause.len() && lit_true(a, #[trigger] clause[i]);
        assert(a(clause[i].var as nat) == b(clause[i].var as nat));
        assert(lit_true(b, clause[i]));
    }
    if clause_true(b, clause) {
        let i = choose|i: int| 0 <= i < clause.len() && lit_true(b, #[trigger] clause[i]);
        assert(a(clause[i].var as nat) == b(clause[i].var as nat));
        assert(lit_true(a, clause[i]));
    }
}

/// Assignments that agree on the variables of a formula satisfy it together
/// or not at all.
pub proof fn lemma_agree_satisfies(a: Assignment, b: Assignment, f: Cnf)
    requires
        agree_below(a, b, f.var_count),
        f.wf(),
    ensures
        satisfies(a, f.clauses) == satisfies(b, f.clauses),
{
    assert forall|j: int| 0 <= j < f.clauses.len() implies clause_true(a, #[trigger] f.clauses[j])
        == clause_true(b, f.clauses[j]) by {
        lemma_agree_clause(a, b, f.var_count, f.clauses[j]);
    }
}

/// Assignments that agree on the variables of a list of literals give the
/// literals the same values.
pub proof fn lemma_agree_truth(a: Assignment, b: Assignment, bound: nat, lits: Seq<Lit>)
    requires
        agree_below(a, b, bound),
        in_range(lits, bound),
    ensures
        truth(a, lits) == truth(b, lits),
{
    assert forall|i: int| 0 <= i < lits.len() implies truth(a, lits)[i] == truth(b, lits)[i] by {
        assert(a(lits[i].var as nat) == b(lits[i].var as nat));
    }
    assert(truth(a, lits) =~= truth(b, lits));
}

} // verus!
