//! The boundary to `varisat`'s formula type, and the mathematical model of a
//! formula that the contracts of this crate speak of.

use vstd::prelude::*;
use varisat::{CnfFormula, ExtendFormula};
use crate::lit::{Lit, in_range, MAX_VAR_COUNT};

verus! {

/// Why an encoder refused its arguments.  A refused call leaves the formula
/// as it was.
#[derive(Clone, Copy, PartialEq, Eq, Structural, Debug)]
pub enum EncodeError {
    /// The list of literals is empty.
    EmptyInput,
    /// The requested count exceeds the number of literals.
    CountOutOfRange,
    /// A literal names a variable that the formula does not have, or, where
    /// the encoding allocates nothing, one that no formula can have.
    UnknownVariable,
    /// The formula cannot hold the helper variables of the encoding.
    TooManyVariables,
}

/// A formula in conjunctive normal form, as a mathematical value: the number
/// of variables allocated so far and the clauses in the order they were added.
pub struct Cnf {
    pub var_count: nat,
    pub clauses: Seq<Seq<Lit>>,
}

impl Cnf {
    /// Every clause speaks of allocated variables only.
    pub open spec fn wf(self) -> bool {
        forall|j: int| 0 <= j < self.clauses.len() ==> in_range(#[trigger] self.clauses[j], self.var_count)
    }

    /// `self` has all variables of `base` and starts with the clauses of `base`.
    pub open spec fn extends(self, base: Cnf) -> bool {
        &&& base.var_count <= self.var_count
        &&& base.clauses.len() <= self.clauses.len()
        &&& forall|j: int| 0 <= j < base.clauses.len() ==> #[trigger] self.clauses[j] == base.clauses[j]
    }

    /// The formula with one more clause at its end.
    pub open spec fn with_clause(self, clause: Seq<Lit>) -> Cnf {
        Cnf { var_count: self.var_count, clauses: self.clauses.push(clause) }
    }

    /// The formula with further clauses at its end.
    pub open spec fn with_clauses(self, clauses: Seq<Seq<Lit>>) -> Cnf {
        Cnf { var_count: self.var_count, clauses: self.clauses + clauses }
    }

    /// The formula with `count` more variables.
    pub open spec fn with_vars(self, count: nat) -> Cnf {
        Cnf { var_count: self.var_count + count, clauses: self.clauses }
    }

    /// The positive literal of the next variable to be allocated.
    pub open spec fn next_lit(self) -> Lit {
        Lit::of_var(self.var_count)
    }
}

/// The variable count that covers `lits`, starting from `count`: raised,
/// literal by literal, to lie above the variable of each.
pub open spec fn cover(count: nat, lits: Seq<Lit>) -> nat
    decreases lits.len(),
{
    if lits.len() == 0 {
        count
    } else {
        let before = cover(count, lits.drop_last());
        if lits.last().var + 1 > before {
            (lits.last().var + 1) as nat
        } else {
            before
        }
    }
}

/// The covering count is not below the count it starts from, and lies above
/// the variable of every literal.
pub proof fn lemma_cover_bounds(count: nat, lits: Seq<Lit>)
    ensures
        count <= cover(count, lits),
        in_range(lits, cover(count, lits)),
    decreases lits.len(),
{
    if lits.len() > 0 {
        let front = lits.drop_last();
        lemma_cover_bounds(count, front);
        assert forall|i: int| 0 <= i < lits.len() implies (#[trigger] lits[i]).var < cover(count, lits) by {
            if i < front.len() {
                assert(front[i] == lits[i]);
            }
        }
    }
}

/// Literals of known variables leave the count as it is.
pub proof fn lemma_cover_known(count: nat, lits: Seq<Lit>)
    requires
        in_range(lits, count),
    ensures
        cover(count, lits) == count,
    decreases lits.len(),
{
    if lits.len() > 0 {
        let front = lits.drop_last();
        assert forall|i: int| 0 <= i < front.len() implies (#[trigger] front[i]).var < count by {
            assert(front[i] == lits[i]);
        }
        lemma_cover_known(count, front);
    }
}

/// Covering one literal more: the count that covers the first `i + 1`
/// literals is the one that covers the first `i`, raised above the variable
/// of the next by a clause of a single literal of that variable.
pub proof fn lemma_cover_next(count: nat, lits: Seq<Lit>, i: int, unit: Lit)
    requires
        0 <= i < lits.len(),
        unit.var == lits[i].var,
    ensures
        cover(count, lits.take(i + 1)) == cover(cover(count, lits.take(i)), seq![unit]),
{
    let before = cover(count, lits.take(i));
    assert(lits.take(i + 1).drop_last() =~= lits.take(i));
    assert(lits.take(i + 1).last() == lits[i]);
    assert(seq![unit].drop_last() =~= Seq::<Lit>::empty());
    assert(seq![unit].last() == unit);
    assert(cover(before, Seq::<Lit>::empty()) == before);
}

#[verifier::external_type_specification]
#[verifier::external_body]
pub struct ExCnfFormula(varisat::CnfFormula);

/// The clauses that a `CnfFormula` holds, in the order of their insertion.
pub uninterp spec fn formula_clauses(formula: CnfFormula) -> Seq<Seq<Lit>>;

/// The variable count of a `CnfFormula`, as `CnfFormula::var_count` reports it.
pub uninterp spec fn formula_var_count(formula: CnfFormula) -> nat;

/// The mathematical value of a `CnfFormula`.
pub open spec fn model(formula: CnfFormula) -> Cnf {
    Cnf { var_count: formula_var_count(formula), clauses: formula_clauses(formula) }
}

/// `CnfFormula::var_count` reads the formula's variable counter.  The counter
/// lies above the index of every variable that occurs in a clause of the
/// formula: a vector of that length can be indexed by the variables present.
pub assume_specification[ CnfFormula::var_count ](formula: &CnfFormula) -> (count: usize)
    ensures
        count == formula_var_count(*formula),
        forall|j: int|
            0 <= j < formula_clauses(*formula).len() ==> in_range(
                #[trigger] formula_clauses(*formula)[j],
                count as nat,
            ),
;

/// `ExtendFormula::new_lit` on a `CnfFormula`: the formula hands out the
/// variable whose index is its counter, as a positive literal, and advances
/// the counter by one.  The clauses stay as they are.  The counter must be
/// below the largest count that `varisat` supports.
#[verifier::external_body]
pub(crate) fn new_lit(formula: &mut CnfFormula) -> (lit: Lit)
    requires
        formula_var_count(*old(formula)) < MAX_VAR_COUNT,
    ensures
        lit == Lit::of_var(formula_var_count(*old(formula))),
        formula_var_count(*final(formula)) == formula_var_count(*old(formula)) + 1,
        formula_clauses(*final(formula)) == formula_clauses(*old(formula)),
{
    let lit = formula.new_lit();
    Lit { var: lit.index(), positive: lit.is_positive() }
}

/// `ExtendFormula::add_clause` on a `CnfFormula`: the clause becomes the last
/// clause of the formula, and the variable counter is raised, literal by
/// literal, to lie above the variable of each.  The literals must name
/// variables that `varisat` supports.
#[verifier::external_body]
pub(crate) fn add_clause(formula: &mut CnfFormula, clause: &[Lit])
    requires
        in_range(clause@, MAX_VAR_COUNT as nat),
    ensures
        formula_clauses(*final(formula)) == formula_clauses(*old(formula)).push(clause@),
        formula_var_count(*final(formula)) == cover(formula_var_count(*old(formula)), clause@),
{
    let lits: Vec<varisat::Lit> =
        clause.iter().map(|l| varisat::Lit::from_index(l.var, l.positive)).collect();
    formula.add_clause(&lits);
}

/// Adds a clause over variables that the formula already has: the clause
/// becomes the last clause and the variable counter keeps its value.
pub(crate) fn add_known_clause(formula: &mut CnfFormula, clause: &[Lit])
    requires
        formula_var_count(*old(formula)) <= MAX_VAR_COUNT,
        in_range(clause@, formula_var_count(*old(formula))),
    ensures
        formula_clauses(*final(formula)) == formula_clauses(*old(formula)).push(clause@),
        formula_var_count(*final(formula)) == formula_var_count(*old(formula)),
{
    proof {
        lemma_cover_known(formula_var_count(*formula), clause@);
    }
    add_clause(formula, clause);
}

/// Tells whether every literal of `lits` names a variable below `bound`.
pub fn all_below(lits: &[Lit], bound: usize) -> (below: bool)
    ensures
        below == in_range(lits@, bound as nat),
{
    let mut i: usize = 0;
    while i < lits.len()
        invariant
            i <= lits.len(),
            in_range(lits@.take(i as int), bound as nat),
        decreases lits.len() - i,
    {
        if lits[i].var >= bound {
            return false;
        }
        proof {
            assert forall|j: int| 0 <= j < i + 1 implies (#[trigger] lits@.take(i + 1)[j]).var < bound by {
                if j < i {
                    assert(lits@.take(i as int)[j] == lits@[j]);
                }
            }
        }
        i += 1;
    }
    proof {
        assert(lits@.take(i as int) =~= lits@);
    }
    true
}

/// Tells whether every literal of `lits` names a variable of the formula.
pub fn knows_all(formula: &CnfFormula, lits: &[Lit]) -> (known: bool)
    ensures
        known == in_range(lits@, formula_var_count(*formula)),
        model(*formula).wf(),
{
    all_below(lits, formula.var_count())
}

} // verus!
