use crate::formula::{
    lemma_component_ids_of, lemma_satisfiable_iff_consistent, lemma_solution_satisfies, Formula,
};
use crate::graph::strongly_connected;
use crate::literal::negation;
use crate::solver::{solved, Model};
use vstd::prelude::*;

verus! {

/// A formula that holds both the clause "`x` or `x`" and the clause "not `x`
/// or not `x`" is not satisfiable, so `solve` returns false on it.
pub proof fn lemma_forced_both_ways(f: Formula, i: int, j: int)
    requires
        0 <= i < f.clauses.len(),
        0 <= j < f.clauses.len(),
        f.clauses[i].x == f.clauses[i].y,
        !f.clauses[i].x_neg && !f.clauses[i].y_neg,
        f.clauses[j].x == f.clauses[i].x,
        f.clauses[j].y == f.clauses[i].x,
        f.clauses[j].x_neg && f.clauses[j].y_neg,
    ensures
        !f.satisfiable(),
        forall|before: Model, sat: bool, after: Model|
            before.formula == f && #[trigger] solved(before, sat, after) ==> !sat,
{
    if f.satisfiable() {
        let a = choose|a: Seq<bool>| f.satisfied_by(a);
        assert(f.clauses[i].holds(a));
        assert(f.clauses[j].holds(a));
    }
}

/// A formula whose implication graph leads from a variable to its negation
/// and back is not satisfiable, so `solve` returns false on it.
pub proof fn lemma_forced_contradiction(f: Formula, v: int)
    requires
        f.representable(),
        0 <= v < f.num_variables,
        strongly_connected(f.implication_graph(), 2 * v, 2 * v + 1),
    ensures
        !f.satisfiable(),
        forall|before: Model, sat: bool, after: Model|
            before.formula == f && #[trigger] solved(before, sat, after) ==> !sat,
{
    lemma_component_ids_of(f);
    lemma_satisfiable_iff_consistent(f);
    assert(f.components()[2 * v] == f.components()[2 * v + 1]);
}

/// The assignment that `solve` derives for a satisfiable formula makes every
/// clause true: one of the two literals of the clause holds under it.
pub proof fn lemma_every_clause_holds(f: Formula, i: int)
    requires
        f.representable(),
        f.satisfiable(),
        0 <= i < f.clauses.len(),
    ensures
        f.satisfied_by(f.solution()),
        (f.solution()[f.clauses[i].x as int] != f.clauses[i].x_neg) || (f.solution()[f.clauses[i].y as int]
            != f.clauses[i].y_neg),
{
    lemma_satisfiable_iff_consistent(f);
    lemma_solution_satisfies(f);
    assert(f.clauses[i].holds(f.solution()));
}

/// Two instances with the same formula get the same result from `solve`,
/// and, where it is true, the same assignment.
pub proof fn lemma_solve_deterministic(
    a: Model,
    a_sat: bool,
    a_after: Model,
    b: Model,
    b_sat: bool,
    b_after: Model,
)
    requires
        a.formula == b.formula,
        solved(a, a_sat, a_after),
        solved(b, b_sat, b_after),
    ensures
        a_sat == b_sat,
        a_sat ==> a_after.assignment == b_after.assignment,
        a.assignment == b.assignment ==> a_after == b_after,
{
}

/// A second `solve`, with no clause added in between, returns what the first
/// returned and leaves the instance as the first left it.
pub proof fn lemma_solve_idempotent(
    before: Model,
    first: bool,
    between: Model,
    second: bool,
    after: Model,
)
    requires
        solved(before, first, between),
        solved(between, second, after),
    ensures
        first == second,
        after == between,
{
}

/// Where a formula is satisfiable, no literal node has the component id of
/// its negation.
pub proof fn lemma_nodes_apart(f: Formula, node: int)
    requires
        f.representable(),
        f.satisfiable(),
        0 <= node < 2 * f.num_variables,
    ensures
        f.components()[node] != f.components()[negation(node as nat) as int],
{
    lemma_satisfiable_iff_consistent(f);
    let v = node / 2;
    assert(f.components()[2 * v] != f.components()[2 * v + 1]);
}

} // verus!
