//! The measure that bounds every walk over the rule graph.

use vstd::prelude::*;
use crate::grammar::Production;

verus! {

/// The names that own at least one production of `g`.
pub open spec fn owners(g: Seq<Production>) -> Set<Seq<char>> {
    g.map_values(|p: Production| p.left).to_set()
}

/// How many owners of `g` are not in `visited`: the bound on how much
/// deeper a walk that has `visited` on its path can go.
pub open spec fn budget(g: Seq<Production>, visited: Set<Seq<char>>) -> nat {
    owners(g).difference(visited).len()
}

/// Entering the owner of a production that is not yet on the path lowers
/// the budget.
pub broadcast proof fn lemma_budget_decreases(
    g: Seq<Production>,
    visited: Set<Seq<char>>,
    i: int,
)
    requires
        0 <= i < g.len(),
        !visited.contains(g[i].left),
    ensures
        #[trigger] budget(g, visited.insert(g[i].left)) < budget(g, visited),
{
    broadcast use vstd::seq_lib::seq_to_set_is_finite;

    let names = g.map_values(|p: Production| p.left);
    assert(names[i] == g[i].left);
    assert(names.contains(g[i].left));
    owners(g).lemma_set_insert_diff_decreases(visited, g[i].left);
}

} // verus!
