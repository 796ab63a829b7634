//! The predictive table of a rule set, as a mathematical definition.

use vstd::prelude::*;
use crate::analysis::{in_first, in_follow, nullable};
use crate::grammar::Production;
use crate::symbol::Sym;

verus! {

/// Whether the lookahead `t` selects the production `g[i]`: `t` is in
/// FIRST of its right-hand side, or the right-hand side derives the empty
/// string and `t` is in FOLLOW of its owner.
pub open spec fn predicts(g: Seq<Production>, i: int, t: Sym) -> bool {
    0 <= i < g.len() && (in_first(g, g[i].right, t) || (nullable(g, g[i].right) && in_follow(
        g,
        g[i].left,
        t,
    )))
}

/// Whether `g[i]` and `g[j]` are two productions of one non-terminal that
/// the lookahead `t` both selects.
pub open spec fn conflict(g: Seq<Production>, i: int, j: int, t: Sym) -> bool {
    i != j && predicts(g, i, t) && predicts(g, j, t) && g[i].left == g[j].left
}

/// Whether no lookahead selects two productions of one non-terminal.
pub open spec fn is_ll1(g: Seq<Production>) -> bool {
    forall|i: int, j: int, t: Sym| !#[trigger] conflict(g, i, j, t)
}

/// Whether `g[i]` belongs in the cell `key`, a lookahead and the name of
/// a non-terminal.
pub open spec fn selects(g: Seq<Production>, key: (Sym, Seq<char>), i: int) -> bool {
    predicts(g, i, key.0) && g[i].left == key.1
}

/// The predictive table of `g`: for each lookahead and non-terminal, the
/// index of the production to expand by. Where `g` is LL(1) there is at
/// most one for each; where it is not, the table holds one of them.
pub open spec fn table_of(g: Seq<Production>) -> Map<(Sym, Seq<char>), int> {
    Map::new(
        |key: (Sym, Seq<char>)| exists|i: int| #[trigger] selects(g, key, i),
        |key: (Sym, Seq<char>)| choose|i: int| #[trigger] selects(g, key, i),
    )
}

/// Two productions of one non-terminal that one character can both begin
/// are in conflict, so their rule set is not LL(1).
pub proof fn lemma_shared_first(g: Seq<Production>, i: int, j: int, t: Sym)
    requires
        0 <= i < g.len(),
        0 <= j < g.len(),
        i != j,
        g[i].left == g[j].left,
        in_first(g, g[i].right, t),
        in_first(g, g[j].right, t),
    ensures
        conflict(g, i, j, t),
        !is_ll1(g),
{
    assert(conflict(g, i, j, t));
}

} // verus!
