//! Nullability, FIRST and FOLLOW of a rule set, as mathematical definitions.
//!
//! Each analysis walks the rule graph along a path of non-terminals and
//! never enters a non-terminal that is already on the path, so each is
//! defined for every rule set, cyclic or not.

use vstd::prelude::*;
use crate::budget::budget;
use crate::grammar::Production;
use crate::symbol::{Sym, Terminal};

verus! {

broadcast use crate::budget::lemma_budget_decreases;

/// Whether the non-terminal `v` derives the empty string by a walk that
/// avoids the non-terminals in `visited`: `v` is not among them, and one
/// of its productions derives the empty string.
pub open spec fn nullable_var(g: Seq<Production>, v: Seq<char>, visited: Set<Seq<char>>) -> bool
    decreases budget(g, visited), 2nat,
{
    !visited.contains(v) && exists|i: int|
        0 <= i < g.len() && (#[trigger] g[i]).left == v && nullable_by(g, i, v, visited)
}

/// Whether `g[i]` is a production of `v` of which every symbol derives the
/// empty string, by a walk that avoids `v` and the non-terminals in
/// `visited`.
pub open spec fn nullable_by(
    g: Seq<Production>,
    i: int,
    v: Seq<char>,
    visited: Set<Seq<char>>,
) -> bool
    decreases budget(g, visited), 1nat,
{
    0 <= i < g.len() && g[i].left == v && !visited.contains(v) && forall|k: int|
        0 <= k < g[i].right.len() ==> nullable_within(
            g,
            v,
            #[trigger] g[i].right[k],
            visited.insert(g[i].left),
        )
}

/// Whether the symbol `s` of a production of `owner` lets that production
/// derive the empty string: the empty terminal does, `owner` itself is
/// passed over, and another non-terminal does when it derives the empty
/// string by a walk that avoids `visited`.
pub open spec fn nullable_within(
    g: Seq<Production>,
    owner: Seq<char>,
    s: Sym,
    visited: Set<Seq<char>>,
) -> bool
    decreases budget(g, visited), 3nat,
{
    match s {
        Sym::Ter(t) => t == Terminal::Epsilon,
        Sym::Var(w) => w == owner || nullable_var(g, w, visited),
        Sym::End => false,
    }
}

/// Whether the symbol `s` derives the empty string.
pub open spec fn nullable_symbol(g: Seq<Production>, s: Sym) -> bool {
    match s {
        Sym::Ter(t) => t == Terminal::Epsilon,
        Sym::Var(v) => nullable_var(g, v, Set::empty()),
        Sym::End => false,
    }
}

/// Whether every symbol of `seq` derives the empty string.
pub open spec fn nullable(g: Seq<Production>, seq: Seq<Sym>) -> bool {
    forall|k: int| 0 <= k < seq.len() ==> nullable_symbol(g, #[trigger] seq[k])
}

/// Whether `t` can begin what the first symbol of `seq` derives, by a walk
/// that avoids the non-terminals in `visited`.
///
/// Only the first symbol counts. A character begins itself, the empty
/// terminal begins nothing, and a non-terminal outside `visited` begins
/// what its productions begin.
pub open spec fn first_has(
    g: Seq<Production>,
    seq: Seq<Sym>,
    visited: Set<Seq<char>>,
    t: Sym,
) -> bool
    decreases budget(g, visited), 1nat,
{
    seq.len() > 0 && match seq[0] {
        Sym::Ter(Terminal::Char(c)) => t == Sym::Ter(Terminal::Char(c)),
        Sym::Ter(Terminal::Epsilon) => false,
        Sym::Var(v) => !visited.contains(v) && exists|i: int|
            0 <= i < g.len() && (#[trigger] g[i]).left == v && first_by(g, i, v, visited, t),
        Sym::End => false,
    }
}

/// Whether `g[i]` is a production of `v` that `t` can begin, by a walk
/// that avoids `v` and the non-terminals in `visited`.
pub open spec fn first_by(
    g: Seq<Production>,
    i: int,
    v: Seq<char>,
    visited: Set<Seq<char>>,
    t: Sym,
) -> bool
    decreases budget(g, visited), 0nat,
{
    0 <= i < g.len() && g[i].left == v && !visited.contains(v) && first_has(
        g,
        g[i].right,
        visited.insert(g[i].left),
        t,
    )
}

/// Whether `t` is in FIRST of `seq`.
pub open spec fn in_first(g: Seq<Production>, seq: Seq<Sym>, t: Sym) -> bool {
    first_has(g, seq, Set::empty(), t)
}

/// FIRST of `seq`: the characters that can begin what its first symbol
/// derives.
pub open spec fn first(g: Seq<Production>, seq: Seq<Sym>) -> Set<Sym> {
    Set::new(|t: Sym| in_first(g, seq, t))
}

/// Whether `g[i].right[k]` is the non-terminal `v`.
pub open spec fn occurs(g: Seq<Production>, i: int, k: int, v: Seq<char>) -> bool {
    0 <= i < g.len() && 0 <= k < g[i].right.len() && g[i].right[k] == Sym::Var(v)
}

/// Whether `t` can follow the non-terminal `v`, by a walk that has the
/// non-terminals in `visited`, `v` among them, on its path.
///
/// The end of the input follows the start symbol, and `t` follows `v` when
/// an occurrence of `v` in a production makes it do so.
pub open spec fn follow_has(
    g: Seq<Production>,
    v: Seq<char>,
    visited: Set<Seq<char>>,
    t: Sym,
) -> bool
    decreases budget(g, visited), 1nat,
{
    ||| follows_start(g, v, t)
    ||| exists|i: int, k: int| #[trigger] occurs(g, i, k, v) && follow_at(g, i, k, visited, t)
}

/// Whether `t` is the end of the input and `v` the start symbol.
pub open spec fn follows_start(g: Seq<Production>, v: Seq<char>, t: Sym) -> bool {
    g.len() > 0 && g[0].left == v && t == Sym::End
}

/// Whether `t` can follow the symbol at `g[i].right[k]`: either `t` is in
/// FIRST of the rest of the production, or the rest is empty or derives
/// the empty string, the owner of the production is not in `visited`, and
/// `t` can follow the owner.
pub open spec fn follow_at(
    g: Seq<Production>,
    i: int,
    k: int,
    visited: Set<Seq<char>>,
    t: Sym,
) -> bool
    decreases budget(g, visited), 0nat,
{
    0 <= i < g.len() && 0 <= k < g[i].right.len() && {
        let tail = g[i].right.skip(k + 1);
        ||| tail.len() > 0 && in_first(g, tail, t)
        ||| (tail.len() == 0 || nullable(g, tail)) && !visited.contains(g[i].left)
            && follow_has(g, g[i].left, visited.insert(g[i].left), t)
    }
}

/// Whether `t` is in FOLLOW of the non-terminal `v`.
pub open spec fn in_follow(g: Seq<Production>, v: Seq<char>, t: Sym) -> bool {
    follow_has(g, v, set![v], t)
}

/// FOLLOW of `v`: the characters, and possibly the end of the input, that
/// can come right after `v`.
pub open spec fn follow(g: Seq<Production>, v: Seq<char>) -> Set<Sym> {
    Set::new(|t: Sym| in_follow(g, v, t))
}

/// Whether every production of `g` is a production of `h`.
pub open spec fn included(g: Seq<Production>, h: Seq<Production>) -> bool {
    forall|i: int| 0 <= i < g.len() ==> h.contains(#[trigger] g[i])
}

/// A non-terminal that derives the empty string still does so when rules
/// are added or the rules are put in another order.
pub proof fn lemma_nullable_grows(
    g: Seq<Production>,
    h: Seq<Production>,
    v: Seq<char>,
    visited: Set<Seq<char>>,
)
    requires
        included(g, h),
    ensures
        nullable_var(g, v, visited) ==> nullable_var(h, v, visited),
    decreases budget(g, visited),
{
    if nullable_var(g, v, visited) {
        let i = choose|i: int|
            0 <= i < g.len() && (#[trigger] g[i]).left == v && nullable_by(g, i, v, visited);
        assert(h.contains(g[i]));
        let j = choose|j: int| 0 <= j < h.len() && h[j] == g[i];
        assert forall|k: int| 0 <= k < h[j].right.len() implies nullable_within(
            h,
            v,
            #[trigger] h[j].right[k],
            visited.insert(h[j].left),
        ) by {
            assert(nullable_within(g, v, g[i].right[k], visited.insert(g[i].left)));
            if let Sym::Var(w) = g[i].right[k] {
                if w != v {
                    lemma_nullable_grows(g, h, w, visited.insert(g[i].left));
                }
            }
        }
        assert(nullable_by(h, j, v, visited));
    }
}

/// Whether a non-terminal derives the empty string does not depend on
/// the order in which the rules are written.
pub proof fn lemma_nullable_order(g: Seq<Production>, h: Seq<Production>, v: Seq<char>)
    requires
        g.to_multiset() == h.to_multiset(),
    ensures
        nullable_symbol(g, Sym::Var(v)) == nullable_symbol(h, Sym::Var(v)),
{
    g.to_multiset_ensures();
    h.to_multiset_ensures();
    assert(included(g, h)) by {
        assert forall|i: int| 0 <= i < g.len() implies h.contains(#[trigger] g[i]) by {
            assert(g.contains(g[i]));
            assert(g.to_multiset().count(g[i]) > 0);
            assert(h.to_multiset().count(g[i]) > 0);
        }
    }
    assert(included(h, g)) by {
        assert forall|i: int| 0 <= i < h.len() implies g.contains(#[trigger] h[i]) by {
            assert(h.contains(h[i]));
            assert(h.to_multiset().count(h[i]) > 0);
            assert(g.to_multiset().count(h[i]) > 0);
        }
    }
    lemma_nullable_grows(g, h, v, Set::empty());
    lemma_nullable_grows(h, g, v, Set::empty());
}

/// A right-hand side that is the empty terminal alone derives the empty
/// string, and no character begins it.
pub proof fn lemma_epsilon_alone(g: Seq<Production>, right: Seq<Sym>)
    requires
        right == seq![Sym::Ter(Terminal::Epsilon)],
    ensures
        nullable(g, right),
        first(g, right) == Set::<Sym>::empty(),
{
    assert(right[0] == Sym::Ter(Terminal::Epsilon));
    assert(first(g, right) =~= Set::<Sym>::empty());
}

} // verus!
