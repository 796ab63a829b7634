//! The shape of a derivation tree, and that the machine builds no other.

use vstd::prelude::*;
use crate::grammar::Production;
use crate::machine::{
    expanded, initial, lemma_step_progress, lookahead, parse_of, pushed, run, step, weight,
    Config, NodeData, Outcome, Step,
};
use crate::symbol::{Sym, Terminal};
use crate::table::{selects, table_of};

verus! {

/// Whether the node `i` hangs below an earlier node that lists it among
/// its children.
pub open spec fn hangs(nodes: Seq<NodeData>, i: int) -> bool {
    nodes[i].parent matches Some(p) && 0 <= p < i && exists|k: int|
        0 <= k < nodes[p].children.len() && #[trigger] nodes[p].children[k] == i
}

/// Whether the child `k` of the node `i` is a later node that knows `i`
/// as its parent, and stands `k` places behind the first child.
pub open spec fn linked(nodes: Seq<NodeData>, i: int, k: int) -> bool {
    let child = nodes[i].children[k];
    i < child < nodes.len() && nodes[child].parent == Some(i) && child == nodes[i].children[0] + k
}

/// The symbols of the children of the node `i`, from left to right.
pub open spec fn child_symbols(nodes: Seq<NodeData>, i: int) -> Seq<Sym> {
    Seq::new(nodes[i].children.len(), |k: int| nodes[nodes[i].children[k]].symbol)
}

/// Whether the node `i` is as its production says: it stands for the
/// owner of the production and its children for what the production puts
/// on the stack. A node without production has no children.
pub open spec fn expanded_by(g: Seq<Production>, nodes: Seq<NodeData>, i: int) -> bool {
    match nodes[i].rule {
        Some(r) => 0 <= r < g.len() && nodes[i].symbol == Sym::Var(g[r].left) && child_symbols(
            nodes,
            i,
        ) == pushed(g[r].right),
        None => nodes[i].children.len() == 0,
    }
}

/// Whether `nodes` is a tree of derivations by `g`: the root is the start
/// symbol, every other node hangs below an earlier one, and every node is
/// as its production says.
pub open spec fn well_built(g: Seq<Production>, nodes: Seq<NodeData>) -> bool {
    &&& nodes.len() > 0
    &&& nodes[0].parent is None
    &&& nodes[0].symbol == Sym::Var(g[0].left)
    &&& forall|i: int| 0 < i < nodes.len() ==> #[trigger] hangs(nodes, i)
    &&& forall|i: int, k: int|
        0 <= i < nodes.len() && 0 <= k < nodes[i].children.len() ==> #[trigger] linked(nodes, i, k)
    &&& forall|i: int| 0 <= i < nodes.len() ==> #[trigger] expanded_by(g, nodes, i)
}

/// Whether every non-terminal of `nodes` was expanded.
pub open spec fn complete(nodes: Seq<NodeData>) -> bool {
    forall|i: int|
        0 <= i < nodes.len() && (#[trigger] nodes[i]).symbol is Var ==> nodes[i].rule is Some
}

/// Whether the node `i` waits on `c`'s stack.
pub open spec fn waits(c: Config, i: int) -> bool {
    exists|k: int| 0 <= k < c.stack.len() && (#[trigger] c.stack[k]).node == i
}

/// Whether `c` is a state in which a tree grows: the tree is well built,
/// the nodes on the stack are nodes of the tree that were not expanded,
/// no node waits twice, and every non-terminal that was not expanded
/// waits.
pub open spec fn growing(g: Seq<Production>, c: Config) -> bool {
    &&& well_built(g, c.nodes)
    &&& forall|k: int|
        0 <= k < c.stack.len() ==> 0 <= (#[trigger] c.stack[k]).node < c.nodes.len()
            && c.nodes[c.stack[k].node].rule is None
    &&& forall|j: int, k: int|
        0 <= j < k < c.stack.len() ==> (#[trigger] c.stack[j]).node != (#[trigger] c.stack[k]).node
    &&& forall|i: int|
        0 <= i < c.nodes.len() && (#[trigger] c.nodes[i]).symbol is Var && c.nodes[i].rule is None
            ==> waits(c, i)
}

/// An expansion of a non-terminal by one of its productions keeps the
/// tree growing.
pub proof fn lemma_expanded_growing(g: Seq<Production>, c: Config, rule: int)
    requires
        growing(g, c),
        c.stack.len() > 0,
        0 <= rule < g.len(),
        c.nodes[c.stack.last().node].symbol == Sym::Var(g[rule].left),
    ensures
        growing(g, expanded(c, rule, pushed(g[rule].right))),
{
    let put = pushed(g[rule].right);
    let after = expanded(c, rule, put);
    let top = c.stack.last();
    let n = top.node;
    let first = c.nodes.len() as int;
    let count = put.len() as int;
    let below = c.stack.len() - 1;
    assert(c.stack[below] == top);
    assert(expanded_by(g, c.nodes, n));
    assert(c.nodes[n].children.len() == 0);
    assert(after.nodes.len() == first + count);
    assert forall|i: int| 0 <= i < first && i != n implies #[trigger] after.nodes[i]
        == c.nodes[i] by {}
    assert forall|i: int| first <= i < first + count implies (#[trigger] after.nodes[i]).parent
        == Some(n) && after.nodes[i].rule is None && after.nodes[i].children.len() == 0
        && after.nodes[i].symbol == put[i - first] by {}
    assert(after.nodes[n].children.len() == count);
    assert forall|k: int| 0 <= k < count implies #[trigger] after.nodes[n].children[k] == first
        + k by {}
    assert forall|i: int| 0 <= i < first implies (#[trigger] after.nodes[i]).symbol
        == c.nodes[i].symbol && after.nodes[i].parent == c.nodes[i].parent by {}
    assert forall|i: int| 0 < i < after.nodes.len() implies #[trigger] hangs(after.nodes, i) by {
        if i < first {
            assert(hangs(c.nodes, i));
            let p = c.nodes[i].parent->0;
            let k = choose|k: int|
                0 <= k < c.nodes[p].children.len() && #[trigger] c.nodes[p].children[k] == i;
            assert(p != n);
            assert(after.nodes[p].children[k] == i);
        } else {
            assert(after.nodes[n].children[i - first] == i);
        }
    }
    assert forall|i: int, k: int|
        0 <= i < after.nodes.len() && 0 <= k
            < after.nodes[i].children.len() implies #[trigger] linked(after.nodes, i, k) by {
        if i == n {
            assert(after.nodes[n].children[k] == first + k);
            assert(after.nodes[n].children[0] == first);
        } else if i < first {
            assert(linked(c.nodes, i, k));
        }
    }
    assert forall|i: int| 0 <= i < after.nodes.len() implies #[trigger] expanded_by(
        g,
        after.nodes,
        i,
    ) by {
        if i == n {
            assert(child_symbols(after.nodes, n) =~= put) by {
                assert forall|k: int| 0 <= k < count implies child_symbols(after.nodes, n)[k]
                    == put[k] by {
                    assert(after.nodes[n].children[k] == first + k);
                }
            }
        } else if i < first {
            assert(expanded_by(g, c.nodes, i));
            assert(child_symbols(after.nodes, i) =~= child_symbols(c.nodes, i)) by {
                assert forall|k: int| 0 <= k < c.nodes[i].children.len() implies child_symbols(
                    after.nodes,
                    i,
                )[k] == child_symbols(c.nodes, i)[k] by {
                    assert(linked(c.nodes, i, k));
                }
            }
        }
    }
    assert(well_built(g, after.nodes));
    assert(after.stack.len() == below + count);
    assert forall|k: int| 0 <= k < below implies #[trigger] after.stack[k] == c.stack[k] by {}
    assert forall|k: int| below <= k < below + count implies (#[trigger] after.stack[k]).node
        == first + count - 1 - (k - below) by {}
    assert forall|k: int| 0 <= k < after.stack.len() implies 0 <= (#[trigger] after.stack[k]).node
        < after.nodes.len() && after.nodes[after.stack[k].node].rule is None by {
        if k < below {
            assert(c.stack[k].node != c.stack[below].node);
        }
    }
    assert forall|j: int, k: int| 0 <= j < k < after.stack.len() implies (
    #[trigger] after.stack[j]).node != (#[trigger] after.stack[k]).node by {
        if k < below {
            assert(c.stack[j].node != c.stack[k].node);
        } else if j < below {
            assert(c.stack[j].node < first);
        }
    }
    assert forall|i: int|
        0 <= i < after.nodes.len() && (#[trigger] after.nodes[i]).symbol is Var
            && after.nodes[i].rule is None implies waits(after, i) by {
        if i < first {
            assert(c.nodes[i].symbol is Var && c.nodes[i].rule is None);
            assert(waits(c, i));
            let k = choose|k: int| 0 <= k < c.stack.len() && (#[trigger] c.stack[k]).node == i;
            assert(k != below);
            assert(after.stack[k].node == i);
        } else {
            let k = below + (first + count - 1 - i);
            assert(after.stack[k].node == i);
        }
    }
}

/// A step that takes the top off the stack keeps the tree growing.
pub proof fn lemma_popped_growing(g: Seq<Production>, tokens: Seq<Terminal>, c: Config)
    requires
        growing(g, c),
        c.stack.len() > 0,
        !(c.nodes[c.stack.last().node].symbol is Var),
    ensures
        step(g, tokens, c) matches Step::Next(next) ==> growing(g, next) && next.nodes == c.nodes,
{
    if let Step::Next(next) = step(g, tokens, c) {
        let below = c.stack.len() - 1;
        assert(c.stack[below] == c.stack.last());
        assert(next.nodes == c.nodes);
        assert forall|k: int| 0 <= k < next.stack.len() implies #[trigger] next.stack[k]
            == c.stack[k] by {}
        assert forall|i: int|
            0 <= i < next.nodes.len() && (#[trigger] next.nodes[i]).symbol is Var
                && next.nodes[i].rule is None implies waits(next, i) by {
            assert(waits(c, i));
            let k = choose|k: int| 0 <= k < c.stack.len() && (#[trigger] c.stack[k]).node == i;
            assert(k != below);
            assert(next.stack[k].node == i);
        }
    }
}

/// The tree grows from the first state on.
pub proof fn lemma_initial_growing(g: Seq<Production>)
    requires
        g.len() > 0,
    ensures
        growing(g, initial(g)),
{
    let c = initial(g);
    assert(expanded_by(g, c.nodes, 0));
    assert(c.stack[0].node == 0);
    assert(waits(c, 0));
}

/// A run that begins with a growing tree ends, where it accepts, with a
/// tree that is well built and complete.
proof fn lemma_run_built(g: Seq<Production>, tokens: Seq<Terminal>, c: Config)
    requires
        growing(g, c),
    ensures
        run(g, tokens, c) matches Outcome::Accepted(nodes) ==> well_built(g, nodes) && complete(
            nodes,
        ),
    decreases tokens.len() - c.pos, weight(g, c.stack, c.pos),
{
    lemma_step_progress(g, tokens, c);
    match step(g, tokens, c) {
        Step::Done(outcome) => {
            if outcome is Accepted {
                assert forall|i: int|
                    0 <= i < c.nodes.len() && (
                    #[trigger] c.nodes[i]).symbol is Var implies c.nodes[i].rule is Some by {
                    if c.nodes[i].rule is None {
                        assert(waits(c, i));
                    }
                }
            }
        },
        Step::Next(next) => {
            let top = c.stack.last();
            let below = c.stack.len() - 1;
            assert(c.stack[below] == top);
            if let Sym::Var(v) = c.nodes[top.node].symbol {
                let key = (lookahead(tokens, c.pos), v);
                let rule = table_of(g)[key];
                let i = choose|i: int| #[trigger] selects(g, key, i);
                assert(selects(g, key, i));
                lemma_expanded_growing(g, c, rule);
            } else {
                lemma_popped_growing(g, tokens, c);
            }
            lemma_run_built(g, tokens, next);
        },
    }
}

/// The tree of an accepted input is well built and complete.
pub proof fn lemma_accepted_is_built(g: Seq<Production>, tokens: Seq<Terminal>)
    requires
        g.len() > 0,
    ensures
        parse_of(g, tokens) matches Outcome::Accepted(nodes) ==> well_built(g, nodes) && complete(
            nodes,
        ),
{
    lemma_initial_growing(g);
    lemma_run_built(g, tokens, initial(g));
}

} // verus!
