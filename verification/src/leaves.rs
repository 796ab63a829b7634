//! The leaves of a derivation tree, and that they spell the input.

use vstd::prelude::*;
use crate::grammar::Production;
use crate::machine::{
    expanded, initial, lemma_step_progress, lookahead, parse_of, pushed, run, step, weight,
    Config, NodeData, Outcome, Step,
};
use crate::shape::{expanded_by, growing, lemma_expanded_growing, lemma_popped_growing, linked};
use crate::symbol::{Sym, Terminal};
use crate::table::{selects, table_of};

verus! {

/// The leaves below the node `i`, from left to right; `i` itself if it is
/// a leaf.
pub open spec fn frontier(nodes: Seq<NodeData>, i: int) -> Seq<int>
    decreases nodes.len() - i, 1int, 0int,
{
    if nodes[i].children.len() == 0 {
        seq![i]
    } else {
        frontier_upto(nodes, i, nodes[i].children.len() as int)
    }
}

/// The leaves below the first `k` children of the node `i`, from left to
/// right.
pub open spec fn frontier_upto(nodes: Seq<NodeData>, i: int, k: int) -> Seq<int>
    decreases nodes.len() - i, 0int, k,
{
    if k <= 0 {
        Seq::empty()
    } else {
        let child = nodes[i].children[k - 1];
        frontier_upto(nodes, i, k - 1) + if i < child < nodes.len() {
            frontier(nodes, child)
        } else {
            Seq::empty()
        }
    }
}

/// What a leaf with the symbol `s` spells: its character, or nothing.
pub open spec fn letter(s: Sym) -> Seq<Terminal> {
    match s {
        Sym::Ter(Terminal::Char(c)) => seq![Terminal::Char(c)],
        _ => Seq::empty(),
    }
}

/// What the nodes `leaves` spell, one behind the other.
pub open spec fn spelled(nodes: Seq<NodeData>, leaves: Seq<int>) -> Seq<Terminal>
    decreases leaves.len(),
{
    if leaves.len() == 0 {
        Seq::empty()
    } else {
        spelled(nodes, leaves.drop_last()) + letter(nodes[leaves.last()].symbol)
    }
}

/// What the tree spells: the characters of its leaves, from left to
/// right.
pub open spec fn yield_of(nodes: Seq<NodeData>) -> Seq<Terminal> {
    spelled(nodes, frontier(nodes, 0))
}

/// `s` with `repl` in place of every `n`.
spec fn subst(s: Seq<int>, n: int, repl: Seq<int>) -> Seq<int>
    decreases s.len(),
{
    if s.len() == 0 {
        Seq::empty()
    } else {
        subst(s.drop_last(), n, repl) + if s.last() == n {
            repl
        } else {
            seq![s.last()]
        }
    }
}

/// The nodes that wait on `stack`, from the top down.
spec fn upside(c: Config) -> Seq<int> {
    Seq::new(c.stack.len(), |k: int| c.stack[c.stack.len() - 1 - k].node)
}

/// In a sequence of one, `repl` takes the place of `n`.
proof fn lemma_subst_one(x: int, n: int, repl: Seq<int>)
    ensures
        subst(seq![x], n, repl) == if x == n {
            repl
        } else {
            seq![x]
        },
{
    reveal_with_fuel(subst, 2);
    let tail = if x == n {
        repl
    } else {
        seq![x]
    };
    assert(seq![x].drop_last() =~= Seq::<int>::empty());
    assert(seq![x].last() == x);
    assert(Seq::<int>::empty() + tail =~= tail);
}

/// The places of `n` are taken in each part of a sequence by itself.
proof fn lemma_subst_concat(a: Seq<int>, b: Seq<int>, n: int, repl: Seq<int>)
    ensures
        subst(a + b, n, repl) == subst(a, n, repl) + subst(b, n, repl),
    decreases b.len(),
{
    if b.len() == 0 {
        assert(a + b =~= a);
        assert(subst(a, n, repl) + subst(b, n, repl) =~= subst(a, n, repl));
    } else {
        assert((a + b).drop_last() =~= a + b.drop_last());
        assert((a + b).last() == b.last());
        lemma_subst_concat(a, b.drop_last(), n, repl);
        let tail = if b.last() == n {
            repl
        } else {
            seq![b.last()]
        };
        assert((subst(a, n, repl) + subst(b.drop_last(), n, repl)) + tail =~= subst(a, n, repl) + (
        subst(b.drop_last(), n, repl) + tail));
    }
}

/// Where `n` does not stand, nothing takes its place.
proof fn lemma_subst_absent(s: Seq<int>, n: int, repl: Seq<int>)
    requires
        !s.contains(n),
    ensures
        subst(s, n, repl) == s,
    decreases s.len(),
{
    if s.len() > 0 {
        assert(s.last() == s[s.len() - 1]);
        assert forall|j: int| 0 <= j < s.drop_last().len() implies s.drop_last()[j] != n by {
            assert(s[j] != n);
        }
        lemma_subst_absent(s.drop_last(), n, repl);
        assert(s.drop_last() + seq![s.last()] =~= s);
    } else {
        assert(s =~= Seq::<int>::empty());
    }
}

/// Leaves spell what their parts spell, one behind the other.
proof fn lemma_spelled_concat(nodes: Seq<NodeData>, a: Seq<int>, b: Seq<int>)
    ensures
        spelled(nodes, a + b) == spelled(nodes, a) + spelled(nodes, b),
    decreases b.len(),
{
    if b.len() == 0 {
        assert(a + b =~= a);
        assert(spelled(nodes, a) + spelled(nodes, b) =~= spelled(nodes, a));
    } else {
        assert((a + b).drop_last() =~= a + b.drop_last());
        assert((a + b).last() == b.last());
        lemma_spelled_concat(nodes, a, b.drop_last());
        let tail = letter(nodes[b.last()].symbol);
        assert((spelled(nodes, a) + spelled(nodes, b.drop_last())) + tail =~= spelled(nodes, a) + (
        spelled(nodes, b.drop_last()) + tail));
    }
}

/// Nodes that stand for the same symbols spell the same.
proof fn lemma_spelled_same(before: Seq<NodeData>, after: Seq<NodeData>, leaves: Seq<int>)
    requires
        forall|j: int|
            0 <= j < leaves.len() ==> before[#[trigger] leaves[j]].symbol
                == after[leaves[j]].symbol,
    ensures
        spelled(before, leaves) == spelled(after, leaves),
    decreases leaves.len(),
{
    if leaves.len() > 0 {
        assert(leaves.last() == leaves[leaves.len() - 1]);
        let front = leaves.drop_last();
        assert forall|j: int| 0 <= j < front.len() implies before[#[trigger] front[j]].symbol
            == after[front[j]].symbol by {
            assert(front[j] == leaves[j]);
        }
        lemma_spelled_same(before, after, front);
    }
}

/// The children that an expansion gives a node, its own index if it gives
/// none: what stands in the place of the node among the leaves.
spec fn grown(c: Config, count: int) -> Seq<int> {
    if count == 0 {
        seq![c.stack.last().node]
    } else {
        Seq::new(count as nat, |k: int| c.nodes.len() + k)
    }
}

/// New leaves are their own frontier.
proof fn lemma_frontier_new(g: Seq<Production>, c: Config, rule: int, k: int)
    requires
        growing(g, c),
        c.stack.len() > 0,
        0 <= rule < g.len(),
        c.nodes[c.stack.last().node].symbol == Sym::Var(g[rule].left),
        0 <= k <= pushed(g[rule].right).len(),
    ensures
        frontier_upto(expanded(c, rule, pushed(g[rule].right)).nodes, c.stack.last().node, k)
            == Seq::new(k as nat, |j: int| c.nodes.len() + j),
    decreases k,
{
    let after = expanded(c, rule, pushed(g[rule].right));
    let n = c.stack.last().node;
    assert(c.stack[c.stack.len() - 1] == c.stack.last());
    if k > 0 {
        lemma_frontier_new(g, c, rule, k - 1);
        let child = after.nodes[n].children[k - 1];
        assert(child == c.nodes.len() + k - 1);
        assert(after.nodes[child].children.len() == 0);
        assert(frontier(after.nodes, child) == seq![child]);
        assert(Seq::new((k - 1) as nat, |j: int| c.nodes.len() + j) + seq![child] =~= Seq::new(
            k as nat,
            |j: int| c.nodes.len() + j,
        ));
    } else {
        assert(Seq::new(k as nat, |j: int| c.nodes.len() + j) =~= Seq::<int>::empty());
    }
}

/// After an expansion the leaves below an old node are those before it,
/// with the children of the expanded node in its place.
proof fn lemma_frontier_expanded(g: Seq<Production>, c: Config, rule: int, i: int, k: int)
    requires
        growing(g, c),
        c.stack.len() > 0,
        0 <= rule < g.len(),
        c.nodes[c.stack.last().node].symbol == Sym::Var(g[rule].left),
        0 <= i < c.nodes.len(),
        0 <= k <= c.nodes[i].children.len(),
    ensures
        ({
            let after = expanded(c, rule, pushed(g[rule].right));
            let n = c.stack.last().node;
            let repl = grown(c, pushed(g[rule].right).len() as int);
            &&& k == c.nodes[i].children.len() ==> frontier(after.nodes, i) == subst(
                frontier(c.nodes, i),
                n,
                repl,
            )
            &&& i != n ==> frontier_upto(after.nodes, i, k) == subst(
                frontier_upto(c.nodes, i, k),
                n,
                repl,
            )
        }),
    decreases c.nodes.len() - i, k,
{
    let put = pushed(g[rule].right);
    let after = expanded(c, rule, put);
    let n = c.stack.last().node;
    let repl = grown(c, put.len() as int);
    assert(c.stack[c.stack.len() - 1] == c.stack.last());
    assert(expanded_by(g, c.nodes, n));
    if i == n {
        assert(frontier(c.nodes, n) == seq![n]);
        lemma_subst_one(n, n, repl);
        if put.len() > 0 {
            lemma_frontier_new(g, c, rule, put.len() as int);
        }
    } else {
        assert(after.nodes[i] == c.nodes[i]);
        if k > 0 {
            lemma_frontier_expanded(g, c, rule, i, k - 1);
            let child = c.nodes[i].children[k - 1];
            assert(linked(c.nodes, i, k - 1));
            lemma_frontier_expanded(g, c, rule, child, c.nodes[child].children.len() as int);
            lemma_subst_concat(frontier_upto(c.nodes, i, k - 1), frontier(c.nodes, child), n, repl);
        }
        if k == c.nodes[i].children.len() && k == 0 {
            lemma_subst_one(i, n, repl);
        }
    }
}

/// Whether the leaves of `c`'s tree are `done` and behind them the nodes
/// that wait, where `done` spells the input that was consumed.
spec fn spelling(tokens: Seq<Terminal>, c: Config, done: Seq<int>) -> bool {
    &&& 0 <= c.pos <= tokens.len()
    &&& frontier(c.nodes, 0) == done + upside(c)
    &&& (done + upside(c)).no_duplicates()
    &&& forall|j: int| 0 <= j < done.len() ==> 0 <= #[trigger] done[j] < c.nodes.len()
    &&& spelled(c.nodes, done) == tokens.take(c.pos)
}

/// What is done after a step from `c`: what was done before, and the top
/// of the stack if it is not waited for any more.
spec fn done_after(g: Seq<Production>, tokens: Seq<Terminal>, c: Config, done: Seq<int>) -> Seq<
    int,
> {
    let n = c.stack.last().node;
    match c.nodes[n].symbol {
        Sym::Var(v) => {
            let rule = table_of(g)[(lookahead(tokens, c.pos), v)];
            if pushed(g[rule].right).len() == 0 {
                done.push(n)
            } else {
                done
            }
        },
        _ => done.push(n),
    }
}

/// What the top of the stack and what is below it have to do with the
/// leaves of the tree.
proof fn lemma_spelling_parts(tokens: Seq<Terminal>, c: Config, done: Seq<int>)
    requires
        spelling(tokens, c, done),
        c.stack.len() > 0,
    ensures
        upside(c) == seq![c.stack.last().node] + upside(c).skip(1),
        !done.contains(c.stack.last().node),
        !upside(c).skip(1).contains(c.stack.last().node),
        upside(c).skip(1) == Seq::new(
            (c.stack.len() - 1) as nat,
            |k: int| c.stack[c.stack.len() - 2 - k].node,
        ),
{
    let n = c.stack.last().node;
    let rest = upside(c).skip(1);
    let all = done + upside(c);
    assert(c.stack[c.stack.len() - 1] == c.stack.last());
    assert(upside(c)[0] == n);
    assert(upside(c) =~= seq![n] + rest);
    assert(all[done.len() as int] == n);
    if done.contains(n) {
        let j = choose|j: int| 0 <= j < done.len() && done[j] == n;
        assert(all[j] == n);
    }
    if rest.contains(n) {
        let j = choose|j: int| 0 <= j < rest.len() && rest[j] == n;
        assert(all[done.len() + 1 + j] == n);
    }
    assert(rest =~= Seq::new(
        (c.stack.len() - 1) as nat,
        |k: int| c.stack[c.stack.len() - 2 - k].node,
    ));
}

/// The leaves after an expansion: the children of the expanded node stand
/// in its place.
proof fn lemma_expanded_leaves(g: Seq<Production>, tokens: Seq<Terminal>, c: Config, done: Seq<
    int,
>, rule: int)
    requires
        growing(g, c),
        spelling(tokens, c, done),
        c.stack.len() > 0,
        0 <= rule < g.len(),
        c.nodes[c.stack.last().node].symbol == Sym::Var(g[rule].left),
    ensures
        frontier(expanded(c, rule, pushed(g[rule].right)).nodes, 0) == done + grown(
            c,
            pushed(g[rule].right).len() as int,
        ) + upside(c).skip(1),
        spelled(expanded(c, rule, pushed(g[rule].right)).nodes, done) == spelled(c.nodes, done),
{
    let n = c.stack.last().node;
    let put = pushed(g[rule].right);
    let next = expanded(c, rule, put);
    let repl = grown(c, put.len() as int);
    let rest = upside(c).skip(1);
    lemma_spelling_parts(tokens, c, done);
    lemma_frontier_expanded(g, c, rule, 0, c.nodes[0].children.len() as int);
    assert(done + upside(c) =~= (done + seq![n]) + rest);
    lemma_subst_concat(done + seq![n], rest, n, repl);
    lemma_subst_concat(done, seq![n], n, repl);
    lemma_subst_absent(done, n, repl);
    lemma_subst_absent(rest, n, repl);
    lemma_subst_one(n, n, repl);
    assert forall|j: int| 0 <= j < done.len() implies c.nodes[#[trigger] done[j]].symbol
        == next.nodes[done[j]].symbol by {}
    lemma_spelled_same(c.nodes, next.nodes, done);
}

/// An expansion keeps the leaves spelling the input that was consumed.
proof fn lemma_expanded_spelling(g: Seq<Production>, tokens: Seq<Terminal>, c: Config, done: Seq<
    int,
>, rule: int)
    requires
        growing(g, c),
        spelling(tokens, c, done),
        c.stack.len() > 0,
        0 <= rule < g.len(),
        c.nodes[c.stack.last().node].symbol == Sym::Var(g[rule].left),
    ensures
        spelling(
            tokens,
            expanded(c, rule, pushed(g[rule].right)),
            if pushed(g[rule].right).len() == 0 {
                done.push(c.stack.last().node)
            } else {
                done
            },
        ),
{
    let n = c.stack.last().node;
    let put = pushed(g[rule].right);
    let count = put.len() as int;
    let next = expanded(c, rule, put);
    let repl = grown(c, count);
    let rest = upside(c).skip(1);
    let all = done + upside(c);
    let below = c.stack.len() - 1;
    lemma_spelling_parts(tokens, c, done);
    lemma_expanded_leaves(g, tokens, c, done, rule);
    assert(all =~= done + seq![n] + rest);
    if count == 0 {
        let more = done.push(n);
        assert(upside(next) =~= rest);
        assert(more + upside(next) =~= done + repl + rest);
        assert(more + upside(next) =~= all);
        assert(more.drop_last() =~= done);
        assert(more.last() == n);
        assert(letter(next.nodes[n].symbol) =~= Seq::<Terminal>::empty());
        assert(spelled(next.nodes, more) =~= spelled(next.nodes, done));
    } else {
        assert(upside(next) =~= repl + rest) by {
            assert(upside(next).len() == count + rest.len());
            assert forall|k: int| 0 <= k < count + rest.len() implies upside(next)[k] == (repl
                + rest)[k] by {
                if k >= count {
                    assert(next.stack[below - 1 - (k - count)] == c.stack[below - 1 - (k - count)]);
                }
            }
        }
        let fresh = done + upside(next);
        assert(fresh =~= done + repl + rest);
        assert forall|k: int| 0 <= k < rest.len() implies 0 <= #[trigger] rest[k]
            < c.nodes.len() by {
            assert(rest[k] == c.stack[below - 1 - k].node);
        }
        assert forall|a: int, b: int|
            0 <= a < fresh.len() && 0 <= b < fresh.len() && a != b implies fresh[a]
            != fresh[b] by {
            let ia = if a < done.len() {
                a
            } else {
                a - count + 1
            };
            let ib = if b < done.len() {
                b
            } else {
                b - count + 1
            };
            let new_a = done.len() <= a < done.len() + count;
            let new_b = done.len() <= b < done.len() + count;
            if !new_a {
                assert(fresh[a] == all[ia]);
                assert(fresh[a] < c.nodes.len());
            }
            if !new_b {
                assert(fresh[b] == all[ib]);
                assert(fresh[b] < c.nodes.len());
            }
        }
    }
}

/// A step that takes the top off the stack keeps the leaves spelling the
/// input that was consumed.
proof fn lemma_popped_spelling(g: Seq<Production>, tokens: Seq<Terminal>, c: Config, done: Seq<
    int,
>)
    requires
        growing(g, c),
        spelling(tokens, c, done),
        c.stack.len() > 0,
        !(c.nodes[c.stack.last().node].symbol is Var),
    ensures
        step(g, tokens, c) matches Step::Next(next) ==> spelling(
            tokens,
            next,
            done.push(c.stack.last().node),
        ),
{
    if let Step::Next(next) = step(g, tokens, c) {
        let n = c.stack.last().node;
        let more = done.push(n);
        let rest = upside(c).skip(1);
        lemma_spelling_parts(tokens, c, done);
        assert(next.nodes == c.nodes);
        assert(upside(next) =~= rest);
        assert(more + upside(next) =~= done + upside(c));
        assert(more.drop_last() =~= done);
        assert(more.last() == n);
        assert(c.stack[c.stack.len() - 1] == c.stack.last());
        if let Sym::Ter(Terminal::Char(ch)) = c.nodes[n].symbol {
            assert(tokens.take(c.pos + 1) =~= tokens.take(c.pos) + seq![tokens[c.pos]]);
        } else {
            assert(letter(c.nodes[n].symbol) =~= Seq::<Terminal>::empty());
            assert(spelled(c.nodes, more) =~= spelled(c.nodes, done));
        }
    }
}

/// A run whose tree spells the input that it consumed ends, where it
/// accepts, with a tree that spells the input.
proof fn lemma_run_spells(
    g: Seq<Production>,
    tokens: Seq<Terminal>,
    c: Config,
    done: Seq<int>,
)
    requires
        growing(g, c),
        spelling(tokens, c, done),
    ensures
        run(g, tokens, c) matches Outcome::Accepted(nodes) ==> yield_of(nodes) == tokens,
    decreases tokens.len() - c.pos, weight(g, c.stack, c.pos),
{
    lemma_step_progress(g, tokens, c);
    match step(g, tokens, c) {
        Step::Done(outcome) => {
            if outcome is Accepted {
                assert(upside(c) =~= Seq::<int>::empty());
                assert(done + upside(c) =~= done);
                assert(tokens.take(c.pos) =~= tokens);
            }
        },
        Step::Next(next) => {
            let n = c.stack.last().node;
            let more = done_after(g, tokens, c, done);
            if let Sym::Var(v) = c.nodes[n].symbol {
                let key = (lookahead(tokens, c.pos), v);
                let rule = table_of(g)[key];
                let i = choose|i: int| #[trigger] selects(g, key, i);
                assert(selects(g, key, i));
                lemma_expanded_growing(g, c, rule);
                lemma_expanded_spelling(g, tokens, c, done, rule);
            } else {
                lemma_popped_growing(g, tokens, c);
                lemma_popped_spelling(g, tokens, c, done);
            }
            lemma_run_spells(g, tokens, next, more);
        },
    }
}

/// The tree of an accepted input spells the input.
pub proof fn lemma_accepted_spells(g: Seq<Production>, tokens: Seq<Terminal>)
    requires
        g.len() > 0,
    ensures
        parse_of(g, tokens) matches Outcome::Accepted(nodes) ==> yield_of(nodes) == tokens,
{
    let c = initial(g);
    let done = Seq::<int>::empty();
    crate::shape::lemma_initial_growing(g);
    assert(upside(c) =~= seq![0int]);
    assert(done + upside(c) =~= seq![0int]);
    assert(frontier(c.nodes, 0) == seq![0int]);
    assert(tokens.take(0) =~= Seq::<Terminal>::empty());
    lemma_run_spells(g, tokens, c, done);
}

} // verus!
