//! The predictive parser as a machine: a stack of tree nodes, a position
//! in the input, and the tree that grows as non-terminals are expanded.

use vstd::prelude::*;
use crate::grammar::Production;
use crate::symbol::{Sym, Terminal};
use crate::table::{selects, table_of};

verus! {

/// A node of a derivation tree. Its place in the tree's sequence of nodes
/// is its index.
pub struct NodeData {
    pub symbol: Sym,
    /// The index of the node above, if this is not the root.
    pub parent: Option<int>,
    /// The indices of the nodes below, from left to right.
    pub children: Seq<int>,
    /// The index of the production that the node was expanded by.
    pub rule: Option<int>,
}

/// A node that waits on the stack.
pub struct Entry {
    pub node: int,
    /// How many expansions in a row led to the node, none of which
    /// consumed input.
    pub depth: int,
    /// The position in the input at which the node was put on the stack.
    pub since: int,
}

/// A state of the machine. The last entry of the stack is its top, and the
/// end-of-input mark is its bottom, below all entries.
pub struct Config {
    pub nodes: Seq<NodeData>,
    pub stack: Seq<Entry>,
    pub pos: int,
}

/// Why an input is not derived. A position is the index of a token, the
/// length of the input for its end.
pub enum Failure {
    /// The terminal `expected` is on top of the stack and the input holds
    /// `found` at `position`.
    Mismatch { expected: Sym, found: Terminal, position: int },
    /// The table has no production for `non_terminal`, which is on top of
    /// the stack, and `lookahead`, which is what the input holds at
    /// `position`.
    NoRule { non_terminal: Seq<char>, lookahead: Sym, position: int },
    /// The terminal `expected` is on top of the stack, on which `depth`
    /// nodes wait, and the input has ended.
    UnexpectedEnd { expected: Sym, depth: int },
    /// The stack is down to the end-of-input mark and the input still holds
    /// `found` at `position`.
    StackExhausted { found: Terminal, position: int },
    /// More expansions in a row than the grammar has rules led to
    /// `non_terminal`, which is on top of the stack, and none consumed
    /// input.
    Loop { non_terminal: Seq<char>, position: int },
}

/// How a run of the machine ends.
pub enum Outcome {
    Accepted(Seq<NodeData>),
    Failed(Failure),
}

/// What one step of the machine gives.
pub enum Step {
    Next(Config),
    Done(Outcome),
}

/// The lookahead at `pos`: the token there, or the end-of-input mark
/// behind the last token.
pub open spec fn lookahead(tokens: Seq<Terminal>, pos: int) -> Sym {
    if 0 <= pos < tokens.len() {
        Sym::Ter(tokens[pos])
    } else {
        Sym::End
    }
}

/// How many expansions in a row led to `e` at `pos`: those counted when it
/// was put on the stack, if no input was consumed since.
pub open spec fn idle(e: Entry, pos: int) -> int {
    if e.since == pos {
        e.depth
    } else {
        0
    }
}

/// The symbols that an expansion by `right` puts on the stack: none for
/// the empty terminal alone, else those of `right`.
pub open spec fn pushed(right: Seq<Sym>) -> Seq<Sym> {
    if right == seq![Sym::Ter(Terminal::Epsilon)] {
        Seq::empty()
    } else {
        right
    }
}

/// The state before the first step: the root, which is the start symbol,
/// waits on the stack.
pub open spec fn initial(g: Seq<Production>) -> Config {
    Config {
        nodes: seq![
            NodeData {
                symbol: Sym::Var(g[0].left),
                parent: None,
                children: Seq::empty(),
                rule: None,
            },
        ],
        stack: seq![Entry { node: 0, depth: 0, since: 0 }],
        pos: 0,
    }
}

/// The state after the top of the stack has left it, with `eaten` tokens
/// consumed.
pub open spec fn popped(c: Config, eaten: int) -> Config {
    Config { nodes: c.nodes, stack: c.stack.drop_last(), pos: c.pos + eaten }
}

/// The state after the node on top of the stack was expanded by the
/// production `rule` into the symbols `right`: the node has its
/// production and its children, the children are new leaves at the end of
/// the tree, and they wait on the stack in its place, the leftmost on
/// top.
pub open spec fn expanded(c: Config, rule: int, right: Seq<Sym>) -> Config {
    let top = c.stack.last();
    let first = c.nodes.len() as int;
    let count = right.len() as int;
    let node = c.nodes[top.node];
    Config {
        nodes: c.nodes.update(
            top.node,
            NodeData {
                symbol: node.symbol,
                parent: node.parent,
                children: Seq::new(right.len(), |k: int| first + k),
                rule: Some(rule),
            },
        ) + Seq::new(
            right.len(),
            |k: int|
                NodeData {
                    symbol: right[k],
                    parent: Some(top.node),
                    children: Seq::empty(),
                    rule: None,
                },
        ),
        stack: c.stack.drop_last() + Seq::new(
            right.len(),
            |k: int|
                Entry { node: first + count - 1 - k, depth: idle(top, c.pos) + 1, since: c.pos },
        ),
        pos: c.pos,
    }
}

/// What the machine does with the node on top of the stack.
pub enum Move {
    /// The node leaves the stack.
    Pop,
    /// The node leaves the stack and a token is consumed.
    Eat,
    /// The node is expanded by a production.
    Expand(int),
    /// The run ends.
    Fail(Failure),
}

/// What the machine does at `pos` with `top` on top of a stack of `depth`
/// entries, where `symbol` is the symbol of the node of `top`.
///
/// A character must be the next token, and both go. A non-terminal is
/// expanded by the production that the table of `g` gives for the
/// lookahead, unless more expansions in a row than `g` has rules led to
/// it. Any other symbol stands for no input and goes.
pub open spec fn choice(
    g: Seq<Production>,
    tokens: Seq<Terminal>,
    symbol: Sym,
    top: Entry,
    depth: int,
    pos: int,
) -> Move {
    let next = lookahead(tokens, pos);
    match symbol {
        Sym::Ter(Terminal::Char(ch)) => if next == symbol {
            Move::Eat
        } else if next == Sym::End {
            Move::Fail(Failure::UnexpectedEnd { expected: symbol, depth })
        } else {
            Move::Fail(Failure::Mismatch { expected: symbol, found: tokens[pos], position: pos })
        },
        Sym::Var(v) => if !table_of(g).contains_key((next, v)) {
            Move::Fail(Failure::NoRule { non_terminal: v, lookahead: next, position: pos })
        } else if idle(top, pos) >= g.len() {
            Move::Fail(Failure::Loop { non_terminal: v, position: pos })
        } else {
            Move::Expand(table_of(g)[(next, v)])
        },
        _ => Move::Pop,
    }
}

/// One step of the machine on the input `tokens`, by the table of `g`.
///
/// With no node on the stack the machine accepts at the end of the input
/// and fails before it. Else it does what the node on top asks for.
pub open spec fn step(g: Seq<Production>, tokens: Seq<Terminal>, c: Config) -> Step {
    if c.stack.len() == 0 {
        if 0 <= c.pos < tokens.len() {
            Step::Done(
                Outcome::Failed(Failure::StackExhausted { found: tokens[c.pos], position: c.pos }),
            )
        } else {
            Step::Done(Outcome::Accepted(c.nodes))
        }
    } else {
        let top = c.stack.last();
        match choice(g, tokens, c.nodes[top.node].symbol, top, c.stack.len() as int, c.pos) {
            Move::Pop => Step::Next(popped(c, 0)),
            Move::Eat => Step::Next(popped(c, 1)),
            Move::Expand(rule) => Step::Next(expanded(c, rule, pushed(g[rule].right))),
            Move::Fail(failure) => Step::Done(Outcome::Failed(failure)),
        }
    }
}

/// The length of the longest right-hand side among the first `n`
/// productions of `g`.
pub open spec fn longest(g: Seq<Production>, n: int) -> nat
    decreases n,
{
    if n <= 0 {
        0
    } else if g[n - 1].right.len() > longest(g, n - 1) {
        g[n - 1].right.len()
    } else {
        longest(g, n - 1)
    }
}

/// `b` to the power of `e`.
pub open spec fn power(b: nat, e: nat) -> nat
    decreases e,
{
    if e == 0 {
        1
    } else {
        b * power(b, (e - 1) as nat)
    }
}

/// What `e` may still cost: a power of one more than the longest
/// right-hand side, the higher the fewer expansions in a row led to `e`.
pub open spec fn cost(g: Seq<Production>, e: Entry, pos: int) -> nat {
    let room = g.len() - idle(e, pos);
    power(longest(g, g.len() as int) + 1, if room > 0 { room as nat } else { 0 })
}

/// What the entries of `stack` may still cost before input is consumed.
pub open spec fn weight(g: Seq<Production>, stack: Seq<Entry>, pos: int) -> nat
    decreases stack.len(),
{
    if stack.len() == 0 {
        0
    } else {
        weight(g, stack.drop_last(), pos) + cost(g, stack.last(), pos)
    }
}

/// How the run of the machine from `c` ends.
pub open spec fn run(g: Seq<Production>, tokens: Seq<Terminal>, c: Config) -> Outcome
    decreases tokens.len() - c.pos, weight(g, c.stack, c.pos),
    via run_decreases
{
    match step(g, tokens, c) {
        Step::Done(outcome) => outcome,
        Step::Next(next) => run(g, tokens, next),
    }
}

/// How the parse of `tokens` by the table of `g` ends: with the derivation
/// tree of the start symbol, or with the first failure.
pub open spec fn parse_of(g: Seq<Production>, tokens: Seq<Terminal>) -> Outcome {
    run(g, tokens, initial(g))
}

/// A power of a positive number is positive.
proof fn lemma_power_positive(b: nat, e: nat)
    requires
        b > 0,
    ensures
        power(b, e) > 0,
    decreases e,
{
    if e > 0 {
        lemma_power_positive(b, (e - 1) as nat);
        assert(power(b, e) == b * power(b, (e - 1) as nat));
        assert(b * power(b, (e - 1) as nat) > 0) by (nonlinear_arith)
            requires
                b > 0,
                power(b, (e - 1) as nat) > 0,
        ;
    }
}

/// No right-hand side is longer than the longest.
proof fn lemma_longest(g: Seq<Production>, n: int, i: int)
    requires
        0 <= i < n <= g.len(),
    ensures
        g[i].right.len() <= longest(g, n),
    decreases n,
{
    if i < n - 1 {
        lemma_longest(g, n - 1, i);
    }
}

/// The weight of a stack is that of its parts together.
proof fn lemma_weight_concat(g: Seq<Production>, s: Seq<Entry>, t: Seq<Entry>, pos: int)
    ensures
        weight(g, s + t, pos) == weight(g, s, pos) + weight(g, t, pos),
    decreases t.len(),
{
    if t.len() == 0 {
        assert(s + t =~= s);
    } else {
        assert((s + t).drop_last() =~= s + t.drop_last());
        assert((s + t).last() == t.last());
        lemma_weight_concat(g, s, t.drop_last(), pos);
    }
}

/// The weight of entries that all cost `each`.
proof fn lemma_weight_same(g: Seq<Production>, t: Seq<Entry>, pos: int, each: nat)
    requires
        forall|k: int| 0 <= k < t.len() ==> cost(g, #[trigger] t[k], pos) == each,
    ensures
        weight(g, t, pos) == t.len() * each,
    decreases t.len(),
{
    if t.len() > 0 {
        lemma_weight_same(g, t.drop_last(), pos, each);
        assert(cost(g, t.last(), pos) == each);
        assert((t.len() - 1) * each + each == t.len() * each) by (nonlinear_arith);
    }
}

/// An expansion lowers the weight of the stack.
proof fn lemma_expanded_weight(g: Seq<Production>, c: Config, rule: int, right: Seq<Sym>)
    requires
        c.stack.len() > 0,
        idle(c.stack.last(), c.pos) < g.len(),
        right.len() <= longest(g, g.len() as int),
    ensures
        weight(g, expanded(c, rule, right).stack, c.pos) < weight(g, c.stack, c.pos),
{
    let top = c.stack.last();
    let below = c.stack.drop_last();
    let after = expanded(c, rule, right);
    let added = after.stack.skip(below.len() as int);
    let base = longest(g, g.len() as int) + 1;
    let room = (g.len() - idle(top, c.pos)) as nat;
    let each = power(base, (room - 1) as nat);
    assert(after.stack =~= below + added);
    assert(c.stack =~= below + seq![top]);
    lemma_weight_concat(g, below, added, c.pos);
    assert(weight(g, c.stack, c.pos) == weight(g, below, c.pos) + cost(g, top, c.pos));
    assert forall|k: int| 0 <= k < added.len() implies cost(g, #[trigger] added[k], c.pos)
        == each by {
        assert(idle(added[k], c.pos) == idle(top, c.pos) + 1);
    }
    lemma_weight_same(g, added, c.pos, each);
    lemma_power_positive(base as nat, (room - 1) as nat);
    assert(cost(g, top, c.pos) == base * each);
    assert(added.len() * each < base * each) by (nonlinear_arith)
        requires
            added.len() < base,
            each > 0,
    ;
}

/// A step that does not end the run consumes a token or lowers the
/// weight of the stack.
pub proof fn lemma_step_progress(g: Seq<Production>, tokens: Seq<Terminal>, c: Config)
    ensures
        step(g, tokens, c) matches Step::Next(next) ==> (next.pos == c.pos + 1 && 0 <= c.pos
            < tokens.len()) || (next.pos == c.pos && weight(g, next.stack, next.pos) < weight(
            g,
            c.stack,
            c.pos,
        )),
{
    if let Step::Next(next) = step(g, tokens, c) {
        let top = c.stack.last();
        assert(c.stack =~= c.stack.drop_last() + seq![top]);
        lemma_power_positive(
            longest(g, g.len() as int) + 1,
            if g.len() - idle(top, c.pos) > 0 {
                (g.len() - idle(top, c.pos)) as nat
            } else {
                0
            },
        );
        if let Sym::Var(v) = c.nodes[top.node].symbol {
            let key = (lookahead(tokens, c.pos), v);
            let rule = table_of(g)[key];
            let i = choose|i: int| #[trigger] selects(g, key, i);
            assert(selects(g, key, i));
            lemma_longest(g, g.len() as int, rule);
            lemma_expanded_weight(g, c, rule, pushed(g[rule].right));
        }
    }
}

/// Whether `failure` says what is the matter with `tokens`: the position
/// is in the input or at its end, the token that was found stands there,
/// and the table of `g` has no production, or has one, as the failure
/// says.
pub open spec fn explains(g: Seq<Production>, tokens: Seq<Terminal>, failure: Failure) -> bool {
    match failure {
        Failure::Mismatch { expected, found, position } => {
            &&& 0 <= position < tokens.len()
            &&& found == tokens[position]
            &&& expected is Ter
            &&& expected != Sym::Ter(found)
        },
        Failure::NoRule { non_terminal, lookahead: next, position } => {
            &&& 0 <= position <= tokens.len()
            &&& next == lookahead(tokens, position)
            &&& !table_of(g).contains_key((next, non_terminal))
        },
        Failure::UnexpectedEnd { expected, depth } => expected is Ter && depth > 0,
        Failure::StackExhausted { found, position } => {
            &&& 0 <= position < tokens.len()
            &&& found == tokens[position]
        },
        Failure::Loop { non_terminal, position } => {
            &&& 0 <= position <= tokens.len()
            &&& table_of(g).contains_key((lookahead(tokens, position), non_terminal))
        },
    }
}

/// A run from a position in the input fails only with a failure that
/// says what is the matter.
proof fn lemma_run_explains(g: Seq<Production>, tokens: Seq<Terminal>, c: Config)
    requires
        0 <= c.pos <= tokens.len(),
    ensures
        run(g, tokens, c) matches Outcome::Failed(failure) ==> explains(g, tokens, failure),
    decreases tokens.len() - c.pos, weight(g, c.stack, c.pos),
{
    lemma_step_progress(g, tokens, c);
    if let Step::Next(next) = step(g, tokens, c) {
        lemma_run_explains(g, tokens, next);
    }
}

/// A failure says what is the matter with the input.
pub proof fn lemma_failure_explains(g: Seq<Production>, tokens: Seq<Terminal>)
    ensures
        parse_of(g, tokens) matches Outcome::Failed(failure) ==> explains(g, tokens, failure),
{
    lemma_run_explains(g, tokens, initial(g));
}

#[via_fn]
proof fn run_decreases(g: Seq<Production>, tokens: Seq<Terminal>, c: Config) {
    lemma_step_progress(g, tokens, c);
}

} // verus!
