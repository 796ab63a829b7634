//! The parser: the machine of a grammar, run on a stack of tree nodes.

use vstd::prelude::*;
use crate::derivation::{derives, lemma_accepted_is_derived, word};
use crate::grammar::{productions, symbols, well_formed};
use crate::leaves::{lemma_accepted_spells, yield_of};
use crate::machine::{
    choice, expanded, explains, initial, lemma_step_progress, parse_of, popped, pushed, run, step,
    weight, Config, Entry, Move, NodeData, Outcome, Step,
};
use crate::parser::Parser;
use crate::shape::{complete, lemma_accepted_is_built, well_built};
use crate::symbol::{Sym, Symbol, Terminal};
use crate::table::selects;
use crate::tree::{indexed, node_views, Node, ParseError, ParseTree};

verus! {

/// A node that waits on the parser's stack.
#[derive(Clone, Copy)]
struct Slot {
    node: usize,
    /// How many expansions in a row led to the node, none of which
    /// consumed input.
    depth: usize,
    /// The position in the input at which the node was put on the stack.
    since: usize,
}

impl View for Slot {
    type V = Entry;

    closed spec fn view(&self) -> Entry {
        Entry { node: self.node as int, depth: self.depth as int, since: self.since as int }
    }
}

/// What the slots in `stack` stand for, in order.
spec fn entries(stack: Seq<Slot>) -> Seq<Entry> {
    Seq::new(stack.len(), |k: int| stack[k]@)
}

/// What the parser does with the node on top of its stack.
enum Action {
    Pop,
    Eat,
    Expand(usize),
    Fail(ParseError),
}

impl View for Action {
    type V = Move;

    closed spec fn view(&self) -> Move {
        match self {
            Action::Pop => Move::Pop,
            Action::Eat => Move::Eat,
            Action::Expand(rule) => Move::Expand(*rule as int),
            Action::Fail(e) => Move::Fail(e@),
        }
    }
}

/// The state of the machine that the parser is in.
spec fn config(nodes: Seq<Node>, stack: Seq<Slot>, pos: usize) -> Config {
    Config { nodes: node_views(nodes), stack: entries(stack), pos: pos as int }
}

/// Whether every slot of `stack` holds the index of a node among `count`.
spec fn in_tree(stack: Seq<Slot>, count: nat) -> bool {
    forall|k: int| 0 <= k < stack.len() ==> (#[trigger] stack[k]).node < count
}

/// Expands the node on top of the stack by the production `rule`, whose
/// right-hand side is `right`, at the position `pos`.
fn expand(
    nodes: &mut Vec<Node>,
    stack: &mut Vec<Slot>,
    right: &Vec<Symbol>,
    rule: usize,
    pos: usize,
)
    requires
        old(stack)@.len() > 0,
        in_tree(old(stack)@, old(nodes)@.len()),
        indexed(old(nodes)@),
        old(stack)@.last().since == pos ==> old(stack)@.last().depth < usize::MAX,
    ensures
        config(final(nodes)@, final(stack)@, pos) == expanded(
            config(old(nodes)@, old(stack)@, pos),
            rule as int,
            pushed(symbols(right@)),
        ),
        in_tree(final(stack)@, final(nodes)@.len()),
        indexed(final(nodes)@),
{
    let ghost before = config(nodes@, stack@, pos);
    let ghost old_nodes = nodes@;
    let ghost old_stack = stack@;
    let top = stack.pop().unwrap();
    let ghost below = stack@;
    let depth = if top.since == pos {
        top.depth + 1
    } else {
        1
    };
    let first = nodes.len();
    let alone = right.len() == 1 && match &right[0] {
        Symbol::Ter(Terminal::Epsilon) => true,
        _ => false,
    };
    let ghost put = pushed(symbols(right@));
    proof {
        if right@.len() == 1 {
            assert(symbols(right@)[0] == right@[0]@);
        }
        if alone {
            assert(symbols(right@) =~= seq![Sym::Ter(Terminal::Epsilon)]);
        } else {
            assert(seq![Sym::Ter(Terminal::Epsilon)].len() == 1);
            assert(seq![Sym::Ter(Terminal::Epsilon)][0] == Sym::Ter(Terminal::Epsilon));
            assert(symbols(right@) != seq![Sym::Ter(Terminal::Epsilon)]);
        }
    }
    let mut kids: Vec<usize> = Vec::new();
    if !alone {
        let mut k: usize = 0;
        while k < right.len()
            invariant
                0 <= k <= right@.len(),
                put == symbols(right@),
                first == old_nodes.len(),
                top.node < first,
                nodes@.len() == first + k,
                kids@.len() == k,
                forall|i: int| 0 <= i < first ==> nodes@[i] == old_nodes[i],
                forall|i: int|
                    0 <= i < k ==> (#[trigger] nodes@[first + i])@ == (NodeData {
                        symbol: put[i],
                        parent: Some(top.node as int),
                        children: Seq::empty(),
                        rule: None,
                    }) && nodes@[first + i].index == first + i,
                forall|i: int| 0 <= i < k ==> #[trigger] kids@[i] == first + i,
            decreases right@.len() - k,
        {
            let index = nodes.len();
            let ghost so_far = nodes@;
            nodes.push(
                Node {
                    index,
                    symbol: right[k].clone(),
                    parent: Some(top.node),
                    children: Vec::new(),
                    rule: None,
                },
            );
            kids.push(index);
            proof {
                assert(nodes@[first + k]@.children =~= Seq::<int>::empty());
                assert(put[k as int] == right@[k as int]@);
                assert forall|i: int| 0 <= i < first implies nodes@[i] == old_nodes[i] by {
                    assert(nodes@[i] == so_far[i]);
                }
            }
            k += 1;
        }
        let count = nodes.len();
        let mut j: usize = right.len();
        while j > 0
            invariant
                0 <= j <= right@.len(),
                put == symbols(right@),
                first + right@.len() == count,
                stack@.len() == below.len() + (right@.len() - j),
                forall|i: int| 0 <= i < below.len() ==> stack@[i] == below[i],
                forall|i: int|
                    0 <= i < right@.len() - j ==> (#[trigger] stack@[below.len() + i])@ == (Entry {
                        node: first + right@.len() - 1 - i,
                        depth: depth as int,
                        since: pos as int,
                    }),
            decreases j,
        {
            j -= 1;
            let ghost so_far = stack@;
            stack.push(Slot { node: first + j, depth, since: pos });
            proof {
                assert forall|i: int| 0 <= i < below.len() implies stack@[i] == below[i] by {
                    assert(stack@[i] == so_far[i]);
                }
                assert forall|i: int| 0 <= i < right@.len() - j implies (
                #[trigger] stack@[below.len() + i])@ == (Entry {
                    node: first + right@.len() - 1 - i,
                    depth: depth as int,
                    since: pos as int,
                }) by {
                    if i < right@.len() - j - 1 {
                        assert(stack@[below.len() + i] == so_far[below.len() + i]);
                    }
                }
            }
        }
    }
    let ghost grown = nodes@;
    nodes[top.node].rule = Some(rule);
    nodes[top.node].children = kids;
    proof {
        let after = expanded(before, rule as int, put);
        assert(before.stack.last() == top@);
        assert(before.stack.drop_last() =~= entries(below));
        assert(node_views(nodes@) =~= after.nodes) by {
            assert(node_views(nodes@).len() == after.nodes.len());
            assert forall|i: int| 0 <= i < after.nodes.len() implies node_views(nodes@)[i]
                == after.nodes[i] by {
                if i == top.node {
                    assert(nodes@[i]@.children =~= Seq::new(put.len(), |k: int| first + k));
                } else if i < first {
                    assert(nodes@[i] == grown[i]);
                    assert(grown[i] == old_nodes[i]);
                } else {
                    assert(nodes@[i] == grown[i]);
                    assert(grown[first + (i - first)]@.parent == Some(top.node as int));
                }
            }
        }
        assert(entries(stack@) =~= after.stack) by {
            assert(entries(stack@).len() == after.stack.len());
            assert forall|i: int| 0 <= i < after.stack.len() implies entries(stack@)[i]
                == after.stack[i] by {
                if i < below.len() {
                    assert(stack@[i] == below[i]);
                } else {
                    assert(stack@[below.len() + (i - below.len())]@.since == pos);
                }
            }
        }
        assert forall|k: int| 0 <= k < stack@.len() implies (#[trigger] stack@[k]).node
            < nodes@.len() by {
            if k < below.len() {
                assert(stack@[k] == below[k]);
                assert(below[k] == old_stack[k]);
            } else {
                assert(stack@[below.len() + (k - below.len())]@.node < nodes@.len());
            }
        }
        assert forall|i: int| 0 <= i < nodes@.len() implies (#[trigger] nodes@[i]).index == i by {
            if i != top.node {
                assert(nodes@[i] == grown[i]);
            }
            if i < first {
                assert(grown[i] == old_nodes[i]);
            } else {
                assert(grown[first + (i - first)].index == i);
            }
        }
    }
}

impl<'a> Parser<'a> {
    /// What to do at `pos` with `top` on top of a stack of `depth` slots,
    /// where `symbol` is the symbol of the node of `top`.
    fn decide(
        &self,
        symbol: &Symbol,
        top: Slot,
        depth: usize,
        tokens: &[Terminal],
        pos: usize,
    ) -> (a: Action)
        requires
            pos <= tokens@.len(),
        ensures
            a@ == choice(self.grammar(), tokens@, symbol@, top@, depth as int, pos as int),
            a matches Action::Expand(rule) ==> rule < self.grammar().len() && (top.since == pos
                ==> top.depth < usize::MAX),
    {
        let rules = self.rules();
        proof {
            self.lemma_table();
        }
        match symbol {
            Symbol::Ter(Terminal::Char(ch)) => {
                if pos >= tokens.len() {
                    Action::Fail(
                        ParseError::UnexpectedEnd {
                            expected: Symbol::Ter(Terminal::Char(*ch)),
                            depth,
                        },
                    )
                } else if tokens[pos] == Terminal::Char(*ch) {
                    Action::Eat
                } else {
                    Action::Fail(
                        ParseError::Mismatch {
                            expected: Symbol::Ter(Terminal::Char(*ch)),
                            found: tokens[pos],
                            position: pos,
                        },
                    )
                }
            },
            Symbol::Var(v) => {
                let next = if pos < tokens.len() {
                    Symbol::Ter(tokens[pos])
                } else {
                    Symbol::End
                };
                match self.lookup(&next, v) {
                    None => Action::Fail(
                        ParseError::NoRule {
                            non_terminal: v.clone(),
                            lookahead: next,
                            position: pos,
                        },
                    ),
                    Some(rule) => {
                        let idle = if top.since == pos {
                            top.depth
                        } else {
                            0
                        };
                        proof {
                            let key = (next@, v@);
                            let i = choose|i: int| #[trigger] selects(self.grammar(), key, i);
                            assert(selects(self.grammar(), key, i));
                            assert(productions(rules@).len() == rules@.len());
                        }
                        if idle >= rules.len() {
                            Action::Fail(
                                ParseError::Loop { non_terminal: v.clone(), position: pos },
                            )
                        } else {
                            Action::Expand(rule)
                        }
                    },
                }
            },
            _ => Action::Pop,
        }
    }

    /// Parses `tokens`: derives them from the start symbol by the table.
    ///
    /// The parser keeps the nodes that wait for input on a stack, the root
    /// first, and looks at one token at a time. The result is what the
    /// machine of the grammar ends with: the tree of the derivation, or
    /// the first failure; there is no going back. A tree is well built
    /// and complete and its leaves spell `tokens`, which the grammar
    /// derives from its start symbol.
    pub fn parse(&self, tokens: &[Terminal]) -> (r: Result<ParseTree, ParseError>)
        ensures
            match r {
                Ok(tree) => {
                    &&& parse_of(self.grammar(), tokens@) == Outcome::Accepted(tree@)
                    &&& indexed(tree.nodes@)
                    &&& well_built(self.grammar(), tree@)
                    &&& complete(tree@)
                    &&& yield_of(tree@) == tokens@
                    &&& derives(
                        self.grammar(),
                        seq![Sym::Var(self.grammar()[0].left)],
                        word(tokens@),
                    )
                },
                Err(e) => parse_of(self.grammar(), tokens@) == Outcome::Failed(e@) && explains(
                    self.grammar(),
                    tokens@,
                    e@,
                ),
            },
    {
        let rules = self.rules();
        let ghost g = self.grammar();
        let mut nodes: Vec<Node> = Vec::new();
        nodes.push(
            Node {
                index: 0,
                symbol: Symbol::Var(rules[0].left.clone()),
                parent: None,
                children: Vec::new(),
                rule: None,
            },
        );
        let mut stack: Vec<Slot> = Vec::new();
        stack.push(Slot { node: 0, depth: 0, since: 0 });
        let mut pos: usize = 0;
        let end = tokens.len();
        proof {
            assert(nodes@[0]@.children =~= Seq::<int>::empty());
            assert(node_views(nodes@) =~= initial(g).nodes);
            assert(entries(stack@) =~= initial(g).stack);
        }
        loop
            invariant
                g == self.grammar(),
                g == productions(rules@),
                well_formed(g),
                end == tokens@.len(),
                pos <= end,
                in_tree(stack@, nodes@.len()),
                indexed(nodes@),
                run(g, tokens@, config(nodes@, stack@, pos)) == parse_of(g, tokens@),
            decreases tokens@.len() - pos, weight(g, entries(stack@), pos as int),
        {
            let ghost c = config(nodes@, stack@, pos);
            if stack.len() == 0 {
                if pos < end {
                    return Err(ParseError::StackExhausted { found: tokens[pos], position: pos });
                } else {
                    proof {
                        lemma_accepted_is_derived(g, tokens@);
                        lemma_accepted_is_built(g, tokens@);
                        lemma_accepted_spells(g, tokens@);
                    }
                    return Ok(ParseTree { nodes });
                }
            }
            let top = stack[stack.len() - 1];
            assert(c.stack.last() == top@);
            assert(c.nodes[top.node as int] == nodes@[top.node as int]@);
            let action = self.decide(&nodes[top.node].symbol, top, stack.len(), tokens, pos);
            proof {
                lemma_step_progress(g, tokens@, c);
            }
            match action {
                Action::Pop => {
                    stack.pop();
                    assert(config(nodes@, stack@, pos) == popped(c, 0)) by {
                        assert(entries(stack@) =~= c.stack.drop_last());
                    }
                },
                Action::Eat => {
                    assert(step(g, tokens@, c) == Step::Next(popped(c, 1)));
                    stack.pop();
                    pos += 1;
                    assert(config(nodes@, stack@, pos) == popped(c, 1)) by {
                        assert(entries(stack@) =~= c.stack.drop_last());
                    }
                },
                Action::Expand(rule) => {
                    assert(g[rule as int].right == symbols(rules@[rule as int].right@));
                    expand(&mut nodes, &mut stack, &rules[rule].right, rule, pos);
                },
                Action::Fail(e) => {
                    return Err(e);
                },
            }
        }
    }
}

} // verus!
