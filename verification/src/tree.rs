//! Derivation trees and the ways in which a parse can fail.

use vstd::prelude::*;
use crate::machine::{Failure, NodeData};
use crate::symbol::{Symbol, Terminal, Variable};

verus! {

/// A node of a derivation tree, held in the tree's sequence of nodes.
#[derive(Debug)]
pub struct Node {
    /// The place of the node in the sequence.
    pub index: usize,
    /// The symbol that the node stands for.
    pub symbol: Symbol,
    /// The index of the node above, if this is not the root.
    pub parent: Option<usize>,
    /// The indices of the nodes below, from left to right.
    pub children: Vec<usize>,
    /// The index of the production that the node was expanded by.
    pub rule: Option<usize>,
}

/// An index, if there is one, as a mathematical integer.
pub open spec fn index_of(i: Option<usize>) -> Option<int> {
    match i {
        Some(i) => Some(i as int),
        None => None,
    }
}

/// The indices in `s` as mathematical integers.
pub open spec fn indices(s: Seq<usize>) -> Seq<int> {
    Seq::new(s.len(), |k: int| s[k] as int)
}

impl View for Node {
    type V = NodeData;

    open spec fn view(&self) -> NodeData {
        NodeData {
            symbol: self.symbol@,
            parent: index_of(self.parent),
            children: indices(self.children@),
            rule: index_of(self.rule),
        }
    }
}

/// What the nodes in `nodes` stand for, in order.
pub open spec fn node_views(nodes: Seq<Node>) -> Seq<NodeData> {
    Seq::new(nodes.len(), |i: int| nodes[i]@)
}

/// Whether each node of `nodes` knows its place.
pub open spec fn indexed(nodes: Seq<Node>) -> bool {
    forall|i: int| 0 <= i < nodes.len() ==> (#[trigger] nodes[i]).index == i
}

/// A derivation tree. The root is the node at index 0.
#[derive(Debug)]
pub struct ParseTree {
    pub nodes: Vec<Node>,
}

impl View for ParseTree {
    type V = Seq<NodeData>;

    open spec fn view(&self) -> Seq<NodeData> {
        node_views(self.nodes@)
    }
}

/// Why an input is not derived. A position is the index of a token, the
/// length of the input for its end.
#[derive(Debug, PartialEq, Eq)]
pub enum ParseError {
    /// The terminal `expected` is on top of the stack and the input holds
    /// `found` at `position`.
    Mismatch { expected: Symbol, found: Terminal, position: usize },
    /// The table has no production for `non_terminal`, which is on top of
    /// the stack, and `lookahead`, which is what the input holds at
    /// `position`.
    NoRule { non_terminal: Variable, lookahead: Symbol, position: usize },
    /// The terminal `expected` is on top of the stack, on which `depth`
    /// nodes wait, and the input has ended.
    UnexpectedEnd { expected: Symbol, depth: usize },
    /// The stack is down to the end-of-input mark and the input still holds
    /// `found` at `position`.
    StackExhausted { found: Terminal, position: usize },
    /// More expansions in a row than the grammar has rules led to
    /// `non_terminal`, which is on top of the stack, and none consumed
    /// input. Among so many, one rule was used twice at `position`, and
    /// the table would choose it there again and again.
    Loop { non_terminal: Variable, position: usize },
}

impl View for ParseError {
    type V = Failure;

    open spec fn view(&self) -> Failure {
        match self {
            ParseError::Mismatch { expected, found, position } => Failure::Mismatch {
                expected: expected@,
                found: *found,
                position: *position as int,
            },
            ParseError::NoRule { non_terminal, lookahead, position } => Failure::NoRule {
                non_terminal: non_terminal@,
                lookahead: lookahead@,
                position: *position as int,
            },
            ParseError::UnexpectedEnd { expected, depth } => Failure::UnexpectedEnd {
                expected: expected@,
                depth: *depth as int,
            },
            ParseError::StackExhausted { found, position } => Failure::StackExhausted {
                found: *found,
                position: *position as int,
            },
            ParseError::Loop { non_terminal, position } => Failure::Loop {
                non_terminal: non_terminal@,
                position: *position as int,
            },
        }
    }
}

} // verus!
