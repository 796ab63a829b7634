//! The grammar alphabet: non-terminals, terminals and the end-of-input mark.

use vstd::prelude::*;

verus! {

/// A terminal of the grammar: one input character, or the empty string.
#[derive(Debug, Clone, Copy, PartialEq, Eq, Hash, Structural)]
pub enum Terminal {
    Char(char),
    Epsilon,
}

/// A non-terminal, identified by its name.
#[derive(Debug, Eq, Hash)]
pub struct Variable {
    pub name: String,
}

/// A member of the grammar alphabet.
///
/// `End` marks the end of the input. It is a lookahead and the bottom of
/// the parser's stack, and never part of a production.
#[derive(Debug, Eq, Hash)]
pub enum Symbol {
    Var(Variable),
    Ter(Terminal),
    End,
}

/// What a [`Symbol`] stands for: a non-terminal is its name.
pub enum Sym {
    Var(Seq<char>),
    Ter(Terminal),
    End,
}

impl View for Variable {
    type V = Seq<char>;

    open spec fn view(&self) -> Seq<char> {
        self.name@
    }
}

impl View for Symbol {
    type V = Sym;

    open spec fn view(&self) -> Sym {
        match self {
            Symbol::Var(v) => Sym::Var(v@),
            Symbol::Ter(t) => Sym::Ter(*t),
            Symbol::End => Sym::End,
        }
    }
}

impl PartialEq for Variable {
    /// Two non-terminals are equal when they have the same name.
    fn eq(&self, other: &Self) -> (b: bool) {
        self.name == other.name
    }
}

impl vstd::std_specs::cmp::PartialEqSpecImpl for Variable {
    open spec fn obeys_eq_spec() -> bool {
        true
    }

    open spec fn eq_spec(&self, other: &Self) -> bool {
        self@ == other@
    }
}

impl Clone for Variable {
    fn clone(&self) -> (v: Self)
        ensures
            v == *self,
    {
        Variable { name: self.name.clone() }
    }
}

impl PartialEq for Symbol {
    /// Two symbols are equal when they are of the same kind and stand for
    /// the same name or the same terminal.
    fn eq(&self, other: &Self) -> (b: bool) {
        match (self, other) {
            (Symbol::Var(v1), Symbol::Var(v2)) => v1.name == v2.name,
            (Symbol::Ter(t1), Symbol::Ter(t2)) => *t1 == *t2,
            (Symbol::End, Symbol::End) => true,
            _ => false,
        }
    }
}

impl vstd::std_specs::cmp::PartialEqSpecImpl for Symbol {
    open spec fn obeys_eq_spec() -> bool {
        true
    }

    open spec fn eq_spec(&self, other: &Self) -> bool {
        self@ == other@
    }
}

impl Clone for Symbol {
    fn clone(&self) -> (s: Self)
        ensures
            s == *self,
    {
        match self {
            Symbol::Var(v) => Symbol::Var(v.clone()),
            Symbol::Ter(t) => Symbol::Ter(*t),
            Symbol::End => Symbol::End,
        }
    }
}

impl Variable {
    /// Makes the non-terminal called `name`.
    pub fn from(name: String) -> (v: Self)
        ensures
            v.name == name,
    {
        Variable { name }
    }
}

impl Symbol {
    /// The non-terminal called `name`, as a symbol.
    pub fn var(name: String) -> (s: Self)
        ensures
            s == Symbol::Var(Variable { name }),
    {
        Symbol::Var(Variable { name })
    }

    /// The terminal for the character `char`.
    pub fn ter(char: char) -> (s: Self)
        ensures
            s == Symbol::Ter(Terminal::Char(char)),
    {
        Symbol::Ter(Terminal::Char(char))
    }

    /// The terminal for the empty string.
    pub fn eps() -> (s: Self)
        ensures
            s == Symbol::Ter(Terminal::Epsilon),
    {
        Symbol::Ter(Terminal::Epsilon)
    }
}

} // verus!
