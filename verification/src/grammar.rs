//! Productions and the ordered rule set of a grammar.

use vstd::prelude::*;
use crate::symbol::{Sym, Symbol, Variable};
use crate::syntax::{
    grammar_of, lemma_text_end_free, read_rules, GrammarSyntaxError, SyntaxErrorKind,
};

verus! {

/// One production: a non-terminal and the symbols it expands to.
#[derive(Debug)]
pub struct Rule {
    pub left: Variable,
    pub right: Vec<Symbol>,
}

/// What a [`Rule`] stands for.
pub struct Production {
    pub left: Seq<char>,
    pub right: Seq<Sym>,
}

/// The symbols of `right`, each as what it stands for.
pub open spec fn symbols(right: Seq<Symbol>) -> Seq<Sym> {
    Seq::new(right.len(), |k: int| right[k]@)
}

impl View for Rule {
    type V = Production;

    open spec fn view(&self) -> Production {
        Production { left: self.left@, right: symbols(self.right@) }
    }
}

/// The productions that `rules` stand for, in order.
pub open spec fn productions(rules: Seq<Rule>) -> Seq<Production> {
    Seq::new(rules.len(), |i: int| rules[i]@)
}

impl Rule {
    /// Makes the production of the non-terminal called `left` with the
    /// right-hand side `right`.
    pub fn from(left: String, right: Vec<Symbol>) -> (r: Self)
        ensures
            r.left.name == left,
            r.right == right,
    {
        Rule { left: Variable::from(left), right }
    }
}

/// Whether no right-hand side of `g` holds the end-of-input mark.
pub open spec fn end_free(g: Seq<Production>) -> bool {
    forall|i: int, k: int|
        0 <= i < g.len() && 0 <= k < g[i].right.len() ==> #[trigger] g[i].right[k] != Sym::End
}

/// Whether `g` can be the rules of a grammar: there is a first rule, whose
/// owner is the start symbol, and no right-hand side holds the
/// end-of-input mark.
pub open spec fn well_formed(g: Seq<Production>) -> bool {
    g.len() > 0 && end_free(g)
}

/// An ordered, non-empty set of rules. The owner of the first rule is the
/// start symbol.
#[derive(Debug)]
pub struct Grammar {
    rules: Vec<Rule>,
}

impl View for Grammar {
    type V = Seq<Production>;

    closed spec fn view(&self) -> Seq<Production> {
        productions(self.rules@)
    }
}

impl Grammar {
    #[verifier::type_invariant]
    closed spec fn inv(&self) -> bool {
        well_formed(self@)
    }

    /// Reads a grammar from its text form.
    ///
    /// The rules are those of the lines of `source`, in order, and the
    /// owner of the first is the start symbol. A text that cannot be read
    /// is refused with the number of its first bad line, and so is a text
    /// without lines.
    pub fn from(source: &str) -> (r: Result<Grammar, GrammarSyntaxError>)
        ensures
            match r {
                Ok(grammar) => grammar_of(source@) == Ok::<Seq<Production>, (nat, SyntaxErrorKind)>(
                    grammar@,
                ) && well_formed(grammar@),
                Err(e) => grammar_of(source@) == Err::<Seq<Production>, (nat, SyntaxErrorKind)>(
                    (e.line as nat, e.kind),
                ),
            },
    {
        match read_rules(source) {
            Err(e) => Err(e),
            Ok(rules) => {
                if rules.len() == 0 {
                    Err(GrammarSyntaxError { line: 0, kind: SyntaxErrorKind::NoRules })
                } else {
                    proof {
                        lemma_text_end_free(source@, 0, 0);
                    }
                    Ok(Grammar { rules })
                }
            },
        }
    }

    /// The rules, in the order in which they were written.
    pub fn rules(&self) -> (rules: &Vec<Rule>)
        ensures
            productions(rules@) == self@,
            well_formed(self@),
    {
        proof {
            use_type_invariant(self);
        }
        &self.rules
    }
}

} // verus!
