//! The predictive table of a grammar: its construction, and the analyses
//! that it rests on.

use vstd::prelude::*;
use crate::analysis::{first, follow, in_first, nullable, nullable_symbol};
use crate::grammar::{productions, symbols, well_formed, Grammar, Production, Rule};
use crate::symbol::{Sym, Symbol, Variable};
use crate::table::{conflict, is_ll1, predicts, selects, table_of};
use crate::walk::{
    distinct, first_into, follow_into, lists, lemma_names_empty, lemma_names_push, names,
    seq_nullable, symbol_nullable,
};

verus! {

/// Why an analysis refused a query.
#[derive(Debug, Clone, Copy, PartialEq, Eq, Structural)]
pub enum QueryError {
    /// The query reached the end-of-input mark, which has no analysis.
    InvalidQuery,
    /// FIRST was asked of an empty sequence.
    InvalidInput,
}

/// Two productions of one non-terminal that one lookahead selects.
#[derive(Debug)]
pub struct TableConflictError {
    /// The non-terminal that owns both productions.
    pub non_terminal: Variable,
    /// The lookahead that selects both.
    pub lookahead: Symbol,
    /// The index of the production that held the cell.
    pub existing: usize,
    /// The index of the production that asked for the cell.
    pub new: usize,
}

/// The symbols that `s` lists, as a set.
pub open spec fn members(s: Seq<Symbol>) -> Set<Sym> {
    Set::new(|t: Sym| lists(s, t))
}

/// Whether a query for the nullability of `seq` reaches the end-of-input
/// mark: it stands in `seq` behind symbols that all derive the empty
/// string.
pub open spec fn reaches_end(g: Seq<Production>, seq: Seq<Sym>) -> bool {
    exists|k: int| 0 <= k < seq.len() && #[trigger] seq[k] == Sym::End && nullable(g, seq.take(k))
}

/// One cell of the table: the production to expand by when `lookahead` is
/// the next input and the owner of the production is on the stack.
#[derive(Debug)]
struct TableEntry {
    lookahead: Symbol,
    rule: usize,
}

/// The predictive table of a grammar.
#[derive(Debug)]
pub struct Parser<'a> {
    grammar: &'a Grammar,
    table: Vec<TableEntry>,
}

/// Whether the cells in `table` are what the first `n` productions of `g`
/// ask for, no cell twice.
spec fn covers(table: Seq<TableEntry>, g: Seq<Production>, n: int) -> bool {
    &&& forall|e: int|
        0 <= e < table.len() ==> (#[trigger] table[e]).rule < n && predicts(
            g,
            table[e].rule as int,
            table[e].lookahead@,
        )
    &&& forall|j: int, t: Sym|
        0 <= j < n && #[trigger] predicts(g, j, t) ==> exists|e: int|
            0 <= e < table.len() && (#[trigger] table[e]).rule == j && table[e].lookahead@ == t
}

/// Whether no lookahead selects two of the first `n` productions of `g`
/// for one non-terminal.
pub open spec fn ll1_upto(g: Seq<Production>, n: int) -> bool {
    forall|i: int, j: int, t: Sym| i < n && j < n ==> !#[trigger] conflict(g, i, j, t)
}

/// The cell of `table` for `lookahead` and `left`, if there is one.
fn find_entry(
    table: &Vec<TableEntry>,
    rules: &Vec<Rule>,
    lookahead: &Symbol,
    left: &Variable,
) -> (r: Option<usize>)
    requires
        forall|e: int| 0 <= e < table@.len() ==> (#[trigger] table@[e]).rule < rules@.len(),
    ensures
        match r {
            Some(e) => e < table@.len() && table@[e as int].lookahead@ == lookahead@
                && rules@[table@[e as int].rule as int].left@ == left@,
            None => forall|e: int|
                0 <= e < table@.len() ==> !((#[trigger] table@[e]).lookahead@ == lookahead@
                    && rules@[table@[e].rule as int].left@ == left@),
        },
{
    let mut e: usize = 0;
    while e < table.len()
        invariant
            0 <= e <= table.len(),
            forall|e: int| 0 <= e < table@.len() ==> (#[trigger] table@[e]).rule < rules@.len(),
            forall|d: int|
                0 <= d < e ==> !((#[trigger] table@[d]).lookahead@ == lookahead@
                    && rules@[table@[d].rule as int].left@ == left@),
        decreases table.len() - e,
    {
        if table[e].lookahead == *lookahead && rules[table[e].rule].left == *left {
            return Some(e);
        }
        e += 1;
    }
    None
}

/// What is left to do for the production `g[i]` while its lookaheads
/// `rest` wait for their cells: every cell in `table` is asked for by one
/// of the first `i + 1` productions, all that the first `i` ask for are
/// there, and of what `g[i]` asks for, all but `rest`.
spec fn filling(
    table: Seq<TableEntry>,
    g: Seq<Production>,
    i: int,
    rest: Seq<Symbol>,
) -> bool {
    &&& forall|e: int|
        0 <= e < table.len() ==> (#[trigger] table[e]).rule <= i && predicts(
            g,
            table[e].rule as int,
            table[e].lookahead@,
        )
    &&& forall|j: int, t: Sym|
        0 <= j < i && #[trigger] predicts(g, j, t) ==> exists|e: int|
            0 <= e < table.len() && (#[trigger] table[e]).rule == j && table[e].lookahead@ == t
    &&& forall|t: Sym| #[trigger]
        predicts(g, i, t) ==> lists(rest, t) || exists|e: int|
            0 <= e < table.len() && (#[trigger] table[e]).rule == i && table[e].lookahead@ == t
    &&& forall|e: int|
        0 <= e < table.len() && (#[trigger] table[e]).rule == i ==> !lists(
            rest,
            table[e].lookahead@,
        )
    &&& forall|j: int, t: Sym| j < i && #[trigger] conflict(g, j, i, t) ==> lists(rest, t)
}

/// The lookaheads that select `rules[i]`, each listed once.
fn predict_set(rules: &Vec<Rule>, i: usize) -> (set: Vec<Symbol>)
    requires
        i < rules@.len(),
    ensures
        distinct(set@),
        forall|t: Sym| #[trigger] lists(set@, t) <==> predicts(productions(rules@), i as int, t),
{
    let ghost g = productions(rules@);
    let mut set: Vec<Symbol> = Vec::new();
    let right = rules[i].right.as_slice();
    assert(symbols(right@) == g[i as int].right);
    if right.len() > 0 {
        let mut path: Vec<&Variable> = Vec::new();
        proof {
            lemma_names_empty();
        }
        first_into(rules, right, &mut path, &mut set);
    }
    assert(forall|t: Sym| #[trigger] lists(set@, t) <==> in_first(g, g[i as int].right, t));
    if seq_nullable(rules, right) {
        let mut path: Vec<&Variable> = Vec::new();
        path.push(&rules[i].left);
        proof {
            lemma_names_empty();
            lemma_names_push(Seq::<&Variable>::empty(), &rules[i as int].left);
            assert(names(path@) =~= set![g[i as int].left]);
        }
        follow_into(rules, &rules[i].left, &mut path, &mut set);
    }
    set
}

impl<'a> Parser<'a> {
    #[verifier::type_invariant]
    closed spec fn inv(&self) -> bool {
        self.wf()
    }

    /// Whether the cells are those of the predictive table of the grammar,
    /// which is LL(1).
    pub closed spec fn wf(&self) -> bool {
        &&& covers(self.table@, self.grammar@, self.grammar@.len() as int)
        &&& is_ll1(self.grammar@)
    }

    /// The rules that the table was built from.
    pub closed spec fn grammar(&self) -> Seq<Production> {
        self.grammar@
    }

    /// Whether the cell `e` is the one for `key`.
    closed spec fn keyed(&self, e: int, key: (Sym, Seq<char>)) -> bool {
        0 <= e < self.table@.len() && self.table@[e].lookahead@ == key.0
            && self.grammar@[self.table@[e].rule as int].left == key.1
    }

    /// The table: for a lookahead and the name of a non-terminal, the
    /// index of the production to expand by.
    pub closed spec fn table(&self) -> Map<(Sym, Seq<char>), int> {
        Map::new(
            |key: (Sym, Seq<char>)| exists|e: int| self.keyed(e, key),
            |key: (Sym, Seq<char>)| self.table@[choose|e: int| self.keyed(e, key)].rule as int,
        )
    }

    /// A well-formed table is the predictive table of its grammar.
    pub proof fn lemma_table(&self)
        requires
            self.wf(),
        ensures
            self.table() == table_of(self.grammar()),
    {
        let g = self.grammar@;
        assert forall|key: (Sym, Seq<char>)|
            self.table().dom().contains(key) <==> table_of(g).dom().contains(key) by {
            if self.table().dom().contains(key) {
                let e = choose|e: int| self.keyed(e, key);
                assert(selects(g, key, self.table@[e].rule as int));
            }
            if table_of(g).dom().contains(key) {
                let i = choose|i: int| #[trigger] selects(g, key, i);
                assert(predicts(g, i, key.0));
                let e = choose|e: int|
                    0 <= e < self.table@.len() && (#[trigger] self.table@[e]).rule == i
                        && self.table@[e].lookahead@ == key.0;
                assert(self.keyed(e, key));
            }
        }
        assert forall|key: (Sym, Seq<char>)|
            self.table().dom().contains(key) implies self.table()[key] == table_of(g)[key] by {
            let e = choose|e: int| self.keyed(e, key);
            let i = self.table@[e].rule as int;
            let j = choose|j: int| #[trigger] selects(g, key, j);
            assert(selects(g, key, i));
            assert(selects(g, key, j));
            if i != j {
                assert(conflict(g, i, j, key.0));
            }
        }
        assert(self.table() =~= table_of(g));
    }

    /// Two tables built from the same rules hold the same cells.
    pub proof fn lemma_same_rules_same_table(&self, other: &Parser)
        requires
            self.wf(),
            other.wf(),
            self.grammar() == other.grammar(),
        ensures
            self.table() == other.table(),
    {
        self.lemma_table();
        other.lemma_table();
    }

    /// Builds the predictive table of `grammar`.
    ///
    /// The productions are taken in order, and each asks for the cells of
    /// the lookaheads that select it. The table is built when and only
    /// when the grammar is LL(1). Otherwise the error names the first
    /// production that asks for a cell that an earlier production of the
    /// same non-terminal holds, that earlier production, and the
    /// lookahead.
    pub fn from(grammar: &'a Grammar) -> (r: Result<Parser<'a>, TableConflictError>)
        ensures
            r is Ok <==> is_ll1(grammar@),
            match r {
                Ok(p) => p.wf() && p.grammar() == grammar@ && p.table() == table_of(grammar@),
                Err(e) => {
                    &&& e.existing < e.new < grammar@.len()
                    &&& conflict(grammar@, e.existing as int, e.new as int, e.lookahead@)
                    &&& e.non_terminal@ == grammar@[e.new as int].left
                    &&& ll1_upto(grammar@, e.new as int)
                },
            },
    {
        let rules = grammar.rules();
        let ghost g = grammar@;
        let mut table: Vec<TableEntry> = Vec::new();
        let mut i: usize = 0;
        while i < rules.len()
            invariant
                0 <= i <= rules.len(),
                g == grammar@,
                g == productions(rules@),
                covers(table@, g, i as int),
                ll1_upto(g, i as int),
            decreases rules.len() - i,
        {
            let mut set = predict_set(rules, i);
            let ghost full = set@;
            assert(filling(table@, g, i as int, set@)) by {
                assert forall|j: int, t: Sym|
                    j < i && #[trigger] conflict(g, j, i as int, t) implies lists(set@, t) by {
                    assert(predicts(g, i as int, t));
                }
            }
            while set.len() > 0
                invariant
                    0 <= i < rules.len(),
                    g == grammar@,
                    g == productions(rules@),
                    distinct(set@),
                    forall|t: Sym| #[trigger] lists(set@, t) ==> predicts(g, i as int, t),
                    filling(table@, g, i as int, set@),
                    ll1_upto(g, i as int),
                decreases set.len(),
            {
                let ghost rest = set@;
                let ghost cells = table@;
                let s = set.pop().unwrap();
                proof {
                    assert(rest[rest.len() - 1]@ == s@);
                    assert(lists(rest, s@));
                    assert(!lists(set@, s@)) by {
                        if lists(set@, s@) {
                            let k = choose|k: int|
                                0 <= k < set@.len() && (#[trigger] set@[k])@ == s@;
                            assert(rest[k]@ == s@);
                        }
                    }
                    assert forall|t: Sym| #[trigger] lists(rest, t) implies lists(set@, t) || t
                        == s@ by {
                        let k = choose|k: int| 0 <= k < rest.len() && (#[trigger] rest[k])@ == t;
                        if k < set@.len() {
                            assert(set@[k]@ == t);
                        }
                    }
                    assert forall|t: Sym| #[trigger] lists(set@, t) implies lists(rest, t) by {
                        let k = choose|k: int| 0 <= k < set@.len() && (#[trigger] set@[k])@ == t;
                        assert(rest[k]@ == t);
                    }
                }
                match find_entry(&table, rules, &s, &rules[i].left) {
                    Some(e) => {
                        let existing = table[e].rule;
                        proof {
                            assert(cells[e as int].rule <= i);
                            assert(g[existing as int].left == g[i as int].left);
                            assert(conflict(g, existing as int, i as int, s@));
                        }
                        return Err(
                            TableConflictError {
                                non_terminal: rules[i].left.clone(),
                                lookahead: s,
                                existing,
                                new: i,
                            },
                        );
                    },
                    None => {
                        table.push(TableEntry { lookahead: s, rule: i });
                        proof {
                            let last = cells.len() as int;
                            assert(table@[last].rule == i && table@[last].lookahead@ == s@);
                            assert forall|e: int| 0 <= e < cells.len() implies #[trigger] table@[e]
                                == cells[e] by {}
                            assert forall|j: int, t: Sym|
                                0 <= j < i && #[trigger] predicts(g, j, t) implies exists|e: int|
                                0 <= e < table@.len() && (#[trigger] table@[e]).rule == j
                                    && table@[e].lookahead@ == t by {
                                let e = choose|e: int|
                                    0 <= e < cells.len() && (#[trigger] cells[e]).rule == j
                                        && cells[e].lookahead@ == t;
                                assert(table@[e] == cells[e]);
                            }
                            assert forall|t: Sym| #[trigger] predicts(g, i as int, t) implies lists(
                                set@,
                                t,
                            ) || exists|e: int|
                                0 <= e < table@.len() && (#[trigger] table@[e]).rule == i
                                    && table@[e].lookahead@ == t by {
                                if t == s@ {
                                    assert(table@[last].rule == i);
                                } else if !lists(rest, t) {
                                    let e = choose|e: int|
                                        0 <= e < cells.len() && (#[trigger] cells[e]).rule == i
                                            && cells[e].lookahead@ == t;
                                    assert(table@[e] == cells[e]);
                                }
                            }
                            assert forall|j: int, t: Sym|
                                j < i && #[trigger] conflict(g, j, i as int, t) implies lists(
                                set@,
                                t,
                            ) by {
                                if t == s@ {
                                    assert(predicts(g, j, t));
                                    let e = choose|e: int|
                                        0 <= e < cells.len() && (#[trigger] cells[e]).rule == j
                                            && cells[e].lookahead@ == t;
                                    assert(rules@[cells[e].rule as int].left@ == g[j].left);
                                    assert(false);
                                }
                            }
                            assert(filling(table@, g, i as int, set@));
                        }
                    },
                }
            }
            proof {
                assert forall|a: int, b: int, t: Sym|
                    a < i + 1 && b < i + 1 implies !#[trigger] conflict(g, a, b, t) by {
                    if conflict(g, a, b, t) {
                        if a == i {
                            assert(conflict(g, b, i as int, t));
                        } else {
                            assert(conflict(g, a, i as int, t));
                        }
                    }
                }
                assert(covers(table@, g, i + 1));
            }
            i += 1;
        }
        proof {
            assert(g.len() == rules@.len());
            assert forall|a: int, b: int, t: Sym| !#[trigger] conflict(g, a, b, t) by {
                if conflict(g, a, b, t) {
                    assert(predicts(g, a, t));
                    assert(predicts(g, b, t));
                }
            }
        }
        let parser = Parser { grammar, table };
        proof {
            parser.lemma_table();
        }
        Ok(parser)
    }

    /// The rules that the table was built from.
    pub(crate) fn rules(&self) -> (rules: &'a Vec<Rule>)
        ensures
            productions(rules@) == self.grammar(),
            well_formed(self.grammar()),
            self.wf(),
    {
        proof {
            use_type_invariant(self);
        }
        self.grammar.rules()
    }

    /// The production to expand `non_terminal` by when `lookahead` is the
    /// next input, if the table has one.
    pub fn lookup(&self, lookahead: &Symbol, non_terminal: &Variable) -> (r: Option<usize>)
        ensures
            match r {
                Some(i) => self.table().contains_key((lookahead@, non_terminal@)) && self.table()[(
                    lookahead@,
                    non_terminal@,
                )] == i,
                None => !self.table().contains_key((lookahead@, non_terminal@)),
            },
    {
        proof {
            use_type_invariant(self);
        }
        let rules = self.grammar.rules();
        let ghost g = self.grammar@;
        let ghost key = (lookahead@, non_terminal@);
        assert(g.len() == rules@.len());
        match find_entry(&self.table, rules, lookahead, non_terminal) {
            Some(e) => {
                proof {
                    assert(self.keyed(e as int, key));
                    let d = choose|d: int| self.keyed(d, key);
                    let i = self.table@[e as int].rule as int;
                    let j = self.table@[d].rule as int;
                    if i != j {
                        assert(conflict(g, i, j, key.0));
                    }
                }
                Some(self.table[e].rule)
            },
            None => {
                proof {
                    if self.table().contains_key(key) {
                        let d = choose|d: int| self.keyed(d, key);
                        assert(false);
                    }
                }
                None
            },
        }
    }

    /// Whether `sym` derives the empty string.
    ///
    /// The end-of-input mark has no analysis and is refused.
    pub fn eps_symbol(grammar: &Grammar, sym: &Symbol) -> (r: Result<bool, QueryError>)
        ensures
            r == if sym@ is End {
                Err::<bool, QueryError>(QueryError::InvalidQuery)
            } else {
                Ok(nullable_symbol(grammar@, sym@))
            },
    {
        match sym {
            Symbol::End => Err(QueryError::InvalidQuery),
            _ => Ok(symbol_nullable(grammar.rules(), sym)),
        }
    }

    /// Whether every symbol of `expr` derives the empty string.
    ///
    /// The symbols are asked in order, up to the first that does not. The
    /// query is refused when that reaches the end-of-input mark.
    pub fn eps(grammar: &Grammar, expr: &[Symbol]) -> (r: Result<bool, QueryError>)
        ensures
            r == if reaches_end(grammar@, symbols(expr@)) {
                Err::<bool, QueryError>(QueryError::InvalidQuery)
            } else {
                Ok(nullable(grammar@, symbols(expr@)))
            },
    {
        let rules = grammar.rules();
        let ghost g = grammar@;
        let ghost seq = symbols(expr@);
        let mut k: usize = 0;
        while k < expr.len()
            invariant
                0 <= k <= expr.len(),
                g == grammar@,
                g == productions(rules@),
                seq == symbols(expr@),
                forall|m: int| 0 <= m < k ==> nullable_symbol(g, #[trigger] seq[m]),
            decreases expr.len() - k,
        {
            assert(seq[k as int] == expr@[k as int]@);
            match &expr[k] {
                Symbol::End => {
                    assert(nullable(g, seq.take(k as int)));
                    return Err(QueryError::InvalidQuery);
                },
                sym => {
                    if !symbol_nullable(rules, sym) {
                        proof {
                            assert(!nullable(g, seq));
                            assert forall|m: int|
                                0 <= m < seq.len() && #[trigger] seq[m]
                                    == Sym::End implies !nullable(g, seq.take(m)) by {
                                if m > k {
                                    assert(seq.take(m)[k as int] == seq[k as int]);
                                }
                            }
                        }
                        return Ok(false);
                    }
                },
            }
            k += 1;
        }
        proof {
            assert forall|m: int| 0 <= m < seq.len() implies #[trigger] seq[m] != Sym::End by {
                assert(nullable_symbol(g, seq[m]));
            }
        }
        Ok(true)
    }

    /// FIRST of `expr`: the characters that can begin what its first symbol
    /// derives, each listed once.
    ///
    /// An empty `expr` is refused, and so is one that begins with the
    /// end-of-input mark.
    pub fn first_set(grammar: &'a Grammar, expr: &'a [Symbol]) -> (r: Result<
        Vec<Symbol>,
        QueryError,
    >)
        ensures
            match r {
                Ok(set) => {
                    &&& expr@.len() > 0
                    &&& expr@[0]@ != Sym::End
                    &&& members(set@) == first(grammar@, symbols(expr@))
                    &&& distinct(set@)
                },
                Err(e) => if expr@.len() == 0 {
                    e == QueryError::InvalidInput
                } else {
                    expr@[0]@ == Sym::End && e == QueryError::InvalidQuery
                },
            },
    {
        if expr.len() == 0 {
            return Err(QueryError::InvalidInput);
        }
        if let Symbol::End = &expr[0] {
            return Err(QueryError::InvalidQuery);
        }
        let mut set: Vec<Symbol> = Vec::new();
        let mut path: Vec<&Variable> = Vec::new();
        proof {
            lemma_names_empty();
        }
        first_into(grammar.rules(), expr, &mut path, &mut set);
        assert(members(set@) =~= first(grammar@, symbols(expr@)));
        Ok(set)
    }

    /// FOLLOW of `var`: the characters, and possibly the end-of-input
    /// mark, that can come right after `var`, each listed once.
    pub fn follow_set(grammar: &'a Grammar, var: &'a Variable) -> (set: Vec<Symbol>)
        ensures
            members(set@) == follow(grammar@, var@),
            distinct(set@),
    {
        let mut set: Vec<Symbol> = Vec::new();
        let mut path: Vec<&Variable> = Vec::new();
        path.push(var);
        proof {
            lemma_names_empty();
            lemma_names_push(Seq::<&Variable>::empty(), var);
            assert(names(path@) =~= set![var@]);
        }
        follow_into(grammar.rules(), var, &mut path, &mut set);
        assert(members(set@) =~= follow(grammar@, var@));
        set
    }
}

} // verus!
