//! What a grammar derives, and that the machine accepts nothing else.

use vstd::prelude::*;
use crate::analysis::{first, first_by, first_has};
use crate::budget::{budget, lemma_budget_decreases};
use crate::grammar::{well_formed, Production};
use crate::machine::{
    expanded, initial, lemma_step_progress, lookahead, parse_of, popped, pushed, run, step,
    weight, Config, Step,
};
use crate::symbol::{Sym, Terminal};
use crate::table::{selects, table_of};

verus! {

/// Whether `b` is `a` with the non-terminal at index `i` replaced by the
/// right-hand side of its production `g[r]`.
pub open spec fn applies(g: Seq<Production>, a: Seq<Sym>, b: Seq<Sym>, i: int, r: int) -> bool {
    &&& 0 <= i < a.len()
    &&& 0 <= r < g.len()
    &&& a[i] == Sym::Var(g[r].left)
    &&& b == a.take(i) + g[r].right + a.skip(i + 1)
}

/// Whether `b` is `a` without the empty terminal at index `i`.
pub open spec fn erases(a: Seq<Sym>, b: Seq<Sym>, i: int) -> bool {
    &&& 0 <= i < a.len()
    &&& a[i] == Sym::Ter(Terminal::Epsilon)
    &&& b == a.take(i) + a.skip(i + 1)
}

/// Whether `a` becomes `b` in one step: a non-terminal is replaced by one
/// of its right-hand sides, or an empty terminal is dropped.
pub open spec fn rewrites(g: Seq<Production>, a: Seq<Sym>, b: Seq<Sym>) -> bool {
    ||| exists|i: int, r: int| #[trigger] applies(g, a, b, i, r)
    ||| exists|i: int| #[trigger] erases(a, b, i)
}

/// Whether `a` becomes `b` in `n` steps.
pub open spec fn derives_in(g: Seq<Production>, a: Seq<Sym>, b: Seq<Sym>, n: nat) -> bool
    decreases n,
{
    if n == 0 {
        a == b
    } else {
        exists|m: Seq<Sym>| derives_in(g, a, m, (n - 1) as nat) && #[trigger] rewrites(g, m, b)
    }
}

/// Whether `g` derives `b` from `a`.
pub open spec fn derives(g: Seq<Production>, a: Seq<Sym>, b: Seq<Sym>) -> bool {
    exists|n: nat| derives_in(g, a, b, n)
}

/// The tokens as symbols.
pub open spec fn word(tokens: Seq<Terminal>) -> Seq<Sym> {
    Seq::new(tokens.len(), |k: int| Sym::Ter(tokens[k]))
}

/// The symbols that wait on the stack of `c`, from the top down.
pub open spec fn waiting(c: Config) -> Seq<Sym> {
    Seq::new(c.stack.len(), |k: int| c.nodes[c.stack[c.stack.len() - 1 - k].node].symbol)
}

/// What `c` has made of the start symbol: the tokens that were consumed,
/// and behind them the symbols that wait.
pub open spec fn form(tokens: Seq<Terminal>, c: Config) -> Seq<Sym> {
    word(tokens.take(c.pos)) + waiting(c)
}

/// Whether `c` is a state that a run can reach: the position is in the
/// input, the stack holds nodes of the tree, and no node is the
/// end-of-input mark.
pub open spec fn reachable(tokens: Seq<Terminal>, c: Config) -> bool {
    &&& 0 <= c.pos <= tokens.len()
    &&& forall|k: int| 0 <= k < c.stack.len() ==> 0 <= (#[trigger] c.stack[k]).node < c.nodes.len()
    &&& forall|i: int| 0 <= i < c.nodes.len() ==> (#[trigger] c.nodes[i]).symbol != Sym::End
}

/// A derivation can be made one step longer.
pub proof fn lemma_derives_step(g: Seq<Production>, a: Seq<Sym>, m: Seq<Sym>, b: Seq<Sym>)
    requires
        derives(g, a, m),
        rewrites(g, m, b),
    ensures
        derives(g, a, b),
{
    let n = choose|n: nat| derives_in(g, a, m, n);
    assert(derives_in(g, a, b, n + 1));
}

/// A derivation can go on with another.
pub proof fn lemma_derives_on(g: Seq<Production>, a: Seq<Sym>, m: Seq<Sym>, b: Seq<Sym>)
    requires
        derives(g, a, m),
        derives(g, m, b),
    ensures
        derives(g, a, b),
{
    let n = choose|n: nat| derives_in(g, m, b, n);
    lemma_derives_on_in(g, a, m, b, n);
}

/// A derivation can go on with another of `n` steps.
proof fn lemma_derives_on_in(g: Seq<Production>, a: Seq<Sym>, m: Seq<Sym>, b: Seq<Sym>, n: nat)
    requires
        derives(g, a, m),
        derives_in(g, m, b, n),
    ensures
        derives(g, a, b),
    decreases n,
{
    if n > 0 {
        let last = choose|last: Seq<Sym>|
            derives_in(g, m, last, (n - 1) as nat) && #[trigger] rewrites(g, last, b);
        lemma_derives_on_in(g, a, m, last, (n - 1) as nat);
        lemma_derives_step(g, a, last, b);
    }
}

/// A step can be taken between what stands before and what stands behind.
proof fn lemma_rewrites_within(
    g: Seq<Production>,
    a: Seq<Sym>,
    b: Seq<Sym>,
    before: Seq<Sym>,
    behind: Seq<Sym>,
)
    requires
        rewrites(g, a, b),
    ensures
        rewrites(g, before + a + behind, before + b + behind),
{
    let wide = before + a + behind;
    let next = before + b + behind;
    let shift = before.len() as int;
    if exists|i: int, r: int| #[trigger] applies(g, a, b, i, r) {
        let (i, r) = choose|i: int, r: int| #[trigger] applies(g, a, b, i, r);
        assert(wide[shift + i] == a[i]);
        assert(next =~= wide.take(shift + i) + g[r].right + wide.skip(shift + i + 1));
        assert(applies(g, wide, next, shift + i, r));
    } else {
        let i = choose|i: int| #[trigger] erases(a, b, i);
        assert(wide[shift + i] == a[i]);
        assert(next =~= wide.take(shift + i) + wide.skip(shift + i + 1));
        assert(erases(wide, next, shift + i));
    }
}

/// What is derived alone in `n` steps is derived between what stands
/// before and what stands behind.
proof fn lemma_derives_within_in(
    g: Seq<Production>,
    a: Seq<Sym>,
    b: Seq<Sym>,
    before: Seq<Sym>,
    behind: Seq<Sym>,
    n: nat,
)
    requires
        derives_in(g, a, b, n),
    ensures
        derives(g, before + a + behind, before + b + behind),
    decreases n,
{
    if n == 0 {
        assert(derives_in(g, before + a + behind, before + b + behind, 0));
    } else {
        let last = choose|last: Seq<Sym>|
            derives_in(g, a, last, (n - 1) as nat) && #[trigger] rewrites(g, last, b);
        lemma_derives_within_in(g, a, last, before, behind, (n - 1) as nat);
        lemma_rewrites_within(g, last, b, before, behind);
        lemma_derives_step(
            g,
            before + a + behind,
            before + last + behind,
            before + b + behind,
        );
    }
}

/// What is derived alone is derived between what stands before and what
/// stands behind.
pub proof fn lemma_derives_within(
    g: Seq<Production>,
    a: Seq<Sym>,
    b: Seq<Sym>,
    before: Seq<Sym>,
    behind: Seq<Sym>,
)
    requires
        derives(g, a, b),
    ensures
        derives(g, before + a + behind, before + b + behind),
{
    let n = choose|n: nat| derives_in(g, a, b, n);
    lemma_derives_within_in(g, a, b, before, behind, n);
}

/// Whether `g` derives from `seq` something that begins with `t`.
pub open spec fn begins(g: Seq<Production>, seq: Seq<Sym>, t: Sym) -> bool {
    exists|w: Seq<Sym>| #[trigger] derives(g, seq, seq![t] + w)
}

/// What can begin the first symbol of `seq`, by whatever walk, begins
/// something that `g` derives from `seq`.
proof fn lemma_first_has_begins(
    g: Seq<Production>,
    seq: Seq<Sym>,
    visited: Set<Seq<char>>,
    t: Sym,
)
    requires
        first_has(g, seq, visited, t),
    ensures
        begins(g, seq, t),
    decreases budget(g, visited),
{
    let rest = seq.skip(1);
    assert(seq =~= seq![seq[0]] + rest);
    match seq[0] {
        Sym::Var(v) => {
            let i = choose|i: int|
                0 <= i < g.len() && (#[trigger] g[i]).left == v && first_by(g, i, v, visited, t);
            lemma_budget_decreases(g, visited, i);
            lemma_first_has_begins(g, g[i].right, visited.insert(g[i].left), t);
            let w = choose|w: Seq<Sym>| #[trigger] derives(g, g[i].right, seq![t] + w);
            let none = Seq::<Sym>::empty();
            lemma_derives_within(g, g[i].right, seq![t] + w, none, rest);
            assert(none + g[i].right + rest =~= g[i].right + rest);
            assert(none + (seq![t] + w) + rest =~= seq![t] + (w + rest));
            assert(seq.take(0) + g[i].right + seq.skip(1) =~= g[i].right + rest);
            assert(applies(g, seq, g[i].right + rest, 0, i));
            assert(derives_in(g, seq, seq, 0));
            lemma_derives_step(g, seq, seq, g[i].right + rest);
            lemma_derives_on(g, seq, g[i].right + rest, seq![t] + (w + rest));
            assert(derives(g, seq, seq![t] + (w + rest)));
        },
        _ => {
            assert(derives_in(g, seq, seq![t] + rest, 0));
            assert(derives(g, seq, seq![t] + rest));
        },
    }
}

/// Every member of FIRST of `seq` begins something that `g` derives from
/// `seq`.
pub proof fn lemma_first_begins(g: Seq<Production>, seq: Seq<Sym>, t: Sym)
    requires
        first(g, seq).contains(t),
    ensures
        begins(g, seq, t),
{
    lemma_first_has_begins(g, seq, Set::empty(), t);
}

/// What waits after an expansion: the symbols that were put on the stack,
/// and behind them what waited below the top.
proof fn lemma_waiting_expanded(tokens: Seq<Terminal>, c: Config, rule: int, put: Seq<Sym>)
    requires
        reachable(tokens, c),
        c.stack.len() > 0,
    ensures
        waiting(expanded(c, rule, put)) == put + waiting(c).skip(1),
        forall|i: int|
            0 <= i < c.nodes.len() ==> (#[trigger] expanded(c, rule, put).nodes[i]).symbol
                == c.nodes[i].symbol,
        forall|i: int|
            c.nodes.len() <= i < c.nodes.len() + put.len() ==> (#[trigger] expanded(
                c,
                rule,
                put,
            ).nodes[i]).symbol == put[i - c.nodes.len()],
        expanded(c, rule, put).nodes.len() == c.nodes.len() + put.len(),
{
    let after = expanded(c, rule, put);
    let old_len = c.stack.len() as int;
    let new_len = after.stack.len() as int;
    assert(new_len == old_len - 1 + put.len());
    assert forall|i: int| 0 <= i < c.nodes.len() implies (#[trigger] after.nodes[i]).symbol
        == c.nodes[i].symbol by {}
    assert forall|j: int| 0 <= j < new_len implies waiting(after)[j] == (put + waiting(c).skip(
        1,
    ))[j] by {
        let e = after.stack[new_len - 1 - j];
        if j < put.len() {
            assert(e.node == c.nodes.len() + j);
        } else {
            assert(e == c.stack[new_len - 1 - j]);
            assert(after.nodes[e.node].symbol == c.nodes[e.node].symbol);
            assert(waiting(c).skip(1)[j - put.len()] == waiting(c)[j - put.len() + 1]);
        }
    }
    assert(waiting(after) =~= put + waiting(c).skip(1));
}

/// A run that begins in a state that the grammar derives accepts only
/// what the grammar derives.
proof fn lemma_run_sound(g: Seq<Production>, tokens: Seq<Terminal>, c: Config)
    requires
        well_formed(g),
        reachable(tokens, c),
        derives(g, seq![Sym::Var(g[0].left)], form(tokens, c)),
    ensures
        run(g, tokens, c) is Accepted ==> derives(g, seq![Sym::Var(g[0].left)], word(tokens)),
    decreases tokens.len() - c.pos, weight(g, c.stack, c.pos),
{
    let start = seq![Sym::Var(g[0].left)];
    lemma_step_progress(g, tokens, c);
    match step(g, tokens, c) {
        Step::Done(outcome) => {
            if outcome is Accepted {
                assert(tokens.take(c.pos) =~= tokens);
                assert(form(tokens, c) =~= word(tokens));
            }
        },
        Step::Next(next) => {
            let top = c.stack.last();
            let symbol = c.nodes[top.node].symbol;
            let seen = word(tokens.take(c.pos));
            let rest = waiting(c).skip(1);
            assert(waiting(c)[0] == symbol);
            assert(form(tokens, c) =~= seen + seq![symbol] + rest);
            assert(form(tokens, c).take(c.pos) =~= seen);
            assert(form(tokens, c).skip(c.pos + 1) =~= rest);
            match symbol {
                Sym::Ter(Terminal::Char(ch)) => {
                    assert(next == popped(c, 1));
                    assert(waiting(next) =~= rest);
                    assert(word(tokens.take(c.pos + 1)) =~= seen + seq![symbol]);
                    assert(form(tokens, next) =~= form(tokens, c));
                },
                Sym::Var(v) => {
                    let key = (lookahead(tokens, c.pos), v);
                    let rule = table_of(g)[key];
                    let i = choose|i: int| #[trigger] selects(g, key, i);
                    assert(selects(g, key, i));
                    let right = g[rule].right;
                    let put = pushed(right);
                    assert(next == expanded(c, rule, put));
                    lemma_waiting_expanded(tokens, c, rule, put);
                    assert(form(tokens, next) =~= seen + put + rest);
                    let applied = seen + right + rest;
                    assert(applies(g, form(tokens, c), applied, c.pos, rule));
                    lemma_derives_step(g, start, form(tokens, c), applied);
                    if put != right {
                        assert(right[0] == Sym::Ter(Terminal::Epsilon));
                        assert(applied.take(c.pos) =~= seen);
                        assert(applied.skip(c.pos + 1) =~= rest);
                        assert(form(tokens, next) =~= seen + rest);
                        assert(erases(applied, form(tokens, next), c.pos));
                        lemma_derives_step(g, start, applied, form(tokens, next));
                    }
                    assert forall|i: int| 0 <= i < next.nodes.len() implies (
                    #[trigger] next.nodes[i]).symbol != Sym::End by {
                        if i >= c.nodes.len() {
                            assert(put[i - c.nodes.len()] == right[i - c.nodes.len()]);
                        } else {
                            assert(c.nodes[i].symbol != Sym::End);
                        }
                    }
                    assert forall|k: int| 0 <= k < next.stack.len() implies 0 <= (
                    #[trigger] next.stack[k]).node < next.nodes.len() by {
                        if k < c.stack.len() - 1 {
                            assert(next.stack[k] == c.stack[k]);
                        }
                    }
                },
                _ => {
                    assert(symbol == Sym::Ter(Terminal::Epsilon));
                    assert(next == popped(c, 0));
                    assert(waiting(next) =~= rest);
                    assert(form(tokens, next) =~= seen + rest);
                    assert(erases(form(tokens, c), form(tokens, next), c.pos));
                    lemma_derives_step(g, start, form(tokens, c), form(tokens, next));
                },
            }
            assert(reachable(tokens, next));
            lemma_run_sound(g, tokens, next);
        },
    }
}

/// What the machine accepts, the grammar derives from its start symbol.
pub proof fn lemma_accepted_is_derived(g: Seq<Production>, tokens: Seq<Terminal>)
    requires
        well_formed(g),
    ensures
        parse_of(g, tokens) is Accepted ==> derives(g, seq![Sym::Var(g[0].left)], word(tokens)),
{
    let c = initial(g);
    let start = seq![Sym::Var(g[0].left)];
    assert(tokens.take(0) =~= Seq::<Terminal>::empty());
    assert(form(tokens, c) =~= start);
    assert(derives_in(g, start, start, 0));
    lemma_run_sound(g, tokens, c);
}

} // verus!
