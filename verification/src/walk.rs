//! The analyses as walks over the rules, each with the path it came by.

use vstd::prelude::*;
use vstd::slice::slice_subrange;
use crate::analysis::{
    first_by, first_has, follow_at, follow_has, follows_start, in_first, nullable, nullable_by,
    nullable_symbol, nullable_var, nullable_within, occurs,
};
use crate::budget::{budget, lemma_budget_decreases};
use crate::grammar::{productions, symbols, Rule};
use crate::symbol::{Sym, Symbol, Terminal, Variable};

verus! {

/// The names of the non-terminals on `path`.
pub open spec fn names(path: Seq<&Variable>) -> Set<Seq<char>> {
    Set::new(|n: Seq<char>| exists|j: int| 0 <= j < path.len() && (#[trigger] path[j])@ == n)
}

/// Whether `s` lists a symbol that stands for `t`.
pub open spec fn lists(s: Seq<Symbol>, t: Sym) -> bool {
    exists|k: int| 0 <= k < s.len() && (#[trigger] s[k])@ == t
}

/// Whether no two symbols of `s` stand for the same thing.
pub open spec fn distinct(s: Seq<Symbol>) -> bool {
    forall|a: int, b: int| 0 <= a < b < s.len() ==> (#[trigger] s[a])@ != (#[trigger] s[b])@
}

/// The names on a path that is one longer.
pub(crate) proof fn lemma_names_push(path: Seq<&Variable>, v: &Variable)
    ensures
        names(path.push(v)) == names(path).insert(v@),
{
    let longer = path.push(v);
    assert forall|n: Seq<char>| names(longer).contains(n) <==> names(path).insert(v@).contains(
        n,
    ) by {
        if names(longer).contains(n) {
            let j = choose|j: int| 0 <= j < longer.len() && (#[trigger] longer[j])@ == n;
            if j < path.len() {
                assert(path[j]@ == n);
            }
        }
        if names(path).contains(n) {
            let j = choose|j: int| 0 <= j < path.len() && (#[trigger] path[j])@ == n;
            assert(longer[j]@ == n);
        }
        if n == v@ {
            assert(longer[path.len() as int]@ == n);
        }
    }
    assert(names(longer) =~= names(path).insert(v@));
}

/// An empty path has no names.
pub(crate) proof fn lemma_names_empty()
    ensures
        names(Seq::<&Variable>::empty()) == Set::<Seq<char>>::empty(),
{
    assert(names(Seq::<&Variable>::empty()) =~= Set::<Seq<char>>::empty());
}

/// Whether `v` is on `path`.
fn on_path(path: &Vec<&Variable>, v: &Variable) -> (b: bool)
    ensures
        b == names(path@).contains(v@),
{
    let mut j: usize = 0;
    while j < path.len()
        invariant
            0 <= j <= path.len(),
            forall|m: int| 0 <= m < j ==> (#[trigger] path@[m])@ != v@,
        decreases path.len() - j,
    {
        if *path[j] == *v {
            return true;
        }
        j += 1;
    }
    false
}

/// Adds `s` to `out` unless `out` lists it already.
pub(crate) fn add_symbol(out: &mut Vec<Symbol>, s: Symbol)
    requires
        distinct(old(out)@),
    ensures
        distinct(final(out)@),
        forall|t: Sym| lists(final(out)@, t) <==> lists(old(out)@, t) || t == s@,
{
    let mut j: usize = 0;
    while j < out.len()
        invariant
            0 <= j <= out.len(),
            out@ == old(out)@,
            distinct(out@),
            forall|m: int| 0 <= m < j ==> (#[trigger] out@[m])@ != s@,
        decreases out.len() - j,
    {
        if out[j] == s {
            assert(out@[j as int]@ == s@);
            return ;
        }
        j += 1;
    }
    let ghost before = out@;
    out.push(s);
    proof {
        assert forall|t: Sym| lists(out@, t) <==> lists(before, t) || t == s@ by {
            if lists(out@, t) {
                let k = choose|k: int| 0 <= k < out@.len() && (#[trigger] out@[k])@ == t;
                if k < before.len() {
                    assert(before[k]@ == t);
                }
            }
            if lists(before, t) {
                let k = choose|k: int| 0 <= k < before.len() && (#[trigger] before[k])@ == t;
                assert(out@[k]@ == t);
            }
            if t == s@ {
                assert(out@[before.len() as int]@ == t);
            }
        }
    }
}

/// Whether `var` derives the empty string by a walk that avoids `path`.
pub(crate) fn var_nullable<'a>(
    rules: &'a Vec<Rule>,
    var: &'a Variable,
    path: &mut Vec<&'a Variable>,
) -> (b: bool)
    ensures
        final(path)@ == old(path)@,
        b == nullable_var(productions(rules@), var@, names(old(path)@)),
    decreases budget(productions(rules@), names(old(path)@)),
{
    let ghost g = productions(rules@);
    let ghost avoid = names(path@);
    let ghost before = path@;
    if on_path(path, var) {
        return false;
    }
    path.push(var);
    proof {
        lemma_names_push(before, var);
    }
    let mut found = false;
    let mut i: usize = 0;
    while i < rules.len()
        invariant
            0 <= i <= rules.len(),
            g == productions(rules@),
            before == old(path)@,
            avoid == names(before),
            !avoid.contains(var@),
            path@ == before.push(var),
            names(path@) == avoid.insert(var@),
            found <==> exists|j: int|
                0 <= j < i && (#[trigger] g[j]).left == var@ && nullable_by(g, j, var@, avoid),
        decreases rules.len() - i,
    {
        if rules[i].left == *var {
            let right = &rules[i].right;
            let mut all = true;
            let mut k: usize = 0;
            while k < right.len() && all
                invariant
                    0 <= i < rules.len(),
                    0 <= k <= right.len(),
                    right == &rules[i as int].right,
                    g == productions(rules@),
                    g[i as int].left == var@,
                    before == old(path)@,
                    avoid == names(before),
                    !avoid.contains(var@),
                    path@ == before.push(var),
                    names(path@) == avoid.insert(var@),
                    all <==> forall|m: int|
                        0 <= m < k ==> nullable_within(
                            g,
                            var@,
                            #[trigger] g[i as int].right[m],
                            avoid.insert(var@),
                        ),
                decreases right.len() - k,
            {
                assert(g[i as int].right[k as int] == right@[k as int]@);
                all = match &right[k] {
                    Symbol::Ter(t) => *t == Terminal::Epsilon,
                    Symbol::Var(w) => {
                        if *w == *var {
                            true
                        } else {
                            proof {
                                lemma_budget_decreases(g, avoid, i as int);
                            }
                            var_nullable(rules, w, path)
                        }
                    },
                    Symbol::End => false,
                };
                k += 1;
            }
            if all {
                found = true;
                assert(nullable_by(g, i as int, var@, avoid));
            }
        }
        i += 1;
    }
    path.pop();
    assert(path@ == before);
    assert(g.len() == rules@.len());
    found
}

/// Whether `sym` derives the empty string.
pub(crate) fn symbol_nullable(rules: &Vec<Rule>, sym: &Symbol) -> (b: bool)
    ensures
        b == nullable_symbol(productions(rules@), sym@),
{
    match sym {
        Symbol::Ter(t) => *t == Terminal::Epsilon,
        Symbol::Var(v) => {
            let mut path: Vec<&Variable> = Vec::new();
            proof {
                lemma_names_empty();
            }
            var_nullable(rules, v, &mut path)
        },
        Symbol::End => false,
    }
}

/// Whether every symbol of `expr` derives the empty string.
pub(crate) fn seq_nullable(rules: &Vec<Rule>, expr: &[Symbol]) -> (b: bool)
    ensures
        b == nullable(productions(rules@), symbols(expr@)),
{
    let mut k: usize = 0;
    while k < expr.len()
        invariant
            0 <= k <= expr.len(),
            forall|m: int|
                0 <= m < k ==> nullable_symbol(productions(rules@), #[trigger] symbols(expr@)[m]),
        decreases expr.len() - k,
    {
        if !symbol_nullable(rules, &expr[k]) {
            assert(symbols(expr@)[k as int] == expr@[k as int]@);
            return false;
        }
        assert(symbols(expr@)[k as int] == expr@[k as int]@);
        k += 1;
    }
    true
}

/// Adds to `out` what can begin the first symbol of `expr`, by a walk that
/// avoids `path`.
pub(crate) fn first_into<'a>(
    rules: &'a Vec<Rule>,
    expr: &'a [Symbol],
    path: &mut Vec<&'a Variable>,
    out: &mut Vec<Symbol>,
)
    requires
        distinct(old(out)@),
    ensures
        final(path)@ == old(path)@,
        distinct(final(out)@),
        forall|t: Sym| #[trigger]
            lists(final(out)@, t) <==> lists(old(out)@, t) || first_has(
                productions(rules@),
                symbols(expr@),
                names(old(path)@),
                t,
            ),
    decreases budget(productions(rules@), names(old(path)@)),
{
    let ghost g = productions(rules@);
    let ghost avoid = names(path@);
    let ghost before = path@;
    if expr.len() == 0 {
        return ;
    }
    assert(symbols(expr@)[0] == expr@[0]@);
    match &expr[0] {
        Symbol::Ter(Terminal::Char(c)) => {
            add_symbol(out, Symbol::Ter(Terminal::Char(*c)));
        },
        Symbol::Ter(Terminal::Epsilon) => {},
        Symbol::Var(v) => {
            if on_path(path, v) {
                return ;
            }
            path.push(v);
            proof {
                lemma_names_push(before, v);
            }
            let mut i: usize = 0;
            while i < rules.len()
                invariant
                    0 <= i <= rules.len(),
                    g == productions(rules@),
                    before == old(path)@,
                    avoid == names(before),
                    !avoid.contains(v@),
                    path@ == before.push(v),
                    names(path@) == avoid.insert(v@),
                    distinct(out@),
                    forall|t: Sym| #[trigger]
                        lists(out@, t) <==> lists(old(out)@, t) || exists|j: int|
                            0 <= j < i && (#[trigger] g[j]).left == v@ && first_by(
                                g,
                                j,
                                v@,
                                avoid,
                                t,
                            ),
                decreases rules.len() - i,
            {
                if rules[i].left == *v {
                    let ghost so_far = out@;
                    proof {
                        lemma_budget_decreases(g, avoid, i as int);
                    }
                    first_into(rules, rules[i].right.as_slice(), path, out);
                    proof {
                        assert forall|t: Sym| #[trigger]
                            lists(out@, t) <==> lists(old(out)@, t) || exists|j: int|
                                0 <= j < i + 1 && (#[trigger] g[j]).left == v@ && first_by(
                                    g,
                                    j,
                                    v@,
                                    avoid,
                                    t,
                                ) by {
                            assert(lists(out@, t) <==> lists(so_far, t) || first_by(
                                g,
                                i as int,
                                v@,
                                avoid,
                                t,
                            ));
                            assert(g[i as int].left == v@);
                        }
                    }
                }
                i += 1;
            }
            path.pop();
            assert(path@ == before);
            assert(g.len() == rules@.len());
        },
        Symbol::End => {},
    }
}

/// Adds to `out` what can follow `var`, by a walk that has `path` behind
/// it.
pub(crate) fn follow_into<'a>(
    rules: &'a Vec<Rule>,
    var: &'a Variable,
    path: &mut Vec<&'a Variable>,
    out: &mut Vec<Symbol>,
)
    requires
        distinct(old(out)@),
    ensures
        final(path)@ == old(path)@,
        distinct(final(out)@),
        forall|t: Sym| #[trigger]
            lists(final(out)@, t) <==> lists(old(out)@, t) || follow_has(
                productions(rules@),
                var@,
                names(old(path)@),
                t,
            ),
    decreases budget(productions(rules@), names(old(path)@)),
{
    let ghost g = productions(rules@);
    let ghost avoid = names(path@);
    let ghost before = path@;
    assert(g.len() == rules@.len());
    if rules.len() > 0 && rules[0].left == *var {
        add_symbol(out, Symbol::End);
    }
    let mut i: usize = 0;
    while i < rules.len()
        invariant
            0 <= i <= rules.len(),
            g == productions(rules@),
            before == old(path)@,
            avoid == names(before),
            path@ == before,
            distinct(out@),
            forall|t: Sym| #[trigger]
                lists(out@, t) <==> lists(old(out)@, t) || follows_start(g, var@, t) || exists|
                    a: int,
                    b: int,
                |
                    a < i && #[trigger] occurs(g, a, b, var@) && follow_at(g, a, b, avoid, t),
        decreases rules.len() - i,
    {
        let right = &rules[i].right;
        let mut k: usize = 0;
        while k < right.len()
            invariant
                0 <= i < rules.len(),
                0 <= k <= right.len(),
                right == &rules[i as int].right,
                g == productions(rules@),
                before == old(path)@,
                avoid == names(before),
                path@ == before,
                distinct(out@),
                forall|t: Sym| #[trigger]
                    lists(out@, t) <==> lists(old(out)@, t) || follows_start(g, var@, t) || exists|
                        a: int,
                        b: int,
                    |
                        (a < i || (a == i && b < k)) && #[trigger] occurs(g, a, b, var@)
                            && follow_at(g, a, b, avoid, t),
            decreases right.len() - k,
        {
            let here = match &right[k] {
                Symbol::Var(w) => *w == *var,
                _ => false,
            };
            assert(g[i as int].right[k as int] == right@[k as int]@);
            assert(here == occurs(g, i as int, k as int, var@));
            if here {
                let ghost so_far = out@;
                let tail = slice_subrange(right.as_slice(), k + 1, right.len());
                assert(symbols(tail@) =~= g[i as int].right.skip(k + 1));
                if tail.len() > 0 {
                    let mut fresh: Vec<&Variable> = Vec::new();
                    proof {
                        lemma_names_empty();
                    }
                    first_into(rules, tail, &mut fresh, out);
                }
                let ghost with_first = out@;
                assert(forall|t: Sym| #[trigger]
                    lists(with_first, t) <==> lists(so_far, t) || (tail@.len() > 0 && in_first(
                        g,
                        symbols(tail@),
                        t,
                    )));
                if (tail.len() == 0 || seq_nullable(rules, tail)) && !on_path(
                    path,
                    &rules[i].left,
                ) {
                    path.push(&rules[i].left);
                    proof {
                        lemma_names_push(before, &rules[i as int].left);
                        lemma_budget_decreases(g, avoid, i as int);
                    }
                    follow_into(rules, &rules[i].left, path, out);
                    path.pop();
                    assert(path@ == before);
                }
                proof {
                    assert forall|t: Sym| #[trigger]
                        lists(out@, t) <==> lists(so_far, t) || follow_at(
                            g,
                            i as int,
                            k as int,
                            avoid,
                            t,
                        ) by {}
                }
            }
            proof {
                assert forall|t: Sym| #[trigger]
                    lists(out@, t) <==> lists(old(out)@, t) || follows_start(g, var@, t) || exists|
                        a: int,
                        b: int,
                    |
                        (a < i || (a == i && b < k + 1)) && #[trigger] occurs(g, a, b, var@)
                            && follow_at(g, a, b, avoid, t) by {
                    if here {
                        assert(occurs(g, i as int, k as int, var@));
                    }
                }
            }
            k += 1;
        }
        proof {
            assert forall|t: Sym| #[trigger]
                lists(out@, t) <==> lists(old(out)@, t) || follows_start(g, var@, t) || exists|
                    a: int,
                    b: int,
                |
                    a < i + 1 && #[trigger] occurs(g, a, b, var@) && follow_at(
                        g,
                        a,
                        b,
                        avoid,
                        t,
                    ) by {
                assert(g[i as int].right.len() == right@.len());
            }
        }
        i += 1;
    }
}

} // verus!
