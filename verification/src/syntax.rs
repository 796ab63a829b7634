//! The text form of a grammar.
//!
//! A grammar is written line by line. A line holds the name of a
//! non-terminal in angle brackets, the separator `::=`, and the
//! alternatives of the non-terminal, with `|` between them. In an
//! alternative a name in angle brackets is a non-terminal and the
//! characters between two double quotes are terminals, one for each
//! character; two double quotes with nothing between them are the empty
//! terminal. Anything else outside brackets and quotes is passed over.

use vstd::prelude::*;
use vstd::slice::slice_subrange;
use crate::grammar::{end_free, productions, symbols, Production, Rule};
use crate::symbol::{Sym, Symbol, Terminal, Variable};

verus! {

/// What is wrong with a line of grammar text.
#[derive(Debug, Clone, Copy, PartialEq, Eq, Structural)]
pub enum SyntaxErrorKind {
    /// The text has no line.
    NoRules,
    /// The line does not hold `::=` exactly once.
    Separator,
    /// There is no name in angle brackets before the `::=`.
    NoLeftName,
    /// A `|` stands between two double quotes.
    AlternativeInLiteral,
    /// The line ends between two double quotes.
    UnterminatedLiteral,
}

/// A line of grammar text that cannot be read.
#[derive(Debug, Clone, Copy, PartialEq, Eq, Structural)]
pub struct GrammarSyntaxError {
    /// The number of the line, the first line being line 0.
    pub line: usize,
    pub kind: SyntaxErrorKind,
}

/// Where the reader of an alternative is.
#[derive(Debug, Clone, Copy, PartialEq, Eq, Structural)]
pub enum Mode {
    Neutral,
    InName,
    InLiteral,
}

/// What the reader of the alternatives has read so far.
pub struct Scan {
    pub mode: Mode,
    /// Where the open name or literal began.
    pub start: int,
    /// The alternative that is being read.
    pub current: Seq<Sym>,
    /// The alternatives that are complete.
    pub done: Seq<Production>,
    /// Whether a `|` stood between two double quotes.
    pub failed: bool,
}

/// The least index from `from` on at which `c` stands in `s`, or the length
/// of `s` if there is none.
pub open spec fn first_index(s: Seq<char>, c: char, from: int) -> int
    decreases s.len() - from,
{
    if from < 0 || from >= s.len() {
        s.len() as int
    } else if s[from] == c {
        from
    } else {
        first_index(s, c, from + 1)
    }
}

/// Whether `::=` stands at index `i` of `line`.
pub open spec fn separator_at(line: Seq<char>, i: int) -> bool {
    0 <= i && i + 3 <= line.len() && line[i] == ':' && line[i + 1] == ':' && line[i + 2] == '='
}

/// The least index from `from` on at which `::=` stands in `line`, or the
/// length of `line` if there is none.
pub open spec fn first_separator(line: Seq<char>, from: int) -> int
    decreases line.len() - from,
{
    if from < 0 || from + 3 > line.len() {
        line.len() as int
    } else if separator_at(line, from) {
        from
    } else {
        first_separator(line, from + 1)
    }
}

/// The name on the left of a rule: what stands between the first `<` and
/// the first `>` behind it.
pub open spec fn left_name(left: Seq<char>) -> Option<Seq<char>> {
    let open = first_index(left, '<', 0);
    let close = first_index(left, '>', open + 1);
    if close < left.len() {
        Some(left.subrange(open + 1, close))
    } else {
        None
    }
}

/// The state of the reader before the first character.
pub open spec fn scan_start() -> Scan {
    Scan { mode: Mode::Neutral, start: 0, current: Seq::empty(), done: Seq::empty(), failed: false }
}

/// The state of the reader after the character `right[i]`, which it met in
/// the state `st`, while it reads the alternatives of `left`.
pub open spec fn scan_step(left: Seq<char>, right: Seq<char>, st: Scan, i: int) -> Scan {
    let c = right[i];
    if st.failed {
        st
    } else {
        match st.mode {
            Mode::Neutral => if c == '|' {
                Scan {
                    mode: st.mode,
                    start: st.start,
                    current: Seq::empty(),
                    done: st.done.push(Production { left, right: st.current }),
                    failed: false,
                }
            } else if c == '"' {
                Scan {
                    mode: Mode::InLiteral,
                    start: i + 1,
                    current: st.current,
                    done: st.done,
                    failed: false,
                }
            } else if c == '<' {
                Scan {
                    mode: Mode::InName,
                    start: i + 1,
                    current: st.current,
                    done: st.done,
                    failed: false,
                }
            } else {
                st
            },
            Mode::InName => if c == '>' {
                Scan {
                    mode: Mode::Neutral,
                    start: st.start,
                    current: st.current.push(Sym::Var(right.subrange(st.start, i))),
                    done: st.done,
                    failed: false,
                }
            } else {
                st
            },
            Mode::InLiteral => if c == '"' {
                Scan {
                    mode: Mode::Neutral,
                    start: st.start,
                    current: if i == st.start {
                        st.current.push(Sym::Ter(Terminal::Epsilon))
                    } else {
                        st.current
                    },
                    done: st.done,
                    failed: false,
                }
            } else if c == '|' {
                Scan {
                    mode: st.mode,
                    start: st.start,
                    current: st.current,
                    done: st.done,
                    failed: true,
                }
            } else {
                Scan {
                    mode: st.mode,
                    start: st.start,
                    current: st.current.push(Sym::Ter(Terminal::Char(c))),
                    done: st.done,
                    failed: false,
                }
            },
        }
    }
}

/// The state of the reader after the first `n` characters of `right`.
pub open spec fn scan_upto(left: Seq<char>, right: Seq<char>, n: int) -> Scan
    decreases n,
{
    if n <= 0 {
        scan_start()
    } else {
        scan_step(left, right, scan_upto(left, right, n - 1), n - 1)
    }
}

/// The productions of `left` that the text `right` holds, one for each
/// alternative. A name that the line ends in is dropped.
pub open spec fn alternatives(left: Seq<char>, right: Seq<char>) -> Result<
    Seq<Production>,
    SyntaxErrorKind,
> {
    let st = scan_upto(left, right, right.len() as int);
    if st.failed {
        Err(SyntaxErrorKind::AlternativeInLiteral)
    } else if st.mode == Mode::InLiteral {
        Err(SyntaxErrorKind::UnterminatedLiteral)
    } else {
        Ok(st.done.push(Production { left, right: st.current }))
    }
}

/// The productions that the line `line` holds.
///
/// The line must hold `::=` once and no more, and a name before it.
pub open spec fn line_rules(line: Seq<char>) -> Result<Seq<Production>, SyntaxErrorKind> {
    let at = first_separator(line, 0);
    if at >= line.len() || first_separator(line, at + 3) < line.len() {
        Err(SyntaxErrorKind::Separator)
    } else {
        match left_name(line.take(at)) {
            None => Err(SyntaxErrorKind::NoLeftName),
            Some(name) => alternatives(name, line.skip(at + 3)),
        }
    }
}

/// The productions that the lines of `source` from index `from` on hold,
/// where `from` begins the line number `line`; or the first line that
/// cannot be read. A line ends before a line feed or at the end of the
/// text.
pub open spec fn text_rules(source: Seq<char>, from: int, line: nat) -> Result<
    Seq<Production>,
    (nat, SyntaxErrorKind),
>
    decreases source.len() + 1 - from,
    via text_rules_decreases
{
    if from < 0 || from >= source.len() {
        Ok(Seq::empty())
    } else {
        let end = first_index(source, '\n', from);
        match line_rules(source.subrange(from, end)) {
            Err(kind) => Err((line, kind)),
            Ok(rules) => match text_rules(source, end + 1, line + 1) {
                Err(e) => Err(e),
                Ok(rest) => Ok(rules + rest),
            },
        }
    }
}

/// The rules that the grammar text `source` holds, or the number of the
/// first line that cannot be read, and why. A text without lines holds no
/// grammar.
pub open spec fn grammar_of(source: Seq<char>) -> Result<Seq<Production>, (nat, SyntaxErrorKind)> {
    match text_rules(source, 0, 0) {
        Err(e) => Err(e),
        Ok(rules) => if rules.len() == 0 {
            Err((0nat, SyntaxErrorKind::NoRules))
        } else {
            Ok(rules)
        },
    }
}

/// What `first_separator` finds: the first place from `from` on at which
/// `::=` stands, if there is one.
proof fn lemma_first_separator(line: Seq<char>, from: int)
    requires
        0 <= from,
    ensures
        from <= first_separator(line, from) || first_separator(line, from) == line.len(),
        first_separator(line, from) < line.len() ==> separator_at(
            line,
            first_separator(line, from),
        ),
        forall|j: int|
            from <= j && (j < first_separator(line, from) || first_separator(line, from)
                >= line.len()) ==> !separator_at(line, j),
    decreases line.len() - from,
{
    if from + 3 <= line.len() && !separator_at(line, from) {
        lemma_first_separator(line, from + 1);
    }
}

/// A line is divided where `::=` stands, if it stands there and nowhere
/// else: rules are read from the lines that hold `::=` once and no more.
pub proof fn lemma_separator_once(line: Seq<char>)
    ensures
        ({
            let at = first_separator(line, 0);
            at < line.len() && first_separator(line, at + 3) >= line.len() <==> separator_at(
                line,
                at,
            ) && forall|j: int| separator_at(line, j) ==> j == at
        }),
        (exists|i: int| separator_at(line, i)) ==> separator_at(line, first_separator(line, 0)),
{
    let at = first_separator(line, 0);
    lemma_first_separator(line, 0);
    if at < line.len() {
        lemma_first_separator(line, at + 3);
        let second = first_separator(line, at + 3);
        if second >= line.len() {
            assert forall|j: int| separator_at(line, j) implies j == at by {
                if at < j < at + 3 {
                    assert(line[at + 1] == ':' && line[at + 2] == '=');
                }
            }
        } else {
            assert(separator_at(line, second));
        }
    }
}

#[via_fn]
proof fn text_rules_decreases(source: Seq<char>, from: int, line: nat) {
    lemma_first_index_bounds(source, '\n', from);
}

/// `first_index` finds nothing before the place where it begins.
proof fn lemma_first_index_bounds(s: Seq<char>, c: char, from: int)
    ensures
        0 <= from <= s.len() ==> from <= first_index(s, c, from) <= s.len(),
    decreases s.len() - from,
{
    if 0 <= from < s.len() && s[from] != c {
        lemma_first_index_bounds(s, c, from + 1);
    }
}

/// The characters of `source`, in order.
fn chars_of(source: &str) -> (chars: Vec<char>)
    ensures
        chars@ == source@,
{
    broadcast use vstd::string::group_string_axioms;

    let mut chars: Vec<char> = Vec::new();
    for c in it: source.chars()
        invariant
            it.seq() == source@,
            chars@ == it.seq().take(it.index() as int),
    {
        chars.push(c);
    }
    assert(chars@ =~= source@);
    chars
}

/// The least index from `from` on at which `c` stands in `s`, or the length
/// of `s`.
fn find_char(s: &[char], c: char, from: usize) -> (at: usize)
    requires
        from <= s@.len(),
    ensures
        at == first_index(s@, c, from as int),
        from <= at <= s@.len(),
{
    let mut at = from;
    while at < s.len() && s[at] != c
        invariant
            from <= at <= s@.len(),
            first_index(s@, c, from as int) == first_index(s@, c, at as int),
        decreases s@.len() - at,
    {
        at += 1;
    }
    at
}

/// The least index from `from` on at which `::=` stands in `line`, or the
/// length of `line`.
fn find_separator(line: &[char], from: usize) -> (at: usize)
    requires
        from <= line@.len(),
    ensures
        at == first_separator(line@, from as int),
        from <= at <= line@.len(),
        at < line@.len() ==> at + 3 <= line@.len(),
{
    let mut at = from;
    while at < line.len() && line.len() - at >= 3
        invariant
            from <= at <= line@.len(),
            first_separator(line@, from as int) == first_separator(line@, at as int),
        decreases line@.len() - at,
    {
        if line[at] == ':' && line[at + 1] == ':' && line[at + 2] == '=' {
            return at;
        }
        at += 1;
    }
    line.len()
}

/// Whether `right` does not hold the end-of-input mark.
spec fn markless(right: Seq<Sym>) -> bool {
    forall|k: int| 0 <= k < right.len() ==> #[trigger] right[k] != Sym::End
}

/// Adding a symbol that is not the end-of-input mark keeps a right-hand
/// side free of it.
proof fn lemma_markless_push(right: Seq<Sym>, s: Sym)
    requires
        markless(right),
        s != Sym::End,
    ensures
        markless(right.push(s)),
{
    assert forall|k: int| 0 <= k < right.push(s).len() implies #[trigger] right.push(s)[k]
        != Sym::End by {
        if k < right.len() {
            assert(right[k] != Sym::End);
        }
    }
}

/// A step of the reader, at the character `c`, never reads the
/// end-of-input mark.
proof fn lemma_scan_step(left: Seq<char>, right: Seq<char>, st: Scan, i: int, c: char)
    requires
        0 <= i < right.len(),
        c == right[i],
        markless(st.current),
        end_free(st.done),
    ensures
        markless(scan_step(left, right, st, i).current),
        end_free(scan_step(left, right, st, i).done),
{
    let whole = st.done.push(Production { left, right: st.current });
    lemma_markless_push(st.current, Sym::Var(right.subrange(st.start, i)));
    lemma_markless_push(st.current, Sym::Ter(Terminal::Epsilon));
    lemma_markless_push(st.current, Sym::Ter(Terminal::Char(c)));
    assert(end_free(whole)) by {
        assert forall|a: int, k: int|
            0 <= a < whole.len() && 0 <= k
                < whole[a].right.len() implies #[trigger] whole[a].right[k] != Sym::End by {
            if a < st.done.len() {
                assert(st.done[a].right[k] != Sym::End);
            } else {
                assert(st.current[k] != Sym::End);
            }
        }
    }
    assert(markless(Seq::<Sym>::empty()));
}

/// The reader of the alternatives never reads the end-of-input mark.
proof fn lemma_scan_end_free(left: Seq<char>, right: Seq<char>, n: int)
    requires
        n <= right.len(),
    ensures
        end_free(scan_upto(left, right, n).done),
        markless(scan_upto(left, right, n).current),
    decreases n,
{
    if n > 0 {
        lemma_scan_end_free(left, right, n - 1);
        lemma_scan_step(left, right, scan_upto(left, right, n - 1), n - 1, right[n - 1]);
    }
}

/// No right-hand side that is read from a text holds the end-of-input
/// mark.
pub(crate) proof fn lemma_text_end_free(source: Seq<char>, from: int, line: nat)
    ensures
        text_rules(source, from, line) matches Ok(rules) ==> end_free(rules),
    decreases source.len() + 1 - from,
{
    if 0 <= from < source.len() {
        let end = first_index(source, '\n', from);
        lemma_first_index_bounds(source, '\n', from);
        let segment = source.subrange(from, end);
        if let Ok(here) = line_rules(segment) {
            let at = first_separator(segment, 0);
            let name = left_name(segment.take(at))->0;
            let right = segment.skip(at + 3);
            lemma_scan_end_free(name, right, right.len() as int);
            let st = scan_upto(name, right, right.len() as int);
            assert(here == st.done.push(Production { left: name, right: st.current }));
            assert(end_free(here)) by {
                assert forall|a: int, k: int|
                    0 <= a < here.len() && 0 <= k
                        < here[a].right.len() implies #[trigger] here[a].right[k]
                    != Sym::End by {
                    if a < st.done.len() {
                        assert(st.done[a].right[k] != Sym::End);
                    } else {
                        assert(st.current[k] != Sym::End);
                    }
                }
            }
            lemma_text_end_free(source, end + 1, line + 1);
            if let Ok(rest) = text_rules(source, end + 1, line + 1) {
                let all = here + rest;
                assert forall|i: int, k: int|
                    0 <= i < all.len() && 0 <= k
                        < all[i].right.len() implies #[trigger] all[i].right[k] != Sym::End by {
                    if i < here.len() {
                        assert(all[i] == here[i]);
                    } else {
                        assert(all[i] == rest[i - here.len()]);
                    }
                }
            }
        }
    }
}

/// Once the reader has failed it stays so.
proof fn lemma_failed_stays(left: Seq<char>, right: Seq<char>, m: int, n: int)
    requires
        0 <= m <= n,
        scan_upto(left, right, m).failed,
    ensures
        scan_upto(left, right, n).failed,
    decreases n - m,
{
    if m < n {
        lemma_failed_stays(left, right, m, n - 1);
    }
}

/// Puts `s` at the end of `right`.
fn push_symbol(right: &mut Vec<Symbol>, s: Symbol)
    ensures
        symbols(final(right)@) == symbols(old(right)@).push(s@),
{
    right.push(s);
    assert(symbols(right@) =~= symbols(old(right)@).push(s@));
}

/// The productions of `left` that the text `right` holds. `right` is the
/// part of `source` that begins at index `base`.
fn read_alternatives(source: &str, right: &[char], base: usize, left: &String) -> (r: Result<
    Vec<Rule>,
    SyntaxErrorKind,
>)
    requires
        source@.len() <= usize::MAX,
        base + right@.len() <= source@.len(),
        right@ == source@.subrange(base as int, base + right@.len()),
    ensures
        match r {
            Ok(rules) => alternatives(left@, right@) == Ok::<Seq<Production>, SyntaxErrorKind>(
                productions(rules@),
            ),
            Err(kind) => alternatives(left@, right@) == Err::<Seq<Production>, SyntaxErrorKind>(
                kind,
            ),
        },
{
    let mut rules: Vec<Rule> = Vec::new();
    let mut current: Vec<Symbol> = Vec::new();
    let mut mode = Mode::Neutral;
    let mut start: usize = 0;
    let mut i: usize = 0;
    assert(symbols(current@) =~= Seq::<Sym>::empty());
    assert(productions(rules@) =~= Seq::<Production>::empty());
    while i < right.len()
        invariant
            0 <= i <= right@.len(),
            source@.len() <= usize::MAX,
            base + right@.len() <= source@.len(),
            right@ == source@.subrange(base as int, base + right@.len()),
            !scan_upto(left@, right@, i as int).failed,
            scan_upto(left@, right@, i as int).mode == mode,
            scan_upto(left@, right@, i as int).current == symbols(current@),
            scan_upto(left@, right@, i as int).done == productions(rules@),
            mode != Mode::Neutral ==> scan_upto(left@, right@, i as int).start == start && start
                <= i,
        decreases right@.len() - i,
    {
        let c = right[i];
        let ghost st = scan_upto(left@, right@, i as int);
        let ghost next = scan_step(left@, right@, st, i as int);
        assert(scan_upto(left@, right@, i + 1) == next);
        match mode {
            Mode::Neutral => {
                if c == '|' {
                    let finished = current;
                    current = Vec::new();
                    let ghost before = rules@;
                    let rule = Rule { left: Variable { name: left.clone() }, right: finished };
                    rules.push(rule);
                    assert(productions(rules@) =~= productions(before).push(rule@));
                    assert(symbols(current@) =~= Seq::<Sym>::empty());
                } else if c == '"' {
                    mode = Mode::InLiteral;
                    start = i + 1;
                } else if c == '<' {
                    mode = Mode::InName;
                    start = i + 1;
                }
            },
            Mode::InName => {
                if c == '>' {
                    let name = source.substring_char(base + start, base + i).to_owned();
                    assert(name@ =~= right@.subrange(start as int, i as int));
                    push_symbol(&mut current, Symbol::Var(Variable { name }));
                    mode = Mode::Neutral;
                }
            },
            Mode::InLiteral => {
                if c == '"' {
                    if i == start {
                        push_symbol(&mut current, Symbol::Ter(Terminal::Epsilon));
                    }
                    mode = Mode::Neutral;
                } else if c == '|' {
                    proof {
                        lemma_failed_stays(left@, right@, i + 1, right@.len() as int);
                    }
                    return Err(SyntaxErrorKind::AlternativeInLiteral);
                } else {
                    push_symbol(&mut current, Symbol::Ter(Terminal::Char(c)));
                }
            },
        }
        i += 1;
    }
    if mode == Mode::InLiteral {
        return Err(SyntaxErrorKind::UnterminatedLiteral);
    }
    let ghost before = rules@;
    let rule = Rule { left: Variable { name: left.clone() }, right: current };
    rules.push(rule);
    assert(productions(rules@) =~= productions(before).push(rule@));
    Ok(rules)
}

/// The productions that `line` holds. `line` is the part of `source` that
/// begins at index `base`.
fn read_line(source: &str, line: &[char], base: usize) -> (r: Result<Vec<Rule>, SyntaxErrorKind>)
    requires
        source@.len() <= usize::MAX,
        base + line@.len() <= source@.len(),
        line@ == source@.subrange(base as int, base + line@.len()),
    ensures
        match r {
            Ok(rules) => line_rules(line@) == Ok::<Seq<Production>, SyntaxErrorKind>(
                productions(rules@),
            ),
            Err(kind) => line_rules(line@) == Err::<Seq<Production>, SyntaxErrorKind>(kind),
        },
{
    let at = find_separator(line, 0);
    if at >= line.len() {
        return Err(SyntaxErrorKind::Separator);
    }
    if find_separator(line, at + 3) < line.len() {
        return Err(SyntaxErrorKind::Separator);
    }
    let left = slice_subrange(line, 0, at);
    assert(left@ =~= line@.take(at as int));
    let open = find_char(left, '<', 0);
    if open >= left.len() {
        return Err(SyntaxErrorKind::NoLeftName);
    }
    let close = find_char(left, '>', open + 1);
    if close >= left.len() {
        return Err(SyntaxErrorKind::NoLeftName);
    }
    let name = source.substring_char(base + open + 1, base + close).to_owned();
    assert(name@ =~= left@.subrange(open + 1, close as int));
    let right = slice_subrange(line, at + 3, line.len());
    assert(right@ =~= line@.skip(at + 3));
    assert(right@ =~= source@.subrange(base + at + 3, base + at + 3 + right@.len()));
    read_alternatives(source, right, base + at + 3, &name)
}

/// What `found` holds, behind the productions `rules`.
spec fn behind(
    rules: Seq<Production>,
    found: Result<Seq<Production>, (nat, SyntaxErrorKind)>,
) -> Result<Seq<Production>, (nat, SyntaxErrorKind)> {
    match found {
        Ok(rest) => Ok(rules + rest),
        Err(e) => Err(e),
    }
}

/// The rules that the lines of `source` hold, or the first line that
/// cannot be read.
pub(crate) fn read_rules(source: &str) -> (r: Result<Vec<Rule>, GrammarSyntaxError>)
    ensures
        match r {
            Ok(rules) => text_rules(source@, 0, 0) == Ok::<Seq<Production>, (nat, SyntaxErrorKind)>(
                productions(rules@),
            ),
            Err(e) => text_rules(source@, 0, 0) == Err::<Seq<Production>, (nat, SyntaxErrorKind)>(
                (e.line as nat, e.kind),
            ),
        },
{
    let chars = chars_of(source);
    let text = chars.as_slice();
    let mut rules: Vec<Rule> = Vec::new();
    let mut from: usize = 0;
    let mut line: usize = 0;
    assert(productions(rules@) + Seq::<Production>::empty() =~= Seq::<Production>::empty());
    while from < text.len()
        invariant
            text@ == source@,
            line <= from <= text@.len(),
            text_rules(source@, 0, 0) == behind(
                productions(rules@),
                text_rules(source@, from as int, line as nat),
            ),
        decreases text@.len() - from,
    {
        let end = find_char(text, '\n', from);
        let segment = slice_subrange(text, from, end);
        let ghost before = rules@;
        match read_line(source, segment, from) {
            Err(kind) => {
                return Err(GrammarSyntaxError { line, kind });
            },
            Ok(more) => {
                let mut more = more;
                let ghost added = more@;
                rules.append(&mut more);
                proof {
                    assert(productions(rules@) =~= productions(before) + productions(added));
                    let rest = text_rules(source@, end + 1, (line + 1) as nat);
                    if let Ok(tail) = rest {
                        assert(productions(before) + (productions(added) + tail) =~= (productions(
                            before,
                        ) + productions(added)) + tail);
                    }
                }
            },
        }
        if end < text.len() {
            from = end + 1;
        } else {
            from = end;
        }
        line += 1;
    }
    proof {
        assert(productions(rules@) + Seq::<Production>::empty() =~= productions(rules@));
    }
    Ok(rules)
}

} // verus!




