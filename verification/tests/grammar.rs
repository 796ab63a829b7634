use ll1_parser::grammar::{Grammar, Rule};
use ll1_parser::symbol::{Symbol, Terminal, Variable};
use ll1_parser::syntax::{GrammarSyntaxError, SyntaxErrorKind};

fn failure(text: &str) -> GrammarSyntaxError {
    Grammar::from(text).unwrap_err()
}

#[test]
fn symbols_are_equal_by_what_they_stand_for() {
    assert_eq!(Symbol::var(String::from("S")), Symbol::Var(Variable::from(String::from("S"))));
    assert_ne!(Symbol::var(String::from("S")), Symbol::var(String::from("T")));
    assert_eq!(Symbol::ter('a'), Symbol::Ter(Terminal::Char('a')));
    assert_ne!(Symbol::ter('a'), Symbol::ter('b'));
    assert_eq!(Symbol::eps(), Symbol::Ter(Terminal::Epsilon));
    assert_ne!(Symbol::eps(), Symbol::ter('a'));
    assert_ne!(Symbol::End, Symbol::eps());
    assert_ne!(Symbol::var(String::from("a")), Symbol::ter('a'));
    assert_eq!(Symbol::End, Symbol::End);
    assert_eq!(Terminal::Char('x'), Terminal::Char('x'));
    assert_ne!(Terminal::Char('x'), Terminal::Epsilon);
    assert_eq!(Variable::from(String::from("S")).name, "S");
    assert_eq!(Symbol::var(String::from("S")).clone(), Symbol::var(String::from("S")));
}

#[test]
fn a_rule_keeps_its_sides() {
    let rule = Rule::from(String::from("S"), vec![Symbol::ter('a'), Symbol::eps()]);
    assert_eq!(rule.left, Variable::from(String::from("S")));
    assert_eq!(rule.right, vec![Symbol::ter('a'), Symbol::eps()]);
}

#[test]
fn rules_are_read_in_order() {
    let text = "<S> ::= \"(\" <L> \")\" | \"a\"\n    <L> ::= <S> <L> | \"\"";
    let grammar = Grammar::from(text).unwrap();
    let rules = grammar.rules();
    assert_eq!(rules.len(), 4);
    assert_eq!(rules[0].left.name, "S");
    assert_eq!(
        rules[0].right,
        vec![Symbol::ter('('), Symbol::var(String::from("L")), Symbol::ter(')')]
    );
    assert_eq!(rules[1].left.name, "S");
    assert_eq!(rules[1].right, vec![Symbol::ter('a')]);
    assert_eq!(rules[2].left.name, "L");
    assert_eq!(
        rules[2].right,
        vec![Symbol::var(String::from("S")), Symbol::var(String::from("L"))]
    );
    assert_eq!(rules[3].left.name, "L");
    assert_eq!(rules[3].right, vec![Symbol::eps()]);
}

#[test]
fn a_literal_gives_one_terminal_for_each_character() {
    let grammar = Grammar::from("<Word> ::= \"let\" <Word>").unwrap();
    let rules = grammar.rules();
    assert_eq!(rules.len(), 1);
    assert_eq!(rules[0].left.name, "Word");
    assert_eq!(
        rules[0].right,
        vec![
            Symbol::ter('l'),
            Symbol::ter('e'),
            Symbol::ter('t'),
            Symbol::var(String::from("Word")),
        ]
    );
}

#[test]
fn a_final_line_feed_adds_no_line() {
    let grammar = Grammar::from("<S> ::= \"a\"\n").unwrap();
    assert_eq!(grammar.rules().len(), 1);
}

#[test]
fn an_alternative_may_be_empty() {
    let grammar = Grammar::from("<S> ::= \"a\" |").unwrap();
    let rules = grammar.rules();
    assert_eq!(rules.len(), 2);
    assert!(rules[1].right.is_empty());
    assert_eq!(rules[1].left.name, "S");
}

#[test]
fn a_name_that_the_line_ends_in_is_dropped() {
    let grammar = Grammar::from("<S> ::= \"a\" <T").unwrap();
    let rules = grammar.rules();
    assert_eq!(rules.len(), 1);
    assert_eq!(rules[0].right, vec![Symbol::ter('a')]);
}

#[test]
fn a_bar_in_a_name_belongs_to_the_name() {
    let grammar = Grammar::from("<S> ::= <a|b>").unwrap();
    let rules = grammar.rules();
    assert_eq!(rules.len(), 1);
    assert_eq!(rules[0].right, vec![Symbol::var(String::from("a|b"))]);
}

#[test]
fn characters_beyond_ascii_are_read() {
    let grammar = Grammar::from("<Größe> ::= \"é\" <Größe> | \"\"").unwrap();
    let rules = grammar.rules();
    assert_eq!(rules[0].left.name, "Größe");
    assert_eq!(rules[0].right, vec![Symbol::ter('é'), Symbol::var(String::from("Größe"))]);
}

#[test]
fn an_empty_text_holds_no_grammar() {
    assert_eq!(failure(""), GrammarSyntaxError { line: 0, kind: SyntaxErrorKind::NoRules });
}

#[test]
fn a_line_without_separator_is_refused() {
    assert_eq!(
        failure("<S> ::= \"a\"\n<T> \"b\""),
        GrammarSyntaxError { line: 1, kind: SyntaxErrorKind::Separator }
    );
    assert_eq!(
        failure("<S> ::= \"a\"\n\n<T> ::= \"b\""),
        GrammarSyntaxError { line: 1, kind: SyntaxErrorKind::Separator }
    );
}

#[test]
fn a_line_with_two_separators_is_refused() {
    assert_eq!(
        failure("<S> ::= \"a\" ::= \"b\""),
        GrammarSyntaxError { line: 0, kind: SyntaxErrorKind::Separator }
    );
    assert_eq!(
        failure("<S> ::= \"::=\""),
        GrammarSyntaxError { line: 0, kind: SyntaxErrorKind::Separator }
    );
}

#[test]
fn a_left_side_without_name_is_refused() {
    assert_eq!(
        failure("S ::= \"a\""),
        GrammarSyntaxError { line: 0, kind: SyntaxErrorKind::NoLeftName }
    );
    assert_eq!(
        failure("<S ::= \"a\""),
        GrammarSyntaxError { line: 0, kind: SyntaxErrorKind::NoLeftName }
    );
}

#[test]
fn a_bar_in_a_literal_is_refused() {
    assert_eq!(
        failure("<S> ::= \"a\"\n<T> ::= \"b\"\n<U> ::= \"a|b\""),
        GrammarSyntaxError { line: 2, kind: SyntaxErrorKind::AlternativeInLiteral }
    );
}

#[test]
fn an_open_literal_is_refused() {
    assert_eq!(
        failure("<S> ::= \"a"),
        GrammarSyntaxError { line: 0, kind: SyntaxErrorKind::UnterminatedLiteral }
    );
}

#[test]
fn the_first_bad_line_is_named() {
    assert_eq!(
        failure("<S> ::= \"a\nT ::= \"b\""),
        GrammarSyntaxError { line: 0, kind: SyntaxErrorKind::UnterminatedLiteral }
    );
}

#[test]
fn a_name_may_be_empty() {
    let grammar = Grammar::from("<> ::= \"a\" <>").unwrap();
    let rules = grammar.rules();
    assert_eq!(rules[0].left.name, "");
    assert_eq!(rules[0].right, vec![Symbol::ter('a'), Symbol::var(String::new())]);
}

#[test]
fn a_carriage_return_before_the_line_feed_is_passed_over() {
    let grammar = Grammar::from("<S> ::= \"a\" <T>\r\n<T> ::= \"b\"\r\n").unwrap();
    let rules = grammar.rules();
    assert_eq!(rules.len(), 2);
    assert_eq!(rules[0].right, vec![Symbol::ter('a'), Symbol::var(String::from("T"))]);
    assert_eq!(rules[1].left.name, "T");
    assert_eq!(rules[1].right, vec![Symbol::ter('b')]);
}

#[test]
fn the_left_name_is_the_first_in_angle_brackets() {
    let grammar = Grammar::from("rule <S<T> <U> ::= \"a\"").unwrap();
    let rules = grammar.rules();
    assert_eq!(rules.len(), 1);
    assert_eq!(rules[0].left.name, "S<T");
}

#[test]
fn a_colon_before_the_separator_belongs_to_the_left() {
    let grammar = Grammar::from("<S> :::= \"a\"").unwrap();
    assert_eq!(grammar.rules()[0].right, vec![Symbol::ter('a')]);
    assert_eq!(
        failure("<S> ::=::= \"a\""),
        GrammarSyntaxError { line: 0, kind: SyntaxErrorKind::Separator }
    );
}
