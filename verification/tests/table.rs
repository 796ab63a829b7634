use ll1_parser::grammar::Grammar;
use ll1_parser::parser::Parser;
use ll1_parser::symbol::{Symbol, Variable};

fn name(name: &str) -> Variable {
    Variable::from(String::from(name))
}

fn list_grammar() -> Grammar {
    Grammar::from("<S> ::= \"(\" <L> \")\" | \"a\"\n<L> ::= <S> <L> | \"\"").unwrap()
}

#[test]
fn conflicting_alternatives_are_refused() {
    let grammar = Grammar::from("<S> ::= \"a\" | \"a\" \"b\"").unwrap();
    let error = Parser::from(&grammar).unwrap_err();
    assert_eq!(error.non_terminal, name("S"));
    assert_eq!(error.lookahead, Symbol::ter('a'));
    assert_eq!(error.existing, 0);
    assert_eq!(error.new, 1);
}

#[test]
fn the_first_conflict_is_named() {
    let grammar = Grammar::from(
        "<S> ::= <A> | <B>\n<A> ::= \"a\"\n<B> ::= \"b\" | \"c\" | \"b\" \"d\" | \"c\" \"d\"",
    )
    .unwrap();
    let error = Parser::from(&grammar).unwrap_err();
    assert_eq!(error.non_terminal, name("B"));
    assert_eq!(error.lookahead, Symbol::ter('b'));
    assert_eq!(error.existing, 3);
    assert_eq!(error.new, 5);
}

#[test]
fn first_and_follow_may_conflict() {
    let grammar = Grammar::from("<S> ::= <A> \"a\"\n<A> ::= \"a\" | \"\"").unwrap();
    let error = Parser::from(&grammar).unwrap_err();
    assert_eq!(error.non_terminal, name("A"));
    assert_eq!(error.lookahead, Symbol::ter('a'));
    assert_eq!(error.existing, 1);
    assert_eq!(error.new, 2);
}

#[test]
fn the_table_of_the_list_grammar() {
    let grammar = list_grammar();
    let parser = Parser::from(&grammar).unwrap();
    assert_eq!(parser.lookup(&Symbol::ter('('), &name("S")), Some(0));
    assert_eq!(parser.lookup(&Symbol::ter('a'), &name("S")), Some(1));
    assert_eq!(parser.lookup(&Symbol::ter(')'), &name("S")), None);
    assert_eq!(parser.lookup(&Symbol::End, &name("S")), None);
    assert_eq!(parser.lookup(&Symbol::ter('('), &name("L")), Some(2));
    assert_eq!(parser.lookup(&Symbol::ter('a'), &name("L")), Some(2));
    assert_eq!(parser.lookup(&Symbol::ter(')'), &name("L")), Some(3));
    assert_eq!(parser.lookup(&Symbol::End, &name("L")), None);
    assert_eq!(parser.lookup(&Symbol::ter('a'), &name("Unknown")), None);
    assert_eq!(parser.lookup(&Symbol::eps(), &name("L")), None);
}

#[test]
fn the_end_of_input_selects_a_nullable_start() {
    let grammar = Grammar::from("<S> ::= \"a\" <S> | \"\"").unwrap();
    let parser = Parser::from(&grammar).unwrap();
    assert_eq!(parser.lookup(&Symbol::ter('a'), &name("S")), Some(0));
    assert_eq!(parser.lookup(&Symbol::End, &name("S")), Some(1));
}

#[test]
fn an_empty_alternative_is_selected_by_follow() {
    let grammar = Grammar::from("<S> ::= \"a\" |").unwrap();
    let parser = Parser::from(&grammar).unwrap();
    assert_eq!(parser.lookup(&Symbol::ter('a'), &name("S")), Some(0));
    assert_eq!(parser.lookup(&Symbol::End, &name("S")), Some(1));
}

#[test]
fn building_twice_gives_the_same_table() {
    let grammar = list_grammar();
    let one = Parser::from(&grammar).unwrap();
    let other = Parser::from(&grammar).unwrap();
    let lookaheads = [Symbol::ter('('), Symbol::ter(')'), Symbol::ter('a'), Symbol::End];
    for lookahead in &lookaheads {
        for owner in [name("S"), name("L")] {
            assert_eq!(one.lookup(lookahead, &owner), other.lookup(lookahead, &owner));
        }
    }
    assert_eq!(format!("{:?}", one), format!("{:?}", other));
}
