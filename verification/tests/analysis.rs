use ll1_parser::grammar::Grammar;
use ll1_parser::parser::{Parser, QueryError};
use ll1_parser::symbol::{Symbol, Variable};

fn var(name: &str) -> Symbol {
    Symbol::var(String::from(name))
}

fn name(name: &str) -> Variable {
    Variable::from(String::from(name))
}

fn sorted(mut set: Vec<Symbol>) -> Vec<String> {
    let mut shown: Vec<String> = set.drain(..).map(|s| format!("{:?}", s)).collect();
    shown.sort();
    shown
}

fn shown(set: &[Symbol]) -> Vec<String> {
    sorted(set.to_vec())
}

fn list_grammar() -> Grammar {
    Grammar::from("<S> ::= \"(\" <L> \")\" | \"a\"\n<L> ::= <S> <L> | \"\"").unwrap()
}

#[test]
fn the_empty_terminal_is_nullable_and_begins_nothing() {
    let grammar = list_grammar();
    let right = [Symbol::eps()];
    assert_eq!(Parser::eps(&grammar, &right), Ok(true));
    assert_eq!(Parser::eps_symbol(&grammar, &Symbol::eps()), Ok(true));
    assert_eq!(Parser::first_set(&grammar, &right), Ok(vec![]));
}

#[test]
fn a_character_is_not_nullable_and_begins_itself() {
    let grammar = list_grammar();
    assert_eq!(Parser::eps_symbol(&grammar, &Symbol::ter('a')), Ok(false));
    assert_eq!(
        Parser::first_set(&grammar, &[Symbol::ter('x'), var("S")]),
        Ok(vec![Symbol::ter('x')])
    );
}

#[test]
fn nullability_of_the_list_grammar() {
    let grammar = list_grammar();
    assert_eq!(Parser::eps_symbol(&grammar, &var("S")), Ok(false));
    assert_eq!(Parser::eps_symbol(&grammar, &var("L")), Ok(true));
    assert_eq!(Parser::eps(&grammar, &[var("L"), var("L")]), Ok(true));
    assert_eq!(Parser::eps(&grammar, &[var("L"), var("S")]), Ok(false));
    assert_eq!(Parser::eps(&grammar, &[]), Ok(true));
    assert_eq!(Parser::eps_symbol(&grammar, &var("Unknown")), Ok(false));
}

#[test]
fn first_of_the_list_grammar() {
    let grammar = list_grammar();
    let first = Parser::first_set(&grammar, &[var("S")]).unwrap();
    assert_eq!(sorted(first), shown(&[Symbol::ter('('), Symbol::ter('a')]));
    let first = Parser::first_set(&grammar, &[var("L"), Symbol::ter(')')]).unwrap();
    assert_eq!(sorted(first), shown(&[Symbol::ter('('), Symbol::ter('a')]));
    assert_eq!(Parser::first_set(&grammar, &[var("Unknown")]), Ok(vec![]));
}

#[test]
fn follow_of_the_list_grammar() {
    let grammar = list_grammar();
    let follow = Parser::follow_set(&grammar, &name("L"));
    assert_eq!(follow, vec![Symbol::ter(')')]);
    let follow = Parser::follow_set(&grammar, &name("S"));
    assert_eq!(
        sorted(follow),
        shown(&[Symbol::End, Symbol::ter('('), Symbol::ter('a'), Symbol::ter(')')])
    );
    assert_eq!(Parser::follow_set(&grammar, &name("Unknown")), vec![]);
}

#[test]
fn each_member_is_listed_once() {
    let text = "<S> ::= <A> | <B>\n<A> ::= \"a\" \"x\"\n<B> ::= \"a\" \"y\"";
    let grammar = Grammar::from(text).unwrap();
    assert_eq!(Parser::first_set(&grammar, &[var("S")]), Ok(vec![Symbol::ter('a')]));
    let grammar = Grammar::from("<S> ::= <A> \"b\" | <A> \"b\" \"c\"\n<A> ::= \"a\"").unwrap();
    assert_eq!(Parser::follow_set(&grammar, &name("A")), vec![Symbol::ter('b')]);
}

#[test]
fn the_end_of_input_is_refused() {
    let grammar = list_grammar();
    assert_eq!(Parser::eps_symbol(&grammar, &Symbol::End), Err(QueryError::InvalidQuery));
    assert_eq!(Parser::eps(&grammar, &[var("L"), Symbol::End]), Err(QueryError::InvalidQuery));
    assert_eq!(Parser::eps(&grammar, &[var("S"), Symbol::End]), Ok(false));
    assert_eq!(Parser::first_set(&grammar, &[Symbol::End]), Err(QueryError::InvalidQuery));
    assert_eq!(
        Parser::first_set(&grammar, &[Symbol::ter('a'), Symbol::End]),
        Ok(vec![Symbol::ter('a')])
    );
}

#[test]
fn first_of_nothing_is_refused() {
    let grammar = list_grammar();
    assert_eq!(Parser::first_set(&grammar, &[]), Err(QueryError::InvalidInput));
}

#[test]
fn rules_that_only_lead_to_each_other_end_the_walk() {
    let grammar = Grammar::from("<A> ::= <B>\n<B> ::= <A>").unwrap();
    assert_eq!(Parser::eps_symbol(&grammar, &var("A")), Ok(false));
    assert_eq!(Parser::eps_symbol(&grammar, &var("B")), Ok(false));
    assert_eq!(Parser::first_set(&grammar, &[var("A")]), Ok(vec![]));
    assert_eq!(Parser::follow_set(&grammar, &name("A")), vec![Symbol::End]);
    assert_eq!(Parser::follow_set(&grammar, &name("B")), vec![Symbol::End]);
    assert!(Parser::from(&grammar).is_ok());
}

#[test]
fn a_rule_that_names_its_owner_passes_over_it() {
    let grammar = Grammar::from("<S> ::= <S> <A>\n<A> ::= \"\"").unwrap();
    assert_eq!(Parser::eps_symbol(&grammar, &var("S")), Ok(true));
    let grammar = Grammar::from("<S> ::= <S> \"a\"").unwrap();
    assert_eq!(Parser::eps_symbol(&grammar, &var("S")), Ok(false));
    assert_eq!(Parser::first_set(&grammar, &[var("S")]), Ok(vec![]));
}

#[test]
fn nullability_does_not_depend_on_the_order_of_the_rules() {
    let one = Grammar::from("<S> ::= <A> <B>\n<A> ::= \"a\" | \"\"\n<B> ::= <A> | \"b\"").unwrap();
    let text = "<B> ::= \"b\" | <A>\n<A> ::= \"\" | \"a\"\n<S> ::= <A> <B>";
    let other = Grammar::from(text).unwrap();
    for name in ["S", "A", "B"] {
        assert_eq!(Parser::eps_symbol(&one, &var(name)), Ok(true));
        assert_eq!(Parser::eps_symbol(&other, &var(name)), Ok(true));
    }
    let one = Grammar::from("<S> ::= <A> \"c\"\n<A> ::= <S> | \"\"").unwrap();
    let other = Grammar::from("<A> ::= \"\" | <S>\n<S> ::= <A> \"c\"").unwrap();
    assert_eq!(Parser::eps_symbol(&one, &var("S")), Parser::eps_symbol(&other, &var("S")));
    assert_eq!(Parser::eps_symbol(&one, &var("A")), Parser::eps_symbol(&other, &var("A")));
    assert_eq!(Parser::eps_symbol(&one, &var("S")), Ok(false));
    assert_eq!(Parser::eps_symbol(&one, &var("A")), Ok(true));
}

#[test]
fn follow_passes_through_a_nullable_tail() {
    let text = "<S> ::= <A> <B> \"c\"\n<A> ::= \"a\"\n<B> ::= \"b\" | \"\"";
    let grammar = Grammar::from(text).unwrap();
    assert_eq!(Parser::follow_set(&grammar, &name("A")), vec![Symbol::ter('b')]);
    assert_eq!(Parser::follow_set(&grammar, &name("B")), vec![Symbol::ter('c')]);
    let text = "<S> ::= \"x\" <A> <B>\n<A> ::= \"a\"\n<B> ::= \"b\" | \"\"";
    let grammar = Grammar::from(text).unwrap();
    let follow = Parser::follow_set(&grammar, &name("A"));
    assert_eq!(sorted(follow), shown(&[Symbol::End, Symbol::ter('b')]));
}
