use ll1_parser::grammar::Grammar;
use ll1_parser::parser::Parser;
use ll1_parser::symbol::{Symbol, Terminal, Variable};
use ll1_parser::tree::{ParseError, ParseTree};

fn tokens(input: &str) -> Vec<Terminal> {
    input.chars().map(Terminal::Char).collect()
}

fn list_grammar() -> Grammar {
    Grammar::from("<S> ::= \"(\" <L> \")\" | \"a\"\n<L> ::= <S> <L> | \"\"").unwrap()
}

fn leaves(tree: &ParseTree, index: usize, out: &mut String) {
    let node = &tree.nodes[index];
    if let Symbol::Ter(Terminal::Char(c)) = &node.symbol {
        out.push(*c);
    }
    for child in &node.children {
        leaves(tree, *child, out);
    }
}

#[test]
fn nested_lists_are_accepted() {
    let grammar = list_grammar();
    let parser = Parser::from(&grammar).unwrap();
    let tree = parser.parse(&tokens("(a(aa))")).unwrap();
    let root = &tree.nodes[0];
    assert_eq!(root.symbol, Symbol::var(String::from("S")));
    assert_eq!(root.parent, None);
    assert_eq!(root.rule, Some(0));
    assert_eq!(root.children.len(), 3);
    assert_eq!(tree.nodes[root.children[0]].symbol, Symbol::ter('('));
    assert_eq!(tree.nodes[root.children[2]].symbol, Symbol::ter(')'));
    let list = &tree.nodes[root.children[1]];
    assert_eq!(list.symbol, Symbol::var(String::from("L")));
    assert_eq!(list.rule, Some(2));
    assert_eq!(list.parent, Some(0));
    let first = &tree.nodes[list.children[0]];
    assert_eq!(first.rule, Some(1));
    let rest = &tree.nodes[list.children[1]];
    assert_eq!(rest.rule, Some(2));
    let second = &tree.nodes[rest.children[0]];
    assert_eq!(second.rule, Some(0));
    let mut read = String::new();
    leaves(&tree, 0, &mut read);
    assert_eq!(read, "(a(aa))");
    for (index, node) in tree.nodes.iter().enumerate() {
        assert_eq!(node.index, index);
        for child in &node.children {
            assert_eq!(tree.nodes[*child].parent, Some(index));
        }
    }
}

#[test]
fn unbalanced_input_is_refused_at_its_end() {
    let grammar = list_grammar();
    let parser = Parser::from(&grammar).unwrap();
    let error = parser.parse(&tokens("(a")).unwrap_err();
    assert_eq!(
        error,
        ParseError::NoRule {
            non_terminal: Variable::from(String::from("L")),
            lookahead: Symbol::End,
            position: 2,
        }
    );
}

#[test]
fn missing_closing_bracket_is_an_unexpected_end() {
    let grammar = Grammar::from("<S> ::= \"(\" <S> \")\" | \"a\"").unwrap();
    let parser = Parser::from(&grammar).unwrap();
    let error = parser.parse(&tokens("(a")).unwrap_err();
    assert_eq!(error, ParseError::UnexpectedEnd { expected: Symbol::ter(')'), depth: 1 });
}

#[test]
fn repetition_is_accepted() {
    let grammar = Grammar::from("<S> ::= \"a\" <S> | \"\"").unwrap();
    let parser = Parser::from(&grammar).unwrap();
    let tree = parser.parse(&tokens("aaa")).unwrap();
    let mut read = String::new();
    leaves(&tree, 0, &mut read);
    assert_eq!(read, "aaa");
    assert_eq!(tree.nodes.len(), 7);
    assert!(parser.parse(&tokens("")).is_ok());
}

#[test]
fn foreign_character_is_refused_where_it_stands() {
    let grammar = Grammar::from("<S> ::= \"a\" <S> | \"\"").unwrap();
    let parser = Parser::from(&grammar).unwrap();
    let error = parser.parse(&tokens("aab")).unwrap_err();
    assert_eq!(
        error,
        ParseError::NoRule {
            non_terminal: Variable::from(String::from("S")),
            lookahead: Symbol::ter('b'),
            position: 2,
        }
    );
}

#[test]
fn wrong_terminal_is_a_mismatch() {
    let grammar = Grammar::from("<S> ::= \"a\" \"c\"").unwrap();
    let parser = Parser::from(&grammar).unwrap();
    let error = parser.parse(&tokens("ab")).unwrap_err();
    assert_eq!(
        error,
        ParseError::Mismatch {
            expected: Symbol::ter('c'),
            found: Terminal::Char('b'),
            position: 1,
        }
    );
}

#[test]
fn input_behind_the_sentence_exhausts_the_stack() {
    let grammar = Grammar::from("<S> ::= \"a\"").unwrap();
    let parser = Parser::from(&grammar).unwrap();
    let error = parser.parse(&tokens("ab")).unwrap_err();
    assert_eq!(error, ParseError::StackExhausted { found: Terminal::Char('b'), position: 1 });
}

#[test]
fn endless_expansion_is_cut() {
    let grammar = Grammar::from("<S> ::= <A> <S>\n<A> ::= \"\"").unwrap();
    let parser = Parser::from(&grammar).unwrap();
    let error = parser.parse(&tokens("")).unwrap_err();
    assert_eq!(
        error,
        ParseError::Loop { non_terminal: Variable::from(String::from("A")), position: 0 }
    );
}

#[test]
fn empty_terminal_as_a_token_is_refused() {
    let grammar = Grammar::from("<S> ::= \"a\"").unwrap();
    let parser = Parser::from(&grammar).unwrap();
    let error = parser.parse(&[Terminal::Epsilon]).unwrap_err();
    assert_eq!(
        error,
        ParseError::NoRule {
            non_terminal: Variable::from(String::from("S")),
            lookahead: Symbol::Ter(Terminal::Epsilon),
            position: 0,
        }
    );
}
