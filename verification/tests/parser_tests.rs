use lib::internal_lexer::{Attr, LexEngine, Token};
use lib::internal_parser::{Derivation, ParsingEngine, Start};

pub fn expression_grammar() -> String {
    String::from(
        "
        Store < id >
        S ::= E;
        E ::= T EP;
        EP ::= plus T EP; | null;
        T ::= F TP;
        TP ::= times F TP; | null;
        F ::= left_paren E right_paren; | id;
        ",
    )
}

fn parse(text: &str) -> Option<Result<Start, &'static str>> {
    let lex = LexEngine::new_from_string(String::from(text)).unwrap();
    let mut par = ParsingEngine::new_from_lexengine(lex).unwrap();
    par.try_start()
}

fn name(t: &(Token, Attr, (usize, usize))) -> String {
    match &t.1 {
        Attr::AttrString(s) => s.clone(),
        Attr::Skip => String::new(),
    }
}

#[test]
fn parses_the_expression_grammar() {
    let text = expression_grammar();
    let ast = parse(&text).unwrap().unwrap();
    assert_eq!(ast.0 .0.len(), 1);
    assert_eq!(name(&ast.0 .0[0]), "id");
    let rules = &ast.1 .0;
    assert_eq!(rules.len(), 6);
    let heads: Vec<String> = rules.iter().map(|r| name(&r.0)).collect();
    assert_eq!(heads, vec!["S", "E", "EP", "T", "TP", "F"]);
    // EP ::= plus T EP; | null;
    match &rules[2].1 {
        Derivation::B(l) => {
            let syms: Vec<String> = l.0.iter().map(|s| name(&s.0)).collect();
            assert_eq!(syms, vec!["plus", "T", "EP"]);
        }
        Derivation::A => panic!("expected symbols"),
    }
    assert_eq!(rules[2].2 .0.len(), 1);
    assert!(matches!(rules[2].2 .0[0], Derivation::A));
    // F ::= left_paren E right_paren; | id;
    match &rules[5].2 .0[0] {
        Derivation::B(l) => assert_eq!(name(&l.0[0].0), "id"),
        Derivation::A => panic!("expected symbols"),
    }
}

#[test]
fn start_agrees_with_try_start() {
    let text = expression_grammar();
    let lex = LexEngine::new_from_string(text).unwrap();
    let mut par = ParsingEngine::new_from_lexengine(lex).unwrap();
    let ast = par.start().unwrap();
    assert_eq!(ast.1 .0.len(), 6);
}

#[test]
fn missing_store_is_an_error() {
    assert_eq!(parse("S ::= a ;").unwrap().err(), Some("Expected token: store"));
}

#[test]
fn missing_left_arrow_is_an_error() {
    assert_eq!(parse("Store a > S ::= a ; ").unwrap().err(), Some("Expected token: left_arrow"));
}

#[test]
fn missing_right_arrow_is_an_error() {
    assert_eq!(parse("Store < a S ::= a ; ").unwrap().err(), Some("Expected token: right_arrow"));
}

#[test]
fn missing_produces_is_an_error() {
    assert_eq!(parse("Store < > S a ; ").unwrap().err(), Some("Expected token: produces"));
}

#[test]
fn missing_semicolon_is_an_error() {
    assert_eq!(parse("Store < > S ::= a | b ; ").unwrap().err(), Some("Expected token: semicolon"));
    assert_eq!(parse("Store < > S ::= a ; | b | ").unwrap().err(), Some("Expected token: semicolon"));
}

#[test]
fn empty_rule_list() {
    let ast = parse("Store < a b > ").unwrap().unwrap();
    assert_eq!(ast.0 .0.len(), 2);
    assert_eq!(ast.1 .0.len(), 0);
}

#[test]
fn a_rule_ends_at_the_first_token_that_is_not_a_nonterminal() {
    let ast = parse("Store < > S ::= a ; ; T ::= b ; ").unwrap().unwrap();
    assert_eq!(ast.1 .0.len(), 1);
}

#[test]
fn a_list_that_runs_into_the_end_is_stuck() {
    // the terminal list would never end: the last token stays current
    assert!(parse("Store < a").is_none());
    assert!(parse("Store < > S ::= a b").is_none());
}

#[test]
fn an_invalid_character_ahead_is_stuck() {
    assert!(parse("Store < > S ::= a # ;").is_none());
}

#[test]
fn no_tokens_is_an_error() {
    let lex = LexEngine::new_from_string(String::from("   ")).unwrap();
    match ParsingEngine::new_from_lexengine(lex) {
        Err(e) => assert_eq!(e, "No tokens left in lex engine"),
        Ok(_) => panic!("no token to start with"),
    }
}
