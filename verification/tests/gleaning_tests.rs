use lib::data_gleaning::{
    data_from_parse, try_data_from_parse, Derivation, Nonterm, ParserData, Production, Symbol,
    Term,
};
use lib::internal_lexer::LexEngine;
use lib::internal_parser::{ParsingEngine, Start};

fn parse(text: &str) -> Start {
    let lex = LexEngine::new_from_string(String::from(text)).unwrap();
    let mut par = ParsingEngine::new_from_lexengine(lex).unwrap();
    par.try_start().unwrap().unwrap()
}

const EXPRESSIONS: &str = "
    Store < id >
    S ::= E;
    E ::= T EP;
    EP ::= plus T EP; | null;
    T ::= F TP;
    TP ::= times F TP; | null;
    F ::= left_paren E right_paren; | id;
";

fn names<K: Copy>(m: &[(K, String)]) -> Vec<String> {
    m.iter().map(|e| e.1.clone()).collect()
}

fn prod(n: i32, syms: Vec<Symbol>) -> Production {
    Production { nonterm: Nonterm(n), derivation: Derivation::Symbols(syms) }
}

fn null(n: i32) -> Production {
    Production { nonterm: Nonterm(n), derivation: Derivation::Null }
}

fn t(i: i32) -> Symbol {
    Symbol::T(Term(i))
}

fn n(i: i32) -> Symbol {
    Symbol::N(Nonterm(i))
}

#[test]
fn numbers_names_in_order_of_appearance() {
    let data: ParserData = data_from_parse(&parse(EXPRESSIONS));
    assert_eq!(names(&data.reverse_term_map), vec!["$", "plus", "times", "left_paren", "right_paren", "id"]);
    assert_eq!(names(&data.reverse_nonterm_map), vec!["S", "E", "T", "EP", "F", "TP"]);
    for (i, e) in data.reverse_term_map.iter().enumerate() {
        assert_eq!(e.0, Term(i as i32));
    }
    for (i, e) in data.reverse_nonterm_map.iter().enumerate() {
        assert_eq!(e.0, Nonterm(i as i32));
    }
}

#[test]
fn productions_in_order() {
    let data = data_from_parse(&parse(EXPRESSIONS));
    let expected = vec![
        prod(0, vec![n(1)]),
        prod(1, vec![n(2), n(3)]),
        prod(3, vec![t(1), n(2), n(3)]),
        null(3),
        prod(2, vec![n(4), n(5)]),
        prod(5, vec![t(2), n(4), n(5)]),
        null(5),
        prod(4, vec![t(3), n(1), t(4)]),
        prod(4, vec![t(5)]),
    ];
    assert_eq!(data.productions, expected);
    assert_eq!(data.terms_to_store, vec![Term(5)]);
}

#[test]
fn start_and_end_are_number_zero() {
    // `S` and `$` keep number 0 even when the description names them
    let data = data_from_parse(&parse("Store < > A ::= S ; S ::= a ; "));
    assert_eq!(data.reverse_nonterm_map[0], (Nonterm(0), String::from("S")));
    assert_eq!(data.reverse_term_map[0], (Term(0), String::from("$")));
    assert_eq!(data.productions, vec![prod(1, vec![n(0)]), prod(0, vec![t(1)])]);
}

#[test]
fn stored_terms_are_a_set() {
    let data = data_from_parse(&parse("Store < b a b > S ::= a b ; "));
    assert_eq!(data.terms_to_store, vec![Term(2), Term(1)]);
}

#[test]
fn a_stored_term_no_rule_names_is_refused() {
    assert!(try_data_from_parse(&parse("Store < c > S ::= a ; ")).is_none());
    assert!(try_data_from_parse(&parse("Store < a > S ::= a ; ")).is_some());
}
