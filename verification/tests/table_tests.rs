use lib::data_gleaning::{data_from_parse, Derivation, Nonterm, Production};
use lib::internal_lexer::LexEngine;
use lib::internal_parser::ParsingEngine;
use lib::ll1_table_create::create_ll1_parsing_table;
use std::collections::HashMap;

fn table_of(text: &str) -> (Vec<Production>, HashMap<(i32, i32), Production>) {
    let lex = LexEngine::new_from_string(String::from(text)).unwrap();
    let mut par = ParsingEngine::new_from_lexengine(lex).unwrap();
    let ast = par.try_start().unwrap().unwrap();
    let data = data_from_parse(&ast);
    let table = create_ll1_parsing_table(&data);
    let mut map = HashMap::new();
    for ((nt, t), p) in table.iter() {
        assert!(map.insert((nt.0, t.0), p.clone()).is_none(), "keys are distinct");
    }
    (data.productions.clone(), map)
}

const EXPRESSIONS: &str = "
    Store < id >
    S ::= E;
    E ::= T EP;
    EP ::= plus T EP; | null;
    T ::= F TP;
    TP ::= times F TP; | null;
    F ::= left_paren E right_paren; | id;
";

#[test]
fn expression_grammar_table() {
    // terminals: $ 0, plus 1, times 2, left_paren 3, right_paren 4, id 5
    // nonterminals: S 0, E 1, T 2, EP 3, F 4, TP 5
    let (prods, table) = table_of(EXPRESSIONS);
    let expected: Vec<((i32, i32), usize)> = vec![
        ((0, 3), 0),
        ((0, 5), 0),
        ((1, 3), 1),
        ((1, 5), 1),
        ((3, 1), 2),
        ((3, 0), 3),
        ((3, 4), 3),
        ((2, 3), 4),
        ((2, 5), 4),
        ((5, 2), 5),
        ((5, 0), 6),
        ((5, 1), 6),
        ((5, 4), 6),
        ((4, 3), 7),
        ((4, 5), 8),
    ];
    assert_eq!(table.len(), expected.len());
    for (key, i) in expected {
        assert_eq!(table.get(&key), Some(&prods[i]), "entry {:?}", key);
    }
}

#[test]
fn later_production_takes_a_shared_entry() {
    let (prods, table) = table_of("Store < > S ::= a ; | a b ; ");
    assert_eq!(table.len(), 1);
    assert_eq!(table.get(&(0, 1)), Some(&prods[1]));
}

#[test]
fn end_marker_follows_the_start_symbol() {
    let (prods, table) = table_of("Store < > S ::= null ; ");
    assert_eq!(table.len(), 1);
    assert_eq!(table.get(&(0, 0)), Some(&prods[0]));
    assert_eq!(prods[0].derivation, Derivation::Null);
}

#[test]
fn nullable_prefix_lets_first_through() {
    // FIRST(A B) = FIRST(A) and FIRST(B) when A can be empty
    let (_prods, table) = table_of("Store < > S ::= A B ; A ::= a ; | null ; B ::= b ; ");
    // terminals: a 1, b 2; nonterminals: S 0, A 1, B 2
    assert!(table.contains_key(&(0, 1)));
    assert!(table.contains_key(&(0, 2)));
    // A is followed by FIRST(B)
    assert!(table.contains_key(&(1, 2)));
    assert!(!table.contains_key(&(1, 0)));
    assert_eq!(table.len(), 5);
}

#[test]
fn follow_passes_through_left_hand_sides() {
    // FOLLOW(B) takes FOLLOW(A) because B ends a production of A
    let (_prods, table) = table_of("Store < > S ::= A c ; A ::= B ; B ::= null ; ");
    // terminals: c 1; nonterminals: S 0, A 1, B 2
    assert!(table.contains_key(&(2, 1)));
    assert!(table.contains_key(&(1, 1)));
    assert!(table.contains_key(&(0, 1)));
    assert_eq!(table.len(), 3);
    let p = table.get(&(2, 1)).unwrap();
    assert_eq!(p.nonterm, Nonterm(2));
}

#[test]
fn left_recursion_has_a_table() {
    // S -> S a | b: FIRST(S) = {b}; both productions claim (S, b), the later keeps it
    let (prods, table) = table_of("Store < > S ::= S a ; | b ; ");
    assert_eq!(table.len(), 1);
    assert_eq!(table.get(&(0, 2)), Some(&prods[1]));
}

#[test]
fn indirect_left_recursion_has_a_table() {
    // S -> A; A -> B c; B -> A d | e: FIRST(S) = FIRST(A) = FIRST(B) = {e}
    // terminals: $ 0, c 1, d 2, e 3; nonterminals: S 0, A 1, B 2
    let (prods, table) = table_of("Store < > S ::= A ; A ::= B c ; B ::= A d ; | e ; ");
    assert_eq!(table.len(), 3);
    assert_eq!(table.get(&(0, 3)), Some(&prods[0]));
    assert_eq!(table.get(&(1, 3)), Some(&prods[1]));
    assert_eq!(table.get(&(2, 3)), Some(&prods[3]));
}

#[test]
fn follow_sets_that_need_each_other() {
    // A ends a production of B and B ends one of A: FOLLOW(A) = FOLLOW(B) = {$}
    // terminals: $ 0, a 1, b 2, c 3; nonterminals: S 0, A 1, B 2
    let (prods, table) =
        table_of("Store < > S ::= a A ; A ::= b B ; | null ; B ::= c A ; | null ; ");
    assert_eq!(table.len(), 5);
    assert_eq!(table.get(&(0, 1)), Some(&prods[0]));
    assert_eq!(table.get(&(1, 2)), Some(&prods[1]));
    assert_eq!(table.get(&(1, 0)), Some(&prods[2]));
    assert_eq!(table.get(&(2, 3)), Some(&prods[3]));
    assert_eq!(table.get(&(2, 0)), Some(&prods[4]));
}

#[test]
fn start_symbol_inside_a_cycle_of_follow_sets() {
    // S -> a A; A -> b S | null: FOLLOW(S) = FOLLOW(A) = {$}
    // terminals: $ 0, a 1, b 2; nonterminals: S 0, A 1
    let (prods, table) = table_of("Store < > S ::= a A ; A ::= b S ; | null ; ");
    assert_eq!(table.len(), 3);
    assert_eq!(table.get(&(0, 1)), Some(&prods[0]));
    assert_eq!(table.get(&(1, 2)), Some(&prods[1]));
    assert_eq!(table.get(&(1, 0)), Some(&prods[2]));
}

#[test]
fn follow_is_first_of_what_comes_after() {
    // S -> A b; A -> a: FOLLOW(A) = {b}, so nothing goes at (A, a) from FOLLOW
    // terminals: $ 0, b 1, a 2; nonterminals: S 0, A 1
    let (prods, table) = table_of("Store < > S ::= A b ; A ::= a ; ");
    assert_eq!(table.len(), 2);
    assert_eq!(table.get(&(0, 2)), Some(&prods[0]));
    assert_eq!(table.get(&(1, 2)), Some(&prods[1]));
}

#[test]
fn nullable_nonterminal_takes_its_follow_set() {
    // S -> A b; A -> a | null: (A, b) gets A -> null
    // terminals: $ 0, b 1, a 2; nonterminals: S 0, A 1
    let (prods, table) = table_of("Store < > S ::= A b ; A ::= a ; | null ; ");
    assert_eq!(table.get(&(1, 1)), Some(&prods[2]));
    assert_eq!(table.get(&(1, 2)), Some(&prods[1]));
    assert_eq!(table.get(&(0, 1)), Some(&prods[0]));
    assert_eq!(table.get(&(0, 2)), Some(&prods[0]));
    assert_eq!(table.len(), 4);
}

#[test]
fn nonterminal_without_productions_begins_nothing() {
    // FIRST(A) is empty when A has no productions, so S -> A claims no entry
    let (_prods, table) = table_of("Store < > S ::= A ; ");
    assert_eq!(table.len(), 0);
}

#[test]
fn right_recursion_has_a_table() {
    // L ::= x L | null: FIRST(L) = {x}, FOLLOW(L) = {$}
    let (_prods, table) = table_of("Store < > S ::= L ; L ::= x L ; | null ; ");
    assert_eq!(table.len(), 4);
}
