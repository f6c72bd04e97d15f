use lib::internal_lexer::{Ahead, Attr, LexEngine, Token};

fn lex_all(text: &str) -> Vec<(Token, Option<String>, (usize, usize))> {
    let mut lex = LexEngine::new_from_string(String::from(text)).unwrap();
    let mut out = Vec::new();
    loop {
        assert!(lex.peek() != Ahead::Invalid);
        match lex.next_tok() {
            None => break,
            Some((tok, attr, loc)) => {
                let name = match attr {
                    Attr::Skip => None,
                    Attr::AttrString(s) => Some(s),
                };
                out.push((tok, name, loc));
            }
        }
    }
    out
}

#[test]
fn empty_string_is_refused() {
    match LexEngine::new_from_string(String::new()) {
        Err(e) => assert_eq!(e, "String given is empty"),
        Ok(_) => panic!("an empty string must be refused"),
    }
}

#[test]
fn whitespace_only_has_no_tokens() {
    let mut lex = LexEngine::new_from_string(String::from(" \n\t ")).unwrap();
    assert!(lex.peek() == Ahead::End);
    assert!(lex.next_tok().is_none());
    assert!(lex.next_tok().is_none());
}

#[test]
fn tokens_of_a_rule() {
    let toks = lex_all("Store < id > S ::= E plus_x ; | null ; $");
    let kinds: Vec<Token> = toks.iter().map(|t| t.0).collect();
    assert_eq!(
        kinds,
        vec![
            Token::Store,
            Token::LeftArrow,
            Token::Term,
            Token::RightArrow,
            Token::Nonterm,
            Token::Produces,
            Token::Nonterm,
            Token::Term,
            Token::Semicolon,
            Token::Bar,
            Token::NullVal,
            Token::Semicolon,
            Token::EndOfInput,
        ]
    );
    assert_eq!(toks[2].1, Some(String::from("id")));
    assert_eq!(toks[4].1, Some(String::from("S")));
    assert_eq!(toks[6].1, Some(String::from("E")));
    assert_eq!(toks[7].1, Some(String::from("plus_x")));
    assert_eq!(toks[0].1, None);
    assert_eq!(toks[10].1, None);
}

#[test]
fn locations_are_column_and_line() {
    // a line feed is counted at column 1 of the line it starts
    let toks = lex_all("AB cd\n  ;");
    assert_eq!(toks[0].2, (1, 1));
    assert_eq!(toks[1].2, (4, 1));
    assert_eq!(toks[2].2, (4, 2));
}

#[test]
fn identifiers_keep_their_case_class() {
    // an upper-case identifier stops at the first lower-case letter
    let toks = lex_all("Ep A_B x_y");
    assert_eq!(toks[0].0, Token::Nonterm);
    assert_eq!(toks[0].1, Some(String::from("E")));
    assert_eq!(toks[1].0, Token::Term);
    assert_eq!(toks[1].1, Some(String::from("p")));
    assert_eq!(toks[2].1, Some(String::from("A_B")));
    assert_eq!(toks[3].1, Some(String::from("x_y")));
}

#[test]
fn word_at_end_of_input() {
    let toks = lex_all("S ::= abc");
    assert_eq!(toks.len(), 3);
    assert_eq!(toks[2].0, Token::Term);
    assert_eq!(toks[2].1, Some(String::from("abc")));
}

#[test]
fn invalid_characters_are_seen_ahead() {
    let lex = LexEngine::new_from_string(String::from("  # S")).unwrap();
    assert!(lex.peek() == Ahead::Invalid);
    let lex = LexEngine::new_from_string(String::from(":: S")).unwrap();
    assert!(lex.peek() == Ahead::Invalid);
    let lex = LexEngine::new_from_string(String::from("::=")).unwrap();
    assert!(lex.peek() == Ahead::Token);
}

#[test]
fn lower_case_store_is_a_terminal() {
    let toks = lex_all("store;");
    assert_eq!(toks.len(), 2);
    assert_eq!(toks[0], (Token::Term, Some(String::from("store")), (1, 1)));
    assert_eq!(toks[1], (Token::Semicolon, None, (6, 1)));
}

#[test]
fn store_keyword_comes_before_nonterminals() {
    let toks = lex_all("StoreX Ep");
    assert_eq!(toks.len(), 4);
    assert_eq!(toks[0], (Token::Store, None, (1, 1)));
    assert_eq!(toks[1], (Token::Nonterm, Some(String::from("X")), (6, 1)));
    assert_eq!(toks[2], (Token::Nonterm, Some(String::from("E")), (8, 1)));
    assert_eq!(toks[3], (Token::Term, Some(String::from("p")), (9, 1)));
}

#[test]
fn next_char_stops_on_the_last_character() {
    let mut lex = LexEngine::new_from_string(String::from("ab")).unwrap();
    assert_eq!(lex.next_char(), Ok(()));
    assert_eq!(lex.next_char(), Err("no more chars"));
    assert_eq!(lex.next_char(), Err("no more chars"));
    assert!(lex.peek() == Ahead::Token);
    let tok = lex.next_tok().unwrap();
    assert_eq!(tok.0, Token::Term);
    assert_eq!(tok.2, (2, 1));
}

#[test]
fn locations_count_lines_and_columns() {
    // line 1 + line feeds so far; column p - j + 1 from the last line feed at j,
    // which itself stands at column 1 of the new line
    let toks = lex_all("a\n  b\nc d");
    assert_eq!(toks[0].2, (1, 1));
    assert_eq!(toks[1].2, (4, 2));
    assert_eq!(toks[2].2, (2, 3));
    assert_eq!(toks[3].2, (4, 3));
}
