# LL(1) table generator

Reads a grammar description such as

    Store < id >
    S ::= E;
    E ::= T EP;
    EP ::= plus T EP; | null;
    ...

and builds the LL(1) parsing table of the grammar from its FIRST and FOLLOW
sets. Every step is verified with Verus against a mathematical description.

- `src/internal_lexer.rs`: tokens of a grammar description (`lex_at`,
  `tokens_from`).
- `src/internal_parser.rs`: recursive descent parser (`parse_start` and the
  functions it calls, over the token stream).
- `src/data_gleaning.rs`: numbering of terminals and nonterminals and the
  productions (`glean`).
- `src/ll1_table_create.rs`: the nonterminals that derive the empty string
  (`nullable_set`), FIRST (`first_set`, `first_of`), FOLLOW (`follow_of`) as
  the least sets of the textbook rules, and the table (`ll1_table`).
- `app/main.rs`: builds and prints the table of an expression grammar.
- `tests/`: tests of each stage.
