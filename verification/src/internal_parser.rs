// Hand-written recursive descent parser for grammar descriptions:
//
//   Start     ::= StoreVal Rules
//   StoreVal  ::= store left_arrow TermList right_arrow
//   Rules     ::= Rule Rules | null
//   Rule      ::= nonterm produces Derivation semicolon ExtraRule
//   Derivation::= null_val | SymList
//   SymList   ::= Symbol SymList | null
//   Symbol    ::= nonterm | term
//   ExtraRule ::= bar Derivation semicolon ExtraRule | null
use crate::internal_lexer::{
    Ahead,
    Attr,
    LexEngine,
    LexStep,
    SpecLexeme,
    Token,
    duplicate_lexeme,
    lemma_tokens_from_end,
    lemma_tokens_from_unfold,
    lemma_tokens_named,
    lexeme_named,
    lex_at,
    tokens_from,
};
use vstd::prelude::*;

verus! {

type Term = (Token, Attr, (usize, usize));

// ---------------------------------------------------------------------
// The syntax tree.
// ---------------------------------------------------------------------

#[derive(Debug)]
pub struct Start(pub Store, pub Rules);

#[derive(Debug)]
pub struct Store(pub Vec<Term>);

#[derive(Debug)]
pub struct Rules(pub Vec<Rule>);

#[derive(Debug)]
pub struct Rule(pub Term, pub Derivation, pub ExtraRule);

#[derive(Debug)]
pub enum Derivation {
    A,
    B(SymList),
}

#[derive(Debug)]
pub struct SymList(pub Vec<Symbol>);

#[derive(Debug)]
pub struct Symbol(pub Term);

#[derive(Debug)]
pub struct ExtraRule(pub Vec<Derivation>);

/// A derivation as a mathematical value: `A` is the empty (`null`) one.
pub enum SpecDerivation {
    A,
    B(Seq<SpecLexeme>),
}

/// A rule as a mathematical value: its nonterminal, its first derivation
/// and the derivations given after `|`.
pub struct SpecRule {
    pub head: SpecLexeme,
    pub derivation: SpecDerivation,
    pub extra: Seq<SpecDerivation>,
}

/// A whole grammar description as a mathematical value.
pub struct SpecStart {
    pub store: Seq<SpecLexeme>,
    pub rules: Seq<SpecRule>,
}

pub open spec fn lexemes_view(v: Seq<Term>) -> Seq<SpecLexeme> {
    v.map_values(|t: Term| t@)
}

impl View for Store {
    type V = Seq<SpecLexeme>;

    open spec fn view(&self) -> Seq<SpecLexeme> {
        lexemes_view(self.0@)
    }
}

impl View for Symbol {
    type V = SpecLexeme;

    open spec fn view(&self) -> SpecLexeme {
        self.0@
    }
}

impl View for SymList {
    type V = Seq<SpecLexeme>;

    open spec fn view(&self) -> Seq<SpecLexeme> {
        self.0@.map_values(|s: Symbol| s@)
    }
}

impl View for Derivation {
    type V = SpecDerivation;

    open spec fn view(&self) -> SpecDerivation {
        match self {
            Derivation::A => SpecDerivation::A,
            Derivation::B(l) => SpecDerivation::B(l@),
        }
    }
}

impl View for ExtraRule {
    type V = Seq<SpecDerivation>;

    open spec fn view(&self) -> Seq<SpecDerivation> {
        self.0@.map_values(|d: Derivation| d@)
    }
}

impl View for Rule {
    type V = SpecRule;

    open spec fn view(&self) -> SpecRule {
        SpecRule { head: self.0@, derivation: self.1@, extra: self.2@ }
    }
}

impl View for Rules {
    type V = Seq<SpecRule>;

    open spec fn view(&self) -> Seq<SpecRule> {
        self.0@.map_values(|r: Rule| r@)
    }
}

impl View for Start {
    type V = SpecStart;

    open spec fn view(&self) -> SpecStart {
        SpecStart { store: self.0@, rules: self.1@ }
    }
}

// ---------------------------------------------------------------------
// What the parser does, as spec functions over the token stream.
// ---------------------------------------------------------------------

/// The parser's position: the current token and the tokens still to come.
pub struct PState {
    pub cur: SpecLexeme,
    pub rest: Seq<SpecLexeme>,
}

/// The outcome of a parsing function: a result and the position after it,
/// or `Stuck` when the parser would not return (it would read a character
/// that starts no token, or loop for ever on the last token).
pub enum Parsed<T> {
    Done(Result<T, Seq<char>>, PState),
    Stuck,
}

/// Moving to the next token. Once the tokens are exhausted the current token
/// stays; `invalid` says whether the tokens end at a character that starts
/// no token, where moving on is stuck.
pub open spec fn step(s: PState, invalid: bool) -> Option<PState> {
    if s.rest.len() > 0 {
        Some(PState { cur: s.rest[0], rest: s.rest.drop_first() })
    } else if invalid {
        None
    } else {
        Some(s)
    }
}

/// The items `acc` put before the items of a successful outcome.
pub open spec fn prepend<X>(acc: Seq<X>, p: Parsed<Seq<X>>) -> Parsed<Seq<X>> {
    match p {
        Parsed::Done(Ok(xs), s) => Parsed::Done(Ok(acc + xs), s),
        _ => p,
    }
}

pub open spec fn is_symbol_token(t: Token) -> bool {
    t == Token::Nonterm || t == Token::Term
}

/// The terminals between `<` and `>`.
pub open spec fn parse_term_list(s: PState, invalid: bool) -> Parsed<Seq<SpecLexeme>>
    decreases s.rest.len(),
{
    if s.cur.0 != Token::Term {
        Parsed::Done(Ok(seq![]), s)
    } else {
        match step(s, invalid) {
            None => Parsed::Stuck,
            Some(s1) => if s1.rest.len() < s.rest.len() {
                prepend(seq![s.cur], parse_term_list(s1, invalid))
            } else {
                Parsed::Stuck
            },
        }
    }
}

pub open spec fn parse_store(s: PState, invalid: bool) -> Parsed<Seq<SpecLexeme>> {
    if s.cur.0 != Token::Store {
        Parsed::Done(Err("Expected token: store"@), s)
    } else {
        match step(s, invalid) {
            None => Parsed::Stuck,
            Some(s1) => if s1.cur.0 != Token::LeftArrow {
                Parsed::Done(Err("Expected token: left_arrow"@), s1)
            } else {
                match step(s1, invalid) {
                    None => Parsed::Stuck,
                    Some(s2) => match parse_term_list(s2, invalid) {
                        Parsed::Done(Ok(terms), s3) => if s3.cur.0 != Token::RightArrow {
                            Parsed::Done(Err("Expected token: right_arrow"@), s3)
                        } else {
                            match step(s3, invalid) {
                                None => Parsed::Stuck,
                                Some(s4) => Parsed::Done(Ok(terms), s4),
                            }
                        },
                        other => other,
                    },
                }
            },
        }
    }
}

pub open spec fn parse_symbol(s: PState, invalid: bool) -> Parsed<SpecLexeme> {
    if !is_symbol_token(s.cur.0) {
        Parsed::Done(Err("Expected token: term OR nonterm"@), s)
    } else {
        match step(s, invalid) {
            None => Parsed::Stuck,
            Some(s1) => Parsed::Done(Ok(s.cur), s1),
        }
    }
}

pub open spec fn parse_sym_list(s: PState, invalid: bool) -> Parsed<Seq<SpecLexeme>>
    decreases s.rest.len(),
{
    if !is_symbol_token(s.cur.0) {
        Parsed::Done(Ok(seq![]), s)
    } else {
        match parse_symbol(s, invalid) {
            Parsed::Done(Ok(sym), s1) => if s1.rest.len() < s.rest.len() {
                prepend(seq![sym], parse_sym_list(s1, invalid))
            } else {
                Parsed::Stuck
            },
            Parsed::Done(Err(e), s1) => Parsed::Done(Err(e), s1),
            Parsed::Stuck => Parsed::Stuck,
        }
    }
}

pub open spec fn parse_derivation(s: PState, invalid: bool) -> Parsed<SpecDerivation> {
    if s.cur.0 == Token::NullVal {
        match step(s, invalid) {
            None => Parsed::Stuck,
            Some(s1) => Parsed::Done(Ok(SpecDerivation::A), s1),
        }
    } else {
        match parse_sym_list(s, invalid) {
            Parsed::Done(Ok(syms), s1) => Parsed::Done(Ok(SpecDerivation::B(syms)), s1),
            Parsed::Done(Err(e), s1) => Parsed::Done(Err(e), s1),
            Parsed::Stuck => Parsed::Stuck,
        }
    }
}

/// The derivations after `|`; an iteration that ends without having moved
/// (which a successful iteration cannot do) would repeat for ever.
pub open spec fn parse_extra_rule(s: PState, invalid: bool) -> Parsed<Seq<SpecDerivation>>
    decreases s.rest.len(),
{
    if s.cur.0 != Token::Bar {
        Parsed::Done(Ok(seq![]), s)
    } else {
        match step(s, invalid) {
            None => Parsed::Stuck,
            Some(s1) => match parse_derivation(s1, invalid) {
                Parsed::Done(Ok(d), s2) => if s2.cur.0 != Token::Semicolon {
                    Parsed::Done(Err("Expected token: semicolon"@), s2)
                } else {
                    match step(s2, invalid) {
                        None => Parsed::Stuck,
                        Some(s3) => if s3.rest.len() < s.rest.len() {
                            prepend(seq![d], parse_extra_rule(s3, invalid))
                        } else {
                            Parsed::Stuck
                        },
                    }
                },
                Parsed::Done(Err(e), s2) => Parsed::Done(Err(e), s2),
                Parsed::Stuck => Parsed::Stuck,
            },
        }
    }
}

pub open spec fn parse_rule(s: PState, invalid: bool) -> Parsed<SpecRule> {
    if s.cur.0 != Token::Nonterm {
        Parsed::Done(Err("Expected token: nonterm"@), s)
    } else {
        match step(s, invalid) {
            None => Parsed::Stuck,
            Some(s1) => if s1.cur.0 != Token::Produces {
                Parsed::Done(Err("Expected token: produces"@), s1)
            } else {
                match step(s1, invalid) {
                    None => Parsed::Stuck,
                    Some(s2) => match parse_derivation(s2, invalid) {
                        Parsed::Done(Ok(d), s3) => if s3.cur.0 != Token::Semicolon {
                            Parsed::Done(Err("Expected token: semicolon"@), s3)
                        } else {
                            match step(s3, invalid) {
                                None => Parsed::Stuck,
                                Some(s4) => match parse_extra_rule(s4, invalid) {
                                    Parsed::Done(Ok(extra), s5) => Parsed::Done(
                                        Ok(SpecRule { head: s.cur, derivation: d, extra }),
                                        s5,
                                    ),
                                    Parsed::Done(Err(e), s5) => Parsed::Done(Err(e), s5),
                                    Parsed::Stuck => Parsed::Stuck,
                                },
                            }
                        },
                        Parsed::Done(Err(e), s3) => Parsed::Done(Err(e), s3),
                        Parsed::Stuck => Parsed::Stuck,
                    },
                }
            },
        }
    }
}

/// The rules, as long as the current token is a nonterminal; a rule that
/// ends without having moved (which a successful rule cannot do) would
/// repeat for ever.
pub open spec fn parse_rules(s: PState, invalid: bool) -> Parsed<Seq<SpecRule>>
    decreases s.rest.len(),
{
    if s.cur.0 != Token::Nonterm {
        Parsed::Done(Ok(seq![]), s)
    } else {
        match parse_rule(s, invalid) {
            Parsed::Done(Ok(r), s1) => if s1.rest.len() < s.rest.len() {
                prepend(seq![r], parse_rules(s1, invalid))
            } else {
                Parsed::Stuck
            },
            Parsed::Done(Err(e), s1) => Parsed::Done(Err(e), s1),
            Parsed::Stuck => Parsed::Stuck,
        }
    }
}

pub open spec fn parse_start(s: PState, invalid: bool) -> Parsed<SpecStart> {
    match parse_store(s, invalid) {
        Parsed::Done(Ok(store), s1) => match parse_rules(s1, invalid) {
            Parsed::Done(Ok(rules), s2) => Parsed::Done(Ok(SpecStart { store, rules }), s2),
            Parsed::Done(Err(e), s2) => Parsed::Done(Err(e), s2),
            Parsed::Stuck => Parsed::Stuck,
        },
        Parsed::Done(Err(e), s1) => Parsed::Done(Err(e), s1),
        Parsed::Stuck => Parsed::Stuck,
    }
}

/// An executable result `r`, and the position `s` after it, agree with `p`.
pub open spec fn agrees<T: View>(
    r: Option<Result<T, &'static str>>,
    p: Parsed<T::V>,
    s: PState,
) -> bool {
    match p {
        Parsed::Stuck => r is None,
        Parsed::Done(res, s2) => {
            &&& s == s2
            &&& match (r, res) {
                (Some(Ok(v)), Ok(sv)) => v@ == sv,
                (Some(Err(e)), Err(se)) => e@ == se,
                _ => false,
            }
        },
    }
}

proof fn lemma_prepend_prepend<X>(a: Seq<X>, b: Seq<X>, p: Parsed<Seq<X>>)
    ensures
        prepend(a, prepend(b, p)) == prepend(a + b, p),
{
    if let Parsed::Done(Ok(xs), s) = p {
        assert(a + (b + xs) =~= (a + b) + xs);
    }
}

proof fn lemma_prepend_empty<X>(p: Parsed<Seq<X>>)
    ensures
        prepend(Seq::<X>::empty(), p) == p,
{
    if let Parsed::Done(Ok(xs), s) = p {
        assert(Seq::<X>::empty() + xs =~= xs);
    }
}

/// A step never moves backwards.
pub proof fn lemma_step_mono(s: PState, invalid: bool)
    ensures
        step(s, invalid) matches Some(s1) ==> s1.rest.len() <= s.rest.len() && (s1.rest.len()
            == s.rest.len() ==> s1 == s),
{
}

pub proof fn lemma_sym_list_mono(s: PState, invalid: bool)
    ensures
        parse_sym_list(s, invalid) matches Parsed::Done(_, s1) ==> s1.rest.len() <= s.rest.len(),
    decreases s.rest.len(),
{
    if is_symbol_token(s.cur.0) {
        if let Parsed::Done(Ok(sym), s1) = parse_symbol(s, invalid) {
            if s1.rest.len() < s.rest.len() {
                lemma_sym_list_mono(s1, invalid);
            }
        }
    }
}

pub proof fn lemma_derivation_mono(s: PState, invalid: bool)
    ensures
        parse_derivation(s, invalid) matches Parsed::Done(_, s1) ==> s1.rest.len()
            <= s.rest.len(),
{
    lemma_sym_list_mono(s, invalid);
}

pub proof fn lemma_extra_rule_mono(s: PState, invalid: bool)
    ensures
        parse_extra_rule(s, invalid) matches Parsed::Done(_, s1) ==> s1.rest.len()
            <= s.rest.len(),
    decreases s.rest.len(),
{
    if s.cur.0 == Token::Bar {
        if let Some(s1) = step(s, invalid) {
            lemma_derivation_mono(s1, invalid);
            if let Parsed::Done(Ok(d), s2) = parse_derivation(s1, invalid) {
                if let Some(s3) = step(s2, invalid) {
                    if s3.rest.len() < s.rest.len() {
                        lemma_extra_rule_mono(s3, invalid);
                    }
                }
            }
        }
    }
}

/// An iteration of `parse_extra_rule` that succeeds consumes at least one token.
pub proof fn lemma_extra_iteration_progress(s: PState, invalid: bool)
    requires
        s.cur.0 == Token::Bar,
    ensures
        step(s, invalid) matches Some(s1) ==> (parse_derivation(s1, invalid) matches Parsed::Done(
            Ok(_),
            s2,
        ) ==> (s2.cur.0 == Token::Semicolon ==> (step(s2, invalid) matches Some(s3)
            ==> s3.rest.len() < s.rest.len()))),
{
    if let Some(s1) = step(s, invalid) {
        lemma_derivation_mono(s1, invalid);
        if let Parsed::Done(Ok(d), s2) = parse_derivation(s1, invalid) {
            if s1 == s {
                assert(parse_sym_list(s1, invalid) == Parsed::Done(Ok(Seq::<SpecLexeme>::empty()), s1));
            }
        }
    }
}

/// A rule that is parsed successfully consumes at least one token.
pub proof fn lemma_rule_progress(s: PState, invalid: bool)
    ensures
        parse_rule(s, invalid) matches Parsed::Done(Ok(_), s1) ==> s1.rest.len() < s.rest.len(),
{
    if let Some(s1) = step(s, invalid) {
        if let Some(s2) = step(s1, invalid) {
            lemma_derivation_mono(s2, invalid);
            if let Parsed::Done(Ok(d), s3) = parse_derivation(s2, invalid) {
                if let Some(s4) = step(s3, invalid) {
                    lemma_extra_rule_mono(s4, invalid);
                }
            }
        }
    }
}

/// The alternatives after `|` are read as long as a `|` follows: a
/// successful read stops at a token that is not `|`.
pub proof fn lemma_extra_rule_stops(s: PState, invalid: bool)
    ensures
        parse_extra_rule(s, invalid) matches Parsed::Done(Ok(_), s1) ==> s1.cur.0 != Token::Bar,
    decreases s.rest.len(),
{
    if s.cur.0 == Token::Bar {
        if let Some(s1) = step(s, invalid) {
            if let Parsed::Done(Ok(d), s2) = parse_derivation(s1, invalid) {
                if s2.cur.0 == Token::Semicolon {
                    if let Some(s3) = step(s2, invalid) {
                        if s3.rest.len() < s.rest.len() {
                            lemma_extra_rule_stops(s3, invalid);
                        }
                    }
                }
            }
        }
    }
}

/// Rules are read as long as a nonterminal follows: a successful read stops
/// at a token that is not a nonterminal.
pub proof fn lemma_rules_stop(s: PState, invalid: bool)
    ensures
        parse_rules(s, invalid) matches Parsed::Done(Ok(_), s1) ==> s1.cur.0 != Token::Nonterm,
    decreases s.rest.len(),
{
    if s.cur.0 == Token::Nonterm {
        if let Parsed::Done(Ok(r), s1) = parse_rule(s, invalid) {
            if s1.rest.len() < s.rest.len() {
                lemma_rules_stop(s1, invalid);
            }
        }
    }
}

/// Symbols are read as long as a nonterminal or terminal follows.
pub proof fn lemma_sym_list_stops(s: PState, invalid: bool)
    ensures
        parse_sym_list(s, invalid) matches Parsed::Done(Ok(_), s1) ==> s1.cur.0 != Token::Nonterm
            && s1.cur.0 != Token::Term,
    decreases s.rest.len(),
{
    if is_symbol_token(s.cur.0) {
        if let Parsed::Done(Ok(sym), s1) = parse_symbol(s, invalid) {
            if s1.rest.len() < s.rest.len() {
                lemma_sym_list_stops(s1, invalid);
            }
        }
    }
}

/// A successful parse of a rule stops at a token that is not `|`: every
/// alternative after `|` belongs to the rule.
pub proof fn lemma_rule_takes_all_alternatives(s: PState, invalid: bool)
    ensures
        parse_rule(s, invalid) matches Parsed::Done(Ok(_), s1) ==> s1.cur.0 != Token::Bar,
{
    if let Some(s1) = step(s, invalid) {
        if let Some(s2) = step(s1, invalid) {
            if let Parsed::Done(Ok(d), s3) = parse_derivation(s2, invalid) {
                if let Some(s4) = step(s3, invalid) {
                    lemma_extra_rule_stops(s4, invalid);
                }
            }
        }
    }
}

/// A successful parse of a whole description stops at a token that is
/// neither a nonterminal nor `|`.
pub proof fn lemma_start_stops(s: PState, invalid: bool)
    ensures
        parse_start(s, invalid) matches Parsed::Done(Ok(_), s1) ==> s1.cur.0 != Token::Nonterm,
{
    if let Parsed::Done(Ok(store), s1) = parse_store(s, invalid) {
        lemma_rules_stop(s1, invalid);
    }
}

/// The current token and the tokens to come.
pub open spec fn tokens_at(s: PState) -> Seq<SpecLexeme> {
    seq![s.cur] + s.rest
}

/// `s1` is `s` after some tokens were consumed.
pub open spec fn later(s: PState, s1: PState) -> bool {
    &&& s1.rest.len() <= s.rest.len()
    &&& tokens_at(s1) == tokens_at(s).skip(s.rest.len() - s1.rest.len())
}

/// The tokens consumed from `s` to `s1`.
pub open spec fn consumed(s: PState, s1: PState) -> Seq<SpecLexeme> {
    tokens_at(s).take(s.rest.len() - s1.rest.len())
}

/// The number of tokens of kind `t` in `toks`.
pub open spec fn count_tokens(toks: Seq<SpecLexeme>, t: Token) -> nat
    decreases toks.len(),
{
    if toks.len() == 0 {
        0
    } else {
        (if toks[0].0 == t {
            1nat
        } else {
            0nat
        }) + count_tokens(toks.drop_first(), t)
    }
}

proof fn lemma_count_tokens_add(a: Seq<SpecLexeme>, b: Seq<SpecLexeme>, t: Token)
    ensures
        count_tokens(a + b, t) == count_tokens(a, t) + count_tokens(b, t),
    decreases a.len(),
{
    if a.len() > 0 {
        assert((a + b).drop_first() =~= a.drop_first() + b);
        assert((a + b)[0] == a[0]);
        lemma_count_tokens_add(a.drop_first(), b, t);
    } else {
        assert(a + b =~= b);
    }
}

proof fn lemma_later_trans(s: PState, s1: PState, s2: PState)
    requires
        later(s, s1),
        later(s1, s2),
    ensures
        later(s, s2),
        consumed(s, s2) == consumed(s, s1) + consumed(s1, s2),
{
    let t = tokens_at(s);
    let a = s.rest.len() - s1.rest.len();
    let b = s1.rest.len() - s2.rest.len();
    assert(t.skip(a).skip(b) =~= t.skip(a + b));
    assert(t.take(a + b) =~= t.take(a) + t.skip(a).take(b));
}

proof fn lemma_later_refl(s: PState)
    ensures
        later(s, s),
        consumed(s, s) == Seq::<SpecLexeme>::empty(),
{
    assert(tokens_at(s).skip(0) =~= tokens_at(s));
    assert(tokens_at(s).take(0) =~= Seq::<SpecLexeme>::empty());
}

proof fn lemma_step_later(s: PState, invalid: bool)
    ensures
        step(s, invalid) matches Some(s1) ==> later(s, s1) && consumed(s, s1) == (if s.rest.len() > 0 {
            seq![s.cur]
        } else {
            Seq::<SpecLexeme>::empty()
        }),
{
    if let Some(s1) = step(s, invalid) {
        if s.rest.len() > 0 {
            assert(tokens_at(s1) =~= tokens_at(s).skip(1));
            assert(tokens_at(s).take(1) =~= seq![s.cur]);
        } else {
            lemma_later_refl(s);
        }
    }
}

/// The symbols read are exactly the tokens consumed.
pub proof fn lemma_sym_list_reads(s: PState, invalid: bool)
    ensures
        parse_sym_list(s, invalid) matches Parsed::Done(Ok(syms), s1) ==> later(s, s1) && syms
            == consumed(s, s1) && forall|k: int| 0 <= k < syms.len() ==> is_symbol_token(#[trigger] syms[k].0),
    decreases s.rest.len(),
{
    if !is_symbol_token(s.cur.0) {
        lemma_later_refl(s);
    } else if let Parsed::Done(Ok(sym), s1) = parse_symbol(s, invalid) {
        if s1.rest.len() < s.rest.len() {
            lemma_step_later(s, invalid);
            lemma_sym_list_reads(s1, invalid);
            if let Parsed::Done(Ok(syms), s2) = parse_sym_list(s1, invalid) {
                lemma_later_trans(s, s1, s2);
                let all = seq![sym] + syms;
                assert forall|k: int| 0 <= k < all.len() implies is_symbol_token(#[trigger] all[k].0) by {
                    if k > 0 {
                        assert(all[k] == syms[k - 1]);
                    }
                }
            }
        }
    }
}

/// Tokens that are all symbols or `null` hold no `|` and no `::=`.
proof fn lemma_count_none(toks: Seq<SpecLexeme>, t: Token)
    requires
        forall|k: int| 0 <= k < toks.len() ==> (#[trigger] toks[k]).0 != t,
    ensures
        count_tokens(toks, t) == 0,
    decreases toks.len(),
{
    if toks.len() > 0 {
        assert forall|k: int| 0 <= k < toks.drop_first().len() implies (#[trigger] toks.drop_first()[k]).0 != t by {
            assert(toks.drop_first()[k] == toks[k + 1]);
        }
        lemma_count_none(toks.drop_first(), t);
    }
}

/// A derivation consumes only symbols and `null`.
proof fn lemma_derivation_later(s: PState, invalid: bool)
    ensures
        parse_derivation(s, invalid) matches Parsed::Done(Ok(_), s1) ==> later(s, s1) && forall|k: int|
            0 <= k < consumed(s, s1).len() ==> {
                let t = (#[trigger] consumed(s, s1)[k]).0;
                t == Token::Term || t == Token::Nonterm || t == Token::NullVal
            },
{
    lemma_step_later(s, invalid);
    lemma_sym_list_reads(s, invalid);
    if let Parsed::Done(Ok(_), s1) = parse_derivation(s, invalid) {
        if s.cur.0 != Token::NullVal {
            let syms = parse_sym_list(s, invalid)->Done_0->Ok_0;
            assert(syms == consumed(s, s1));
            assert forall|k: int| 0 <= k < consumed(s, s1).len() implies is_symbol_token(
                (#[trigger] consumed(s, s1)[k]).0,
            ) by {
                assert(consumed(s, s1)[k] == syms[k]);
            }
        }
    }
}

proof fn lemma_derivation_counts(s: PState, invalid: bool, t: Token)
    requires
        t != Token::Term && t != Token::Nonterm && t != Token::NullVal,
    ensures
        parse_derivation(s, invalid) matches Parsed::Done(Ok(_), s1) ==> later(s, s1) && count_tokens(
            consumed(s, s1),
            t,
        ) == 0,
{
    lemma_derivation_later(s, invalid);
    if let Parsed::Done(Ok(_), s1) = parse_derivation(s, invalid) {
        let c = consumed(s, s1);
        assert forall|k: int| 0 <= k < c.len() implies (#[trigger] c[k]).0 != t by {
            let u = c[k].0;
            assert(u == Token::Term || u == Token::Nonterm || u == Token::NullVal);
        }
        lemma_count_none(c, t);
    }
}

/// The alternatives read after `|` are as many as the `|` tokens consumed,
/// and they consume no `::=`: each `|` that is read starts one alternative,
/// and none is dropped.
pub proof fn lemma_extra_rule_counts(s: PState, invalid: bool)
    ensures
        parse_extra_rule(s, invalid) matches Parsed::Done(Ok(ds), s1) ==> later(s, s1) && count_tokens(
            consumed(s, s1),
            Token::Bar,
        ) == ds.len() && count_tokens(consumed(s, s1), Token::Produces) == 0,
    decreases s.rest.len(),
{
    if s.cur.0 != Token::Bar {
        lemma_later_refl(s);
    } else if let Some(s1) = step(s, invalid) {
        lemma_step_later(s, invalid);
        lemma_derivation_counts(s1, invalid, Token::Bar);
        lemma_derivation_counts(s1, invalid, Token::Produces);
        lemma_derivation_mono(s1, invalid);
        if let Parsed::Done(Ok(d), s2) = parse_derivation(s1, invalid) {
            if s2.cur.0 == Token::Semicolon {
                lemma_step_later(s2, invalid);
                if let Some(s3) = step(s2, invalid) {
                    if s3.rest.len() < s.rest.len() {
                        lemma_extra_rule_counts(s3, invalid);
                        if let Parsed::Done(Ok(ds), s4) = parse_extra_rule(s3, invalid) {
                            assert(s.rest.len() > 0);
                            lemma_later_trans(s, s1, s2);
                            lemma_later_trans(s, s2, s3);
                            lemma_later_trans(s, s3, s4);
                            let c1 = consumed(s, s1);
                            let c2 = consumed(s1, s2);
                            let c3 = consumed(s2, s3);
                            let c4 = consumed(s3, s4);
                            lemma_count_tokens_add(c1, c2, Token::Bar);
                            lemma_count_tokens_add(c1 + c2, c3, Token::Bar);
                            lemma_count_tokens_add(c1 + c2 + c3, c4, Token::Bar);
                            lemma_count_tokens_add(c1, c2, Token::Produces);
                            lemma_count_tokens_add(c1 + c2, c3, Token::Produces);
                            lemma_count_tokens_add(c1 + c2 + c3, c4, Token::Produces);
                            reveal_with_fuel(count_tokens, 2);
                            assert(count_tokens(c1, Token::Bar) == 1);
                            assert(count_tokens(c1, Token::Produces) == 0);
                            assert(count_tokens(c3, Token::Bar) == 0);
                            assert(count_tokens(c3, Token::Produces) == 0);
                            assert(prepend(seq![d], parse_extra_rule(s3, invalid)) == Parsed::Done(
                                Ok(seq![d] + ds),
                                s4,
                            ));
                        }
                    }
                }
            }
        }
    }
}

/// A rule that is read consumes exactly one `::=`.
pub proof fn lemma_rule_counts(s: PState, invalid: bool)
    ensures
        parse_rule(s, invalid) matches Parsed::Done(Ok(_), s1) ==> later(s, s1) && count_tokens(
            consumed(s, s1),
            Token::Produces,
        ) == 1,
{
    if s.cur.0 == Token::Nonterm {
        if let Some(s1) = step(s, invalid) {
            lemma_step_later(s, invalid);
            if s1.cur.0 == Token::Produces {
                if let Some(s2) = step(s1, invalid) {
                    lemma_step_later(s1, invalid);
                    lemma_derivation_counts(s2, invalid, Token::Produces);
                    if let Parsed::Done(Ok(d), s3) = parse_derivation(s2, invalid) {
                        if s3.cur.0 == Token::Semicolon {
                            if let Some(s4) = step(s3, invalid) {
                                lemma_step_later(s3, invalid);
                                lemma_extra_rule_counts(s4, invalid);
                                if let Parsed::Done(Ok(extra), s5) = parse_extra_rule(s4, invalid) {
                                    if s1.rest.len() == s.rest.len() {
                                        assert(s1 == s);
                                    }
                                    if s2.rest.len() == s1.rest.len() {
                                        assert(s2 == s1);
                                        assert(parse_sym_list(s2, invalid) == Parsed::Done(
                                            Ok(Seq::<SpecLexeme>::empty()),
                                            s2,
                                        ));
                                    }
                                    lemma_later_trans(s, s1, s2);
                                    lemma_later_trans(s, s2, s3);
                                    lemma_later_trans(s, s3, s4);
                                    lemma_later_trans(s, s4, s5);
                                    let c1 = consumed(s, s1);
                                    let c2 = consumed(s1, s2);
                                    let c3 = consumed(s2, s3);
                                    let c4 = consumed(s3, s4);
                                    let c5 = consumed(s4, s5);
                                    let t = Token::Produces;
                                    lemma_count_tokens_add(c1, c2, t);
                                    lemma_count_tokens_add(c1 + c2, c3, t);
                                    lemma_count_tokens_add(c1 + c2 + c3, c4, t);
                                    lemma_count_tokens_add(c1 + c2 + c3 + c4, c5, t);
                                    reveal_with_fuel(count_tokens, 2);
                                    assert(count_tokens(c1, t) == 0);
                                    assert(count_tokens(c2, t) == 1);
                                    assert(count_tokens(c4, t) == 0);
                                }
                            }
                        }
                    }
                }
            }
        }
    }
}

/// The rules read are as many as the `::=` tokens consumed: none is dropped.
pub proof fn lemma_rules_count(s: PState, invalid: bool)
    ensures
        parse_rules(s, invalid) matches Parsed::Done(Ok(rs), s1) ==> later(s, s1) && count_tokens(
            consumed(s, s1),
            Token::Produces,
        ) == rs.len(),
    decreases s.rest.len(),
{
    if s.cur.0 != Token::Nonterm {
        lemma_later_refl(s);
    } else if let Parsed::Done(Ok(r), s1) = parse_rule(s, invalid) {
        if s1.rest.len() < s.rest.len() {
            lemma_rule_counts(s, invalid);
            lemma_rules_count(s1, invalid);
            if let Parsed::Done(Ok(rs), s2) = parse_rules(s1, invalid) {
                lemma_later_trans(s, s1, s2);
                lemma_count_tokens_add(consumed(s, s1), consumed(s1, s2), Token::Produces);
                assert(prepend(seq![r], parse_rules(s1, invalid)) == Parsed::Done(Ok(seq![r] + rs), s2));
            }
        }
    }
}

/// The current token and every token to come carry their text where they
/// are nonterminals or terminals.
pub open spec fn pstate_named(s: PState) -> bool {
    &&& lexeme_named(s.cur)
    &&& forall|i: int| 0 <= i < s.rest.len() ==> lexeme_named(#[trigger] s.rest[i])
}

/// Every symbol is a nonterminal or terminal with its text.
pub open spec fn symbols_named(syms: Seq<SpecLexeme>) -> bool {
    forall|j: int|
        0 <= j < syms.len() ==> is_symbol_token(#[trigger] syms[j].0) && syms[j].1 is AttrString
}

pub open spec fn derivation_named(d: SpecDerivation) -> bool {
    match d {
        SpecDerivation::A => true,
        SpecDerivation::B(syms) => symbols_named(syms),
    }
}

/// A rule whose head is a nonterminal with its text and whose symbols are
/// nonterminals and terminals with their text.
pub open spec fn rule_named(r: SpecRule) -> bool {
    &&& r.head.0 == Token::Nonterm
    &&& r.head.1 is AttrString
    &&& derivation_named(r.derivation)
    &&& forall|k: int| 0 <= k < r.extra.len() ==> derivation_named(#[trigger] r.extra[k])
}

/// Every stored token is a terminal with its text.
pub open spec fn store_named(store: Seq<SpecLexeme>) -> bool {
    forall|j: int| 0 <= j < store.len() ==> #[trigger] store[j].0 == Token::Term && store[j].1 is AttrString
}

pub open spec fn start_named(a: SpecStart) -> bool {
    &&& store_named(a.store)
    &&& forall|i: int| 0 <= i < a.rules.len() ==> rule_named(#[trigger] a.rules[i])
}

proof fn lemma_step_named(s: PState, invalid: bool)
    requires
        pstate_named(s),
    ensures
        step(s, invalid) matches Some(s1) ==> pstate_named(s1),
{
    if s.rest.len() > 0 {
        assert(lexeme_named(s.rest[0]));
        let s1 = step(s, invalid)->Some_0;
        assert forall|i: int| 0 <= i < s1.rest.len() implies lexeme_named(#[trigger] s1.rest[i]) by {
            assert(s1.rest[i] == s.rest[i + 1]);
        }
    }
}

proof fn lemma_term_list_named(s: PState, invalid: bool)
    requires
        pstate_named(s),
    ensures
        parse_term_list(s, invalid) matches Parsed::Done(r, s1) ==> pstate_named(s1) && (r matches Ok(
            ts,
        ) ==> store_named(ts)),
    decreases s.rest.len(),
{
    if s.cur.0 == Token::Term {
        lemma_step_named(s, invalid);
        if let Some(s1) = step(s, invalid) {
            if s1.rest.len() < s.rest.len() {
                lemma_term_list_named(s1, invalid);
                if let Parsed::Done(Ok(ts), s2) = parse_term_list(s1, invalid) {
                    let all = seq![s.cur] + ts;
                    assert forall|j: int| 0 <= j < all.len() implies #[trigger] all[j].0 == Token::Term
                        && all[j].1 is AttrString by {
                        if j > 0 {
                            assert(all[j] == ts[j - 1]);
                        }
                    }
                }
            }
        }
    }
}

proof fn lemma_store_named(s: PState, invalid: bool)
    requires
        pstate_named(s),
    ensures
        parse_store(s, invalid) matches Parsed::Done(r, s1) ==> pstate_named(s1) && (r matches Ok(ts)
            ==> store_named(ts)),
{
    lemma_step_named(s, invalid);
    if let Some(s1) = step(s, invalid) {
        lemma_step_named(s1, invalid);
        if let Some(s2) = step(s1, invalid) {
            lemma_term_list_named(s2, invalid);
            if let Parsed::Done(Ok(ts), s3) = parse_term_list(s2, invalid) {
                lemma_step_named(s3, invalid);
            }
        }
    }
}

proof fn lemma_sym_list_named(s: PState, invalid: bool)
    requires
        pstate_named(s),
    ensures
        parse_sym_list(s, invalid) matches Parsed::Done(r, s1) ==> pstate_named(s1) && (r matches Ok(
            syms,
        ) ==> symbols_named(syms)),
    decreases s.rest.len(),
{
    if is_symbol_token(s.cur.0) {
        lemma_step_named(s, invalid);
        if let Parsed::Done(Ok(sym), s1) = parse_symbol(s, invalid) {
            if s1.rest.len() < s.rest.len() {
                lemma_sym_list_named(s1, invalid);
                if let Parsed::Done(Ok(syms), s2) = parse_sym_list(s1, invalid) {
                    let all = seq![sym] + syms;
                    assert forall|j: int| 0 <= j < all.len() implies is_symbol_token(
                        #[trigger] all[j].0,
                    ) && all[j].1 is AttrString by {
                        if j > 0 {
                            assert(all[j] == syms[j - 1]);
                        }
                    }
                }
            }
        }
    }
}

proof fn lemma_derivation_named(s: PState, invalid: bool)
    requires
        pstate_named(s),
    ensures
        parse_derivation(s, invalid) matches Parsed::Done(r, s1) ==> pstate_named(s1) && (r matches Ok(
            d,
        ) ==> derivation_named(d)),
{
    lemma_step_named(s, invalid);
    lemma_sym_list_named(s, invalid);
}

proof fn lemma_extra_rule_named(s: PState, invalid: bool)
    requires
        pstate_named(s),
    ensures
        parse_extra_rule(s, invalid) matches Parsed::Done(r, s1) ==> pstate_named(s1) && (r matches Ok(
            ds,
        ) ==> forall|k: int| 0 <= k < ds.len() ==> derivation_named(#[trigger] ds[k])),
    decreases s.rest.len(),
{
    if s.cur.0 == Token::Bar {
        lemma_step_named(s, invalid);
        if let Some(s1) = step(s, invalid) {
            lemma_derivation_named(s1, invalid);
            if let Parsed::Done(Ok(d), s2) = parse_derivation(s1, invalid) {
                lemma_step_named(s2, invalid);
                if let Some(s3) = step(s2, invalid) {
                    if s3.rest.len() < s.rest.len() {
                        lemma_extra_rule_named(s3, invalid);
                        if let Parsed::Done(Ok(ds), s4) = parse_extra_rule(s3, invalid) {
                            let all = seq![d] + ds;
                            assert forall|k: int| 0 <= k < all.len() implies derivation_named(
                                #[trigger] all[k],
                            ) by {
                                if k > 0 {
                                    assert(all[k] == ds[k - 1]);
                                }
                            }
                        }
                    }
                }
            }
        }
    }
}

proof fn lemma_rule_named(s: PState, invalid: bool)
    requires
        pstate_named(s),
    ensures
        parse_rule(s, invalid) matches Parsed::Done(r, s1) ==> pstate_named(s1) && (r matches Ok(rule)
            ==> rule_named(rule)),
{
    lemma_step_named(s, invalid);
    if let Some(s1) = step(s, invalid) {
        lemma_step_named(s1, invalid);
        if let Some(s2) = step(s1, invalid) {
            lemma_derivation_named(s2, invalid);
            if let Parsed::Done(Ok(d), s3) = parse_derivation(s2, invalid) {
                lemma_step_named(s3, invalid);
                if let Some(s4) = step(s3, invalid) {
                    lemma_extra_rule_named(s4, invalid);
                }
            }
        }
    }
}

proof fn lemma_rules_named(s: PState, invalid: bool)
    requires
        pstate_named(s),
    ensures
        parse_rules(s, invalid) matches Parsed::Done(r, s1) ==> pstate_named(s1) && (r matches Ok(rs)
            ==> forall|i: int| 0 <= i < rs.len() ==> rule_named(#[trigger] rs[i])),
    decreases s.rest.len(),
{
    if s.cur.0 == Token::Nonterm {
        lemma_rule_named(s, invalid);
        if let Parsed::Done(Ok(r), s1) = parse_rule(s, invalid) {
            if s1.rest.len() < s.rest.len() {
                lemma_rules_named(s1, invalid);
                if let Parsed::Done(Ok(rs), s2) = parse_rules(s1, invalid) {
                    let all = seq![r] + rs;
                    assert forall|i: int| 0 <= i < all.len() implies rule_named(#[trigger] all[i]) by {
                        if i > 0 {
                            assert(all[i] == rs[i - 1]);
                        }
                    }
                }
            }
        }
    }
}

/// What a successful parse produces: stored terminals, rule heads that are
/// nonterminals and symbols that are nonterminals or terminals, each with
/// its text.
pub proof fn lemma_start_named(s: PState, invalid: bool)
    requires
        pstate_named(s),
    ensures
        parse_start(s, invalid) matches Parsed::Done(Ok(ast), _) ==> start_named(ast),
{
    lemma_store_named(s, invalid);
    if let Parsed::Done(Ok(store), s1) = parse_store(s, invalid) {
        lemma_rules_named(s1, invalid);
    }
}

// ---------------------------------------------------------------------
// The parser.
// ---------------------------------------------------------------------

/// A recursive descent parser reading tokens from a lexer.
pub struct ParsingEngine {
    cur_tok: (Token, Attr, (usize, usize)),
    lex_engine: LexEngine,
}

impl ParsingEngine {
    pub closed spec fn wf(&self) -> bool {
        self.lex_engine.wf() && lexeme_named(self.cur_tok@)
    }

    /// The current token and the tokens to come carry their text where they
    /// are nonterminals or terminals.
    pub proof fn lemma_state_named(&self)
        requires
            self.wf(),
        ensures
            pstate_named(self.state()),
    {
        self.lex_engine.lemma_wf_bounds();
        lemma_tokens_named(self.lex_engine.chars(), self.lex_engine.pos());
    }

    /// The current token and the tokens still to come.
    pub closed spec fn state(&self) -> PState {
        PState {
            cur: self.cur_tok@,
            rest: tokens_from(self.lex_engine.chars(), self.lex_engine.pos()).0,
        }
    }

    /// Whether the tokens still to come end at a character that starts no token.
    pub closed spec fn invalid_tail(&self) -> bool {
        tokens_from(self.lex_engine.chars(), self.lex_engine.pos()).1
    }

    /// A parser whose current token is the lexer's next token; an error when
    /// the lexer has no token left.
    pub fn new_from_lexengine(lex_engine: LexEngine) -> (res: Result<Self, &'static str>)
        requires
            lex_engine.wf(),
            !(lex_at(lex_engine.chars(), lex_engine.pos()) is Invalid),
        ensures
            ({
                let toks = tokens_from(lex_engine.chars(), lex_engine.pos());
                &&& res is Err <==> toks.0.len() == 0
                &&& res matches Err(e) ==> e@ == "No tokens left in lex engine"@
                &&& res matches Ok(p) ==> {
                    &&& p.wf()
                    &&& p.state() == PState { cur: toks.0[0], rest: toks.0.drop_first() }
                    &&& p.invalid_tail() == toks.1
                }
            }),
    {
        let mut lex_engine = lex_engine;
        proof {
            lex_engine.lemma_wf_bounds();
            lemma_tokens_from_unfold(lex_engine.chars(), lex_engine.pos());
        }
        let ghost toks = tokens_from(lex_engine.chars(), lex_engine.pos());
        proof {
            lemma_tokens_named(lex_engine.chars(), lex_engine.pos());
            if toks.0.len() > 0 {
                assert(lexeme_named(toks.0[0]));
            }
        }
        match lex_engine.next_tok() {
            None => Err("No tokens left in lex engine"),
            Some(cur_tok) => {
                assert(toks.0.drop_first() =~= tokens_from(lex_engine.chars(), lex_engine.pos()).0);
                Ok(ParsingEngine { cur_tok, lex_engine })
            },
        }
    }

    /// Moves to the next token; an error, and no move, once no token is left.
    fn next_tok(&mut self) -> (r: Result<(), &'static str>)
        requires
            old(self).wf(),
            step(old(self).state(), old(self).invalid_tail()) is Some,
        ensures
            final(self).wf(),
            final(self).invalid_tail() == old(self).invalid_tail(),
            final(self).state() == step(old(self).state(), old(self).invalid_tail())->Some_0,
            r is Ok <==> old(self).state().rest.len() > 0,
            r matches Err(e) ==> e@ == "No tokens left in lex engine"@,
    {
        let ghost chars = self.lex_engine.chars();
        proof {
            self.lex_engine.lemma_wf_bounds();
            lemma_tokens_from_unfold(chars, self.lex_engine.pos());
            lemma_tokens_from_end(chars);
        }
        let ghost toks = tokens_from(chars, self.lex_engine.pos());
        proof {
            lemma_tokens_named(chars, self.lex_engine.pos());
            if toks.0.len() > 0 {
                assert(lexeme_named(toks.0[0]));
            }
        }
        match self.lex_engine.next_tok() {
            None => Err("No tokens left in lex engine"),
            Some(tok) => {
                self.cur_tok = tok;
                assert(toks.0.drop_first() =~= tokens_from(chars, self.lex_engine.pos()).0);
                Ok(())
            },
        }
    }

    /// Moves to the next token: `None` when stuck, otherwise whether a token
    /// was consumed.
    fn advance(&mut self) -> (r: Option<bool>)
        requires
            old(self).wf(),
        ensures
            final(self).wf(),
            final(self).invalid_tail() == old(self).invalid_tail(),
            match step(old(self).state(), old(self).invalid_tail()) {
                None => r is None,
                Some(s) => {
                    &&& r == Some(s.rest.len() < old(self).state().rest.len())
                    &&& final(self).state() == s
                },
            },
    {
        proof {
            self.lex_engine.lemma_wf_bounds();
            lemma_tokens_from_unfold(self.lex_engine.chars(), self.lex_engine.pos());
        }
        if self.lex_engine.peek() == Ahead::Invalid {
            return None;
        }
        match self.next_tok() {
            Ok(()) => Some(true),
            Err(_) => Some(false),
        }
    }
}

impl ParsingEngine {
    /// `store < term* >`
    #[verifier::loop_isolation(false)]
    fn store(&mut self) -> (r: Option<Result<Store, &'static str>>)
        requires
            old(self).wf(),
        ensures
            final(self).wf(),
            final(self).invalid_tail() == old(self).invalid_tail(),
            agrees(r, parse_store(old(self).state(), old(self).invalid_tail()), final(self).state()),
    {
        let ghost invalid = self.invalid_tail();
        if self.cur_tok.0 != Token::Store {
            return Some(Err("Expected token: store"));
        }
        if self.advance().is_none() {
            return None;
        }
        if self.cur_tok.0 != Token::LeftArrow {
            return Some(Err("Expected token: left_arrow"));
        }
        if self.advance().is_none() {
            return None;
        }
        let ghost s2 = self.state();
        let mut termvec: Vec<Term> = Vec::new();
        proof {
            lemma_prepend_empty(parse_term_list(s2, invalid));
        }
        while self.cur_tok.0 == Token::Term
            invariant
                self.wf(),
                self.invalid_tail() == invalid,
                parse_term_list(s2, invalid) == prepend(
                    lexemes_view(termvec@),
                    parse_term_list(self.state(), invalid),
                ),
            decreases self.state().rest.len(),
        {
            let ghost before = self.state();
            let ghost acc = lexemes_view(termvec@);
            let gotta_be_term = duplicate_lexeme(&self.cur_tok);
            match self.advance() {
                None => return None,
                Some(moved) => if !moved {
                    return None;
                },
            }
            proof {
                assert(parse_term_list(before, invalid) == prepend(
                    seq![before.cur],
                    parse_term_list(self.state(), invalid),
                ));
                lemma_prepend_prepend(acc, seq![before.cur], parse_term_list(self.state(), invalid));
            }
            termvec.push(gotta_be_term);
            assert(lexemes_view(termvec@) =~= acc + seq![before.cur]);
        }
        if self.cur_tok.0 != Token::RightArrow {
            return Some(Err("Expected token: right_arrow"));
        }
        if self.advance().is_none() {
            return None;
        }
        Some(Ok(Store(termvec)))
    }
}

impl ParsingEngine {
    /// Whether a token is still to come.
    fn tokens_left(&self) -> (b: bool)
        requires
            self.wf(),
        ensures
            b == (self.state().rest.len() > 0),
    {
        proof {
            self.lex_engine.lemma_wf_bounds();
            lemma_tokens_from_unfold(self.lex_engine.chars(), self.lex_engine.pos());
        }
        self.lex_engine.peek() == Ahead::Token
    }

    /// `nonterm | term`
    fn symbol(&mut self) -> (r: Option<Result<Symbol, &'static str>>)
        requires
            old(self).wf(),
        ensures
            final(self).wf(),
            final(self).invalid_tail() == old(self).invalid_tail(),
            agrees(r, parse_symbol(old(self).state(), old(self).invalid_tail()), final(self).state()),
    {
        match self.cur_tok.0 {
            Token::Nonterm | Token::Term => (),
            _ => {
                return Some(Err("Expected token: term OR nonterm"));
            },
        }
        let gotta_be_nonterm_or_term = duplicate_lexeme(&self.cur_tok);
        if self.advance().is_none() {
            return None;
        }
        Some(Ok(Symbol(gotta_be_nonterm_or_term)))
    }

    /// `Symbol*`
    #[verifier::loop_isolation(false)]
    fn sym_list(&mut self) -> (r: Option<Result<SymList, &'static str>>)
        requires
            old(self).wf(),
        ensures
            final(self).wf(),
            final(self).invalid_tail() == old(self).invalid_tail(),
            agrees(r, parse_sym_list(old(self).state(), old(self).invalid_tail()), final(self).state()),
    {
        let ghost invalid = self.invalid_tail();
        let ghost s0 = self.state();
        let mut symvec: Vec<Symbol> = Vec::new();
        proof {
            lemma_prepend_empty(parse_sym_list(s0, invalid));
        }
        while self.cur_tok.0 == Token::Nonterm || self.cur_tok.0 == Token::Term
            invariant
                self.wf(),
                self.invalid_tail() == invalid,
                parse_sym_list(s0, invalid) == prepend(
                    symvec@.map_values(|s: Symbol| s@),
                    parse_sym_list(self.state(), invalid),
                ),
            decreases self.state().rest.len(),
        {
            let ghost before = self.state();
            let ghost acc = symvec@.map_values(|s: Symbol| s@);
            // on the last token the loop would never end
            if !self.tokens_left() {
                return None;
            }
            match self.symbol() {
                None => return None,
                Some(Err(e)) => return Some(Err(e)),
                Some(Ok(sym)) => {
                    proof {
                        assert(parse_sym_list(before, invalid) == prepend(
                            seq![before.cur],
                            parse_sym_list(self.state(), invalid),
                        ));
                        lemma_prepend_prepend(
                            acc,
                            seq![before.cur],
                            parse_sym_list(self.state(), invalid),
                        );
                    }
                    symvec.push(sym);
                    assert(symvec@.map_values(|s: Symbol| s@) =~= acc + seq![before.cur]);
                },
            }
        }
        Some(Ok(SymList(symvec)))
    }

    /// `null | SymList`
    fn derivation(&mut self) -> (r: Option<Result<Derivation, &'static str>>)
        requires
            old(self).wf(),
        ensures
            final(self).wf(),
            final(self).invalid_tail() == old(self).invalid_tail(),
            agrees(
                r,
                parse_derivation(old(self).state(), old(self).invalid_tail()),
                final(self).state(),
            ),
    {
        match self.cur_tok.0 {
            Token::NullVal => {
                if self.advance().is_none() {
                    return None;
                }
                Some(Ok(Derivation::A))
            },
            _ => match self.sym_list() {
                None => None,
                Some(Err(e)) => Some(Err(e)),
                Some(Ok(l)) => Some(Ok(Derivation::B(l))),
            },
        }
    }

    /// `(| Derivation ;)*`
    #[verifier::loop_isolation(false)]
    fn extra_rule(&mut self) -> (r: Option<Result<ExtraRule, &'static str>>)
        requires
            old(self).wf(),
        ensures
            final(self).wf(),
            final(self).invalid_tail() == old(self).invalid_tail(),
            agrees(
                r,
                parse_extra_rule(old(self).state(), old(self).invalid_tail()),
                final(self).state(),
            ),
    {
        let ghost invalid = self.invalid_tail();
        let ghost s0 = self.state();
        let mut extrarulevec: Vec<Derivation> = Vec::new();
        proof {
            lemma_prepend_empty(parse_extra_rule(s0, invalid));
        }
        while self.cur_tok.0 == Token::Bar
            invariant
                self.wf(),
                self.invalid_tail() == invalid,
                parse_extra_rule(s0, invalid) == prepend(
                    extrarulevec@.map_values(|d: Derivation| d@),
                    parse_extra_rule(self.state(), invalid),
                ),
            decreases self.state().rest.len(),
        {
            let ghost before = self.state();
            let ghost acc = extrarulevec@.map_values(|d: Derivation| d@);
            proof {
                lemma_extra_iteration_progress(before, invalid);
            }
            if self.advance().is_none() {
                return None;
            }
            let derivation = match self.derivation() {
                None => return None,
                Some(Err(e)) => return Some(Err(e)),
                Some(Ok(d)) => d,
            };
            if self.cur_tok.0 != Token::Semicolon {
                return Some(Err("Expected token: semicolon"));
            }
            if self.advance().is_none() {
                return None;
            }
            proof {
                assert(parse_extra_rule(before, invalid) == prepend(
                    seq![derivation@],
                    parse_extra_rule(self.state(), invalid),
                ));
                lemma_prepend_prepend(
                    acc,
                    seq![derivation@],
                    parse_extra_rule(self.state(), invalid),
                );
            }
            extrarulevec.push(derivation);
            assert(extrarulevec@.map_values(|d: Derivation| d@) =~= acc + seq![
                extrarulevec@.last()@,
            ]);
        }
        Some(Ok(ExtraRule(extrarulevec)))
    }
}

impl ParsingEngine {
    /// `nonterm ::= Derivation ; ExtraRule`
    fn rule(&mut self) -> (r: Option<Result<Rule, &'static str>>)
        requires
            old(self).wf(),
        ensures
            final(self).wf(),
            final(self).invalid_tail() == old(self).invalid_tail(),
            agrees(r, parse_rule(old(self).state(), old(self).invalid_tail()), final(self).state()),
    {
        if self.cur_tok.0 != Token::Nonterm {
            return Some(Err("Expected token: nonterm"));
        }
        let gotta_be_nonterm = duplicate_lexeme(&self.cur_tok);
        if self.advance().is_none() {
            return None;
        }
        if self.cur_tok.0 != Token::Produces {
            return Some(Err("Expected token: produces"));
        }
        if self.advance().is_none() {
            return None;
        }
        let derivation = match self.derivation() {
            None => return None,
            Some(Err(e)) => return Some(Err(e)),
            Some(Ok(d)) => d,
        };
        if self.cur_tok.0 != Token::Semicolon {
            return Some(Err("Expected token: semicolon"));
        }
        if self.advance().is_none() {
            return None;
        }
        let extrarule = match self.extra_rule() {
            None => return None,
            Some(Err(e)) => return Some(Err(e)),
            Some(Ok(e)) => e,
        };
        Some(Ok(Rule(gotta_be_nonterm, derivation, extrarule)))
    }

    /// `Rule*`
    #[verifier::loop_isolation(false)]
    fn rules(&mut self) -> (r: Option<Result<Rules, &'static str>>)
        requires
            old(self).wf(),
        ensures
            final(self).wf(),
            final(self).invalid_tail() == old(self).invalid_tail(),
            agrees(r, parse_rules(old(self).state(), old(self).invalid_tail()), final(self).state()),
    {
        let ghost invalid = self.invalid_tail();
        let ghost s0 = self.state();
        let mut rulevec: Vec<Rule> = Vec::new();
        proof {
            lemma_prepend_empty(parse_rules(s0, invalid));
        }
        while self.cur_tok.0 == Token::Nonterm
            invariant
                self.wf(),
                self.invalid_tail() == invalid,
                parse_rules(s0, invalid) == prepend(
                    rulevec@.map_values(|r: Rule| r@),
                    parse_rules(self.state(), invalid),
                ),
            decreases self.state().rest.len(),
        {
            let ghost before = self.state();
            let ghost acc = rulevec@.map_values(|r: Rule| r@);
            proof {
                lemma_rule_progress(before, invalid);
            }
            let rule = match self.rule() {
                None => return None,
                Some(Err(e)) => return Some(Err(e)),
                Some(Ok(r)) => r,
            };
            proof {
                assert(parse_rules(before, invalid) == prepend(
                    seq![rule@],
                    parse_rules(self.state(), invalid),
                ));
                lemma_prepend_prepend(acc, seq![rule@], parse_rules(self.state(), invalid));
            }
            rulevec.push(rule);
            assert(rulevec@.map_values(|r: Rule| r@) =~= acc + seq![rulevec@.last()@]);
        }
        Some(Ok(Rules(rulevec)))
    }

    /// Parses a whole grammar description; `None` when the parse would not
    /// return (see `Parsed::Stuck`).
    pub fn try_start(&mut self) -> (r: Option<Result<Start, &'static str>>)
        requires
            old(self).wf(),
        ensures
            final(self).wf(),
            final(self).invalid_tail() == old(self).invalid_tail(),
            agrees(r, parse_start(old(self).state(), old(self).invalid_tail()), final(self).state()),
    {
        let store = match self.store() {
            None => return None,
            Some(Err(e)) => return Some(Err(e)),
            Some(Ok(s)) => s,
        };
        let rules = match self.rules() {
            None => return None,
            Some(Err(e)) => return Some(Err(e)),
            Some(Ok(r)) => r,
        };
        Some(Ok(Start(store, rules)))
    }

    /// Parses a whole grammar description: the stored terminals, then the
    /// rules.
    pub fn start(&mut self) -> (r: Result<Start, &'static str>)
        requires
            old(self).wf(),
            !(parse_start(old(self).state(), old(self).invalid_tail()) is Stuck),
        ensures
            final(self).wf(),
            final(self).invalid_tail() == old(self).invalid_tail(),
            agrees(
                Some(r),
                parse_start(old(self).state(), old(self).invalid_tail()),
                final(self).state(),
            ),
    {
        self.try_start().unwrap()
    }
}

} // verus!
