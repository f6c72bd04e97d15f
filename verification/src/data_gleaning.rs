// Turns a parsed grammar description into numbered productions.
use crate::internal_lexer::{Attr, SpecAttr, SpecLexeme, Token};
use crate::internal_parser::{
    self,
    PState,
    Parsed,
    Rules,
    SpecRule,
    SpecStart,
    Start,
    Store,
    derivation_named,
    is_symbol_token,
    lemma_start_named,
    parse_start,
    pstate_named,
    rule_named,
    start_named,
    store_named,
    symbols_named,
};
use vstd::prelude::*;

verus! {

/// A terminal, by number; `Term(0)` is the end marker `$`.
#[derive(Clone, Copy, PartialEq, Eq, Structural, Hash, Debug)]
pub struct Term(pub i32);

/// A nonterminal, by number; `Nonterm(0)` is the start symbol `S`.
#[derive(Clone, Copy, PartialEq, Eq, Structural, Hash, Debug)]
pub struct Nonterm(pub i32);

#[derive(Clone, Copy, PartialEq, Eq, Structural, Hash, Debug)]
pub enum Symbol {
    T(Term),
    N(Nonterm),
}

/// The right-hand side of a production: empty, or a string of symbols.
#[derive(Clone, Debug, PartialEq, Eq)]
pub enum Derivation {
    Null,
    Symbols(Vec<Symbol>),
}

#[derive(Clone, Debug, PartialEq, Eq)]
pub struct Production {
    pub nonterm: Nonterm,
    pub derivation: Derivation,
}

/// What a grammar description says: its productions, the terminals whose
/// text is to be kept, and the name of every terminal and nonterminal.
///
/// `reverse_term_map` holds `(Term(i), name)` at index `i`, and likewise
/// `reverse_nonterm_map`; the names in each are distinct, and so are the
/// terminals in `terms_to_store`.
#[derive(Clone)]
pub struct ParserData {
    pub productions: Vec<Production>,
    pub terms_to_store: Vec<Term>,
    pub reverse_term_map: Vec<(Term, String)>,
    pub reverse_nonterm_map: Vec<(Nonterm, String)>,
}

pub enum SpecDerivation {
    Null,
    Symbols(Seq<Symbol>),
}

pub struct SpecProduction {
    pub nonterm: Nonterm,
    pub derivation: SpecDerivation,
}

pub struct SpecParserData {
    pub productions: Seq<SpecProduction>,
    pub terms_to_store: Set<Term>,
    pub reverse_term_map: Seq<(Term, Seq<char>)>,
    pub reverse_nonterm_map: Seq<(Nonterm, Seq<char>)>,
}

impl View for Derivation {
    type V = SpecDerivation;

    open spec fn view(&self) -> SpecDerivation {
        match self {
            Derivation::Null => SpecDerivation::Null,
            Derivation::Symbols(v) => SpecDerivation::Symbols(v@),
        }
    }
}

impl View for Production {
    type V = SpecProduction;

    open spec fn view(&self) -> SpecProduction {
        SpecProduction { nonterm: self.nonterm, derivation: self.derivation@ }
    }
}

pub open spec fn productions_view(v: Seq<Production>) -> Seq<SpecProduction> {
    v.map_values(|p: Production| p@)
}

pub open spec fn strings_view(v: Seq<String>) -> Seq<Seq<char>> {
    v.map_values(|s: String| s@)
}

impl View for ParserData {
    type V = SpecParserData;

    open spec fn view(&self) -> SpecParserData {
        SpecParserData {
            productions: productions_view(self.productions@),
            terms_to_store: self.terms_to_store@.to_set(),
            reverse_term_map: self.reverse_term_map@.map_values(|e: (Term, String)| (e.0, e.1@)),
            reverse_nonterm_map: self.reverse_nonterm_map@.map_values(
                |e: (Nonterm, String)| (e.0, e.1@),
            ),
        }
    }
}

impl Derivation {
    /// A copy with the same value.
    pub fn duplicate(&self) -> (r: Derivation)
        ensures
            r@ == self@,
    {
        match self {
            Derivation::Null => Derivation::Null,
            Derivation::Symbols(v) => {
                let mut w: Vec<Symbol> = Vec::new();
                for i in 0..v.len()
                    invariant
                        w@ == v@.subrange(0, i as int),
                {
                    w.push(v[i]);
                }
                assert(w@ == v@);
                Derivation::Symbols(w)
            },
        }
    }
}

impl Production {
    /// A copy with the same value.
    pub fn duplicate(&self) -> (r: Production)
        ensures
            r@ == self@,
    {
        Production { nonterm: self.nonterm, derivation: self.derivation.duplicate() }
    }
}

// ---------------------------------------------------------------------
// What gleaning does, as spec functions.
// ---------------------------------------------------------------------

/// Names numbered by their position; a new name gets the next number.
pub open spec fn intern(names: Seq<Seq<char>>, n: Seq<char>) -> Seq<Seq<char>> {
    if names.contains(n) {
        names
    } else {
        names.push(n)
    }
}

/// The number of a name.
pub open spec fn name_id(names: Seq<Seq<char>>, n: Seq<char>) -> i32 {
    names.index_of(n) as i32
}

/// The names seen so far and the productions built so far.
pub struct GleanState {
    pub terms: Seq<Seq<char>>,
    pub nonterms: Seq<Seq<char>>,
    pub prods: Seq<SpecProduction>,
}

/// Before any rule: `$` is terminal 0 and `S` nonterminal 0.
pub open spec fn initial_glean_state() -> GleanState {
    GleanState { terms: seq![seq!['$']], nonterms: seq![seq!['S']], prods: seq![] }
}

/// One symbol of a derivation: nonterminals and terminals are numbered,
/// other tokens are left out; a token without a name is refused (`None`).
pub open spec fn glean_symbol(st: GleanState, l: SpecLexeme) -> Option<(GleanState, Option<Symbol>)> {
    match l.1 {
        SpecAttr::AttrString(name) => if l.0 == Token::Nonterm {
            let nn = intern(st.nonterms, name);
            Some(
                (
                    GleanState { nonterms: nn, ..st },
                    Some(Symbol::N(Nonterm(name_id(nn, name)))),
                ),
            )
        } else if l.0 == Token::Term {
            let tn = intern(st.terms, name);
            Some((GleanState { terms: tn, ..st }, Some(Symbol::T(Term(name_id(tn, name))))))
        } else {
            Some((st, None))
        },
        SpecAttr::Skip => None,
    }
}

pub open spec fn glean_symbols(st: GleanState, syms: Seq<SpecLexeme>) -> Option<
    (GleanState, Seq<Symbol>),
>
    decreases syms.len(),
{
    if syms.len() == 0 {
        Some((st, seq![]))
    } else {
        match glean_symbols(st, syms.drop_last()) {
            None => None,
            Some((st1, out)) => match glean_symbol(st1, syms.last()) {
                None => None,
                Some((st2, o)) => Some(
                    (
                        st2,
                        match o {
                            Some(x) => out.push(x),
                            None => out,
                        },
                    ),
                ),
            },
        }
    }
}

/// One derivation of a rule becomes one production of `head`.
pub open spec fn glean_derivation(
    st: GleanState,
    head: Nonterm,
    d: internal_parser::SpecDerivation,
) -> Option<GleanState> {
    match d {
        internal_parser::SpecDerivation::A => Some(
            GleanState {
                prods: st.prods.push(
                    SpecProduction { nonterm: head, derivation: SpecDerivation::Null },
                ),
                ..st
            },
        ),
        internal_parser::SpecDerivation::B(syms) => match glean_symbols(st, syms) {
            None => None,
            Some((st1, out)) => Some(
                GleanState {
                    prods: st1.prods.push(
                        SpecProduction { nonterm: head, derivation: SpecDerivation::Symbols(out) },
                    ),
                    ..st1
                },
            ),
        },
    }
}

pub open spec fn glean_extras(
    st: GleanState,
    head: Nonterm,
    ds: Seq<internal_parser::SpecDerivation>,
) -> Option<GleanState>
    decreases ds.len(),
{
    if ds.len() == 0 {
        Some(st)
    } else {
        match glean_extras(st, head, ds.drop_last()) {
            None => None,
            Some(st1) => glean_derivation(st1, head, ds.last()),
        }
    }
}

/// A rule: its nonterminal is numbered, then each of its derivations
/// becomes a production; a rule whose head is not a named nonterminal is
/// refused.
pub open spec fn glean_rule(st: GleanState, r: SpecRule) -> Option<GleanState> {
    match r.head.1 {
        SpecAttr::AttrString(name) => if r.head.0 == Token::Nonterm {
            let nn = intern(st.nonterms, name);
            let head = Nonterm(name_id(nn, name));
            match glean_derivation(GleanState { nonterms: nn, ..st }, head, r.derivation) {
                None => None,
                Some(st1) => glean_extras(st1, head, r.extra),
            }
        } else {
            None
        },
        SpecAttr::Skip => None,
    }
}

/// The rules in order, starting from the names and productions of `st`.
pub open spec fn glean_rules_from(st: GleanState, rules: Seq<SpecRule>) -> Option<GleanState>
    decreases rules.len(),
{
    if rules.len() == 0 {
        Some(st)
    } else {
        match glean_rules_from(st, rules.drop_last()) {
            None => None,
            Some(st1) => glean_rule(st1, rules.last()),
        }
    }
}

/// The rules in order, starting from `$` and `S` and no production.
pub open spec fn glean_rules(rules: Seq<SpecRule>) -> Option<GleanState> {
    glean_rules_from(initial_glean_state(), rules)
}

/// The names of `a` are the first names of `b`, with the same numbers.
pub open spec fn names_kept(a: Seq<String>, b: Seq<String>) -> bool {
    &&& a.len() <= b.len()
    &&& forall|i: int| 0 <= i < a.len() ==> #[trigger] b[i]@ == a[i]@
}

/// The stored terminals, by number; each must be a terminal named in a rule.
pub open spec fn glean_store(terms: Seq<Seq<char>>, store: Seq<SpecLexeme>) -> Option<Set<Term>>
    decreases store.len(),
{
    if store.len() == 0 {
        Some(Set::empty())
    } else {
        match glean_store(terms, store.drop_last()) {
            None => None,
            Some(set) => {
                let l = store.last();
                match l.1 {
                    SpecAttr::AttrString(name) => if l.0 == Token::Term && terms.contains(name) {
                        Some(set.insert(Term(name_id(terms, name))))
                    } else {
                        None
                    },
                    SpecAttr::Skip => None,
                }
            },
        }
    }
}

pub open spec fn numbered_terms(names: Seq<Seq<char>>) -> Seq<(Term, Seq<char>)> {
    Seq::new(names.len(), |i: int| (Term(i as i32), names[i]))
}

pub open spec fn numbered_nonterms(names: Seq<Seq<char>>) -> Seq<(Nonterm, Seq<char>)> {
    Seq::new(names.len(), |i: int| (Nonterm(i as i32), names[i]))
}

/// The data of a grammar description; `None` where it is refused.
pub open spec fn glean(ast: SpecStart) -> Option<SpecParserData> {
    match glean_rules(ast.rules) {
        None => None,
        Some(st) => match glean_store(st.terms, ast.store) {
            None => None,
            Some(stored) => Some(
                SpecParserData {
                    productions: st.prods,
                    terms_to_store: stored,
                    reverse_term_map: numbered_terms(st.terms),
                    reverse_nonterm_map: numbered_nonterms(st.nonterms),
                },
            ),
        },
    }
}

/// Gleaning succeeds and every number fits in an `i32`.
pub open spec fn gleanable(ast: SpecStart) -> bool {
    &&& glean(ast) is Some
    &&& glean_rules(ast.rules)->Some_0.terms.len() <= i32::MAX
    &&& glean_rules(ast.rules)->Some_0.nonterms.len() <= i32::MAX
}

// ---------------------------------------------------------------------
// Lemmas: the name lists only grow.
// ---------------------------------------------------------------------

pub open spec fn grows(a: GleanState, b: GleanState) -> bool {
    a.terms.len() <= b.terms.len() && a.nonterms.len() <= b.nonterms.len()
}

proof fn lemma_glean_symbol_grows(st: GleanState, l: SpecLexeme)
    ensures
        glean_symbol(st, l) matches Some((st2, _)) ==> grows(st, st2),
{
}

proof fn lemma_glean_symbols_prefix(st: GleanState, syms: Seq<SpecLexeme>, j: int)
    requires
        0 <= j <= syms.len(),
        glean_symbols(st, syms) is Some,
    ensures
        glean_symbols(st, syms.take(j)) is Some,
        grows(st, glean_symbols(st, syms.take(j))->Some_0.0),
        grows(glean_symbols(st, syms.take(j))->Some_0.0, glean_symbols(st, syms)->Some_0.0),
    decreases syms.len(),
{
    if syms.len() == 0 {
        assert(syms.take(j) =~= syms);
    } else if j == syms.len() {
        assert(syms.take(j) =~= syms);
        lemma_glean_symbols_prefix(st, syms.drop_last(), j - 1);
        assert(syms.drop_last().take(j - 1) =~= syms.drop_last());
        lemma_glean_symbol_grows(glean_symbols(st, syms.drop_last())->Some_0.0, syms.last());
    } else {
        lemma_glean_symbols_prefix(st, syms.drop_last(), j);
        assert(syms.drop_last().take(j) =~= syms.take(j));
        lemma_glean_symbols_prefix(st, syms.drop_last(), syms.len() - 1);
        assert(syms.drop_last().take(syms.len() - 1) =~= syms.drop_last());
        lemma_glean_symbol_grows(glean_symbols(st, syms.drop_last())->Some_0.0, syms.last());
    }
}

proof fn lemma_glean_derivation_grows(st: GleanState, head: Nonterm, d: internal_parser::SpecDerivation)
    ensures
        glean_derivation(st, head, d) matches Some(st2) ==> grows(st, st2),
{
    if let internal_parser::SpecDerivation::B(syms) = d {
        if glean_symbols(st, syms) is Some {
            lemma_glean_symbols_prefix(st, syms, syms.len() as int);
            assert(syms.take(syms.len() as int) =~= syms);
        }
    }
}

proof fn lemma_glean_extras_prefix(
    st: GleanState,
    head: Nonterm,
    ds: Seq<internal_parser::SpecDerivation>,
    j: int,
)
    requires
        0 <= j <= ds.len(),
        glean_extras(st, head, ds) is Some,
    ensures
        glean_extras(st, head, ds.take(j)) is Some,
        grows(st, glean_extras(st, head, ds.take(j))->Some_0),
        grows(glean_extras(st, head, ds.take(j))->Some_0, glean_extras(st, head, ds)->Some_0),
    decreases ds.len(),
{
    if ds.len() == 0 {
        assert(ds.take(j) =~= ds);
    } else if j == ds.len() {
        assert(ds.take(j) =~= ds);
        lemma_glean_extras_prefix(st, head, ds.drop_last(), j - 1);
        assert(ds.drop_last().take(j - 1) =~= ds.drop_last());
        lemma_glean_derivation_grows(glean_extras(st, head, ds.drop_last())->Some_0, head, ds.last());
    } else {
        lemma_glean_extras_prefix(st, head, ds.drop_last(), j);
        assert(ds.drop_last().take(j) =~= ds.take(j));
        lemma_glean_extras_prefix(st, head, ds.drop_last(), ds.len() - 1);
        assert(ds.drop_last().take(ds.len() - 1) =~= ds.drop_last());
        lemma_glean_derivation_grows(glean_extras(st, head, ds.drop_last())->Some_0, head, ds.last());
    }
}

proof fn lemma_glean_rule_grows(st: GleanState, r: SpecRule)
    ensures
        glean_rule(st, r) matches Some(st2) ==> grows(st, st2),
{
    if let SpecAttr::AttrString(name) = r.head.1 {
        if r.head.0 == Token::Nonterm {
            let nn = intern(st.nonterms, name);
            let head = Nonterm(name_id(nn, name));
            let st0 = GleanState { nonterms: nn, ..st };
            lemma_glean_derivation_grows(st0, head, r.derivation);
            if let Some(st1) = glean_derivation(st0, head, r.derivation) {
                if glean_extras(st1, head, r.extra) is Some {
                    lemma_glean_extras_prefix(st1, head, r.extra, r.extra.len() as int);
                    assert(r.extra.take(r.extra.len() as int) =~= r.extra);
                }
            }
        }
    }
}

/// The steps of a rule that is gleaned successfully.
proof fn lemma_glean_rule_parts(st: GleanState, r: SpecRule, name: Seq<char>)
    requires
        glean_rule(st, r) is Some,
        r.head.1 == SpecAttr::AttrString(name),
    ensures
        ({
            let nn = intern(st.nonterms, name);
            let head = Nonterm(name_id(nn, name));
            let st0 = GleanState { nonterms: nn, ..st };
            &&& r.head.0 == Token::Nonterm
            &&& glean_derivation(st0, head, r.derivation) is Some
            &&& grows(st0, glean_derivation(st0, head, r.derivation)->Some_0)
            &&& glean_extras(glean_derivation(st0, head, r.derivation)->Some_0, head, r.extra)
                == glean_rule(st, r)
            &&& grows(glean_derivation(st0, head, r.derivation)->Some_0, glean_rule(st, r)->Some_0)
        }),
{
    let nn = intern(st.nonterms, name);
    let head = Nonterm(name_id(nn, name));
    let st0 = GleanState { nonterms: nn, ..st };
    lemma_glean_derivation_grows(st0, head, r.derivation);
    let st1 = glean_derivation(st0, head, r.derivation)->Some_0;
    lemma_glean_extras_prefix(st1, head, r.extra, r.extra.len() as int);
    assert(r.extra.take(r.extra.len() as int) =~= r.extra);
}

proof fn lemma_glean_rules_prefix(st: GleanState, rules: Seq<SpecRule>, j: int)
    requires
        0 <= j <= rules.len(),
        glean_rules_from(st, rules) is Some,
    ensures
        glean_rules_from(st, rules.take(j)) is Some,
        grows(glean_rules_from(st, rules.take(j))->Some_0, glean_rules_from(st, rules)->Some_0),
    decreases rules.len(),
{
    if rules.len() == 0 {
        assert(rules.take(j) =~= rules);
    } else if j == rules.len() {
        assert(rules.take(j) =~= rules);
    } else {
        lemma_glean_rules_prefix(st, rules.drop_last(), j);
        assert(rules.drop_last().take(j) =~= rules.take(j));
        lemma_glean_rule_grows(glean_rules_from(st, rules.drop_last())->Some_0, rules.last());
    }
}

// ---------------------------------------------------------------------
// Laws: the numbering.
// ---------------------------------------------------------------------

pub open spec fn symbol_in_range(s: Symbol, n_terms: int, n_nonterms: int) -> bool {
    match s {
        Symbol::T(t) => 0 <= t.0 < n_terms,
        Symbol::N(n) => 0 <= n.0 < n_nonterms,
    }
}

/// Every number in `p` names a terminal or a nonterminal.
pub open spec fn production_in_range(p: SpecProduction, n_terms: int, n_nonterms: int) -> bool {
    &&& 0 <= p.nonterm.0 < n_nonterms
    &&& match p.derivation {
        SpecDerivation::Null => true,
        SpecDerivation::Symbols(syms) => forall|j: int|
            0 <= j < syms.len() ==> symbol_in_range(#[trigger] syms[j], n_terms, n_nonterms),
    }
}

/// The names are distinct, `$` and `S` are number 0, and the productions
/// use only numbers that name something.
pub open spec fn numbering_ok(st: GleanState) -> bool {
    &&& st.terms.no_duplicates()
    &&& st.nonterms.no_duplicates()
    &&& st.terms.len() >= 1
    &&& st.terms[0] == seq!['$']
    &&& st.nonterms.len() >= 1
    &&& st.nonterms[0] == seq!['S']
    &&& forall|i: int|
        0 <= i < st.prods.len() ==> production_in_range(
            #[trigger] st.prods[i],
            st.terms.len() as int,
            st.nonterms.len() as int,
        )
}

pub open spec fn bounded(st: GleanState) -> bool {
    st.terms.len() <= i32::MAX && st.nonterms.len() <= i32::MAX
}

proof fn lemma_intern(names: Seq<Seq<char>>, n: Seq<char>)
    requires
        names.no_duplicates(),
        intern(names, n).len() <= i32::MAX,
    ensures
        intern(names, n).no_duplicates(),
        names.len() <= intern(names, n).len(),
        forall|i: int| 0 <= i < names.len() ==> #[trigger] intern(names, n)[i] == names[i],
        0 <= name_id(intern(names, n), n) < intern(names, n).len(),
        intern(names, n)[name_id(intern(names, n), n) as int] == n,
{
    let nn = intern(names, n);
    if !names.contains(n) {
        assert(nn[names.len() as int] == n);
    }
    assert(nn.contains(n));
    let c = nn.index_of(n);
    assert(0 <= c < nn.len() && nn[c] == n);
}

proof fn lemma_numbering_grows(st: GleanState, st2: GleanState)
    requires
        numbering_ok(st),
        st2.prods == st.prods,
        st2.terms.no_duplicates(),
        st2.nonterms.no_duplicates(),
        st.terms.len() <= st2.terms.len(),
        st.nonterms.len() <= st2.nonterms.len(),
        st2.terms[0] == st.terms[0],
        st2.nonterms[0] == st.nonterms[0],
    ensures
        numbering_ok(st2),
{
    assert forall|i: int| 0 <= i < st2.prods.len() implies production_in_range(
        #[trigger] st2.prods[i],
        st2.terms.len() as int,
        st2.nonterms.len() as int,
    ) by {
        assert(production_in_range(st.prods[i], st.terms.len() as int, st.nonterms.len() as int));
        if let SpecDerivation::Symbols(syms) = st.prods[i].derivation {
            assert forall|j: int| 0 <= j < syms.len() implies symbol_in_range(
                #[trigger] syms[j],
                st2.terms.len() as int,
                st2.nonterms.len() as int,
            ) by {
                assert(symbol_in_range(syms[j], st.terms.len() as int, st.nonterms.len() as int));
            }
        }
    }
}

proof fn lemma_glean_symbol_numbering(st: GleanState, l: SpecLexeme)
    requires
        numbering_ok(st),
        glean_symbol(st, l) matches Some((st2, _)) && bounded(st2),
    ensures
        numbering_ok(glean_symbol(st, l)->Some_0.0),
        glean_symbol(st, l)->Some_0.0.prods == st.prods,
        glean_symbol(st, l)->Some_0.1 matches Some(x) ==> symbol_in_range(
            x,
            glean_symbol(st, l)->Some_0.0.terms.len() as int,
            glean_symbol(st, l)->Some_0.0.nonterms.len() as int,
        ),
{
    if let SpecAttr::AttrString(name) = l.1 {
        if l.0 == Token::Nonterm {
            lemma_intern(st.nonterms, name);
            lemma_numbering_grows(st, glean_symbol(st, l)->Some_0.0);
        } else if l.0 == Token::Term {
            lemma_intern(st.terms, name);
            lemma_numbering_grows(st, glean_symbol(st, l)->Some_0.0);
        }
    }
}

proof fn lemma_glean_symbols_numbering(st: GleanState, syms: Seq<SpecLexeme>)
    requires
        numbering_ok(st),
        glean_symbols(st, syms) matches Some((st2, _)) && bounded(st2),
    ensures
        ({
            let (st2, out) = glean_symbols(st, syms)->Some_0;
            &&& numbering_ok(st2)
            &&& st2.prods == st.prods
            &&& forall|j: int|
                0 <= j < out.len() ==> symbol_in_range(
                    #[trigger] out[j],
                    st2.terms.len() as int,
                    st2.nonterms.len() as int,
                )
        }),
    decreases syms.len(),
{
    if syms.len() > 0 {
        let (st1, out1) = glean_symbols(st, syms.drop_last())->Some_0;
        lemma_glean_symbol_grows(st1, syms.last());
        lemma_glean_symbols_numbering(st, syms.drop_last());
        lemma_glean_symbol_numbering(st1, syms.last());
        let (st2, out) = glean_symbols(st, syms)->Some_0;
        assert forall|j: int| 0 <= j < out.len() implies symbol_in_range(
            #[trigger] out[j],
            st2.terms.len() as int,
            st2.nonterms.len() as int,
        ) by {
            if j < out1.len() {
                assert(out[j] == out1[j]);
                assert(symbol_in_range(out1[j], st1.terms.len() as int, st1.nonterms.len() as int));
            }
        }
    }
}

proof fn lemma_glean_derivation_numbering(
    st: GleanState,
    head: Nonterm,
    d: internal_parser::SpecDerivation,
)
    requires
        numbering_ok(st),
        0 <= head.0 < st.nonterms.len(),
        glean_derivation(st, head, d) matches Some(st2) && bounded(st2),
    ensures
        numbering_ok(glean_derivation(st, head, d)->Some_0),
{
    let st2 = glean_derivation(st, head, d)->Some_0;
    match d {
        internal_parser::SpecDerivation::A => {
            assert(production_in_range(
                st2.prods.last(),
                st2.terms.len() as int,
                st2.nonterms.len() as int,
            ));
            assert forall|i: int| 0 <= i < st2.prods.len() implies production_in_range(
                #[trigger] st2.prods[i],
                st2.terms.len() as int,
                st2.nonterms.len() as int,
            ) by {
                if i < st.prods.len() {
                    assert(st2.prods[i] == st.prods[i]);
                }
            }
        },
        internal_parser::SpecDerivation::B(syms) => {
            let (st1, out) = glean_symbols(st, syms)->Some_0;
            lemma_glean_symbols_prefix(st, syms, syms.len() as int);
            assert(syms.take(syms.len() as int) =~= syms);
            lemma_glean_symbols_numbering(st, syms);
            assert(production_in_range(
                st2.prods.last(),
                st2.terms.len() as int,
                st2.nonterms.len() as int,
            ));
            assert forall|i: int| 0 <= i < st2.prods.len() implies production_in_range(
                #[trigger] st2.prods[i],
                st2.terms.len() as int,
                st2.nonterms.len() as int,
            ) by {
                if i < st1.prods.len() {
                    assert(st2.prods[i] == st1.prods[i]);
                }
            }
        },
    }
}

proof fn lemma_glean_extras_numbering(
    st: GleanState,
    head: Nonterm,
    ds: Seq<internal_parser::SpecDerivation>,
)
    requires
        numbering_ok(st),
        0 <= head.0 < st.nonterms.len(),
        glean_extras(st, head, ds) matches Some(st2) && bounded(st2),
    ensures
        numbering_ok(glean_extras(st, head, ds)->Some_0),
    decreases ds.len(),
{
    if ds.len() > 0 {
        lemma_glean_extras_prefix(st, head, ds, ds.len() - 1);
        assert(ds.take(ds.len() - 1) =~= ds.drop_last());
        lemma_glean_extras_numbering(st, head, ds.drop_last());
        let st1 = glean_extras(st, head, ds.drop_last())->Some_0;
        lemma_glean_derivation_numbering(st1, head, ds.last());
    }
}

proof fn lemma_glean_rule_numbering(st: GleanState, r: SpecRule)
    requires
        numbering_ok(st),
        glean_rule(st, r) matches Some(st2) && bounded(st2),
    ensures
        numbering_ok(glean_rule(st, r)->Some_0),
{
    let name = r.head.1->AttrString_0;
    lemma_glean_rule_parts(st, r, name);
    let nn = intern(st.nonterms, name);
    let head = Nonterm(name_id(nn, name));
    let st0 = GleanState { nonterms: nn, ..st };
    lemma_intern(st.nonterms, name);
    lemma_numbering_grows(st, st0);
    let st1 = glean_derivation(st0, head, r.derivation)->Some_0;
    lemma_glean_derivation_numbering(st0, head, r.derivation);
    lemma_glean_extras_numbering(st1, head, r.extra);
}

proof fn lemma_glean_rules_numbering(rules: Seq<SpecRule>)
    requires
        glean_rules(rules) matches Some(st) && bounded(st),
    ensures
        numbering_ok(glean_rules(rules)->Some_0),
    decreases rules.len(),
{
    if rules.len() == 0 {
        assert(initial_glean_state().terms.no_duplicates());
        assert(initial_glean_state().nonterms.no_duplicates());
    } else {
        lemma_glean_rules_prefix(initial_glean_state(), rules, rules.len() - 1);
        assert(rules.take(rules.len() - 1) =~= rules.drop_last());
        lemma_glean_rules_numbering(rules.drop_last());
        lemma_glean_rule_numbering(glean_rules(rules.drop_last())->Some_0, rules.last());
    }
}

proof fn lemma_glean_store_range(terms: Seq<Seq<char>>, store: Seq<SpecLexeme>)
    requires
        terms.len() <= i32::MAX,
        glean_store(terms, store) is Some,
    ensures
        forall|t: Term|
            #[trigger] glean_store(terms, store)->Some_0.contains(t) ==> 0 <= t.0 < terms.len(),
    decreases store.len(),
{
    if store.len() > 0 {
        lemma_glean_store_range(terms, store.drop_last());
        let name = store.last().1->AttrString_0;
        let c = terms.index_of(name);
        assert(0 <= c < terms.len());
    }
}

/// The numbering of an accepted grammar description: `S` is nonterminal 0
/// and `$` terminal 0, no name has two numbers, and every number in the
/// productions and in the stored terminals names a terminal or nonterminal.
pub proof fn lemma_numbering(ast: SpecStart)
    requires
        gleanable(ast),
    ensures
        ({
            let d = glean(ast)->Some_0;
            let nt = d.reverse_term_map.len() as int;
            let nn = d.reverse_nonterm_map.len() as int;
            &&& nt >= 1 && d.reverse_term_map[0] == (Term(0), seq!['$'])
            &&& nn >= 1 && d.reverse_nonterm_map[0] == (Nonterm(0), seq!['S'])
            &&& forall|i: int, j: int|
                0 <= i < nt && 0 <= j < nt && i != j ==> #[trigger] d.reverse_term_map[i].1
                    != #[trigger] d.reverse_term_map[j].1
            &&& forall|i: int, j: int|
                0 <= i < nn && 0 <= j < nn && i != j ==> #[trigger] d.reverse_nonterm_map[i].1
                    != #[trigger] d.reverse_nonterm_map[j].1
            &&& forall|i: int|
                0 <= i < d.productions.len() ==> production_in_range(
                    #[trigger] d.productions[i],
                    nt,
                    nn,
                )
            &&& forall|t: Term| #[trigger] d.terms_to_store.contains(t) ==> 0 <= t.0 < nt
        }),
{
    let st = glean_rules(ast.rules)->Some_0;
    lemma_glean_rules_numbering(ast.rules);
    lemma_glean_store_range(st.terms, ast.store);
}

// ---------------------------------------------------------------------
// Laws: each derivation of each rule becomes one production.
// ---------------------------------------------------------------------

/// The derivations of the rules in order, the first of each rule and then
/// those after `|`, each with the head of its rule.
pub open spec fn rule_derivations(rules: Seq<SpecRule>) -> Seq<(SpecLexeme, internal_parser::SpecDerivation)>
    decreases rules.len(),
{
    if rules.len() == 0 {
        seq![]
    } else {
        let r = rules.last();
        rule_derivations(rules.drop_last()) + (seq![r.derivation] + r.extra).map_values(
            |d: internal_parser::SpecDerivation| (r.head, d),
        )
    }
}

/// `t` is numbered in `names` with the text `w`.
pub open spec fn term_named(names: Seq<(Term, Seq<char>)>, t: Term, w: Seq<char>) -> bool {
    0 <= t.0 < names.len() && names[t.0 as int] == (t, w)
}

/// `n` is numbered in `names` with the text `w`.
pub open spec fn nonterm_named(names: Seq<(Nonterm, Seq<char>)>, n: Nonterm, w: Seq<char>) -> bool {
    0 <= n.0 < names.len() && names[n.0 as int] == (n, w)
}

/// `s` is the token `l` by number: a terminal or nonterminal with the text of `l`.
pub open spec fn symbol_of(d: SpecParserData, s: Symbol, l: SpecLexeme) -> bool {
    &&& l.1 is AttrString
    &&& l.0 == Token::Term ==> (s matches Symbol::T(t) && term_named(d.reverse_term_map, t, l.1->AttrString_0))
    &&& l.0 == Token::Nonterm ==> (s matches Symbol::N(n) && nonterm_named(
        d.reverse_nonterm_map,
        n,
        l.1->AttrString_0,
    ))
}

/// `p` is the production of derivation `dv` of a rule with head `head`: the
/// nonterminal of `p` has the head's text, `p` is empty exactly when `dv`
/// is `null`, and otherwise its symbols are those of `dv`, one for one.
pub open spec fn production_of(
    d: SpecParserData,
    p: SpecProduction,
    head: SpecLexeme,
    dv: internal_parser::SpecDerivation,
) -> bool {
    &&& head.1 is AttrString
    &&& nonterm_named(d.reverse_nonterm_map, p.nonterm, head.1->AttrString_0)
    &&& match dv {
        internal_parser::SpecDerivation::A => p.derivation == SpecDerivation::Null,
        internal_parser::SpecDerivation::B(syms) => p.derivation matches SpecDerivation::Symbols(out)
            && out.len() == syms.len() && forall|j: int| 0 <= j < syms.len() ==> symbol_of(d, #[trigger] out[j], syms[j]),
    }
}

/// The productions are the derivations of the rules, one for one and in
/// order: a rule `N ::= d0 ; | d1 ; ... | dk ;` gives `k + 1` productions of
/// `N`, and each keeps every symbol of its derivation.
pub proof fn lemma_productions_follow_rules(ast: SpecStart)
    requires
        gleanable(ast),
        forall|i: int| 0 <= i < ast.rules.len() ==> rule_named(#[trigger] ast.rules[i]),
    ensures
        ({
            let d = glean(ast)->Some_0;
            let rd = rule_derivations(ast.rules);
            &&& d.productions.len() == rd.len()
            &&& forall|x: int| 0 <= x < rd.len() ==> production_of(d, #[trigger] d.productions[x], rd[x].0, rd[x].1)
        }),
{
    let st = glean_rules(ast.rules)->Some_0;
    let st0 = initial_glean_state();
    lemma_rules_for(st0, ast.rules);
    let d = glean(ast)->Some_0;
    let rd = rule_derivations(ast.rules);
    assert forall|x: int| 0 <= x < rd.len() implies production_of(d, #[trigger] d.productions[x], rd[x].0, rd[x].1) by {
        assert(production_for(st, st.prods[st0.prods.len() + x], rd[x].0, rd[x].1));
        lemma_production_for_data(st, d, st.prods[x], rd[x].0, rd[x].1);
    }
}

/// The names of `a` are the first names of `b`.
pub open spec fn names_extend(a: GleanState, b: GleanState) -> bool {
    &&& a.terms.len() <= b.terms.len()
    &&& a.nonterms.len() <= b.nonterms.len()
    &&& forall|i: int| 0 <= i < a.terms.len() ==> #[trigger] b.terms[i] == a.terms[i]
    &&& forall|i: int| 0 <= i < a.nonterms.len() ==> #[trigger] b.nonterms[i] == a.nonterms[i]
}

/// The productions of `a` are the first productions of `b`.
pub open spec fn prods_extend(a: GleanState, b: GleanState) -> bool {
    &&& a.prods.len() <= b.prods.len()
    &&& forall|i: int| 0 <= i < a.prods.len() ==> #[trigger] b.prods[i] == a.prods[i]
}

pub open spec fn symbol_for(st: GleanState, s: Symbol, l: SpecLexeme) -> bool {
    &&& l.1 is AttrString
    &&& l.0 == Token::Term ==> (s matches Symbol::T(t) && 0 <= t.0 < st.terms.len() && st.terms[t.0 as int]
        == l.1->AttrString_0)
    &&& l.0 == Token::Nonterm ==> (s matches Symbol::N(n) && 0 <= n.0 < st.nonterms.len()
        && st.nonterms[n.0 as int] == l.1->AttrString_0)
}

pub open spec fn derivation_for(st: GleanState, pd: SpecDerivation, dv: internal_parser::SpecDerivation) -> bool {
    match dv {
        internal_parser::SpecDerivation::A => pd == SpecDerivation::Null,
        internal_parser::SpecDerivation::B(syms) => pd matches SpecDerivation::Symbols(out) && out.len()
            == syms.len() && forall|j: int| 0 <= j < syms.len() ==> symbol_for(st, #[trigger] out[j], syms[j]),
    }
}

pub open spec fn production_for(
    st: GleanState,
    p: SpecProduction,
    head: SpecLexeme,
    dv: internal_parser::SpecDerivation,
) -> bool {
    &&& head.1 is AttrString
    &&& 0 <= p.nonterm.0 < st.nonterms.len()
    &&& st.nonterms[p.nonterm.0 as int] == head.1->AttrString_0
    &&& derivation_for(st, p.derivation, dv)
}

proof fn lemma_names_extend_trans(a: GleanState, b: GleanState, c: GleanState)
    requires
        names_extend(a, b),
        names_extend(b, c),
    ensures
        names_extend(a, c),
{
}

proof fn lemma_derivation_for_extend(a: GleanState, b: GleanState, pd: SpecDerivation, dv: internal_parser::SpecDerivation)
    requires
        names_extend(a, b),
        derivation_for(a, pd, dv),
    ensures
        derivation_for(b, pd, dv),
{
    if let internal_parser::SpecDerivation::B(syms) = dv {
        let out = pd->Symbols_0;
        assert forall|j: int| 0 <= j < syms.len() implies symbol_for(b, #[trigger] out[j], syms[j]) by {
            assert(symbol_for(a, out[j], syms[j]));
        }
    }
}

proof fn lemma_production_for_extend(a: GleanState, b: GleanState, p: SpecProduction, h: SpecLexeme, dv: internal_parser::SpecDerivation)
    requires
        names_extend(a, b),
        production_for(a, p, h, dv),
    ensures
        production_for(b, p, h, dv),
{
    lemma_derivation_for_extend(a, b, p.derivation, dv);
}

proof fn lemma_production_for_data(
    st: GleanState,
    d: SpecParserData,
    p: SpecProduction,
    h: SpecLexeme,
    dv: internal_parser::SpecDerivation,
)
    requires
        production_for(st, p, h, dv),
        d.reverse_term_map == numbered_terms(st.terms),
        d.reverse_nonterm_map == numbered_nonterms(st.nonterms),
    ensures
        production_of(d, p, h, dv),
{
    if let internal_parser::SpecDerivation::B(syms) = dv {
        let out = p.derivation->Symbols_0;
        assert forall|j: int| 0 <= j < syms.len() implies symbol_of(d, #[trigger] out[j], syms[j]) by {
            assert(symbol_for(st, out[j], syms[j]));
        }
    }
}

proof fn lemma_intern_names(names: Seq<Seq<char>>, n: Seq<char>)
    requires
        intern(names, n).len() <= i32::MAX,
    ensures
        names.len() <= intern(names, n).len(),
        forall|i: int| 0 <= i < names.len() ==> #[trigger] intern(names, n)[i] == names[i],
        0 <= name_id(intern(names, n), n) < intern(names, n).len(),
        intern(names, n)[name_id(intern(names, n), n) as int] == n,
{
    let nn = intern(names, n);
    if !names.contains(n) {
        assert(nn[names.len() as int] == n);
    }
    assert(nn.contains(n));
    let c = nn.index_of(n);
    assert(0 <= c < nn.len() && nn[c] == n);
}

proof fn lemma_symbol_for(st: GleanState, l: SpecLexeme)
    requires
        l.0 == Token::Term || l.0 == Token::Nonterm,
        l.1 is AttrString,
        glean_symbol(st, l) matches Some((st2, _)) && bounded(st2),
    ensures
        glean_symbol(st, l) matches Some((st2, Some(x))) && symbol_for(st2, x, l) && names_extend(st, st2)
            && st2.prods == st.prods,
{
    let name = l.1->AttrString_0;
    if l.0 == Token::Nonterm {
        lemma_intern_names(st.nonterms, name);
    } else {
        lemma_intern_names(st.terms, name);
    }
}

proof fn lemma_symbols_for(st: GleanState, syms: Seq<SpecLexeme>)
    requires
        symbols_named(syms),
        glean_symbols(st, syms) matches Some((st1, _)) && bounded(st1),
    ensures
        glean_symbols(st, syms) matches Some((st1, out)) && out.len() == syms.len() && names_extend(st, st1)
            && st1.prods == st.prods && forall|j: int| 0 <= j < syms.len() ==> symbol_for(st1, #[trigger] out[j], syms[j]),
    decreases syms.len(),
{
    if syms.len() > 0 {
        let (st_mid, out_mid) = glean_symbols(st, syms.drop_last())->Some_0;
        let st1 = glean_symbols(st, syms)->Some_0.0;
        assert(symbols_named(syms.drop_last())) by {
            assert forall|j: int| 0 <= j < syms.drop_last().len() implies is_symbol_token(#[trigger] syms.drop_last()[j].0)
                && syms.drop_last()[j].1 is AttrString by {
                assert(syms.drop_last()[j] == syms[j]);
            }
        }
        assert(is_symbol_token(syms[syms.len() - 1].0));
        lemma_symbol_for(st_mid, syms.last());
        lemma_symbols_for(st, syms.drop_last());
        let out = glean_symbols(st, syms)->Some_0.1;
        assert forall|j: int| 0 <= j < syms.len() implies symbol_for(st1, #[trigger] out[j], syms[j]) by {
            if j < syms.len() - 1 {
                assert(out[j] == out_mid[j]);
                assert(syms.drop_last()[j] == syms[j]);
                assert(symbol_for(st_mid, out_mid[j], syms[j]));
            }
        }
    }
}

proof fn lemma_derivation_for(st: GleanState, head: Nonterm, dv: internal_parser::SpecDerivation)
    requires
        derivation_named(dv),
        glean_derivation(st, head, dv) matches Some(st1) && bounded(st1),
    ensures
        glean_derivation(st, head, dv) matches Some(st1) && st1.prods.len() == st.prods.len() + 1
            && prods_extend(st, st1) && names_extend(st, st1) && st1.prods.last().nonterm == head
            && derivation_for(st1, st1.prods.last().derivation, dv),
{
    if let internal_parser::SpecDerivation::B(syms) = dv {
        lemma_symbols_for(st, syms);
    }
}

proof fn lemma_extras_for(st: GleanState, head: Nonterm, ds: Seq<internal_parser::SpecDerivation>)
    requires
        forall|k: int| 0 <= k < ds.len() ==> derivation_named(#[trigger] ds[k]),
        glean_extras(st, head, ds) matches Some(st1) && bounded(st1),
    ensures
        glean_extras(st, head, ds) matches Some(st1) && st1.prods.len() == st.prods.len() + ds.len()
            && prods_extend(st, st1) && names_extend(st, st1) && forall|k: int|
            0 <= k < ds.len() ==> #[trigger] st1.prods[st.prods.len() + k].nonterm == head
                && derivation_for(st1, st1.prods[st.prods.len() + k].derivation, ds[k]),
    decreases ds.len(),
{
    if ds.len() > 0 {
        let st_mid = glean_extras(st, head, ds.drop_last())->Some_0;
        let st1 = glean_extras(st, head, ds)->Some_0;
        assert(derivation_named(ds[ds.len() - 1]));
        lemma_derivation_for(st_mid, head, ds.last());
        assert forall|k: int| 0 <= k < ds.drop_last().len() implies derivation_named(#[trigger] ds.drop_last()[k]) by {
            assert(ds.drop_last()[k] == ds[k]);
        }
        lemma_extras_for(st, head, ds.drop_last());
        assert forall|k: int|
            0 <= k < ds.len() implies #[trigger] st1.prods[st.prods.len() + k].nonterm == head
                && derivation_for(st1, st1.prods[st.prods.len() + k].derivation, ds[k]) by {
            if k < ds.len() - 1 {
                assert(st1.prods[st.prods.len() + k] == st_mid.prods[st.prods.len() + k]);
                assert(ds.drop_last()[k] == ds[k]);
                assert(st_mid.prods[st.prods.len() + k].nonterm == head);
                lemma_derivation_for_extend(
                    st_mid,
                    st1,
                    st_mid.prods[st.prods.len() + k].derivation,
                    ds[k],
                );
            }
        }
    }
}

proof fn lemma_rule_for(st: GleanState, r: SpecRule)
    requires
        rule_named(r),
        glean_rule(st, r) matches Some(st1) && bounded(st1),
    ensures
        glean_rule(st, r) matches Some(st1) && st1.prods.len() == st.prods.len() + 1 + r.extra.len()
            && prods_extend(st, st1) && names_extend(st, st1) && forall|k: int|
            0 <= k < 1 + r.extra.len() ==> production_for(
                st1,
                #[trigger] st1.prods[st.prods.len() + k],
                r.head,
                (seq![r.derivation] + r.extra)[k],
            ),
{
    let name = r.head.1->AttrString_0;
    let nn = intern(st.nonterms, name);
    let head = Nonterm(name_id(nn, name));
    let sta = GleanState { nonterms: nn, ..st };
    let stb = glean_derivation(sta, head, r.derivation)->Some_0;
    let st1 = glean_rule(st, r)->Some_0;
    lemma_extras_for(stb, head, r.extra);
    lemma_derivation_for(sta, head, r.derivation);
    lemma_intern_names(st.nonterms, name);
    let all = seq![r.derivation] + r.extra;
    assert forall|k: int| 0 <= k < 1 + r.extra.len() implies production_for(
        st1,
        #[trigger] st1.prods[st.prods.len() + k],
        r.head,
        all[k],
    ) by {
        if k == 0 {
            assert(all[0] == r.derivation);
            assert(st1.prods[st.prods.len() as int] == stb.prods.last());
            lemma_derivation_for_extend(stb, st1, stb.prods.last().derivation, r.derivation);
        } else {
            assert(all[k] == r.extra[k - 1]);
            assert(st1.prods[st.prods.len() + k] == st1.prods[stb.prods.len() + (k - 1)]);
        }
    }
}

proof fn lemma_rules_for(st0: GleanState, rules: Seq<SpecRule>)
    requires
        forall|i: int| 0 <= i < rules.len() ==> rule_named(#[trigger] rules[i]),
        glean_rules_from(st0, rules) matches Some(st1) && bounded(st1),
    ensures
        glean_rules_from(st0, rules) matches Some(st1) && st1.prods.len() == st0.prods.len()
            + rule_derivations(rules).len() && prods_extend(st0, st1) && names_extend(st0, st1)
            && forall|x: int|
            0 <= x < rule_derivations(rules).len() ==> production_for(
                st1,
                #[trigger] st1.prods[st0.prods.len() + x],
                rule_derivations(rules)[x].0,
                rule_derivations(rules)[x].1,
            ),
    decreases rules.len(),
{
    if rules.len() > 0 {
        let r = rules.last();
        let st_mid = glean_rules_from(st0, rules.drop_last())->Some_0;
        let st1 = glean_rules_from(st0, rules)->Some_0;
        assert(rule_named(rules[rules.len() - 1]));
        lemma_rule_for(st_mid, r);
        assert forall|i: int| 0 <= i < rules.drop_last().len() implies rule_named(#[trigger] rules.drop_last()[i]) by {
            assert(rules.drop_last()[i] == rules[i]);
        }
        lemma_rules_for(st0, rules.drop_last());
        let rd0 = rule_derivations(rules.drop_last());
        let tail = (seq![r.derivation] + r.extra).map_values(
            |d: internal_parser::SpecDerivation| (r.head, d),
        );
        let rd = rule_derivations(rules);
        assert(rd == rd0 + tail);
        assert forall|x: int| 0 <= x < rd.len() implies production_for(
            st1,
            #[trigger] st1.prods[st0.prods.len() + x],
            rd[x].0,
            rd[x].1,
        ) by {
            if x < rd0.len() {
                assert(rd[x] == rd0[x]);
                assert(st1.prods[st0.prods.len() + x] == st_mid.prods[st0.prods.len() + x]);
                lemma_production_for_extend(st_mid, st1, st_mid.prods[st0.prods.len() + x], rd0[x].0, rd0[x].1);
            } else {
                let k = x - rd0.len();
                assert(rd[x] == tail[k]);
                assert(st1.prods[st0.prods.len() + x] == st1.prods[st_mid.prods.len() + k]);
            }
        }
    }
}

proof fn lemma_term_named_id(names: Seq<Seq<char>>, w: Seq<char>, t: Term)
    requires
        names.no_duplicates(),
        names.len() <= i32::MAX,
        names.contains(w),
    ensures
        term_named(numbered_terms(names), t, w) <==> t == Term(name_id(names, w)),
{
    let i = names.index_of(w);
    assert(0 <= i < names.len() && names[i] == w);
    if term_named(numbered_terms(names), t, w) {
        assert(names[t.0 as int] == w);
    }
}

proof fn lemma_store_set(names: Seq<Seq<char>>, store: Seq<SpecLexeme>)
    requires
        names.no_duplicates(),
        names.len() <= i32::MAX,
        glean_store(names, store) is Some,
    ensures
        forall|t: Term|
            glean_store(names, store)->Some_0.contains(t) <==> exists|j: int|
                0 <= j < store.len() && (#[trigger] store[j]).1 is AttrString && term_named(
                    numbered_terms(names),
                    t,
                    store[j].1->AttrString_0,
                ),
    decreases store.len(),
{
    if store.len() > 0 {
        let l = store.last();
        let w = l.1->AttrString_0;
        lemma_store_set(names, store.drop_last());
        assert forall|t: Term|
            glean_store(names, store)->Some_0.contains(t) <==> exists|j: int|
                0 <= j < store.len() && (#[trigger] store[j]).1 is AttrString && term_named(
                    numbered_terms(names),
                    t,
                    store[j].1->AttrString_0,
                ) by {
            lemma_term_named_id(names, w, t);
            if glean_store(names, store)->Some_0.contains(t) {
                if t == Term(name_id(names, w)) {
                    assert(store[store.len() - 1] == l);
                } else {
                    let j = choose|j: int|
                        0 <= j < store.drop_last().len() && (#[trigger] store.drop_last()[j]).1 is AttrString
                            && term_named(numbered_terms(names), t, store.drop_last()[j].1->AttrString_0);
                    assert(store[j] == store.drop_last()[j]);
                }
            }
            if exists|j: int|
                0 <= j < store.len() && (#[trigger] store[j]).1 is AttrString && term_named(
                    numbered_terms(names),
                    t,
                    store[j].1->AttrString_0,
                ) {
                let j = choose|j: int|
                    0 <= j < store.len() && (#[trigger] store[j]).1 is AttrString && term_named(
                        numbered_terms(names),
                        t,
                        store[j].1->AttrString_0,
                    );
                if j < store.len() - 1 {
                    assert(store.drop_last()[j] == store[j]);
                }
            }
        }
    }
}

/// The stored terminals are exactly the terminals named between `<` and
/// `>`, each by the number of its text.
pub proof fn lemma_stored_terms(ast: SpecStart)
    requires
        gleanable(ast),
    ensures
        ({
            let d = glean(ast)->Some_0;
            forall|t: Term|
                d.terms_to_store.contains(t) <==> exists|j: int|
                    0 <= j < ast.store.len() && (#[trigger] ast.store[j]).1 is AttrString && term_named(
                        d.reverse_term_map,
                        t,
                        ast.store[j].1->AttrString_0,
                    )
        }),
{
    let st = glean_rules(ast.rules)->Some_0;
    lemma_glean_rules_numbering(ast.rules);
    lemma_store_set(st.terms, ast.store);
}

// ---------------------------------------------------------------------
// Laws: what the parser produces can be gleaned.
// ---------------------------------------------------------------------

proof fn lemma_glean_symbols_named(st: GleanState, syms: Seq<SpecLexeme>)
    requires
        symbols_named(syms),
    ensures
        glean_symbols(st, syms) is Some,
    decreases syms.len(),
{
    if syms.len() > 0 {
        assert(symbols_named(syms.drop_last()));
        lemma_glean_symbols_named(st, syms.drop_last());
        assert(syms.last() == syms[syms.len() - 1]);
    }
}

proof fn lemma_glean_extras_named(st: GleanState, head: Nonterm, ds: Seq<internal_parser::SpecDerivation>)
    requires
        forall|k: int| 0 <= k < ds.len() ==> derivation_named(#[trigger] ds[k]),
    ensures
        glean_extras(st, head, ds) is Some,
    decreases ds.len(),
{
    if ds.len() > 0 {
        lemma_glean_extras_named(st, head, ds.drop_last());
        assert(derivation_named(ds[ds.len() - 1]));
        if let internal_parser::SpecDerivation::B(syms) = ds.last() {
            lemma_glean_symbols_named(glean_extras(st, head, ds.drop_last())->Some_0, syms);
        }
    }
}

proof fn lemma_glean_rules_named(rules: Seq<SpecRule>)
    requires
        forall|i: int| 0 <= i < rules.len() ==> rule_named(#[trigger] rules[i]),
    ensures
        glean_rules(rules) is Some,
    decreases rules.len(),
{
    if rules.len() > 0 {
        lemma_glean_rules_named(rules.drop_last());
        let st = glean_rules(rules.drop_last())->Some_0;
        let r = rules.last();
        assert(rule_named(rules[rules.len() - 1]));
        let name = r.head.1->AttrString_0;
        let nn = intern(st.nonterms, name);
        let head = Nonterm(name_id(nn, name));
        let st0 = GleanState { nonterms: nn, ..st };
        if let internal_parser::SpecDerivation::B(syms) = r.derivation {
            lemma_glean_symbols_named(st0, syms);
        }
        lemma_glean_extras_named(glean_derivation(st0, head, r.derivation)->Some_0, head, r.extra);
    }
}

proof fn lemma_glean_store_named(terms: Seq<Seq<char>>, store: Seq<SpecLexeme>)
    requires
        store_named(store),
    ensures
        glean_store(terms, store) is Some <==> forall|j: int|
            0 <= j < store.len() ==> terms.contains(#[trigger] store[j].1->AttrString_0),
    decreases store.len(),
{
    if store.len() > 0 {
        assert(store_named(store.drop_last()));
        lemma_glean_store_named(terms, store.drop_last());
        assert(store.last() == store[store.len() - 1]);
        if glean_store(terms, store) is Some {
            assert forall|j: int| 0 <= j < store.len() implies terms.contains(
                #[trigger] store[j].1->AttrString_0,
            ) by {
                if j < store.len() - 1 {
                    assert(store.drop_last()[j] == store[j]);
                }
            }
        }
        if forall|j: int| 0 <= j < store.len() ==> terms.contains(#[trigger] store[j].1->AttrString_0) {
            assert forall|j: int| 0 <= j < store.drop_last().len() implies terms.contains(
                #[trigger] store.drop_last()[j].1->AttrString_0,
            ) by {
                assert(store.drop_last()[j] == store[j]);
            }
        }
    }
}

/// Gleaning accepts the rules of every grammar description that the parser
/// accepts; it refuses such a description only for a stored terminal that
/// no rule names.
pub proof fn lemma_parsed_gleanable(s: PState, invalid: bool)
    requires
        pstate_named(s),
    ensures
        parse_start(s, invalid) matches Parsed::Done(Ok(ast), _) ==> {
            &&& glean_rules(ast.rules) is Some
            &&& glean(ast) is Some <==> forall|j: int|
                0 <= j < ast.store.len() ==> glean_rules(ast.rules)->Some_0.terms.contains(
                    #[trigger] ast.store[j].1->AttrString_0,
                )
        },
{
    lemma_start_named(s, invalid);
    if let Parsed::Done(Ok(ast), _) = parse_start(s, invalid) {
        lemma_glean_rules_named(ast.rules);
        lemma_glean_store_named(glean_rules(ast.rules)->Some_0.terms, ast.store);
    }
}

// ---------------------------------------------------------------------
// Gleaning.
// ---------------------------------------------------------------------

/// The position of `name` in `names`, if it is there.
fn find_name(names: &Vec<String>, name: &String) -> (r: Option<usize>)
    ensures
        r matches Some(i) ==> i < names.len() && names@[i as int]@ == name@,
        r is None ==> !strings_view(names@).contains(name@),
{
    let mut i: usize = 0;
    while i < names.len()
        invariant
            i <= names.len(),
            forall|k: int| 0 <= k < i ==> names@[k]@ != name@,
        decreases names.len() - i,
    {
        if names[i] == *name {
            return Some(i);
        }
        i += 1;
    }
    None
}

/// The number of `name`, numbering it first if it is new; `None`, and no
/// change, when a new number would not fit in an `i32`.
fn intern_name(names: &mut Vec<String>, name: &String) -> (id: Option<i32>)
    requires
        strings_view(old(names)@).no_duplicates(),
        old(names)@.len() <= i32::MAX,
    ensures
        strings_view(final(names)@).no_duplicates(),
        final(names)@.len() <= i32::MAX,
        id is Some <==> intern(strings_view(old(names)@), name@).len() <= i32::MAX,
        id matches Some(i) ==> {
            &&& strings_view(final(names)@) == intern(strings_view(old(names)@), name@)
            &&& i == name_id(strings_view(final(names)@), name@)
        },
        id is None ==> final(names)@ == old(names)@,
        names_kept(old(names)@, final(names)@),
{
    let ghost v0 = strings_view(names@);
    match find_name(names, name) {
        Some(i) => {
            proof {
                assert(v0[i as int] == name@);
                assert(v0.contains(name@));
            }
            Some(i as i32)
        },
        None => {
            if names.len() >= i32::MAX as usize {
                return None;
            }
            names.push(name.clone());
            let ghost v1 = strings_view(names@);
            assert(v1 =~= v0.push(name@));
            let i = names.len() - 1;
            assert(v1[i as int] == name@);
            Some(i as i32)
        },
    }
}

/// Gleaning refuses: no result, or numbers that do not fit in an `i32`.
pub open spec fn refused(o: Option<GleanState>) -> bool {
    !(o matches Some(st) && bounded(st))
}

proof fn lemma_symbols_refused(st: GleanState, head: Nonterm, syms: Seq<SpecLexeme>, j: int)
    requires
        0 <= j <= syms.len(),
        match glean_symbols(st, syms.take(j)) {
            None => true,
            Some((st1, _)) => !bounded(st1),
        },
    ensures
        refused(glean_derivation(st, head, internal_parser::SpecDerivation::B(syms))),
{
    if glean_symbols(st, syms) is Some {
        lemma_glean_symbols_prefix(st, syms, j);
    }
}

proof fn lemma_extras_refused(st: GleanState, head: Nonterm, ds: Seq<internal_parser::SpecDerivation>, k: int)
    requires
        0 <= k <= ds.len(),
        refused(glean_extras(st, head, ds.take(k))),
    ensures
        refused(glean_extras(st, head, ds)),
{
    if glean_extras(st, head, ds) is Some {
        lemma_glean_extras_prefix(st, head, ds, k);
    }
}

proof fn lemma_rules_refused(st: GleanState, rules: Seq<SpecRule>, j: int)
    requires
        0 <= j <= rules.len(),
        refused(glean_rules_from(st, rules.take(j))),
    ensures
        refused(glean_rules_from(st, rules)),
{
    if glean_rules_from(st, rules) is Some {
        lemma_glean_rules_prefix(st, rules, j);
    }
}

/// The state of gleaning held in the name lists and the productions.
pub open spec fn exec_state(term_map: Seq<String>, nonterm_map: Seq<String>, prodvec: Seq<Production>) -> GleanState {
    GleanState {
        terms: strings_view(term_map),
        nonterms: strings_view(nonterm_map),
        prods: productions_view(prodvec),
    }
}

/// Numbers the symbols of a derivation and adds its production; `false`
/// when gleaning refuses it.
fn glean_derivation_into(
    derivation: &internal_parser::Derivation,
    head: Nonterm,
    term_map: &mut Vec<String>,
    nonterm_map: &mut Vec<String>,
    prodvec: &mut Vec<Production>,
) -> (ok: bool)
    requires
        strings_view(old(term_map)@).no_duplicates(),
        strings_view(old(nonterm_map)@).no_duplicates(),
        bounded(exec_state(old(term_map)@, old(nonterm_map)@, old(prodvec)@)),
    ensures
        strings_view(final(term_map)@).no_duplicates(),
        strings_view(final(nonterm_map)@).no_duplicates(),
        bounded(exec_state(final(term_map)@, final(nonterm_map)@, final(prodvec)@)),
        names_kept(old(term_map)@, final(term_map)@),
        names_kept(old(nonterm_map)@, final(nonterm_map)@),
        ok <==> !refused(
            glean_derivation(exec_state(old(term_map)@, old(nonterm_map)@, old(prodvec)@), head, derivation@),
        ),
        ok ==> glean_derivation(
            exec_state(old(term_map)@, old(nonterm_map)@, old(prodvec)@),
            head,
            derivation@,
        ) == Some(exec_state(final(term_map)@, final(nonterm_map)@, final(prodvec)@)),
{
    let ghost st0 = exec_state(term_map@, nonterm_map@, prodvec@);
    match derivation {
        internal_parser::Derivation::B(symlist) => {
            let ghost syms = symlist@;
            let mut symvec: Vec<Symbol> = Vec::new();
            let n = symlist.0.len();
            assert(syms.take(0) =~= Seq::<SpecLexeme>::empty());
            for j in 0..n
                invariant
                    n == symlist.0.len(),
                    syms == symlist@,
                    st0 == exec_state(old(term_map)@, old(nonterm_map)@, old(prodvec)@),
                    derivation@ == internal_parser::SpecDerivation::B(syms),
                    strings_view(term_map@).no_duplicates(),
                    strings_view(nonterm_map@).no_duplicates(),
                    prodvec@ == old(prodvec)@,
                    names_kept(old(term_map)@, term_map@),
                    names_kept(old(nonterm_map)@, nonterm_map@),
                    bounded(exec_state(term_map@, nonterm_map@, prodvec@)),
                    glean_symbols(st0, syms.take(j as int)) == Some(
                        (
                            GleanState {
                                terms: strings_view(term_map@),
                                nonterms: strings_view(nonterm_map@),
                                prods: st0.prods,
                            },
                            symvec@,
                        ),
                    ),
            {
                let ghost cur = GleanState {
                    terms: strings_view(term_map@),
                    nonterms: strings_view(nonterm_map@),
                    prods: st0.prods,
                };
                proof {
                    assert(syms.take(j + 1).drop_last() =~= syms.take(j as int));
                    assert(syms.take(j + 1).last() == syms[j as int]);
                }
                let (token, attr, _) = &symlist.0[j].0;
                let string = match attr {
                    Attr::AttrString(string) => string,
                    Attr::Skip => {
                        proof {
                            lemma_symbols_refused(st0, head, syms, j + 1);
                        }
                        return false;
                    },
                };
                match token {
                    Token::Nonterm => {
                        match intern_name(nonterm_map, string) {
                            Some(id) => symvec.push(Symbol::N(Nonterm(id))),
                            None => {
                                proof {
                                    lemma_symbols_refused(st0, head, syms, j + 1);
                                }
                                return false;
                            },
                        }
                    },
                    Token::Term => {
                        match intern_name(term_map, string) {
                            Some(id) => symvec.push(Symbol::T(Term(id))),
                            None => {
                                proof {
                                    lemma_symbols_refused(st0, head, syms, j + 1);
                                }
                                return false;
                            },
                        }
                    },
                    _ => (),
                }
            }
            assert(syms.take(n as int) =~= syms);
            prodvec.push(Production { nonterm: head, derivation: Derivation::Symbols(symvec) });
            assert(productions_view(prodvec@) =~= productions_view(old(prodvec)@).push(
                prodvec@.last()@,
            ));
            true
        },
        internal_parser::Derivation::A => {
            prodvec.push(Production { nonterm: head, derivation: Derivation::Null });
            assert(productions_view(prodvec@) =~= productions_view(old(prodvec)@).push(
                prodvec@.last()@,
            ));
            true
        },
    }
}

/// The productions of all rules, in order, while the name lists keep their
/// names and numbers and grow as new names are met; `None` when gleaning
/// refuses the rules.
fn all_productions_in_ast(
    rules: &Rules,
    term_map: &mut Vec<String>,
    nonterm_map: &mut Vec<String>,
) -> (r: Option<Vec<Production>>)
    requires
        strings_view(old(term_map)@).no_duplicates(),
        strings_view(old(nonterm_map)@).no_duplicates(),
        old(term_map)@.len() <= i32::MAX,
        old(nonterm_map)@.len() <= i32::MAX,
    ensures
        strings_view(final(term_map)@).no_duplicates(),
        strings_view(final(nonterm_map)@).no_duplicates(),
        names_kept(old(term_map)@, final(term_map)@),
        names_kept(old(nonterm_map)@, final(nonterm_map)@),
        r is Some <==> !refused(
            glean_rules_from(exec_state(old(term_map)@, old(nonterm_map)@, seq![]), rules@),
        ),
        r matches Some(prodvec) ==> glean_rules_from(
            exec_state(old(term_map)@, old(nonterm_map)@, seq![]),
            rules@,
        ) == Some(exec_state(final(term_map)@, final(nonterm_map)@, prodvec@)),
{
    let ghost start = exec_state(term_map@, nonterm_map@, seq![]);
    let ghost all = rules@;
    let mut prodvec: Vec<Production> = Vec::new();
    let n = rules.0.len();
    assert(all.take(0) =~= Seq::<SpecRule>::empty());
    assert(productions_view(prodvec@) =~= Seq::<SpecProduction>::empty());
    for i in 0..n
        invariant
            n == rules.0.len(),
            all == rules@,
            strings_view(term_map@).no_duplicates(),
            strings_view(nonterm_map@).no_duplicates(),
            names_kept(old(term_map)@, term_map@),
            names_kept(old(nonterm_map)@, nonterm_map@),
            start == exec_state(old(term_map)@, old(nonterm_map)@, seq![]),
            bounded(exec_state(term_map@, nonterm_map@, prodvec@)),
            glean_rules_from(start, all.take(i as int)) == Some(exec_state(term_map@, nonterm_map@, prodvec@)),
    {
        let ghost st = exec_state(term_map@, nonterm_map@, prodvec@);
        let ghost r = all[i as int];
        proof {
            assert(all.take(i + 1).drop_last() =~= all.take(i as int));
            assert(all.take(i + 1).last() == r);
        }
        let rule = &rules.0[i];
        let internal_parser::Rule(term, derivation, extrarule) = rule;
        let nonterm = match (&term.0, &term.1) {
            (Token::Nonterm, Attr::AttrString(nonterm)) => nonterm,
            _ => {
                proof {
                    lemma_rules_refused(start, all, i + 1);
                }
                return None;
            },
        };
        let ghost name = nonterm@;
        let ghost nn = intern(st.nonterms, name);
        let ghost st0 = GleanState { nonterms: nn, ..st };
        let head = match intern_name(nonterm_map, nonterm) {
            Some(id) => Nonterm(id),
            None => {
                proof {
                    if glean_rule(st, r) is Some {
                        lemma_glean_rule_parts(st, r, name);
                    }
                    lemma_rules_refused(start, all, i + 1);
                }
                return None;
            },
        };
        if !glean_derivation_into(derivation, head, term_map, nonterm_map, &mut prodvec) {
            proof {
                if glean_rule(st, r) is Some {
                    lemma_glean_rule_parts(st, r, name);
                }
                lemma_rules_refused(start, all, i + 1);
            }
            return None;
        }
        // extra rules time
        let ghost st1 = exec_state(term_map@, nonterm_map@, prodvec@);
        let ghost extras = extrarule@;
        assert(extras.take(0) =~= Seq::<internal_parser::SpecDerivation>::empty());
        assert(glean_rules_from(start, all.take(i + 1)) == glean_extras(st1, head, extras));
        let m = extrarule.0.len();
        for k in 0..m
            invariant
                i < n,
                n == rules.0.len(),
                m == extrarule.0.len(),
                extras == extrarule@,
                all == rules@,
                strings_view(term_map@).no_duplicates(),
                strings_view(nonterm_map@).no_duplicates(),
                names_kept(old(term_map)@, term_map@),
                names_kept(old(nonterm_map)@, nonterm_map@),
                start == exec_state(old(term_map)@, old(nonterm_map)@, seq![]),
                bounded(exec_state(term_map@, nonterm_map@, prodvec@)),
                glean_rules_from(start, all.take(i + 1)) == glean_extras(st1, head, extras),
                glean_extras(st1, head, extras.take(k as int)) == Some(
                    exec_state(term_map@, nonterm_map@, prodvec@),
                ),
        {
            proof {
                assert(extras.take(k + 1).drop_last() =~= extras.take(k as int));
                assert(extras.take(k + 1).last() == extras[k as int]);
            }
            if !glean_derivation_into(&extrarule.0[k], head, term_map, nonterm_map, &mut prodvec) {
                proof {
                    lemma_extras_refused(st1, head, extras, k + 1);
                    lemma_rules_refused(start, all, i + 1);
                }
                return None;
            }
        }
        assert(extras.take(m as int) =~= extras);
    }
    assert(all.take(n as int) =~= all);
    Some(prodvec)
}

/// The numbers of the stored terminals; `None` when gleaning refuses them.
fn all_stored_terms_in_ast(store: &Store, term_map: &Vec<String>) -> (r: Option<Vec<Term>>)
    requires
        strings_view(term_map@).no_duplicates(),
        strings_view(term_map@).len() <= i32::MAX,
    ensures
        r is Some <==> glean_store(strings_view(term_map@), store@) is Some,
        r matches Some(set) ==> {
            &&& glean_store(strings_view(term_map@), store@) == Some(set@.to_set())
            &&& set@.no_duplicates()
        },
{
    let ghost terms = strings_view(term_map@);
    let ghost all = store@;
    let mut set: Vec<Term> = Vec::new();
    let n = store.0.len();
    assert(all.take(0) =~= Seq::<SpecLexeme>::empty());
    assert(set@.to_set() =~= Set::<Term>::empty());
    for i in 0..n
        invariant
            n == store.0.len(),
            all == store@,
            terms == strings_view(term_map@),
            terms.no_duplicates(),
            terms.len() <= i32::MAX,
            glean_store(terms, all.take(i as int)) == Some(set@.to_set()),
            set@.no_duplicates(),
    {
        proof {
            assert(all.take(i + 1).drop_last() =~= all.take(i as int));
            assert(all.take(i + 1).last() == all[i as int]);
        }
        let (tok, attrstring, _) = &store.0[i];
        let term_to_store = match (tok, attrstring) {
            (Token::Term, Attr::AttrString(term_to_store)) => term_to_store,
            _ => {
                proof {
                    if glean_store(terms, all) is Some {
                        lemma_glean_store_prefix(terms, all, i + 1);
                    }
                }
                return None;
            },
        };
        let id = match find_name(term_map, term_to_store) {
            Some(id) => id,
            None => {
                proof {
                    if glean_store(terms, all) is Some {
                        lemma_glean_store_prefix(terms, all, i + 1);
                    }
                }
                return None;
            },
        };
        proof {
            assert(terms[id as int] == term_to_store@);
            assert(terms.contains(term_to_store@));
            assert(terms.index_of(term_to_store@) == id);
        }
        let t = Term(id as i32);
        insert_term(&mut set, t);
        assert(set@.to_set() =~= glean_store(terms, all.take(i as int))->Some_0.insert(t));
    }
    assert(all.take(n as int) =~= all);
    Some(set)
}

/// The elements of `s.push(x)` are those of `s` and `x`.
pub proof fn lemma_to_set_push<A>(s: Seq<A>, x: A)
    ensures
        s.push(x).to_set() == s.to_set().insert(x),
{
    assert forall|a: A| #[trigger]
        s.push(x).to_set().contains(a) == s.to_set().insert(x).contains(a) by {
        if s.contains(a) {
            let k = choose|k: int| 0 <= k < s.len() && s[k] == a;
            assert(s.push(x)[k] == a);
        }
        if a == x {
            assert(s.push(x)[s.len() as int] == a);
        }
        if s.push(x).contains(a) {
            let k = choose|k: int| 0 <= k < s.len() + 1 && s.push(x)[k] == a;
            if k < s.len() {
                assert(s[k] == a);
            }
        }
    }
    assert(s.push(x).to_set() =~= s.to_set().insert(x));
}

/// Whether `t` is in `v`.
pub(crate) fn contains_term(v: &Vec<Term>, t: Term) -> (b: bool)
    ensures
        b == v@.contains(t),
{
    for k in 0..v.len()
        invariant
            forall|x: int| 0 <= x < k ==> v@[x] != t,
    {
        if v[k] == t {
            assert(v@[k as int] == t);
            return true;
        }
    }
    false
}

/// Adds `t` to the set of terminals held in `v`, keeping its elements distinct.
pub(crate) fn insert_term(v: &mut Vec<Term>, t: Term)
    requires
        old(v)@.no_duplicates(),
    ensures
        final(v)@.no_duplicates(),
        final(v)@.to_set() == old(v)@.to_set().insert(t),
{
    if !contains_term(v, t) {
        v.push(t);
        proof {
            lemma_to_set_push(old(v)@, t);
        }
    } else {
        assert(v@.to_set() =~= old(v)@.to_set().insert(t));
    }
}

proof fn lemma_glean_store_prefix(terms: Seq<Seq<char>>, store: Seq<SpecLexeme>, j: int)
    requires
        0 <= j <= store.len(),
        glean_store(terms, store) is Some,
    ensures
        glean_store(terms, store.take(j)) is Some,
    decreases store.len(),
{
    if store.len() == 0 || j == store.len() {
        assert(store.take(j) =~= store);
    } else {
        lemma_glean_store_prefix(terms, store.drop_last(), j);
        assert(store.drop_last().take(j) =~= store.take(j));
    }
}

/// The productions, stored terminals and names of a parsed grammar
/// description, as `glean` describes them; `None` where gleaning refuses it:
/// a rule whose head is not a named nonterminal, a symbol without a name, a
/// stored token that is not a terminal named in a rule, or more names than
/// an `i32` can number.
pub fn try_data_from_parse(ast: &Start) -> (r: Option<ParserData>)
    ensures
        r is Some <==> gleanable(ast@),
        r matches Some(d) ==> {
            &&& d@ == glean(ast@)->Some_0
            &&& d.terms_to_store@.no_duplicates()
        },
{
    let Start(store, rules) = ast;
    let mut term_map: Vec<String> = Vec::new();
    let mut nonterm_map: Vec<String> = Vec::new();
    // 0 is the nonterm id for 'S', 0 is the term id for '$'
    nonterm_map.push(String::from_str("S"));
    term_map.push(String::from_str("$"));
    proof {
        reveal_strlit("S");
        reveal_strlit("$");
        assert("S"@ =~= seq!['S']);
        assert("$"@ =~= seq!['$']);
        assert(strings_view(nonterm_map@) =~= initial_glean_state().nonterms);
        assert(strings_view(term_map@) =~= initial_glean_state().terms);
        assert(productions_view(Seq::<Production>::empty()) =~= Seq::<SpecProduction>::empty());
        assert(exec_state(term_map@, nonterm_map@, seq![]) == initial_glean_state());
    }
    let prods = match all_productions_in_ast(rules, &mut term_map, &mut nonterm_map) {
        Some(prods) => prods,
        None => {
            return None;
        },
    };
    let terms_to_store = match all_stored_terms_in_ast(store, &term_map) {
        Some(set) => set,
        None => {
            return None;
        },
    };
    let ghost tn = strings_view(term_map@);
    let ghost nn = strings_view(nonterm_map@);
    let mut reverse_term_map: Vec<(Term, String)> = Vec::new();
    for i in 0..term_map.len()
        invariant
            tn == strings_view(term_map@),
            tn.len() <= i32::MAX,
            reverse_term_map@.map_values(|e: (Term, String)| (e.0, e.1@)) =~= numbered_terms(
                tn,
            ).take(i as int),
    {
        let ghost prev = reverse_term_map@.map_values(|e: (Term, String)| (e.0, e.1@));
        reverse_term_map.push((Term(i as i32), term_map[i].clone()));
        assert(reverse_term_map@.map_values(|e: (Term, String)| (e.0, e.1@)) =~= prev.push(
            (Term(i as i32), tn[i as int]),
        ));
        assert(reverse_term_map@.map_values(|e: (Term, String)| (e.0, e.1@)) =~= numbered_terms(
            tn,
        ).take(i + 1));
    }
    let mut reverse_nonterm_map: Vec<(Nonterm, String)> = Vec::new();
    for i in 0..nonterm_map.len()
        invariant
            nn == strings_view(nonterm_map@),
            nn.len() <= i32::MAX,
            reverse_nonterm_map@.map_values(|e: (Nonterm, String)| (e.0, e.1@))
                =~= numbered_nonterms(nn).take(i as int),
    {
        let ghost prev = reverse_nonterm_map@.map_values(|e: (Nonterm, String)| (e.0, e.1@));
        reverse_nonterm_map.push((Nonterm(i as i32), nonterm_map[i].clone()));
        assert(reverse_nonterm_map@.map_values(|e: (Nonterm, String)| (e.0, e.1@)) =~= prev.push(
            (Nonterm(i as i32), nn[i as int]),
        ));
        assert(reverse_nonterm_map@.map_values(|e: (Nonterm, String)| (e.0, e.1@))
            =~= numbered_nonterms(nn).take(i + 1));
    }
    proof {
        assert(numbered_terms(tn).take(tn.len() as int) =~= numbered_terms(tn));
        assert(numbered_nonterms(nn).take(nn.len() as int) =~= numbered_nonterms(nn));
    }
    Some(ParserData { productions: prods, terms_to_store, reverse_term_map, reverse_nonterm_map })
}

/// The productions, stored terminals and names of a parsed grammar
/// description, as `glean` describes them.
pub fn data_from_parse(ast: &Start) -> (r: ParserData)
    requires
        gleanable(ast@),
    ensures
        r@ == glean(ast@)->Some_0,
        r.terms_to_store@.no_duplicates(),
{
    try_data_from_parse(ast).unwrap()
}

} // verus!



