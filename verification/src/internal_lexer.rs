// Hand-written lexer for grammar descriptions.
use vstd::prelude::*;

verus! {

/// `String::push` appends one character at the end of the string; its
/// documentation promises nothing more and nothing less.
pub assume_specification[ String::push ](s: &mut String, ch: char)
    ensures
        final(s)@ == old(s)@.push(ch),
;

/// The kinds of token found in a grammar description.
#[derive(Clone, Copy, PartialEq, Eq, Structural, Debug)]
pub enum Token {
    Nonterm,
    Term,
    Semicolon,
    Produces,
    Bar,
    NullVal,
    EndOfInput,
    Store,
    LeftArrow,
    RightArrow,
}

impl View for Token {
    type V = Token;

    open spec fn view(&self) -> Token {
        *self
    }
}

/// The attribute of a token as a mathematical value.
pub enum SpecAttr {
    Skip,
    AttrString(Seq<char>),
}

/// The attribute carried by a token: the identifier's text for
/// nonterminals and terminals, nothing for the other tokens.
#[derive(Clone, Debug)]
pub enum Attr {
    Skip,
    AttrString(String),
}

impl View for Attr {
    type V = SpecAttr;

    open spec fn view(&self) -> SpecAttr {
        match self {
            Attr::Skip => SpecAttr::Skip,
            Attr::AttrString(s) => SpecAttr::AttrString(s@),
        }
    }
}

impl Attr {
    /// A copy of the attribute with the same value.
    pub fn duplicate(&self) -> (r: Attr)
        ensures
            r@ == self@,
    {
        match self {
            Attr::Skip => Attr::Skip,
            Attr::AttrString(s) => Attr::AttrString(s.clone()),
        }
    }
}

/// A token, its attribute and the (column, line) where it starts.
pub type Lexeme = (Token, Attr, (usize, usize));

/// The mathematical value of a `Lexeme`.
pub type SpecLexeme = (Token, SpecAttr, (usize, usize));

/// A copy of a lexeme with the same value.
pub fn duplicate_lexeme(l: &Lexeme) -> (r: Lexeme)
    ensures
        r@ == l@,
{
    (l.0, l.1.duplicate(), l.2)
}

/// A lexing error at a location.
pub struct LexError {
    loc: (usize, usize),
    message: &'static str,
}

// ---------------------------------------------------------------------
// The lexical structure of a grammar description, as spec functions.
// ---------------------------------------------------------------------

pub open spec fn spec_is_lower(c: char) -> bool {
    'a' <= c && c <= 'z'
}

pub open spec fn spec_is_upper(c: char) -> bool {
    'A' <= c && c <= 'Z'
}

/// ASCII whitespace: space, tab, line feed, form feed, carriage return.
pub open spec fn spec_is_whitespace(c: char) -> bool {
    c == ' ' || c == '\t' || c == '\n' || c == '\x0C' || c == '\r'
}

/// Characters that may continue an identifier that started with a
/// lower-case (`upper == false`) or upper-case (`upper == true`) letter.
pub open spec fn continues_word(c: char, upper: bool) -> bool {
    (if upper {
        spec_is_upper(c)
    } else {
        spec_is_lower(c)
    }) || c == '_'
}

/// (column, line) of the character at index `p`: the first character is at
/// (1, 1); a line feed character starts a new line at column 1, every other
/// character is one column to the right of the one before it.
pub open spec fn loc_at(chars: Seq<char>, p: int) -> (int, int)
    decreases p,
{
    if p <= 0 {
        (1, 1)
    } else {
        let prev = loc_at(chars, p - 1);
        if chars[p] == '\n' {
            (1, prev.1 + 1)
        } else {
            (prev.0 + 1, prev.1)
        }
    }
}

/// The location of index `p` as a pair of machine integers.
pub open spec fn spec_loc(chars: Seq<char>, p: int) -> (usize, usize) {
    (loc_at(chars, p).0 as usize, loc_at(chars, p).1 as usize)
}

/// The first index at or after `p` that does not hold whitespace.
pub open spec fn skip_whitespace(chars: Seq<char>, p: int) -> int
    decreases chars.len() - p,
{
    if 0 <= p < chars.len() && spec_is_whitespace(chars[p]) {
        skip_whitespace(chars, p + 1)
    } else {
        p
    }
}

/// The first index at or after `p` that does not continue a word.
pub open spec fn word_end(chars: Seq<char>, p: int, upper: bool) -> int
    decreases chars.len() - p,
{
    if 0 <= p < chars.len() && continues_word(chars[p], upper) {
        word_end(chars, p + 1, upper)
    } else {
        p
    }
}

pub open spec fn null_word() -> Seq<char> {
    seq!['n', 'u', 'l', 'l']
}

/// The keyword that opens the list of stored terminals.
pub open spec fn store_word() -> Seq<char> {
    seq!['S', 't', 'o', 'r', 'e']
}

/// What the lexer finds at a position.
pub enum LexStep {
    /// A token, its attribute, its location and the index after it.
    Found { token: Token, attr: SpecAttr, loc: (usize, usize), next: int },
    /// Only whitespace is left.
    End,
    /// A character that starts no token.
    Invalid,
}

/// The token that starts at the first non-whitespace character at or after `p`.
pub open spec fn lex_at(chars: Seq<char>, p: int) -> LexStep {
    let q = skip_whitespace(chars, p);
    if q >= chars.len() {
        LexStep::End
    } else {
        let c = chars[q];
        let loc = spec_loc(chars, q);
        if q + 5 <= chars.len() && chars.subrange(q, q + 5) == store_word() {
            LexStep::Found { token: Token::Store, attr: SpecAttr::Skip, loc, next: q + 5 }
        } else if spec_is_lower(c) {
            let e = word_end(chars, q + 1, false);
            let w = chars.subrange(q, e);
            if w == null_word() {
                LexStep::Found { token: Token::NullVal, attr: SpecAttr::Skip, loc, next: e }
            } else {
                LexStep::Found { token: Token::Term, attr: SpecAttr::AttrString(w), loc, next: e }
            }
        } else if spec_is_upper(c) {
            let e = word_end(chars, q + 1, true);
            LexStep::Found {
                token: Token::Nonterm,
                attr: SpecAttr::AttrString(chars.subrange(q, e)),
                loc,
                next: e,
            }
        } else if c == ';' {
            LexStep::Found { token: Token::Semicolon, attr: SpecAttr::Skip, loc, next: q + 1 }
        } else if c == '|' {
            LexStep::Found { token: Token::Bar, attr: SpecAttr::Skip, loc, next: q + 1 }
        } else if c == '$' {
            LexStep::Found { token: Token::EndOfInput, attr: SpecAttr::Skip, loc, next: q + 1 }
        } else if c == '<' {
            LexStep::Found { token: Token::LeftArrow, attr: SpecAttr::Skip, loc, next: q + 1 }
        } else if c == '>' {
            LexStep::Found { token: Token::RightArrow, attr: SpecAttr::Skip, loc, next: q + 1 }
        } else if c == ':' && q + 2 < chars.len() && chars[q + 1] == ':' && chars[q + 2] == '=' {
            LexStep::Found { token: Token::Produces, attr: SpecAttr::Skip, loc, next: q + 3 }
        } else {
            LexStep::Invalid
        }
    }
}

/// The number of line feeds at indices 1 through `p`.
pub open spec fn newlines_through(chars: Seq<char>, p: int) -> nat {
    chars.subrange(1, p + 1).filter(|c: char| c == '\n').len()
}

/// The line of index `p` is one more than the line feeds at indices 1
/// through `p`.
pub proof fn lemma_loc_line(chars: Seq<char>, p: int)
    requires
        0 <= p < chars.len(),
    ensures
        loc_at(chars, p).1 == 1 + newlines_through(chars, p),
    decreases p,
{
    reveal(Seq::filter);
    if p == 0 {
        assert(chars.subrange(1, 1) =~= Seq::<char>::empty());
    } else {
        lemma_loc_line(chars, p - 1);
        let s = chars.subrange(1, p + 1);
        assert(s.drop_last() =~= chars.subrange(1, p));
        assert(s.last() == chars[p]);
    }
}

/// The column of index `p` counts from the last line feed at an index `j`
/// from 1 through `p`, or from before the start (`j == 0`) when there is
/// none: it is `p - j + 1`.
pub proof fn lemma_loc_column(chars: Seq<char>, p: int, j: int)
    requires
        0 <= p < chars.len(),
        j == 0 || (1 <= j <= p && chars[j] == '\n'),
        forall|k: int| j < k <= p && 1 <= k ==> chars[k] != '\n',
    ensures
        loc_at(chars, p).0 == p - j + 1,
    decreases p,
{
    if p > 0 && chars[p] != '\n' {
        lemma_loc_column(chars, p - 1, j);
    }
}

proof fn lemma_loc_bounds(chars: Seq<char>, p: int)
    requires
        0 <= p,
    ensures
        1 <= loc_at(chars, p).0 <= p + 1,
        1 <= loc_at(chars, p).1 <= p + 1,
    decreases p,
{
    if p > 0 {
        lemma_loc_bounds(chars, p - 1);
    }
}

proof fn lemma_skip_whitespace(chars: Seq<char>, p: int)
    requires
        0 <= p <= chars.len(),
    ensures
        p <= skip_whitespace(chars, p) <= chars.len(),
        skip_whitespace(chars, p) < chars.len() ==> !spec_is_whitespace(
            chars[skip_whitespace(chars, p)],
        ),
    decreases chars.len() - p,
{
    if p < chars.len() && spec_is_whitespace(chars[p]) {
        lemma_skip_whitespace(chars, p + 1);
    }
}

proof fn lemma_word_end(chars: Seq<char>, p: int, upper: bool)
    requires
        0 <= p <= chars.len(),
    ensures
        p <= word_end(chars, p, upper) <= chars.len(),
    decreases chars.len() - p,
{
    if p < chars.len() && continues_word(chars[p], upper) {
        lemma_word_end(chars, p + 1, upper);
    }
}

/// Every token found lies after `p`, within the input.
pub proof fn lemma_lex_at_advances(chars: Seq<char>, p: int)
    requires
        0 <= p <= chars.len(),
    ensures
        lex_at(chars, p) matches LexStep::Found { next, .. } ==> p < next <= chars.len(),
{
    lemma_skip_whitespace(chars, p);
    let q = skip_whitespace(chars, p);
    if q < chars.len() {
        lemma_word_end(chars, q + 1, false);
        lemma_word_end(chars, q + 1, true);
    }
}

proof fn lemma_word_run(chars: Seq<char>, p: int, upper: bool)
    requires
        0 <= p <= chars.len(),
    ensures
        p <= word_end(chars, p, upper) <= chars.len(),
        forall|k: int| p <= k < word_end(chars, p, upper) ==> continues_word(#[trigger] chars[k], upper),
        word_end(chars, p, upper) == chars.len() || !continues_word(chars[word_end(chars, p, upper)], upper),
    decreases chars.len() - p,
{
    if p < chars.len() && continues_word(chars[p], upper) {
        lemma_word_run(chars, p + 1, upper);
    }
}

/// Whitespace is skipped: a space, tab, line feed, form feed or carriage
/// return in front of the input changes neither what is found next nor the
/// tokens that follow.
pub proof fn lemma_whitespace_skipped(chars: Seq<char>, p: int)
    requires
        0 <= p < chars.len(),
        chars[p] == ' ' || chars[p] == '\t' || chars[p] == '\n' || chars[p] == '\x0C' || chars[p]
            == '\r',
    ensures
        lex_at(chars, p) == lex_at(chars, p + 1),
        tokens_from(chars, p) == tokens_from(chars, p + 1),
{
    assert(skip_whitespace(chars, p) == skip_whitespace(chars, p + 1));
    lemma_tokens_from_unfold(chars, p);
    lemma_tokens_from_unfold(chars, p + 1);
}

/// A lower-case word is the longest run of lower-case letters and `_` that
/// starts at the first character after the whitespace; it is the `null`
/// keyword exactly when it is the word `null`, and otherwise a terminal
/// whose text is the whole word. An upper-case word is read the same way,
/// with upper-case letters, as a nonterminal, unless it starts with `Store`.
pub proof fn lemma_lex_word(chars: Seq<char>, p: int)
    requires
        0 <= p <= chars.len(),
        skip_whitespace(chars, p) < chars.len(),
    ensures
        ({
            let q = skip_whitespace(chars, p);
            let c = chars[q];
            let lower = 'a' <= c && c <= 'z';
            let upper = 'A' <= c && c <= 'Z';
            let store = q + 5 <= chars.len() && chars.subrange(q, q + 5) == seq!['S', 't', 'o', 'r', 'e'];
            (lower || (upper && !store)) ==> (lex_at(chars, p) matches LexStep::Found {
                token,
                attr,
                loc,
                next,
            } && {
                let w = chars.subrange(q, next);
                &&& q < next <= chars.len()
                &&& loc == spec_loc(chars, q)
                &&& forall|k: int|
                    q < k < next ==> (if lower {
                        'a' <= #[trigger] chars[k] && chars[k] <= 'z'
                    } else {
                        'A' <= chars[k] && chars[k] <= 'Z'
                    }) || chars[k] == '_'
                &&& next == chars.len() || !((if lower {
                    'a' <= chars[next] && chars[next] <= 'z'
                } else {
                    'A' <= chars[next] && chars[next] <= 'Z'
                }) || chars[next] == '_')
                &&& lower ==> ((token == Token::NullVal) <==> w == seq!['n', 'u', 'l', 'l'])
                &&& lower && token == Token::NullVal ==> attr == SpecAttr::Skip
                &&& lower && token != Token::NullVal ==> token == Token::Term && attr
                    == SpecAttr::AttrString(w)
                &&& upper ==> token == Token::Nonterm && attr == SpecAttr::AttrString(w)
            })
        }),
{
    let q = skip_whitespace(chars, p);
    lemma_skip_whitespace(chars, p);
    lemma_word_run(chars, q + 1, false);
    lemma_word_run(chars, q + 1, true);
    assert(store_word() =~= seq!['S', 't', 'o', 'r', 'e']);
    assert(null_word() =~= seq!['n', 'u', 'l', 'l']);
}

/// Punctuation: after the whitespace, `;`, `|`, `$`, `<` and `>` are one
/// token each, `::=` is the `produces` token, and any other character that
/// starts no word is refused.
pub proof fn lemma_lex_punctuation(chars: Seq<char>, p: int)
    requires
        0 <= p <= chars.len(),
        skip_whitespace(chars, p) < chars.len(),
    ensures
        ({
            let q = skip_whitespace(chars, p);
            let c = chars[q];
            let loc = spec_loc(chars, q);
            &&& c == ';' ==> lex_at(chars, p) == LexStep::Found { token: Token::Semicolon, attr: SpecAttr::Skip, loc, next: q + 1 }
            &&& c == '|' ==> lex_at(chars, p) == LexStep::Found { token: Token::Bar, attr: SpecAttr::Skip, loc, next: q + 1 }
            &&& c == '$' ==> lex_at(chars, p) == LexStep::Found { token: Token::EndOfInput, attr: SpecAttr::Skip, loc, next: q + 1 }
            &&& c == '<' ==> lex_at(chars, p) == LexStep::Found { token: Token::LeftArrow, attr: SpecAttr::Skip, loc, next: q + 1 }
            &&& c == '>' ==> lex_at(chars, p) == LexStep::Found { token: Token::RightArrow, attr: SpecAttr::Skip, loc, next: q + 1 }
            &&& (q + 2 < chars.len() && c == ':' && chars[q + 1] == ':' && chars[q + 2] == '=') ==> lex_at(chars, p)
                == LexStep::Found { token: Token::Produces, attr: SpecAttr::Skip, loc, next: q + 3 }
            &&& !(('a' <= c && c <= 'z') || ('A' <= c && c <= 'Z') || c == ';' || c == '|' || c == '$' || c
                == '<' || c == '>' || (q + 2 < chars.len() && c == ':' && chars[q + 1] == ':' && chars[q
                + 2] == '=')) ==> lex_at(chars, p) == LexStep::Invalid
            &&& lex_at(chars, p) != LexStep::End
        }),
{
    let q = skip_whitespace(chars, p);
    lemma_skip_whitespace(chars, p);
    if q + 5 <= chars.len() && chars.subrange(q, q + 5) == store_word() {
        assert(chars.subrange(q, q + 5)[0] == chars[q]);
    }
}

/// Only whitespace is left exactly when the lexer finds the end.
pub proof fn lemma_lex_end(chars: Seq<char>, p: int)
    requires
        0 <= p <= chars.len(),
    ensures
        lex_at(chars, p) is End <==> forall|k: int| p <= k < chars.len() ==> (#[trigger] chars[k] == ' '
            || chars[k] == '\t' || chars[k] == '\n' || chars[k] == '\x0C' || chars[k] == '\r'),
    decreases chars.len() - p,
{
    lemma_skip_whitespace(chars, p);
    if p < chars.len() {
        if spec_is_whitespace(chars[p]) {
            lemma_lex_end(chars, p + 1);
            assert(skip_whitespace(chars, p) == skip_whitespace(chars, p + 1));
        } else {
            assert(skip_whitespace(chars, p) == p);
        }
    }
}

/// The kind of what the lexer finds next.
#[derive(PartialEq, Eq, Structural, Debug, Clone, Copy)]
pub enum Ahead {
    Token,
    End,
    Invalid,
}

pub open spec fn ahead(l: LexStep) -> Ahead {
    match l {
        LexStep::Found { .. } => Ahead::Token,
        LexStep::End => Ahead::End,
        LexStep::Invalid => Ahead::Invalid,
    }
}

/// The tokens of the input from index `p` on, in order, and whether they are
/// followed by a character that starts no token (rather than by the end).
pub open spec fn tokens_from(chars: Seq<char>, p: int) -> (Seq<SpecLexeme>, bool)
    decreases chars.len() - p,
{
    match lex_at(chars, p) {
        LexStep::Found { token, attr, loc, next } => {
            if p < next <= chars.len() {
                let rest = tokens_from(chars, next);
                (seq![(token, attr, loc)] + rest.0, rest.1)
            } else {
                (seq![], false)
            }
        },
        LexStep::End => (seq![], false),
        LexStep::Invalid => (seq![], true),
    }
}

/// One step of `tokens_from`: the first token found, then the tokens after it.
pub proof fn lemma_tokens_from_unfold(chars: Seq<char>, p: int)
    requires
        0 <= p <= chars.len(),
    ensures
        match lex_at(chars, p) {
            LexStep::Found { token, attr, loc, next } => {
                &&& p < next <= chars.len()
                &&& tokens_from(chars, p) == (
                    seq![(token, attr, loc)] + tokens_from(chars, next).0,
                    tokens_from(chars, next).1,
                )
            },
            LexStep::End => tokens_from(chars, p) == (Seq::<SpecLexeme>::empty(), false),
            LexStep::Invalid => tokens_from(chars, p) == (Seq::<SpecLexeme>::empty(), true),
        },
{
    lemma_lex_at_advances(chars, p);
}

/// Nothing but the end is left once all characters are read.
pub proof fn lemma_tokens_from_end(chars: Seq<char>)
    ensures
        lex_at(chars, chars.len() as int) is End,
        tokens_from(chars, chars.len() as int) == (Seq::<SpecLexeme>::empty(), false),
{
}

/// Nonterminal and terminal tokens carry their text.
pub open spec fn lexeme_named(l: SpecLexeme) -> bool {
    (l.0 == Token::Term || l.0 == Token::Nonterm) ==> l.1 is AttrString
}

/// Every nonterminal and terminal token the lexer finds carries its text.
pub proof fn lemma_tokens_named(chars: Seq<char>, p: int)
    requires
        0 <= p <= chars.len(),
    ensures
        forall|i: int|
            0 <= i < tokens_from(chars, p).0.len() ==> lexeme_named(
                #[trigger] tokens_from(chars, p).0[i],
            ),
    decreases chars.len() - p,
{
    lemma_tokens_from_unfold(chars, p);
    if let LexStep::Found { token, attr, loc, next } = lex_at(chars, p) {
        lemma_tokens_named(chars, next);
        let toks = tokens_from(chars, p).0;
        assert forall|i: int| 0 <= i < toks.len() implies lexeme_named(#[trigger] toks[i]) by {
            if i > 0 {
                assert(toks[i] == tokens_from(chars, next).0[i - 1]);
            }
        }
    }
}

// ---------------------------------------------------------------------
// The lexer.
// ---------------------------------------------------------------------

/// A lexer over the characters of a grammar description.
pub struct LexEngine {
    cur_ind: usize,
    char_vec: Vec<char>,
    cur_loc: (usize, usize),
    errors: Vec<LexError>,
}

impl LexEngine {
    /// The characters being lexed.
    pub closed spec fn chars(&self) -> Seq<char> {
        self.char_vec@
    }

    /// The index of the next character to read; `chars().len()` once all
    /// characters have been read.
    pub closed spec fn pos(&self) -> int {
        self.cur_ind as int
    }

    /// The (column, line) of the next character to read.
    pub closed spec fn loc(&self) -> (usize, usize) {
        self.cur_loc
    }

    pub closed spec fn wf(&self) -> bool {
        &&& self.char_vec.len() > 0
        &&& self.cur_ind <= self.char_vec.len()
        &&& self.cur_ind < self.char_vec.len() ==> self.cur_loc == spec_loc(
            self.char_vec@,
            self.cur_ind as int,
        )
    }

    /// The position of a well-formed lexer lies within its input.
    pub proof fn lemma_wf_bounds(&self)
        requires
            self.wf(),
        ensures
            0 <= self.pos() <= self.chars().len(),
            self.chars().len() > 0,
    {
    }

    /// A lexer positioned at the first character of `string`; an error when
    /// the string is empty.
    pub fn new_from_string(string: String) -> (res: Result<Self, &'static str>)
        ensures
            res is Err <==> string@.len() == 0,
            res matches Err(e) ==> e@ == "String given is empty"@,
            res matches Ok(lex) ==> {
                &&& lex.wf()
                &&& lex.chars() == string@
                &&& lex.pos() == 0
            },
    {
        let s = string.as_str();
        let n = s.unicode_len();
        let mut char_vec: Vec<char> = Vec::new();
        for i in 0..n
            invariant
                n == s@.len(),
                s@ == string@,
                char_vec@ == s@.subrange(0, i as int),
        {
            char_vec.push(s.get_char(i));
        }
        assert(char_vec@ == string@);
        let cur_ind: usize = 0;
        if char_vec.len() == 0 {
            Err("String given is empty")
        } else {
            Ok(LexEngine { cur_ind, char_vec, cur_loc: (1, 1), errors: Vec::new() })
        }
    }

    /// Moves to the next character; an error, and no move, when the current
    /// character is the last one.
    pub fn next_char(&mut self) -> (r: Result<(), &'static str>)
        requires
            old(self).wf(),
            old(self).pos() < old(self).chars().len(),
        ensures
            final(self).wf(),
            final(self).chars() == old(self).chars(),
            r is Err <==> old(self).pos() == old(self).chars().len() - 1,
            r is Err ==> *final(self) == *old(self),
            r is Ok ==> final(self).pos() == old(self).pos() + 1,
            r is Ok ==> final(self).loc().0 == (if final(self).chars()[final(self).pos()] == '\n' {
                1
            } else {
                old(self).loc().0 + 1
            }),
            r is Ok ==> final(self).loc().1 == (if final(self).chars()[final(self).pos()] == '\n' {
                old(self).loc().1 + 1
            } else {
                old(self).loc().1 as int
            }),
            final(self).pos() < final(self).chars().len(),
    {
        if self.cur_ind >= self.char_vec.len() - 1 {
            Err("no more chars")
        } else {
            self.cur_ind += 1;
            proof {
                lemma_loc_bounds(self.char_vec@, self.cur_ind as int);
            }
            if self.cur_char() == '\n' {
                self.cur_loc.0 = 1;
                self.cur_loc.1 += 1;
            } else {
                self.cur_loc.0 += 1;
            }
            Ok(())
        }
    }

    /// Moves past the current character; past the end of the input when it
    /// is the last one.
    fn consume_char(&mut self)
        requires
            old(self).wf(),
            old(self).pos() < old(self).chars().len(),
        ensures
            final(self).wf(),
            final(self).chars() == old(self).chars(),
            final(self).pos() == old(self).pos() + 1,
    {
        if self.next_char().is_err() {
            self.cur_ind = self.char_vec.len();
        }
    }

    /// The next token, its attribute and its location, as `lex_at` describes
    /// them; `None` once only whitespace is left.
    pub fn next_tok(&mut self) -> (r: Option<Lexeme>)
        requires
            old(self).wf(),
            !(lex_at(old(self).chars(), old(self).pos()) is Invalid),
        ensures
            final(self).wf(),
            final(self).chars() == old(self).chars(),
            match lex_at(old(self).chars(), old(self).pos()) {
                LexStep::Found { token, attr, loc, next } => {
                    &&& r matches Some(l)
                    &&& l@ == (token, attr, loc)
                    &&& final(self).pos() == next
                },
                _ => r is None && final(self).pos() == final(self).chars().len(),
            },
    {
        let ghost p0 = self.pos();
        let ghost chars = self.chars();
        proof {
            lemma_skip_whitespace(chars, p0);
        }
        while self.cur_ind < self.char_vec.len() && Self::is_whitespace(self.cur_char())
            invariant
                self.wf(),
                chars == old(self).chars(),
                p0 == old(self).pos(),
                self.chars() == chars,
                p0 <= self.pos() <= chars.len(),
                skip_whitespace(chars, self.pos()) == skip_whitespace(chars, p0),
            decreases chars.len() - self.pos(),
        {
            if self.next_char().is_err() {
                self.cur_ind = self.char_vec.len();
                assert(skip_whitespace(chars, chars.len() as int) == chars.len());
                assert(lex_at(chars, p0) is End);
                return None;
            }
        }
        if self.cur_ind >= self.char_vec.len() {
            return None;
        }
        let ghost q = self.pos();
        assert(skip_whitespace(chars, q) == q);
        let c = self.cur_char();
        // the keyword `Store`, before the nonterminals
        if self.at_store() {
            let loc = self.cur_loc;
            self.consume_char();
            self.consume_char();
            self.consume_char();
            self.consume_char();
            self.consume_char();
            return Some((Token::Store, Attr::Skip, loc));
        }
        // identifiers: terminals (and `null`) in lower case, nonterminals in upper case
        if Self::is_lower_letter(c) || Self::is_upper_letter(c) {
            let upper = Self::is_upper_letter(c);
            let mut temp_str = String::new();
            temp_str.push(c);
            let start_loc = self.cur_loc;
            self.consume_char();
            proof {
                lemma_word_end(chars, q + 1, upper);
            }
            while self.cur_ind < self.char_vec.len() && ((upper && Self::is_upper_letter(
                self.cur_char(),
            )) || (!upper && Self::is_lower_letter(self.cur_char())) || self.cur_char() == '_')
                invariant
                    self.wf(),
                    chars == old(self).chars(),
                    self.chars() == chars,
                    0 <= q < self.pos() <= chars.len(),
                    temp_str@ == chars.subrange(q, self.pos()),
                    word_end(chars, self.pos(), upper) == word_end(chars, q + 1, upper),
                decreases chars.len() - self.pos(),
            {
                let ghost before = self.pos();
                temp_str.push(self.cur_char());
                self.consume_char();
                assert(chars.subrange(q, self.pos()) =~= chars.subrange(q, before).push(
                    chars[before],
                ));
            }
            if upper {
                return Some((Token::Nonterm, Attr::AttrString(temp_str), start_loc));
            }
            proof {
                reveal_strlit("null");
                assert("null"@ =~= null_word());
            }
            if temp_str == String::from_str("null") {
                return Some((Token::NullVal, Attr::Skip, start_loc));
            } else {
                return Some((Token::Term, Attr::AttrString(temp_str), start_loc));
            }
        }
        // single-character symbols
        let loc = self.cur_loc;
        if c == ';' {
            self.consume_char();
            return Some((Token::Semicolon, Attr::Skip, loc));
        }
        if c == '|' {
            self.consume_char();
            return Some((Token::Bar, Attr::Skip, loc));
        }
        if c == '$' {
            self.consume_char();
            return Some((Token::EndOfInput, Attr::Skip, loc));
        }
        if c == '<' {
            self.consume_char();
            return Some((Token::LeftArrow, Attr::Skip, loc));
        }
        if c == '>' {
            self.consume_char();
            return Some((Token::RightArrow, Attr::Skip, loc));
        }
        // finally the 'produces' symbol `::=`
        self.consume_char();
        self.consume_char();
        self.consume_char();
        Some((Token::Produces, Attr::Skip, loc))
    }

    /// What the lexer finds next: a token, the end of the input, or a
    /// character that starts no token (where `next_tok` may not be called).
    pub fn peek(&self) -> (a: Ahead)
        requires
            self.wf(),
        ensures
            a == ahead(lex_at(self.chars(), self.pos())),
    {
        let ghost chars = self.chars();
        let len = self.char_vec.len();
        let mut i = self.cur_ind;
        proof {
            lemma_skip_whitespace(chars, i as int);
        }
        while i < len && Self::is_whitespace(self.char_vec[i])
            invariant
                self.wf(),
                chars == self.chars(),
                len == chars.len(),
                self.pos() <= i <= len,
                skip_whitespace(chars, i as int) == skip_whitespace(chars, self.pos()),
            decreases len - i,
        {
            i += 1;
        }
        if i >= len {
            return Ahead::End;
        }
        let c = self.char_vec[i];
        if Self::is_lower_letter(c) || Self::is_upper_letter(c) || c == ';' || c == '|' || c
            == '$' || c == '<' || c == '>' {
            return Ahead::Token;
        }
        if c == ':' && 2 < len - i && self.char_vec[i + 1] == ':' && self.char_vec[i + 2] == '=' {
            Ahead::Token
        } else {
            Ahead::Invalid
        }
    }

    /// Whether the keyword `Store` starts at the current character.
    fn at_store(&self) -> (b: bool)
        requires
            self.wf(),
            self.pos() < self.chars().len(),
        ensures
            b == (self.pos() + 5 <= self.chars().len() && self.chars().subrange(
                self.pos(),
                self.pos() + 5,
            ) == store_word()),
    {
        let i = self.cur_ind;
        let v = &self.char_vec;
        if v.len() - i < 5 {
            return false;
        }
        let b = v[i] == 'S' && v[i + 1] == 't' && v[i + 2] == 'o' && v[i + 3] == 'r' && v[i + 4] == 'e';
        proof {
            let w = self.chars().subrange(i as int, i + 5);
            if b {
                assert(w =~= store_word());
            } else {
                if w == store_word() {
                    assert(w[0] == v@[i as int]);
                    assert(w[1] == v@[i + 1]);
                    assert(w[2] == v@[i + 2]);
                    assert(w[3] == v@[i + 3]);
                    assert(w[4] == v@[i + 4]);
                }
            }
        }
        b
    }

    fn cur_char(&self) -> (c: char)
        requires
            self.cur_ind < self.char_vec.len(),
        ensures
            c == self.char_vec@[self.cur_ind as int],
    {
        self.char_vec[self.cur_ind]
    }

    fn is_lower_letter(c: char) -> (b: bool)
        ensures
            b == spec_is_lower(c),
    {
        c >= 'a' && c <= 'z'
    }

    fn is_upper_letter(c: char) -> (b: bool)
        ensures
            b == spec_is_upper(c),
    {
        c >= 'A' && c <= 'Z'
    }

    fn is_whitespace(c: char) -> (b: bool)
        ensures
            b == spec_is_whitespace(c),
    {
        c == ' ' || c == '\t' || c == '\n' || c == '\x0C' || c == '\r'
    }
}

} // verus!
