// LL(1) parsing tables from FIRST and FOLLOW sets (the construction of
// 'The Red Dragon Book'). Whether the grammar is LL(1) is not checked: where
// two productions claim one entry, the later production keeps it.
use crate::data_gleaning::{
    Derivation,
    Nonterm,
    ParserData,
    Production,
    SpecDerivation,
    SpecProduction,
    SpecParserData,
    Symbol,
    Term,
    insert_term,
    lemma_to_set_push,
    productions_view,
};
use vstd::prelude::*;

verus! {

pub const START_ID: i32 = 0;

pub const END_ID: i32 = 0;

// ---------------------------------------------------------------------
// Productions grouped by nonterminal.
// ---------------------------------------------------------------------

/// The derivations of the productions of `n`, in order.
pub open spec fn derivations_of(g: Seq<SpecProduction>, n: Nonterm) -> Seq<SpecDerivation>
    decreases g.len(),
{
    if g.len() == 0 {
        seq![]
    } else {
        let r = derivations_of(g.drop_last(), n);
        if g.last().nonterm == n {
            r.push(g.last().derivation)
        } else {
            r
        }
    }
}

pub open spec fn has_productions(g: Seq<SpecProduction>, n: Nonterm) -> bool {
    exists|i: int| 0 <= i < g.len() && g[i].nonterm == n
}

pub open spec fn derivations_view(v: Seq<Derivation>) -> Seq<SpecDerivation> {
    v.map_values(|d: Derivation| d@)
}

/// `cool` holds, for each nonterminal with productions in `g`, its
/// derivations in order, and nothing else.
pub open spec fn grouped(cool: Seq<(Nonterm, Vec<Derivation>)>, g: Seq<SpecProduction>) -> bool {
    &&& forall|i: int, j: int|
        0 <= i < cool.len() && 0 <= j < cool.len() && i != j ==> #[trigger] cool[i].0
            != #[trigger] cool[j].0
    &&& forall|i: int|
        0 <= i < cool.len() ==> derivations_view(#[trigger] cool[i].1@) == derivations_of(
            g,
            cool[i].0,
        )
    &&& forall|n: Nonterm|
        has_productions(g, n) <==> exists|i: int| 0 <= i < cool.len() && #[trigger] cool[i].0 == n
}

// ---------------------------------------------------------------------
// FIRST.
// ---------------------------------------------------------------------

/// The symbols of a right-hand side; none for the empty one.
pub open spec fn deriv_syms(d: SpecDerivation) -> Seq<Symbol> {
    match d {
        SpecDerivation::Null => seq![],
        SpecDerivation::Symbols(syms) => syms,
    }
}

/// Every symbol of `syms` before position `j` is a nonterminal in `nul`.
pub open spec fn nullable_prefix(syms: Seq<Symbol>, j: int, nul: Set<Nonterm>) -> bool {
    forall|x: int| 0 <= x < j ==> (#[trigger] syms[x] is N && nul.contains(syms[x]->N_0))
}

/// Some alternative of `n` is made of nonterminals in `nul` only.
pub open spec fn derives_empty_in(g: Seq<SpecProduction>, n: Nonterm, nul: Set<Nonterm>) -> bool {
    exists|d: int|
        0 <= d < derivations_of(g, n).len() && #[trigger] nullable_prefix(
            deriv_syms(derivations_of(g, n)[d]),
            deriv_syms(derivations_of(g, n)[d]).len() as int,
            nul,
        )
}

/// The nonterminals shown to derive the empty string in `k` rounds.
pub open spec fn nullable_level(g: Seq<SpecProduction>, k: nat) -> Set<Nonterm>
    decreases k,
{
    if k == 0 {
        Set::empty()
    } else {
        let prev = nullable_level(g, (k - 1) as nat);
        Set::new(|n: Nonterm| derives_empty_in(g, n, prev))
    }
}

/// The nonterminals that derive the empty string: the least set holding
/// every nonterminal with an alternative made of its members only.
pub open spec fn nullable_set(g: Seq<SpecProduction>) -> Set<Nonterm> {
    Set::new(|n: Nonterm| exists|k: nat| #[trigger] nullable_level(g, k).contains(n))
}

/// Symbol `j` of alternative `d` of `c` can begin a string that `c`
/// derives: every symbol before it derives the empty string.
pub open spec fn first_pos(g: Seq<SpecProduction>, c: Nonterm, d: int, j: int) -> bool {
    &&& 0 <= d < derivations_of(g, c).len()
    &&& 0 <= j < deriv_syms(derivations_of(g, c)[d]).len()
    &&& nullable_prefix(deriv_syms(derivations_of(g, c)[d]), j, nullable_set(g))
}

pub open spec fn sym_at(g: Seq<SpecProduction>, c: Nonterm, d: int, j: int) -> Symbol {
    deriv_syms(derivations_of(g, c)[d])[j]
}

/// `t` can begin a string that `c` derives in one step.
pub open spec fn first_base(g: Seq<SpecProduction>, c: Nonterm, t: Term) -> bool {
    exists|d: int, j: int| #[trigger] first_pos(g, c, d, j) && sym_at(g, c, d, j) == Symbol::T(t)
}

/// FIRST of the nonterminal at position `j` of alternative `d` of `c` goes
/// into FIRST of `c`.
pub open spec fn first_edge(g: Seq<SpecProduction>, c: Nonterm, d: int, j: int) -> bool {
    first_pos(g, c, d, j) && sym_at(g, c, d, j) is N
}

/// `c` is reached from `b` along at most `k` edges.
pub open spec fn first_reach(g: Seq<SpecProduction>, b: Nonterm, c: Nonterm, k: nat) -> bool
    decreases k,
{
    ||| b == c
    ||| (k > 0 && exists|d: int, j: int|
        #[trigger] first_edge(g, b, d, j) && first_reach(g, sym_at(g, b, d, j)->N_0, c, (k - 1) as nat))
}

/// FIRST of a nonterminal: the terminals that begin the strings it derives.
pub open spec fn first_set(g: Seq<SpecProduction>, b: Nonterm) -> Set<Term> {
    Set::new(
        |t: Term| exists|c: Nonterm, k: nat| #[trigger] first_reach(g, b, c, k) && first_base(g, c, t),
    )
}

/// FIRST of a string of symbols: the terminals that can begin it, and
/// whether it can derive the empty string.
pub open spec fn first_of(gs: Seq<Symbol>, g: Seq<SpecProduction>) -> (Set<Term>, bool) {
    (
        Set::new(
            |t: Term|
                exists|j: int|
                    0 <= j < gs.len() && #[trigger] nullable_prefix(gs, j, nullable_set(g)) && (gs[j]
                        == Symbol::T(t) || (gs[j] is N && first_set(g, gs[j]->N_0).contains(t))),
        ),
        nullable_prefix(gs, gs.len() as int, nullable_set(g)),
    )
}

proof fn lemma_nullable_level_mono(g: Seq<SpecProduction>, k: nat)
    ensures
        nullable_level(g, k).subset_of(nullable_level(g, k + 1)),
    decreases k,
{
    if k > 0 {
        lemma_nullable_level_mono(g, (k - 1) as nat);
        let prev = nullable_level(g, (k - 1) as nat);
        let cur = nullable_level(g, k);
        assert forall|n: Nonterm| cur.contains(n) implies nullable_level(g, k + 1).contains(n) by {
            let d = choose|d: int|
                0 <= d < derivations_of(g, n).len() && #[trigger] nullable_prefix(
                    deriv_syms(derivations_of(g, n)[d]),
                    deriv_syms(derivations_of(g, n)[d]).len() as int,
                    prev,
                );
            let s = deriv_syms(derivations_of(g, n)[d]);
            assert(nullable_prefix(s, s.len() as int, cur));
        }
    }
}

proof fn lemma_nullable_level_mono_to(g: Seq<SpecProduction>, k1: nat, k2: nat)
    requires
        k1 <= k2,
    ensures
        nullable_level(g, k1).subset_of(nullable_level(g, k2)),
    decreases k2 - k1,
{
    if k1 < k2 {
        lemma_nullable_level_mono(g, k1);
        lemma_nullable_level_mono_to(g, (k1 + 1) as nat, k2);
    }
}

/// Once a round adds nothing, the rounds have found every nullable nonterminal.
proof fn lemma_nullable_stable(g: Seq<SpecProduction>, k: nat)
    requires
        nullable_level(g, k + 1) == nullable_level(g, k),
    ensures
        nullable_set(g) == nullable_level(g, k),
{
    assert forall|n: Nonterm| nullable_set(g).contains(n) <==> nullable_level(g, k).contains(n) by {
        if nullable_set(g).contains(n) {
            let j = choose|j: nat| #[trigger] nullable_level(g, j).contains(n);
            if j <= k {
                lemma_nullable_level_mono_to(g, j, k);
            } else {
                lemma_nullable_level_stays(g, k, j);
            }
        }
    }
    assert(nullable_set(g) =~= nullable_level(g, k));
}

proof fn lemma_nullable_level_stays(g: Seq<SpecProduction>, k: nat, j: nat)
    requires
        nullable_level(g, k + 1) == nullable_level(g, k),
        k <= j,
    ensures
        nullable_level(g, j) == nullable_level(g, k),
    decreases j - k,
{
    if j > k {
        lemma_nullable_level_stays(g, k, (j - 1) as nat);
        assert(nullable_level(g, j) =~= nullable_level(g, k + 1));
    }
}

proof fn lemma_has_derivations(g: Seq<SpecProduction>, n: Nonterm)
    requires
        derivations_of(g, n).len() > 0,
    ensures
        has_productions(g, n),
{
    if !has_productions(g, n) {
        lemma_no_derivations(g, n);
    }
}

proof fn lemma_prefix_at_some_level(g: Seq<SpecProduction>, s: Seq<Symbol>, j: int) -> (k: nat)
    requires
        0 <= j <= s.len(),
        nullable_prefix(s, j, nullable_set(g)),
    ensures
        nullable_prefix(s, j, nullable_level(g, k)),
    decreases j,
{
    if j == 0 {
        0
    } else {
        assert(nullable_prefix(s, j - 1, nullable_set(g)));
        let k1 = lemma_prefix_at_some_level(g, s, j - 1);
        assert(s[j - 1] is N && nullable_set(g).contains(s[j - 1]->N_0));
        let k2 = choose|k: nat| #[trigger] nullable_level(g, k).contains(s[j - 1]->N_0);
        let k = if k1 <= k2 { k2 } else { k1 };
        lemma_nullable_level_mono_to(g, k1, k);
        lemma_nullable_level_mono_to(g, k2, k);
        assert forall|x: int| 0 <= x < j implies (#[trigger] s[x] is N && nullable_level(g, k).contains(
            s[x]->N_0,
        )) by {
            if x < j - 1 {
                assert(s[x] is N && nullable_level(g, k1).contains(s[x]->N_0));
            }
        }
        k
    }
}

/// A nonterminal with an alternative made of nullable nonterminals is
/// nullable.
pub proof fn lemma_nullable_rule(g: Seq<SpecProduction>, n: Nonterm, d: int)
    requires
        0 <= d < derivations_of(g, n).len(),
        nullable_prefix(
            deriv_syms(derivations_of(g, n)[d]),
            deriv_syms(derivations_of(g, n)[d]).len() as int,
            nullable_set(g),
        ),
    ensures
        nullable_set(g).contains(n),
{
    let s = deriv_syms(derivations_of(g, n)[d]);
    let k = lemma_prefix_at_some_level(g, s, s.len() as int);
    assert(derives_empty_in(g, n, nullable_level(g, k)));
    assert(nullable_level(g, k + 1).contains(n));
}

/// Every set closed under that rule holds the nullable nonterminals.
pub proof fn lemma_nullable_least(g: Seq<SpecProduction>, s: Set<Nonterm>)
    requires
        forall|n: Nonterm, d: int|
            0 <= d < derivations_of(g, n).len() && #[trigger] nullable_prefix(
                deriv_syms(derivations_of(g, n)[d]),
                deriv_syms(derivations_of(g, n)[d]).len() as int,
                s,
            ) ==> s.contains(n),
    ensures
        nullable_set(g).subset_of(s),
{
    assert forall|n: Nonterm| nullable_set(g).contains(n) implies s.contains(n) by {
        let k = choose|k: nat| #[trigger] nullable_level(g, k).contains(n);
        lemma_nullable_level_in(g, s, k);
    }
}

proof fn lemma_nullable_level_in(g: Seq<SpecProduction>, s: Set<Nonterm>, k: nat)
    requires
        forall|n: Nonterm, d: int|
            0 <= d < derivations_of(g, n).len() && #[trigger] nullable_prefix(
                deriv_syms(derivations_of(g, n)[d]),
                deriv_syms(derivations_of(g, n)[d]).len() as int,
                s,
            ) ==> s.contains(n),
    ensures
        nullable_level(g, k).subset_of(s),
    decreases k,
{
    if k > 0 {
        lemma_nullable_level_in(g, s, (k - 1) as nat);
        let prev = nullable_level(g, (k - 1) as nat);
        assert forall|n: Nonterm| nullable_level(g, k).contains(n) implies s.contains(n) by {
            let d = choose|d: int|
                0 <= d < derivations_of(g, n).len() && #[trigger] nullable_prefix(
                    deriv_syms(derivations_of(g, n)[d]),
                    deriv_syms(derivations_of(g, n)[d]).len() as int,
                    prev,
                );
            let syms = deriv_syms(derivations_of(g, n)[d]);
            assert(nullable_prefix(syms, syms.len() as int, s));
        }
    }
}

/// FIRST sets obey the rules of their construction: a terminal, or FIRST
/// of a nonterminal, after a prefix that derives the empty string in an
/// alternative of `c` is in FIRST of `c`.
pub proof fn lemma_first_rules(g: Seq<SpecProduction>, c: Nonterm, d: int, j: int)
    requires
        first_pos(g, c, d, j),
    ensures
        sym_at(g, c, d, j) matches Symbol::T(t) ==> first_set(g, c).contains(t),
        sym_at(g, c, d, j) matches Symbol::N(b) ==> first_set(g, b).subset_of(first_set(g, c)),
{
    assert(first_reach(g, c, c, 0));
    if let Symbol::N(b) = sym_at(g, c, d, j) {
        assert forall|t: Term| first_set(g, b).contains(t) implies first_set(g, c).contains(t) by {
            let (e, k) = choose|e: Nonterm, k: nat| #[trigger] first_reach(g, b, e, k) && first_base(g, e, t);
            assert(first_edge(g, c, d, j));
            assert(first_reach(g, c, e, k + 1));
        }
    }
}

/// Sets `fs` that obey the rules of the construction hold the FIRST sets.
pub proof fn lemma_first_least(g: Seq<SpecProduction>, fs: spec_fn(Nonterm) -> Set<Term>, b: Nonterm)
    requires
        forall|c: Nonterm, d: int, j: int, t: Term|
            #![trigger first_pos(g, c, d, j), fs(c).contains(t)]
            first_pos(g, c, d, j) && sym_at(g, c, d, j) == Symbol::T(t) ==> fs(c).contains(t),
        forall|c: Nonterm, d: int, j: int| #[trigger] first_edge(g, c, d, j) ==> fs(
            sym_at(g, c, d, j)->N_0,
        ).subset_of(fs(c)),
    ensures
        first_set(g, b).subset_of(fs(b)),
{
    assert forall|t: Term| first_set(g, b).contains(t) implies fs(b).contains(t) by {
        let (c, k) = choose|c: Nonterm, k: nat| #[trigger] first_reach(g, b, c, k) && first_base(g, c, t);
        lemma_first_least_reach(g, fs, b, c, k, t);
    }
}

proof fn lemma_first_least_reach(
    g: Seq<SpecProduction>,
    fs: spec_fn(Nonterm) -> Set<Term>,
    b: Nonterm,
    c: Nonterm,
    k: nat,
    t: Term,
)
    requires
        forall|c: Nonterm, d: int, j: int, t: Term|
            #![trigger first_pos(g, c, d, j), fs(c).contains(t)]
            first_pos(g, c, d, j) && sym_at(g, c, d, j) == Symbol::T(t) ==> fs(c).contains(t),
        forall|c: Nonterm, d: int, j: int| #[trigger] first_edge(g, c, d, j) ==> fs(
            sym_at(g, c, d, j)->N_0,
        ).subset_of(fs(c)),
        first_reach(g, b, c, k),
        first_base(g, c, t),
    ensures
        fs(b).contains(t),
    decreases k,
{
    if b == c {
        let (d, j) = choose|d: int, j: int| #[trigger] first_pos(g, c, d, j) && sym_at(g, c, d, j) == Symbol::T(t);
    } else {
        let (d, j) = choose|d: int, j: int|
            #[trigger] first_edge(g, b, d, j) && first_reach(g, sym_at(g, b, d, j)->N_0, c, (k - 1) as nat);
        lemma_first_least_reach(g, fs, sym_at(g, b, d, j)->N_0, c, (k - 1) as nat, t);
    }
}

/// Distinct nonterminals with productions are no more than the productions.
proof fn lemma_distinct_with_productions(c: Seq<Nonterm>, g: Seq<SpecProduction>)
    requires
        c.no_duplicates(),
        forall|j: int| 0 <= j < c.len() ==> has_productions(g, #[trigger] c[j]),
    ensures
        c.len() <= g.len(),
{
    let u = g.map_values(|p: SpecProduction| p.nonterm);
    assert forall|x: Nonterm| c.to_set().contains(x) implies u.to_set().contains(x) by {
        let j = choose|j: int| 0 <= j < c.len() && c[j] == x;
        assert(has_productions(g, c[j]));
        let i = choose|i: int| 0 <= i < g.len() && g[i].nonterm == x;
        assert(u[i] == x);
    }
    c.unique_seq_to_set();
    u.lemma_cardinality_of_set();
    vstd::set_lib::lemma_len_subset(c.to_set(), u.to_set());
}

// ---------------------------------------------------------------------
// FOLLOW.
// ---------------------------------------------------------------------

/// Nonterminal `b` is symbol `j` of the right-hand side of production `i`.
pub open spec fn occurs(g: Seq<SpecProduction>, i: int, j: int, b: Nonterm) -> bool {
    &&& 0 <= i < g.len()
    &&& g[i].derivation matches SpecDerivation::Symbols(syms)
    &&& 0 <= j < syms.len()
    &&& syms[j] == Symbol::N(b)
}

/// The symbols after symbol `j` of the right-hand side of production `i`.
pub open spec fn rest_after(g: Seq<SpecProduction>, i: int, j: int) -> Seq<Symbol> {
    match g[i].derivation {
        SpecDerivation::Symbols(syms) => syms.subrange(j + 1, syms.len() as int),
        SpecDerivation::Null => seq![],
    }
}

/// What FOLLOW of `b` gets directly: the end marker when `b` is the start
/// symbol, and FIRST of what follows each occurrence of `b`.
pub open spec fn follow_base(g: Seq<SpecProduction>, b: Nonterm, t: Term) -> bool {
    ||| (b == Nonterm(START_ID) && t == Term(END_ID))
    ||| exists|i: int, j: int|
        #[trigger] occurs(g, i, j, b) && first_of(rest_after(g, i, j), g).0.contains(t)
}

/// FOLLOW of the left-hand side of production `i` goes into FOLLOW of `b`:
/// `b` is symbol `j` of its right-hand side, and what follows can be empty.
pub open spec fn follow_edge(g: Seq<SpecProduction>, b: Nonterm, i: int, j: int) -> bool {
    occurs(g, i, j, b) && first_of(rest_after(g, i, j), g).1
}

/// `c` is reached from `b` along at most `k` edges.
pub open spec fn follow_reach(g: Seq<SpecProduction>, b: Nonterm, c: Nonterm, k: nat) -> bool
    decreases k,
{
    ||| b == c
    ||| (k > 0 && exists|i: int, j: int|
        #[trigger] follow_edge(g, b, i, j) && follow_reach(g, g[i].nonterm, c, (k - 1) as nat))
}

/// FOLLOW of `b`: the terminals that the nonterminals reached from `b` get
/// directly. These are the least sets with the end marker in FOLLOW of the
/// start symbol, FIRST of what follows each occurrence of a nonterminal in
/// its FOLLOW set, and FOLLOW of a left-hand side in FOLLOW of every
/// nonterminal that can end one of its productions (`lemma_follow_rules`,
/// `lemma_follow_least`).
pub open spec fn follow_of(b: Nonterm, g: Seq<SpecProduction>) -> Set<Term> {
    Set::new(
        |t: Term| exists|c: Nonterm, k: nat| #[trigger] follow_reach(g, b, c, k) && follow_base(g, c, t),
    )
}

/// The left-hand side of an edge out of `b`.
pub open spec fn follow_succ(g: Seq<SpecProduction>, b: Nonterm, n: Nonterm) -> bool {
    exists|i: int, j: int| #[trigger] follow_edge(g, b, i, j) && g[i].nonterm == n
}

proof fn lemma_reach_append(g: Seq<SpecProduction>, a: Nonterm, c: Nonterm, k: nat, i: int, j: int)
    requires
        follow_reach(g, a, c, k),
        follow_edge(g, c, i, j),
    ensures
        follow_reach(g, a, g[i].nonterm, k + 1),
    decreases k,
{
    if a == c {
        assert(follow_reach(g, g[i].nonterm, g[i].nonterm, k));
    } else {
        let (i2, j2) = choose|i2: int, j2: int|
            #[trigger] follow_edge(g, a, i2, j2) && follow_reach(g, g[i2].nonterm, c, (k - 1) as nat);
        lemma_reach_append(g, g[i2].nonterm, c, (k - 1) as nat, i, j);
    }
}

/// Every nonterminal reached from a member of `v` is in `v`, when `v` holds
/// the left-hand side of every edge out of each of its members.
proof fn lemma_reach_closed(g: Seq<SpecProduction>, v: Seq<Nonterm>, b: Nonterm, c: Nonterm, k: nat)
    requires
        v.contains(b),
        forall|x: int, n: Nonterm| 0 <= x < v.len() && #[trigger] follow_succ(g, v[x], n) ==> v.contains(n),
        follow_reach(g, b, c, k),
    ensures
        v.contains(c),
    decreases k,
{
    if b != c {
        let (i, j) = choose|i: int, j: int|
            #[trigger] follow_edge(g, b, i, j) && follow_reach(g, g[i].nonterm, c, (k - 1) as nat);
        let x = choose|x: int| 0 <= x < v.len() && v[x] == b;
        assert(follow_succ(g, v[x], g[i].nonterm));
        lemma_reach_closed(g, v, g[i].nonterm, c, (k - 1) as nat);
    }
}

/// FIRST of the empty string: nothing, and it derives the empty string.
pub proof fn lemma_first_empty(g: Seq<SpecProduction>)
    ensures
        first_of(Seq::<Symbol>::empty(), g) == (Set::<Term>::empty(), true),
{
    assert(first_of(Seq::<Symbol>::empty(), g).0 =~= Set::<Term>::empty());
}

/// FIRST of a single nonterminal is its FIRST set, and it derives the empty
/// string exactly when the nonterminal is nullable.
pub proof fn lemma_first_nonterminal(b: Nonterm, g: Seq<SpecProduction>)
    ensures
        first_of(seq![Symbol::N(b)], g) == (first_set(g, b), nullable_set(g).contains(b)),
{
    let gs = seq![Symbol::N(b)];
    assert(nullable_prefix(gs, 0, nullable_set(g)));
    assert(gs[0] == Symbol::N(b));
    assert(first_of(gs, g).0 =~= first_set(g, b));
}

proof fn lemma_prod_first_is_first_of(p: SpecProduction, g: Seq<SpecProduction>)
    ensures
        prod_first(p, g) == first_of(deriv_syms(p.derivation), g),
{
    if p.derivation is Null {
        lemma_first_empty(g);
    }
}

/// The table has an entry at `(a, t)` exactly when a production of `a`
/// predicts `t`: `t` begins its right-hand side, or the right-hand side
/// derives the empty string and `t` follows `a` (a nonterminal with a
/// name). The entry holds the last production of `a` that predicts `t`.
pub proof fn lemma_table_predicts(g: Seq<SpecProduction>, keys: Seq<Nonterm>)
    ensures
        forall|a: Nonterm, t: Term|
            #[trigger] ll1_table(g, keys, g.len() as int).dom().contains((a, t)) <==> exists|i: int|
                #![trigger g[i]]
                0 <= i < g.len() && g[i].nonterm == a && (first_of(deriv_syms(g[i].derivation), g).0.contains(t)
                    || (first_of(deriv_syms(g[i].derivation), g).1 && keys.contains(a) && follow_of(
                    a,
                    g,
                ).contains(t))),
        forall|a: Nonterm, t: Term, i: int|
            #![trigger ll1_table(g, keys, g.len() as int)[(a, t)], g[i]]
            0 <= i < g.len() && g[i].nonterm == a && (first_of(deriv_syms(g[i].derivation), g).0.contains(t)
                || (first_of(deriv_syms(g[i].derivation), g).1 && keys.contains(a) && follow_of(
                a,
                g,
            ).contains(t))) && (forall|j: int|
                #![trigger g[j]]
                i < j < g.len() && g[j].nonterm == a ==> !(first_of(deriv_syms(g[j].derivation), g).0.contains(t)
                    || (first_of(deriv_syms(g[j].derivation), g).1 && keys.contains(a) && follow_of(
                    a,
                    g,
                ).contains(t)))) ==> ll1_table(g, keys, g.len() as int)[(a, t)] == g[i],
{
    lemma_ll1_table_entries(g, keys, g.len() as int);
    assert forall|i: int, key: (Nonterm, Term)| 0 <= i < g.len() implies claims(g[i], keys, g, key) == (g[i].nonterm
        == key.0 && (first_of(deriv_syms(g[i].derivation), g).0.contains(key.1) || (first_of(
        deriv_syms(g[i].derivation),
        g,
    ).1 && keys.contains(key.0) && follow_of(key.0, g).contains(key.1)))) by {
        lemma_prod_first_is_first_of(g[i], g);
    }
    assert forall|a: Nonterm, t: Term|
        #[trigger] ll1_table(g, keys, g.len() as int).dom().contains((a, t)) <==> exists|i: int|
            #![trigger g[i]]
            0 <= i < g.len() && g[i].nonterm == a && (first_of(deriv_syms(g[i].derivation), g).0.contains(t)
                || (first_of(deriv_syms(g[i].derivation), g).1 && keys.contains(a) && follow_of(
                a,
                g,
            ).contains(t))) by {
        if ll1_table(g, keys, g.len() as int).dom().contains((a, t)) {
            let i = choose|i: int| 0 <= i < g.len() && claims(#[trigger] g[i], keys, g, (a, t));
            assert(claims(g[i], keys, g, (a, t)));
        }
        if exists|i: int|
            #![trigger g[i]]
            0 <= i < g.len() && g[i].nonterm == a && (first_of(deriv_syms(g[i].derivation), g).0.contains(t)
                || (first_of(deriv_syms(g[i].derivation), g).1 && keys.contains(a) && follow_of(
                a,
                g,
            ).contains(t))) {
            let i = choose|i: int|
                #![trigger g[i]]
                0 <= i < g.len() && g[i].nonterm == a && (first_of(deriv_syms(g[i].derivation), g).0.contains(t)
                    || (first_of(deriv_syms(g[i].derivation), g).1 && keys.contains(a) && follow_of(
                    a,
                    g,
                ).contains(t)));
            assert(claims(g[i], keys, g, (a, t)));
        }
    }
    assert forall|a: Nonterm, t: Term, i: int|
        #![trigger ll1_table(g, keys, g.len() as int)[(a, t)], g[i]]
        0 <= i < g.len() && g[i].nonterm == a && (first_of(deriv_syms(g[i].derivation), g).0.contains(t)
            || (first_of(deriv_syms(g[i].derivation), g).1 && keys.contains(a) && follow_of(
            a,
            g,
        ).contains(t))) && (forall|j: int|
            #![trigger g[j]]
            i < j < g.len() && g[j].nonterm == a ==> !(first_of(deriv_syms(g[j].derivation), g).0.contains(t)
                || (first_of(deriv_syms(g[j].derivation), g).1 && keys.contains(a) && follow_of(
                a,
                g,
            ).contains(t)))) implies ll1_table(g, keys, g.len() as int)[(a, t)] == g[i] by {
        assert(claims(g[i], keys, g, (a, t)));
        assert forall|j: int| i < j < g.len() implies !claims(#[trigger] g[j], keys, g, (a, t)) by {
            assert(claims(g[j], keys, g, (a, t)) == (g[j].nonterm == a && (first_of(deriv_syms(g[j].derivation), g).0.contains(t) || (first_of(
                deriv_syms(g[j].derivation),
                g,
            ).1 && keys.contains(a) && follow_of(a, g).contains(t)))));
        }
        assert(last_claim(g, keys, g.len() as int, (a, t), i));
    }
}

/// The end marker follows the start symbol.
pub proof fn lemma_follow_start(g: Seq<SpecProduction>)
    ensures
        follow_of(Nonterm(START_ID), g).contains(Term(END_ID)),
{
    assert(follow_reach(g, Nonterm(START_ID), Nonterm(START_ID), 0));
}

/// FOLLOW sets obey the rules of their construction: FIRST of what follows
/// an occurrence of `b` is in FOLLOW of `b`, and where that can be empty,
/// FOLLOW of the left-hand side is in FOLLOW of `b`.
pub proof fn lemma_follow_rules(g: Seq<SpecProduction>, i: int, j: int, b: Nonterm)
    requires
        occurs(g, i, j, b),
    ensures
        first_of(rest_after(g, i, j), g).0.subset_of(follow_of(b, g)),
        first_of(rest_after(g, i, j), g).1 ==> follow_of(g[i].nonterm, g).subset_of(follow_of(b, g)),
{
    assert forall|t: Term| first_of(rest_after(g, i, j), g).0.contains(t) implies follow_of(
        b,
        g,
    ).contains(t) by {
        assert(follow_reach(g, b, b, 0));
        assert(follow_base(g, b, t));
    }
    if first_of(rest_after(g, i, j), g).1 {
        assert forall|t: Term| follow_of(g[i].nonterm, g).contains(t) implies follow_of(
            b,
            g,
        ).contains(t) by {
            let (c, k) = choose|c: Nonterm, k: nat|
                #[trigger] follow_reach(g, g[i].nonterm, c, k) && follow_base(g, c, t);
            assert(follow_edge(g, b, i, j));
            assert(follow_reach(g, b, c, k + 1));
        }
    }
}

/// Sets `fs` that obey the rules of the construction hold the FOLLOW sets.
pub proof fn lemma_follow_least(g: Seq<SpecProduction>, fs: spec_fn(Nonterm) -> Set<Term>, b: Nonterm)
    requires
        fs(Nonterm(START_ID)).contains(Term(END_ID)),
        forall|i: int, j: int, c: Nonterm| #[trigger] occurs(g, i, j, c) ==> first_of(
            rest_after(g, i, j),
            g,
        ).0.subset_of(fs(c)),
        forall|i: int, j: int, c: Nonterm| #[trigger] follow_edge(g, c, i, j) ==> fs(
            g[i].nonterm,
        ).subset_of(fs(c)),
    ensures
        follow_of(b, g).subset_of(fs(b)),
{
    assert forall|t: Term| follow_of(b, g).contains(t) implies fs(b).contains(t) by {
        let (c, k) = choose|c: Nonterm, k: nat| #[trigger] follow_reach(g, b, c, k) && follow_base(g, c, t);
        lemma_follow_least_reach(g, fs, b, c, k, t);
    }
}

proof fn lemma_follow_least_reach(
    g: Seq<SpecProduction>,
    fs: spec_fn(Nonterm) -> Set<Term>,
    b: Nonterm,
    c: Nonterm,
    k: nat,
    t: Term,
)
    requires
        fs(Nonterm(START_ID)).contains(Term(END_ID)),
        forall|i: int, j: int, c: Nonterm| #[trigger] occurs(g, i, j, c) ==> first_of(
            rest_after(g, i, j),
            g,
        ).0.subset_of(fs(c)),
        forall|i: int, j: int, c: Nonterm| #[trigger] follow_edge(g, c, i, j) ==> fs(
            g[i].nonterm,
        ).subset_of(fs(c)),
        follow_reach(g, b, c, k),
        follow_base(g, c, t),
    ensures
        fs(b).contains(t),
    decreases k,
{
    if b == c {
        if !(c == Nonterm(START_ID) && t == Term(END_ID)) {
            let (i, j) = choose|i: int, j: int|
                #[trigger] occurs(g, i, j, c) && first_of(rest_after(g, i, j), g).0.contains(t);
        }
    } else {
        let (i, j) = choose|i: int, j: int|
            #[trigger] follow_edge(g, b, i, j) && follow_reach(g, g[i].nonterm, c, (k - 1) as nat);
        lemma_follow_least_reach(g, fs, g[i].nonterm, c, (k - 1) as nat, t);
    }
}

// ---------------------------------------------------------------------
// Sets of terminals held in vectors.
// ---------------------------------------------------------------------

/// Adds the terminals of `src` to those of `dst`.
fn union_into(dst: &mut Vec<Term>, src: &Vec<Term>)
    requires
        old(dst)@.no_duplicates(),
    ensures
        final(dst)@.no_duplicates(),
        final(dst)@.to_set() == old(dst)@.to_set().union(src@.to_set()),
{
    for i in 0..src.len()
        invariant
            dst@.no_duplicates(),
            dst@.to_set() == old(dst)@.to_set().union(src@.take(i as int).to_set()),
    {
        insert_term(dst, src[i]);
        proof {
            assert(src@.take(i + 1) =~= src@.take(i as int).push(src@[i as int]));
            lemma_to_set_push(src@.take(i as int), src@[i as int]);
            assert(dst@.to_set() =~= old(dst)@.to_set().union(src@.take(i + 1).to_set()));
        }
    }
    assert(src@.take(src.len() as int) =~= src@);
}

/// A copy of a vector of terminals.
fn copy_terms(v: &Vec<Term>) -> (r: Vec<Term>)
    ensures
        r@ == v@,
{
    let mut r: Vec<Term> = Vec::new();
    for i in 0..v.len()
        invariant
            r@ == v@.take(i as int),
    {
        r.push(v[i]);
        assert(r@ =~= v@.take(i + 1));
    }
    assert(v@.take(v.len() as int) =~= v@);
    r
}

/// The position of the group of `n`, if there is one.
fn find_group(cool: &Vec<(Nonterm, Vec<Derivation>)>, n: Nonterm) -> (r: Option<usize>)
    ensures
        r matches Some(j) ==> j < cool.len() && cool@[j as int].0 == n,
        r is None ==> forall|j: int| 0 <= j < cool.len() ==> cool@[j].0 != n,
{
    for j in 0..cool.len()
        invariant
            forall|k: int| 0 <= k < j ==> cool@[k].0 != n,
    {
        if cool[j].0 == n {
            return Some(j);
        }
    }
    None
}

/// The derivations of each nonterminal, grouped.
pub fn refine_prods_into_hashmap(prods: &Vec<Production>) -> (refined_map: Vec<
    (Nonterm, Vec<Derivation>),
>)
    ensures
        grouped(refined_map@, productions_view(prods@)),
{
    let ghost g = productions_view(prods@);
    let mut refined_map: Vec<(Nonterm, Vec<Derivation>)> = Vec::new();
    for i in 0..prods.len()
        invariant
            g == productions_view(prods@),
            grouped(refined_map@, g.take(i as int)),
    {
        let prod = &prods[i];
        let ghost gi = g.take(i + 1);
        assert(gi.drop_last() =~= g.take(i as int));
        assert(gi.last() == prod@);
        let ghost old_map = refined_map@;
        match find_group(&refined_map, prod.nonterm) {
            Some(j) => {
                let mut entry: (Nonterm, Vec<Derivation>) = (prod.nonterm, Vec::new());
                refined_map.set_and_swap(j, &mut entry);
                entry.1.push(prod.derivation.duplicate());
                refined_map.set(j, entry);
                assert forall|k: int| 0 <= k < refined_map@.len() implies derivations_view(
                    #[trigger] refined_map@[k].1@,
                ) == derivations_of(gi, refined_map@[k].0) by {
                    if k == j {
                        assert(derivations_view(refined_map@[k].1@) =~= derivations_view(
                            old_map[k].1@,
                        ).push(prod.derivation@));
                    } else {
                        assert(old_map[k].0 != prod.nonterm);
                    }
                }
                assert forall|n: Nonterm| has_productions(gi, n) implies exists|k: int|
                    0 <= k < refined_map@.len() && #[trigger] refined_map@[k].0 == n by {
                    let x = choose|x: int| 0 <= x < gi.len() && gi[x].nonterm == n;
                    if x < i {
                        assert(g.take(i as int)[x].nonterm == n);
                        assert(has_productions(g.take(i as int), n));
                        let k = choose|k: int| 0 <= k < old_map.len() && #[trigger] old_map[k].0 == n;
                        assert(refined_map@[k].0 == n);
                    } else {
                        assert(refined_map@[j as int].0 == n);
                    }
                }
                assert forall|n: Nonterm|
                    (exists|k: int| 0 <= k < refined_map@.len() && #[trigger] refined_map@[k].0 == n)
                    implies has_productions(gi, n) by {
                    let k = choose|k: int| 0 <= k < refined_map@.len() && #[trigger] refined_map@[k].0 == n;
                    assert(old_map[k].0 == n);
                    assert(has_productions(g.take(i as int), n));
                    let x = choose|x: int| 0 <= x < i && g.take(i as int)[x].nonterm == n;
                    assert(gi[x].nonterm == n);
                }
            },
            None => {
                let mut v: Vec<Derivation> = Vec::new();
                v.push(prod.derivation.duplicate());
                refined_map.push((prod.nonterm, v));
                assert forall|k: int| 0 <= k < refined_map@.len() implies derivations_view(
                    #[trigger] refined_map@[k].1@,
                ) == derivations_of(gi, refined_map@[k].0) by {
                    if k == old_map.len() {
                        assert(!(exists|x: int| 0 <= x < old_map.len() && #[trigger] old_map[x].0 == prod.nonterm));
                        assert(!has_productions(g.take(i as int), prod.nonterm));
                        lemma_no_derivations(g.take(i as int), prod.nonterm);
                        assert(derivations_view(refined_map@[k].1@) =~= seq![prod.derivation@]);
                    } else {
                        assert(old_map[k] == refined_map@[k]);
                    }
                }
                assert forall|n: Nonterm| has_productions(gi, n) implies exists|k: int|
                    0 <= k < refined_map@.len() && #[trigger] refined_map@[k].0 == n by {
                    let x = choose|x: int| 0 <= x < gi.len() && gi[x].nonterm == n;
                    if x < i {
                        assert(g.take(i as int)[x].nonterm == n);
                        assert(has_productions(g.take(i as int), n));
                        let k = choose|k: int| 0 <= k < old_map.len() && #[trigger] old_map[k].0 == n;
                        assert(refined_map@[k].0 == n);
                    } else {
                        assert(refined_map@[old_map.len() as int].0 == n);
                    }
                }
                assert forall|n: Nonterm|
                    (exists|k: int| 0 <= k < refined_map@.len() && #[trigger] refined_map@[k].0 == n)
                    implies has_productions(gi, n) by {
                    let k = choose|k: int| 0 <= k < refined_map@.len() && #[trigger] refined_map@[k].0 == n;
                    if k < old_map.len() {
                        assert(old_map[k].0 == n);
                        assert(has_productions(g.take(i as int), n));
                        let x = choose|x: int| 0 <= x < i && g.take(i as int)[x].nonterm == n;
                        assert(gi[x].nonterm == n);
                    } else {
                        assert(gi[i as int].nonterm == n);
                    }
                }
            },
        }
    }
    assert(g.take(prods.len() as int) =~= g);
    refined_map
}

proof fn lemma_no_derivations(g: Seq<SpecProduction>, n: Nonterm)
    requires
        !has_productions(g, n),
    ensures
        derivations_of(g, n) == Seq::<SpecDerivation>::empty(),
    decreases g.len(),
{
    if g.len() > 0 {
        assert(!has_productions(g.drop_last(), n)) by {
            if has_productions(g.drop_last(), n) {
                let x = choose|x: int| 0 <= x < g.drop_last().len() && g.drop_last()[x].nonterm == n;
                assert(g[x].nonterm == n);
            }
        }
        lemma_no_derivations(g.drop_last(), n);
        assert(g[g.len() - 1].nonterm != n);
    }
}

/// Whether `n` is in `v`.
fn contains_nonterm(v: &Vec<Nonterm>, n: Nonterm) -> (b: bool)
    ensures
        b == v@.contains(n),
{
    for k in 0..v.len()
        invariant
            forall|x: int| 0 <= x < k ==> v@[x] != n,
    {
        if v[k] == n {
            assert(v@[k as int] == n);
            return true;
        }
    }
    false
}

/// A copy of a vector of nonterminals.
fn copy_nonterms(v: &Vec<Nonterm>) -> (r: Vec<Nonterm>)
    ensures
        r@ == v@,
{
    let mut r: Vec<Nonterm> = Vec::new();
    for i in 0..v.len()
        invariant
            r@ == v@.take(i as int),
    {
        r.push(v[i]);
        assert(r@ =~= v@.take(i + 1));
    }
    assert(v@.take(v.len() as int) =~= v@);
    r
}

/// Whether every symbol of `syms` is a nonterminal in `nul`.
fn all_in(syms: &Vec<Symbol>, nul: &Vec<Nonterm>) -> (b: bool)
    ensures
        b == nullable_prefix(syms@, syms@.len() as int, nul@.to_set()),
{
    for j in 0..syms.len()
        invariant
            nullable_prefix(syms@, j as int, nul@.to_set()),
    {
        match syms[j] {
            Symbol::T(_) => {
                assert(!(syms@[j as int] is N));
                return false;
            },
            Symbol::N(b) => {
                if !contains_nonterm(nul, b) {
                    assert(!nul@.to_set().contains(syms@[j as int]->N_0));
                    return false;
                }
            },
        }
    }
    true
}

/// The nonterminals among the first `x` groups with an alternative made of
/// members of `base`.
pub open spec fn empty_upto(
    cool: Seq<(Nonterm, Vec<Derivation>)>,
    g: Seq<SpecProduction>,
    base: Set<Nonterm>,
    x: int,
) -> Set<Nonterm> {
    Set::new(
        |n: Nonterm|
            exists|y: int| 0 <= y < x && #[trigger] cool[y].0 == n && derives_empty_in(g, n, base),
    )
}

/// One round: every nonterminal with an alternative made of members of
/// `nul` is added to `nul`; whether one was new.
fn nullable_round(
    cool_prods: &Vec<(Nonterm, Vec<Derivation>)>,
    nul: &mut Vec<Nonterm>,
    Ghost(g): Ghost<Seq<SpecProduction>>,
) -> (changed: bool)
    requires
        grouped(cool_prods@, g),
        old(nul)@.no_duplicates(),
    ensures
        final(nul)@.no_duplicates(),
        final(nul)@.to_set() == old(nul)@.to_set().union(
            Set::new(|n: Nonterm| derives_empty_in(g, n, old(nul)@.to_set())),
        ),
        changed <==> final(nul)@.len() > old(nul)@.len(),
        final(nul)@.len() >= old(nul)@.len(),
        forall|x: int| old(nul)@.len() <= x < final(nul)@.len() ==> has_productions(g, #[trigger] final(nul)@[x]),
        forall|x: int| 0 <= x < old(nul)@.len() ==> #[trigger] final(nul)@[x] == old(nul)@[x],
{
    let base = copy_nonterms(nul);
    let ghost bset = base@.to_set();
    let n0 = nul.len();
    assert(nul@.to_set() =~= bset.union(empty_upto(cool_prods@, g, bset, 0)));
    for x in 0..cool_prods.len()
        invariant
            grouped(cool_prods@, g),
            base@.to_set() == bset,
            bset == old(nul)@.to_set(),
            n0 == old(nul)@.len(),
            nul@.no_duplicates(),
            nul@.len() >= n0,
            forall|y: int| 0 <= y < n0 ==> #[trigger] nul@[y] == old(nul)@[y],
            forall|y: int| n0 <= y < nul@.len() ==> has_productions(g, #[trigger] nul@[y]),
            nul@.to_set() == bset.union(empty_upto(cool_prods@, g, bset, x as int)),
    {
        let n = cool_prods[x].0;
        let ds = &cool_prods[x].1;
        let ghost dv = derivations_of(g, n);
        assert(derivations_view(ds@) == dv);
        let mut found = false;
        for d in 0..ds.len()
            invariant
                derivations_view(ds@) == dv,
                found == exists|d2: int| 0 <= d2 < d && #[trigger] nullable_prefix(
                    deriv_syms(dv[d2]),
                    deriv_syms(dv[d2]).len() as int,
                    bset,
                ),
                base@.to_set() == bset,
        {
            assert(dv[d as int] == ds@[d as int]@);
            let ok = match &ds[d] {
                Derivation::Null => {
                    assert(nullable_prefix(deriv_syms(dv[d as int]), 0, bset));
                    true
                },
                Derivation::Symbols(syms) => {
                    assert(deriv_syms(dv[d as int]) == syms@);
                    all_in(syms, &base)
                },
            };
            assert(ok == nullable_prefix(
                deriv_syms(dv[d as int]),
                deriv_syms(dv[d as int]).len() as int,
                bset,
            ));
            if ok {
                found = true;
            }
        }
        let ghost before = nul@;
        if found && !contains_nonterm(nul, n) {
            nul.push(n);
            proof {
                lemma_to_set_push(before, n);
            }
        }
        proof {
            assert(has_productions(g, n)) by {
                assert(exists|k: int| 0 <= k < cool_prods@.len() && #[trigger] cool_prods@[k].0 == n) by {
                    assert(cool_prods@[x as int].0 == n);
                }
            }
            assert(found == derives_empty_in(g, n, bset));
            assert(nul@.to_set() =~= bset.union(empty_upto(cool_prods@, g, bset, x + 1))) by {
                assert forall|m: Nonterm| empty_upto(cool_prods@, g, bset, x + 1).contains(m) implies nul@.to_set().contains(m) by {
                    let y = choose|y: int| 0 <= y < x + 1 && #[trigger] cool_prods@[y].0 == m && derives_empty_in(g, m, bset);
                    if y < x {
                        assert(empty_upto(cool_prods@, g, bset, x as int).contains(m));
                        assert(before.to_set().contains(m));
                        assert(before.contains(m));
                        let w = choose|w: int| 0 <= w < before.len() && before[w] == m;
                        assert(nul@[w] == m);
                    } else {
                        assert(m == n);
                        if !before.contains(n) {
                            assert(nul@[before.len() as int] == n);
                        } else {
                            let w = choose|w: int| 0 <= w < before.len() && before[w] == m;
                            assert(nul@[w] == m);
                        }
                    }
                }
                assert forall|m: Nonterm| nul@.to_set().contains(m) implies bset.union(empty_upto(cool_prods@, g, bset, x + 1)).contains(m) by {
                    if before.contains(m) {
                        assert(before.to_set().contains(m));
                        if !bset.contains(m) {
                            let y = choose|y: int| 0 <= y < x && #[trigger] cool_prods@[y].0 == m && derives_empty_in(g, m, bset);
                            assert(cool_prods@[y].0 == m);
                        }
                    } else {
                        assert(m == n);
                        assert(cool_prods@[x as int].0 == m);
                    }
                }
            }
        }
    }
    proof {
        assert(empty_upto(cool_prods@, g, bset, cool_prods@.len() as int) =~= Set::new(
            |n: Nonterm| derives_empty_in(g, n, bset),
        )) by {
            assert forall|n: Nonterm| derives_empty_in(g, n, bset) implies empty_upto(cool_prods@, g, bset, cool_prods@.len() as int).contains(n) by {
                let d = choose|d: int|
                    0 <= d < derivations_of(g, n).len() && #[trigger] nullable_prefix(
                        deriv_syms(derivations_of(g, n)[d]),
                        deriv_syms(derivations_of(g, n)[d]).len() as int,
                        bset,
                    );
                lemma_has_derivations(g, n);
                let y = choose|y: int| 0 <= y < cool_prods@.len() && #[trigger] cool_prods@[y].0 == n;
            }
        }
    }
    nul.len() > n0
}

/// The nonterminals that derive the empty string, found in rounds until a
/// round adds nothing.
pub fn nullable_nonterms(prods: &Vec<Production>, cool_prods: &Vec<(Nonterm, Vec<Derivation>)>) -> (nul: Vec<
    Nonterm,
>)
    requires
        grouped(cool_prods@, productions_view(prods@)),
    ensures
        nul@.no_duplicates(),
        nul@.to_set() == nullable_set(productions_view(prods@)),
{
    let ghost g = productions_view(prods@);
    let mut nul: Vec<Nonterm> = Vec::new();
    let ghost mut k: nat = 0;
    assert(nul@.to_set() =~= nullable_level(g, 0));
    let mut changed = true;
    while changed
        invariant
            grouped(cool_prods@, g),
            nul@.no_duplicates(),
            nul@.len() <= g.len(),
            forall|x: int| 0 <= x < nul@.len() ==> has_productions(g, #[trigger] nul@[x]),
            nul@.to_set() == nullable_level(g, k),
            !changed ==> k > 0 && nullable_level(g, k) == nullable_level(g, (k - 1) as nat),
        decreases g.len() - nul@.len() + (if changed { 1int } else { 0int }),
    {
        let ghost before = nul@;
        changed = nullable_round(cool_prods, &mut nul, Ghost(g));
        proof {
            lemma_nullable_level_mono(g, k);
            let lk = nullable_level(g, k);
            assert(nullable_level(g, k + 1) == Set::new(|n: Nonterm| derives_empty_in(g, n, lk)));
            assert(nul@.to_set() =~= nullable_level(g, k + 1));
            k = k + 1;
            lemma_distinct_with_productions(nul@, g);
            if !changed {
                assert(nul@ =~= before);
            }
        }
    }
    proof {
        lemma_nullable_stable(g, (k - 1) as nat);
    }
    nul
}

/// What FIRST of `c` gets directly from the positions before `(d, j)`.
pub open spec fn fbase_upto(g: Seq<SpecProduction>, c: Nonterm, d: int, j: int) -> Set<Term> {
    Set::new(
        |t: Term|
            exists|d2: int, j2: int|
                pos_before(d2, j2, d, j) && #[trigger] first_pos(g, c, d2, j2) && sym_at(g, c, d2, j2)
                    == Symbol::T(t),
    )
}

/// The nonterminals with productions at the positions before `(d, j)`
/// whose FIRST sets go into FIRST of `c`.
pub open spec fn fsucc_upto(g: Seq<SpecProduction>, c: Nonterm, d: int, j: int) -> Set<Nonterm> {
    Set::new(
        |n: Nonterm|
            has_productions(g, n) && exists|d2: int, j2: int|
                pos_before(d2, j2, d, j) && #[trigger] first_edge(g, c, d2, j2) && sym_at(
                    g,
                    c,
                    d2,
                    j2,
                )->N_0 == n,
    )
}

/// A nonterminal with productions whose FIRST set goes into FIRST of `c`.
pub open spec fn first_succ(g: Seq<SpecProduction>, c: Nonterm, n: Nonterm) -> bool {
    has_productions(g, n) && exists|d: int, j: int| #[trigger] first_edge(g, c, d, j) && sym_at(g, c, d, j)->N_0 == n
}

/// One pass over the alternatives of `c`: the terminals that begin them
/// directly, and the nonterminals with productions whose FIRST sets go
/// into FIRST of `c`.
fn first_scan(
    c: Nonterm,
    cool_prods: &Vec<(Nonterm, Vec<Derivation>)>,
    nul: &Vec<Nonterm>,
    Ghost(g): Ghost<Seq<SpecProduction>>,
) -> (r: (Vec<Term>, Vec<Nonterm>))
    requires
        grouped(cool_prods@, g),
        nul@.to_set() == nullable_set(g),
    ensures
        r.0@.no_duplicates(),
        r.0@.to_set() == Set::new(|t: Term| first_base(g, c, t)),
        forall|n: Nonterm| r.1@.contains(n) <==> first_succ(g, c, n),
{
    let mut terms: Vec<Term> = Vec::new();
    let mut succs: Vec<Nonterm> = Vec::new();
    let ghost dv = derivations_of(g, c);
    let idx = match find_group(cool_prods, c) {
        Some(idx) => idx,
        None => {
            proof {
                assert(!has_productions(g, c));
                lemma_no_derivations(g, c);
                assert(terms@.to_set() =~= Set::new(|t: Term| first_base(g, c, t)));
            }
            return (terms, succs);
        },
    };
    let ds = &cool_prods[idx].1;
    assert(derivations_view(ds@) == dv);
    assert(terms@.to_set() =~= fbase_upto(g, c, 0, 0));
    assert(succs@.to_set() =~= fsucc_upto(g, c, 0, 0));
    for d in 0..ds.len()
        invariant
            grouped(cool_prods@, g),
            nul@.to_set() == nullable_set(g),
            derivations_view(ds@) == dv,
            dv == derivations_of(g, c),
            terms@.no_duplicates(),
            terms@.to_set() == fbase_upto(g, c, d as int, 0),
            succs@.to_set() == fsucc_upto(g, c, d as int, 0),
    {
        assert(dv[d as int] == ds@[d as int]@);
        match &ds[d] {
            Derivation::Null => {
                assert(deriv_syms(dv[d as int]).len() == 0);
                assert(fbase_upto(g, c, d as int, 0) =~= fbase_upto(g, c, d + 1, 0));
                assert(fsucc_upto(g, c, d as int, 0) =~= fsucc_upto(g, c, d + 1, 0));
            },
            Derivation::Symbols(syms) => {
                let ghost sv = syms@;
                assert(deriv_syms(dv[d as int]) == sv);
                let mut all_null = true;
                for j in 0..syms.len()
                    invariant
                        grouped(cool_prods@, g),
                        nul@.to_set() == nullable_set(g),
                        dv == derivations_of(g, c),
                        0 <= d < dv.len(),
                        deriv_syms(dv[d as int]) == sv,
                        sv == syms@,
                        all_null == nullable_prefix(sv, j as int, nullable_set(g)),
                        terms@.no_duplicates(),
                        terms@.to_set() == fbase_upto(g, c, d as int, j as int),
                        succs@.to_set() == fsucc_upto(g, c, d as int, j as int),
                {
                    let ghost tset = terms@.to_set();
                    let ghost sset = succs@.to_set();
                    assert(sym_at(g, c, d as int, j as int) == sv[j as int]);
                    if all_null {
                        assert(first_pos(g, c, d as int, j as int));
                        match syms[j] {
                            Symbol::T(t) => {
                                insert_term(&mut terms, t);
                                assert(terms@.to_set() =~= fbase_upto(g, c, d as int, j + 1));
                                assert(succs@.to_set() =~= fsucc_upto(g, c, d as int, j + 1));
                            },
                            Symbol::N(b) => {
                                assert(first_edge(g, c, d as int, j as int));
                                if find_group(cool_prods, b).is_some() {
                                    proof {
                                        let y = choose|y: int| 0 <= y < cool_prods@.len() && cool_prods@[y].0 == b;
                                        assert(exists|k: int| 0 <= k < cool_prods@.len() && #[trigger] cool_prods@[k].0 == b);
                                    }
                                    let ghost s0 = succs@;
                                    succs.push(b);
                                    proof {
                                        lemma_to_set_push(s0, b);
                                    }
                                } else {
                                    assert(!has_productions(g, b));
                                }
                                assert(terms@.to_set() =~= fbase_upto(g, c, d as int, j + 1));
                                assert(succs@.to_set() =~= fsucc_upto(g, c, d as int, j + 1));
                            },
                        }
                    } else {
                        assert(!first_pos(g, c, d as int, j as int));
                        assert(terms@.to_set() =~= fbase_upto(g, c, d as int, j + 1));
                        assert(succs@.to_set() =~= fsucc_upto(g, c, d as int, j + 1));
                    }
                    let step = match syms[j] {
                        Symbol::T(_) => false,
                        Symbol::N(b) => contains_nonterm(nul, b),
                    };
                    assert(step == (sv[j as int] is N && nullable_set(g).contains(sv[j as int]->N_0)));
                    all_null = all_null && step;
                    assert(all_null == nullable_prefix(sv, j + 1, nullable_set(g)));
                }
                assert(fbase_upto(g, c, d as int, sv.len() as int) =~= fbase_upto(g, c, d + 1, 0));
                assert(fsucc_upto(g, c, d as int, sv.len() as int) =~= fsucc_upto(g, c, d + 1, 0));
            },
        }
    }
    assert(fbase_upto(g, c, dv.len() as int, 0) =~= Set::new(|t: Term| first_base(g, c, t)));
    assert forall|n: Nonterm| succs@.contains(n) <==> first_succ(g, c, n) by {
        assert(succs@.contains(n) <==> succs@.to_set().contains(n));
        if first_succ(g, c, n) {
            let (d2, j2) = choose|d2: int, j2: int| #[trigger] first_edge(g, c, d2, j2) && sym_at(g, c, d2, j2)->N_0 == n;
            assert(pos_before(d2, j2, dv.len() as int, 0));
        }
    }
    (terms, succs)
}

proof fn lemma_first_reach_append(g: Seq<SpecProduction>, a: Nonterm, c: Nonterm, k: nat, d: int, j: int)
    requires
        first_reach(g, a, c, k),
        first_edge(g, c, d, j),
    ensures
        first_reach(g, a, sym_at(g, c, d, j)->N_0, k + 1),
    decreases k,
{
    if a == c {
        assert(first_reach(g, sym_at(g, c, d, j)->N_0, sym_at(g, c, d, j)->N_0, k));
    } else {
        let (d2, j2) = choose|d2: int, j2: int|
            #[trigger] first_edge(g, a, d2, j2) && first_reach(g, sym_at(g, a, d2, j2)->N_0, c, (k - 1) as nat);
        lemma_first_reach_append(g, sym_at(g, a, d2, j2)->N_0, c, (k - 1) as nat, d, j);
    }
}

/// Every nonterminal with productions reached from a member of `v` is in
/// `v`, when `v` holds every such successor of each of its members.
proof fn lemma_first_reach_closed(g: Seq<SpecProduction>, v: Seq<Nonterm>, b: Nonterm, c: Nonterm, k: nat)
    requires
        v.contains(b),
        forall|x: int, n: Nonterm| 0 <= x < v.len() && #[trigger] first_succ(g, v[x], n) ==> v.contains(n),
        first_reach(g, b, c, k),
        has_productions(g, c),
    ensures
        v.contains(c),
    decreases k,
{
    if b != c {
        let (d, j) = choose|d: int, j: int|
            #[trigger] first_edge(g, b, d, j) && first_reach(g, sym_at(g, b, d, j)->N_0, c, (k - 1) as nat);
        let l = sym_at(g, b, d, j)->N_0;
        if has_productions(g, l) {
            let x = choose|x: int| 0 <= x < v.len() && v[x] == b;
            assert(first_succ(g, v[x], l));
            lemma_first_reach_closed(g, v, l, c, (k - 1) as nat);
        } else {
            lemma_no_derivations(g, l);
            if l != c {
                let (d2, j2) = choose|d2: int, j2: int|
                    #[trigger] first_edge(g, l, d2, j2) && first_reach(g, sym_at(g, l, d2, j2)->N_0, c, (k - 2) as nat);
            }
        }
    }
}

/// FIRST of the nonterminal `a`: the nonterminals reached from `a` are
/// collected, each once, and the terminals that begin their alternatives
/// directly are put together.
fn first_nonterm(
    a: Nonterm,
    cool_prods: &Vec<(Nonterm, Vec<Derivation>)>,
    nul: &Vec<Nonterm>,
    Ghost(g): Ghost<Seq<SpecProduction>>,
) -> (r: Vec<Term>)
    requires
        grouped(cool_prods@, g),
        nul@.to_set() == nullable_set(g),
    ensures
        r@.no_duplicates(),
        r@.to_set() == first_set(g, a),
{
    let mut visited: Vec<Nonterm> = Vec::new();
    visited.push(a);
    assert(first_reach(g, a, a, 0));
    let mut result: Vec<Term> = Vec::new();
    assert(result@.to_set() =~= fbases_upto(g, visited@, 0));
    let mut idx: usize = 0;
    while idx < visited.len()
        invariant
            grouped(cool_prods@, g),
            nul@.to_set() == nullable_set(g),
            visited@.len() >= 1,
            visited@[0] == a,
            visited@.no_duplicates(),
            idx <= visited@.len() <= g.len() + 1,
            forall|x: int| 1 <= x < visited@.len() ==> has_productions(g, #[trigger] visited@[x]),
            forall|x: int| 0 <= x < visited@.len() ==> first_reached(g, a, #[trigger] visited@[x]),
            forall|x: int, n: Nonterm|
                0 <= x < idx && #[trigger] first_succ(g, visited@[x], n) ==> visited@.contains(n),
            result@.no_duplicates(),
            result@.to_set() == fbases_upto(g, visited@, idx as int),
        decreases g.len() + 1 - idx,
    {
        let c = visited[idx];
        assert(first_reached(g, a, visited@[idx as int]));
        let ghost kc = choose|k: nat| #[trigger] first_reach(g, a, visited@[idx as int], k);
        let (terms, succs) = first_scan(c, cool_prods, nul, Ghost(g));
        let ghost before = result@.to_set();
        union_into(&mut result, &terms);
        assert(result@.to_set() =~= fbases_upto(g, visited@, idx + 1)) by {
            assert forall|t: Term| result@.to_set().contains(t) implies fbases_upto(g, visited@, idx + 1).contains(t) by {
                if !before.contains(t) {
                    assert(terms@.to_set().contains(t));
                    assert(first_base(g, visited@[idx as int], t));
                } else {
                    let x = choose|x: int| 0 <= x < idx && #[trigger] first_base(g, visited@[x], t);
                }
            }
            assert forall|t: Term| fbases_upto(g, visited@, idx + 1).contains(t) implies result@.to_set().contains(t) by {
                let x = choose|x: int| 0 <= x < idx + 1 && #[trigger] first_base(g, visited@[x], t);
                if x == idx {
                    assert(Set::new(|t: Term| first_base(g, c, t)).contains(t));
                } else {
                    assert(before.contains(t));
                }
            }
        }
        let ghost v0 = visited@;
        for y in 0..succs.len()
            invariant
                idx < v0.len(),
                v0[idx as int] == c,
                visited@.len() >= v0.len(),
                forall|x: int| 0 <= x < v0.len() ==> #[trigger] visited@[x] == v0[x],
                visited@.no_duplicates(),
                visited@.len() <= g.len() + 1,
                visited@[0] == a,
                first_reach(g, a, c, kc),
                forall|x: int| 1 <= x < visited@.len() ==> has_productions(g, #[trigger] visited@[x]),
                forall|x: int| 0 <= x < visited@.len() ==> first_reached(g, a, #[trigger] visited@[x]),
                forall|n: Nonterm| succs@.contains(n) <==> first_succ(g, c, n),
                forall|z: int| 0 <= z < y ==> visited@.contains(#[trigger] succs@[z]),
        {
            let s = succs[y];
            assert(succs@.contains(s));
            if !contains_nonterm(&visited, s) {
                let ghost vb = visited@;
                visited.push(s);
                proof {
                    let (d2, j2) = choose|d2: int, j2: int| #[trigger] first_edge(g, c, d2, j2) && sym_at(g, c, d2, j2)->N_0 == s;
                    lemma_first_reach_append(g, a, c, kc, d2, j2);
                    assert(first_reach(g, a, visited@[vb.len() as int], kc + 1));
                    assert(first_reached(g, a, visited@[vb.len() as int]));
                    assert(forall|x: int| 0 <= x < vb.len() ==> visited@[x] == vb[x]);
                    assert(visited@.drop_first().no_duplicates());
                    assert forall|x: int| 0 <= x < visited@.drop_first().len() implies has_productions(
                        g,
                        #[trigger] visited@.drop_first()[x],
                    ) by {
                        assert(visited@.drop_first()[x] == visited@[x + 1]);
                    }
                    lemma_distinct_with_productions(visited@.drop_first(), g);
                    assert forall|z: int| 0 <= z < y + 1 implies visited@.contains(#[trigger] succs@[z]) by {
                        if z < y {
                            let w = choose|w: int| 0 <= w < vb.len() && vb[w] == succs@[z];
                            assert(visited@[w] == succs@[z]);
                        } else {
                            assert(visited@[vb.len() as int] == succs@[z]);
                        }
                    }
                }
            }
        }
        proof {
            assert forall|x: int, n: Nonterm|
                0 <= x < idx + 1 && #[trigger] first_succ(g, visited@[x], n) implies visited@.contains(n) by {
                if x == idx {
                    assert(succs@.contains(n));
                    let z = choose|z: int| 0 <= z < succs@.len() && succs@[z] == n;
                    assert(visited@.contains(succs@[z]));
                } else {
                    assert(visited@[x] == v0[x]);
                    assert(first_succ(g, v0[x], n));
                    let w = choose|w: int| 0 <= w < v0.len() && v0[w] == n;
                    assert(visited@[w] == n);
                }
            }
            lemma_fbases_upto_same(g, v0, visited@, idx + 1);
        }
        idx += 1;
    }
    assert(result@.to_set() =~= first_set(g, a)) by {
        assert forall|t: Term| result@.to_set().contains(t) implies first_set(g, a).contains(t) by {
            let x = choose|x: int| 0 <= x < idx && #[trigger] first_base(g, visited@[x], t);
            assert(first_reached(g, a, visited@[x]));
            let k = choose|k: nat| #[trigger] first_reach(g, a, visited@[x], k);
            assert(first_reach(g, a, visited@[x], k) && first_base(g, visited@[x], t));
        }
        assert forall|t: Term| first_set(g, a).contains(t) implies result@.to_set().contains(t) by {
            let (c, k) = choose|c: Nonterm, k: nat| #[trigger] first_reach(g, a, c, k) && first_base(g, c, t);
            assert(visited@.contains(a)) by {
                assert(visited@[0] == a);
            }
            let (d, j) = choose|d: int, j: int| #[trigger] first_pos(g, c, d, j) && sym_at(g, c, d, j) == Symbol::T(t);
            lemma_has_derivations(g, c);
            lemma_first_reach_closed(g, visited@, a, c, k);
            let x = choose|x: int| 0 <= x < visited@.len() && visited@[x] == c;
            assert(first_base(g, visited@[x], t));
        }
    }
    result
}

/// What the first `n` nonterminals of `v` begin directly.
pub open spec fn fbases_upto(g: Seq<SpecProduction>, v: Seq<Nonterm>, n: int) -> Set<Term> {
    Set::new(|t: Term| exists|x: int| 0 <= x < n && #[trigger] first_base(g, v[x], t))
}

proof fn lemma_fbases_upto_same(g: Seq<SpecProduction>, v1: Seq<Nonterm>, v2: Seq<Nonterm>, n: int)
    requires
        n <= v1.len(),
        n <= v2.len(),
        forall|x: int| 0 <= x < n ==> v1[x] == v2[x],
    ensures
        fbases_upto(g, v1, n) == fbases_upto(g, v2, n),
{
    assert forall|t: Term| fbases_upto(g, v1, n).contains(t) == fbases_upto(g, v2, n).contains(t) by {
        if fbases_upto(g, v1, n).contains(t) {
            let x = choose|x: int| 0 <= x < n && #[trigger] first_base(g, v1[x], t);
            assert(first_base(g, v2[x], t));
        }
        if fbases_upto(g, v2, n).contains(t) {
            let x = choose|x: int| 0 <= x < n && #[trigger] first_base(g, v2[x], t);
            assert(first_base(g, v1[x], t));
        }
    }
    assert(fbases_upto(g, v1, n) =~= fbases_upto(g, v2, n));
}

/// `n` is reached from `a` along some edges of FIRST.
pub open spec fn first_reached(g: Seq<SpecProduction>, a: Nonterm, n: Nonterm) -> bool {
    exists|k: nat| #[trigger] first_reach(g, a, n, k)
}

/// What positions before `n` of `gs` contribute to FIRST of `gs`.
pub open spec fn first_upto(gs: Seq<Symbol>, g: Seq<SpecProduction>, n: int) -> Set<Term> {
    Set::new(
        |t: Term|
            exists|j: int|
                0 <= j < n && #[trigger] nullable_prefix(gs, j, nullable_set(g)) && (gs[j]
                    == Symbol::T(t) || (gs[j] is N && first_set(g, gs[j]->N_0).contains(t))),
    )
}

/// FIRST of `g_string[from..]`, as `first_of` describes it, for the
/// productions `prods` grouped in `cool_prods` and with the nullable
/// nonterminals `nul`.
pub fn first(
    g_string: &Vec<Symbol>,
    from: usize,
    prods: &Vec<Production>,
    cool_prods: &Vec<(Nonterm, Vec<Derivation>)>,
    nul: &Vec<Nonterm>,
) -> (r: (Vec<Term>, bool))
    requires
        from <= g_string.len(),
        grouped(cool_prods@, productions_view(prods@)),
        nul@.to_set() == nullable_set(productions_view(prods@)),
    ensures
        r.0@.no_duplicates(),
        first_of(g_string@.subrange(from as int, g_string.len() as int), productions_view(prods@))
            == (r.0@.to_set(), r.1),
{
    let ghost g = productions_view(prods@);
    let ghost gs = g_string@.subrange(from as int, g_string.len() as int);
    let mut term_set: Vec<Term> = Vec::new();
    let mut empty_string_found = true;
    let len = g_string.len();
    assert(term_set@.to_set() =~= first_upto(gs, g, 0));
    for i in from..len
        invariant
            len == g_string.len(),
            from <= len,
            gs == g_string@.subrange(from as int, len as int),
            grouped(cool_prods@, g),
            nul@.to_set() == nullable_set(g),
            term_set@.no_duplicates(),
            term_set@.to_set() == first_upto(gs, g, i - from),
            empty_string_found == nullable_prefix(gs, i - from, nullable_set(g)),
    {
        let ghost j = i - from;
        let ghost before = term_set@.to_set();
        assert(gs[j] == g_string@[i as int]);
        if empty_string_found {
            match g_string[i] {
                Symbol::T(term) => {
                    insert_term(&mut term_set, term);
                },
                Symbol::N(nonterm) => {
                    let first_set = first_nonterm(nonterm, cool_prods, nul, Ghost(g));
                    union_into(&mut term_set, &first_set);
                },
            }
        }
        assert(term_set@.to_set() =~= first_upto(gs, g, j + 1)) by {
            assert forall|t: Term| term_set@.to_set().contains(t) implies first_upto(gs, g, j + 1).contains(t) by {
                if before.contains(t) {
                    let j2 = choose|j2: int| 0 <= j2 < j && #[trigger] nullable_prefix(gs, j2, nullable_set(g)) && (gs[j2]
                        == Symbol::T(t) || (gs[j2] is N && first_set(g, gs[j2]->N_0).contains(t)));
                } else {
                    assert(nullable_prefix(gs, j, nullable_set(g)));
                }
            }
            assert forall|t: Term| first_upto(gs, g, j + 1).contains(t) implies term_set@.to_set().contains(t) by {
                let j2 = choose|j2: int| 0 <= j2 < j + 1 && #[trigger] nullable_prefix(gs, j2, nullable_set(g)) && (gs[j2]
                    == Symbol::T(t) || (gs[j2] is N && first_set(g, gs[j2]->N_0).contains(t)));
                if j2 < j {
                    assert(before.contains(t));
                }
            }
        }
        let step = match g_string[i] {
            Symbol::T(_) => false,
            Symbol::N(b) => contains_nonterm(nul, b),
        };
        assert(step == (gs[j] is N && nullable_set(g).contains(gs[j]->N_0)));
        empty_string_found = empty_string_found && step;
        assert(empty_string_found == nullable_prefix(gs, j + 1, nullable_set(g)));
    }
    assert(first_upto(gs, g, gs.len() as int) =~= first_of(gs, g).0);
    (term_set, empty_string_found)
}

/// The position of the cached FOLLOW set of `n`, if there is one.
fn find_cached(cache: &Vec<(Nonterm, Vec<Term>)>, n: Nonterm) -> (r: Option<usize>)
    ensures
        r matches Some(j) ==> j < cache.len() && cache@[j as int].0 == n,
        r is None ==> forall|j: int| 0 <= j < cache.len() ==> cache@[j].0 != n,
{
    for j in 0..cache.len()
        invariant
            forall|k: int| 0 <= k < j ==> cache@[k].0 != n,
    {
        if cache[j].0 == n {
            return Some(j);
        }
    }
    None
}

/// Position `(i2, j2)` comes before `(i, j)`: by production, then by symbol.
pub open spec fn pos_before(i2: int, j2: int, i: int, j: int) -> bool {
    i2 < i || (i2 == i && j2 < j)
}

/// What FOLLOW of `c` gets directly from the positions before `(i, j)`.
pub open spec fn base_upto(g: Seq<SpecProduction>, c: Nonterm, i: int, j: int) -> Set<Term> {
    Set::new(
        |t: Term|
            (c == Nonterm(START_ID) && t == Term(END_ID)) || exists|i2: int, j2: int|
                pos_before(i2, j2, i, j) && #[trigger] occurs(g, i2, j2, c) && first_of(
                    rest_after(g, i2, j2),
                    g,
                ).0.contains(t),
    )
}

/// The left-hand sides of the edges out of `c` at the positions before `(i, j)`.
pub open spec fn succ_upto(g: Seq<SpecProduction>, c: Nonterm, i: int, j: int) -> Set<Nonterm> {
    Set::new(
        |n: Nonterm|
            exists|i2: int, j2: int|
                pos_before(i2, j2, i, j) && #[trigger] follow_edge(g, c, i2, j2) && g[i2].nonterm
                    == n,
    )
}

/// One pass over the productions for `c`: the terminals FOLLOW of `c` gets
/// directly, and the left-hand sides whose FOLLOW sets go into it.
fn scan_occurrences(
    c: Nonterm,
    prods: &Vec<Production>,
    cool_prods: &Vec<(Nonterm, Vec<Derivation>)>,
    nul: &Vec<Nonterm>,
) -> (r: (Vec<Term>, Vec<Nonterm>))
    requires
        grouped(cool_prods@, productions_view(prods@)),
        nul@.to_set() == nullable_set(productions_view(prods@)),
    ensures
        r.0@.no_duplicates(),
        r.0@.to_set() == Set::new(|t: Term| follow_base(productions_view(prods@), c, t)),
        forall|n: Nonterm| r.1@.contains(n) <==> follow_succ(productions_view(prods@), c, n),
{
    let ghost g = productions_view(prods@);
    let mut terms: Vec<Term> = Vec::new();
    let mut succs: Vec<Nonterm> = Vec::new();
    if c == Nonterm(START_ID) {
        terms.push(Term(END_ID));
        proof {
            lemma_to_set_push(Seq::<Term>::empty(), Term(END_ID));
            assert(Seq::<Term>::empty().push(Term(END_ID)) =~= terms@);
        }
    }
    assert(terms@.to_set() =~= base_upto(g, c, 0, 0));
    assert(succs@.to_set() =~= succ_upto(g, c, 0, 0));
    for i in 0..prods.len()
        invariant
            g == productions_view(prods@),
            grouped(cool_prods@, g),
            nul@.to_set() == nullable_set(g),
            terms@.no_duplicates(),
            terms@.to_set() == base_upto(g, c, i as int, 0),
            succs@.to_set() == succ_upto(g, c, i as int, 0),
    {
        let left = prods[i].nonterm;
        assert(g[i as int].nonterm == left);
        match &prods[i].derivation {
            Derivation::Null => {
                assert(g[i as int].derivation == SpecDerivation::Null);
                assert(base_upto(g, c, i as int, 0) =~= base_upto(g, c, i + 1, 0));
                assert(succ_upto(g, c, i as int, 0) =~= succ_upto(g, c, i + 1, 0));
            },
            Derivation::Symbols(symbols) => {
                let ghost syms = symbols@;
                assert(g[i as int].derivation == SpecDerivation::Symbols(syms));
                let n = symbols.len();
                for j in 0..n
                    invariant
                        g == productions_view(prods@),
                        0 <= i < g.len(),
                        g[i as int].derivation == SpecDerivation::Symbols(syms),
                        g[i as int].nonterm == left,
                        syms == symbols@,
                        n == symbols.len(),
                        grouped(cool_prods@, g),
                        nul@.to_set() == nullable_set(g),
                        terms@.no_duplicates(),
                        terms@.to_set() == base_upto(g, c, i as int, j as int),
                        succs@.to_set() == succ_upto(g, c, i as int, j as int),
                {
                    let ghost tset = terms@.to_set();
                    let ghost sset = succs@.to_set();
                    if symbols[j] == Symbol::N(c) {
                        assert(occurs(g, i as int, j as int, c));
                        let ghost rest = rest_after(g, i as int, j as int);
                        assert(rest == syms.subrange(j + 1, n as int));
                        {
                            let (first_set, empty_string) = first(symbols, j + 1, prods, cool_prods, nul);
                            {
                                union_into(&mut terms, &first_set);
                                assert(terms@.to_set() =~= base_upto(g, c, i as int, j + 1));
                                if empty_string {
                                    assert(follow_edge(g, c, i as int, j as int));
                                    let ghost s0 = succs@;
                                    succs.push(left);
                                    proof {
                                        lemma_to_set_push(s0, left);
                                        assert(succs@ == s0.push(left));
                                    }
                                    assert(succs@.to_set() =~= succ_upto(g, c, i as int, j + 1));
                                } else {
                                    assert(succs@.to_set() =~= succ_upto(g, c, i as int, j + 1));
                                }
                            }
                        }
                    } else {
                        assert(!occurs(g, i as int, j as int, c));
                        assert(terms@.to_set() =~= base_upto(g, c, i as int, j + 1));
                        assert(succs@.to_set() =~= succ_upto(g, c, i as int, j + 1));
                    }
                }
                assert(base_upto(g, c, i as int, n as int) =~= base_upto(g, c, i + 1, 0));
                assert(succ_upto(g, c, i as int, n as int) =~= succ_upto(g, c, i + 1, 0));
            },
        }
    }
    assert(base_upto(g, c, g.len() as int, 0) =~= Set::new(|t: Term| follow_base(g, c, t)));
    assert forall|n: Nonterm| succs@.contains(n) <==> follow_succ(g, c, n) by {
        assert(succs@.contains(n) <==> succs@.to_set().contains(n));
        if follow_succ(g, c, n) {
            let (i2, j2) = choose|i2: int, j2: int| #[trigger] follow_edge(g, c, i2, j2) && g[i2].nonterm == n;
            assert(pos_before(i2, j2, g.len() as int, 0));
        }
    }
    (terms, succs)
}

/// What the first `n` nonterminals of `v` get directly.
pub open spec fn bases_upto(g: Seq<SpecProduction>, v: Seq<Nonterm>, n: int) -> Set<Term> {
    Set::new(|t: Term| exists|x: int| 0 <= x < n && #[trigger] follow_base(g, v[x], t))
}

proof fn lemma_bases_upto_same(g: Seq<SpecProduction>, v1: Seq<Nonterm>, v2: Seq<Nonterm>, n: int)
    requires
        n <= v1.len(),
        n <= v2.len(),
        forall|x: int| 0 <= x < n ==> v1[x] == v2[x],
    ensures
        bases_upto(g, v1, n) == bases_upto(g, v2, n),
{
    assert forall|t: Term| bases_upto(g, v1, n).contains(t) == bases_upto(g, v2, n).contains(t) by {
        if bases_upto(g, v1, n).contains(t) {
            let x = choose|x: int| 0 <= x < n && #[trigger] follow_base(g, v1[x], t);
            assert(follow_base(g, v2[x], t));
        }
        if bases_upto(g, v2, n).contains(t) {
            let x = choose|x: int| 0 <= x < n && #[trigger] follow_base(g, v2[x], t);
            assert(follow_base(g, v1[x], t));
        }
    }
    assert(bases_upto(g, v1, n) =~= bases_upto(g, v2, n));
}

/// `n` is reached from `a` along some edges.
pub open spec fn reached(g: Seq<SpecProduction>, a: Nonterm, n: Nonterm) -> bool {
    exists|k: nat| #[trigger] follow_reach(g, a, n, k)
}

/// Every entry of `cache` holds the FOLLOW set of its nonterminal, and no
/// nonterminal has two entries.
pub open spec fn cache_ok(cache: Seq<(Nonterm, Vec<Term>)>, g: Seq<SpecProduction>) -> bool {
    &&& forall|i: int|
        0 <= i < cache.len() ==> {
            &&& (#[trigger] cache[i]).1@.to_set() == follow_of(cache[i].0, g)
            &&& cache[i].1@.no_duplicates()
        }
    &&& forall|i: int, j: int|
        0 <= i < cache.len() && 0 <= j < cache.len() && i != j ==> #[trigger] cache[i].0
            != #[trigger] cache[j].0
}

/// FOLLOW of `nonterm_a`, from the cache where it is there, and otherwise
/// computed and added to the cache: the nonterminals reached from
/// `nonterm_a` are collected, each once, and what they get directly is put
/// together.
fn follow_recur(
    nonterm_a: Nonterm,
    prods: &Vec<Production>,
    cool_prods: &Vec<(Nonterm, Vec<Derivation>)>,
    cache: &mut Vec<(Nonterm, Vec<Term>)>,
    nul: &Vec<Nonterm>,
) -> (r: Vec<Term>)
    requires
        grouped(cool_prods@, productions_view(prods@)),
        nul@.to_set() == nullable_set(productions_view(prods@)),
    ensures
        cache_ok(old(cache)@, productions_view(prods@)) ==> cache_ok(final(cache)@, productions_view(prods@)),
        (cache_ok(old(cache)@, productions_view(prods@)) || forall|x: int|
            0 <= x < old(cache)@.len() ==> old(cache)@[x].0 != nonterm_a) ==> {
            &&& r@.no_duplicates()
            &&& r@.to_set() == follow_of(nonterm_a, productions_view(prods@))
        },
        final(cache)@.len() >= old(cache)@.len(),
        forall|x: int| 0 <= x < old(cache)@.len() ==> #[trigger] final(cache)@[x] == old(cache)@[x],
        exists|x: int| 0 <= x < final(cache)@.len() && final(cache)@[x].0 == nonterm_a && final(cache)@[x].1@ == r@,
        (exists|x: int| 0 <= x < old(cache)@.len() && old(cache)@[x].0 == nonterm_a) ==> final(cache)@ == old(cache)@,
        (forall|x: int| 0 <= x < old(cache)@.len() ==> old(cache)@[x].0 != nonterm_a) ==> final(cache)@.len() == old(cache)@.len() + 1,
{
    let ghost g = productions_view(prods@);
    if let Some(j) = find_cached(cache, nonterm_a) {
        let r = copy_terms(&cache[j].1);
        assert(cache@[j as int].1@ == r@);
        return r;
    }
    let mut visited: Vec<Nonterm> = Vec::new();
    visited.push(nonterm_a);
    assert(follow_reach(g, nonterm_a, nonterm_a, 0));
    let mut result: Vec<Term> = Vec::new();
    assert(result@.to_set() =~= bases_upto(g, visited@, 0));
    let mut idx: usize = 0;
    while idx < visited.len()
        invariant
            g == productions_view(prods@),
            grouped(cool_prods@, g),
            nul@.to_set() == nullable_set(g),
            visited@.len() >= 1,
            visited@[0] == nonterm_a,
            visited@.no_duplicates(),
            idx <= visited@.len() <= g.len() + 1,
            forall|x: int| 1 <= x < visited@.len() ==> has_productions(g, #[trigger] visited@[x]),
            forall|x: int| 0 <= x < visited@.len() ==> reached(g, nonterm_a, #[trigger] visited@[x]),
            forall|x: int, n: Nonterm|
                0 <= x < idx && #[trigger] follow_succ(g, visited@[x], n) ==> visited@.contains(n),
            result@.no_duplicates(),
            result@.to_set() == bases_upto(g, visited@, idx as int),
        decreases g.len() + 1 - idx,
    {
        let c = visited[idx];
        assert(reached(g, nonterm_a, visited@[idx as int]));
        let ghost kc = choose|k: nat| #[trigger] follow_reach(g, nonterm_a, visited@[idx as int], k);
        let (terms, succs) = scan_occurrences(c, prods, cool_prods, nul);
        let ghost before = result@.to_set();
        union_into(&mut result, &terms);
        assert(result@.to_set() =~= bases_upto(g, visited@, idx + 1)) by {
            assert forall|t: Term| result@.to_set().contains(t) implies bases_upto(g, visited@, idx + 1).contains(t) by {
                if !before.contains(t) {
                    assert(terms@.to_set().contains(t));
                    assert(follow_base(g, visited@[idx as int], t));
                } else {
                    let x = choose|x: int| 0 <= x < idx && #[trigger] follow_base(g, visited@[x], t);
                }
            }
            assert forall|t: Term| bases_upto(g, visited@, idx + 1).contains(t) implies result@.to_set().contains(t) by {
                let x = choose|x: int| 0 <= x < idx + 1 && #[trigger] follow_base(g, visited@[x], t);
                if x == idx {
                    assert(Set::new(|t: Term| follow_base(g, c, t)).contains(t));
                } else {
                    assert(before.contains(t));
                }
            }
        }
        let ghost v0 = visited@;
        for y in 0..succs.len()
            invariant
                g == productions_view(prods@),
                idx < v0.len(),
                v0[idx as int] == c,
                visited@.len() >= v0.len(),
                forall|x: int| 0 <= x < v0.len() ==> #[trigger] visited@[x] == v0[x],
                visited@.no_duplicates(),
                visited@.len() <= g.len() + 1,
                visited@[0] == nonterm_a,
                follow_reach(g, nonterm_a, c, kc),
                forall|x: int| 1 <= x < visited@.len() ==> has_productions(g, #[trigger] visited@[x]),
                forall|x: int| 0 <= x < visited@.len() ==> reached(g, nonterm_a, #[trigger] visited@[x]),
                forall|n: Nonterm| succs@.contains(n) <==> follow_succ(g, c, n),
                forall|z: int| 0 <= z < y ==> visited@.contains(#[trigger] succs@[z]),
        {
            let s = succs[y];
            assert(succs@.contains(s));
            if !contains_nonterm(&visited, s) {
                let ghost vb = visited@;
                visited.push(s);
                proof {
                    let (i2, j2) = choose|i2: int, j2: int| #[trigger] follow_edge(g, c, i2, j2) && g[i2].nonterm == s;
                    lemma_reach_append(g, nonterm_a, c, kc, i2, j2);
                    assert(follow_reach(g, nonterm_a, visited@[vb.len() as int], kc + 1));
                    assert(reached(g, nonterm_a, visited@[vb.len() as int]));
                    assert(has_productions(g, s)) by {
                        assert(g[i2].nonterm == s);
                    }
                    assert(forall|x: int| 0 <= x < vb.len() ==> visited@[x] == vb[x]);
                    assert(visited@.drop_first().no_duplicates());
                    assert forall|x: int| 0 <= x < visited@.drop_first().len() implies has_productions(
                        g,
                        #[trigger] visited@.drop_first()[x],
                    ) by {
                        assert(visited@.drop_first()[x] == visited@[x + 1]);
                    }
                    lemma_distinct_with_productions(visited@.drop_first(), g);
                    assert forall|z: int| 0 <= z < y + 1 implies visited@.contains(#[trigger] succs@[z]) by {
                        if z < y {
                            let w = choose|w: int| 0 <= w < vb.len() && vb[w] == succs@[z];
                            assert(visited@[w] == succs@[z]);
                        } else {
                            assert(visited@[vb.len() as int] == succs@[z]);
                        }
                    }
                }
            }
        }
        proof {
            assert forall|x: int, n: Nonterm|
                0 <= x < idx + 1 && #[trigger] follow_succ(g, visited@[x], n) implies visited@.contains(n) by {
                if x == idx {
                    assert(succs@.contains(n));
                    let z = choose|z: int| 0 <= z < succs@.len() && succs@[z] == n;
                    assert(visited@.contains(succs@[z]));
                } else {
                    assert(visited@[x] == v0[x]);
                    assert(follow_succ(g, v0[x], n));
                    let w = choose|w: int| 0 <= w < v0.len() && v0[w] == n;
                    assert(visited@[w] == n);
                }
            }
            lemma_bases_upto_same(g, v0, visited@, idx + 1);
        }
        idx += 1;
    }
    assert(result@.to_set() =~= follow_of(nonterm_a, g)) by {
        assert forall|t: Term| result@.to_set().contains(t) implies follow_of(nonterm_a, g).contains(t) by {
            let x = choose|x: int| 0 <= x < idx && #[trigger] follow_base(g, visited@[x], t);
            assert(reached(g, nonterm_a, visited@[x]));
            let k = choose|k: nat| #[trigger] follow_reach(g, nonterm_a, visited@[x], k);
            assert(follow_reach(g, nonterm_a, visited@[x], k) && follow_base(g, visited@[x], t));
        }
        assert forall|t: Term| follow_of(nonterm_a, g).contains(t) implies result@.to_set().contains(t) by {
            let (c, k) = choose|c: Nonterm, k: nat| #[trigger] follow_reach(g, nonterm_a, c, k) && follow_base(g, c, t);
            assert(visited@.contains(nonterm_a)) by {
                assert(visited@[0] == nonterm_a);
            }
            lemma_reach_closed(g, visited@, nonterm_a, c, k);
            let x = choose|x: int| 0 <= x < visited@.len() && visited@[x] == c;
            assert(follow_base(g, visited@[x], t));
        }
    }
    let cached = copy_terms(&result);
    let ghost old_cache = cache@;
    cache.push((nonterm_a, cached));
    assert(cache@[old_cache.len() as int].1@ == result@);
    result
}

/// `n` occurs on a right-hand side at a position before `(i, j)`.
pub open spec fn occurs_before(g: Seq<SpecProduction>, n: Nonterm, i: int, j: int) -> bool {
    exists|i2: int, j2: int| pos_before(i2, j2, i, j) && #[trigger] occurs(g, i2, j2, n)
}

/// The FOLLOW sets of the start symbol and of every nonterminal on a
/// right-hand side, each once.
fn follow_all(
    prods: &Vec<Production>,
    cool_prods: &Vec<(Nonterm, Vec<Derivation>)>,
    nul: &Vec<Nonterm>,
) -> (follow_map: Vec<(Nonterm, Vec<Term>)>)
    requires
        grouped(cool_prods@, productions_view(prods@)),
        nul@.to_set() == nullable_set(productions_view(prods@)),
    ensures
        cache_ok(follow_map@, productions_view(prods@)),
        forall|n: Nonterm|
            #[trigger] has_entry(follow_map@, n) <==> (n == Nonterm(START_ID) || occurs_before(
                productions_view(prods@),
                n,
                prods@.len() as int,
                0,
            )),
{
    let ghost g = productions_view(prods@);
    let mut follow_map: Vec<(Nonterm, Vec<Term>)> = Vec::new();
    let _ = follow_recur(Nonterm(START_ID), prods, cool_prods, &mut follow_map, nul);
    assert forall|n: Nonterm|
        #[trigger] has_entry(follow_map@, n) <==> (n == Nonterm(START_ID) || occurs_before(g, n, 0, 0)) by {
        assert(follow_map@.len() == 1);
    }
    for i in 0..prods.len()
        invariant
            g == productions_view(prods@),
            grouped(cool_prods@, g),
            nul@.to_set() == nullable_set(g),
            cache_ok(follow_map@, g),
            forall|n: Nonterm|
                #[trigger] has_entry(follow_map@, n) <==> (n == Nonterm(START_ID) || occurs_before(g, n, i as int, 0)),
    {
        match &prods[i].derivation {
            Derivation::Null => {
                assert(g[i as int].derivation == SpecDerivation::Null);
                assert forall|n: Nonterm| occurs_before(g, n, i as int, 0) == occurs_before(g, n, i + 1, 0) by {
                    if occurs_before(g, n, i + 1, 0) {
                        let (i2, j2) = choose|i2: int, j2: int| pos_before(i2, j2, i + 1, 0) && #[trigger] occurs(g, i2, j2, n);
                        assert(pos_before(i2, j2, i as int, 0));
                    }
                }
            },
            Derivation::Symbols(symbols) => {
                let ghost syms = symbols@;
                assert(g[i as int].derivation == SpecDerivation::Symbols(syms));
                for j in 0..symbols.len()
                    invariant
                        g == productions_view(prods@),
                        0 <= i < g.len(),
                        g[i as int].derivation == SpecDerivation::Symbols(syms),
                        syms == symbols@,
                        grouped(cool_prods@, g),
                        nul@.to_set() == nullable_set(g),
                        cache_ok(follow_map@, g),
                        forall|n: Nonterm|
                            #[trigger] has_entry(follow_map@, n) <==> (n == Nonterm(START_ID) || occurs_before(g, n, i as int, j as int)),
                {
                    if let Symbol::N(b) = symbols[j] {
                        assert(occurs(g, i as int, j as int, b));
                        let ghost m0 = follow_map@;
                        let _ = follow_recur(b, prods, cool_prods, &mut follow_map, nul);
                        assert forall|n: Nonterm|
                            #[trigger] has_entry(follow_map@, n) <==> (n == Nonterm(START_ID) || occurs_before(g, n, i as int, j + 1)) by {
                            if has_entry(follow_map@, n) {
                                let x = choose|x: int| 0 <= x < follow_map@.len() && #[trigger] follow_map@[x].0 == n;
                                if x < m0.len() {
                                    assert(m0[x].0 == n);
                                    assert(has_entry(m0, n));
                                    if occurs_before(g, n, i as int, j as int) {
                                        let (i2, j2) = choose|i2: int, j2: int| pos_before(i2, j2, i as int, j as int) && #[trigger] occurs(g, i2, j2, n);
                                        assert(pos_before(i2, j2, i as int, j + 1));
                                    }
                                } else {
                                    if has_entry(m0, b) {
                                        assert(follow_map@ == m0);
                                    }
                                    let y = choose|y: int| 0 <= y < follow_map@.len() && follow_map@[y].0 == b && follow_map@[y].1@ == follow_map@[y].1@;
                                    if y < m0.len() {
                                        assert(has_entry(m0, b));
                                    }
                                    assert(n == b);
                                    assert(pos_before(i as int, j as int, i as int, j + 1));
                                }
                            }
                            if n == Nonterm(START_ID) || occurs_before(g, n, i as int, j + 1) {
                                if n == b {
                                    let y = choose|y: int| 0 <= y < follow_map@.len() && follow_map@[y].0 == b && follow_map@[y].1@ == follow_map@[y].1@;
                                    assert(follow_map@[y].0 == n);
                                } else {
                                    if n != Nonterm(START_ID) {
                                        let (i2, j2) = choose|i2: int, j2: int| pos_before(i2, j2, i as int, j + 1) && #[trigger] occurs(g, i2, j2, n);
                                        assert(pos_before(i2, j2, i as int, j as int));
                                    }
                                    assert(has_entry(m0, n));
                                    let x = choose|x: int| 0 <= x < m0.len() && #[trigger] m0[x].0 == n;
                                    assert(follow_map@[x].0 == n);
                                }
                            }
                        }
                    } else {
                        assert forall|n: Nonterm| occurs_before(g, n, i as int, j as int) == occurs_before(g, n, i as int, j + 1) by {
                            if occurs_before(g, n, i as int, j + 1) {
                                let (i2, j2) = choose|i2: int, j2: int| pos_before(i2, j2, i as int, j + 1) && #[trigger] occurs(g, i2, j2, n);
                                assert(pos_before(i2, j2, i as int, j as int));
                            }
                            if occurs_before(g, n, i as int, j as int) {
                                let (i2, j2) = choose|i2: int, j2: int| pos_before(i2, j2, i as int, j as int) && #[trigger] occurs(g, i2, j2, n);
                                assert(pos_before(i2, j2, i as int, j + 1));
                            }
                        }
                    }
                }
                assert forall|n: Nonterm| occurs_before(g, n, i as int, syms.len() as int) == occurs_before(g, n, i + 1, 0) by {
                    if occurs_before(g, n, i + 1, 0) {
                        let (i2, j2) = choose|i2: int, j2: int| pos_before(i2, j2, i + 1, 0) && #[trigger] occurs(g, i2, j2, n);
                        assert(pos_before(i2, j2, i as int, syms.len() as int));
                    }
                    if occurs_before(g, n, i as int, syms.len() as int) {
                        let (i2, j2) = choose|i2: int, j2: int| pos_before(i2, j2, i as int, syms.len() as int) && #[trigger] occurs(g, i2, j2, n);
                        assert(pos_before(i2, j2, i + 1, 0));
                    }
                }
            },
        }
    }
    follow_map
}

// ---------------------------------------------------------------------
// The table.
// ---------------------------------------------------------------------

/// FIRST of the right-hand side of a production.
pub open spec fn prod_first(p: SpecProduction, g: Seq<SpecProduction>) -> (Set<Term>, bool) {
    match p.derivation {
        SpecDerivation::Null => (Set::empty(), true),
        SpecDerivation::Symbols(syms) => first_of(syms, g),
    }
}

/// FOLLOW of `n` when `n` is one of `keys`, nothing otherwise.
pub open spec fn follow_or_empty(n: Nonterm, keys: Seq<Nonterm>, g: Seq<SpecProduction>) -> Set<
    Term,
> {
    if keys.contains(n) {
        follow_of(n, g)
    } else {
        Set::empty()
    }
}

/// The terminals under which a production goes in the table: FIRST of its
/// right-hand side, and FOLLOW of its nonterminal when the right-hand side
/// can be empty.
pub open spec fn entry_terms(p: SpecProduction, keys: Seq<Nonterm>, g: Seq<SpecProduction>) -> Set<
    Term,
> {
    prod_first(p, g).0.union(
        if prod_first(p, g).1 {
            follow_or_empty(p.nonterm, keys, g)
        } else {
            Set::empty()
        },
    )
}

/// `m` with `p` put at `(n, t)` for every `t` in `ts`.
pub open spec fn with_entries(
    m: Map<(Nonterm, Term), SpecProduction>,
    n: Nonterm,
    ts: Set<Term>,
    p: SpecProduction,
) -> Map<(Nonterm, Term), SpecProduction> {
    Map::new(
        |k: (Nonterm, Term)| m.dom().contains(k) || (k.0 == n && ts.contains(k.1)),
        |k: (Nonterm, Term)|
            if k.0 == n && ts.contains(k.1) {
                p
            } else {
                m[k]
            },
    )
}

/// The table built from the first `k` productions of `g`, each put at its
/// entries in turn (a later production replaces an earlier one); FOLLOW
/// sets are taken for the nonterminals in `keys`.
pub open spec fn ll1_table(g: Seq<SpecProduction>, keys: Seq<Nonterm>, k: int) -> Map<
    (Nonterm, Term),
    SpecProduction,
>
    decreases k,
{
    if k <= 0 || k > g.len() {
        Map::empty()
    } else {
        with_entries(ll1_table(g, keys, k - 1), g[k - 1].nonterm, entry_terms(g[k - 1], keys, g), g[k - 1])
    }
}

pub open spec fn nonterm_keys(pd: SpecParserData) -> Seq<Nonterm> {
    pd.reverse_nonterm_map.map_values(|e: (Nonterm, Seq<char>)| e.0)
}

pub open spec fn keys_distinct(v: Seq<((Nonterm, Term), Production)>) -> bool {
    forall|i: int, j: int|
        0 <= i < v.len() && 0 <= j < v.len() && i != j ==> #[trigger] v[i].0 != #[trigger] v[j].0
}

/// The entries of a table as a map.
pub open spec fn table_view(v: Seq<((Nonterm, Term), Production)>) -> Map<
    (Nonterm, Term),
    SpecProduction,
> {
    Map::new(
        |k: (Nonterm, Term)| exists|i: int| 0 <= i < v.len() && #[trigger] v[i].0 == k,
        |k: (Nonterm, Term)| v[choose|i: int| 0 <= i < v.len() && #[trigger] v[i].0 == k].1@,
    )
}

proof fn lemma_table_view_at(v: Seq<((Nonterm, Term), Production)>, i: int)
    requires
        keys_distinct(v),
        0 <= i < v.len(),
    ensures
        table_view(v).dom().contains(v[i].0),
        table_view(v)[v[i].0] == v[i].1@,
{
    assert(v[i].0 == v[i].0);
    let c = choose|c: int| 0 <= c < v.len() && #[trigger] v[c].0 == v[i].0;
    assert(c == i);
}

/// Puts `prod` at `key`, replacing what was there.
fn table_insert(table: &mut Vec<((Nonterm, Term), Production)>, key: (Nonterm, Term), prod: Production)
    requires
        keys_distinct(old(table)@),
    ensures
        keys_distinct(final(table)@),
        table_view(final(table)@) == table_view(old(table)@).insert(key, prod@),
{
    let ghost old_v = table@;
    let ghost pv = prod@;
    let n = table.len();
    for j in 0..n
        invariant
            n == old_v.len(),
            old_v == old(table)@,
            table@ == old_v,
            keys_distinct(old_v),
            pv == prod@,
            forall|k: int| 0 <= k < j ==> old_v[k].0 != key,
    {
        if table[j].0.0 == key.0 && table[j].0.1 == key.1 {
            table.set(j, (key, prod));
            let ghost v = table@;
            assert(keys_distinct(v));
            assert forall|k: (Nonterm, Term)| #[trigger]
                table_view(v).dom().contains(k) == table_view(old_v).insert(key, pv).dom().contains(k)
                by {
                if table_view(old_v).dom().contains(k) {
                    let x = choose|x: int| 0 <= x < old_v.len() && #[trigger] old_v[x].0 == k;
                    assert(v[x].0 == k);
                }
                if table_view(v).dom().contains(k) {
                    let x = choose|x: int| 0 <= x < v.len() && #[trigger] v[x].0 == k;
                    assert(old_v[x].0 == k);
                }
            }
            assert forall|k: (Nonterm, Term)| #[trigger] table_view(v).dom().contains(k) implies table_view(
                v,
            )[k] == table_view(old_v).insert(key, pv)[k] by {
                let x = choose|x: int| 0 <= x < v.len() && #[trigger] v[x].0 == k;
                lemma_table_view_at(v, x);
                if x != j {
                    lemma_table_view_at(old_v, x);
                }
            }
            assert(table_view(v) =~= table_view(old_v).insert(key, pv));
            return ;
        }
    }
    table.push((key, prod));
    let ghost v = table@;
    assert(keys_distinct(v));
    assert forall|k: (Nonterm, Term)| #[trigger]
        table_view(v).dom().contains(k) == table_view(old_v).insert(key, pv).dom().contains(k) by {
        if table_view(old_v).dom().contains(k) {
            let x = choose|x: int| 0 <= x < old_v.len() && #[trigger] old_v[x].0 == k;
            assert(v[x].0 == k);
        }
        if k == key {
            assert(v[old_v.len() as int].0 == k);
        }
        if table_view(v).dom().contains(k) {
            let x = choose|x: int| 0 <= x < v.len() && #[trigger] v[x].0 == k;
            if x < old_v.len() {
                assert(old_v[x].0 == k);
            }
        }
    }
    assert forall|k: (Nonterm, Term)| #[trigger] table_view(v).dom().contains(k) implies table_view(v)[k]
        == table_view(old_v).insert(key, pv)[k] by {
        let x = choose|x: int| 0 <= x < v.len() && #[trigger] v[x].0 == k;
        lemma_table_view_at(v, x);
        if x < old_v.len() {
            lemma_table_view_at(old_v, x);
        }
    }
    assert(table_view(v) =~= table_view(old_v).insert(key, pv));
}

proof fn lemma_with_entries_insert(
    m: Map<(Nonterm, Term), SpecProduction>,
    n: Nonterm,
    ts: Set<Term>,
    t: Term,
    p: SpecProduction,
)
    ensures
        with_entries(m, n, ts.insert(t), p) == with_entries(m, n, ts, p).insert((n, t), p),
        with_entries(m, n, Set::empty(), p) == m,
{
    assert(with_entries(m, n, ts.insert(t), p) =~= with_entries(m, n, ts, p).insert((n, t), p));
    assert(with_entries(m, n, Set::empty(), p) =~= m);
}

/// Puts `prod` at `(nonterm, t)` for each terminal `t` of `terms`.
fn put_entries(
    table: &mut Vec<((Nonterm, Term), Production)>,
    nonterm: Nonterm,
    terms: &Vec<Term>,
    prod: &Production,
    Ghost(m): Ghost<Map<(Nonterm, Term), SpecProduction>>,
    Ghost(ts): Ghost<Set<Term>>,
)
    requires
        keys_distinct(old(table)@),
        table_view(old(table)@) == with_entries(m, nonterm, ts, prod@),
    ensures
        keys_distinct(final(table)@),
        table_view(final(table)@) == with_entries(m, nonterm, ts.union(terms@.to_set()), prod@),
{
    assert(ts.union(terms@.take(0).to_set()) =~= ts);
    for j in 0..terms.len()
        invariant
            keys_distinct(table@),
            table_view(table@) == with_entries(
                m,
                nonterm,
                ts.union(terms@.take(j as int).to_set()),
                prod@,
            ),
    {
        table_insert(table, (nonterm, terms[j]), prod.duplicate());
        proof {
            let a = ts.union(terms@.take(j as int).to_set());
            lemma_with_entries_insert(m, nonterm, a, terms@[j as int], prod@);
            assert(terms@.take(j + 1) =~= terms@.take(j as int).push(terms@[j as int]));
            lemma_to_set_push(terms@.take(j as int), terms@[j as int]);
            assert(ts.union(terms@.take(j + 1).to_set()) =~= a.insert(terms@[j as int]));
        }
    }
    assert(terms@.take(terms.len() as int) =~= terms@);
}

/// `fm` has an entry for `n`.
pub open spec fn has_entry(fm: Seq<(Nonterm, Vec<Term>)>, n: Nonterm) -> bool {
    exists|y: int| 0 <= y < fm.len() && #[trigger] fm[y].0 == n
}

/// The LL(1) parsing table of a grammar, as `ll1_table` describes it: the
/// entry at `(A, t)` is the last production of `A` whose right-hand side
/// begins with `t`, or can be empty and `t` follows `A`.
pub fn create_ll1_parsing_table(parser_data: &ParserData) -> (table: Vec<
    ((Nonterm, Term), Production),
>)
    ensures
        keys_distinct(table@),
        table_view(table@) == ll1_table(
            parser_data@.productions,
            nonterm_keys(parser_data@),
            parser_data@.productions.len() as int,
        ),
{
    let prods = &parser_data.productions;
    let nonterm_map = &parser_data.reverse_nonterm_map;
    let ghost g = productions_view(prods@);
    let ghost keys = nonterm_keys(parser_data@);
    let mut table_map: Vec<((Nonterm, Term), Production)> = Vec::new();
    let cool_prods = refine_prods_into_hashmap(prods);
    let nul = nullable_nonterms(prods, &cool_prods);
    let mut cache: Vec<(Nonterm, Vec<Term>)> = Vec::new();
    let mut follow_map: Vec<(Nonterm, Vec<Term>)> = Vec::new();
    for k in 0..nonterm_map.len()
        invariant
            g == productions_view(prods@),
            g == parser_data@.productions,
            keys == nonterm_keys(parser_data@),
            keys.len() == nonterm_map.len(),
            nonterm_map == &parser_data.reverse_nonterm_map,
            prods == &parser_data.productions,
            nul@.to_set() == nullable_set(g),
            grouped(cool_prods@, g),
            cache_ok(cache@, g),
            forall|x: int| 0 <= x < follow_map.len() ==> {
                &&& keys.contains(#[trigger] follow_map@[x].0)
                &&& follow_map@[x].1@.to_set() == follow_of(follow_map@[x].0, g)
            },
            forall|x: int| 0 <= x < k ==> has_entry(follow_map@, #[trigger] keys[x]),
    {
        let nonterm = nonterm_map[k].0;
        assert(parser_data@.reverse_nonterm_map[k as int] == (nonterm, nonterm_map@[k as int].1@));
        assert(keys[k as int] == nonterm);
        let follow = follow_recur(nonterm, prods, &cool_prods, &mut cache, &nul);
        let ghost old_fm = follow_map@;
        follow_map.push((nonterm, follow));
        assert(follow_map@[follow_map.len() - 1].0 == keys[k as int]);
        assert forall|x: int| 0 <= x < k + 1 implies has_entry(follow_map@, #[trigger] keys[x]) by {
            if x == k {
                assert(follow_map@[follow_map.len() - 1].0 == keys[x]);
            } else {
                assert(has_entry(old_fm, keys[x]));
                let y = choose|y: int| 0 <= y < old_fm.len() && #[trigger] old_fm[y].0 == keys[x];
                assert(follow_map@[y] == old_fm[y]);
            }
        }
    }
    assert(table_view(table_map@) =~= ll1_table(g, keys, 0));
    for i in 0..prods.len()
        invariant
            prods == &parser_data.productions,
            g == productions_view(prods@),
            g == parser_data@.productions,
            keys == nonterm_keys(parser_data@),
            nul@.to_set() == nullable_set(g),
            grouped(cool_prods@, g),
            forall|x: int| 0 <= x < follow_map.len() ==> {
                &&& keys.contains(#[trigger] follow_map@[x].0)
                &&& follow_map@[x].1@.to_set() == follow_of(follow_map@[x].0, g)
            },
            forall|x: int| 0 <= x < keys.len() ==> has_entry(follow_map@, #[trigger] keys[x]),
            keys_distinct(table_map@),
            table_view(table_map@) == ll1_table(g, keys, i as int),
    {
        let prod = &prods[i];
        let ghost p = prod@;
        let ghost prev = ll1_table(g, keys, i as int);
        assert(g[i as int] == p);
        let (first_set, empty_string) = match &prod.derivation {
            Derivation::Null => (Vec::new(), true),
            Derivation::Symbols(sym_vec) => {
                assert(g[i as int].derivation == SpecDerivation::Symbols(sym_vec@));
                assert(sym_vec@.subrange(0, sym_vec@.len() as int) =~= sym_vec@);
                first(sym_vec, 0, prods, &cool_prods, &nul)
            },
        };
        assert(first_set@.to_set() =~= prod_first(p, g).0);
        assert(empty_string == prod_first(p, g).1);
        proof {
            lemma_with_entries_insert(prev, p.nonterm, Set::empty(), Term(0), p);
            assert(Set::<Term>::empty().union(first_set@.to_set()) =~= first_set@.to_set());
        }
        put_entries(&mut table_map, prod.nonterm, &first_set, prod, Ghost(prev), Ghost(Set::empty()));
        assert(table_view(table_map@) == with_entries(prev, p.nonterm, first_set@.to_set(), p));
        if empty_string {
            match find_cached(&follow_map, prod.nonterm) {
                Some(j) => {
                    assert(keys.contains(p.nonterm));
                    put_entries(
                        &mut table_map,
                        prod.nonterm,
                        &follow_map[j].1,
                        prod,
                        Ghost(prev),
                        Ghost(first_set@.to_set()),
                    );
                },
                None => {
                    assert(!keys.contains(p.nonterm)) by {
                        if keys.contains(p.nonterm) {
                            let x = choose|x: int| 0 <= x < keys.len() && keys[x] == p.nonterm;
                            assert(has_entry(follow_map@, keys[x]));
                        }
                    }
                },
            }
        }
        assert(entry_terms(p, keys, g) =~= first_set@.to_set().union(
            if empty_string { follow_or_empty(p.nonterm, keys, g) } else { Set::empty() },
        ));
        assert(table_view(table_map@) =~= ll1_table(g, keys, i + 1));
    }
    table_map
}

// ---------------------------------------------------------------------
// Laws.
// ---------------------------------------------------------------------

/// Production `p` claims the entry `key`: `key` is `(A, t)` with `A` the
/// nonterminal of `p` and `t` in its entry terminals.
pub open spec fn claims(
    p: SpecProduction,
    keys: Seq<Nonterm>,
    g: Seq<SpecProduction>,
    key: (Nonterm, Term),
) -> bool {
    key.0 == p.nonterm && entry_terms(p, keys, g).contains(key.1)
}

/// Production `i` is the last of the first `k` productions to claim `key`.
pub open spec fn last_claim(
    g: Seq<SpecProduction>,
    keys: Seq<Nonterm>,
    k: int,
    key: (Nonterm, Term),
    i: int,
) -> bool {
    &&& 0 <= i < k
    &&& claims(g[i], keys, g, key)
    &&& forall|j: int| i < j < k ==> !claims(#[trigger] g[j], keys, g, key)
}

/// The table has an entry exactly where some production claims one, and
/// holds there the last production that claims it.
pub proof fn lemma_ll1_table_entries(g: Seq<SpecProduction>, keys: Seq<Nonterm>, k: int)
    requires
        0 <= k <= g.len(),
    ensures
        forall|key: (Nonterm, Term)|
            #[trigger] ll1_table(g, keys, k).dom().contains(key) <==> exists|i: int|
                0 <= i < k && claims(#[trigger] g[i], keys, g, key),
        forall|key: (Nonterm, Term), i: int|
            #[trigger] last_claim(g, keys, k, key, i) ==> ll1_table(g, keys, k)[key] == g[i],
    decreases k,
{
    if k > 0 {
        lemma_ll1_table_entries(g, keys, k - 1);
        let p = g[k - 1];
        assert forall|key: (Nonterm, Term)|
            #[trigger] ll1_table(g, keys, k).dom().contains(key) <==> exists|i: int|
                0 <= i < k && claims(#[trigger] g[i], keys, g, key) by {
            if exists|i: int| 0 <= i < k && claims(#[trigger] g[i], keys, g, key) {
                let i = choose|i: int| 0 <= i < k && claims(#[trigger] g[i], keys, g, key);
                if i < k - 1 {
                    assert(ll1_table(g, keys, k - 1).dom().contains(key));
                }
            }
            if ll1_table(g, keys, k).dom().contains(key) {
                if ll1_table(g, keys, k - 1).dom().contains(key) {
                    let i = choose|i: int| 0 <= i < k - 1 && claims(#[trigger] g[i], keys, g, key);
                    assert(claims(g[i], keys, g, key));
                } else {
                    assert(claims(g[k - 1], keys, g, key));
                }
            }
        }
        assert forall|key: (Nonterm, Term), i: int|
            #[trigger] last_claim(g, keys, k, key, i) implies ll1_table(g, keys, k)[key] == g[i] by {
            if i < k - 1 {
                assert(!claims(g[k - 1], keys, g, key));
                assert(last_claim(g, keys, k - 1, key, i));
            }
        }
    }
}

/// FIRST of a string that begins with a terminal is that terminal alone,
/// and the string cannot derive the empty string.
pub proof fn lemma_first_terminal(t: Term, rest: Seq<Symbol>, g: Seq<SpecProduction>)
    ensures
        first_of(seq![Symbol::T(t)] + rest, g) == (set![t], false),
{
    let gs = seq![Symbol::T(t)] + rest;
    let nul = nullable_set(g);
    assert(gs[0] == Symbol::T(t));
    assert(nullable_prefix(gs, 0, nul));
    assert forall|j: int| 0 < j <= gs.len() implies !nullable_prefix(gs, j, nul) by {
        assert(!(gs[0] is N));
    }
    assert(first_of(gs, g).0 =~= set![t]);
}

/// FIRST of a concatenation: FIRST of the first part, and, when that part
/// can derive the empty string, FIRST of the second part too.
pub proof fn lemma_first_concat(a: Seq<Symbol>, b: Seq<Symbol>, g: Seq<SpecProduction>)
    ensures
        first_of(a + b, g) == if first_of(a, g).1 {
            (first_of(a, g).0.union(first_of(b, g).0), first_of(b, g).1)
        } else {
            first_of(a, g)
        },
{
    let nul = nullable_set(g);
    let ab = a + b;
    let n = a.len() as int;
    assert forall|j: int| 0 <= j <= n implies nullable_prefix(ab, j, nul) == nullable_prefix(a, j, nul) by {
        assert forall|x: int| 0 <= x < j implies ab[x] == a[x] by {}
        if nullable_prefix(a, j, nul) {
            assert forall|x: int| 0 <= x < j implies (#[trigger] ab[x] is N && nul.contains(ab[x]->N_0)) by {
                assert(ab[x] == a[x]);
            }
        }
        if nullable_prefix(ab, j, nul) {
            assert forall|x: int| 0 <= x < j implies (#[trigger] a[x] is N && nul.contains(a[x]->N_0)) by {
                assert(ab[x] == a[x]);
            }
        }
    }
    assert forall|j: int| n <= j <= ab.len() implies nullable_prefix(ab, j, nul) == (nullable_prefix(a, n, nul) && nullable_prefix(b, j - n, nul)) by {
        if nullable_prefix(ab, j, nul) {
            assert forall|x: int| 0 <= x < n implies (#[trigger] a[x] is N && nul.contains(a[x]->N_0)) by {
                assert(ab[x] == a[x]);
            }
            assert forall|x: int| 0 <= x < j - n implies (#[trigger] b[x] is N && nul.contains(b[x]->N_0)) by {
                assert(ab[x + n] == b[x]);
            }
        }
        if nullable_prefix(a, n, nul) && nullable_prefix(b, j - n, nul) {
            assert forall|x: int| 0 <= x < j implies (#[trigger] ab[x] is N && nul.contains(ab[x]->N_0)) by {
                if x < n {
                    assert(ab[x] == a[x]);
                } else {
                    assert(ab[x] == b[x - n]);
                }
            }
        }
    }
    let fa = first_of(a, g);
    let fb = first_of(b, g);
    let fab = first_of(ab, g);
    let expected = if fa.1 { fa.0.union(fb.0) } else { fa.0 };
    assert forall|t: Term| fab.0.contains(t) implies expected.contains(t) by {
        let j = choose|j: int|
            0 <= j < ab.len() && #[trigger] nullable_prefix(ab, j, nul) && (ab[j] == Symbol::T(t) || (
            ab[j] is N && first_set(g, ab[j]->N_0).contains(t)));
        if j < n {
            assert(ab[j] == a[j]);
            assert(nullable_prefix(a, j, nul));
        } else {
            assert(ab[j] == b[j - n]);
            assert(nullable_prefix(b, j - n, nul));
        }
    }
    assert forall|t: Term| expected.contains(t) implies fab.0.contains(t) by {
        if fa.0.contains(t) {
            let j = choose|j: int|
                0 <= j < a.len() && #[trigger] nullable_prefix(a, j, nul) && (a[j] == Symbol::T(t) || (
                a[j] is N && first_set(g, a[j]->N_0).contains(t)));
            assert(ab[j] == a[j]);
            assert(nullable_prefix(ab, j, nul));
        } else {
            let j = choose|j: int|
                0 <= j < b.len() && #[trigger] nullable_prefix(b, j, nul) && (b[j] == Symbol::T(t) || (
                b[j] is N && first_set(g, b[j]->N_0).contains(t)));
            assert(ab[j + n] == b[j]);
            assert(nullable_prefix(ab, j + n, nul));
        }
    }
    assert(fab.0 =~= expected);
}

} // verus!

