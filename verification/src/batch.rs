//! Query batching: grouping collateral pairs into the minimum set of
//! outbound queries, one per distinct `fsym` in lexical code order, each
//! carrying the sorted, deduplicated list of `tsym` codes joined with
//! commas.

use vstd::prelude::*;
use vstd::string::{StrSliceExecFns, StringExecFns};

verus! {

use crate::pair::{pair_str, CollateralPair};
use crate::symbol::{sym_code, Symbol};
use crate::text::lex_le;

/// One outbound query: all requested `tsym`s for one `fsym`.
#[derive(Debug, Clone)]
pub struct Query {
    /// The currency the rates are quoted for.
    pub fsym: Symbol,
    /// The quote currencies, lexicographically sorted and deduplicated.
    pub tsyms: Vec<Symbol>,
    /// Value of the `fsym` request parameter: the code of `fsym`.
    pub fsym_param: String,
    /// Value of the `tsyms` request parameter: the codes joined with `,`.
    pub tsyms_param: String,
}

/// Strict lexicographic order on two symbols' codes.
pub open spec fn code_lt(a: Symbol, b: Symbol) -> bool {
    lex_le(sym_code(a), sym_code(b)) && a != b
}

/// The batching order on pairs: by `fsym` code, then by `tsym` code, both
/// lexical — the total order on symbols.
pub open spec fn pair_batch_le(p: CollateralPair, q: CollateralPair) -> bool {
    if p.fsym != q.fsym {
        code_lt(p.fsym, q.fsym)
    } else {
        lex_le(sym_code(p.tsym), sym_code(q.tsym))
    }
}

/// The `tsym` codes joined with commas.
pub open spec fn join_codes(ts: Seq<Symbol>) -> Seq<char>
    decreases ts.len(),
{
    if ts.len() == 0 {
        Seq::empty()
    } else if ts.len() == 1 {
        sym_code(ts[0])
    } else {
        sym_code(ts[0]) + seq![','] + join_codes(ts.drop_first())
    }
}

proof fn lemma_join_codes_push(ts: Seq<Symbol>, x: Symbol)
    ensures
        join_codes(ts.push(x)) == if ts.len() == 0 {
            sym_code(x)
        } else {
            join_codes(ts) + seq![','] + sym_code(x)
        },
    decreases ts.len(),
{
    if ts.len() == 0 {
        assert(ts.push(x).len() == 1);
        assert(ts.push(x)[0] == x);
    } else {
        assert(ts.push(x).drop_first() =~= ts.drop_first().push(x));
        lemma_join_codes_push(ts.drop_first(), x);
        if ts.len() == 1 {
            assert(join_codes(ts.push(x)) == sym_code(ts[0]) + seq![','] + sym_code(x));
            assert(join_codes(ts) == sym_code(ts[0]));
        } else {
            assert(join_codes(ts.push(x)) == sym_code(ts[0]) + seq![','] + (join_codes(
                ts.drop_first(),
            ) + seq![','] + sym_code(x)));
            assert(join_codes(ts) + seq![','] + sym_code(x) =~= sym_code(ts[0]) + seq![','] + (
            join_codes(ts.drop_first()) + seq![','] + sym_code(x)));
        }
    }
}

/// Builds the comma-joined parameter string for a list of symbols.
fn join_codes_exec(ts: &Vec<Symbol>) -> (r: String)
    ensures
        r@ == join_codes(ts@),
{
    let mut s = String::new();
    let mut i: usize = 0;
    proof {
        reveal_strlit(",");
        assert(","@ =~= seq![',']);
        assert(ts@.subrange(0, 0) =~= Seq::<Symbol>::empty());
    }
    while i < ts.len()
        invariant
            i <= ts@.len(),
            s@ == join_codes(ts@.subrange(0, i as int)),
            ","@ == seq![','],
        decreases ts@.len() - i,
    {
        if i > 0 {
            s.append(",");
        }
        s.append(ts[i].code());
        proof {
            lemma_join_codes_push(ts@.subrange(0, i as int), ts@[i as int]);
            assert(ts@.subrange(0, i + 1) =~= ts@.subrange(0, i as int).push(ts@[i as int]));
        }
        i += 1;
    }
    proof {
        assert(ts@.subrange(0, ts@.len() as int) =~= ts@);
    }
    s
}

/// Some input pair carries this `fsym`.
pub open spec fn some_pair_has_fsym(ps: Seq<CollateralPair>, f: Symbol) -> bool {
    exists|p: CollateralPair|
        #![trigger ps.to_set().contains(p)]
        ps.to_set().contains(p) && p.fsym == f
}

/// Some query answers for this `fsym`.
pub open spec fn some_query_has_fsym(qs: Seq<Query>, f: Symbol) -> bool {
    exists|i: int| 0 <= i < qs.len() && #[trigger] qs[i].fsym == f
}

/// The well-formedness of a query list for an input pair list: one query
/// per distinct `fsym`, lexically ascending by code; within a query the
/// `tsym`s strictly ascending by code; a `tsym` is listed under an `fsym`
/// exactly when the input contains that pair; the parameter strings spell
/// the query.
pub open spec fn queries_match_pairs(ps: Seq<CollateralPair>, qs: Seq<Query>) -> bool {
    &&& (forall|i: int, j: int| 0 <= i < j < qs.len() ==> code_lt(qs[i].fsym, qs[j].fsym))
    &&& (forall|i: int| 0 <= i < qs.len() ==> some_pair_has_fsym(ps, #[trigger] qs[i].fsym))
    &&& (forall|p: CollateralPair|
        ps.to_set().contains(p) ==> some_query_has_fsym(qs, p.fsym))
    &&& (forall|i: int, a: int, b: int|
        0 <= i < qs.len() && 0 <= a < b < qs[i].tsyms@.len() ==> code_lt(
            qs[i].tsyms@[a],
            qs[i].tsyms@[b],
        ))
    &&& (forall|i: int, t: Symbol|
        0 <= i < qs.len() ==> (qs[i].tsyms@.contains(t) <==> ps.to_set().contains(
            CollateralPair { fsym: qs[i].fsym, tsym: t },
        )))
    &&& (forall|i: int| 0 <= i < qs.len() ==> qs[i].fsym_param@ == sym_code(qs[i].fsym))
    &&& (forall|i: int| 0 <= i < qs.len() ==> qs[i].tsyms_param@ == join_codes(qs[i].tsyms@))
}

/// Appending one pair to a sequence inserts it into the element set.
proof fn lemma_push_to_set(s: Seq<CollateralPair>, p: CollateralPair)
    ensures
        s.push(p).to_set() == s.to_set().insert(p),
{
    broadcast use vstd::set::group_set_axioms;

    assert forall|x: CollateralPair|
        s.push(p).to_set().contains(x) == s.to_set().insert(p).contains(x) by {
        if s.push(p).contains(x) {
            let k = choose|k: int| 0 <= k < s.push(p).len() && s.push(p)[k] == x;
            if k < s.len() {
                assert(s[k] == x);
                assert(s.contains(x));
            }
        }
        if s.contains(x) {
            let k = choose|k: int| 0 <= k < s.len() && s[k] == x;
            assert(s.push(p)[k] == x);
            assert(s.push(p).contains(x));
        }
        if x == p {
            assert(s.push(p)[s.len() as int] == x);
            assert(s.push(p).contains(x));
        }
    }
    assert(s.push(p).to_set() =~= s.to_set().insert(p));
}

/// The lexical order on codes never holds both ways.
proof fn lemma_code_lt_asymmetric(a: Symbol, b: Symbol)
    requires
        code_lt(a, b),
    ensures
        !code_lt(b, a),
{
    if code_lt(b, a) {
        crate::text::lemma_lex_le_antisymmetric(sym_code(a), sym_code(b));
        crate::symbol::lemma_sym_code_injective(a, b);
    }
}

/// Distinct symbols compare one way or the other.
proof fn lemma_code_lt_total(a: Symbol, b: Symbol)
    requires
        a != b,
    ensures
        code_lt(a, b) || code_lt(b, a),
{
    crate::text::lemma_lex_le_total(sym_code(a), sym_code(b));
}

/// Queries never repeat an `fsym`: together with the coverage clauses of
/// `queries_match_pairs`, the batcher emits exactly one query per distinct
/// `fsym` of the input.
pub proof fn lemma_one_query_per_fsym(ps: Seq<CollateralPair>, qs: Seq<Query>)
    requires
        queries_match_pairs(ps, qs),
    ensures
        forall|i: int, j: int| 0 <= i < j < qs.len() ==> qs[i].fsym != qs[j].fsym,
{
    assert forall|i: int, j: int| 0 <= i < j < qs.len() implies qs[i].fsym != qs[j].fsym by {
        assert(code_lt(qs[i].fsym, qs[j].fsym));
    }
}

/// The emitted query order is the lexical order of the `fsym` codes, as
/// the symbols' total order asks.
pub proof fn lemma_queries_lexically_sorted(ps: Seq<CollateralPair>, qs: Seq<Query>)
    requires
        queries_match_pairs(ps, qs),
    ensures
        forall|i: int, j: int|
            0 <= i < j < qs.len() ==> lex_le(sym_code(qs[i].fsym), sym_code(qs[j].fsym)),
{
    assert forall|i: int, j: int| 0 <= i < j < qs.len() implies lex_le(
        sym_code(qs[i].fsym),
        sym_code(qs[j].fsym),
    ) by {
        assert(code_lt(qs[i].fsym, qs[j].fsym));
    }
}

/// Two strictly increasing symbol sequences with the same elements are the
/// same sequence.
proof fn lemma_strict_sorted_symbols_unique(
    s1: Seq<Symbol>,
    s2: Seq<Symbol>,
    lt: spec_fn(Symbol, Symbol) -> bool,
)
    requires
        forall|a: Symbol, b: Symbol| #[trigger] lt(a, b) ==> !lt(b, a),
        forall|a: Symbol, b: Symbol| a != b ==> lt(a, b) || #[trigger] lt(b, a),
        forall|i: int, j: int| 0 <= i < j < s1.len() ==> #[trigger] lt(s1[i], s1[j]),
        forall|i: int, j: int| 0 <= i < j < s2.len() ==> #[trigger] lt(s2[i], s2[j]),
        forall|t: Symbol| s1.contains(t) <==> s2.contains(t),
    ensures
        s1 == s2,
    decreases s1.len(),
{
    if s1.len() == 0 {
        if s2.len() > 0 {
            assert(s2.contains(s2[0]));
            assert(false);
        }
        assert(s1 =~= s2);
    } else {
        assert(s1.contains(s1[0]));
        assert(s2.contains(s1[0]));
        if s2.len() == 0 {
            assert(false);
        }
        if s1[0] != s2[0] {
            let j = choose|j: int| 0 <= j < s2.len() && s2[j] == s1[0];
            assert(s1.contains(s2[0]));
            let k = choose|k: int| 0 <= k < s1.len() && s1[k] == s2[0];
            assert(j > 0 && k > 0);
            assert(lt(s2[0], s2[j]));
            assert(lt(s1[0], s1[k]));
            assert(false);
        }
        let t1 = s1.drop_first();
        let t2 = s2.drop_first();
        assert forall|t: Symbol| t1.contains(t) == t2.contains(t) by {
            if t1.contains(t) {
                let k = choose|k: int| 0 <= k < t1.len() && t1[k] == t;
                assert(s1[k + 1] == t);
                assert(s1.contains(t));
                assert(s2.contains(t));
                let j = choose|j: int| 0 <= j < s2.len() && s2[j] == t;
                if j == 0 {
                    assert(lt(s1[0], s1[k + 1]));
                    assert(false);
                }
                assert(t2[j - 1] == t);
                assert(t2.contains(t));
            }
            if t2.contains(t) {
                let k = choose|k: int| 0 <= k < t2.len() && t2[k] == t;
                assert(s2[k + 1] == t);
                assert(s2.contains(t));
                assert(s1.contains(t));
                let j = choose|j: int| 0 <= j < s1.len() && s1[j] == t;
                if j == 0 {
                    assert(lt(s2[0], s2[k + 1]));
                    assert(false);
                }
                assert(t1[j - 1] == t);
                assert(t1.contains(t));
            }
        }
        assert forall|i: int, j: int| 0 <= i < j < t1.len() implies lt(t1[i], t1[j]) by {
            assert(lt(s1[i + 1], s1[j + 1]));
        }
        assert forall|i: int, j: int| 0 <= i < j < t2.len() implies lt(t2[i], t2[j]) by {
            assert(lt(s2[i + 1], s2[j + 1]));
        }
        lemma_strict_sorted_symbols_unique(t1, t2, lt);
        assert forall|i: int| 0 <= i < s1.len() implies s1[i] == s2[i] by {
            if i > 0 {
                assert(s1[i] == t1[i - 1]);
                assert(s2[i] == t2[i - 1]);
            }
        }
        assert(s1 =~= s2);
    }
}

/// Batching is deterministic: any two query lists that match inputs with
/// the same pair set agree query by query, parameter strings included.
pub proof fn lemma_batching_deterministic(
    ps1: Seq<CollateralPair>,
    ps2: Seq<CollateralPair>,
    qs1: Seq<Query>,
    qs2: Seq<Query>,
)
    requires
        ps1.to_set() == ps2.to_set(),
        queries_match_pairs(ps1, qs1),
        queries_match_pairs(ps2, qs2),
    ensures
        qs1.len() == qs2.len(),
        forall|i: int|
            0 <= i < qs1.len() ==> {
                &&& qs1[i].fsym == qs2[i].fsym
                &&& qs1[i].tsyms@ == qs2[i].tsyms@
                &&& qs1[i].fsym_param@ == qs2[i].fsym_param@
                &&& qs1[i].tsyms_param@ == qs2[i].tsyms_param@
            },
{
    let f1 = Seq::new(qs1.len(), |i: int| qs1[i].fsym);
    let f2 = Seq::new(qs2.len(), |i: int| qs2[i].fsym);
    let f_lt = |a: Symbol, b: Symbol| code_lt(a, b);
    assert forall|a: Symbol, b: Symbol| #[trigger] f_lt(a, b) implies !f_lt(b, a) by {
        lemma_code_lt_asymmetric(a, b);
    }
    assert forall|a: Symbol, b: Symbol| a != b implies f_lt(a, b) || #[trigger] f_lt(
        b,
        a,
    ) by {
        lemma_code_lt_total(a, b);
    }
    assert forall|t: Symbol| f1.contains(t) == f2.contains(t) by {
        if f1.contains(t) {
            let i = choose|i: int| 0 <= i < f1.len() && f1[i] == t;
            assert(some_pair_has_fsym(ps1, qs1[i].fsym));
            let p = choose|p: CollateralPair|
                #![trigger ps1.to_set().contains(p)]
                ps1.to_set().contains(p) && p.fsym == qs1[i].fsym;
            assert(some_query_has_fsym(qs2, p.fsym));
            let j = choose|j: int| 0 <= j < qs2.len() && #[trigger] qs2[j].fsym == p.fsym;
            assert(f2[j] == t);
            assert(f2.contains(t));
        }
        if f2.contains(t) {
            let i = choose|i: int| 0 <= i < f2.len() && f2[i] == t;
            assert(some_pair_has_fsym(ps2, qs2[i].fsym));
            let p = choose|p: CollateralPair|
                #![trigger ps2.to_set().contains(p)]
                ps2.to_set().contains(p) && p.fsym == qs2[i].fsym;
            assert(some_query_has_fsym(qs1, p.fsym));
            let j = choose|j: int| 0 <= j < qs1.len() && #[trigger] qs1[j].fsym == p.fsym;
            assert(f1[j] == t);
            assert(f1.contains(t));
        }
    }
    lemma_strict_sorted_symbols_unique(f1, f2, f_lt);
    assert(qs1.len() == qs2.len());
    assert forall|i: int| 0 <= i < qs1.len() implies {
        &&& qs1[i].fsym == qs2[i].fsym
        &&& qs1[i].tsyms@ == qs2[i].tsyms@
        &&& qs1[i].fsym_param@ == qs2[i].fsym_param@
        &&& qs1[i].tsyms_param@ == qs2[i].tsyms_param@
    } by {
        assert(f1[i] == f2[i]);
        assert(qs1[i].fsym == qs2[i].fsym);
        let ts1 = qs1[i].tsyms@;
        let ts2 = qs2[i].tsyms@;
        let clt = |a: Symbol, b: Symbol| code_lt(a, b);
        assert forall|a: Symbol, b: Symbol| #[trigger] clt(a, b) implies !clt(b, a) by {
            if code_lt(a, b) && code_lt(b, a) {
                crate::text::lemma_lex_le_antisymmetric(sym_code(a), sym_code(b));
                crate::symbol::lemma_sym_code_injective(a, b);
            }
        }
        assert forall|a: Symbol, b: Symbol| a != b implies clt(a, b) || #[trigger] clt(
            b,
            a,
        ) by {
            crate::text::lemma_lex_le_total(sym_code(a), sym_code(b));
        }
        assert forall|t: Symbol| ts1.contains(t) == ts2.contains(t) by {
            assert(ts1.contains(t) <==> ps1.to_set().contains(
                CollateralPair { fsym: qs1[i].fsym, tsym: t },
            ));
            assert(ts2.contains(t) <==> ps2.to_set().contains(
                CollateralPair { fsym: qs2[i].fsym, tsym: t },
            ));
        }
        lemma_strict_sorted_symbols_unique(ts1, ts2, clt);
    }
}

/// Whether `p` precedes `q` in the batching order.
fn batch_le(p: &CollateralPair, q: &CollateralPair) -> (r: bool)
    ensures
        r == pair_batch_le(*p, *q),
{
    if p.fsym == q.fsym {
        crate::text::str_lex_le(p.tsym.code(), q.tsym.code())
    } else {
        crate::text::str_lex_le(p.fsym.code(), q.fsym.code())
    }
}

/// Position at which `x` keeps `out` sorted in batching order.
fn batch_insert_position(out: &Vec<CollateralPair>, x: &CollateralPair) -> (j: usize)
    ensures
        j <= out@.len(),
        forall|k: int| 0 <= k < j ==> pair_batch_le(out@[k], *x),
        j < out@.len() ==> !pair_batch_le(out@[j as int], *x),
{
    let mut j: usize = 0;
    while j < out.len()
        invariant
            j <= out@.len(),
            forall|k: int| 0 <= k < j ==> pair_batch_le(out@[k], *x),
        decreases out@.len() - j,
    {
        if !batch_le(&out[j], x) {
            return j;
        }
        j += 1;
    }
    j
}

proof fn lemma_code_lt_transitive(a: Symbol, b: Symbol, c: Symbol)
    requires
        code_lt(a, b),
        code_lt(b, c),
    ensures
        code_lt(a, c),
{
    crate::text::lemma_lex_le_transitive(sym_code(a), sym_code(b), sym_code(c));
    if a == c {
        crate::text::lemma_lex_le_antisymmetric(sym_code(a), sym_code(b));
        crate::symbol::lemma_sym_code_injective(a, b);
    }
}

proof fn lemma_batch_le_total(p: CollateralPair, q: CollateralPair)
    ensures
        pair_batch_le(p, q) || pair_batch_le(q, p),
{
    if p.fsym == q.fsym {
        crate::text::lemma_lex_le_total(sym_code(p.tsym), sym_code(q.tsym));
    } else {
        lemma_code_lt_total(p.fsym, q.fsym);
    }
}

proof fn lemma_batch_le_transitive(p: CollateralPair, q: CollateralPair, r: CollateralPair)
    requires
        pair_batch_le(p, q),
        pair_batch_le(q, r),
    ensures
        pair_batch_le(p, r),
{
    if p.fsym == q.fsym && q.fsym == r.fsym {
        crate::text::lemma_lex_le_transitive(
            sym_code(p.tsym),
            sym_code(q.tsym),
            sym_code(r.tsym),
        );
    } else if p.fsym != q.fsym && q.fsym != r.fsym {
        lemma_code_lt_transitive(p.fsym, q.fsym, r.fsym);
    }
}

/// Sorts pairs in batching order.
fn sort_pairs(pairs: &Vec<CollateralPair>) -> (r: Vec<CollateralPair>)
    ensures
        r@.len() == pairs@.len(),
        forall|i: int, j: int| 0 <= i < j < r@.len() ==> pair_batch_le(r@[i], r@[j]),
        r@.to_multiset() == pairs@.to_multiset(),
{
    let mut out: Vec<CollateralPair> = Vec::new();
    proof {
        assert(pairs@.subrange(0, 0) =~= out@);
    }
    let mut i: usize = 0;
    while i < pairs.len()
        invariant
            i <= pairs@.len(),
            out@.len() == i,
            forall|x: int, y: int| 0 <= x < y < out@.len() ==> pair_batch_le(out@[x], out@[y]),
            out@.to_multiset() == pairs@.subrange(0, i as int).to_multiset(),
        decreases pairs@.len() - i,
    {
        let x = pairs[i];
        let j = batch_insert_position(&out, &x);
        proof {
            if j < out@.len() {
                lemma_batch_le_total(out@[j as int], x);
            }
            assert forall|k: int| j <= k < out@.len() implies pair_batch_le(x, out@[k]) by {
                if k > j {
                    lemma_batch_le_transitive(x, out@[j as int], out@[k]);
                }
            }
        }
        let ghost out_before = out@;
        out.insert(j, x);
        proof {
            vstd::seq_lib::to_multiset_insert(out_before, j as int, x);
            vstd::seq_lib::to_multiset_build(pairs@.subrange(0, i as int), pairs@[i as int]);
            assert(pairs@.subrange(0, i + 1) =~= pairs@.subrange(0, i as int).push(
                pairs@[i as int],
            ));
        }
        i += 1;
    }
    proof {
        assert(pairs@.subrange(0, pairs@.len() as int) =~= pairs@);
    }
    out
}

/// A grouping of sorted pairs: one entry per distinct `fsym`.
struct Group {
    fsym: Symbol,
    tsyms: Vec<Symbol>,
}

/// Some group carries this `fsym`.
spec fn group_covers(gs: Seq<Group>, f: Symbol) -> bool {
    exists|g: int| 0 <= g < gs.len() && #[trigger] gs[g].fsym == f
}

/// Groups collateral pairs into one query per distinct `fsym`, in the
/// lexical order of the `fsym` codes, each carrying the sorted,
/// deduplicated `tsym` codes joined with commas. The result is a
/// deterministic function of the input pair set.
pub fn gen_queries(collateral_pairs: Vec<CollateralPair>) -> (r: Vec<Query>)
    ensures
        queries_match_pairs(collateral_pairs@, r@),
{
    let sp = sort_pairs(&collateral_pairs);
    proof {
        broadcast use vstd::set::group_set_axioms;
        broadcast use vstd::seq_lib::to_multiset_contains;

        assert forall|p: CollateralPair| sp@.to_set().contains(p) == collateral_pairs@.to_set()
            .contains(p) by {
            assert(sp@.contains(p) == (sp@.to_multiset().count(p) > 0));
            assert(collateral_pairs@.contains(p) == (collateral_pairs@.to_multiset().count(p)
                > 0));
        }
        assert(sp@.to_set() =~= collateral_pairs@.to_set());
    }
    let mut groups: Vec<Group> = Vec::new();
    let mut i: usize = 0;
    proof {
        assert(sp@.subrange(0, 0) =~= Seq::<CollateralPair>::empty());
    }
    while i < sp.len()
        invariant
            i <= sp@.len(),
            forall|x: int, y: int| 0 <= x < y < sp@.len() ==> pair_batch_le(sp@[x], sp@[y]),
            forall|x: int, y: int|
                0 <= x < y < groups@.len() ==> code_lt(groups@[x].fsym, groups@[y].fsym),
            forall|g: int, a: int, b: int|
                0 <= g < groups@.len() && 0 <= a < b < groups@[g].tsyms@.len() ==> code_lt(
                    groups@[g].tsyms@[a],
                    groups@[g].tsyms@[b],
                ),
            forall|g: int|
                0 <= g < groups@.len() ==> groups@[g].tsyms@.len() > 0,
            forall|g: int, t: Symbol|
                0 <= g < groups@.len() ==> (groups@[g].tsyms@.contains(t) <==> sp@.subrange(
                    0,
                    i as int,
                ).to_set().contains(CollateralPair { fsym: groups@[g].fsym, tsym: t })),
            forall|p2: CollateralPair|
                sp@.subrange(0, i as int).to_set().contains(p2) ==> group_covers(
                    groups@,
                    p2.fsym,
                ),
            i == 0 ==> groups@.len() == 0,
            i > 0 ==> groups@.len() > 0,
            i > 0 ==> groups@.last().fsym == sp@[i - 1].fsym,
            i > 0 ==> groups@.last().tsyms@.len() > 0 && groups@.last().tsyms@.last() == sp@[i
                - 1].tsym,
        decreases sp@.len() - i,
    {
        let p = sp[i];
        let ghost prefix = sp@.subrange(0, i as int);
        proof {
            assert(sp@.subrange(0, i + 1) =~= prefix.push(p));
            lemma_push_to_set(prefix, p);
        }
        let is_new_group: bool = if i == 0 {
            true
        } else {
            let glen = groups.len();
            groups[glen - 1].fsym != p.fsym
        };
        if is_new_group {
            proof {
                if i > 0 {
                    assert(pair_batch_le(sp@[i - 1], sp@[i as int]));
                    assert(groups@.last().fsym != p.fsym);
                    assert(code_lt(groups@.last().fsym, p.fsym));
                }
            }
            let mut ts: Vec<Symbol> = Vec::new();
            ts.push(p.tsym);
            let ghost gb = groups@;
            groups.push(Group { fsym: p.fsym, tsyms: ts });
            proof {
                broadcast use vstd::set::group_set_axioms;

                assert forall|x: int, y: int|
                    0 <= x < y < groups@.len() implies code_lt(
                    groups@[x].fsym,
                    groups@[y].fsym,
                ) by {
                    if y == groups@.len() - 1 {
                        assert(groups@[y].fsym == p.fsym);
                        if x < gb.len() - 1 {
                            assert(code_lt(gb[x].fsym, gb[gb.len() - 1].fsym));
                            lemma_code_lt_transitive(gb[x].fsym, gb[gb.len() - 1].fsym, p.fsym);
                        }
                    }
                }
                assert forall|p2: CollateralPair|
                    prefix.push(p).to_set().contains(p2) implies group_covers(
                    groups@,
                    p2.fsym,
                ) by {
                    if p2 == p {
                        assert(groups@[groups@.len() - 1].fsym == p2.fsym);
                    } else {
                        assert(prefix.to_set().contains(p2));
                        let g = choose|g: int|
                            0 <= g < gb.len() && #[trigger] gb[g].fsym == p2.fsym;
                        assert(groups@[g].fsym == p2.fsym);
                    }
                }
                assert forall|g: int, t: Symbol|
                    0 <= g < groups@.len() implies (groups@[g].tsyms@.contains(t)
                    <==> prefix.push(p).to_set().contains(
                    CollateralPair { fsym: groups@[g].fsym, tsym: t },
                )) by {
                    if g < groups@.len() - 1 {
                        let q = CollateralPair { fsym: groups@[g].fsym, tsym: t };
                        assert(groups@[g] == gb[g]);
                        assert(gb[g].tsyms@.contains(t) <==> prefix.to_set().contains(q));
                        assert(code_lt(gb[g].fsym, p.fsym)) by {
                            if g < gb.len() - 1 {
                                assert(code_lt(gb[g].fsym, gb[gb.len() - 1].fsym));
                                lemma_code_lt_transitive(
                                    gb[g].fsym,
                                    gb[gb.len() - 1].fsym,
                                    p.fsym,
                                );
                            }
                        }
                        assert(q != p);
                        assert(prefix.push(p).to_set().contains(q) <==> prefix.to_set()
                            .contains(q));
                    }
                    if g == groups@.len() - 1 {
                        assert(groups@[g].tsyms@ =~= seq![p.tsym]);
                        if groups@[g].tsyms@.contains(t) {
                            assert(t == p.tsym);
                            assert((CollateralPair { fsym: groups@[g].fsym, tsym: t }) == p);
                            assert(prefix.push(p).to_set().contains(p));
                        }
                        if prefix.push(p).to_set().contains(
                            CollateralPair { fsym: groups@[g].fsym, tsym: t },
                        ) {
                            let q = CollateralPair { fsym: groups@[g].fsym, tsym: t };
                            if prefix.to_set().contains(q) {
                                // the prefix holds no pair with the new
                                // fsym: every earlier pair sorts before
                                // sp[i - 1], whose fsym ranks strictly
                                // below the new one
                                let k = choose|k: int|
                                    0 <= k < prefix.len() && prefix[k] == q;
                                assert(sp@[k] == q);
                                assert(i > 0);
                                assert(gb[gb.len() - 1].fsym == sp@[i - 1].fsym);
                                assert(code_lt(sp@[i - 1].fsym, p.fsym));
                                if k < i - 1 {
                                    assert(pair_batch_le(sp@[k], sp@[i - 1]));
                                    assert(sp@[k].fsym == p.fsym);
                                    assert(sp@[k].fsym != sp@[i - 1].fsym);
                                    assert(code_lt(sp@[k].fsym, sp@[i - 1].fsym));
                                    lemma_code_lt_asymmetric(sp@[k].fsym, sp@[i - 1].fsym);
                                } else {
                                    assert(k == i - 1);
                                    assert(sp@[i - 1].fsym == p.fsym);
                                }
                                assert(false);
                            }
                            assert(q == p);
                            assert(t == p.tsym);
                            assert(groups@[g].tsyms@[0] == p.tsym);
                            assert(groups@[g].tsyms@.contains(t));
                        }
                    }
                }
            }
        } else {
            let glen = groups.len();
            proof {
                assert(groups@.last().fsym == p.fsym);
                assert(pair_batch_le(sp@[i - 1], sp@[i as int]));
                assert(lex_le(sym_code(sp@[i - 1].tsym), sym_code(p.tsym)));
            }
            let ghost gb0 = groups@;
            let mut g = match groups.pop() {
                Some(g) => g,
                None => {
                    proof {
                        assert(false);
                    }
                    vstd::pervasive::unreached()
                },
            };
            let tlen = g.tsyms.len();
            let is_dup = g.tsyms[tlen - 1] == p.tsym;
            proof {
                let last_t = g.tsyms@.last();
                if !is_dup {
                    assert(code_lt(last_t, p.tsym));
                }
            }
            if !is_dup {
                g.tsyms.push(p.tsym);
                proof {
                    assert forall|a: int, b: int|
                        0 <= a < b < g.tsyms@.len() implies code_lt(
                        g.tsyms@[a],
                        g.tsyms@[b],
                    ) by {
                        if b == g.tsyms@.len() - 1 && a < b - 1 {
                            lemma_code_lt_transitive(
                                g.tsyms@[a],
                                g.tsyms@[b - 1],
                                g.tsyms@[b],
                            );
                        }
                    }
                }
            }
            groups.push(g);
            proof {
                broadcast use vstd::set::group_set_axioms;

                assert(groups@.len() == gb0.len());
                assert forall|gi: int| 0 <= gi < groups@.len() implies groups@[gi].fsym
                    == gb0[gi].fsym by {}
                assert forall|p2: CollateralPair|
                    prefix.push(p).to_set().contains(p2) implies group_covers(
                    groups@,
                    p2.fsym,
                ) by {
                    if p2 == p {
                        assert(groups@[groups@.len() - 1].fsym == p2.fsym);
                    } else {
                        assert(prefix.to_set().contains(p2));
                        let gi = choose|gi: int|
                            0 <= gi < gb0.len() && #[trigger] gb0[gi].fsym == p2.fsym;
                        assert(groups@[gi].fsym == p2.fsym);
                    }
                }
                let ghost old_ts = gb0[gb0.len() - 1].tsyms@;
                assert(groups@[groups@.len() - 1].tsyms@ == if is_dup {
                    old_ts
                } else {
                    old_ts.push(p.tsym)
                });
                assert forall|gi: int, t: Symbol|
                    0 <= gi < groups@.len() implies (groups@[gi].tsyms@.contains(t)
                    <==> prefix.push(p).to_set().contains(
                    CollateralPair { fsym: groups@[gi].fsym, tsym: t },
                )) by {
                    let q = CollateralPair { fsym: groups@[gi].fsym, tsym: t };
                    if gi < groups@.len() - 1 {
                        // untouched earlier group: its fsym differs from p's
                        assert(groups@[gi] == gb0[gi]);
                        assert(gb0[gi].tsyms@.contains(t) <==> prefix.to_set().contains(q));
                        assert(code_lt(gb0[gi].fsym, gb0[gb0.len() - 1].fsym));
                        assert(q != p);
                        assert(prefix.push(p).to_set().contains(q) <==> prefix.to_set()
                            .contains(q));
                    } else {
                        // the extended last group
                        assert(groups@[gi].fsym == p.fsym);
                        assert(old_ts.contains(t) <==> prefix.to_set().contains(q));
                        if groups@[gi].tsyms@.contains(t) {
                            // t is either an old member or the new tsym
                            if t == p.tsym {
                                assert(q == p);
                                assert(prefix.push(p).to_set().contains(q));
                            } else {
                                assert(old_ts.contains(t)) by {
                                    let k = choose|k: int|
                                        0 <= k < groups@[gi].tsyms@.len() && groups@[gi].tsyms@[k]
                                            == t;
                                    if !is_dup && k == groups@[gi].tsyms@.len() - 1 {
                                        assert(false);
                                    }
                                    assert(old_ts[k] == t);
                                }
                                assert(prefix.to_set().contains(q));
                                assert(prefix.push(p).to_set().contains(q));
                            }
                        }
                        if prefix.push(p).to_set().contains(q) && !groups@[gi].tsyms@.contains(
                            t,
                        ) {
                            if prefix.to_set().contains(q) {
                                // the old members carry over
                                assert(old_ts.contains(t));
                                let k = choose|k: int|
                                    0 <= k < old_ts.len() && old_ts[k] == t;
                                assert(groups@[gi].tsyms@[k] == t);
                                assert(false);
                            } else {
                                assert(q == p);
                                assert(t == p.tsym);
                                assert(groups@[gi].tsyms@[groups@[gi].tsyms@.len() - 1]
                                    == p.tsym);
                                assert(false);
                            }
                        }
                    }
                }
            }
        }
        i += 1;
    }
    proof {
        assert(sp@.subrange(0, sp@.len() as int) =~= sp@);
    }
    let mut queries: Vec<Query> = Vec::new();
    let mut k: usize = 0;
    let ghost gs = groups@;
    while k < groups.len()
        invariant
            k <= groups@.len(),
            groups@ == gs,
            queries@.len() == k,
            forall|x: int|
                0 <= x < k ==> {
                    &&& queries@[x].fsym == groups@[x].fsym
                    &&& queries@[x].tsyms@ == groups@[x].tsyms@
                    &&& queries@[x].fsym_param@ == sym_code(queries@[x].fsym)
                    &&& queries@[x].tsyms_param@ == join_codes(queries@[x].tsyms@)
                },
        decreases groups@.len() - k,
    {
        let g = &groups[k];
        let fsym_param = String::from_str(g.fsym.code());
        let tsyms_param = join_codes_exec(&g.tsyms);
        let mut ts: Vec<Symbol> = Vec::new();
        let mut t: usize = 0;
        while t < g.tsyms.len()
            invariant
                t <= g.tsyms@.len(),
                ts@ == g.tsyms@.subrange(0, t as int),
            decreases g.tsyms@.len() - t,
        {
            ts.push(g.tsyms[t]);
            proof {
                assert(g.tsyms@.subrange(0, t + 1) =~= g.tsyms@.subrange(0, t as int).push(
                    g.tsyms@[t as int],
                ));
            }
            t += 1;
        }
        proof {
            assert(g.tsyms@.subrange(0, g.tsyms@.len() as int) =~= g.tsyms@);
        }
        queries.push(Query { fsym: g.fsym, tsyms: ts, fsym_param, tsyms_param });
        k += 1;
    }
    proof {
        assert forall|p: CollateralPair|
            collateral_pairs@.to_set().contains(p) implies some_query_has_fsym(
            queries@,
            p.fsym,
        ) by {
            assert(sp@.to_set().contains(p));
            assert(group_covers(gs, p.fsym));
            let gi = choose|gi: int| 0 <= gi < gs.len() && #[trigger] gs[gi].fsym == p.fsym;
            assert(queries@[gi].fsym == p.fsym);
            assert(some_query_has_fsym(queries@, p.fsym));
        }
        assert forall|i: int| 0 <= i < queries@.len() implies some_pair_has_fsym(
            collateral_pairs@,
            queries@[i].fsym,
        ) by {
            assert(gs[i].tsyms@.len() > 0);
            let t0 = gs[i].tsyms@[0];
            assert(gs[i].tsyms@.contains(t0));
            assert(sp@.to_set().contains(CollateralPair { fsym: gs[i].fsym, tsym: t0 }));
            assert(collateral_pairs@.to_set().contains(
                CollateralPair { fsym: queries@[i].fsym, tsym: t0 },
            ));
        }
    }
    queries
}

} // verus!
