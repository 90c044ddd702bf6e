//! Collateral pairs: an ordered pair of currency symbols, printable as
//! `"FSYM/TSYM"` and parseable back from that form.

use vstd::prelude::*;
use vstd::string::{StrSliceExecFns, StringExecFns};

verus! {

use crate::errors::ParseError;
use crate::symbol::{lemma_sym_code_injective, sym_code, Symbol};
use crate::text::{lex_le, match_at, splits_in_two};

/// A fetch request: the price of `fsym` denominated in `tsym`.
#[derive(Debug, Clone, Copy, PartialEq, Eq, Hash, Structural)]
pub struct CollateralPair {
    pub fsym: Symbol,
    pub tsym: Symbol,
}

/// The canonical string form `"FSYM/TSYM"` of a pair.
pub open spec fn pair_str(p: CollateralPair) -> Seq<char> {
    sym_code(p.fsym) + seq!['/'] + sym_code(p.tsym)
}

/// No currency code contains the pair delimiter.
pub proof fn lemma_sym_code_no_slash(sym: Symbol)
    ensures
        forall|k: int| 0 <= k < sym_code(sym).len() ==> sym_code(sym)[k] != '/',
{
    assert forall|k: int| 0 <= k < sym_code(sym).len() implies sym_code(sym)[k] != '/' by {
        match sym {
            Symbol::USD => {
                assert(sym_code(sym)[0] != '/');
                assert(sym_code(sym)[1] != '/');
                assert(sym_code(sym)[2] != '/');
            },
            Symbol::ETH => {
                assert(sym_code(sym)[0] != '/');
                assert(sym_code(sym)[1] != '/');
                assert(sym_code(sym)[2] != '/');
            },
            Symbol::JPY => {
                assert(sym_code(sym)[0] != '/');
                assert(sym_code(sym)[1] != '/');
                assert(sym_code(sym)[2] != '/');
            },
            Symbol::NGN => {
                assert(sym_code(sym)[0] != '/');
                assert(sym_code(sym)[1] != '/');
                assert(sym_code(sym)[2] != '/');
            },
            Symbol::USDC => {
                assert(sym_code(sym)[0] != '/');
                assert(sym_code(sym)[1] != '/');
                assert(sym_code(sym)[2] != '/');
                assert(sym_code(sym)[3] != '/');
            },
        }
    }
}

/// Splitting a string around `'/'` into two currency codes is the same as
/// the string being the canonical form of the pair.
pub proof fn lemma_pair_str_split(s: Seq<char>, p: CollateralPair)
    ensures
        splits_in_two(s, seq!['/'], sym_code(p.fsym), sym_code(p.tsym)) <==> s == pair_str(p),
{
    let d = seq!['/'];
    let a = sym_code(p.fsym);
    let b = sym_code(p.tsym);
    if splits_in_two(s, d, a, b) {
        assert(s == a + d + b);
        assert(s == pair_str(p));
    }
    if s == pair_str(p) {
        lemma_sym_code_no_slash(p.fsym);
        lemma_sym_code_no_slash(p.tsym);
        assert(s =~= a + d + b);
        assert forall|i: int| 0 <= i < a.len() implies !match_at(s, d, i) by {
            if match_at(s, d, i) {
                assert(s.subrange(i, i + 1)[0] == s[i]);
                assert(s[i] == '/');
                assert(s[i] == (a + d + b)[i]);
                assert(s[i] == a[i]);
            }
        }
        assert forall|i: int| !match_at(b, d, i) by {
            if match_at(b, d, i) {
                assert(b.subrange(i, i + 1)[0] == b[i]);
                assert(b[i] == '/');
            }
        }
        assert(splits_in_two(s, d, a, b));
    }
}

/// Distinct pairs have distinct canonical strings.
pub proof fn lemma_pair_str_injective(p: CollateralPair, q: CollateralPair)
    requires
        pair_str(p) == pair_str(q),
    ensures
        p == q,
{
    let s = pair_str(p);
    let la = sym_code(p.fsym).len() as int;
    let lb = sym_code(q.fsym).len() as int;
    lemma_sym_code_no_slash(p.fsym);
    lemma_sym_code_no_slash(q.fsym);
    assert(s[la] == '/');
    assert(pair_str(q)[lb] == '/');
    if la < lb {
        assert(s[la] == sym_code(q.fsym)[la]);
        assert(false);
    }
    if lb < la {
        assert(pair_str(q)[lb] == sym_code(p.fsym)[lb]);
        assert(false);
    }
    assert(sym_code(p.fsym) =~= sym_code(q.fsym)) by {
        assert forall|k: int| 0 <= k < la implies sym_code(p.fsym)[k] == sym_code(q.fsym)[k] by {
            assert(s[k] == sym_code(p.fsym)[k]);
            assert(pair_str(q)[k] == sym_code(q.fsym)[k]);
        }
    }
    lemma_sym_code_injective(p.fsym, q.fsym);
    assert(pair_str(p).len() == pair_str(q).len());
    assert(sym_code(p.tsym).len() == sym_code(q.tsym).len());
    assert(sym_code(p.tsym) =~= sym_code(q.tsym)) by {
        assert forall|k: int| 0 <= k < sym_code(p.tsym).len() implies sym_code(p.tsym)[k]
            == sym_code(q.tsym)[k] by {
            assert(s == (sym_code(p.fsym) + seq!['/']) + sym_code(p.tsym));
            assert(pair_str(q) == (sym_code(q.fsym) + seq!['/']) + sym_code(q.tsym));
            assert((sym_code(p.fsym) + seq!['/']).len() == la + 1);
            assert(s[la + 1 + k] == sym_code(p.tsym)[k]);
            assert(pair_str(q)[lb + 1 + k] == sym_code(q.tsym)[k]);
        }
    }
    lemma_sym_code_injective(p.tsym, q.tsym);
}

/// The string with its trailing `'0'` characters removed.
pub open spec fn trim_trailing_zeros(s: Seq<char>) -> Seq<char>
    decreases s.len(),
{
    if s.len() > 0 && s[s.len() - 1] == '0' {
        trim_trailing_zeros(s.drop_last())
    } else {
        s
    }
}

proof fn lemma_trim_prefix(s: Seq<char>, k: int)
    requires
        0 <= k <= s.len(),
        forall|j: int| k <= j < s.len() ==> s[j] == '0',
        k > 0 ==> s[k - 1] != '0',
    ensures
        trim_trailing_zeros(s) == s.subrange(0, k),
    decreases s.len(),
{
    if s.len() == k {
        assert(s.subrange(0, k) =~= s);
    } else {
        assert(s[s.len() - 1] == '0');
        lemma_trim_prefix(s.drop_last(), k);
        assert(s.drop_last().subrange(0, k) =~= s.subrange(0, k));
    }
}

/// Number of characters of `string` left after trimming trailing `'0'`s.
fn trimmed_len(string: &str, s_len: usize) -> (k: usize)
    requires
        s_len == string@.len(),
    ensures
        k <= s_len,
        forall|j: int| k <= j < s_len ==> string@[j] == '0',
        k > 0 ==> string@[k - 1] != '0',
{
    let mut k = s_len;
    while k > 0
        invariant
            k <= s_len,
            s_len == string@.len(),
            forall|j: int| k <= j < s_len ==> string@[j] == '0',
        decreases k,
    {
        if string.get_char(k - 1) != '0' {
            return k;
        }
        k -= 1;
    }
    k
}

/// Position at which `x` keeps `out` sorted when inserted.
fn insert_position(out: &Vec<CollateralPair>, x: &CollateralPair) -> (j: usize)
    ensures
        j <= out@.len(),
        forall|k: int| 0 <= k < j ==> lex_le(pair_str(out@[k]), pair_str(*x)),
        j < out@.len() ==> !lex_le(pair_str(out@[j as int]), pair_str(*x)),
{
    let mut j: usize = 0;
    while j < out.len()
        invariant
            j <= out@.len(),
            forall|k: int| 0 <= k < j ==> lex_le(pair_str(out@[k]), pair_str(*x)),
        decreases out@.len() - j,
    {
        if !out[j].lex_le_to(x) {
            return j;
        }
        j += 1;
    }
    j
}

impl CollateralPair {
    /// The canonical string form `"FSYM/TSYM"`.
    pub fn to_string(&self) -> (r: String)
        ensures
            r@ == pair_str(*self),
    {
        let mut s = String::from_str(self.fsym.code());
        s.append("/");
        s.append(self.tsym.code());
        proof {
            reveal_strlit("/");
            assert("/"@ =~= seq!['/']);
            assert(s@ =~= pair_str(*self));
        }
        s
    }

    /// Parses a pair from its canonical string form. Fails when the string
    /// is not `"FSYM/TSYM"` with two known currency codes.
    pub fn try_from(value: &str) -> (r: Result<CollateralPair, ParseError>)
        ensures
            match r {
                Ok(p) => value@ == pair_str(p),
                Err(_) => forall|p: CollateralPair| value@ != pair_str(p),
            },
    {
        proof {
            reveal_strlit("/");
            assert("/"@ =~= seq!['/']);
        }
        match Symbol::parse_symbols(value, "/") {
            Ok((f, t)) => {
                let p = CollateralPair { fsym: f, tsym: t };
                proof {
                    lemma_pair_str_split(value@, p);
                }
                Ok(p)
            },
            Err(e) => {
                proof {
                    assert forall|p: CollateralPair| value@ != pair_str(p) by {
                        if value@ == pair_str(p) {
                            lemma_pair_str_split(value@, p);
                            let a = sym_code(p.fsym);
                            let b = sym_code(p.tsym);
                            assert(splits_in_two(value@, seq!['/'], a, b));
                            match e {
                                ParseError::InvalidFormat => {
                                    assert(false);
                                },
                                ParseError::UnknownSymbol => {
                                    let (x, y) = choose|x: Seq<char>, y: Seq<char>|
                                        {
                                            &&& splits_in_two(value@, seq!['/'], x, y)
                                            &&& ((forall|f: Symbol| x != sym_code(f)) || (
                                            forall|t: Symbol| y != sym_code(t)))
                                        };
                                    crate::text::lemma_split_unique(
                                        value@,
                                        seq!['/'],
                                        a,
                                        b,
                                        x,
                                        y,
                                    );
                                    assert(false);
                                },
                            }
                        }
                    }
                }
                Err(e)
            },
        }
    }

    /// Recovers a pair from its canonical string right-padded with `'0'`
    /// characters to a fixed width: trailing zeros are trimmed and the rest
    /// is parsed.
    pub fn from_64_len_hex_string(string: &str) -> (r: CollateralPair)
        requires
            exists|p: CollateralPair| trim_trailing_zeros(string@) == pair_str(p),
        ensures
            trim_trailing_zeros(string@) == pair_str(r),
    {
        let s_len = string.unicode_len();
        let k = trimmed_len(string, s_len);
        proof {
            lemma_trim_prefix(string@, k as int);
        }
        let trimmed = string.substring_char(0, k);
        match CollateralPair::try_from(trimmed) {
            Ok(p) => p,
            Err(_) => {
                proof {
                    let p = choose|p: CollateralPair| trim_trailing_zeros(string@) == pair_str(p);
                    assert(trimmed@ == pair_str(p));
                }
                vstd::pervasive::unreached()
            },
        }
    }

    /// Whether `pair_str(*self)` is lexicographically at most
    /// `pair_str(*other)`.
    pub fn lex_le_to(&self, other: &CollateralPair) -> (r: bool)
        ensures
            r == lex_le(pair_str(*self), pair_str(*other)),
    {
        let a = self.to_string();
        let b = other.to_string();
        crate::text::str_lex_le(a.as_str(), b.as_str())
    }

    /// Parses a list of pair strings, sorted lexicographically first, and
    /// fails when any of them is not a canonical pair string.
    pub fn parse_collateral_pairs(pairs: Vec<String>) -> (r: Result<
        Vec<CollateralPair>,
        ParseError,
    >)
        ensures
            match r {
                Ok(v) => {
                    &&& v@.len() == pairs@.len()
                    &&& (forall|i: int, j: int|
                        0 <= i < j < v@.len() ==> lex_le(pair_str(v@[i]), pair_str(v@[j])))
                    &&& exists|u: Seq<CollateralPair>|
                        #![trigger u.to_multiset()]
                        {
                            &&& u.len() == pairs@.len()
                            &&& (forall|k: int| 0 <= k < u.len() ==> pair_str(u[k]) == pairs@[k]@)
                            &&& v@.to_multiset() == u.to_multiset()
                        }
                },
                Err(_) => exists|i: int|
                    #![trigger pairs@[i]]
                    {
                        &&& 0 <= i < pairs@.len()
                        &&& forall|p: CollateralPair| pairs@[i]@ != pair_str(p)
                    },
            },
    {
        broadcast use vstd::seq_lib::to_multiset_insert;
        broadcast use vstd::seq_lib::to_multiset_build;

        let mut parsed: Vec<CollateralPair> = Vec::new();
        let mut i: usize = 0;
        while i < pairs.len()
            invariant
                i <= pairs@.len(),
                parsed@.len() == i,
                forall|k: int| 0 <= k < i ==> pair_str(parsed@[k]) == pairs@[k]@,
            decreases pairs@.len() - i,
        {
            match CollateralPair::try_from(pairs[i].as_str()) {
                Ok(p) => {
                    parsed.push(p);
                },
                Err(e) => {
                    return Err(e);
                },
            }
            i += 1;
        }
        let ghost u = parsed@;
        let mut out: Vec<CollateralPair> = Vec::new();
        proof {
            assert(u.subrange(0, 0) =~= out@);
        }
        let mut i: usize = 0;
        while i < parsed.len()
            invariant
                i <= parsed@.len(),
                out@.len() == i,
                parsed@ == u,
                forall|x: int, y: int|
                    0 <= x < y < out@.len() ==> lex_le(pair_str(out@[x]), pair_str(out@[y])),
                out@.to_multiset() == u.subrange(0, i as int).to_multiset(),
            decreases parsed@.len() - i,
        {
            let x = parsed[i];
            let j = insert_position(&out, &x);
            proof {
                if j < out@.len() {
                    crate::text::lemma_lex_le_total(pair_str(out@[j as int]), pair_str(x));
                }
                assert forall|k: int| j <= k < out@.len() implies lex_le(
                    pair_str(x),
                    pair_str(out@[k]),
                ) by {
                    if k > j {
                        crate::text::lemma_lex_le_transitive(
                            pair_str(x),
                            pair_str(out@[j as int]),
                            pair_str(out@[k]),
                        );
                    }
                }
                assert(u.subrange(0, i + 1) =~= u.subrange(0, i as int).push(u[i as int]));
            }
            let ghost out_before = out@;
            out.insert(j, x);
            proof {
                vstd::seq_lib::to_multiset_insert(out_before, j as int, x);
                assert(u.subrange(0, i as int).push(u[i as int]).to_multiset() == u.subrange(
                    0,
                    i as int,
                ).to_multiset().insert(u[i as int])) by {
                    vstd::seq_lib::to_multiset_build(u.subrange(0, i as int), u[i as int]);
                }
            }
            i += 1;
        }
        proof {
            assert(u.subrange(0, u.len() as int) =~= u);
        }
        Ok(out)
    }
}

} // verus!
