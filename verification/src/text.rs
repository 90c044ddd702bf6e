//! Verified helpers over character sequences: equality, lexicographic
//! order, and locating a delimiter inside a string.

use vstd::prelude::*;
use vstd::string::StrSliceExecFns;

verus! {

/// `d` occurs in `s` starting at index `i`.
pub open spec fn match_at(s: Seq<char>, d: Seq<char>, i: int) -> bool {
    &&& 0 <= i
    &&& i + d.len() <= s.len()
    &&& s.subrange(i, i + d.len() as int) == d
}

/// `d` occurs nowhere in `s`.
pub open spec fn no_match(s: Seq<char>, d: Seq<char>) -> bool {
    forall|i: int| !match_at(s, d, i)
}

/// `s` splits into exactly the two pieces `a` and `b` around a single
/// occurrence of the delimiter `d`: the occurrence after `a` is the first
/// one, and no further occurrence follows it.
pub open spec fn splits_in_two(s: Seq<char>, d: Seq<char>, a: Seq<char>, b: Seq<char>) -> bool {
    &&& d.len() > 0
    &&& s == a + d + b
    &&& (forall|i: int| 0 <= i < a.len() ==> !match_at(s, d, i))
    &&& no_match(b, d)
}

/// Lexicographic order on character sequences, by code point.
pub open spec fn lex_le(a: Seq<char>, b: Seq<char>) -> bool
    decreases a.len(),
{
    if a.len() == 0 {
        true
    } else if b.len() == 0 {
        false
    } else if a[0] != b[0] {
        (a[0] as int) < (b[0] as int)
    } else {
        lex_le(a.drop_first(), b.drop_first())
    }
}

/// A split names the first occurrence of the delimiter.
pub proof fn lemma_split_gives_match(s: Seq<char>, d: Seq<char>, a: Seq<char>, b: Seq<char>)
    requires
        splits_in_two(s, d, a, b),
    ensures
        match_at(s, d, a.len() as int),
{
    assert(s.subrange(a.len() as int, a.len() + d.len() as int) =~= d);
}

/// The two pieces of a split are determined by the first occurrence of the
/// delimiter.
pub proof fn lemma_split_parts_determined(
    s: Seq<char>,
    d: Seq<char>,
    a: Seq<char>,
    b: Seq<char>,
    i: int,
)
    requires
        splits_in_two(s, d, a, b),
        match_at(s, d, i),
        forall|j: int| 0 <= j < i ==> !match_at(s, d, j),
    ensures
        a == s.subrange(0, i),
        b == s.subrange(i + d.len(), s.len() as int),
{
    lemma_split_gives_match(s, d, a, b);
    if a.len() < i {
        assert(!match_at(s, d, a.len() as int));
        assert(false);
    }
    if a.len() > i {
        assert(!match_at(s, d, i));
        assert(false);
    }
    assert(a =~= s.subrange(0, i));
    assert(b =~= s.subrange(i + d.len(), s.len() as int));
}

/// A string splits in two around a delimiter in at most one way.
pub proof fn lemma_split_unique(
    s: Seq<char>,
    d: Seq<char>,
    a1: Seq<char>,
    b1: Seq<char>,
    a2: Seq<char>,
    b2: Seq<char>,
)
    requires
        splits_in_two(s, d, a1, b1),
        splits_in_two(s, d, a2, b2),
    ensures
        a1 == a2,
        b1 == b2,
{
    lemma_split_gives_match(s, d, a1, b1);
    lemma_split_parts_determined(s, d, a1, b1, a1.len() as int);
    lemma_split_parts_determined(s, d, a2, b2, a1.len() as int);
}

/// Equal prefixes do not decide the lexicographic order.
pub proof fn lemma_lex_le_skip(a: Seq<char>, b: Seq<char>, i: int)
    requires
        0 <= i <= a.len(),
        i <= b.len(),
        a.subrange(0, i) == b.subrange(0, i),
    ensures
        lex_le(a, b) == lex_le(a.skip(i), b.skip(i)),
    decreases i,
{
    if i > 0 {
        assert(a.subrange(0, i)[0] == a[0]);
        assert(b.subrange(0, i)[0] == b[0]);
        assert(a[0] == b[0]);
        assert(a.len() > 0 && b.len() > 0);
        assert(a.drop_first().subrange(0, i - 1) =~= a.subrange(0, i).subrange(1, i));
        assert(b.drop_first().subrange(0, i - 1) =~= b.subrange(0, i).subrange(1, i));
        lemma_lex_le_skip(a.drop_first(), b.drop_first(), i - 1);
        assert(a.drop_first().skip(i - 1) =~= a.skip(i));
        assert(b.drop_first().skip(i - 1) =~= b.skip(i));
    } else {
        assert(a.skip(0) =~= a);
        assert(b.skip(0) =~= b);
    }
}

/// Lexicographic order is total.
pub proof fn lemma_lex_le_total(a: Seq<char>, b: Seq<char>)
    ensures
        lex_le(a, b) || lex_le(b, a),
    decreases a.len(),
{
    if a.len() > 0 && b.len() > 0 {
        if a[0] == b[0] {
            lemma_lex_le_total(a.drop_first(), b.drop_first());
        }
    }
}

/// Lexicographic order is antisymmetric.
pub proof fn lemma_lex_le_antisymmetric(a: Seq<char>, b: Seq<char>)
    requires
        lex_le(a, b),
        lex_le(b, a),
    ensures
        a == b,
    decreases a.len(),
{
    if a.len() == 0 {
        assert(b.len() == 0);
        assert(a =~= b);
    } else {
        assert(b.len() > 0);
        assert(a[0] == b[0]);
        lemma_lex_le_antisymmetric(a.drop_first(), b.drop_first());
        assert forall|k: int| 0 <= k < a.len() implies a[k] == b[k] by {
            if k > 0 {
                assert(a[k] == a.drop_first()[k - 1]);
                assert(b[k] == b.drop_first()[k - 1]);
            }
        }
        assert(a =~= b);
    }
}

/// Lexicographic order is transitive.
pub proof fn lemma_lex_le_transitive(a: Seq<char>, b: Seq<char>, c: Seq<char>)
    requires
        lex_le(a, b),
        lex_le(b, c),
    ensures
        lex_le(a, c),
    decreases a.len(),
{
    if a.len() > 0 && b.len() > 0 && c.len() > 0 && a[0] == b[0] && b[0] == c[0] {
        lemma_lex_le_transitive(a.drop_first(), b.drop_first(), c.drop_first());
    }
}

/// Character-wise equality of two strings.
pub fn str_eq(a: &str, b: &str) -> (r: bool)
    ensures
        r == (a@ == b@),
{
    let a_len = a.unicode_len();
    let b_len = b.unicode_len();
    if a_len != b_len {
        return false;
    }
    let mut i: usize = 0;
    while i < a_len
        invariant
            i <= a_len,
            a_len == a@.len(),
            a_len == b@.len(),
            forall|k: int| 0 <= k < i ==> a@[k] == b@[k],
        decreases a_len - i,
    {
        if a.get_char(i) != b.get_char(i) {
            return false;
        }
        i += 1;
    }
    proof {
        assert(a@ =~= b@);
    }
    true
}

/// Lexicographic comparison of two strings, by code point.
pub fn str_lex_le(a: &str, b: &str) -> (r: bool)
    ensures
        r == lex_le(a@, b@),
{
    let a_len = a.unicode_len();
    let b_len = b.unicode_len();
    let mut i: usize = 0;
    loop
        invariant
            i <= a_len,
            i <= b_len,
            a_len == a@.len(),
            b_len == b@.len(),
            a@.subrange(0, i as int) == b@.subrange(0, i as int),
        decreases a_len - i,
    {
        proof {
            lemma_lex_le_skip(a@, b@, i as int);
        }
        if i >= a_len {
            proof {
                assert(a@.skip(i as int).len() == 0);
            }
            return true;
        }
        if i >= b_len {
            proof {
                assert(b@.skip(i as int).len() == 0);
                assert(a@.skip(i as int).len() > 0);
            }
            return false;
        }
        let ca = a.get_char(i);
        let cb = b.get_char(i);
        proof {
            assert(a@.skip(i as int)[0] == ca);
            assert(b@.skip(i as int)[0] == cb);
        }
        if ca != cb {
            return ca < cb;
        }
        proof {
            assert(a@.subrange(0, i + 1) =~= a@.subrange(0, i as int).push(ca));
            assert(b@.subrange(0, i + 1) =~= b@.subrange(0, i as int).push(cb));
        }
        i += 1;
    }
}

/// Whether the delimiter occurs at index `i` of `s`.
fn matches_at(s: &str, s_len: usize, d: &str, d_len: usize, i: usize) -> (r: bool)
    requires
        s_len == s@.len(),
        d_len == d@.len(),
        i + d_len <= s_len,
    ensures
        r == match_at(s@, d@, i as int),
{
    let mut j: usize = 0;
    while j < d_len
        invariant
            j <= d_len,
            s_len == s@.len(),
            d_len == d@.len(),
            i + d_len <= s_len,
            forall|k: int| 0 <= k < j ==> s@[i + k] == d@[k],
        decreases d_len - j,
    {
        if s.get_char(i + j) != d.get_char(j) {
            proof {
                assert(s@.subrange(i as int, i + d_len as int)[j as int] == s@[i + j]);
            }
            return false;
        }
        j += 1;
    }
    proof {
        assert(s@.subrange(i as int, i + d_len as int) =~= d@);
    }
    true
}

/// Index of the first occurrence of `d` in `s`, if any.
pub fn find_first(s: &str, d: &str) -> (r: Option<usize>)
    requires
        d@.len() >= 1,
    ensures
        match r {
            Some(i) => {
                &&& match_at(s@, d@, i as int)
                &&& forall|j: int| 0 <= j < i ==> !match_at(s@, d@, j)
            },
            None => no_match(s@, d@),
        },
{
    let s_len = s.unicode_len();
    let d_len = d.unicode_len();
    if d_len > s_len {
        return None;
    }
    let mut i: usize = 0;
    while i <= s_len - d_len
        invariant
            d_len >= 1,
            d_len <= s_len,
            i <= s_len - d_len + 1,
            s_len == s@.len(),
            d_len == d@.len(),
            forall|j: int| 0 <= j < i ==> !match_at(s@, d@, j),
        decreases s_len - i,
    {
        if matches_at(s, s_len, d, d_len, i) {
            return Some(i);
        }
        i += 1;
    }
    None
}

} // verus!
