//! Canonical codec: the byte encoding of a sequence of price records that
//! is signed and sent to the relay, and its exact inverse.
//!
//! One price encodes as a tuple of three 32-byte words — the fixed-point
//! rate, the timestamp, and the offset of the pair string — followed by the
//! string's length word and the string bytes right-padded with zeros. A
//! sequence of prices encodes as one word pointing at the array, the array
//! length, one offset word per element, and the element tuples in order.

use vstd::prelude::*;

verus! {

use crate::pair::CollateralPair;
use crate::price::Price;
use crate::symbol::Symbol;

/// Largest number of prices one payload may carry. The transport is
/// unbounded; this is the one machine limit the codec imposes: an
/// encoding takes `64 + 192 * n` bytes, and this bound keeps that length
/// below `2^32`, addressable even where `usize` is 32 bits.
pub const MAX_PRICES: usize = 0x140_0000;

/// Failure to decode a payload.
#[derive(Debug, Clone, Copy, PartialEq, Eq, Structural)]
pub enum CodecError {
    /// The byte length fits no array of tuples.
    BadLength,
    /// The leading words are not the canonical array header.
    BadHeader,
    /// An element offset word does not point at its tuple.
    BadOffset,
    /// A numeric field does not fit an unsigned 64-bit integer.
    Overflow,
    /// The pair string is not a canonical `"FSYM/TSYM"` form.
    BadPairString,
}

/// Byte `k` (big-endian, `0 <= k < 8`) of a 64-bit value.
pub open spec fn u64_byte(v: u64, k: int) -> u8 {
    (v >> (((7 - k) * 8) as u64)) as u8
}

/// A 32-byte word holding `v`: 24 zero bytes, then `v` big-endian.
pub open spec fn be_word(v: u64) -> Seq<u8> {
    Seq::new(32, |i: int| if i < 24 { 0u8 } else { u64_byte(v, i - 24) })
}

/// Recombining the eight big-endian bytes of a value gives the value back.
proof fn lemma_u64_recompose(v: u64)
    ensures
        ((u64_byte(v, 0) as u64) << 56u64) | ((u64_byte(v, 1) as u64) << 48u64) | ((u64_byte(
            v,
            2,
        ) as u64) << 40u64) | ((u64_byte(v, 3) as u64) << 32u64) | ((u64_byte(v, 4) as u64)
            << 24u64) | ((u64_byte(v, 5) as u64) << 16u64) | ((u64_byte(v, 6) as u64) << 8u64) | (
        u64_byte(v, 7) as u64) == v,
{
    assert((((v >> 56u64) as u8 as u64) << 56u64) | (((v >> 48u64) as u8 as u64) << 48u64) | (((v
        >> 40u64) as u8 as u64) << 40u64) | (((v >> 32u64) as u8 as u64) << 32u64) | (((v
        >> 24u64) as u8 as u64) << 24u64) | (((v >> 16u64) as u8 as u64) << 16u64) | (((v
        >> 8u64) as u8 as u64) << 8u64) | ((v as u8) as u64) == v) by (bit_vector);
    assert(u64_byte(v, 0) == (v >> 56u64) as u8);
    assert(u64_byte(v, 1) == (v >> 48u64) as u8);
    assert(u64_byte(v, 2) == (v >> 40u64) as u8);
    assert(u64_byte(v, 3) == (v >> 32u64) as u8);
    assert(u64_byte(v, 4) == (v >> 24u64) as u8);
    assert(u64_byte(v, 5) == (v >> 16u64) as u8);
    assert(u64_byte(v, 6) == (v >> 8u64) as u8);
    assert(u64_byte(v, 7) == (v >> 0u64) as u8);
    assert((v >> 0u64) as u8 == v as u8) by (bit_vector);
}

/// The big-endian bytes of a value recombined from eight bytes are those
/// bytes.
proof fn lemma_u64_decompose(
    x0: u8,
    x1: u8,
    x2: u8,
    x3: u8,
    x4: u8,
    x5: u8,
    x6: u8,
    x7: u8,
)
    ensures
        ({
            let v = ((x0 as u64) << 56u64) | ((x1 as u64) << 48u64) | ((x2 as u64) << 40u64) | ((
            x3 as u64) << 32u64) | ((x4 as u64) << 24u64) | ((x5 as u64) << 16u64) | ((x6 as u64)
                << 8u64) | (x7 as u64);
            &&& u64_byte(v, 0) == x0
            &&& u64_byte(v, 1) == x1
            &&& u64_byte(v, 2) == x2
            &&& u64_byte(v, 3) == x3
            &&& u64_byte(v, 4) == x4
            &&& u64_byte(v, 5) == x5
            &&& u64_byte(v, 6) == x6
            &&& u64_byte(v, 7) == x7
        }),
{
    let v = ((x0 as u64) << 56u64) | ((x1 as u64) << 48u64) | ((x2 as u64) << 40u64) | ((
    x3 as u64) << 32u64) | ((x4 as u64) << 24u64) | ((x5 as u64) << 16u64) | ((x6 as u64)
        << 8u64) | (x7 as u64);
    assert({
        let w = ((x0 as u64) << 56u64) | ((x1 as u64) << 48u64) | ((x2 as u64) << 40u64) | ((
        x3 as u64) << 32u64) | ((x4 as u64) << 24u64) | ((x5 as u64) << 16u64) | ((x6 as u64)
            << 8u64) | (x7 as u64);
        &&& (w >> 56u64) as u8 == x0
        &&& (w >> 48u64) as u8 == x1
        &&& (w >> 40u64) as u8 == x2
        &&& (w >> 32u64) as u8 == x3
        &&& (w >> 24u64) as u8 == x4
        &&& (w >> 16u64) as u8 == x5
        &&& (w >> 8u64) as u8 == x6
        &&& (w >> 0u64) as u8 == x7
    }) by (bit_vector);
    assert((v >> 0u64) as u8 == v as u8) by (bit_vector);
}

/// No two values share a word.
pub proof fn lemma_be_word_injective(v1: u64, v2: u64)
    requires
        be_word(v1) == be_word(v2),
    ensures
        v1 == v2,
{
    assert forall|k: int| 0 <= k < 8 implies u64_byte(v1, k) == u64_byte(v2, k) by {
        assert(be_word(v1)[24 + k] == u64_byte(v1, k));
        assert(be_word(v2)[24 + k] == u64_byte(v2, k));
    }
    lemma_u64_recompose(v1);
    lemma_u64_recompose(v2);
}

/// Appends the 32-byte word of `v`.
fn push_be_word(out: &mut Vec<u8>, v: u64)
    ensures
        final(out)@ == old(out)@ + be_word(v),
{
    let ghost base = out@;
    let mut k: usize = 0;
    while k < 24
        invariant
            k <= 24,
            out@.len() == base.len() + k,
            out@ == base + be_word(v).subrange(0, k as int),
        decreases 24 - k,
    {
        out.push(0u8);
        proof {
            assert(be_word(v)[k as int] == 0u8);
            assert(be_word(v).subrange(0, k + 1) =~= be_word(v).subrange(0, k as int).push(
                be_word(v)[k as int],
            ));
            assert(out@ =~= base + be_word(v).subrange(0, k + 1));
        }
        k += 1;
    }
    let mut k: usize = 24;
    while k < 32
        invariant
            24 <= k <= 32,
            out@.len() == base.len() + k,
            out@ == base + be_word(v).subrange(0, k as int),
        decreases 32 - k,
    {
        let sh: u64 = ((31 - k) * 8) as u64;
        let b: u8 = (v >> sh) as u8;
        out.push(b);
        proof {
            assert(sh == ((7 - (k - 24)) * 8) as u64);
            assert(b == u64_byte(v, k - 24));
            assert(be_word(v)[k as int] == u64_byte(v, k - 24));
            assert(be_word(v).subrange(0, k + 1) =~= be_word(v).subrange(0, k as int).push(
                be_word(v)[k as int],
            ));
            assert(out@ =~= base + be_word(v).subrange(0, k + 1));
        }
        k += 1;
    }
    proof {
        assert(be_word(v).subrange(0, 32) =~= be_word(v));
    }
}

/// Reads the 32-byte word at `off` as an unsigned 64-bit value; fails
/// exactly when the word holds a value over the 64-bit range.
fn read_be_u64(data: &Vec<u8>, off: usize) -> (r: Option<u64>)
    requires
        off + 32 <= data@.len(),
    ensures
        match r {
            Some(v) => data@.subrange(off as int, off + 32) == be_word(v),
            None => forall|v: u64| data@.subrange(off as int, off + 32) != be_word(v),
        },
{
    let ghost w = data@.subrange(off as int, off + 32);
    let data_len = data.len();
    let mut k: usize = 0;
    while k < 24
        invariant
            k <= 24,
            off + 32 <= data@.len(),
            data@.len() == data_len,
            w == data@.subrange(off as int, off + 32),
            forall|j: int| 0 <= j < k ==> w[j] == 0u8,
        decreases 24 - k,
    {
        if data[off + k] != 0 {
            proof {
                assert(w[k as int] == data@[off + k]);
                assert forall|v: u64| w != be_word(v) by {
                    assert(be_word(v)[k as int] == 0u8);
                }
            }
            return None;
        }
        k += 1;
    }
    let x0 = data[off + 24];
    let x1 = data[off + 25];
    let x2 = data[off + 26];
    let x3 = data[off + 27];
    let x4 = data[off + 28];
    let x5 = data[off + 29];
    let x6 = data[off + 30];
    let x7 = data[off + 31];
    let v: u64 = ((x0 as u64) << 56u64) | ((x1 as u64) << 48u64) | ((x2 as u64) << 40u64) | ((
    x3 as u64) << 32u64) | ((x4 as u64) << 24u64) | ((x5 as u64) << 16u64) | ((x6 as u64)
        << 8u64) | (x7 as u64);
    proof {
        lemma_u64_decompose(x0, x1, x2, x3, x4, x5, x6, x7);
        assert forall|j: int| 0 <= j < 32 implies w[j] == be_word(v)[j] by {
            assert(w[j] == data@[off + j]);
            if j >= 24 {
                assert(u64_byte(v, j - 24) == data@[off + j]);
            }
        }
        assert(w =~= be_word(v));
    }
    Some(v)
}

/// The ASCII bytes of a currency code.
pub open spec fn sym_code_bytes(s: Symbol) -> Seq<u8> {
    match s {
        Symbol::USD => seq![85u8, 83u8, 68u8],
        Symbol::ETH => seq![69u8, 84u8, 72u8],
        Symbol::JPY => seq![74u8, 80u8, 89u8],
        Symbol::NGN => seq![78u8, 71u8, 78u8],
        Symbol::USDC => seq![85u8, 83u8, 68u8, 67u8],
    }
}

/// The collateral pair of a price record.
pub open spec fn price_pair(p: Price) -> CollateralPair {
    CollateralPair { fsym: p.fsym, tsym: p.tsym }
}

/// The ASCII bytes of the canonical pair string `"FSYM/TSYM"`; 47 is `'/'`.
pub open spec fn pair_bytes(p: CollateralPair) -> Seq<u8> {
    sym_code_bytes(p.fsym) + seq![47u8] + sym_code_bytes(p.tsym)
}

/// The byte form of a code is its character form, code point by code
/// point.
pub proof fn lemma_sym_code_bytes_match_chars(s: Symbol)
    ensures
        sym_code_bytes(s).len() == crate::symbol::sym_code(s).len(),
        forall|k: int|
            0 <= k < sym_code_bytes(s).len() ==> sym_code_bytes(s)[k] as int
                == crate::symbol::sym_code(s)[k] as int,
{
    assert forall|k: int|
        0 <= k < sym_code_bytes(s).len() implies sym_code_bytes(s)[k] as int
        == crate::symbol::sym_code(s)[k] as int by {
        match s {
            Symbol::USD => {
                assert(sym_code_bytes(s)[0] as int == crate::symbol::sym_code(s)[0] as int);
                assert(sym_code_bytes(s)[1] as int == crate::symbol::sym_code(s)[1] as int);
                assert(sym_code_bytes(s)[2] as int == crate::symbol::sym_code(s)[2] as int);
            },
            Symbol::ETH => {
                assert(sym_code_bytes(s)[0] as int == crate::symbol::sym_code(s)[0] as int);
                assert(sym_code_bytes(s)[1] as int == crate::symbol::sym_code(s)[1] as int);
                assert(sym_code_bytes(s)[2] as int == crate::symbol::sym_code(s)[2] as int);
            },
            Symbol::JPY => {
                assert(sym_code_bytes(s)[0] as int == crate::symbol::sym_code(s)[0] as int);
                assert(sym_code_bytes(s)[1] as int == crate::symbol::sym_code(s)[1] as int);
                assert(sym_code_bytes(s)[2] as int == crate::symbol::sym_code(s)[2] as int);
            },
            Symbol::NGN => {
                assert(sym_code_bytes(s)[0] as int == crate::symbol::sym_code(s)[0] as int);
                assert(sym_code_bytes(s)[1] as int == crate::symbol::sym_code(s)[1] as int);
                assert(sym_code_bytes(s)[2] as int == crate::symbol::sym_code(s)[2] as int);
            },
            Symbol::USDC => {
                assert(sym_code_bytes(s)[0] as int == crate::symbol::sym_code(s)[0] as int);
                assert(sym_code_bytes(s)[1] as int == crate::symbol::sym_code(s)[1] as int);
                assert(sym_code_bytes(s)[2] as int == crate::symbol::sym_code(s)[2] as int);
                assert(sym_code_bytes(s)[3] as int == crate::symbol::sym_code(s)[3] as int);
            },
        }
    }
}

/// The encoded string field is the pair's canonical string form, code
/// point for code point.
pub proof fn lemma_pair_bytes_match_chars(p: CollateralPair)
    ensures
        pair_bytes(p).len() == crate::pair::pair_str(p).len(),
        forall|k: int|
            0 <= k < pair_bytes(p).len() ==> pair_bytes(p)[k] as int == crate::pair::pair_str(
                p,
            )[k] as int,
{
    lemma_sym_code_bytes_match_chars(p.fsym);
    lemma_sym_code_bytes_match_chars(p.tsym);
    let bs = pair_bytes(p);
    let cs = crate::pair::pair_str(p);
    let lf = sym_code_bytes(p.fsym).len() as int;
    assert forall|k: int| 0 <= k < bs.len() implies bs[k] as int == cs[k] as int by {
        assert(bs == (sym_code_bytes(p.fsym) + seq![47u8]) + sym_code_bytes(p.tsym));
        assert(cs == (crate::symbol::sym_code(p.fsym) + seq!['/']) + crate::symbol::sym_code(
            p.tsym,
        ));
        if k < lf {
            assert(bs[k] == sym_code_bytes(p.fsym)[k]);
            assert(cs[k] == crate::symbol::sym_code(p.fsym)[k]);
        } else if k == lf {
            assert(bs[k] == 47u8);
            assert(cs[k] == '/');
        } else {
            assert(bs[k] == sym_code_bytes(p.tsym)[k - lf - 1]);
            assert(cs[k] == crate::symbol::sym_code(p.tsym)[k - lf - 1]);
        }
    }
}

/// Distinct symbols have distinct code bytes.
pub proof fn lemma_sym_code_bytes_injective(a: Symbol, b: Symbol)
    ensures
        sym_code_bytes(a) == sym_code_bytes(b) ==> a == b,
{
    if a != b && sym_code_bytes(a) == sym_code_bytes(b) {
        assert(sym_code_bytes(a).len() == sym_code_bytes(b).len());
        assert(sym_code_bytes(a)[0] == sym_code_bytes(b)[0]);
        assert(sym_code_bytes(a)[1] == sym_code_bytes(b)[1]);
        assert(sym_code_bytes(a)[2] == sym_code_bytes(b)[2]);
        assert(false);
    }
}

/// No code byte is the slash byte.
proof fn lemma_sym_code_bytes_no_slash(s: Symbol)
    ensures
        forall|k: int| 0 <= k < sym_code_bytes(s).len() ==> sym_code_bytes(s)[k] != 47u8,
{
    assert forall|k: int|
        0 <= k < sym_code_bytes(s).len() implies sym_code_bytes(s)[k] != 47u8 by {
        match s {
            Symbol::USD => {
                assert(sym_code_bytes(s)[0] != 47u8);
                assert(sym_code_bytes(s)[1] != 47u8);
                assert(sym_code_bytes(s)[2] != 47u8);
            },
            Symbol::ETH => {
                assert(sym_code_bytes(s)[0] != 47u8);
                assert(sym_code_bytes(s)[1] != 47u8);
                assert(sym_code_bytes(s)[2] != 47u8);
            },
            Symbol::JPY => {
                assert(sym_code_bytes(s)[0] != 47u8);
                assert(sym_code_bytes(s)[1] != 47u8);
                assert(sym_code_bytes(s)[2] != 47u8);
            },
            Symbol::NGN => {
                assert(sym_code_bytes(s)[0] != 47u8);
                assert(sym_code_bytes(s)[1] != 47u8);
                assert(sym_code_bytes(s)[2] != 47u8);
            },
            Symbol::USDC => {
                assert(sym_code_bytes(s)[0] != 47u8);
                assert(sym_code_bytes(s)[1] != 47u8);
                assert(sym_code_bytes(s)[2] != 47u8);
                assert(sym_code_bytes(s)[3] != 47u8);
            },
        }
    }
}

/// Distinct pairs have distinct byte strings.
pub proof fn lemma_pair_bytes_injective(p: CollateralPair, q: CollateralPair)
    requires
        pair_bytes(p) == pair_bytes(q),
    ensures
        p == q,
{
    let s = pair_bytes(p);
    let la = sym_code_bytes(p.fsym).len() as int;
    let lb = sym_code_bytes(q.fsym).len() as int;
    lemma_sym_code_bytes_no_slash(p.fsym);
    lemma_sym_code_bytes_no_slash(q.fsym);
    assert(s[la] == 47u8);
    assert(pair_bytes(q)[lb] == 47u8);
    if la < lb {
        assert(s[la] == sym_code_bytes(q.fsym)[la]);
        assert(false);
    }
    if lb < la {
        assert(pair_bytes(q)[lb] == sym_code_bytes(p.fsym)[lb]);
        assert(false);
    }
    assert(sym_code_bytes(p.fsym) =~= sym_code_bytes(q.fsym)) by {
        assert forall|k: int|
            0 <= k < la implies sym_code_bytes(p.fsym)[k] == sym_code_bytes(q.fsym)[k] by {
            assert(s[k] == sym_code_bytes(p.fsym)[k]);
            assert(pair_bytes(q)[k] == sym_code_bytes(q.fsym)[k]);
        }
    }
    lemma_sym_code_bytes_injective(p.fsym, q.fsym);
    assert(pair_bytes(p).len() == pair_bytes(q).len());
    assert(sym_code_bytes(p.tsym).len() == sym_code_bytes(q.tsym).len());
    assert(sym_code_bytes(p.tsym) =~= sym_code_bytes(q.tsym)) by {
        assert forall|k: int|
            0 <= k < sym_code_bytes(p.tsym).len() implies sym_code_bytes(p.tsym)[k]
            == sym_code_bytes(q.tsym)[k] by {
            assert(s == (sym_code_bytes(p.fsym) + seq![47u8]) + sym_code_bytes(p.tsym));
            assert(pair_bytes(q) == (sym_code_bytes(q.fsym) + seq![47u8]) + sym_code_bytes(
                q.tsym,
            ));
            assert((sym_code_bytes(p.fsym) + seq![47u8]).len() == la + 1);
            assert(s[la + 1 + k] == sym_code_bytes(p.tsym)[k]);
            assert(pair_bytes(q)[lb + 1 + k] == sym_code_bytes(q.tsym)[k]);
        }
    }
    lemma_sym_code_bytes_injective(p.tsym, q.tsym);
}

/// The pair string is between seven and nine bytes.
pub proof fn lemma_pair_bytes_len(p: CollateralPair)
    ensures
        7 <= pair_bytes(p).len() <= 9,
{
}

/// Appends the code bytes of a symbol.
fn push_sym_bytes(out: &mut Vec<u8>, s: Symbol)
    ensures
        final(out)@ == old(out)@ + sym_code_bytes(s),
{
    match s {
        Symbol::USD => {
            out.push(85);
            out.push(83);
            out.push(68);
            proof {
                assert(out@ =~= old(out)@ + sym_code_bytes(s));
            }
        },
        Symbol::ETH => {
            out.push(69);
            out.push(84);
            out.push(72);
            proof {
                assert(out@ =~= old(out)@ + sym_code_bytes(s));
            }
        },
        Symbol::JPY => {
            out.push(74);
            out.push(80);
            out.push(89);
            proof {
                assert(out@ =~= old(out)@ + sym_code_bytes(s));
            }
        },
        Symbol::NGN => {
            out.push(78);
            out.push(71);
            out.push(78);
            proof {
                assert(out@ =~= old(out)@ + sym_code_bytes(s));
            }
        },
        Symbol::USDC => {
            out.push(85);
            out.push(83);
            out.push(68);
            out.push(67);
            proof {
                assert(out@ =~= old(out)@ + sym_code_bytes(s));
            }
        },
    }
}

/// The byte length of a symbol's code.
fn sym_bytes_len(s: &Symbol) -> (r: usize)
    ensures
        r == sym_code_bytes(*s).len(),
{
    match s {
        Symbol::USDC => 4,
        _ => 3,
    }
}

/// Matches the bytes at `start` against the code of some symbol.
fn match_sym_bytes(data: &Vec<u8>, start: usize, len: usize) -> (r: Option<Symbol>)
    requires
        start + len <= data@.len(),
    ensures
        match r {
            Some(sym) => data@.subrange(start as int, start + len) == sym_code_bytes(sym),
            None => forall|sym: Symbol|
                data@.subrange(start as int, start + len) != sym_code_bytes(sym),
        },
{
    let ghost w = data@.subrange(start as int, start + len);
    let data_len = data.len();
    if len == 3 {
        let b0 = data[start];
        let b1 = data[start + 1];
        let b2 = data[start + 2];
        proof {
            assert(w[0] == b0 && w[1] == b1 && w[2] == b2);
        }
        if b0 == 85 && b1 == 83 && b2 == 68 {
            proof {
                assert(w =~= sym_code_bytes(Symbol::USD));
            }
            Some(Symbol::USD)
        } else if b0 == 69 && b1 == 84 && b2 == 72 {
            proof {
                assert(w =~= sym_code_bytes(Symbol::ETH));
            }
            Some(Symbol::ETH)
        } else if b0 == 74 && b1 == 80 && b2 == 89 {
            proof {
                assert(w =~= sym_code_bytes(Symbol::JPY));
            }
            Some(Symbol::JPY)
        } else if b0 == 78 && b1 == 71 && b2 == 78 {
            proof {
                assert(w =~= sym_code_bytes(Symbol::NGN));
            }
            Some(Symbol::NGN)
        } else {
            proof {
                assert forall|sym: Symbol| w != sym_code_bytes(sym) by {
                    if w == sym_code_bytes(sym) {
                        match sym {
                            Symbol::USD => {
                                assert(b0 == 85 && b1 == 83 && b2 == 68);
                            },
                            Symbol::ETH => {
                                assert(b0 == 69 && b1 == 84 && b2 == 72);
                            },
                            Symbol::JPY => {
                                assert(b0 == 74 && b1 == 80 && b2 == 89);
                            },
                            Symbol::NGN => {
                                assert(b0 == 78 && b1 == 71 && b2 == 78);
                            },
                            Symbol::USDC => {
                                assert(w.len() == 4);
                            },
                        }
                        assert(false);
                    }
                }
            }
            None
        }
    } else if len == 4 {
        let b0 = data[start];
        let b1 = data[start + 1];
        let b2 = data[start + 2];
        let b3 = data[start + 3];
        proof {
            assert(w[0] == b0 && w[1] == b1 && w[2] == b2 && w[3] == b3);
        }
        if b0 == 85 && b1 == 83 && b2 == 68 && b3 == 67 {
            proof {
                assert(w =~= sym_code_bytes(Symbol::USDC));
            }
            Some(Symbol::USDC)
        } else {
            proof {
                assert forall|sym: Symbol| w != sym_code_bytes(sym) by {
                    if w == sym_code_bytes(sym) {
                        match sym {
                            Symbol::USDC => {
                                assert(b0 == 85 && b1 == 83 && b2 == 68 && b3 == 67);
                            },
                            _ => {
                                assert(sym_code_bytes(sym).len() == 3);
                            },
                        }
                        assert(false);
                    }
                }
            }
            None
        }
    } else {
        proof {
            assert forall|sym: Symbol| w != sym_code_bytes(sym) by {
                if w == sym_code_bytes(sym) {
                    assert(sym_code_bytes(sym).len() == 3 || sym_code_bytes(sym).len() == 4);
                }
            }
        }
        None
    }
}

/// Parses the bytes at `start` as a canonical `"FSYM/TSYM"` string.
fn parse_pair_bytes(data: &Vec<u8>, start: usize, len: usize) -> (r: Option<CollateralPair>)
    requires
        start + len <= data@.len(),
    ensures
        match r {
            Some(p) => data@.subrange(start as int, start + len) == pair_bytes(p),
            None => forall|p: CollateralPair|
                data@.subrange(start as int, start + len) != pair_bytes(p),
        },
{
    let ghost w = data@.subrange(start as int, start + len);
    let data_len = data.len();
    if len >= 4 && data[start + 3] == 47 {
        proof {
            assert(w[3] == 47u8);
        }
        let f = match_sym_bytes(data, start, 3);
        let t = match_sym_bytes(data, start + 4, len - 4);
        match (f, t) {
            (Some(fs), Some(ts)) => {
                let p = CollateralPair { fsym: fs, tsym: ts };
                proof {
                    assert(sym_code_bytes(fs).len() == 3) by {
                        assert(data@.subrange(start as int, start + 3).len() == 3);
                    }
                    assert(w =~= pair_bytes(p)) by {
                        assert forall|k: int| 0 <= k < w.len() implies w[k] == pair_bytes(p)[k]
                        by {
                            if k < 3 {
                                assert(w[k] == data@.subrange(start as int, start + 3)[k]);
                            } else if k >= 4 {
                                assert(w[k] == data@.subrange(start + 4, start + len)[k - 4]);
                                assert(pair_bytes(p) == (sym_code_bytes(fs) + seq![47u8])
                                    + sym_code_bytes(ts));
                                assert(pair_bytes(p)[k] == sym_code_bytes(ts)[k - 4]);
                            }
                        }
                        assert(w.len() == pair_bytes(p).len()) by {
                            assert(data@.subrange(start + 4, start + len).len() == len - 4);
                        }
                    }
                }
                Some(p)
            },
            _ => {
                proof {
                    assert forall|p: CollateralPair| w != pair_bytes(p) by {
                        if w == pair_bytes(p) {
                            let lf = sym_code_bytes(p.fsym).len() as int;
                            lemma_sym_code_bytes_no_slash(p.fsym);
                            if lf == 4 {
                                assert(w[3] == sym_code_bytes(p.fsym)[3]);
                                assert(false);
                            }
                            assert(lf == 3);
                            assert(data@.subrange(start as int, start + 3) =~= sym_code_bytes(
                                p.fsym,
                            ));
                            assert(data@.subrange(start + 4, start + len) =~= sym_code_bytes(
                                p.tsym,
                            )) by {
                                assert(w.len() == 4 + sym_code_bytes(p.tsym).len());
                                assert forall|k: int|
                                    0 <= k < len - 4 implies data@.subrange(
                                    start + 4,
                                    start + len,
                                )[k] == sym_code_bytes(p.tsym)[k] by {
                                    assert(pair_bytes(p) == (sym_code_bytes(p.fsym)
                                        + seq![47u8]) + sym_code_bytes(p.tsym));
                                    assert(w[k + 4] == pair_bytes(p)[k + 4]);
                                }
                            }
                            assert(false);
                        }
                    }
                }
                None
            },
        }
    } else if len >= 5 && data[start + 4] == 47 {
        proof {
            assert(w[4] == 47u8);
        }
        let f = match_sym_bytes(data, start, 4);
        let t = match_sym_bytes(data, start + 5, len - 5);
        match (f, t) {
            (Some(fs), Some(ts)) => {
                let p = CollateralPair { fsym: fs, tsym: ts };
                proof {
                    assert(sym_code_bytes(fs).len() == 4) by {
                        assert(data@.subrange(start as int, start + 4).len() == 4);
                    }
                    assert(w =~= pair_bytes(p)) by {
                        assert forall|k: int| 0 <= k < w.len() implies w[k] == pair_bytes(p)[k]
                        by {
                            if k < 4 {
                                assert(w[k] == data@.subrange(start as int, start + 4)[k]);
                            } else if k >= 5 {
                                assert(w[k] == data@.subrange(start + 5, start + len)[k - 5]);
                                assert(pair_bytes(p) == (sym_code_bytes(fs) + seq![47u8])
                                    + sym_code_bytes(ts));
                                assert(pair_bytes(p)[k] == sym_code_bytes(ts)[k - 5]);
                            }
                        }
                        assert(w.len() == pair_bytes(p).len()) by {
                            assert(data@.subrange(start + 5, start + len).len() == len - 5);
                        }
                    }
                }
                Some(p)
            },
            _ => {
                proof {
                    assert forall|p: CollateralPair| w != pair_bytes(p) by {
                        if w == pair_bytes(p) {
                            let lf = sym_code_bytes(p.fsym).len() as int;
                            lemma_sym_code_bytes_no_slash(p.fsym);
                            lemma_sym_code_bytes_no_slash(p.tsym);
                            if lf == 3 {
                                assert(w[3] == 47u8);
                                assert(false);
                            }
                            assert(lf == 4);
                            assert(data@.subrange(start as int, start + 4) =~= sym_code_bytes(
                                p.fsym,
                            ));
                            assert(data@.subrange(start + 5, start + len) =~= sym_code_bytes(
                                p.tsym,
                            )) by {
                                assert(w.len() == 5 + sym_code_bytes(p.tsym).len());
                                assert forall|k: int|
                                    0 <= k < len - 5 implies data@.subrange(
                                    start + 5,
                                    start + len,
                                )[k] == sym_code_bytes(p.tsym)[k] by {
                                    assert(pair_bytes(p) == (sym_code_bytes(p.fsym)
                                        + seq![47u8]) + sym_code_bytes(p.tsym));
                                    assert(w[k + 5] == pair_bytes(p)[k + 5]);
                                }
                            }
                            assert(false);
                        }
                    }
                }
                None
            },
        }
    } else {
        proof {
            assert forall|p: CollateralPair| w != pair_bytes(p) by {
                if w == pair_bytes(p) {
                    let lf = sym_code_bytes(p.fsym).len() as int;
                    assert(w[lf] == 47u8);
                    assert(w.len() >= 7);
                    if lf == 3 {
                        assert(false);
                    }
                    if lf == 4 {
                        lemma_sym_code_bytes_no_slash(p.fsym);
                        if len >= 4 {
                            assert(w[3] == sym_code_bytes(p.fsym)[3]);
                        }
                        assert(false);
                    }
                }
            }
        }
        None
    }
}

/// `n` zero bytes.
pub open spec fn zero_bytes(n: int) -> Seq<u8> {
    Seq::new(if n >= 0 {
        n as nat
    } else {
        0
    }, |i: int| 0u8)
}

/// The 160-byte tuple encoding one price: rate word, timestamp word, the
/// in-tuple offset of the string (always 96), the string length word, and
/// the pair string right-padded with zeros to one word.
pub open spec fn tuple_bytes(p: Price) -> Seq<u8> {
    be_word(p.rate) + be_word(p.timestamp) + be_word(96) + be_word(
        pair_bytes(price_pair(p)).len() as u64,
    ) + pair_bytes(price_pair(p)) + zero_bytes(32 - pair_bytes(price_pair(p)).len())
}

/// The first `k` element offset words of an `n`-element array: element `j`
/// sits `32 n + 160 j` bytes into the array's element area.
pub open spec fn offset_words(n: int, k: int) -> Seq<u8>
    decreases k,
{
    if k <= 0 {
        Seq::empty()
    } else {
        offset_words(n, k - 1) + be_word((32 * n + 160 * (k - 1)) as u64)
    }
}

/// The concatenated tuples of the first `k` prices.
pub open spec fn tuples_bytes(ps: Seq<Price>, k: int) -> Seq<u8>
    decreases k,
{
    if k <= 0 {
        Seq::empty()
    } else {
        tuples_bytes(ps, k - 1) + tuple_bytes(ps[k - 1])
    }
}

/// The canonical encoding of a price sequence: a word pointing at the
/// array, the array length word, the element offset words, and the tuples.
pub open spec fn encode_spec(ps: Seq<Price>) -> Seq<u8> {
    be_word(32) + be_word(ps.len() as u64) + offset_words(ps.len() as int, ps.len() as int)
        + tuples_bytes(ps, ps.len() as int)
}

/// Each tuple is 160 bytes.
pub proof fn lemma_tuple_bytes_len(p: Price)
    ensures
        tuple_bytes(p).len() == 160,
{
    lemma_pair_bytes_len(price_pair(p));
}

proof fn lemma_offset_words_len(n: int, k: int)
    requires
        k >= 0,
    ensures
        offset_words(n, k).len() == 32 * k,
    decreases k,
{
    if k > 0 {
        lemma_offset_words_len(n, k - 1);
    }
}

proof fn lemma_tuples_bytes_len(ps: Seq<Price>, k: int)
    requires
        0 <= k <= ps.len(),
    ensures
        tuples_bytes(ps, k).len() == 160 * k,
    decreases k,
{
    if k > 0 {
        lemma_tuples_bytes_len(ps, k - 1);
        lemma_tuple_bytes_len(ps[k - 1]);
    }
}

/// The length of an encoding.
pub proof fn lemma_encode_spec_len(ps: Seq<Price>)
    ensures
        encode_spec(ps).len() == 64 + 192 * ps.len(),
{
    lemma_offset_words_len(ps.len() as int, ps.len() as int);
    lemma_tuples_bytes_len(ps, ps.len() as int);
}

proof fn lemma_offset_words_index(n: int, k: int, j: int)
    requires
        0 <= j < k,
    ensures
        offset_words(n, k).subrange(32 * j, 32 * j + 32) == be_word((32 * n + 160 * j) as u64),
    decreases k,
{
    lemma_offset_words_len(n, k);
    if j == k - 1 {
        lemma_offset_words_len(n, k - 1);
        assert(offset_words(n, k).subrange(32 * j, 32 * j + 32) =~= be_word(
            (32 * n + 160 * j) as u64,
        ));
    } else {
        lemma_offset_words_index(n, k - 1, j);
        lemma_offset_words_len(n, k - 1);
        assert(offset_words(n, k).subrange(32 * j, 32 * j + 32) =~= offset_words(
            n,
            k - 1,
        ).subrange(32 * j, 32 * j + 32));
    }
}

proof fn lemma_tuples_bytes_index(ps: Seq<Price>, k: int, j: int)
    requires
        0 <= j < k <= ps.len(),
    ensures
        tuples_bytes(ps, k).subrange(160 * j, 160 * j + 160) == tuple_bytes(ps[j]),
    decreases k,
{
    lemma_tuples_bytes_len(ps, k);
    lemma_tuple_bytes_len(ps[k - 1]);
    if j == k - 1 {
        lemma_tuples_bytes_len(ps, k - 1);
        assert(tuples_bytes(ps, k).subrange(160 * j, 160 * j + 160) =~= tuple_bytes(ps[j]));
    } else {
        lemma_tuples_bytes_index(ps, k - 1, j);
        lemma_tuples_bytes_len(ps, k - 1);
        assert(tuples_bytes(ps, k).subrange(160 * j, 160 * j + 160) =~= tuples_bytes(
            ps,
            k - 1,
        ).subrange(160 * j, 160 * j + 160));
    }
}

/// Where each piece of an encoding lies.
pub proof fn lemma_encode_spec_layout(ps: Seq<Price>)
    ensures
        encode_spec(ps).len() == 64 + 192 * ps.len(),
        encode_spec(ps).subrange(0, 32) == be_word(32),
        encode_spec(ps).subrange(32, 64) == be_word(ps.len() as u64),
        forall|j: int|
            0 <= j < ps.len() ==> #[trigger] encode_spec(ps).subrange(64 + 32 * j, 96 + 32 * j)
                == be_word((32 * ps.len() + 160 * j) as u64),
        forall|j: int|
            0 <= j < ps.len() ==> #[trigger] encode_spec(ps).subrange(
                64 + 32 * ps.len() + 160 * j,
                64 + 32 * ps.len() + 160 * j + 160,
            ) == tuple_bytes(ps[j]),
{
    let n = ps.len() as int;
    let e = encode_spec(ps);
    lemma_encode_spec_len(ps);
    lemma_offset_words_len(n, n);
    lemma_tuples_bytes_len(ps, n);
    assert(e.subrange(0, 32) =~= be_word(32));
    assert(e.subrange(32, 64) =~= be_word(ps.len() as u64));
    assert forall|j: int|
        0 <= j < n implies #[trigger] e.subrange(64 + 32 * j, 96 + 32 * j) == be_word(
        (32 * n + 160 * j) as u64,
    ) by {
        lemma_offset_words_index(n, n, j);
        assert(e.subrange(64 + 32 * j, 96 + 32 * j) =~= offset_words(n, n).subrange(
            32 * j,
            32 * j + 32,
        ));
    }
    assert forall|j: int|
        0 <= j < n implies #[trigger] e.subrange(
        64 + 32 * n + 160 * j,
        64 + 32 * n + 160 * j + 160,
    ) == tuple_bytes(ps[j]) by {
        lemma_tuples_bytes_index(ps, n, j);
        assert(e.subrange(64 + 32 * n + 160 * j, 64 + 32 * n + 160 * j + 160) =~= tuples_bytes(
            ps,
            n,
        ).subrange(160 * j, 160 * j + 160));
    }
}

/// Encodes a sequence of prices into the canonical payload bytes.
pub fn encode_prices(prices: &Vec<Price>) -> (r: Vec<u8>)
    requires
        prices@.len() <= MAX_PRICES,
    ensures
        r@ == encode_spec(prices@),
{
    let n = prices.len();
    let ghost gn = n as int;
    let mut out: Vec<u8> = Vec::new();
    push_be_word(&mut out, 32);
    push_be_word(&mut out, n as u64);
    proof {
        assert(out@ =~= be_word(32) + be_word(prices@.len() as u64) + offset_words(gn, 0));
    }
    let mut i: usize = 0;
    while i < n
        invariant
            i <= n,
            n == prices@.len(),
            n <= MAX_PRICES,
            out@ == be_word(32) + be_word(prices@.len() as u64) + offset_words(gn, i as int),
            gn == n as int,
        decreases n - i,
    {
        let off: u64 = 32 * (n as u64) + 160 * (i as u64);
        push_be_word(&mut out, off);
        proof {
            assert(off == (32 * gn + 160 * (i as int)) as u64);
            assert(offset_words(gn, i + 1) == offset_words(gn, i as int) + be_word(off));
            assert(out@ =~= be_word(32) + be_word(prices@.len() as u64) + offset_words(
                gn,
                i + 1,
            ));
        }
        i += 1;
    }
    let ghost head = be_word(32) + be_word(prices@.len() as u64) + offset_words(gn, gn);
    proof {
        assert(out@ == head + tuples_bytes(prices@, 0)) by {
            assert(out@ =~= head + tuples_bytes(prices@, 0));
        }
    }
    let mut i: usize = 0;
    while i < n
        invariant
            i <= n,
            n == prices@.len(),
            n <= MAX_PRICES,
            out@ == head + tuples_bytes(prices@, i as int),
            head == be_word(32) + be_word(prices@.len() as u64) + offset_words(gn, gn),
            gn == n as int,
        decreases n - i,
    {
        let p = prices[i];
        let ghost tuple_start = out@;
        push_be_word(&mut out, p.rate);
        push_be_word(&mut out, p.timestamp);
        push_be_word(&mut out, 96);
        let pair = p.collateral_pair();
        let flen = sym_bytes_len(&pair.fsym);
        let tlen = sym_bytes_len(&pair.tsym);
        let plen = flen + 1 + tlen;
        push_be_word(&mut out, plen as u64);
        push_sym_bytes(&mut out, pair.fsym);
        out.push(47);
        push_sym_bytes(&mut out, pair.tsym);
        proof {
            assert(out@ =~= tuple_start + be_word(p.rate) + be_word(p.timestamp) + be_word(96)
                + be_word(pair_bytes(price_pair(p)).len() as u64) + pair_bytes(price_pair(p)));
        }
        let mut z: usize = plen;
        while z < 32
            invariant
                plen <= z <= 32,
                plen == pair_bytes(price_pair(p)).len(),
                out@ == tuple_start + be_word(p.rate) + be_word(p.timestamp) + be_word(96)
                    + be_word(pair_bytes(price_pair(p)).len() as u64) + pair_bytes(
                    price_pair(p),
                ) + zero_bytes(z - plen),
            decreases 32 - z,
        {
            out.push(0);
            proof {
                assert(zero_bytes(z + 1 - plen) =~= zero_bytes(z - plen).push(0u8));
                assert(out@ =~= tuple_start + be_word(p.rate) + be_word(p.timestamp) + be_word(
                    96,
                ) + be_word(pair_bytes(price_pair(p)).len() as u64) + pair_bytes(price_pair(p))
                    + zero_bytes(z + 1 - plen));
            }
            z += 1;
        }
        proof {
            assert(out@ =~= tuple_start + tuple_bytes(p));
            assert(tuples_bytes(prices@, i + 1) == tuples_bytes(prices@, i as int)
                + tuple_bytes(prices@[i as int]));
            assert(out@ =~= head + tuples_bytes(prices@, i + 1));
        }
        i += 1;
    }
    proof {
        assert(out@ =~= encode_spec(prices@));
    }
    out
}

/// Whether the bytes from `t + lo` up to `t + 160` are all zero.
fn zero_padded(data: &Vec<u8>, t: usize, lo: usize) -> (r: bool)
    requires
        t + 160 <= data@.len(),
        lo <= 160,
    ensures
        r == forall|y: int| lo <= y < 160 ==> #[trigger] data@[t + y] == 0u8,
{
    let data_len = data.len();
    let mut z: usize = lo;
    while z < 160
        invariant
            lo <= z <= 160,
            t + 160 <= data@.len(),
            data@.len() == data_len,
            forall|y: int| lo <= y < z ==> #[trigger] data@[t + y] == 0u8,
        decreases 160 - z,
    {
        if data[t + z] != 0 {
            proof {
                assert(data@[t + z] != 0u8);
            }
            return false;
        }
        z += 1;
    }
    true
}

/// Where each piece of a tuple lies.
proof fn lemma_tuple_layout(p: Price)
    ensures
        tuple_bytes(p).len() == 160,
        tuple_bytes(p).subrange(0, 32) == be_word(p.rate),
        tuple_bytes(p).subrange(32, 64) == be_word(p.timestamp),
        tuple_bytes(p).subrange(64, 96) == be_word(96),
        tuple_bytes(p).subrange(96, 128) == be_word(pair_bytes(price_pair(p)).len() as u64),
        tuple_bytes(p).subrange(128, 128 + pair_bytes(price_pair(p)).len() as int) == pair_bytes(
            price_pair(p),
        ),
        forall|z: int|
            128 + pair_bytes(price_pair(p)).len() <= z < 160 ==> tuple_bytes(p)[z] == 0u8,
{
    lemma_pair_bytes_len(price_pair(p));
    let t = tuple_bytes(p);
    assert(t.subrange(0, 32) =~= be_word(p.rate));
    assert(t.subrange(32, 64) =~= be_word(p.timestamp));
    assert(t.subrange(64, 96) =~= be_word(96));
    assert(t.subrange(96, 128) =~= be_word(pair_bytes(price_pair(p)).len() as u64));
    assert(t.subrange(128, 128 + pair_bytes(price_pair(p)).len() as int) =~= pair_bytes(
        price_pair(p),
    ));
}

/// From a whole-payload encoding equality, everything the decoder's
/// checks test about tuple `i`'s region.
proof fn lemma_tuple_region(ps: Seq<Price>, data: Seq<u8>, n: int, i: int, t: int)
    requires
        data == encode_spec(ps),
        data.len() == 64 + 192 * n,
        0 <= i < n,
        t == 64 + 32 * n + 160 * i,
    ensures
        ps.len() == n,
        data.subrange(t, t + 160) == tuple_bytes(ps[i]),
        data.subrange(t, t + 32) == be_word(ps[i].rate),
        data.subrange(t + 32, t + 64) == be_word(ps[i].timestamp),
        data.subrange(t + 64, t + 96) == be_word(96),
        data.subrange(t + 96, t + 128) == be_word(pair_bytes(price_pair(ps[i])).len() as u64),
        data.subrange(t + 128, t + 128 + pair_bytes(price_pair(ps[i])).len() as int)
            == pair_bytes(price_pair(ps[i])),
        forall|z: int|
            128 + pair_bytes(price_pair(ps[i])).len() <= z < 160 ==> #[trigger] data[t + z]
                == 0u8,
        7 <= pair_bytes(price_pair(ps[i])).len() <= 9,
{
    lemma_encode_spec_layout(ps);
    assert(ps.len() == n);
    lemma_tuple_layout(ps[i]);
    lemma_pair_bytes_len(price_pair(ps[i]));
    assert(encode_spec(ps).subrange(
        64 + 32 * ps.len() + 160 * i,
        64 + 32 * ps.len() + 160 * i + 160,
    ) == tuple_bytes(ps[i]));
    assert(t == 64 + 32 * ps.len() + 160 * i);
    assert(data.subrange(t, t + 160) == tuple_bytes(ps[i]));
    assert(data.subrange(t, t + 32) =~= tuple_bytes(ps[i]).subrange(0, 32));
    assert(data.subrange(t + 32, t + 64) =~= tuple_bytes(ps[i]).subrange(32, 64));
    assert(data.subrange(t + 64, t + 96) =~= tuple_bytes(ps[i]).subrange(64, 96));
    assert(data.subrange(t + 96, t + 128) =~= tuple_bytes(ps[i]).subrange(96, 128));
    assert(data.subrange(t + 128, t + 128 + pair_bytes(price_pair(ps[i])).len() as int)
        =~= tuple_bytes(ps[i]).subrange(
        128,
        128 + pair_bytes(price_pair(ps[i])).len() as int,
    ));
    assert forall|z: int|
        128 + pair_bytes(price_pair(ps[i])).len() <= z < 160 implies #[trigger] data[t + z]
        == 0u8 by {
        assert(data.subrange(t, t + 160)[z] == data[t + z]);
        assert(tuple_bytes(ps[i])[z] == 0u8);
    }
}

/// Decodes a payload back into the price sequence it encodes. Succeeds
/// exactly on the canonical encodings: on success the input is the
/// encoding of the result, and on failure the input encodes no price
/// sequence at all.
#[verifier::rlimit(100)]
pub fn decode_prices(data: &Vec<u8>) -> (r: Result<Vec<Price>, CodecError>)
    ensures
        match r {
            Ok(v) => v@.len() <= MAX_PRICES && data@ == encode_spec(v@),
            Err(_) => forall|ps: Seq<Price>|
                ps.len() <= MAX_PRICES ==> data@ != encode_spec(ps),
        },
{
    let len = data.len();
    if len < 64 || (len - 64) % 192 != 0 {
        proof {
            assert forall|ps: Seq<Price>|
                ps.len() <= MAX_PRICES implies data@ != encode_spec(ps) by {
                if data@ == encode_spec(ps) {
                    lemma_encode_spec_len(ps);
                }
            }
        }
        return Err(CodecError::BadLength);
    }
    let n = (len - 64) / 192;
    proof {
        assert(len == 64 + 192 * n);
    }
    if n > MAX_PRICES {
        proof {
            assert forall|ps: Seq<Price>|
                ps.len() <= MAX_PRICES implies data@ != encode_spec(ps) by {
                if data@ == encode_spec(ps) {
                    lemma_encode_spec_len(ps);
                }
            }
        }
        return Err(CodecError::BadLength);
    }
    let w0 = read_be_u64(data, 0);
    match w0 {
        Some(v) if v == 32 => {},
        _ => {
            proof {
                assert forall|ps: Seq<Price>|
                    ps.len() <= MAX_PRICES implies data@ != encode_spec(ps) by {
                    if data@ == encode_spec(ps) {
                        lemma_encode_spec_layout(ps);
                        match w0 {
                            Some(v) => {
                                lemma_be_word_injective(v, 32);
                            },
                            None => {},
                        }
                    }
                }
            }
            return Err(CodecError::BadHeader);
        },
    }
    let w1 = read_be_u64(data, 32);
    match w1 {
        Some(v) if v == n as u64 => {},
        _ => {
            proof {
                assert forall|ps: Seq<Price>|
                    ps.len() <= MAX_PRICES implies data@ != encode_spec(ps) by {
                    if data@ == encode_spec(ps) {
                        lemma_encode_spec_layout(ps);
                        assert(ps.len() == n);
                        match w1 {
                            Some(v) => {
                                lemma_be_word_injective(v, ps.len() as u64);
                            },
                            None => {},
                        }
                    }
                }
            }
            return Err(CodecError::BadHeader);
        },
    }
    let mut i: usize = 0;
    while i < n
        invariant
            i <= n,
            n <= MAX_PRICES,
            len == data@.len(),
            len == 64 + 192 * n,
            data@.subrange(0, 32) == be_word(32),
            data@.subrange(32, 64) == be_word(n as u64),
            forall|j: int|
                0 <= j < i ==> #[trigger] data@.subrange(64 + 32 * j, 96 + 32 * j) == be_word(
                    (32 * n + 160 * j) as u64,
                ),
        decreases n - i,
    {
        let expected: u64 = 32 * (n as u64) + 160 * (i as u64);
        let wo = read_be_u64(data, 64 + 32 * i);
        match wo {
            Some(v) if v == expected => {},
            _ => {
                proof {
                    assert forall|ps: Seq<Price>|
                        ps.len() <= MAX_PRICES implies data@ != encode_spec(ps) by {
                        if data@ == encode_spec(ps) {
                            lemma_encode_spec_layout(ps);
                            assert(ps.len() == n);
                            assert(encode_spec(ps).subrange(
                                64 + 32 * (i as int),
                                96 + 32 * (i as int),
                            ) == be_word((32 * ps.len() + 160 * (i as int)) as u64));
                            assert(data@.subrange(64 + 32 * i, 96 + 32 * i) == be_word(
                                (32 * n + 160 * i) as u64,
                            ));
                            match wo {
                                Some(v) => {
                                    lemma_be_word_injective(v, (32 * n + 160 * i) as u64);
                                },
                                None => {},
                            }
                        }
                    }
                }
                return Err(CodecError::BadOffset);
            },
        }
        i += 1;
    }
    let base = 64 + 32 * n;
    let mut out: Vec<Price> = Vec::new();
    let mut i: usize = 0;
    while i < n
        invariant
            i <= n,
            n <= MAX_PRICES,
            len == data@.len(),
            len == 64 + 192 * n,
            base == 64 + 32 * n,
            out@.len() == i,
            data@.subrange(0, 32) == be_word(32),
            data@.subrange(32, 64) == be_word(n as u64),
            forall|j: int|
                0 <= j < n ==> #[trigger] data@.subrange(64 + 32 * j, 96 + 32 * j) == be_word(
                    (32 * n + 160 * j) as u64,
                ),
            forall|j: int|
                0 <= j < i ==> #[trigger] data@.subrange(
                    base + 160 * j,
                    base + 160 * j + 160,
                ) == tuple_bytes(out@[j]),
        decreases n - i,
    {
        let t = base + 160 * i;
        let rate_r = read_be_u64(data, t);
        let rate = match rate_r {
            Some(v) => v,
            None => {
                proof {
                    assert forall|ps: Seq<Price>|
                        ps.len() <= MAX_PRICES implies data@ != encode_spec(ps) by {
                        if data@ == encode_spec(ps) {
                            lemma_tuple_region(ps, data@, n as int, i as int, t as int);
                        }
                    }
                }
                return Err(CodecError::Overflow);
            },
        };
        let ts_r = read_be_u64(data, t + 32);
        let timestamp = match ts_r {
            Some(v) => v,
            None => {
                proof {
                    assert forall|ps: Seq<Price>|
                        ps.len() <= MAX_PRICES implies data@ != encode_spec(ps) by {
                        if data@ == encode_spec(ps) {
                            lemma_tuple_region(ps, data@, n as int, i as int, t as int);
                        }
                    }
                }
                return Err(CodecError::Overflow);
            },
        };
        let ws = read_be_u64(data, t + 64);
        match ws {
            Some(v) if v == 96 => {},
            _ => {
                proof {
                    assert forall|ps: Seq<Price>|
                        ps.len() <= MAX_PRICES implies data@ != encode_spec(ps) by {
                        if data@ == encode_spec(ps) {
                            lemma_tuple_region(ps, data@, n as int, i as int, t as int);
                            match ws {
                                Some(v) => {
                                    lemma_be_word_injective(v, 96);
                                },
                                None => {},
                            }
                        }
                    }
                }
                return Err(CodecError::BadOffset);
            },
        }
        let wl = read_be_u64(data, t + 96);
        let slen_w = match wl {
            Some(v) => v,
            None => {
                proof {
                    assert forall|ps: Seq<Price>|
                        ps.len() <= MAX_PRICES implies data@ != encode_spec(ps) by {
                        if data@ == encode_spec(ps) {
                            lemma_tuple_region(ps, data@, n as int, i as int, t as int);
                        }
                    }
                }
                return Err(CodecError::BadPairString);
            },
        };
        if slen_w > 32 {
            proof {
                assert forall|ps: Seq<Price>|
                    ps.len() <= MAX_PRICES implies data@ != encode_spec(ps) by {
                    if data@ == encode_spec(ps) {
                        lemma_tuple_region(ps, data@, n as int, i as int, t as int);
                        lemma_be_word_injective(
                            slen_w,
                            pair_bytes(price_pair(ps[i as int])).len() as u64,
                        );
                    }
                }
            }
            return Err(CodecError::BadPairString);
        }
        let slen = slen_w as usize;
        let pair_r = parse_pair_bytes(data, t + 128, slen);
        let pair = match pair_r {
            Some(p) => p,
            None => {
                proof {
                    assert forall|ps: Seq<Price>|
                        ps.len() <= MAX_PRICES implies data@ != encode_spec(ps) by {
                        if data@ == encode_spec(ps) {
                            lemma_tuple_region(ps, data@, n as int, i as int, t as int);
                            lemma_be_word_injective(
                                slen_w,
                                pair_bytes(price_pair(ps[i as int])).len() as u64,
                            );
                            assert(slen == pair_bytes(price_pair(ps[i as int])).len());
                            assert(data@.subrange(t + 128, t + 128 + slen) == pair_bytes(
                                price_pair(ps[i as int]),
                            ));
                        }
                    }
                }
                return Err(CodecError::BadPairString);
            },
        };
        if !zero_padded(data, t, 128 + slen) {
            proof {
                assert forall|ps: Seq<Price>|
                    ps.len() <= MAX_PRICES implies data@ != encode_spec(ps) by {
                    if data@ == encode_spec(ps) {
                        lemma_tuple_region(ps, data@, n as int, i as int, t as int);
                        lemma_be_word_injective(
                            slen_w,
                            pair_bytes(price_pair(ps[i as int])).len() as u64,
                        );
                        assert(slen == pair_bytes(price_pair(ps[i as int])).len());
                        assert(false);
                    }
                }
            }
            return Err(CodecError::BadPairString);
        }
        let price = Price { fsym: pair.fsym, tsym: pair.tsym, rate, timestamp };
        proof {
            lemma_pair_bytes_len(pair);
            assert(price_pair(price) == pair);
            lemma_tuple_layout(price);
            assert(data@.subrange(t as int, t + 160) =~= tuple_bytes(price)) by {
                let tb = tuple_bytes(price);
                assert forall|y: int| 0 <= y < 160 implies data@[t + y] == tb[y] by {
                    if y < 32 {
                        assert(data@.subrange(t as int, t + 32)[y] == data@[t + y]);
                        assert(tb.subrange(0, 32) == be_word(price.rate));
                        assert(tb[y] == be_word(price.rate)[y]);
                    } else if y < 64 {
                        assert(data@.subrange(t + 32, t + 64)[y - 32] == data@[t + y]);
                        assert(tb.subrange(32, 64) == be_word(price.timestamp));
                        assert(tb[y] == be_word(price.timestamp)[y - 32]);
                    } else if y < 96 {
                        assert(data@.subrange(t + 64, t + 96)[y - 64] == data@[t + y]);
                        assert(tb.subrange(64, 96) == be_word(96));
                        assert(tb[y] == be_word(96)[y - 64]);
                    } else if y < 128 {
                        assert(data@.subrange(t + 96, t + 128)[y - 96] == data@[t + y]);
                        assert(slen_w == pair_bytes(pair).len() as u64) by {
                            assert(data@.subrange(t + 128, t + 128 + slen) == pair_bytes(
                                pair,
                            ));
                        }
                        assert(tb.subrange(96, 128) == be_word(pair_bytes(pair).len() as u64));
                        assert(tb[y] == be_word(pair_bytes(pair).len() as u64)[y - 96]);
                    } else if y < 128 + slen {
                        assert(data@.subrange(t + 128, t + 128 + slen)[y - 128] == data@[t
                            + y]);
                        assert(slen == pair_bytes(pair).len()) by {
                            assert(data@.subrange(t + 128, t + 128 + slen) == pair_bytes(
                                pair,
                            ));
                        }
                        assert(tb[y] == pair_bytes(pair)[y - 128]);
                    } else {
                        assert(slen == pair_bytes(pair).len()) by {
                            assert(data@.subrange(t + 128, t + 128 + slen) == pair_bytes(
                                pair,
                            ));
                        }
                        assert(data@[t + y] == 0u8);
                        assert(tb[y] == 0u8);
                    }
                }
            }
        }
        out.push(price);
        proof {
            assert(out@[i as int] == price);
        }
        i += 1;
    }
    proof {
        lemma_encode_spec_layout(out@);
        assert(data@ =~= encode_spec(out@)) by {
            let e = encode_spec(out@);
            assert(e.len() == data@.len());
            assert forall|y: int| 0 <= y < data@.len() implies data@[y] == e[y] by {
                if y < 32 {
                    assert(data@.subrange(0, 32)[y] == data@[y]);
                    assert(e.subrange(0, 32)[y] == e[y]);
                } else if y < 64 {
                    assert(data@.subrange(32, 64)[y - 32] == data@[y]);
                    assert(e.subrange(32, 64)[y - 32] == e[y]);
                } else if y < 64 + 32 * n {
                    let j = (y - 64) / 32;
                    assert(0 <= j < n);
                    assert(64 + 32 * j <= y < 96 + 32 * j);
                    assert(data@.subrange(64 + 32 * j, 96 + 32 * j)[y - 64 - 32 * j]
                        == data@[y]);
                    assert(e.subrange(64 + 32 * j, 96 + 32 * j)[y - 64 - 32 * j] == e[y]);
                } else {
                    let j = (y - 64 - 32 * n) / 160;
                    assert(0 <= j < n);
                    assert(64 + 32 * n + 160 * j <= y < 64 + 32 * n + 160 * j + 160);
                    assert(data@.subrange(base + 160 * j, base + 160 * j + 160) == tuple_bytes(
                        out@[j],
                    ));
                    assert(e.subrange(
                        64 + 32 * out@.len() + 160 * j,
                        64 + 32 * out@.len() + 160 * j + 160,
                    ) == tuple_bytes(out@[j]));
                    assert(data@.subrange(base + 160 * j, base + 160 * j + 160)[y - 64 - 32 * n
                        - 160 * j] == data@[y]);
                    assert(e.subrange(
                        64 + 32 * out@.len() + 160 * j,
                        64 + 32 * out@.len() + 160 * j + 160,
                    )[y - 64 - 32 * n - 160 * j] == e[y]);
                }
            }
        }
    }
    Ok(out)
}

/// The canonical encoding is injective: with `decode_prices`' contract
/// this is the round-trip law, `decode_prices` applied to
/// `encode_prices(ps)` returns exactly `ps`.
pub proof fn lemma_encode_injective(ps1: Seq<Price>, ps2: Seq<Price>)
    requires
        ps1.len() <= MAX_PRICES,
        ps2.len() <= MAX_PRICES,
        encode_spec(ps1) == encode_spec(ps2),
    ensures
        ps1 == ps2,
{
    lemma_encode_spec_layout(ps1);
    lemma_encode_spec_layout(ps2);
    assert(ps1.len() == ps2.len());
    let n = ps1.len() as int;
    assert forall|j: int| 0 <= j < n implies ps1[j] == ps2[j] by {
        assert(encode_spec(ps1).subrange(
            64 + 32 * ps1.len() + 160 * j,
            64 + 32 * ps1.len() + 160 * j + 160,
        ) == tuple_bytes(ps1[j]));
        assert(encode_spec(ps2).subrange(
            64 + 32 * ps2.len() + 160 * j,
            64 + 32 * ps2.len() + 160 * j + 160,
        ) == tuple_bytes(ps2[j]));
        assert(tuple_bytes(ps1[j]) == tuple_bytes(ps2[j]));
        lemma_tuple_layout(ps1[j]);
        lemma_tuple_layout(ps2[j]);
        assert(be_word(ps1[j].rate) == be_word(ps2[j].rate));
        lemma_be_word_injective(ps1[j].rate, ps2[j].rate);
        assert(be_word(ps1[j].timestamp) == be_word(ps2[j].timestamp));
        lemma_be_word_injective(ps1[j].timestamp, ps2[j].timestamp);
        assert(be_word(pair_bytes(price_pair(ps1[j])).len() as u64) == be_word(
            pair_bytes(price_pair(ps2[j])).len() as u64,
        ));
        lemma_be_word_injective(
            pair_bytes(price_pair(ps1[j])).len() as u64,
            pair_bytes(price_pair(ps2[j])).len() as u64,
        );
        lemma_pair_bytes_len(price_pair(ps1[j]));
        lemma_pair_bytes_len(price_pair(ps2[j]));
        assert(pair_bytes(price_pair(ps1[j])) == pair_bytes(price_pair(ps2[j])));
        lemma_pair_bytes_injective(price_pair(ps1[j]), price_pair(ps2[j]));
    }
    assert(ps1 =~= ps2);
}

} // verus!
