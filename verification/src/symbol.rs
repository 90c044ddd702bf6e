//! Currency symbols: a closed set of currency codes, parseable from and
//! printable to their code strings.

use vstd::prelude::*;
use vstd::string::StrSliceExecFns;

verus! {

use crate::errors::ParseError;
use crate::text::{match_at, splits_in_two};

/// A currency code known to the oracle.
#[derive(Debug, Clone, Copy, PartialEq, Eq, Hash, Structural)]
pub enum Symbol {
    USD,
    ETH,
    JPY,
    NGN,
    USDC,
}

/// The code string of a symbol, as a sequence of characters.
pub open spec fn sym_code(s: Symbol) -> Seq<char> {
    match s {
        Symbol::USD => seq!['U', 'S', 'D'],
        Symbol::ETH => seq!['E', 'T', 'H'],
        Symbol::JPY => seq!['J', 'P', 'Y'],
        Symbol::NGN => seq!['N', 'G', 'N'],
        Symbol::USDC => seq!['U', 'S', 'D', 'C'],
    }
}

impl Symbol {
    /// The code string of this symbol.
    pub fn code(self) -> (r: &'static str)
        ensures
            r@ == sym_code(self),
    {
        match self {
            Symbol::USD => {
                proof {
                    reveal_strlit("USD");
                    assert("USD"@ =~= sym_code(self));
                }
                "USD"
            },
            Symbol::ETH => {
                proof {
                    reveal_strlit("ETH");
                    assert("ETH"@ =~= sym_code(self));
                }
                "ETH"
            },
            Symbol::JPY => {
                proof {
                    reveal_strlit("JPY");
                    assert("JPY"@ =~= sym_code(self));
                }
                "JPY"
            },
            Symbol::NGN => {
                proof {
                    reveal_strlit("NGN");
                    assert("NGN"@ =~= sym_code(self));
                }
                "NGN"
            },
            Symbol::USDC => {
                proof {
                    reveal_strlit("USDC");
                    assert("USDC"@ =~= sym_code(self));
                }
                "USDC"
            },
        }
    }

    /// Parses a symbol from its code string.
    pub fn from_code(s: &str) -> (r: Option<Symbol>)
        ensures
            match r {
                Some(sym) => s@ == sym_code(sym),
                None => forall|sym: Symbol| s@ != sym_code(sym),
            },
    {
        proof {
            reveal_strlit("USD");
            reveal_strlit("ETH");
            reveal_strlit("JPY");
            reveal_strlit("NGN");
            reveal_strlit("USDC");
            assert("USD"@ =~= sym_code(Symbol::USD));
            assert("ETH"@ =~= sym_code(Symbol::ETH));
            assert("JPY"@ =~= sym_code(Symbol::JPY));
            assert("NGN"@ =~= sym_code(Symbol::NGN));
            assert("USDC"@ =~= sym_code(Symbol::USDC));
        }
        if crate::text::str_eq(s, "USD") {
            Some(Symbol::USD)
        } else if crate::text::str_eq(s, "ETH") {
            Some(Symbol::ETH)
        } else if crate::text::str_eq(s, "JPY") {
            Some(Symbol::JPY)
        } else if crate::text::str_eq(s, "NGN") {
            Some(Symbol::NGN)
        } else if crate::text::str_eq(s, "USDC") {
            Some(Symbol::USDC)
        } else {
            proof {
                assert forall|sym: Symbol| s@ != sym_code(sym) by {
                    match sym {
                        Symbol::USD => assert(s@ != sym_code(Symbol::USD)),
                        Symbol::ETH => assert(s@ != sym_code(Symbol::ETH)),
                        Symbol::JPY => assert(s@ != sym_code(Symbol::JPY)),
                        Symbol::NGN => assert(s@ != sym_code(Symbol::NGN)),
                        Symbol::USDC => assert(s@ != sym_code(Symbol::USDC)),
                    }
                }
            }
            None
        }
    }

    /// Parses two symbols out of a string of the form
    /// `"<code><delimiter><code>"`. Fails unless the string splits into
    /// exactly two pieces around the delimiter and both pieces are known
    /// currency codes.
    pub fn parse_symbols(string: &str, delimiter: &str) -> (r: Result<
        (Symbol, Symbol),
        ParseError,
    >)
        ensures
            match r {
                Ok(p) => splits_in_two(string@, delimiter@, sym_code(p.0), sym_code(p.1)),
                Err(ParseError::InvalidFormat) => !(exists|a: Seq<char>, b: Seq<char>|
                    splits_in_two(string@, delimiter@, a, b)),
                Err(ParseError::UnknownSymbol) => exists|a: Seq<char>, b: Seq<char>|
                    {
                        &&& splits_in_two(string@, delimiter@, a, b)
                        &&& ((forall|f: Symbol| a != sym_code(f)) || (forall|t: Symbol|
                            b != sym_code(t)))
                    },
            },
    {
        let ghost s = string@;
        let ghost d = delimiter@;
        let d_len = delimiter.unicode_len();
        if d_len == 0 {
            return Err(ParseError::InvalidFormat);
        }
        let s_len = string.unicode_len();
        match crate::text::find_first(string, delimiter) {
            None => {
                proof {
                    assert forall|a: Seq<char>, b: Seq<char>| !splits_in_two(s, d, a, b) by {
                        if splits_in_two(s, d, a, b) {
                            crate::text::lemma_split_gives_match(s, d, a, b);
                        }
                    }
                }
                Err(ParseError::InvalidFormat)
            },
            Some(i) => {
                let a = string.substring_char(0, i);
                let b = string.substring_char(i + d_len, s_len);
                match crate::text::find_first(b, delimiter) {
                    Some(k) => {
                        proof {
                            assert forall|x: Seq<char>, y: Seq<char>| !splits_in_two(s, d, x, y)
                            by {
                                if splits_in_two(s, d, x, y) {
                                    crate::text::lemma_split_parts_determined(
                                        s,
                                        d,
                                        x,
                                        y,
                                        i as int,
                                    );
                                    assert(y == b@);
                                    assert(match_at(b@, d, k as int));
                                }
                            }
                        }
                        Err(ParseError::InvalidFormat)
                    },
                    None => {
                        proof {
                            assert(s =~= a@ + d + b@);
                            assert(splits_in_two(s, d, a@, b@));
                        }
                        let fsym = Symbol::from_code(a);
                        let tsym = Symbol::from_code(b);
                        match (fsym, tsym) {
                            (Some(f), Some(t)) => Ok((f, t)),
                            _ => {
                                Err(ParseError::UnknownSymbol)
                            },
                        }
                    },
                }
            },
        }
    }
}

/// Every distinct pair of symbols has distinct codes.
pub proof fn lemma_sym_code_injective(a: Symbol, b: Symbol)
    ensures
        sym_code(a) == sym_code(b) ==> a == b,
{
    if a != b && sym_code(a) == sym_code(b) {
        assert(sym_code(a).len() == sym_code(b).len());
        assert(sym_code(a)[0] == sym_code(b)[0]);
        assert(sym_code(a)[1] == sym_code(b)[1]);
        assert(sym_code(a)[2] == sym_code(b)[2]);
        assert(false);
    }
}

} // verus!
