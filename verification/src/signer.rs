//! Signing: derive a signing key from a hex-encoded operator secret and
//! produce a 65-byte recoverable signature over the encoded payload.

use vstd::prelude::*;
use vstd::string::StrSliceExecFns;

verus! {

/// Failure to sign a payload.
#[derive(Debug, Clone, Copy, PartialEq, Eq, Structural)]
pub enum SignError {
    /// The secret is not 64 hex digits, with an optional `0x` prefix.
    InvalidHex,
    /// The decoded bytes are not a valid signing key.
    InvalidKey,
    /// The signature scheme refused to sign.
    SigningFailed,
}

/// Numeric value of a hex digit, or 16 for any other character.
pub open spec fn hex_val(c: char) -> int {
    if '0' <= c && c <= '9' {
        c as int - '0' as int
    } else if 'a' <= c && c <= 'f' {
        c as int - 'a' as int + 10
    } else if 'A' <= c && c <= 'F' {
        c as int - 'A' as int + 10
    } else {
        16
    }
}

/// Whether the character is a hex digit.
pub open spec fn is_hex_digit(c: char) -> bool {
    hex_val(c) < 16
}

/// The secret with an optional leading `0x` removed.
pub open spec fn strip_0x(s: Seq<char>) -> Seq<char> {
    if s.len() >= 2 && s[0] == '0' && s[1] == 'x' {
        s.skip(2)
    } else {
        s
    }
}

/// A well-formed secret: exactly 64 hex digits after the optional prefix.
pub open spec fn valid_secret_hex(s: Seq<char>) -> bool {
    &&& strip_0x(s).len() == 64
    &&& forall|i: int| 0 <= i < 64 ==> is_hex_digit(#[trigger] strip_0x(s)[i])
}

/// Byte `k` of a hex digit string: two digits, high first.
pub open spec fn hex_byte(s: Seq<char>, k: int) -> u8 {
    (hex_val(s[2 * k]) * 16 + hex_val(s[2 * k + 1])) as u8
}

/// The bytes a hex digit string decodes to.
pub open spec fn hex_bytes(s: Seq<char>) -> Seq<u8> {
    Seq::new(s.len() / 2, |k: int| hex_byte(s, k))
}

/// Numeric value of a hex digit character, 16 for any other character.
fn hex_digit_val(c: char) -> (r: u8)
    ensures
        r as int == hex_val(c),
{
    match c {
        '0' => 0,
        '1' => 1,
        '2' => 2,
        '3' => 3,
        '4' => 4,
        '5' => 5,
        '6' => 6,
        '7' => 7,
        '8' => 8,
        '9' => 9,
        'a' => 10,
        'b' => 11,
        'c' => 12,
        'd' => 13,
        'e' => 14,
        'f' => 15,
        'A' => 10,
        'B' => 11,
        'C' => 12,
        'D' => 13,
        'E' => 14,
        'F' => 15,
        _ => 16,
    }
}

/// Decodes a hex-encoded 32-byte secret, accepting an optional `0x`
/// prefix. Fails exactly on strings that are not 64 hex digits.
pub fn parse_secret_hex(s: &str) -> (r: Result<Vec<u8>, SignError>)
    ensures
        match r {
            Ok(key) => {
                &&& valid_secret_hex(s@)
                &&& key@.len() == 32
                &&& key@ == hex_bytes(strip_0x(s@))
            },
            Err(e) => e == SignError::InvalidHex && !valid_secret_hex(s@),
        },
{
    let n = s.unicode_len();
    let off: usize = if n >= 2 && s.get_char(0) == '0' && s.get_char(1) == 'x' {
        2
    } else {
        0
    };
    let ghost stripped = strip_0x(s@);
    proof {
        assert(stripped =~= s@.skip(off as int));
    }
    if n - off != 64 {
        return Err(SignError::InvalidHex);
    }
    let mut key: Vec<u8> = Vec::new();
    let mut k: usize = 0;
    while k < 32
        invariant
            k <= 32,
            n == s@.len(),
            off + 64 == n,
            off == 0 || off == 2,
            stripped == strip_0x(s@),
            stripped =~= s@.skip(off as int),
            stripped.len() == 64,
            key@.len() == k,
            forall|j: int| 0 <= j < 2 * k ==> is_hex_digit(#[trigger] stripped[j]),
            forall|j: int| 0 <= j < k ==> key@[j] == hex_byte(stripped, j),
        decreases 32 - k,
    {
        let c1 = s.get_char(off + 2 * k);
        let c2 = s.get_char(off + 2 * k + 1);
        proof {
            assert(stripped[2 * k] == c1);
            assert(stripped[2 * k + 1] == c2);
        }
        let v1 = hex_digit_val(c1);
        let v2 = hex_digit_val(c2);
        if v1 >= 16 || v2 >= 16 {
            return Err(SignError::InvalidHex);
        }
        key.push(v1 * 16 + v2);
        k += 1;
    }
    proof {
        assert(key@ =~= hex_bytes(stripped));
    }
    Ok(key)
}

/// What the signature scheme accepts: whether 32 bytes are a valid secret
/// key. A function of the bytes alone.
pub uninterp spec fn valid_secret_key(key: Seq<u8>) -> bool;

/// The 65-byte recoverable signature produced over a message by the key's
/// wallet. A function of key and message alone: the scheme derives its
/// nonce deterministically from them.
pub uninterp spec fn sig_bytes_of(key: Seq<u8>, msg: Seq<u8>) -> Seq<u8>;

/// Whether the signature scheme produces a signature for this key and
/// message. The scheme is deterministic, so this too is a function of the
/// two arguments alone; it fails only in the degenerate case that the
/// derived nonce or a signature component is zero.
pub uninterp spec fn scheme_signs(key: Seq<u8>, msg: Seq<u8>) -> bool;

/// Relies on `ethers_signers::Wallet::from_bytes`, which accepts exactly
/// the valid secret keys; `ethers_core::utils::hash_message` and
/// `Wallet::sign_hash`, which together sign deterministically (RFC 6979
/// with no added entropy, so the outcome — success included — is a
/// function of key and message alone); and `Signature::to_vec`, whose
/// result is always 65 bytes (32 + 32 + 1).
#[verifier::external_body]
fn sign_raw(key: &Vec<u8>, msg: &Vec<u8>) -> (r: Result<Vec<u8>, SignError>)
    requires
        key@.len() == 32,
    ensures
        match r {
            Ok(sig) => {
                &&& valid_secret_key(key@)
                &&& scheme_signs(key@, msg@)
                &&& sig@.len() == 65
                &&& sig@ == sig_bytes_of(key@, msg@)
            },
            Err(SignError::InvalidKey) => !valid_secret_key(key@),
            Err(SignError::SigningFailed) => valid_secret_key(key@) && !scheme_signs(
                key@,
                msg@,
            ),
            Err(SignError::InvalidHex) => false,
        },
{
    let wallet = match ethers_signers::LocalWallet::from_bytes(key) {
        Ok(w) => w,
        Err(_) => {
            return Err(SignError::InvalidKey);
        },
    };
    let hash = ethers_core::utils::hash_message(msg);
    match wallet.sign_hash(hash) {
        Ok(sig) => Ok(sig.to_vec()),
        Err(_) => Err(SignError::SigningFailed),
    }
}

/// Signs a message with the hex-encoded operator secret. Succeeds exactly
/// when the secret is 64 hex digits, the decoded key is valid, and the
/// scheme signs this key and message — and then the signature is exactly
/// 65 bytes, for any such secret and any payload.
pub fn sign_message(secret_hex: &str, message: &Vec<u8>) -> (r: Result<Vec<u8>, SignError>)
    ensures
        match r {
            Ok(sig) => {
                &&& valid_secret_hex(secret_hex@)
                &&& valid_secret_key(hex_bytes(strip_0x(secret_hex@)))
                &&& scheme_signs(hex_bytes(strip_0x(secret_hex@)), message@)
                &&& sig@.len() == 65
                &&& sig@ == sig_bytes_of(hex_bytes(strip_0x(secret_hex@)), message@)
            },
            Err(SignError::InvalidHex) => !valid_secret_hex(secret_hex@),
            Err(SignError::InvalidKey) => valid_secret_hex(secret_hex@) && !valid_secret_key(
                hex_bytes(strip_0x(secret_hex@)),
            ),
            Err(SignError::SigningFailed) => {
                &&& valid_secret_hex(secret_hex@)
                &&& valid_secret_key(hex_bytes(strip_0x(secret_hex@)))
                &&& !scheme_signs(hex_bytes(strip_0x(secret_hex@)), message@)
            },
        },
{
    let key = match parse_secret_hex(secret_hex) {
        Ok(key) => key,
        Err(e) => {
            return Err(e);
        },
    };
    sign_raw(&key, message)
}

/// Validates the operator secret once, at startup: the hex must decode
/// and the bytes must be a key the signature scheme accepts.
pub fn validate_secret(secret_hex: &str) -> (r: Result<Vec<u8>, SignError>)
    ensures
        match r {
            Ok(key) => {
                &&& valid_secret_hex(secret_hex@)
                &&& key@.len() == 32
                &&& key@ == hex_bytes(strip_0x(secret_hex@))
                &&& valid_secret_key(key@)
            },
            Err(SignError::InvalidHex) => !valid_secret_hex(secret_hex@),
            Err(SignError::InvalidKey) => valid_secret_hex(secret_hex@) && !valid_secret_key(
                hex_bytes(strip_0x(secret_hex@)),
            ),
            Err(SignError::SigningFailed) => false,
        },
{
    let key = match parse_secret_hex(secret_hex) {
        Ok(key) => key,
        Err(e) => {
            return Err(e);
        },
    };
    if key_is_valid(&key) {
        Ok(key)
    } else {
        Err(SignError::InvalidKey)
    }
}

/// Relies on `ethers_signers::Wallet::from_bytes`: building a wallet
/// succeeds exactly when the bytes are a valid secret key.
#[verifier::external_body]
fn key_is_valid(key: &Vec<u8>) -> (r: bool)
    requires
        key@.len() == 32,
    ensures
        r == valid_secret_key(key@),
{
    ethers_signers::LocalWallet::from_bytes(key).is_ok()
}

} // verus!
