//! Content hashing: SHA-256 over text, rendered as lower-case hex. The
//! digest itself comes from an outside crate and is only named; the hex
//! rendering is stated exactly.

use vstd::prelude::*;
use sha2::Digest;
use crate::digits::digit_char;

verus! {

/// The SHA-256 digest of the UTF-8 bytes of a character sequence. The digest
/// is a function of the input characters alone; no short statement says which
/// bytes come out, so the result only carries a name.
pub uninterp spec fn sha256_of(s: Seq<char>) -> Seq<u8>;

/// The character for one hex digit value, lower case.
pub open spec fn hex_char(d: nat) -> char
    recommends
        d < 16,
{
    if d < 10 {
        digit_char(d)
    } else if d == 10 {
        'a'
    } else if d == 11 {
        'b'
    } else if d == 12 {
        'c'
    } else if d == 13 {
        'd'
    } else if d == 14 {
        'e'
    } else {
        'f'
    }
}

/// Lower-case hex encoding: two digits per byte, high nibble first.
pub open spec fn hex_of(bs: Seq<u8>) -> Seq<char>
    decreases bs.len(),
{
    if bs.len() == 0 {
        Seq::<char>::empty()
    } else {
        seq![hex_char((bs[0] / 16) as nat), hex_char((bs[0] % 16) as nat)] + hex_of(
            bs.drop_first(),
        )
    }
}

pub proof fn lemma_hex_len(bs: Seq<u8>)
    ensures
        hex_of(bs).len() == 2 * bs.len(),
    decreases bs.len(),
{
    if bs.len() > 0 {
        lemma_hex_len(bs.drop_first());
    }
}

/// Relies on sha2::Sha256 through the Digest interface: a 32-byte digest
/// computed from the input bytes alone.
#[verifier::external_body]
fn sha256_digest(input: &str) -> (r: Vec<u8>)
    ensures
        r@ == sha256_of(input@),
        r@.len() == 32,
{
    sha2::Sha256::digest(input.as_bytes()).to_vec()
}

/// Relies on hex::encode: lower-case hex, two digits per byte, high nibble
/// first.
#[verifier::external_body]
fn hex_encode(bytes: &[u8]) -> (r: String)
    ensures
        r@ == hex_of(bytes@),
{
    hex::encode(bytes)
}

/// The hex form of the SHA-256 digest of a character sequence: what every
/// stored block hash is computed as.
pub open spec fn spec_hash_input(s: Seq<char>) -> Seq<char> {
    hex_of(sha256_of(s))
}

/// Hashes a string: SHA-256, then lower-case hex. Always 64 characters.
pub fn hash_input(input: &str) -> (r: String)
    ensures
        r@ == spec_hash_input(input@),
        r@.len() == 64,
{
    let digest = sha256_digest(input);
    let r = hex_encode(digest.as_slice());
    proof {
        lemma_hex_len(sha256_of(input@));
    }
    r
}

} // verus!
