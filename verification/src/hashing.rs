//! Cryptographic digests over byte buffers, and hex rendering.
//!
//! The hash primitives are opaque functions of the input bytes, supplied by
//! outside crates; only their output length is stated beyond that. The hex
//! rendering of a digest is computed and verified here.

use vstd::prelude::*;

use sha2::Digest;

verus! {

/// The SHA-256 digest of a byte sequence.
pub uninterp spec fn sha256_of(bytes: Seq<u8>) -> Seq<u8>;

/// The SHA-1 digest of a byte sequence.
pub uninterp spec fn sha1_of(bytes: Seq<u8>) -> Seq<u8>;

/// Relies on sha2's `Sha256::digest`: one 32-byte digest, a function of the
/// input bytes alone.
#[verifier::external_body]
pub(crate) fn sha256(bytes: &[u8]) -> (r: Vec<u8>)
    ensures
        r@ == sha256_of(bytes@),
        r@.len() == 32,
{
    sha2::Sha256::digest(bytes).to_vec()
}

/// Relies on sha1's `Sha1::digest`: one 20-byte digest, a function of the
/// input bytes alone.
#[verifier::external_body]
pub(crate) fn sha1(bytes: &[u8]) -> (r: Vec<u8>)
    ensures
        r@ == sha1_of(bytes@),
        r@.len() == 20,
{
    sha1::Sha1::digest(bytes).to_vec()
}

/// ASCII byte of one lowercase hexadecimal digit.
pub open spec fn hex_digit(n: u8) -> u8 {
    if n < 10 {
        (48 + n) as u8
    } else {
        (87 + n) as u8
    }
}

/// Lowercase hexadecimal rendering of a byte sequence: two digit bytes for
/// each byte, high part first.
pub open spec fn hex_bytes(s: Seq<u8>) -> Seq<u8> {
    Seq::new(
        2 * s.len(),
        |i: int|
            if 0 <= i && 0 <= i / 2 < s.len() {
                if i % 2 == 0 {
                    hex_digit(s[i / 2] / 16)
                } else {
                    hex_digit(s[i / 2] % 16)
                }
            } else {
                48u8
            },
    )
}

/// Lowercase hexadecimal rendering as characters.
pub open spec fn hex_chars(s: Seq<u8>) -> Seq<char> {
    hex_bytes(s).map_values(|b: u8| b as char)
}

/// Render a byte buffer in lowercase hexadecimal, two digits per byte.
pub(crate) fn to_hex_bytes(v: &Vec<u8>) -> (r: Vec<u8>)
    ensures
        r@ == hex_bytes(v@),
        forall|i: int| 0 <= i < r@.len() ==> r@[i] < 128,
{
    let mut out: Vec<u8> = Vec::new();
    let mut i: usize = 0;
    while i < v.len()
        invariant
            i <= v@.len(),
            out@.len() == 2 * i,
            forall|j: int| 0 <= j < out@.len() ==> out@[j] == hex_bytes(v@)[j],
        decreases v@.len() - i,
    {
        let b: u8 = v[i];
        let hi: u8 = b / 16;
        let lo: u8 = b % 16;
        let hi_digit: u8 = if hi < 10 {
            48 + hi
        } else {
            87 + hi
        };
        let lo_digit: u8 = if lo < 10 {
            48 + lo
        } else {
            87 + lo
        };
        proof {
            assert(hex_bytes(v@)[2 * i as int] == hex_digit(v@[i as int] / 16));
            assert(hex_bytes(v@)[2 * i as int + 1] == hex_digit(v@[i as int] % 16));
        }
        out.push(hi_digit);
        out.push(lo_digit);
        i = i + 1;
    }
    proof {
        assert(out@ =~= hex_bytes(v@));
        assert(forall|i: int| 0 <= i < out@.len() ==> out@[i] < 128) by {
            assert(forall|i: int|
                0 <= i < hex_bytes(v@).len() ==> hex_bytes(v@)[i] == hex_digit(
                    v@[i / 2] / 16,
                ) || hex_bytes(v@)[i] == hex_digit(v@[i / 2] % 16));
        }
    }
    out
}

} // verus!
