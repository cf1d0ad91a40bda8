//! SHA-256 and hexadecimal notation.

use sha2::{Digest, Sha256};
use vstd::prelude::*;

use crate::text;

verus! {

/// The SHA-256 digest of a message.
pub uninterp spec fn sha256_of(message: Seq<u8>) -> Seq<u8>;

/// `Sha256::digest` of the `sha2` crate: the digest depends on the message
/// alone, and is 32 bytes long.
#[verifier::external_body]
pub(crate) fn sha256(message: &[u8]) -> (digest: Vec<u8>)
    ensures
        digest@ == sha256_of(message@),
        digest@.len() == 32,
{
    Sha256::digest(message).to_vec()
}

/// The lower-case hexadecimal digit of a number below sixteen.
pub open spec fn hex_digit(n: nat) -> char {
    if n < 10 {
        ('0' as nat + n) as char
    } else {
        ('a' as nat + (n - 10)) as char
    }
}

/// Two lower-case digits for each byte, the high half first.
pub open spec fn hex_of(data: Seq<u8>) -> Seq<char> {
    Seq::new(
        2 * data.len(),
        |i: int|
            if i % 2 == 0 {
                hex_digit((data[i / 2] / 16) as nat)
            } else {
                hex_digit((data[i / 2] % 16) as nat)
            },
    )
}

/// `hex::encode` writes two lower-case hexadecimal digits for each byte.
#[verifier::external_body]
pub(crate) fn hex_lower(data: &[u8]) -> (text: String)
    ensures
        text@ == hex_of(data@),
{
    hex::encode(data)
}

/// Hexadecimal notation reads back: each two digits, both in lower case, spell
/// the byte that they stand for.
pub proof fn law_hexadecimal_reads_back(data: Seq<u8>)
    ensures
        hex_of(data).len() == 2 * data.len(),
        forall|i: int|
            0 <= i < data.len() ==> text::digit_value(hex_of(data)[2 * i], 16)->0 * 16
                + text::digit_value(hex_of(data)[2 * i + 1], 16)->0 == #[trigger] data[i],
        forall|i: int|
            0 <= i < 2 * data.len() ==> '0' <= #[trigger] hex_of(data)[i] <= '9' || 'a' <= hex_of(
                data,
            )[i] <= 'f',
{
    let h = hex_of(data);
    assert forall|i: int| 0 <= i < data.len() implies text::digit_value(h[2 * i], 16)->0 * 16
        + text::digit_value(h[2 * i + 1], 16)->0 == #[trigger] data[i] by {
        assert((2 * i) / 2 == i && (2 * i) % 2 == 0);
        assert((2 * i + 1) / 2 == i && (2 * i + 1) % 2 == 1);
    }
}

/// A fingerprint spells all 32 bytes of the key's SHA-256 digest.
pub proof fn law_fingerprint_spells_digest(spki: &[u8], fingerprint: String)
    requires
        call_ensures(spki_fingerprint, (spki,), fingerprint),
    ensures
        fingerprint@.len() == 64,
        sha256_of(spki@).len() == 32,
        forall|i: int|
            0 <= i < 32 ==> text::digit_value(fingerprint@[2 * i], 16)->0 * 16 + text::digit_value(
                fingerprint@[2 * i + 1],
                16,
            )->0 == #[trigger] sha256_of(spki@)[i],
{
    law_hexadecimal_reads_back(sha256_of(spki@));
}

/// The fingerprint of a public key: the digest of its encoding in hexadecimal.
pub fn spki_fingerprint(spki: &[u8]) -> (text: String)
    ensures
        text@ == hex_of(sha256_of(spki@)),
        text@.len() == 64,
{
    hex_lower(sha256(spki).as_slice())
}

} // verus!
