use vstd::prelude::*;

verus! {

/// Names the lowercase hexadecimal BLAKE3 digest of `data`, as
/// `blake3::hash(data).to_hex()` spells it.
pub uninterp spec fn blake3_hex(data: Seq<u8>) -> Seq<char>;

/// A lowercase hexadecimal digit.
pub open spec fn is_lower_hex_digit(c: char) -> bool {
    ('0' <= c && c <= '9') || ('a' <= c && c <= 'f')
}

/// Calls `blake3::hash` and `Hash::to_hex`. Trusted: the digest is named
/// `blake3_hex(data)`; that it has 64 characters, each a lowercase hex digit,
/// is what `to_hex` writes (two characters of `0123456789abcdef` for each of
/// the 32 bytes of the hash).
#[verifier::external_body]
fn blake3_hex_digest(data: &[u8]) -> (r: String)
    ensures
        r@ == blake3_hex(data@),
        r@.len() == 64,
        forall|i: int| 0 <= i < r@.len() ==> is_lower_hex_digit(#[trigger] r@[i]),
{
    blake3::hash(data).to_hex().to_string()
}

/// The BLAKE3 digest of an executable's contents, in lowercase hexadecimal:
/// the name of the directory its copy goes to.
pub fn to_hash(data: &[u8]) -> (r: String)
    ensures
        r@ == blake3_hex(data@),
        r@.len() == 64,
        forall|i: int| 0 <= i < r@.len() ==> is_lower_hex_digit(#[trigger] r@[i]),
{
    blake3_hex_digest(data)
}

} // verus!
