//! Content digests used to tell whether a file changed.

use vstd::prelude::*;

verus! {

/// The BLAKE3 digest of `data` in lower-case hexadecimal.
pub uninterp spec fn blake3_hex(data: Seq<u8>) -> Seq<char>;

pub open spec fn is_lower_hex(c: char) -> bool {
    ('0' <= c && c <= '9') || ('a' <= c && c <= 'f')
}

/// Relies on `blake3::hash` and `Hash::to_hex`: the 32-byte digest as 64
/// lower-case hexadecimal digits, a function of the bytes alone.
#[verifier::external_body]
fn blake3_digest_hex(data: &[u8]) -> (r: String)
    ensures
        r@ == blake3_hex(data@),
        r@.len() == 64,
        forall|i: int| 0 <= i < r@.len() ==> is_lower_hex(#[trigger] r@[i]),
{
    blake3::hash(data).to_hex().to_string()
}

/// The digest that identifies a file's content: BLAKE3, as 64 lower-case
/// hexadecimal digits.
pub fn hash_bytes(data: &[u8]) -> (r: String)
    ensures
        r@ == blake3_hex(data@),
        r@.len() == 64,
        forall|i: int| 0 <= i < r@.len() ==> is_lower_hex(#[trigger] r@[i]),
{
    blake3_digest_hex(data)
}

} // verus!
