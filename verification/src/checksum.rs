//! Content checksums: every blob is addressed by the digest of its bytes.
use vstd::prelude::*;
use sha1::{Digest, Sha1};

verus! {

/// The hex-rendered digest that [`get_cheksum`] computes for the given
/// bytes. The digest is a pure function of the bytes alone, so two byte
/// sequences have equal checksums whenever they are equal; this is the
/// deduplication key of the whole store.
pub uninterp spec fn sha1_hex(bytes: Seq<u8>) -> Seq<char>;

/// Whether the character is a lowercase hexadecimal digit.
pub open spec fn is_lower_hex_digit(c: char) -> bool {
    (('0' as u32) <= (c as u32) && (c as u32) <= ('9' as u32)) || (('a' as u32) <= (c as u32) && (
    c as u32) <= ('f' as u32))
}

/// Relies on sha1's `Sha1` (`update`, `finalize`) and std's `LowerHex`
/// formatting of the digest: the result depends on the input bytes alone,
/// and renders the fixed 20-byte digest as two lowercase hexadecimal digits
/// per byte.
#[verifier::external_body]
pub fn get_cheksum(bytes: &[u8]) -> (r: String)
    ensures
        r@ == sha1_hex(bytes@),
        r@.len() == 40,
        forall|i: int| 0 <= i < r@.len() ==> is_lower_hex_digit(#[trigger] r@[i]),
{
    let mut hasher = Sha1::new();
    hasher.update(bytes);
    let hash = hasher.finalize();
    format!("{hash:x}")
}

} // verus!
