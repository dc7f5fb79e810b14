//! Content hashes.
use vstd::prelude::*;

use crate::text;

verus! {

/// The 64-bit XXH3 hash of bytes, with the default secret and seed zero.
pub uninterp spec fn xxh3(bytes: Seq<u8>) -> u64;

/// `xxhash_rust::xxh3::xxh3_64`: a function of the bytes alone, the same on
/// every machine. Which number it is for given bytes is left unsaid.
#[verifier::external_body]
pub(crate) fn xxh3_64(bytes: &[u8]) -> (h: u64)
    ensures
        h == xxh3(bytes@),
{
    xxhash_rust::xxh3::xxh3_64(bytes)
}

/// A hash as sixteen hexadecimal digits.
pub fn hash_text(h: u64) -> (r: String)
    ensures
        r@ == text::hex(h as nat, 16),
{
    let mut r = String::new();
    text::push_hex(&mut r, h, 16);
    proof {
        assert(r@ =~= text::hex(h as nat, 16));
    }
    r
}

/// The hash of content as sixteen hexadecimal digits.
pub fn content_hash(content: &[u8]) -> (r: String)
    ensures
        r@ == text::hex(xxh3(content@) as nat, 16),
{
    hash_text(xxh3_64(content))
}

} // verus!
