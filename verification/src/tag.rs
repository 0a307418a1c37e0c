//! Type-tag resolution: an order-type name, or an explicit 64-hex-digit
//! literal, becomes the 32-byte tag that identifies the order schema.

use vstd::prelude::*;
use crate::hextext::{all_hex, hex_bytes, hex_decode, lemma_hex_bytes_len};
use crate::normalize::{stripped, strip_hex_prefix};

verus! {

/// The 32-byte digest that tags an order schema, as a function of the
/// tag name's text alone; only the trusted wrapper below says which
/// bytes it is.
pub uninterp spec fn keccak_of_text(s: Seq<char>) -> Seq<u8>;

/// Relies on alloy_primitives::keccak256: the Keccak-256 digest of the
/// UTF-8 bytes of the text, 32 bytes, determined by the text alone.
#[verifier::external_body]
fn keccak256_of_str(s: &str) -> (r: Vec<u8>)
    ensures
        r@ == keccak_of_text(s@),
        r@.len() == 32,
{
    alloy_primitives::keccak256(s.as_bytes()).to_vec()
}

/// The resolved tag: exactly 64 hex digits, prefix aside, are the tag
/// verbatim; any other text is a type name and its digest is the tag.
pub open spec fn resolve_tag_spec(s: Seq<char>) -> Seq<u8> {
    let t = stripped(s);
    if t.len() == 64 && all_hex(t) {
        hex_bytes(t)
    } else {
        keccak_of_text(s)
    }
}

/// Map an order-type name or literal tag to the 32-byte tag.
pub fn resolve_order_data_type(value: &str) -> (r: Vec<u8>)
    ensures
        r@ == resolve_tag_spec(value@),
        r@.len() == 32,
{
    let t = strip_hex_prefix(value);
    if t.unicode_len() == 64 {
        if let Some(b) = hex_decode(t) {
            proof {
                lemma_hex_bytes_len(t@);
            }
            return b;
        }
    }
    keccak256_of_str(value)
}

} // verus!
