//! Global properties of the codec, stated and proved once.

use vstd::prelude::*;
use crate::words::{be_bytes, be_val, zero_bytes, lemma_be_val_split, lemma_be_val_zero};
use crate::hextext::{hex_bytes, lemma_hex_bytes_len};
use crate::normalize::{stripped, addr_text_valid, addr_bytes, fixed_hash_of_text, u256_text_valid, u256_text_val};
use crate::types::BuildIntentRequestModel;
use crate::codec::build_spec;

verus! {

/// Promoting an address to a fixed 32-byte hash zero-extends it: the
/// low-order 20 bytes hold the address, the high-order 12 bytes are zero,
/// and the value read as a 256-bit integer is the address's own.
pub proof fn lemma_address_promotion(s: Seq<char>)
    requires
        addr_text_valid(s),
    ensures
        fixed_hash_of_text(s) is Some,
        fixed_hash_of_text(s)->Some_0.len() == 32,
        fixed_hash_of_text(s)->Some_0.skip(12) == addr_bytes(s),
        forall|i: int| 0 <= i < 12 ==> fixed_hash_of_text(s)->Some_0[i] == 0,
        be_val(fixed_hash_of_text(s)->Some_0) == be_val(addr_bytes(s)),
{
    let t = stripped(s);
    lemma_hex_bytes_len(t);
    let h = zero_bytes(12) + hex_bytes(t);
    assert(h.skip(12) =~= hex_bytes(t));
    assert(h.take(12) =~= zero_bytes(12));
    lemma_be_val_split(h, 12);
    lemma_be_val_zero(12);
}

/// The hexadecimal and the decimal textual forms of one integer parse to
/// the same 32-byte word.
pub proof fn lemma_u256_text_forms_agree(h: Seq<char>, d: Seq<char>, n: nat)
    requires
        u256_text_valid(h),
        u256_text_valid(d),
        u256_text_val(h) == n,
        u256_text_val(d) == n,
    ensures
        be_bytes(u256_text_val(h), 32) == be_bytes(u256_text_val(d), 32),
{
}

/// The pipeline is a pure function of the request: equal requests give
/// byte-identical responses, whatever else differs between the two runs.
pub proof fn lemma_build_deterministic(m1: BuildIntentRequestModel, m2: BuildIntentRequestModel)
    requires
        m1 == m2,
    ensures
        build_spec(m1) == build_spec(m2),
{
}

} // verus!
