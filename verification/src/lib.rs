//! Canonical contract-ABI encoding of cross-chain value-transfer orders.
//!
//! The crate turns a loosely-typed textual description of a deposit order
//! into the exact binary layout a settlement contract expects: textual
//! addresses, fixed hashes, large integers and byte strings are normalized
//! into typed values, the order is serialized with a generic head/tail
//! tuple encoder, a 32-byte type tag is resolved, and the results are
//! rendered as prefixed hexadecimal text.

pub mod abi;
pub mod codec;
pub mod hextext;
pub mod laws;
pub mod normalize;
pub mod tag;
pub mod types;
pub mod words;
