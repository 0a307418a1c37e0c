//! The input normalizer: textual fields become typed values, and every
//! validation error of the codec originates here.
//!
//! An address is an optional "0x" prefix and exactly 40 hex digits; a
//! fixed 32-byte hash is 64 hex digits, or an address promoted by zero
//! extension into the high-order 12 bytes; an unsigned 256-bit integer is
//! "0x"-prefixed hexadecimal or unprefixed decimal; a byte string is an
//! even number of hex digits.

use vstd::prelude::*;
use vstd::string::*;
use vstd::arithmetic::power::pow;
use vstd::arithmetic::mul::lemma_mul_inequality;
use crate::words::{be_bytes, be_val, zero_bytes, word_mul_add, lemma_be_val_zero, lemma_be_val_bound, lemma_be_bytes_of_val};
use crate::hextext::{is_hex_char, hex_char_val, all_hex, hex_bytes, hex_char_value};
use crate::types::{ServiceError, ServiceErrorModel};

verus! {

pub open spec fn has_hex_prefix(s: Seq<char>) -> bool {
    s.len() >= 2 && s[0] == '0' && s[1] == 'x'
}

/// The text with an optional "0x" prefix removed.
pub open spec fn stripped(s: Seq<char>) -> Seq<char> {
    if has_hex_prefix(s) {
        s.skip(2)
    } else {
        s
    }
}

pub open spec fn addr_text_valid(s: Seq<char>) -> bool {
    stripped(s).len() == 40 && all_hex(stripped(s))
}

/// The 20 bytes an address text denotes.
pub open spec fn addr_bytes(s: Seq<char>) -> Seq<u8> {
    hex_bytes(stripped(s))
}

/// The 32 bytes a fixed-hash field denotes: 64 hex digits taken verbatim,
/// or 40 hex digits read as an address and zero-extended — the address
/// occupies the low-order 20 bytes, the high-order 12 bytes are zero.
pub open spec fn fixed_hash_of_text(s: Seq<char>) -> Option<Seq<u8>> {
    let t = stripped(s);
    if t.len() == 40 {
        if all_hex(t) {
            Some(zero_bytes(12) + hex_bytes(t))
        } else {
            None
        }
    } else if t.len() == 64 && all_hex(t) {
        Some(hex_bytes(t))
    } else {
        None
    }
}

pub open spec fn is_dec_char(c: char) -> bool {
    ('0' as u32) <= (c as u32) && (c as u32) <= ('9' as u32)
}

pub open spec fn all_dec(s: Seq<char>) -> bool {
    forall|i: int| 0 <= i < s.len() ==> is_dec_char(#[trigger] s[i])
}

/// Value of a digit string in the given base, most significant digit
/// first.
pub open spec fn radix_val(s: Seq<char>, base: nat) -> nat
    decreases s.len(),
{
    if s.len() == 0 {
        0
    } else {
        radix_val(s.drop_last(), base) * base + hex_char_val(s.last())
    }
}

/// A 256-bit integer text: hexadecimal when "0x"-prefixed, else decimal;
/// at least one digit, and a value below 2^256.
pub open spec fn u256_text_valid(s: Seq<char>) -> bool {
    if has_hex_prefix(s) {
        s.skip(2).len() > 0 && all_hex(s.skip(2)) && radix_val(s.skip(2), 16) < pow(256, 32)
    } else {
        s.len() > 0 && all_dec(s) && radix_val(s, 10) < pow(256, 32)
    }
}

pub open spec fn u256_text_val(s: Seq<char>) -> nat {
    if has_hex_prefix(s) {
        radix_val(s.skip(2), 16)
    } else {
        radix_val(s, 10)
    }
}

pub open spec fn bytes_of_text(s: Seq<char>) -> Option<Seq<u8>> {
    let t = stripped(s);
    if t.len() % 2 == 0 && all_hex(t) {
        Some(hex_bytes(t))
    } else {
        None
    }
}

proof fn lemma_radix_prefix_monotone(s: Seq<char>, base: nat, a: int, b: int)
    requires
        1 <= base,
        0 <= a <= b <= s.len(),
    ensures
        radix_val(s.take(a), base) <= radix_val(s.take(b), base),
    decreases b,
{
    if a < b {
        lemma_radix_prefix_monotone(s, base, a, b - 1);
        assert(s.take(b).drop_last() =~= s.take(b - 1));
        let v = radix_val(s.take(b - 1), base);
        assert(v * 1 <= v * base) by {
            lemma_mul_inequality(1, base as int, v as int);
        }
    }
}

pub(crate) fn strip_hex_prefix<'a>(s: &'a str) -> (r: &'a str)
    ensures
        r@ == stripped(s@),
{
    let n = s.unicode_len();
    if n >= 2 {
        let c0 = s.get_char(0);
        let c1 = s.get_char(1);
        if c0 == '0' && c1 == 'x' {
            let r = s.substring_char(2, n);
            proof {
                assert(r@ =~= s@.skip(2));
            }
            return r;
        }
    }
    s
}

/// Does the text, prefix aside, have the length of an address?
pub fn is_address(value: &str) -> (r: bool)
    ensures
        r == (stripped(value@).len() == 40),
{
    let t = strip_hex_prefix(value);
    t.unicode_len() == 40
}

/// Does the text, prefix aside, have the length of a 32-byte hash?
pub fn is_hex_bytes32(value: &str) -> (r: bool)
    ensures
        r == (stripped(value@).len() == 64),
{
    let t = strip_hex_prefix(value);
    t.unicode_len() == 64
}

/// Parse an address: optional prefix, then exactly 40 hex digits.
pub fn parse_address(value: &str) -> (r: Result<Vec<u8>, ServiceError>)
    ensures
        match r {
            Ok(b) => addr_text_valid(value@) && b@ == addr_bytes(value@) && b@.len() == 20,
            Err(e) => !addr_text_valid(value@) && e@ == ServiceErrorModel::InvalidAddress(value@),
        },
{
    let t = strip_hex_prefix(value);
    if t.unicode_len() != 40 {
        return Err(ServiceError::InvalidAddress(String::from_str(value)));
    }
    match crate::hextext::hex_decode(t) {
        Some(b) => {
            proof {
                crate::hextext::lemma_hex_bytes_len(t@);
            }
            Ok(b)
        },
        None => Err(ServiceError::InvalidAddress(String::from_str(value))),
    }
}

/// Parse a fixed-hash field: 64 hex digits verbatim, or an address
/// zero-extended into 32 bytes.
pub fn parse_b256_or_address(value: &str) -> (r: Result<Vec<u8>, ServiceError>)
    ensures
        match r {
            Ok(b) => fixed_hash_of_text(value@) == Some(b@) && b@.len() == 32,
            Err(e) => fixed_hash_of_text(value@) is None && e@ == (if stripped(value@).len()
                == 40 {
                ServiceErrorModel::InvalidAddress(value@)
            } else {
                ServiceErrorModel::InvalidFixedHash(value@)
            }),
        },
{
    let t = strip_hex_prefix(value);
    let m = t.unicode_len();
    if m == 40 {
        match crate::hextext::hex_decode(t) {
            Some(mut b) => {
                proof {
                    crate::hextext::lemma_hex_bytes_len(t@);
                }
                let mut r: Vec<u8> = vec![0u8; 12];
                proof {
                    assert(r@ =~= zero_bytes(12));
                }
                r.append(&mut b);
                Ok(r)
            },
            None => Err(ServiceError::InvalidAddress(String::from_str(value))),
        }
    } else if m == 64 {
        match crate::hextext::hex_decode(t) {
            Some(b) => {
                proof {
                    crate::hextext::lemma_hex_bytes_len(t@);
                }
                Ok(b)
            },
            None => Err(ServiceError::InvalidFixedHash(String::from_str(value))),
        }
    } else {
        Err(ServiceError::InvalidFixedHash(String::from_str(value)))
    }
}

fn dec_char_value(c: char) -> (r: Option<u8>)
    ensures
        match r {
            Some(v) => is_dec_char(c) && v == hex_char_val(c) && v < 10,
            None => !is_dec_char(c),
        },
{
    let u = c as u32;
    if 48 <= u && u <= 57 {
        Some((u - 48) as u8)
    } else {
        None
    }
}

/// Parse an unsigned 256-bit integer: base 16 when "0x"-prefixed, else
/// base 10; rejected on any other character, an empty digit run, or a
/// value of 2^256 or more.
pub fn parse_u256(value: &str) -> (r: Result<Vec<u8>, ServiceError>)
    ensures
        match r {
            Ok(b) => u256_text_valid(value@) && b@ == be_bytes(u256_text_val(value@), 32),
            Err(e) => !u256_text_valid(value@) && e@ == ServiceErrorModel::InvalidNumber(value@),
        },
{
    let n = value.unicode_len();
    let prefixed = n >= 2 && value.get_char(0) == '0' && value.get_char(1) == 'x';
    proof {
        assert(prefixed == has_hex_prefix(value@));
    }
    let t = if prefixed {
        let tt = value.substring_char(2, n);
        proof {
            assert(tt@ =~= value@.skip(2));
        }
        tt
    } else {
        value
    };
    let m = t.unicode_len();
    if m == 0 {
        return Err(ServiceError::InvalidNumber(String::from_str(value)));
    }
    let base: u8 = if prefixed {
        16
    } else {
        10
    };
    let mut w: Vec<u8> = vec![0u8; 32];
    proof {
        assert(w@ =~= zero_bytes(32));
        lemma_be_val_zero(32);
        assert(t@.take(0) =~= Seq::<char>::empty());
    }
    let mut i: usize = 0;
    while i < m
        invariant
            m == t@.len(),
            t@ == (if prefixed {
                value@.skip(2)
            } else {
                value@
            }),
            prefixed == has_hex_prefix(value@),
            base == (if prefixed {
                16u8
            } else {
                10u8
            }),
            i <= m,
            w@.len() == 32,
            be_val(w@) == radix_val(t@.take(i as int), base as nat),
            forall|j: int|
                0 <= j < i as int ==> (if prefixed {
                    is_hex_char(#[trigger] t@[j])
                } else {
                    is_dec_char(#[trigger] t@[j])
                }),
        decreases m - i,
    {
        let c = t.get_char(i);
        let d_opt = if prefixed {
            hex_char_value(c)
        } else {
            dec_char_value(c)
        };
        let d = match d_opt {
            Some(d) => d,
            None => {
                return Err(ServiceError::InvalidNumber(String::from_str(value)));
            },
        };
        let overflow = word_mul_add(&mut w, base, d);
        proof {
            let tk = t@.take(i as int + 1);
            assert(tk.drop_last() =~= t@.take(i as int));
            assert(tk.last() == t@[i as int]);
            assert(radix_val(tk, base as nat) == radix_val(t@.take(i as int), base as nat) * (
            base as nat) + hex_char_val(t@[i as int]));
        }
        if overflow {
            proof {
                lemma_radix_prefix_monotone(t@, base as nat, i as int + 1, m as int);
                assert(t@.take(m as int) =~= t@);
            }
            return Err(ServiceError::InvalidNumber(String::from_str(value)));
        }
        i += 1;
    }
    proof {
        assert(t@.take(m as int) =~= t@);
        lemma_be_val_bound(w@);
        lemma_be_bytes_of_val(w@);
    }
    Ok(w)
}

/// Parse a byte string: optional prefix, then an even number of hex
/// digits; the empty string denotes the empty byte string.
pub fn parse_bytes(value: &str) -> (r: Result<Vec<u8>, ServiceError>)
    ensures
        match r {
            Ok(b) => bytes_of_text(value@) == Some(b@),
            Err(e) => bytes_of_text(value@) is None && e@ == ServiceErrorModel::InvalidBytes(
                stripped(value@),
            ),
        },
{
    let t = strip_hex_prefix(value);
    match crate::hextext::hex_decode(t) {
        Some(b) => Ok(b),
        None => Err(ServiceError::InvalidBytes(String::from_str(t))),
    }
}

} // verus!

