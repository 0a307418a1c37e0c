//! Big-endian 32-byte words: the unit of the contract-ABI encoding.
//!
//! A word is a byte sequence read as a base-256 numeral, most significant
//! byte first. `be_val` gives the numeral's value, `be_bytes` the canonical
//! byte form of a value at a given width.

use vstd::prelude::*;
use vstd::arithmetic::power::*;
use vstd::arithmetic::mul::*;
use vstd::arithmetic::div_mod::*;

verus! {

/// Value of a byte sequence read as a big-endian base-256 numeral.
pub open spec fn be_val(s: Seq<u8>) -> nat
    decreases s.len(),
{
    if s.len() == 0 {
        0
    } else {
        be_val(s.drop_last()) * 256 + (s.last() as nat)
    }
}

/// The low-order `len` base-256 digits of `n`, most significant first.
pub open spec fn be_bytes(n: nat, len: nat) -> Seq<u8>
    decreases len,
{
    if len == 0 {
        Seq::empty()
    } else {
        be_bytes(n / 256, (len - 1) as nat).push((n % 256) as u8)
    }
}

/// `n` zero bytes.
pub open spec fn zero_bytes(n: nat) -> Seq<u8> {
    Seq::new(n, |i: int| 0u8)
}

pub proof fn lemma_be_bytes_len(n: nat, len: nat)
    ensures
        be_bytes(n, len).len() == len,
    decreases len,
{
    if len > 0 {
        lemma_be_bytes_len(n / 256, (len - 1) as nat);
    }
}

pub proof fn lemma_be_val_bound(s: Seq<u8>)
    ensures
        be_val(s) < pow(256, s.len()),
    decreases s.len(),
{
    if s.len() == 0 {
        assert(pow(256, 0) == 1) by {
            lemma_pow0(256);
        }
    } else {
        lemma_be_val_bound(s.drop_last());
        lemma_pow_adds(256, (s.len() - 1) as nat, 1);
        lemma_pow1(256);
        lemma_mul_inequality(be_val(s.drop_last()) as int, pow(256, (s.len() - 1) as nat) - 1, 256);
    }
}

/// A byte sequence is the canonical form of its own value: two equal-length
/// sequences with the same `be_val` are therefore equal.
pub proof fn lemma_be_bytes_of_val(s: Seq<u8>)
    ensures
        be_bytes(be_val(s), s.len()) == s,
    decreases s.len(),
{
    if s.len() > 0 {
        lemma_be_bytes_of_val(s.drop_last());
        let v = be_val(s);
        assert(v == be_val(s.drop_last()) * 256 + (s.last() as nat));
        assert(v as int == 256 * (be_val(s.drop_last()) as int) + (s.last() as int)) by {
            lemma_mul_is_commutative(be_val(s.drop_last()) as int, 256);
        }
        lemma_fundamental_div_mod_converse(
            v as int,
            256,
            be_val(s.drop_last()) as int,
            s.last() as int,
        );
        assert(be_bytes(v, s.len()) =~= s);
    }
}

/// Splitting a numeral: the whole value is the high part shifted past the
/// low part, plus the low part.
pub proof fn lemma_be_val_split(s: Seq<u8>, k: int)
    requires
        0 <= k <= s.len(),
    ensures
        be_val(s) == be_val(s.take(k)) * pow(256, (s.len() - k) as nat) + be_val(s.skip(k)),
    decreases s.len(),
{
    if k == s.len() {
        assert(s.take(k) =~= s);
        assert(s.skip(k) =~= Seq::empty());
        lemma_pow0(256);
    } else {
        let d = s.drop_last();
        lemma_be_val_split(d, k);
        assert(d.take(k) =~= s.take(k));
        assert(d.skip(k) =~= s.skip(k).drop_last());
        let p = pow(256, (s.len() - 1 - k) as nat);
        let h = be_val(s.take(k)) as int;
        let lo = be_val(s.skip(k).drop_last()) as int;
        assert(be_val(s) == (h * p + lo) * 256 + (s.last() as nat));
        assert((h * p + lo) * 256 == h * p * 256 + lo * 256) by {
            lemma_mul_is_distributive_add_other_way(256, h * p, lo);
        }
        assert(h * p * 256 == h * (p * 256)) by {
            lemma_mul_is_associative(h, p as int, 256);
        }
        assert(p * 256 == pow(256, (s.len() - k) as nat)) by {
            lemma_pow_adds(256, (s.len() - 1 - k) as nat, 1);
            lemma_pow1(256);
        }
        assert(be_val(s.skip(k)) == lo * 256 + (s.last() as nat));
    }
}

pub proof fn lemma_be_val_zero(n: nat)
    ensures
        be_val(zero_bytes(n)) == 0,
    decreases n,
{
    if n > 0 {
        assert(zero_bytes(n).drop_last() =~= zero_bytes((n - 1) as nat));
        lemma_be_val_zero((n - 1) as nat);
    }
}

/// Reading a numeral one digit at a time multiplies the value so far by the
/// base and adds the new digit; this is the school-method step on a 32-byte
/// accumulator, with the carry that would leave the top byte reported as
/// overflow past 2^256.
pub fn word_mul_add(w: &mut Vec<u8>, base: u8, d: u8) -> (overflow: bool)
    requires
        old(w)@.len() == 32,
        2 <= base <= 16,
        d < base,
    ensures
        final(w)@.len() == 32,
        !overflow ==> be_val(final(w)@) == be_val(old(w)@) * (base as nat) + (d as nat),
        overflow ==> be_val(old(w)@) * (base as nat) + (d as nat) >= pow(256, 32),
{
    let mut carry: u16 = d as u16;
    let mut j: usize = 32;
    proof {
        assert(w@.skip(32) =~= Seq::<u8>::empty());
        assert(old(w)@.skip(32) =~= Seq::<u8>::empty());
        assert(be_val(Seq::<u8>::empty()) == 0);
        lemma_pow0(256);
        assert(pow(256, 0) == 1);
    }
    while j > 0
        invariant
            w@.len() == 32,
            old(w)@.len() == 32,
            j <= 32,
            2 <= base <= 16,
            d < base,
            carry <= base,
            w@.take(j as int) == old(w)@.take(j as int),
            be_val(w@.skip(j as int)) + (carry as nat) * pow(256, (32 - j) as nat)
                == be_val(old(w)@.skip(j as int)) * (base as nat) + (d as nat),
        decreases j,
    {
        j -= 1;
        proof {
            assert(w@.take(j as int + 1)[j as int] == old(w)@.take(j as int + 1)[j as int]);
            assert(w@[j as int] == old(w)@[j as int]);
            lemma_mul_upper_bound(w@[j as int] as int, 255, base as int, 16);
        }
        let t: u16 = (w[j] as u16) * (base as u16) + carry;
        let ghost w_pre = w@;
        let ghost carry_in = carry as nat;
        w.set(j, (t % 256) as u8);
        carry = t / 256;
        proof {
            lemma_mul_inequality(w_pre[j as int] as int, 255, base as int);
            assert(t as int <= 256 * (base as int));
            lemma_div_is_ordered(t as int, 256 * (base as int), 256);
            lemma_div_multiples_vanish(base as int, 256);
            assert(carry <= base);
            lemma_mul_add_step(
                old(w)@,
                w_pre,
                w@,
                j as int,
                base as nat,
                d as nat,
                t as nat,
                carry_in,
            );
        }
    }
    proof {
        assert(w@.skip(0) =~= w@);
        assert(old(w)@.skip(0) =~= old(w)@);
        if carry > 0 {
            lemma_pow_positive(256, 32);
            lemma_mul_inequality(1, carry as int, pow(256, 32));
        }
    }
    carry != 0
}

/// One digit-by-digit step of `word_mul_add`, relating the suffix values
/// before and after byte `j` is rewritten.
proof fn lemma_mul_add_step(
    orig: Seq<u8>,
    pre: Seq<u8>,
    post: Seq<u8>,
    j: int,
    base: nat,
    d: nat,
    t: nat,
    carry_in: nat,
)
    requires
        orig.len() == 32,
        pre.len() == 32,
        0 <= j < 32,
        pre.take(j + 1) == orig.take(j + 1),
        t == (orig[j] as nat) * base + carry_in,
        post == pre.update(j, (t % 256) as u8),
        be_val(pre.skip(j + 1)) + carry_in * pow(256, (31 - j) as nat)
            == be_val(orig.skip(j + 1)) * base + d,
    ensures
        post.take(j) == orig.take(j),
        be_val(post.skip(j)) + (t / 256) * pow(256, (32 - j) as nat)
            == be_val(orig.skip(j)) * base + d,
{
    let p = pow(256, (31 - j) as nat);
    assert(post.take(j) =~= orig.take(j));
    assert(post.skip(j + 1) =~= pre.skip(j + 1));
    assert(post[j] == (t % 256) as u8);
    assert(pre.take(j + 1)[j] == pre[j]);
    assert(orig.take(j + 1)[j] == orig[j]);
    assert(orig[j] == pre[j]);

    lemma_pow_adds(256, 1, (31 - j) as nat);
    lemma_pow1(256);
    assert(pow(256, (32 - j) as nat) == 256 * p);

    lemma_be_val_prepend(post.skip(j));
    assert(post.skip(j).skip(1) =~= post.skip(j + 1));
    assert(post.skip(j)[0] == (t % 256) as u8);
    lemma_be_val_prepend(orig.skip(j));
    assert(orig.skip(j).skip(1) =~= orig.skip(j + 1));
    assert(orig.skip(j)[0] == orig[j]);

    let lo = be_val(pre.skip(j + 1)) as int;
    let ob = orig[j] as int;
    let ohi = be_val(orig.skip(j + 1)) as int;
    let ti = t as int;
    let pi = p as int;
    let bi = base as int;

    // (t % 256) * p + (t / 256) * (256 * p) == t * p
    lemma_fundamental_div_mod(ti, 256);
    assert(ti * pi == (256 * (ti / 256) + ti % 256) * pi);
    lemma_mul_is_distributive_add_other_way(pi, 256 * (ti / 256), ti % 256);
    lemma_mul_is_associative(ti / 256, 256, pi);
    lemma_mul_is_commutative(ti / 256, 256);
    lemma_mul_is_associative(256, ti / 256, pi);
    assert((ti % 256) * pi + (ti / 256) * (256 * pi) == ti * pi);

    // t * p == ob * base * p + carry_in * p
    assert(ti == ob * bi + carry_in);
    lemma_mul_is_distributive_add_other_way(pi, ob * bi, carry_in as int);
    assert(ti * pi == (ob * bi) * pi + (carry_in as int) * pi);

    // (ob * base) * p == (ob * p) * base
    lemma_mul_is_associative(ob, bi, pi);
    lemma_mul_is_commutative(bi, pi);
    lemma_mul_is_associative(ob, pi, bi);
    assert((ob * bi) * pi == (ob * pi) * bi);

    // (ob * p + ohi) * base == (ob * p) * base + ohi * base
    lemma_mul_is_distributive_add_other_way(bi, ob * pi, ohi);
    assert(be_val(orig.skip(j)) as int == ob * pi + ohi);
    assert((be_val(orig.skip(j)) * base) as int == (ob * pi + ohi) * bi);
}

/// The first byte of a numeral carries the weight of all bytes after it.
pub proof fn lemma_be_val_prepend(s: Seq<u8>)
    requires
        s.len() >= 1,
    ensures
        be_val(s) == (s[0] as nat) * pow(256, (s.len() - 1) as nat) + be_val(s.skip(1)),
{
    lemma_be_val_split(s, 1);
    assert(s.take(1) =~= seq![s[0]]);
    assert(seq![s[0]].drop_last() =~= Seq::<u8>::empty());
    assert(be_val(Seq::<u8>::empty()) == 0);
    assert(be_val(seq![s[0]]) == be_val(seq![s[0]].drop_last()) * 256 + (seq![s[0]].last() as nat));
    assert(be_val(seq![s[0]]) == s[0] as nat);
}

/// The canonical `len`-byte form of a `u64`, most significant byte first.
pub fn be_bytes_u64(n: u64, len: usize) -> (r: Vec<u8>)
    ensures
        r@ == be_bytes(n as nat, len as nat),
        r@.len() == len,
    decreases len,
{
    proof {
        lemma_be_bytes_len(n as nat, len as nat);
    }
    if len == 0 {
        Vec::new()
    } else {
        let mut r = be_bytes_u64(n / 256, len - 1);
        r.push((n % 256) as u8);
        r
    }
}

} // verus!
