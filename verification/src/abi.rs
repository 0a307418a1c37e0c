//! The contract-ABI tuple encoder.
//!
//! A tuple's fields are classified static (a 32-byte word stored in place)
//! or dynamic (a self-contained encoding referenced by offset). The tuple's
//! encoding is a head — one word per field, in declaration order, holding
//! the value of a static field or the byte offset of a dynamic field's
//! data, measured from the start of the tuple's own encoding — followed by
//! the tail: the dynamic fields' encodings concatenated in the same order.

use vstd::prelude::*;
use crate::words::{be_bytes, be_bytes_u64, zero_bytes, lemma_be_bytes_len};

verus! {

/// One tuple field, classified; a dynamic field carries its own
/// self-contained encoding.
pub enum AbiField {
    Static(Vec<u8>),
    Dynamic(Vec<u8>),
}

/// Specification-level form of a field.
pub ghost enum FieldModel {
    Static(Seq<u8>),
    Dynamic(Seq<u8>),
}

impl View for AbiField {
    type V = FieldModel;

    open spec fn view(&self) -> FieldModel {
        match self {
            AbiField::Static(w) => FieldModel::Static(w@),
            AbiField::Dynamic(b) => FieldModel::Dynamic(b@),
        }
    }
}

pub open spec fn models(fs: Seq<AbiField>) -> Seq<FieldModel> {
    fs.map_values(|f: AbiField| f@)
}

pub open spec fn field_wf(f: FieldModel) -> bool {
    match f {
        FieldModel::Static(w) => w.len() == 32,
        FieldModel::Dynamic(b) => b.len() % 32 == 0,
    }
}

pub open spec fn fields_wf(fs: Seq<FieldModel>) -> bool {
    forall|i: int| 0 <= i < fs.len() ==> field_wf(#[trigger] fs[i])
}

/// Total length of the dynamic data of the first `i` fields: the offset,
/// within the tail, of the `i`-th field's data if that field is dynamic.
pub open spec fn tail_len_before(fs: Seq<FieldModel>, i: int) -> nat
    decreases i,
{
    if i <= 0 {
        0
    } else {
        tail_len_before(fs, i - 1) + (match fs[i - 1] {
            FieldModel::Dynamic(b) => b.len(),
            FieldModel::Static(_) => 0,
        })
    }
}

/// The head word of field `j`: a static value in place, or the offset of
/// the field's data from the start of the tuple's encoding.
pub open spec fn head_word(fs: Seq<FieldModel>, j: int) -> Seq<u8> {
    match fs[j] {
        FieldModel::Static(w) => w,
        FieldModel::Dynamic(_) => be_bytes(32 * fs.len() + tail_len_before(fs, j), 32),
    }
}

/// Head words of the first `i` fields, concatenated in declaration order.
pub open spec fn head_part(fs: Seq<FieldModel>, i: int) -> Seq<u8>
    decreases i,
{
    if i <= 0 {
        Seq::empty()
    } else {
        head_part(fs, i - 1) + head_word(fs, i - 1)
    }
}

/// Dynamic data of the first `i` fields, concatenated in declaration order.
pub open spec fn tail_part(fs: Seq<FieldModel>, i: int) -> Seq<u8>
    decreases i,
{
    if i <= 0 {
        Seq::empty()
    } else {
        tail_part(fs, i - 1) + (match fs[i - 1] {
            FieldModel::Dynamic(b) => b,
            FieldModel::Static(_) => Seq::empty(),
        })
    }
}

/// The canonical encoding of a tuple: head, then tail, no padding between.
pub open spec fn tuple_enc(fs: Seq<FieldModel>) -> Seq<u8> {
    head_part(fs, fs.len() as int) + tail_part(fs, fs.len() as int)
}

/// A dynamic byte string's self-contained encoding: one length word, then
/// the raw bytes, zero-padded to the next 32-byte boundary.
pub open spec fn pad_len(n: nat) -> nat {
    if n % 32 == 0 {
        0
    } else {
        (32 - n % 32) as nat
    }
}

pub open spec fn bytes_enc(b: Seq<u8>) -> Seq<u8> {
    be_bytes(b.len(), 32) + b + zero_bytes(pad_len(b.len()))
}

/// Number of dynamic fields among the first `i`.
pub open spec fn n_dyn(fs: Seq<FieldModel>, i: int) -> nat
    decreases i,
{
    if i <= 0 {
        0
    } else {
        n_dyn(fs, i - 1) + (if fs[i - 1] is Dynamic {
            1nat
        } else {
            0nat
        })
    }
}

/// The head during encoding, after the offsets of the first `k` dynamic
/// fields have been filled in; the rest still hold zero placeholders.
pub open spec fn word_at(fs: Seq<FieldModel>, k: nat, j: int) -> Seq<u8> {
    match fs[j] {
        FieldModel::Static(w) => w,
        FieldModel::Dynamic(_) => if n_dyn(fs, j) < k {
            head_word(fs, j)
        } else {
            zero_bytes(32)
        },
    }
}

pub open spec fn mixed_upto(fs: Seq<FieldModel>, k: nat, i: int) -> Seq<u8>
    decreases i,
{
    if i <= 0 {
        Seq::empty()
    } else {
        mixed_upto(fs, k, i - 1) + word_at(fs, k, i - 1)
    }
}

proof fn lemma_word_lens(fs: Seq<FieldModel>, k: nat, j: int)
    requires
        fields_wf(fs),
        0 <= j < fs.len(),
    ensures
        head_word(fs, j).len() == 32,
        word_at(fs, k, j).len() == 32,
{
    assert(field_wf(fs[j]));
    lemma_be_bytes_len(32 * fs.len() + tail_len_before(fs, j), 32);
}

proof fn lemma_mixed_len(fs: Seq<FieldModel>, k: nat, i: int)
    requires
        fields_wf(fs),
        0 <= i <= fs.len(),
    ensures
        mixed_upto(fs, k, i).len() == 32 * i,
    decreases i,
{
    if i > 0 {
        lemma_mixed_len(fs, k, i - 1);
        lemma_word_lens(fs, k, i - 1);
    }
}

pub proof fn lemma_tail_part_len(fs: Seq<FieldModel>, i: int)
    requires
        0 <= i <= fs.len(),
    ensures
        tail_part(fs, i).len() == tail_len_before(fs, i),
    decreases i,
{
    if i > 0 {
        lemma_tail_part_len(fs, i - 1);
    }
}

proof fn lemma_tail_len_monotone(fs: Seq<FieldModel>, a: int, b: int)
    requires
        0 <= a <= b,
    ensures
        tail_len_before(fs, a) <= tail_len_before(fs, b),
    decreases b,
{
    if a < b {
        lemma_tail_len_monotone(fs, a, b - 1);
    }
}

proof fn lemma_n_dyn_monotone(fs: Seq<FieldModel>, a: int, b: int)
    requires
        0 <= a <= b,
    ensures
        n_dyn(fs, a) <= n_dyn(fs, b),
    decreases b,
{
    if a < b {
        lemma_n_dyn_monotone(fs, a, b - 1);
    }
}

/// Each dynamic field's rank among the dynamic fields identifies it.
proof fn lemma_rank_unique(fs: Seq<FieldModel>, j1: int, j2: int)
    requires
        0 <= j1 < j2 < fs.len(),
        fs[j1] is Dynamic,
        fs[j2] is Dynamic,
    ensures
        n_dyn(fs, j1) < n_dyn(fs, j2),
{
    assert(n_dyn(fs, j1 + 1) == n_dyn(fs, j1) + 1);
    lemma_n_dyn_monotone(fs, j1 + 1, j2);
}

/// The word of field `j` inside the partially filled head.
proof fn lemma_mixed_index(fs: Seq<FieldModel>, k: nat, i: int, j: int)
    requires
        fields_wf(fs),
        0 <= j < i <= fs.len(),
    ensures
        mixed_upto(fs, k, i).subrange(32 * j, 32 * j + 32) == word_at(fs, k, j),
    decreases i,
{
    lemma_mixed_len(fs, k, i - 1);
    lemma_word_lens(fs, k, i - 1);
    lemma_word_lens(fs, k, j);
    if j == i - 1 {
        assert(mixed_upto(fs, k, i).subrange(32 * j, 32 * j + 32) =~= word_at(fs, k, j));
    } else {
        lemma_mixed_index(fs, k, i - 1, j);
        assert(mixed_upto(fs, k, i).subrange(32 * j, 32 * j + 32) =~= mixed_upto(
            fs,
            k,
            i - 1,
        ).subrange(32 * j, 32 * j + 32));
    }
}

/// Once every dynamic offset is filled in, the head is the real head.
proof fn lemma_mixed_full(fs: Seq<FieldModel>, k: nat, i: int)
    requires
        fields_wf(fs),
        0 <= i <= fs.len(),
        k >= n_dyn(fs, i),
    ensures
        mixed_upto(fs, k, i) == head_part(fs, i),
    decreases i,
{
    if i > 0 {
        assert(n_dyn(fs, i - 1) <= n_dyn(fs, i));
        lemma_mixed_full(fs, k, i - 1);
        if fs[i - 1] is Dynamic {
            assert(n_dyn(fs, i) == n_dyn(fs, i - 1) + 1);
            assert(n_dyn(fs, i - 1) < k);
        }
        assert(word_at(fs, k, i - 1) == head_word(fs, i - 1));
    }
}

/// Filling in the offset of the dynamic field of rank `k` rewrites exactly
/// that field's head word.
proof fn lemma_mixed_patch(fs: Seq<FieldModel>, k: nat, j: int)
    requires
        fields_wf(fs),
        0 <= j < fs.len(),
        fs[j] is Dynamic,
        n_dyn(fs, j) == k,
    ensures
        mixed_upto(fs, k + 1, fs.len() as int) == mixed_upto(fs, k, fs.len() as int).take(32 * j)
            + head_word(fs, j) + mixed_upto(fs, k, fs.len() as int).skip(32 * j + 32),
{
    let n = fs.len() as int;
    let a = mixed_upto(fs, k + 1, n);
    let b = mixed_upto(fs, k, n);
    lemma_mixed_len(fs, k + 1, n);
    lemma_mixed_len(fs, k, n);
    lemma_word_lens(fs, k, j);
    let rhs = b.take(32 * j) + head_word(fs, j) + b.skip(32 * j + 32);
    assert forall|idx: int| 0 <= idx < 32 * n implies a[idx] == rhs[idx] by {
        let j2 = idx / 32;
        let m = idx % 32;
        vstd::arithmetic::div_mod::lemma_fundamental_div_mod(idx, 32);
        assert(idx == 32 * j2 + m);
        assert(0 <= m < 32);
        assert(0 <= j2 < n);
        lemma_mixed_index(fs, k + 1, n, j2);
        lemma_mixed_index(fs, k, n, j2);
        lemma_word_lens(fs, k, j2);
        assert(a[idx] == a.subrange(32 * j2, 32 * j2 + 32)[m]);
        assert(a[idx] == word_at(fs, k + 1, j2)[m]);
        assert(b[idx] == word_at(fs, k, j2)[m]);
        if j2 == j {
            assert(word_at(fs, k + 1, j2) == head_word(fs, j));
            assert(rhs[idx] == head_word(fs, j)[idx - 32 * j]);
        } else {
            if fs[j2] is Dynamic {
                if j2 < j {
                    lemma_rank_unique(fs, j2, j);
                } else {
                    lemma_rank_unique(fs, j, j2);
                }
                assert(n_dyn(fs, j2) != k);
            }
            assert(word_at(fs, k + 1, j2) == word_at(fs, k, j2));
            if idx < 32 * j {
                assert(rhs[idx] == b[idx]);
            } else {
                assert(idx >= 32 * j + 32);
                assert(rhs[idx] == b.skip(32 * j + 32)[idx - (32 * j + 32)]);
                assert(rhs[idx] == b[idx]);
            }
        }
    }
    assert(a =~= rhs);
}

proof fn lemma_tail_len_mod(fs: Seq<FieldModel>, i: int)
    requires
        fields_wf(fs),
        0 <= i <= fs.len(),
    ensures
        tail_len_before(fs, i) % 32 == 0,
    decreases i,
{
    if i > 0 {
        lemma_tail_len_mod(fs, i - 1);
        let prev = tail_len_before(fs, i - 1);
        assert(field_wf(fs[i - 1]));
        match fs[i - 1] {
            FieldModel::Dynamic(b) => {
                vstd::arithmetic::div_mod::lemma_add_mod_noop(prev as int, b.len() as int, 32);
            },
            FieldModel::Static(_) => {},
        }
    }
}

/// A tuple's encoding is one word per field plus its dynamic data, and a
/// whole number of words long.
pub proof fn lemma_tuple_enc_len(fs: Seq<FieldModel>)
    requires
        fields_wf(fs),
    ensures
        tuple_enc(fs).len() == 32 * fs.len() + tail_len_before(fs, fs.len() as int),
        tuple_enc(fs).len() % 32 == 0,
{
    let n = fs.len() as int;
    lemma_mixed_full(fs, n_dyn(fs, n), n);
    lemma_mixed_len(fs, n_dyn(fs, n), n);
    lemma_tail_part_len(fs, n);
    lemma_tail_len_mod(fs, n);
    vstd::arithmetic::div_mod::lemma_mod_multiples_basic(n, 32);
    vstd::arithmetic::div_mod::lemma_add_mod_noop(
        32 * n,
        tail_len_before(fs, n) as int,
        32,
    );
}

pub proof fn lemma_bytes_enc_len(b: Seq<u8>)
    ensures
        bytes_enc(b).len() == 32 + b.len() + pad_len(b.len()),
        bytes_enc(b).len() % 32 == 0,
{
    lemma_be_bytes_len(b.len(), 32);
    vstd::arithmetic::div_mod::lemma_fundamental_div_mod(b.len() as int, 32);
    vstd::arithmetic::div_mod::lemma_mod_multiples_basic(b.len() as int / 32 + 1, 32);
    vstd::arithmetic::div_mod::lemma_mod_multiples_basic(b.len() as int / 32, 32);
}

pub(crate) fn copy_bytes(v: &Vec<u8>) -> (r: Vec<u8>)
    ensures
        r@ == v@,
{
    let mut r: Vec<u8> = Vec::new();
    let mut i: usize = 0;
    while i < v.len()
        invariant
            i <= v@.len(),
            r@ == v@.take(i as int),
        decreases v@.len() - i,
    {
        r.push(v[i]);
        proof {
            assert(v@.take(i as int + 1) =~= v@.take(i as int).push(v@[i as int]));
        }
        i += 1;
    }
    proof {
        assert(v@.take(v@.len() as int) =~= v@);
    }
    r
}

fn write_word(buf: &mut Vec<u8>, pos: usize, w: &Vec<u8>)
    requires
        w@.len() == 32,
        pos as int + 32 <= old(buf)@.len(),
    ensures
        final(buf)@ == old(buf)@.take(pos as int) + w@ + old(buf)@.skip(pos as int + 32),
{
    let buf_len = buf.len();
    let mut k: usize = 0;
    while k < 32
        invariant
            buf@.len() == old(buf)@.len(),
            buf@.len() == buf_len as nat,
            pos as int + 32 <= buf@.len(),
            w@.len() == 32,
            k <= 32,
            forall|idx: int|
                0 <= idx < buf@.len() && !(pos as int <= idx < pos as int + k as int)
                    ==> buf@[idx] == old(buf)@[idx],
            forall|m: int| 0 <= m < k as int ==> buf@[pos as int + m] == w@[m],
        decreases 32 - k,
    {
        buf.set(pos + k, w[k]);
        k += 1;
    }
    proof {
        assert(buf@ =~= old(buf)@.take(pos as int) + w@ + old(buf)@.skip(pos as int + 32));
    }
}

/// Lay out a tuple's encoding: first the static words and zero
/// placeholders followed by the dynamic data, then each dynamic field's
/// offset filled into its head word.
pub fn encode_tuple(fields: &Vec<AbiField>) -> (r: Vec<u8>)
    requires
        fields_wf(models(fields@)),
    ensures
        r@ == tuple_enc(models(fields@)),
{
    let ghost fs = models(fields@);
    let n = fields.len();
    let mut head: Vec<u8> = Vec::new();
    let mut tail: Vec<u8> = Vec::new();
    let mut fixes: Vec<(usize, usize)> = Vec::new();
    let ghost mut dyn_idx: Seq<int> = Seq::empty();
    let mut i: usize = 0;
    while i < n
        invariant
            fields_wf(fs),
            fs == models(fields@),
            n == fields@.len(),
            i <= n,
            head@ == mixed_upto(fs, 0, i as int),
            head@.len() == 32 * i,
            tail@ == tail_part(fs, i as int),
            fixes@.len() == n_dyn(fs, i as int),
            dyn_idx.len() == fixes@.len(),
            forall|r: int|
                0 <= r < dyn_idx.len() ==> #[trigger] dyn_idx[r] < i as int && 0 <= dyn_idx[r]
                    && fs[dyn_idx[r]] is Dynamic && n_dyn(fs, dyn_idx[r]) == r
                    && fixes@[r].0 == 32 * dyn_idx[r] && fixes@[r].1 == tail_len_before(
                    fs,
                    dyn_idx[r],
                ),
        decreases n - i,
    {
        proof {
            assert(fs[i as int] == fields@[i as int]@);
            lemma_tail_part_len(fs, i as int);
        }
        let hp = head.len();
        let tp = tail.len();
        match &fields[i] {
            AbiField::Static(w) => {
                let mut ww = copy_bytes(w);
                head.append(&mut ww);
            },
            AbiField::Dynamic(b) => {
                fixes.push((hp, tp));
                proof {
                    dyn_idx = dyn_idx.push(i as int);
                }
                let mut zz: Vec<u8> = vec![0u8; 32];
                proof {
                    assert(zz@ =~= zero_bytes(32));
                }
                head.append(&mut zz);
                let mut bb = copy_bytes(b);
                tail.append(&mut bb);
            },
        }
        i += 1;
    }
    let head_len = head.len();
    let mut res = head;
    res.append(&mut tail);
    proof {
        lemma_tail_part_len(fs, n as int);
        lemma_mixed_len(fs, 0, n as int);
    }
    let mut r2: usize = 0;
    while r2 < fixes.len()
        invariant
            fields_wf(fs),
            n == fs.len(),
            r2 <= fixes@.len(),
            fixes@.len() == n_dyn(fs, n as int),
            dyn_idx.len() == fixes@.len(),
            head_len as int == 32 * (n as int),
            forall|r: int|
                0 <= r < dyn_idx.len() ==> #[trigger] dyn_idx[r] < n as int && 0 <= dyn_idx[r]
                    && fs[dyn_idx[r]] is Dynamic && n_dyn(fs, dyn_idx[r]) == r
                    && fixes@[r].0 == 32 * dyn_idx[r] && fixes@[r].1 == tail_len_before(
                    fs,
                    dyn_idx[r],
                ),
            res@ == mixed_upto(fs, r2 as nat, n as int) + tail_part(fs, n as int),
            res@.len() == 32 * (n as int) + tail_len_before(fs, n as int),
        decreases fixes@.len() - r2,
    {
        let hp = fixes[r2].0;
        let tp = fixes[r2].1;
        let ghost j = dyn_idx[r2 as int];
        proof {
            lemma_tail_len_monotone(fs, j, n as int);
            lemma_tail_part_len(fs, n as int);
            lemma_mixed_len(fs, r2 as nat, n as int);
        }
        let cur = res.len();
        proof {
            assert(head_len as int + tp as int <= cur as int);
        }
        let offset = head_len + tp;
        let w = be_bytes_u64(offset as u64, 32);
        proof {
            assert(offset as nat == 32 * fs.len() + tail_len_before(fs, j));
            assert(w@ == head_word(fs, j));
        }
        write_word(&mut res, hp, &w);
        proof {
            let nn = n as int;
            let k = r2 as nat;
            let mk = mixed_upto(fs, k, nn);
            let tl = tail_part(fs, nn);
            lemma_mixed_patch(fs, k, j);
            assert((mk + tl).take(32 * j) =~= mk.take(32 * j));
            assert((mk + tl).skip(32 * j + 32) =~= mk.skip(32 * j + 32) + tl);
            assert(res@ =~= (mk.take(32 * j) + head_word(fs, j) + mk.skip(32 * j + 32)) + tl);
            assert(res@ =~= mixed_upto(fs, (k + 1) as nat, nn) + tl);
        }
        r2 += 1;
    }
    proof {
        lemma_mixed_full(fs, n_dyn(fs, n as int), n as int);
        assert(res@ == tuple_enc(fs));
    }
    res
}

/// Self-contained encoding of a dynamic byte string: length word, raw
/// bytes, zero padding to the next word boundary.
pub fn encode_bytes(b: &Vec<u8>) -> (r: Vec<u8>)
    ensures
        r@ == bytes_enc(b@),
{
    let mut r = be_bytes_u64(b.len() as u64, 32);
    let mut bb = copy_bytes(b);
    r.append(&mut bb);
    let rem = b.len() % 32;
    proof {
        assert(zero_bytes(0) =~= Seq::<u8>::empty());
        assert(r@ =~= be_bytes(b@.len(), 32) + b@ + zero_bytes(0));
    }
    if rem != 0 {
        let mut c: usize = 0;
        while c < 32 - rem
            invariant
                rem == b@.len() % 32,
                0 < rem < 32,
                c <= 32 - rem,
                r@ == be_bytes(b@.len(), 32) + b@ + zero_bytes(c as nat),
            decreases 32 - rem - c,
        {
            r.push(0);
            proof {
                assert(zero_bytes(c as nat + 1) =~= zero_bytes(c as nat).push(0u8));
                assert(r@ =~= be_bytes(b@.len(), 32) + b@ + zero_bytes(c as nat + 1));
            }
            c += 1;
        }
    }
    r
}

pub open spec fn byte_seqs(items: Seq<Vec<u8>>) -> Seq<Seq<u8>> {
    items.map_values(|v: Vec<u8>| v@)
}

pub open spec fn bytes_fields(items: Seq<Seq<u8>>) -> Seq<FieldModel> {
    items.map_values(|b: Seq<u8>| FieldModel::Dynamic(bytes_enc(b)))
}

/// Encoding of a sequence of byte strings: a count word, then a tuple of
/// the elements' self-contained encodings, each referenced by offset.
pub open spec fn bytes_array_enc(items: Seq<Seq<u8>>) -> Seq<u8> {
    be_bytes(items.len(), 32) + tuple_enc(bytes_fields(items))
}

pub fn encode_bytes_array(items: &Vec<Vec<u8>>) -> (r: Vec<u8>)
    ensures
        r@ == bytes_array_enc(byte_seqs(items@)),
{
    let mut fields: Vec<AbiField> = Vec::new();
    let mut i: usize = 0;
    while i < items.len()
        invariant
            i <= items@.len(),
            fields@.len() == i,
            forall|j: int|
                0 <= j < i as int ==> #[trigger] fields@[j]@ == FieldModel::Dynamic(
                    bytes_enc(items@[j]@),
                ),
        decreases items@.len() - i,
    {
        let e = encode_bytes(&items[i]);
        fields.push(AbiField::Dynamic(e));
        i += 1;
    }
    proof {
        assert(models(fields@) =~= bytes_fields(byte_seqs(items@)));
        assert forall|j: int| 0 <= j < models(fields@).len() implies field_wf(
            #[trigger] models(fields@)[j],
        ) by {
            lemma_bytes_enc_len(items@[j]@);
        }
    }
    let mut body = encode_tuple(&fields);
    let mut r = be_bytes_u64(items.len() as u64, 32);
    r.append(&mut body);
    r
}

} // verus!
