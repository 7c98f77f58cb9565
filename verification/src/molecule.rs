//! The compact binary container codec: fixed-width little-endian scalars and
//! four self-describing container shapes (`seq`, `fixvec`, `dynvec`, `bytes`).
//!
//! Decoding is shallow: a container decoder returns the raw sub-buffers of
//! one level, and the caller re-decodes each according to its expected type.
//! Every decoder returns `None` on any structural mismatch instead of
//! producing a partial value.

use vstd::array::array_as_slice;
use vstd::bytes::*;
use vstd::prelude::*;
use vstd::slice::{slice_index_get, slice_subrange, slice_to_vec};

verus! {

/// Concatenation of a sequence of byte strings.
pub open spec fn concat_of(items: Seq<Seq<u8>>) -> Seq<u8>
    decreases items.len(),
{
    if items.len() == 0 {
        Seq::empty()
    } else {
        items.first() + concat_of(items.drop_first())
    }
}

/// Total byte length of a sequence of byte strings.
pub open spec fn sum_lens(items: Seq<Seq<u8>>) -> int
    decreases items.len(),
{
    if items.len() == 0 {
        0
    } else {
        items.first().len() + sum_lens(items.drop_first())
    }
}

pub proof fn lemma_concat_len(items: Seq<Seq<u8>>)
    ensures
        concat_of(items).len() == sum_lens(items),
        sum_lens(items) >= 0,
    decreases items.len(),
{
    if items.len() > 0 {
        lemma_concat_len(items.drop_first());
    }
}

pub proof fn lemma_concat_push(items: Seq<Seq<u8>>, item: Seq<u8>)
    ensures
        concat_of(items.push(item)) == concat_of(items) + item,
        sum_lens(items.push(item)) == sum_lens(items) + item.len(),
    decreases items.len(),
{
    if items.len() == 0 {
        assert(items.push(item).drop_first() =~= Seq::<Seq<u8>>::empty());
        assert(items.push(item).first() == item);
        assert(concat_of(items.push(item)) == item + concat_of(Seq::<Seq<u8>>::empty()));
        assert(item + concat_of(Seq::<Seq<u8>>::empty()) =~= concat_of(items) + item);
        assert(sum_lens(items.push(item)) == item.len() + sum_lens(Seq::<Seq<u8>>::empty()));
    } else {
        assert(items.push(item).drop_first() =~= items.drop_first().push(item));
        assert(items.push(item).first() == items.first());
        lemma_concat_push(items.drop_first(), item);
        assert(concat_of(items.push(item)) == items.first() + (concat_of(items.drop_first())
            + item));
        assert(items.first() + (concat_of(items.drop_first()) + item) =~= concat_of(items) + item);
    }
}

/// Views of a vector of byte vectors, as a sequence of byte strings.
pub open spec fn views_of(items: Seq<Vec<u8>>) -> Seq<Seq<u8>> {
    items.map_values(|v: Vec<u8>| v@)
}

/// `sum_lens` of a prefix grows by exactly the next item.
pub proof fn lemma_take_step(items: Seq<Seq<u8>>, i: int)
    requires
        0 <= i < items.len(),
    ensures
        sum_lens(items.take(i + 1)) == sum_lens(items.take(i)) + items[i].len(),
        concat_of(items.take(i + 1)) == concat_of(items.take(i)) + items[i],
{
    assert(items.take(i + 1) =~= items.take(i).push(items[i]));
    lemma_concat_push(items.take(i), items[i]);
}

/// Prefix sums never exceed the total, and are non-negative.
pub proof fn lemma_sum_lens_mono(items: Seq<Seq<u8>>, i: int)
    requires
        0 <= i <= items.len(),
    ensures
        0 <= sum_lens(items.take(i)) <= sum_lens(items),
    decreases items.len() - i,
{
    lemma_concat_len(items.take(i));
    if i == items.len() {
        assert(items.take(i) =~= items);
    } else {
        lemma_take_step(items, i);
        lemma_sum_lens_mono(items, i + 1);
    }
}

/// The slice of the concatenation that corresponds to item `i` is item `i`.
pub proof fn lemma_concat_slice(items: Seq<Seq<u8>>, i: int)
    requires
        0 <= i < items.len(),
    ensures
        sum_lens(items.take(i)) + items[i].len() <= concat_of(items).len(),
        concat_of(items).subrange(
            sum_lens(items.take(i)),
            sum_lens(items.take(i)) + items[i].len(),
        ) == items[i],
    decreases i,
{
    lemma_concat_len(items);
    lemma_sum_lens_mono(items, i + 1);
    lemma_take_step(items, i);
    lemma_sum_lens_mono(items.take(i + 1), i);
    assert(items.take(i + 1).take(i) =~= items.take(i));
    let lo = sum_lens(items.take(i));
    if i == 0 {
        assert(items.take(0) =~= Seq::<Seq<u8>>::empty());
        assert(lo == 0);
        assert(concat_of(items) == items[0] + concat_of(items.drop_first()));
        lemma_concat_len(items.drop_first());
        assert(concat_of(items).subrange(0, items[0].len() as int) =~= items[0]);
    } else {
        let rest = items.drop_first();
        assert(rest.take(i - 1) =~= items.take(i).drop_first());
        lemma_concat_len(items.take(i));
        assert(sum_lens(items.take(i)) == items[0].len() + sum_lens(rest.take(i - 1)));
        lemma_concat_slice(rest, i - 1);
        lemma_concat_len(rest);
        assert(concat_of(items) == items.first() + concat_of(rest));
        let lo2 = sum_lens(rest.take(i - 1));
        assert(rest[i - 1] == items[i]);
        assert(concat_of(items).subrange(lo, lo + items[i].len()) =~= concat_of(rest).subrange(
            lo2,
            lo2 + items[i].len(),
        ));
    }
}

// ---------------------------------------------------------------------------
// Scalar encodings
// ---------------------------------------------------------------------------

/// Encode a single byte.
pub fn encode_byte(data: u8) -> (r: Vec<u8>)
    ensures
        r@ == seq![data],
{
    let mut r: Vec<u8> = Vec::new();
    r.push(data);
    r
}

/// Decode a single byte; the input must be exactly one byte long.
pub fn decode_byte(data: &[u8]) -> (r: Option<u8>)
    ensures
        r is Some <==> data@.len() == 1,
        r is Some ==> r->Some_0 == data@[0],
{
    if data.len() == 1 {
        Some(data[0])
    } else {
        None
    }
}

/// Encode a 32-byte opaque hash.
pub fn encode_byte32(data: [u8; 32]) -> (r: Vec<u8>)
    ensures
        r@ == data@,
{
    slice_to_vec(array_as_slice(&data))
}

/// Decode a 32-byte opaque hash; the input must be exactly 32 bytes long.
pub fn decode_byte32(data: &[u8]) -> (r: Option<[u8; 32]>)
    ensures
        r is Some <==> data@.len() == 32,
        r is Some ==> r->Some_0@ == data@,
{
    if data.len() != 32 {
        return None;
    }
    let mut r = [0u8; 32];
    let mut i: usize = 0;
    while i < 32
        invariant
            0 <= i <= 32,
            data@.len() == 32,
            forall|j: int| 0 <= j < i ==> r@[j] == data@[j],
        decreases 32 - i,
    {
        r[i] = data[i];
        i = i + 1;
    }
    assert(r@ =~= data@);
    Some(r)
}

/// Wire form of a length-prefixed byte string: 4-byte little-endian length,
/// then the raw bytes.
pub open spec fn spec_encode_bytes(data: Seq<u8>) -> Seq<u8>
    recommends
        data.len() <= u32::MAX,
{
    spec_u32_to_le_bytes(data.len() as u32) + data
}

/// Structural parse of a length-prefixed byte string: the declared length
/// must equal the number of bytes that follow the 4-byte prefix.
pub open spec fn spec_decode_bytes(data: Seq<u8>) -> Option<Seq<u8>> {
    if data.len() >= 4 && spec_u32_from_le_bytes(data.take(4)) == data.len() - 4 {
        Some(data.skip(4))
    } else {
        None
    }
}

/// Encode a length-prefixed byte string (`bytes` shape).
pub fn encode_bytes(data: &[u8]) -> (r: Vec<u8>)
    requires
        data@.len() <= u32::MAX,
    ensures
        r@ == spec_encode_bytes(data@),
{
    let mut r = u32_to_le_bytes(data.len() as u32);
    r.extend_from_slice(data);
    assert(r@ =~= spec_encode_bytes(data@));
    r
}

/// Decode a length-prefixed byte string (`bytes` shape).
pub fn decode_bytes(data: &[u8]) -> (r: Option<Vec<u8>>)
    ensures
        r is Some <==> spec_decode_bytes(data@) is Some,
        r is Some ==> r->Some_0@ == spec_decode_bytes(data@)->Some_0,
{
    if data.len() < 4 {
        return None;
    }
    let l = u32_from_le_bytes(slice_subrange(data, 0, 4));
    assert(data@.subrange(0, 4) =~= data@.take(4));
    if !(l as usize == data.len() - 4) {
        return None;
    }
    let r = slice_to_vec(slice_subrange(data, 4, data.len()));
    assert(r@ =~= data@.skip(4));
    Some(r)
}

/// Encode a `u32` as 4 little-endian bytes.
pub fn encode_u32(data: u32) -> (r: Vec<u8>)
    ensures
        r@ == spec_u32_to_le_bytes(data),
{
    u32_to_le_bytes(data)
}

/// Decode a `u32`; the input must be exactly 4 bytes long.
pub fn decode_u32(data: &[u8]) -> (r: Option<u32>)
    ensures
        r is Some <==> data@.len() == 4,
        r is Some ==> r->Some_0 == spec_u32_from_le_bytes(data@),
{
    if data.len() == 4 {
        Some(u32_from_le_bytes(data))
    } else {
        None
    }
}

/// Encode a `u64` as 8 little-endian bytes.
pub fn encode_u64(data: u64) -> (r: Vec<u8>)
    ensures
        r@ == spec_u64_to_le_bytes(data),
{
    u64_to_le_bytes(data)
}

/// Decode a `u64`; the input must be exactly 8 bytes long.
pub fn decode_u64(data: &[u8]) -> (r: Option<u64>)
    ensures
        r is Some <==> data@.len() == 8,
        r is Some ==> r->Some_0 == spec_u64_from_le_bytes(data@),
{
    if data.len() == 8 {
        Some(u64_from_le_bytes(data))
    } else {
        None
    }
}

/// Encode a `u128` as 16 little-endian bytes.
pub fn encode_u128(data: u128) -> (r: Vec<u8>)
    ensures
        r@ == spec_u128_to_le_bytes(data),
{
    u128_to_le_bytes(data)
}

/// Decode a `u128`; the input must be exactly 16 bytes long.
pub fn decode_u128(data: &[u8]) -> (r: Option<u128>)
    ensures
        r is Some <==> data@.len() == 16,
        r is Some ==> r->Some_0 == spec_u128_from_le_bytes(data@),
{
    if data.len() == 16 {
        Some(u128_from_le_bytes(data))
    } else {
        None
    }
}

// ---------------------------------------------------------------------------
// Container encodings
// ---------------------------------------------------------------------------

/// Append all bytes of `src` to `dst`.
fn extend_bytes(dst: &mut Vec<u8>, src: &[u8])
    ensures
        final(dst)@ == old(dst)@ + src@,
{
    let mut i: usize = 0;
    while i < src.len()
        invariant
            0 <= i <= src@.len(),
            dst@ == old(dst)@ + src@.take(i as int),
        decreases src@.len() - i,
    {
        dst.push(*slice_index_get(src, i));
        assert(dst@ =~= old(dst)@ + src@.take(i + 1));
        i = i + 1;
    }
    assert(src@.take(src@.len() as int) =~= src@);
}

/// Wire form of a `seq` container: the fields concatenated in order, with no
/// header; the layout is a contract between encoder and decoder.
pub fn encode_seq(data: &Vec<Vec<u8>>) -> (r: Vec<u8>)
    ensures
        r@ == concat_of(views_of(data@)),
{
    let items = Ghost(views_of(data@));
    let mut r: Vec<u8> = Vec::new();
    let mut i: usize = 0;
    assert(items@.take(0) =~= Seq::<Seq<u8>>::empty());
    while i < data.len()
        invariant
            0 <= i <= data@.len(),
            items@ == views_of(data@),
            r@ == concat_of(items@.take(i as int)),
        decreases data@.len() - i,
    {
        extend_bytes(&mut r, data[i].as_slice());
        proof {
            lemma_take_step(items@, i as int);
        }
        i = i + 1;
    }
    proof {
        assert(items@.take(data@.len() as int) =~= items@);
    }
    r
}

/// Sum of a size list.
pub open spec fn sum_of(sizes: Seq<usize>) -> int
    decreases sizes.len(),
{
    if sizes.len() == 0 {
        0
    } else {
        sum_of(sizes.drop_last()) + sizes.last()
    }
}

proof fn lemma_sum_of_nonneg(sizes: Seq<usize>)
    ensures
        sum_of(sizes) >= 0,
    decreases sizes.len(),
{
    if sizes.len() > 0 {
        lemma_sum_of_nonneg(sizes.drop_last());
    }
}

/// Prefix sums of a size list grow by one size at a time and never exceed
/// the total.
pub proof fn lemma_sum_of_take(sizes: Seq<usize>, i: int)
    requires
        0 <= i <= sizes.len(),
    ensures
        0 <= sum_of(sizes.take(i)) <= sum_of(sizes),
        i < sizes.len() ==> sum_of(sizes.take(i + 1)) == sum_of(sizes.take(i)) + sizes[i],
    decreases sizes.len() - i,
{
    lemma_sum_of_nonneg(sizes.take(i));
    if i < sizes.len() {
        assert(sizes.take(i + 1).drop_last() =~= sizes.take(i));
        assert(sizes.take(i + 1).last() == sizes[i]);
        lemma_sum_of_take(sizes, i + 1);
    } else {
        assert(sizes.take(i) =~= sizes);
    }
}

/// Structural parse of a `seq` container against an externally supplied size
/// list: succeeds exactly when the buffer holds at least `sum_of(sizes)`
/// bytes, and splits the buffer sequentially; trailing bytes are ignored.
pub open spec fn spec_decode_seq(data: Seq<u8>, sizes: Seq<usize>) -> Option<Seq<Seq<u8>>> {
    if sum_of(sizes) <= data.len() {
        Some(
            Seq::new(
                sizes.len(),
                |i: int| data.subrange(sum_of(sizes.take(i)), sum_of(sizes.take(i)) + sizes[i]),
            ),
        )
    } else {
        None
    }
}

/// Decode a `seq` container by splitting `data` according to `size`.
pub fn decode_seq(data: &[u8], size: &[usize]) -> (r: Option<Vec<Vec<u8>>>)
    ensures
        r is Some <==> spec_decode_seq(data@, size@) is Some,
        r is Some ==> views_of(r->Some_0@) == spec_decode_seq(data@, size@)->Some_0,
{
    let mut r: Vec<Vec<u8>> = Vec::new();
    let mut s: usize = 0;
    let mut i: usize = 0;
    while i < size.len()
        invariant
            0 <= i <= size@.len(),
            s == sum_of(size@.take(i as int)),
            s <= data@.len(),
            r@.len() == i,
            forall|j: int|
                0 <= j < i ==> #[trigger] r@[j]@ == data@.subrange(
                    sum_of(size@.take(j)),
                    sum_of(size@.take(j)) + size@[j],
                ),
        decreases size@.len() - i,
    {
        proof {
            lemma_sum_of_take(size@, i as int);
        }
        let n = *slice_index_get(size, i);
        if n > data.len() - s {
            proof {
                lemma_sum_of_take(size@, i as int + 1);
            }
            return None;
        }
        r.push(slice_to_vec(slice_subrange(data, s, s + n)));
        s = s + n;
        i = i + 1;
    }
    proof {
        assert(size@.take(size@.len() as int) =~= size@);
        assert(views_of(r@) =~= spec_decode_seq(data@, size@)->Some_0);
    }
    Some(r)
}

/// Wire form of a `fixvec` container: 4-byte little-endian element count,
/// then the equal-size elements concatenated.
pub open spec fn spec_encode_fixvec(items: Seq<Seq<u8>>) -> Seq<u8>
    recommends
        items.len() <= u32::MAX,
{
    spec_u32_to_le_bytes(items.len() as u32) + concat_of(items)
}

/// Encode a `fixvec` container. That all items have equal length is the
/// caller's contract; it is not part of the wire header.
pub fn encode_fixvec(data: &Vec<Vec<u8>>) -> (r: Vec<u8>)
    requires
        data@.len() <= u32::MAX,
    ensures
        r@ == spec_encode_fixvec(views_of(data@)),
{
    let mut r = u32_to_le_bytes(data.len() as u32);
    let body = encode_seq(data);
    extend_bytes(&mut r, body.as_slice());
    r
}

/// Structural parse of a `fixvec` container: reads the element count, then
/// splits the remaining bytes into that many equal-size elements (any
/// remainder bytes beyond `count * size` are ignored, mirroring the integer
/// division that defines the element size).
pub open spec fn spec_decode_fixvec(data: Seq<u8>) -> Option<Seq<Seq<u8>>> {
    if data.len() < 4 {
        None
    } else {
        let count = spec_u32_from_le_bytes(data.take(4)) as int;
        if count == 0 {
            Some(Seq::empty())
        } else {
            let size = (data.len() - 4) / count;
            Some(
                Seq::new(
                    count as nat,
                    |i: int| data.subrange(4 + i * size, 4 + i * size + size),
                ),
            )
        }
    }
}

/// Decode a `fixvec` container.
pub fn decode_fixvec(data: &[u8]) -> (r: Option<Vec<Vec<u8>>>)
    ensures
        r is Some <==> spec_decode_fixvec(data@) is Some,
        r is Some ==> views_of(r->Some_0@) == spec_decode_fixvec(data@)->Some_0,
{
    if data.len() < 4 {
        return None;
    }
    let head = slice_subrange(data, 0, 4);
    assert(head@ =~= data@.take(4));
    let icnt = u32_from_le_bytes(head) as usize;
    let mut body: Vec<Vec<u8>> = Vec::new();
    if icnt == 0 {
        assert(views_of(body@) =~= spec_decode_fixvec(data@)->Some_0);
        return Some(body);
    }
    let size = (data.len() - 4) / icnt;
    proof {
        vstd::arithmetic::div_mod::lemma_fundamental_div_mod(data@.len() - 4, icnt as int);
        vstd::arithmetic::div_mod::lemma_mod_bound(data@.len() - 4, icnt as int);
    }
    assert(icnt * size <= data@.len() - 4);
    let mut i: usize = 0;
    while i < icnt
        invariant
            0 <= i <= icnt,
            1 <= icnt,
            data@.len() >= 4,
            data@.len() <= usize::MAX,
            size == (data@.len() - 4) / icnt as int,
            icnt * size <= data@.len() - 4,
            body@.len() == i,
            forall|j: int|
                0 <= j < i ==> #[trigger] body@[j]@ == data@.subrange(
                    4 + j * size,
                    4 + j * size + size,
                ),
        decreases icnt - i,
    {
        proof {
            assert(0 <= (i as int) * (size as int) && (i as int) * (size as int) + (size as int)
                <= (icnt as int) * (size as int)) by (nonlinear_arith)
                requires
                    0 <= (i as int),
                    (i as int) < (icnt as int),
                    0 <= (size as int),
            ;
        }
        assert(i * size + size <= data@.len() - 4);
        let start = 4 + i * size;
        body.push(slice_to_vec(slice_subrange(data, start, start + size)));
        i = i + 1;
    }
    proof {
        assert(views_of(body@) =~= spec_decode_fixvec(data@)->Some_0);
    }
    Some(body)
}

/// Head size of a `dynvec` with `n` items: the 4-byte total, then `n`
/// 4-byte offsets.
pub open spec fn dyn_head_size(n: int) -> int {
    4 + 4 * n
}

/// Start offset of item `i` within the encoded `dynvec`.
pub open spec fn dyn_offset(items: Seq<Seq<u8>>, i: int) -> int {
    dyn_head_size(items.len() as int) + sum_lens(items.take(i))
}

/// Total byte length of the encoded `dynvec`.
pub open spec fn dyn_total(items: Seq<Seq<u8>>) -> int {
    dyn_head_size(items.len() as int) + sum_lens(items)
}

/// The offset table of a `dynvec`: each item's start offset as 4 bytes.
pub open spec fn dyn_head(items: Seq<Seq<u8>>) -> Seq<Seq<u8>> {
    Seq::new(items.len(), |i: int| spec_u32_to_le_bytes(dyn_offset(items, i) as u32))
}

/// Wire form of a `dynvec` container: 4-byte total length, the offset
/// table, then the items concatenated.
pub open spec fn spec_encode_dynvec(items: Seq<Seq<u8>>) -> Seq<u8>
    recommends
        dyn_total(items) <= u32::MAX,
{
    spec_u32_to_le_bytes(dyn_total(items) as u32) + concat_of(dyn_head(items)) + concat_of(items)
}

/// Encode a `dynvec` container. An absent optional field is represented by a
/// zero-length item: it contributes an offset entry but no body bytes.
pub fn encode_dynvec(data: &Vec<Vec<u8>>) -> (r: Vec<u8>)
    requires
        dyn_total(views_of(data@)) <= u32::MAX,
    ensures
        r@ == spec_encode_dynvec(views_of(data@)),
{
    let items = Ghost(views_of(data@));
    let mut head: Vec<u8> = Vec::new();
    let mut body: Vec<u8> = Vec::new();
    proof {
        lemma_concat_len(items@);
        assert(items@.take(0) =~= Seq::<Seq<u8>>::empty());
        assert(dyn_head(items@).take(0) =~= Seq::<Seq<u8>>::empty());
    }
    let head_size: usize = 4 + 4 * data.len();
    let mut body_size: usize = 0;
    let mut i: usize = 0;
    while i < data.len()
        invariant
            0 <= i <= data@.len(),
            items@ == views_of(data@),
            dyn_total(items@) <= u32::MAX,
            head_size == dyn_head_size(data@.len() as int),
            body_size == sum_lens(items@.take(i as int)),
            head@ == concat_of(dyn_head(items@).take(i as int)),
            body@ == concat_of(items@.take(i as int)),
        decreases data@.len() - i,
    {
        proof {
            lemma_sum_lens_mono(items@, i as int);
            lemma_sum_lens_mono(items@, i as int + 1);
            lemma_take_step(items@, i as int);
            assert(items@[i as int] == data@[i as int]@);
            assert(dyn_head(items@).take(i + 1) =~= dyn_head(items@).take(i as int).push(
                dyn_head(items@)[i as int],
            ));
            lemma_concat_push(dyn_head(items@).take(i as int), dyn_head(items@)[i as int]);
        }
        let size = head_size + body_size;
        let offset_bytes = u32_to_le_bytes(size as u32);
        extend_bytes(&mut head, offset_bytes.as_slice());
        extend_bytes(&mut body, data[i].as_slice());
        body_size = body_size + data[i].len();
        i = i + 1;
    }
    proof {
        assert(items@.take(data@.len() as int) =~= items@);
        assert(dyn_head(items@).take(data@.len() as int) =~= dyn_head(items@));
    }
    let size = head_size + body_size;
    let mut r = u32_to_le_bytes(size as u32);
    extend_bytes(&mut r, head.as_slice());
    extend_bytes(&mut r, body.as_slice());
    assert(r@ =~= spec_encode_dynvec(items@));
    r
}

/// Boundary `i` used when splitting a `dynvec` body: the `i`-th offset-table
/// entry for `i < count`, and the buffer length for `i == count`.
pub open spec fn dyn_bound(data: Seq<u8>, count: int, i: int) -> int {
    if i == count {
        data.len() as int
    } else {
        spec_u32_from_le_bytes(data.subrange(4 + 4 * i, 8 + 4 * i)) as int
    }
}

/// Structural parse of a `dynvec` container. The first 4 bytes must equal
/// the buffer length exactly; a 4-byte buffer is the canonical empty
/// container; otherwise the first offset-table entry fixes the element
/// count, and consecutive boundaries must be non-decreasing.
pub open spec fn spec_decode_dynvec(data: Seq<u8>) -> Option<Seq<Seq<u8>>> {
    if data.len() < 4 {
        None
    } else if spec_u32_from_le_bytes(data.take(4)) != data.len() {
        None
    } else if data.len() == 4 {
        Some(Seq::empty())
    } else if data.len() < 8 {
        None
    } else {
        let count = spec_u32_from_le_bytes(data.subrange(4, 8)) as int / 4 - 1;
        if count < 1 {
            None
        } else if 4 + 4 * count > data.len() {
            None
        } else if exists|i: int|
            0 <= i < count && !(#[trigger] dyn_bound(data, count, i) <= dyn_bound(
                data,
                count,
                i + 1,
            )) {
            None
        } else {
            Some(
                Seq::new(
                    count as nat,
                    |i: int| data.subrange(dyn_bound(data, count, i), dyn_bound(data, count, i + 1)),
                ),
            )
        }
    }
}

/// The branch context of a well-formed non-empty `dynvec` header: the facts
/// that hold once every header check before the boundary scan has passed.
pub open spec fn dyn_ctx(data: Seq<u8>, count: int) -> bool {
    &&& 8 <= data.len() <= u32::MAX
    &&& spec_u32_from_le_bytes(data.take(4)) == data.len()
    &&& count == spec_u32_from_le_bytes(data.subrange(4, 8)) as int / 4 - 1
    &&& 1 <= count
    &&& 4 + 4 * count <= data.len()
}

/// Law: a buffer whose first four bytes do not spell its own length is
/// rejected by the `dynvec` decoder.
pub proof fn lemma_dynvec_rejects_bad_length(data: Seq<u8>)
    requires
        data.len() < 4 || spec_u32_from_le_bytes(data.take(4)) != data.len(),
    ensures
        spec_decode_dynvec(data) is None,
{
}

/// Law: a buffer shorter than the sum of the declared sizes is rejected
/// by the `seq` decoder.
pub proof fn lemma_seq_rejects_short(data: Seq<u8>, sizes: Seq<usize>)
    requires
        sum_of(sizes) > data.len(),
    ensures
        spec_decode_seq(data, sizes) is None,
{
}

/// Every boundary is bounded by the final one when they are pairwise
/// non-decreasing.
proof fn lemma_chain_le(data: Seq<u8>, count: int, i: int)
    requires
        0 <= i <= count,
        forall|j: int|
            0 <= j < count ==> #[trigger] dyn_bound(data, count, j) <= dyn_bound(data, count, j + 1),
    ensures
        dyn_bound(data, count, i) <= data.len(),
    decreases count - i,
{
    if i < count {
        lemma_chain_le(data, count, i + 1);
    }
}

// ---------------------------------------------------------------------------
// Round-trip laws: decoding an encoding returns the original value
// ---------------------------------------------------------------------------

/// Prefix sums of a uniform-length item list are linear in the index.
pub proof fn lemma_sum_lens_uniform(items: Seq<Seq<u8>>, l: int, i: int)
    requires
        0 <= i <= items.len(),
        forall|k: int| 0 <= k < items.len() ==> #[trigger] items[k].len() == l,
    ensures
        sum_lens(items.take(i)) == l * i,
    decreases i,
{
    if i == 0 {
        assert(items.take(0) =~= Seq::<Seq<u8>>::empty());
    } else {
        lemma_sum_lens_uniform(items, l, i - 1);
        lemma_take_step(items, i - 1);
        assert(l * (i - 1) + l == l * i) by (nonlinear_arith);
    }
}

/// Slicing a concatenation past its prefix is slicing the suffix.
proof fn lemma_shift_subrange(pre: Seq<u8>, body: Seq<u8>, lo: int, hi: int)
    requires
        0 <= lo <= hi <= body.len(),
    ensures
        (pre + body).subrange(pre.len() + lo, pre.len() + hi) == body.subrange(lo, hi),
{
    assert((pre + body).subrange(pre.len() + lo, pre.len() + hi) =~= body.subrange(lo, hi));
}

/// Concatenation and total length of a two-item list, spelled out.
pub proof fn lemma_cat2(a: Seq<u8>, b: Seq<u8>)
    ensures
        concat_of(seq![a, b]) == a + b,
        sum_lens(seq![a, b]) == a.len() + b.len(),
{
    let s = seq![a, b];
    assert(s.drop_first() =~= seq![b]);
    assert(seq![b].drop_first() =~= Seq::<Seq<u8>>::empty());
    assert(s.first() == a);
    assert(seq![b].first() == b);
    assert(concat_of(Seq::<Seq<u8>>::empty()) == Seq::<u8>::empty());
    assert(sum_lens(Seq::<Seq<u8>>::empty()) == 0);
    assert(concat_of(seq![b]) == b + Seq::<u8>::empty());
    assert(concat_of(s) == a + (b + Seq::<u8>::empty()));
    assert(a + (b + Seq::<u8>::empty()) =~= a + b);
    assert(sum_lens(seq![b]) == b.len());
    assert(sum_lens(s) == a.len() + b.len());
}

/// Total length of a three-item list, spelled out.
pub proof fn lemma_sum3(a: Seq<u8>, b: Seq<u8>, c: Seq<u8>)
    ensures
        sum_lens(seq![a, b, c]) == a.len() + b.len() + c.len(),
{
    let s = seq![a, b, c];
    assert(s.drop_first() =~= seq![b, c]);
    lemma_cat2(b, c);
}

/// Total length of a four-item list, spelled out.
pub proof fn lemma_sum4(a: Seq<u8>, b: Seq<u8>, c: Seq<u8>, d: Seq<u8>)
    ensures
        sum_lens(seq![a, b, c, d]) == a.len() + b.len() + c.len() + d.len(),
{
    let s = seq![a, b, c, d];
    assert(s.drop_first() =~= seq![b, c, d]);
    lemma_sum3(b, c, d);
}

/// Total length of a five-item list, spelled out.
pub proof fn lemma_sum5(a: Seq<u8>, b: Seq<u8>, c: Seq<u8>, d: Seq<u8>, e: Seq<u8>)
    ensures
        sum_lens(seq![a, b, c, d, e]) == a.len() + b.len() + c.len() + d.len() + e.len(),
{
    let s = seq![a, b, c, d, e];
    assert(s.drop_first() =~= seq![b, c, d, e]);
    lemma_sum4(b, c, d, e);
}

/// Total length of a six-item list, spelled out.
pub proof fn lemma_sum6(a: Seq<u8>, b: Seq<u8>, c: Seq<u8>, d: Seq<u8>, e: Seq<u8>, f: Seq<u8>)
    ensures
        sum_lens(seq![a, b, c, d, e, f]) == a.len() + b.len() + c.len() + d.len() + e.len()
            + f.len(),
{
    let s = seq![a, b, c, d, e, f];
    assert(s.drop_first() =~= seq![b, c, d, e, f]);
    lemma_sum5(b, c, d, e, f);
}

/// Concatenation of a three-item list, spelled out.
pub proof fn lemma_cat3(a: Seq<u8>, b: Seq<u8>, c: Seq<u8>)
    ensures
        concat_of(seq![a, b, c]) == a + b + c,
        sum_lens(seq![a, b, c]) == a.len() + b.len() + c.len(),
{
    let s = seq![a, b, c];
    assert(s.drop_first() =~= seq![b, c]);
    lemma_cat2(b, c);
    assert(a + (b + c) =~= a + b + c);
}

/// Concatenation and total length of a ten-item list, spelled out.
pub proof fn lemma_cat10(
    s0: Seq<u8>,
    s1: Seq<u8>,
    s2: Seq<u8>,
    s3: Seq<u8>,
    s4: Seq<u8>,
    s5: Seq<u8>,
    s6: Seq<u8>,
    s7: Seq<u8>,
    s8: Seq<u8>,
    s9: Seq<u8>,
)
    ensures
        concat_of(seq![s0, s1, s2, s3, s4, s5, s6, s7, s8, s9]) == s0 + s1 + s2 + s3 + s4 + s5
            + s6 + s7 + s8 + s9,
        sum_lens(seq![s0, s1, s2, s3, s4, s5, s6, s7, s8, s9]) == s0.len() + s1.len() + s2.len()
            + s3.len() + s4.len() + s5.len() + s6.len() + s7.len() + s8.len() + s9.len(),
    decreases 10int,
{
    let s = seq![s0, s1, s2, s3, s4, s5, s6, s7, s8, s9];
    assert(s.drop_first() =~= seq![s1, s2, s3, s4, s5, s6, s7, s8, s9]);
    lemma_cat9(s1, s2, s3, s4, s5, s6, s7, s8, s9);
    assert(s0 + (s1 + s2 + s3 + s4 + s5 + s6 + s7 + s8 + s9) =~= s0 + s1 + s2 + s3 + s4 + s5 + s6
        + s7 + s8 + s9);
}

proof fn lemma_cat9(
    s1: Seq<u8>,
    s2: Seq<u8>,
    s3: Seq<u8>,
    s4: Seq<u8>,
    s5: Seq<u8>,
    s6: Seq<u8>,
    s7: Seq<u8>,
    s8: Seq<u8>,
    s9: Seq<u8>,
)
    ensures
        concat_of(seq![s1, s2, s3, s4, s5, s6, s7, s8, s9]) == s1 + s2 + s3 + s4 + s5 + s6 + s7
            + s8 + s9,
        sum_lens(seq![s1, s2, s3, s4, s5, s6, s7, s8, s9]) == s1.len() + s2.len() + s3.len()
            + s4.len() + s5.len() + s6.len() + s7.len() + s8.len() + s9.len(),
{
    let s = seq![s1, s2, s3, s4, s5, s6, s7, s8, s9];
    assert(s.drop_first() =~= seq![s2, s3, s4, s5, s6, s7, s8, s9]);
    lemma_cat8(s2, s3, s4, s5, s6, s7, s8, s9);
    assert(s1 + (s2 + s3 + s4 + s5 + s6 + s7 + s8 + s9) =~= s1 + s2 + s3 + s4 + s5 + s6 + s7
        + s8 + s9);
}

proof fn lemma_cat8(
    s2: Seq<u8>,
    s3: Seq<u8>,
    s4: Seq<u8>,
    s5: Seq<u8>,
    s6: Seq<u8>,
    s7: Seq<u8>,
    s8: Seq<u8>,
    s9: Seq<u8>,
)
    ensures
        concat_of(seq![s2, s3, s4, s5, s6, s7, s8, s9]) == s2 + s3 + s4 + s5 + s6 + s7 + s8 + s9,
        sum_lens(seq![s2, s3, s4, s5, s6, s7, s8, s9]) == s2.len() + s3.len() + s4.len()
            + s5.len() + s6.len() + s7.len() + s8.len() + s9.len(),
{
    let s = seq![s2, s3, s4, s5, s6, s7, s8, s9];
    assert(s.drop_first() =~= seq![s3, s4, s5, s6, s7, s8, s9]);
    lemma_cat7(s3, s4, s5, s6, s7, s8, s9);
    assert(s2 + (s3 + s4 + s5 + s6 + s7 + s8 + s9) =~= s2 + s3 + s4 + s5 + s6 + s7 + s8 + s9);
}

proof fn lemma_cat7(
    s3: Seq<u8>,
    s4: Seq<u8>,
    s5: Seq<u8>,
    s6: Seq<u8>,
    s7: Seq<u8>,
    s8: Seq<u8>,
    s9: Seq<u8>,
)
    ensures
        concat_of(seq![s3, s4, s5, s6, s7, s8, s9]) == s3 + s4 + s5 + s6 + s7 + s8 + s9,
        sum_lens(seq![s3, s4, s5, s6, s7, s8, s9]) == s3.len() + s4.len() + s5.len() + s6.len()
            + s7.len() + s8.len() + s9.len(),
{
    let s = seq![s3, s4, s5, s6, s7, s8, s9];
    assert(s.drop_first() =~= seq![s4, s5, s6, s7, s8, s9]);
    lemma_cat6(s4, s5, s6, s7, s8, s9);
    assert(s3 + (s4 + s5 + s6 + s7 + s8 + s9) =~= s3 + s4 + s5 + s6 + s7 + s8 + s9);
}

proof fn lemma_cat6(s4: Seq<u8>, s5: Seq<u8>, s6: Seq<u8>, s7: Seq<u8>, s8: Seq<u8>, s9: Seq<u8>)
    ensures
        concat_of(seq![s4, s5, s6, s7, s8, s9]) == s4 + s5 + s6 + s7 + s8 + s9,
        sum_lens(seq![s4, s5, s6, s7, s8, s9]) == s4.len() + s5.len() + s6.len() + s7.len()
            + s8.len() + s9.len(),
{
    let s = seq![s4, s5, s6, s7, s8, s9];
    assert(s.drop_first() =~= seq![s5, s6, s7, s8, s9]);
    lemma_cat5(s5, s6, s7, s8, s9);
    assert(s4 + (s5 + s6 + s7 + s8 + s9) =~= s4 + s5 + s6 + s7 + s8 + s9);
}

proof fn lemma_cat5(s5: Seq<u8>, s6: Seq<u8>, s7: Seq<u8>, s8: Seq<u8>, s9: Seq<u8>)
    ensures
        concat_of(seq![s5, s6, s7, s8, s9]) == s5 + s6 + s7 + s8 + s9,
        sum_lens(seq![s5, s6, s7, s8, s9]) == s5.len() + s6.len() + s7.len() + s8.len()
            + s9.len(),
{
    let s = seq![s5, s6, s7, s8, s9];
    assert(s.drop_first() =~= seq![s6, s7, s8, s9]);
    lemma_cat4(s6, s7, s8, s9);
    assert(s5 + (s6 + s7 + s8 + s9) =~= s5 + s6 + s7 + s8 + s9);
}

proof fn lemma_cat4(s6: Seq<u8>, s7: Seq<u8>, s8: Seq<u8>, s9: Seq<u8>)
    ensures
        concat_of(seq![s6, s7, s8, s9]) == s6 + s7 + s8 + s9,
        sum_lens(seq![s6, s7, s8, s9]) == s6.len() + s7.len() + s8.len() + s9.len(),
{
    let s = seq![s6, s7, s8, s9];
    assert(s.drop_first() =~= seq![s7, s8, s9]);
    lemma_cat3(s7, s8, s9);
    assert(s6 + (s7 + s8 + s9) =~= s6 + s7 + s8 + s9);
}

/// The 4-byte scalar header always has length 4.
pub proof fn lemma_u32_bytes_len()
    ensures
        forall|x: u32| (#[trigger] spec_u32_to_le_bytes(x)).len() == 4,
{
    lemma_auto_spec_u32_to_from_le_bytes();
}

/// The 8-byte scalar encoding always has length 8.
pub proof fn lemma_u64_bytes_len()
    ensures
        forall|x: u64| (#[trigger] spec_u64_to_le_bytes(x)).len() == 8,
{
    lemma_auto_spec_u64_to_from_le_bytes();
}

/// The 16-byte scalar encoding always has length 16.
pub proof fn lemma_u128_bytes_len()
    ensures
        forall|x: u128| (#[trigger] spec_u128_to_le_bytes(x)).len() == 16,
{
    lemma_auto_spec_u128_to_from_le_bytes();
}

/// An encoded `dynvec` is exactly `dyn_total` bytes long.
pub proof fn lemma_dynvec_len(items: Seq<Seq<u8>>)
    ensures
        spec_encode_dynvec(items).len() == dyn_total(items),
        sum_lens(items) >= 0,
{
    lemma_auto_spec_u32_to_from_le_bytes();
    lemma_concat_len(items);
    lemma_concat_len(dyn_head(items));
    lemma_sum_lens_uniform(dyn_head(items), 4, items.len() as int);
    assert(dyn_head(items).take(items.len() as int) =~= dyn_head(items));
}

/// An encoded `fixvec` is 4 bytes of count plus the items.
pub proof fn lemma_fixvec_len(items: Seq<Seq<u8>>)
    ensures
        spec_encode_fixvec(items).len() == 4 + sum_lens(items),
        sum_lens(items) >= 0,
{
    lemma_auto_spec_u32_to_from_le_bytes();
    lemma_concat_len(items);
}

/// Each item is no longer than the sum of all item lengths.
pub proof fn lemma_item_le_sum(items: Seq<Seq<u8>>, i: int)
    requires
        0 <= i < items.len(),
    ensures
        items[i].len() <= sum_lens(items),
{
    lemma_sum_lens_mono(items, i);
    lemma_take_step(items, i);
    lemma_sum_lens_mono(items, i + 1);
}

/// Law: a length-prefixed byte string decodes back to the bytes that were
/// encoded.
pub proof fn lemma_bytes_round_trip(data: Seq<u8>)
    requires
        data.len() <= u32::MAX,
    ensures
        spec_decode_bytes(spec_encode_bytes(data)) == Some(data),
{
    lemma_auto_spec_u32_to_from_le_bytes();
    let enc = spec_encode_bytes(data);
    assert(enc.take(4) =~= spec_u32_to_le_bytes(data.len() as u32));
    assert(enc.skip(4) =~= data);
}

/// Law: a `seq` container splits back into the encoded fields when decoded
/// with the fields' own sizes.
pub proof fn lemma_seq_round_trip(items: Seq<Seq<u8>>, sizes: Seq<usize>)
    requires
        sizes.len() == items.len(),
        forall|k: int| 0 <= k < items.len() ==> #[trigger] sizes[k] == items[k].len(),
    ensures
        spec_decode_seq(concat_of(items), sizes) == Some(items),
{
    lemma_concat_len(items);
    lemma_sum_eq(items, sizes, sizes.len() as int);
    assert(items.take(items.len() as int) =~= items);
    assert(sizes.take(sizes.len() as int) =~= sizes);
    let enc = concat_of(items);
    assert forall|i: int| 0 <= i < sizes.len() implies enc.subrange(
        sum_of(sizes.take(i)),
        sum_of(sizes.take(i)) + sizes[i],
    ) == items[i] by {
        lemma_sum_eq(items, sizes, i);
        lemma_concat_slice(items, i);
    }
    assert(spec_decode_seq(concat_of(items), sizes)->Some_0 =~= items);
}

/// Prefix sums agree when the size list matches the item lengths.
proof fn lemma_sum_eq(items: Seq<Seq<u8>>, sizes: Seq<usize>, i: int)
    requires
        sizes.len() == items.len(),
        0 <= i <= items.len(),
        forall|k: int| 0 <= k < items.len() ==> #[trigger] sizes[k] == items[k].len(),
    ensures
        sum_of(sizes.take(i)) == sum_lens(items.take(i)),
    decreases i,
{
    if i > 0 {
        lemma_sum_eq(items, sizes, i - 1);
        lemma_take_step(items, i - 1);
        lemma_sum_of_take(sizes, i - 1);
    } else {
        assert(sizes.take(0) =~= Seq::<usize>::empty());
        assert(items.take(0) =~= Seq::<Seq<u8>>::empty());
    }
}

/// Law: a `fixvec` of equal-length items decodes back to those items.
pub proof fn lemma_fixvec_round_trip(items: Seq<Seq<u8>>, l: int)
    requires
        items.len() <= u32::MAX,
        0 <= l,
        forall|k: int| 0 <= k < items.len() ==> #[trigger] items[k].len() == l,
    ensures
        spec_decode_fixvec(spec_encode_fixvec(items)) == Some(items),
{
    lemma_auto_spec_u32_to_from_le_bytes();
    let n = items.len() as int;
    let enc = spec_encode_fixvec(items);
    lemma_concat_len(items);
    lemma_sum_lens_uniform(items, l, n);
    assert(items.take(n) =~= items);
    assert(enc.take(4) =~= spec_u32_to_le_bytes(n as u32));
    assert(spec_u32_from_le_bytes(enc.take(4)) == n);
    if n == 0 {
        assert(spec_decode_fixvec(enc)->Some_0 =~= items);
    } else {
        assert(enc.len() - 4 == l * n);
        vstd::arithmetic::div_mod::lemma_div_multiples_vanish(l, n);
        assert(l * n == n * l) by (nonlinear_arith);
        assert((l * n) / n == l);
        let size = (enc.len() - 4) / n;
        assert(size == l);
        assert forall|i: int| 0 <= i < n implies enc.subrange(4 + i * l, 4 + i * l + l)
            == items[i] by {
            lemma_sum_lens_uniform(items, l, i);
            lemma_sum_lens_uniform(items, l, i + 1);
            lemma_concat_slice(items, i);
            assert(l * i + l == l * (i + 1)) by (nonlinear_arith);
            assert(0 <= l * i && l * (i + 1) <= l * n) by (nonlinear_arith)
                requires
                    0 <= l,
                    0 <= i,
                    i + 1 <= n,
            ;
            assert(i * l == l * i) by (nonlinear_arith);
            lemma_shift_subrange(
                spec_u32_to_le_bytes(n as u32),
                concat_of(items),
                l * i,
                l * i + l,
            );
        }
        assert(spec_decode_fixvec(enc)->Some_0 =~= items);
    }
}

/// Law: a `dynvec` decodes back to the encoded items, whatever their
/// (possibly differing, possibly zero) lengths.
#[verifier::rlimit(100)]
#[verifier::spinoff_prover]
proof fn lemma_dynvec_bounds(items: Seq<Seq<u8>>)
    requires
        dyn_total(items) <= u32::MAX,
        items.len() >= 1,
    ensures
        spec_encode_dynvec(items).len() == dyn_total(items),
        forall|i: int|
            0 <= i <= items.len() ==> #[trigger] dyn_bound(spec_encode_dynvec(items), items.len() as int, i)
                == dyn_offset(items, i),
{
    lemma_auto_spec_u32_to_from_le_bytes();
    let n = items.len() as int;
    let total = dyn_total(items);
    let enc = spec_encode_dynvec(items);
    let head = dyn_head(items);
    lemma_concat_len(items);
    lemma_concat_len(head);
    lemma_sum_lens_uniform(head, 4, n);
    assert(head.take(n) =~= head);
    assert(concat_of(head).len() == 4 * n);
    assert(items.take(n) =~= items);
    assert(enc.len() == total);
    assert forall|i: int| 0 <= i <= n implies #[trigger] dyn_bound(enc, n, i) == dyn_offset(
        items,
        i,
    ) by {
        lemma_sum_lens_mono(items, i);
        if i < n {
            lemma_sum_lens_uniform(head, 4, i);
            lemma_sum_lens_uniform(head, 4, i + 1);
            lemma_concat_slice(head, i);
            assert(enc.subrange(4 + 4 * i, 8 + 4 * i) =~= concat_of(head).subrange(
                4 * i,
                4 * i + 4,
            ));
            assert(enc.subrange(4 + 4 * i, 8 + 4 * i) == head[i]);
            assert(head[i] == spec_u32_to_le_bytes(dyn_offset(items, i) as u32));
        } else {
            assert(dyn_offset(items, n) == total);
        }
    }
}

proof fn lemma_dynvec_slices(items: Seq<Seq<u8>>)
    requires
        dyn_total(items) <= u32::MAX,
        items.len() >= 1,
    ensures
        forall|i: int|
            0 <= i < items.len() ==> #[trigger] dyn_bound(
                spec_encode_dynvec(items),
                items.len() as int,
                i,
            ) <= dyn_bound(spec_encode_dynvec(items), items.len() as int, i + 1),
        forall|i: int|
            0 <= i < items.len() ==> #[trigger] spec_encode_dynvec(items).subrange(
                dyn_bound(spec_encode_dynvec(items), items.len() as int, i),
                dyn_bound(spec_encode_dynvec(items), items.len() as int, i + 1),
            ) == items[i],
{
    lemma_auto_spec_u32_to_from_le_bytes();
    let n = items.len() as int;
    let total = dyn_total(items);
    let enc = spec_encode_dynvec(items);
    let head = dyn_head(items);
    lemma_dynvec_bounds(items);
    lemma_concat_len(items);
    lemma_concat_len(head);
    lemma_sum_lens_uniform(head, 4, n);
    assert(head.take(n) =~= head);
    assert(concat_of(head).len() == 4 * n);
    assert(items.take(n) =~= items);
    assert forall|i: int| 0 <= i < n implies #[trigger] dyn_bound(enc, n, i) <= dyn_bound(
        enc,
        n,
        i + 1,
    ) && enc.subrange(dyn_bound(enc, n, i), dyn_bound(enc, n, i + 1)) == items[i] by {
        lemma_sum_lens_mono(items, i);
        lemma_take_step(items, i);
        lemma_sum_lens_mono(items, i + 1);
        lemma_concat_slice(items, i);
        let lo = sum_lens(items.take(i));
        let pre = spec_u32_to_le_bytes(total as u32) + concat_of(head);
        assert(pre.len() == 4 + 4 * n);
        assert(enc == pre + concat_of(items));
        lemma_shift_subrange(pre, concat_of(items), lo, lo + items[i].len());
        assert(enc.subrange(dyn_offset(items, i), dyn_offset(items, i + 1))
            == concat_of(items).subrange(lo, lo + items[i].len()));
        assert(dyn_bound(enc, n, i) == dyn_offset(items, i));
        assert(dyn_bound(enc, n, i + 1) == dyn_offset(items, i + 1));
    }
}

/// Law: a `dynvec` decodes back to the encoded items, whatever their
/// (possibly differing, possibly zero) lengths.
#[verifier::rlimit(100)]
#[verifier::spinoff_prover]
pub proof fn lemma_dynvec_round_trip(items: Seq<Seq<u8>>)
    requires
        dyn_total(items) <= u32::MAX,
    ensures
        spec_decode_dynvec(spec_encode_dynvec(items)) == Some(items),
{
    lemma_auto_spec_u32_to_from_le_bytes();
    let n = items.len() as int;
    let total = dyn_total(items);
    let enc = spec_encode_dynvec(items);
    lemma_concat_len(items);
    lemma_concat_len(dyn_head(items));
    if n == 0 {
        assert(dyn_head(items) =~= Seq::<Seq<u8>>::empty());
        assert(enc.len() == total);
        assert(enc.take(4) =~= spec_u32_to_le_bytes(total as u32));
        assert(spec_u32_from_le_bytes(enc.take(4)) == total);
        assert(spec_decode_dynvec(enc)->Some_0 =~= items);
    } else {
        lemma_dynvec_bounds(items);
        lemma_dynvec_slices(items);
        assert(enc.len() == total);
        assert(enc.take(4) =~= spec_u32_to_le_bytes(total as u32));
        assert(spec_u32_from_le_bytes(enc.take(4)) == total);
        assert(enc.len() >= 8);
        assert(items.take(0) =~= Seq::<Seq<u8>>::empty());
        assert(dyn_offset(items, 0) == 4 + 4 * n);
        let e = spec_u32_from_le_bytes(enc.subrange(4, 8)) as int;
        assert(dyn_bound(enc, n, 0) == e);
        assert(e == 4 + 4 * n);
        vstd::arithmetic::div_mod::lemma_div_multiples_vanish(1 + n, 4);
        assert(e / 4 == 1 + n);
        assert(e / 4 - 1 == n);
        assert(spec_decode_dynvec(enc) is Some);
        assert(spec_decode_dynvec(enc)->Some_0 =~= items);
    }
}

/// Decode a `dynvec` container.
#[verifier::rlimit(60)]
pub fn decode_dynvec(data: &[u8]) -> (r: Option<Vec<Vec<u8>>>)
    ensures
        r is Some <==> spec_decode_dynvec(data@) is Some,
        r is Some ==> views_of(r->Some_0@) == spec_decode_dynvec(data@)->Some_0,
{
    if data.len() < 4 {
        return None;
    }
    let head4 = slice_subrange(data, 0, 4);
    assert(head4@ =~= data@.take(4));
    let total = u32_from_le_bytes(head4);
    if data.len() > u32::MAX as usize || total as usize != data.len() {
        return None;
    }
    if data.len() == 4 {
        let body: Vec<Vec<u8>> = Vec::new();
        assert(views_of(body@) =~= spec_decode_dynvec(data@)->Some_0);
        return Some(body);
    }
    if data.len() < 8 {
        return None;
    }
    let entry = u32_from_le_bytes(slice_subrange(data, 4, 8));
    let e4 = (entry / 4) as usize;
    if e4 < 2 {
        return None;
    }
    let count = e4 - 1;
    proof {
        vstd::arithmetic::div_mod::lemma_fundamental_div_mod(data@.len() - 4, 4);
        vstd::arithmetic::div_mod::lemma_mod_bound(data@.len() - 4, 4);
    }
    if count > (data.len() - 4) / 4 {
        assert(4 + 4 * count > data@.len());
        return None;
    }
    assert(4 + 4 * count <= data@.len());
    assert(dyn_ctx(data@, count as int));
    let mut bounds: Vec<usize> = Vec::new();
    let mut i: usize = 0;
    while i < count
        invariant
            0 <= i <= count,
            dyn_ctx(data@, count as int),
            bounds@.len() == i,
            forall|j: int|
                0 <= j < i ==> #[trigger] bounds@[j] == dyn_bound(data@, count as int, j),
        decreases count - i,
    {
        let b = u32_from_le_bytes(slice_subrange(data, 4 + 4 * i, 8 + 4 * i));
        bounds.push(b as usize);
        i = i + 1;
    }
    bounds.push(data.len());
    assert(forall|j: int|
        0 <= j <= count ==> #[trigger] bounds@[j] == dyn_bound(data@, count as int, j));
    let mut i: usize = 0;
    while i < count
        invariant
            0 <= i <= count,
            dyn_ctx(data@, count as int),
            bounds@.len() == count + 1,
            forall|j: int|
                0 <= j <= count ==> #[trigger] bounds@[j] == dyn_bound(data@, count as int, j),
            forall|j: int|
                0 <= j < i ==> #[trigger] dyn_bound(data@, count as int, j) <= dyn_bound(
                    data@,
                    count as int,
                    j + 1,
                ),
        decreases count - i,
    {
        let bi = bounds[i];
        let bn = bounds[i + 1];
        if bi > bn {
            proof {
                assert(bounds@[i as int] == dyn_bound(data@, count as int, i as int));
                assert(bounds@[i as int + 1] == dyn_bound(data@, count as int, i as int + 1));
                assert(!(dyn_bound(data@, count as int, i as int) <= dyn_bound(
                    data@,
                    count as int,
                    i as int + 1,
                )));
                assert(spec_decode_dynvec(data@) is None);
            }
            return None;
        }
        i = i + 1;
    }
    proof {
        lemma_chain_le(data@, count as int, 0);
    }
    let mut body: Vec<Vec<u8>> = Vec::new();
    let mut i: usize = 0;
    while i < count
        invariant
            0 <= i <= count,
            dyn_ctx(data@, count as int),
            bounds@.len() == count + 1,
            forall|j: int|
                0 <= j <= count ==> #[trigger] bounds@[j] == dyn_bound(data@, count as int, j),
            forall|j: int|
                0 <= j < count ==> #[trigger] dyn_bound(data@, count as int, j) <= dyn_bound(
                    data@,
                    count as int,
                    j + 1,
                ),
            body@.len() == i,
            forall|j: int|
                0 <= j < i ==> #[trigger] body@[j]@ == data@.subrange(
                    dyn_bound(data@, count as int, j),
                    dyn_bound(data@, count as int, j + 1),
                ),
        decreases count - i,
    {
        proof {
            lemma_chain_le(data@, count as int, i as int + 1);
        }
        body.push(slice_to_vec(slice_subrange(data, bounds[i], bounds[i + 1])));
        i = i + 1;
    }
    proof {
        assert(views_of(body@) =~= spec_decode_dynvec(data@)->Some_0);
    }
    Some(body)
}

} // verus!
