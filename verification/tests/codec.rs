use ckb_rt::molecule::{
    decode_byte, decode_byte32, decode_bytes, decode_dynvec, decode_fixvec, decode_seq,
    decode_u128, decode_u32, decode_u64, encode_byte, encode_byte32, encode_bytes, encode_dynvec,
    encode_fixvec, encode_seq, encode_u128, encode_u32, encode_u64,
};

#[test]
fn byte_round_trip() {
    let e = encode_byte(0x5a);
    assert_eq!(e, vec![0x5a]);
    assert_eq!(decode_byte(&e), Some(0x5a));
    assert_eq!(decode_byte(&[]), None);
    assert_eq!(decode_byte(&[1, 2]), None);
}

#[test]
fn byte32_round_trip() {
    let mut h = [0u8; 32];
    for i in 0..32 {
        h[i] = i as u8;
    }
    let e = encode_byte32(h);
    assert_eq!(e.len(), 32);
    assert_eq!(decode_byte32(&e), Some(h));
    assert_eq!(decode_byte32(&e[..31]), None);
}

#[test]
fn scalar_round_trips() {
    let e = encode_u32(0xdead_beef);
    assert_eq!(e, vec![0xef, 0xbe, 0xad, 0xde]);
    assert_eq!(decode_u32(&e), Some(0xdead_beef));
    assert_eq!(decode_u32(&e[..3]), None);

    let e = encode_u64(0x0102_0304_0506_0708);
    assert_eq!(e, vec![8, 7, 6, 5, 4, 3, 2, 1]);
    assert_eq!(decode_u64(&e), Some(0x0102_0304_0506_0708));
    assert_eq!(decode_u64(&[0; 7]), None);

    let e = encode_u128(1);
    assert_eq!(e.len(), 16);
    assert_eq!(decode_u128(&e), Some(1));
    assert_eq!(decode_u128(&[0; 15]), None);
}

#[test]
fn bytes_round_trip() {
    let e = encode_bytes(&[9, 8, 7]);
    assert_eq!(e, vec![3, 0, 0, 0, 9, 8, 7]);
    assert_eq!(decode_bytes(&e), Some(vec![9, 8, 7]));
    let e = encode_bytes(&[]);
    assert_eq!(e, vec![0, 0, 0, 0]);
    assert_eq!(decode_bytes(&e), Some(vec![]));
}

#[test]
fn bytes_rejects_wrong_length_prefix() {
    // declared length 5, only 3 payload bytes
    assert_eq!(decode_bytes(&[5, 0, 0, 0, 9, 8, 7]), None);
    assert_eq!(decode_bytes(&[1, 0]), None);
}

#[test]
fn dynvec_concrete_wire_form() {
    // 15 bytes in all: the 4-byte total, offsets 12 and 13, then the items
    let items = vec![vec![0xAA], vec![0xBB, 0xBB]];
    let e = encode_dynvec(&items);
    assert_eq!(
        e,
        vec![0x0F, 0, 0, 0, 0x0C, 0, 0, 0, 0x0D, 0, 0, 0, 0xAA, 0xBB, 0xBB]
    );
    assert_eq!(decode_dynvec(&e), Some(items));
}

#[test]
fn dynvec_empty_round_trip() {
    let e = encode_dynvec(&vec![]);
    assert_eq!(e, vec![4, 0, 0, 0]);
    assert_eq!(decode_dynvec(&e), Some(vec![]));
}

#[test]
fn dynvec_empty_items_round_trip() {
    // absent optional fields are zero-length items
    let items = vec![vec![], vec![1, 2], vec![]];
    let e = encode_dynvec(&items);
    assert_eq!(decode_dynvec(&e), Some(items));
}

#[test]
fn dynvec_rejects_bad_total_length() {
    // first four bytes must equal the buffer's length exactly
    let mut e = encode_dynvec(&vec![vec![0xAA]]);
    e[0] = e[0].wrapping_add(1);
    assert_eq!(decode_dynvec(&e), None);
    assert_eq!(decode_dynvec(&[0x0E, 0, 0, 0]), None);
    assert_eq!(decode_dynvec(&[1, 2]), None);
}

#[test]
fn dynvec_rejects_trailing_bytes_with_zero_offsets() {
    // a 4-byte header claiming zero offsets but with trailing bytes
    assert_eq!(decode_dynvec(&[8, 0, 0, 0, 4, 0, 0, 0]), None);
}

#[test]
fn dynvec_rejects_descending_offsets() {
    // total 14, offsets 13 then 12: not monotone
    let e = vec![0x0E, 0, 0, 0, 0x0D, 0, 0, 0, 0x0C, 0, 0, 0, 0xAA, 0xBB, 0xBB];
    assert_eq!(decode_dynvec(&e), None);
}

#[test]
fn fixvec_round_trip() {
    let items = vec![vec![1, 2], vec![3, 4], vec![5, 6]];
    let e = encode_fixvec(&items);
    assert_eq!(e, vec![3, 0, 0, 0, 1, 2, 3, 4, 5, 6]);
    assert_eq!(decode_fixvec(&e), Some(items));
}

#[test]
fn fixvec_empty_round_trip() {
    let e = encode_fixvec(&vec![]);
    assert_eq!(e, vec![0, 0, 0, 0]);
    assert_eq!(decode_fixvec(&e), Some(vec![]));
    assert_eq!(decode_fixvec(&[0, 0]), None);
}

#[test]
fn seq_round_trip() {
    let items = vec![vec![1u8], vec![2, 3], vec![4, 5, 6]];
    let e = encode_seq(&items);
    assert_eq!(e, vec![1, 2, 3, 4, 5, 6]);
    assert_eq!(decode_seq(&e, &[1, 2, 3]), Some(items));
}

#[test]
fn seq_rejects_short_buffer() {
    // buffer shorter than the sum of the declared sizes
    assert_eq!(decode_seq(&[1, 2, 3], &[2, 2]), None);
    // trailing bytes beyond the declared sizes are ignored
    assert_eq!(decode_seq(&[1, 2, 3], &[2]), Some(vec![vec![1, 2]]));
}

#[test]
fn fixvec_ignores_remainder_bytes() {
    // 10 body bytes over 3 elements: size 3, last byte ignored
    let e = vec![3, 0, 0, 0, 1, 2, 3, 4, 5, 6, 7, 8, 9, 10];
    assert_eq!(
        decode_fixvec(&e),
        Some(vec![vec![1, 2, 3], vec![4, 5, 6], vec![7, 8, 9]])
    );
}
