use ckb_rt::blake2b::{blake2b_160, blake2b_256};
use ckb_rt::conversion::{
    Block, BlockV1, CellDep, CellInput, CellOutput, CellbaseWitness, Header, OutPoint, RawHeader,
    RawTransaction, Script, Transaction, UncleBlock, WitnessArgs, SCRIPT_HASH_TYPE_TYPE,
};

fn sample_script() -> Script {
    Script::new([0x11; 32], 1, vec![0xaa, 0xbb, 0xcc])
}

fn sample_out_point() -> OutPoint {
    OutPoint::new([0x22; 32], 7)
}

fn sample_cell_input() -> CellInput {
    CellInput::new(99, sample_out_point())
}

fn sample_cell_output() -> CellOutput {
    CellOutput::new(1234, sample_script(), Some(sample_script()))
}

fn sample_cell_dep() -> CellDep {
    CellDep::new(sample_out_point(), 1)
}

fn sample_raw_header() -> RawHeader {
    RawHeader::new(
        1,
        2,
        3,
        4,
        5,
        [0x31; 32],
        [0x32; 32],
        [0x33; 32],
        [0x34; 32],
        [0x35; 32],
    )
}

fn sample_header() -> Header {
    Header::new(sample_raw_header(), 0x42)
}

fn sample_raw_transaction() -> RawTransaction {
    RawTransaction::new(
        0,
        vec![sample_cell_dep()],
        vec![[0x44; 32], [0x45; 32]],
        vec![sample_cell_input()],
        vec![sample_cell_output(), CellOutput::new(77, sample_script(), None)],
        vec![vec![], vec![0xde, 0xad]],
    )
}

fn sample_transaction() -> Transaction {
    Transaction::new(sample_raw_transaction(), vec![vec![0x77], vec![]])
}

#[test]
fn script_round_trip() {
    let s = sample_script();
    let e = s.molecule();
    assert_eq!(Script::molecule_decode(&e), Some(s));
}

#[test]
fn script_type_id() {
    let s = Script::new_type_id(vec![1, 2]);
    assert_eq!(s.hash_type, SCRIPT_HASH_TYPE_TYPE);
    assert_eq!(&s.code_hash[25..], b"TYPE_ID");
    assert_eq!(&s.code_hash[..25], &[0u8; 25]);
    assert_eq!(s.args, vec![1, 2]);
}

#[test]
fn script_hash_is_digest_of_encoding() {
    let s = sample_script();
    let h = s.hash();
    assert_eq!(h, blake2b_256(&s.molecule()));
    // a different script hashes differently
    let s2 = Script::new([0x12; 32], 1, vec![0xaa, 0xbb, 0xcc]);
    assert_ne!(h, s2.hash());
}

#[test]
fn blake2b_160_is_truncated_256() {
    let h = blake2b_256(b"abc");
    let t = blake2b_160(b"abc");
    assert_eq!(&h[..20], &t[..]);
    assert_ne!(blake2b_256(b"abc"), blake2b_256(b"abd"));
}

#[test]
fn out_point_round_trip() {
    let v = sample_out_point();
    let e = v.molecule();
    assert_eq!(e.len(), OutPoint::molecule_size());
    assert_eq!(OutPoint::molecule_decode(&e), Some(v));
    assert_eq!(OutPoint::molecule_decode(&e[..35]), None);
}

#[test]
fn cell_input_round_trip() {
    let v = sample_cell_input();
    let e = v.molecule();
    assert_eq!(e.len(), CellInput::molecule_size());
    assert_eq!(CellInput::molecule_decode(&e), Some(v));
}

#[test]
fn cell_dep_round_trip() {
    let v = sample_cell_dep();
    let e = v.molecule();
    assert_eq!(e.len(), CellDep::molecule_size());
    assert_eq!(CellDep::molecule_decode(&e), Some(v));
}

#[test]
fn cell_output_round_trip() {
    let v = sample_cell_output();
    let e = v.molecule();
    assert_eq!(CellOutput::molecule_decode(&e), Some(v));
    // absent type script round-trips as absent
    let v = CellOutput::new(5, sample_script(), None);
    let e = v.molecule();
    assert_eq!(CellOutput::molecule_decode(&e), Some(v));
}

#[test]
fn witness_args_round_trip() {
    let v = WitnessArgs::new(Some(vec![1, 2, 3]), None, Some(vec![]));
    let e = v.molecule();
    assert_eq!(WitnessArgs::molecule_decode(&e), Some(v));
    let v = WitnessArgs::new(None, None, None);
    let e = v.molecule();
    assert_eq!(WitnessArgs::molecule_decode(&e), Some(v));
}

#[test]
fn raw_header_round_trip() {
    let v = sample_raw_header();
    let e = v.molecule();
    assert_eq!(e.len(), RawHeader::molecule_size());
    assert_eq!(e.len(), 192);
    assert_eq!(RawHeader::molecule_decode(&e), Some(v));
}

#[test]
fn header_round_trip() {
    let v = sample_header();
    let e = v.molecule();
    assert_eq!(e.len(), Header::molecule_size());
    assert_eq!(e.len(), 208);
    assert_eq!(Header::molecule_decode(&e), Some(v));
}

#[test]
fn raw_transaction_round_trip() {
    let v = sample_raw_transaction();
    let e = v.molecule();
    assert_eq!(RawTransaction::molecule_decode(&e), Some(v));
}

#[test]
fn transaction_round_trip() {
    let v = sample_transaction();
    let e = v.molecule();
    assert_eq!(Transaction::molecule_decode(&e), Some(v));
}

#[test]
fn uncle_block_round_trip() {
    let v = UncleBlock::new(sample_header(), vec![vec![0x51; 10], vec![0x52; 10]]);
    let e = v.molecule();
    assert_eq!(UncleBlock::molecule_decode(&e), Some(v));
}

#[test]
fn block_round_trip() {
    let v = Block::new(
        sample_header(),
        vec![UncleBlock::new(sample_header(), vec![])],
        vec![sample_transaction()],
        vec![vec![0x61; 10]],
    );
    let e = v.molecule();
    assert_eq!(Block::molecule_decode(&e), Some(v));
}

#[test]
fn block_v1_round_trip() {
    let v = BlockV1::new(
        sample_header(),
        vec![],
        vec![sample_transaction()],
        vec![vec![0x62; 10]],
        vec![0xee, 0xff],
    );
    let e = v.molecule();
    assert_eq!(BlockV1::molecule_decode(&e), Some(v));
}

#[test]
fn cellbase_witness_round_trip() {
    let v = CellbaseWitness::new(sample_script(), vec![0x01, 0x02]);
    let e = v.molecule();
    assert_eq!(CellbaseWitness::molecule_decode(&e), Some(v));
}

#[test]
fn record_decode_rejects_malformed() {
    // too few fields in the dynvec
    let e = ckb_rt::molecule::encode_dynvec(&vec![vec![0x11; 32], vec![1]]);
    assert_eq!(Script::molecule_decode(&e), None);
    // wrong field width
    let e = ckb_rt::molecule::encode_dynvec(&vec![
        vec![0x11; 31],
        vec![1],
        ckb_rt::molecule::encode_bytes(&[]),
    ]);
    assert_eq!(Script::molecule_decode(&e), None);
    // corrupted total length
    let mut e = sample_script().molecule();
    e[0] = e[0].wrapping_add(1);
    assert_eq!(Script::molecule_decode(&e), None);
}
