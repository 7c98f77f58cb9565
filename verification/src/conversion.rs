//! The fixed chain-record schema: each record is a compile-time-fixed
//! composition of the container and scalar shapes of [`crate::molecule`],
//! reproduced bit-exactly. Encoding states the exact wire bytes; decoding
//! states exactly which buffers are accepted and what each field holds.

use crate::blake2b::{blake2b256_of, blake2b_256};
use crate::molecule::{
    concat_of, decode_byte, decode_byte32, decode_bytes, decode_dynvec, decode_fixvec, decode_seq,
    decode_u128, decode_u32, decode_u64, encode_byte, encode_byte32, encode_bytes, encode_dynvec,
    encode_fixvec, encode_seq, encode_u128, encode_u32, encode_u64, lemma_cat10, lemma_cat2,
    lemma_concat_len, lemma_dynvec_len, lemma_fixvec_len, lemma_item_le_sum, lemma_sum3,
    lemma_sum4, lemma_sum5, lemma_sum6, lemma_sum_lens_uniform, lemma_sum_of_take,
    lemma_u128_bytes_len, lemma_u32_bytes_len, lemma_u64_bytes_len, spec_decode_bytes,
    spec_decode_dynvec, spec_decode_fixvec, spec_decode_seq, spec_encode_bytes,
    spec_encode_dynvec, spec_encode_fixvec, sum_lens, sum_of, views_of,
};
use vstd::bytes::*;
use vstd::prelude::*;

verus! {

/// The `data` hash-type discriminant.
pub const SCRIPT_HASH_TYPE_DATA: u8 = 0;

/// The `type` hash-type discriminant.
pub const SCRIPT_HASH_TYPE_TYPE: u8 = 1;

/// The `data1` hash-type discriminant.
pub const SCRIPT_HASH_TYPE_DATA1: u8 = 2;

/// The `data2` hash-type discriminant.
pub const SCRIPT_HASH_TYPE_DATA2: u8 = 4;

// ---------------------------------------------------------------------------
// Script
// ---------------------------------------------------------------------------

/// A lock or type script reference: code hash, hash type, and arguments.
#[derive(Clone, Debug, Default, Eq, Hash, PartialEq)]
pub struct Script {
    pub code_hash: [u8; 32],
    pub hash_type: u8,
    pub args: Vec<u8>,
}

/// Mathematical image of a [`Script`].
pub ghost struct ScriptV {
    pub code_hash: Seq<u8>,
    pub hash_type: u8,
    pub args: Seq<u8>,
}

impl View for Script {
    type V = ScriptV;

    open spec fn view(&self) -> ScriptV {
        ScriptV { code_hash: self.code_hash@, hash_type: self.hash_type, args: self.args@ }
    }
}

/// The code hash reserved for type-id scripts: 25 zero bytes followed by
/// the ASCII string "TYPE_ID".
pub open spec fn type_id_code_hash() -> Seq<u8> {
    seq![
        0x00u8, 0x00, 0x00, 0x00, 0x00, 0x00, 0x00, 0x00, 0x00, 0x00, 0x00, 0x00, 0x00, 0x00,
        0x00, 0x00, 0x00, 0x00, 0x00, 0x00, 0x00, 0x00, 0x00, 0x00, 0x00, 0x54, 0x59, 0x50,
        0x45, 0x5f, 0x49, 0x44,
    ]
}

/// Wire form of a script: a `dynvec` of code hash, hash type and arguments.
pub open spec fn spec_script_enc(v: ScriptV) -> Seq<u8> {
    spec_encode_dynvec(seq![v.code_hash, seq![v.hash_type], spec_encode_bytes(v.args)])
}

/// Structural parse of a script.
pub open spec fn spec_script_dec(data: Seq<u8>) -> Option<ScriptV> {
    match spec_decode_dynvec(data) {
        Option::None => Option::None,
        Option::Some(p) => {
            if p.len() >= 3 && p[0].len() == 32 && p[1].len() == 1 && spec_decode_bytes(p[2])
                is Some {
                Option::Some(
                    ScriptV {
                        code_hash: p[0],
                        hash_type: p[1][0],
                        args: spec_decode_bytes(p[2])->Some_0,
                    },
                )
            } else {
                Option::None
            }
        },
    }
}

impl Script {
    pub fn new(code_hash: [u8; 32], hash_type: u8, args: Vec<u8>) -> (r: Self)
        ensures
            r@ == (ScriptV { code_hash: code_hash@, hash_type, args: args@ }),
    {
        Self { code_hash, hash_type, args }
    }

    /// A type-id script: the reserved code hash, hash type `type`, and the
    /// given arguments.
    pub fn new_type_id(args: Vec<u8>) -> (r: Self)
        ensures
            r@ == (ScriptV {
                code_hash: type_id_code_hash(),
                hash_type: SCRIPT_HASH_TYPE_TYPE,
                args: args@,
            }),
    {
        let code_hash: [u8; 32] = [
            0x00, 0x00, 0x00, 0x00, 0x00, 0x00, 0x00, 0x00, 0x00, 0x00, 0x00, 0x00, 0x00, 0x00,
            0x00, 0x00, 0x00, 0x00, 0x00, 0x00, 0x00, 0x00, 0x00, 0x00, 0x00, 0x54, 0x59, 0x50,
            0x45, 0x5f, 0x49, 0x44,
        ];
        proof {
            assert(code_hash@ =~= type_id_code_hash());
        }
        Self { code_hash, hash_type: SCRIPT_HASH_TYPE_TYPE, args }
    }

    pub fn molecule(&self) -> (r: Vec<u8>)
        requires
            spec_script_enc(self@).len() <= u32::MAX,
        ensures
            r@ == spec_script_enc(self@),
    {
        let ghost items = seq![self@.code_hash, seq![self@.hash_type], spec_encode_bytes(
            self@.args,
        )];
        proof {
            lemma_dynvec_len(items);
            lemma_u32_bytes_len();
            assert(items =~= seq![items[0], items[1], items[2]]);
            lemma_sum3(items[0], items[1], items[2]);
        }
        let mut parts: Vec<Vec<u8>> = Vec::new();
        parts.push(encode_byte32(self.code_hash));
        parts.push(encode_byte(self.hash_type));
        parts.push(encode_bytes(self.args.as_slice()));
        proof {
            assert(views_of(parts@) =~= items);
        }
        encode_dynvec(&parts)
    }

    pub fn molecule_decode(data: &[u8]) -> (r: Option<Self>)
        ensures
            r is Some <==> spec_script_dec(data@) is Some,
            r is Some ==> r->Some_0@ == spec_script_dec(data@)->Some_0,
    {
        let parts = match decode_dynvec(data) {
            Some(p) => p,
            None => {
                return None;
            },
        };
        proof {
            assert(parts@.len() == views_of(parts@).len());
            assert(forall|i: int|
                0 <= i < parts@.len() ==> views_of(parts@)[i] == #[trigger] parts@[i]@);
        }
        if parts.len() < 3 {
            return None;
        }
        let code_hash = match decode_byte32(parts[0].as_slice()) {
            Some(v) => v,
            None => {
                return None;
            },
        };
        let hash_type = match decode_byte(parts[1].as_slice()) {
            Some(v) => v,
            None => {
                return None;
            },
        };
        let args = match decode_bytes(parts[2].as_slice()) {
            Some(v) => v,
            None => {
                return None;
            },
        };
        Some(Self { code_hash, hash_type, args })
    }

    /// The script hash: the blake2b digest of the script's wire form.
    pub fn hash(&self) -> (r: [u8; 32])
        requires
            spec_script_enc(self@).len() <= u32::MAX,
        ensures
            r@ == blake2b256_of(spec_script_enc(self@)),
    {
        let encoded = self.molecule();
        blake2b_256(encoded.as_slice())
    }
}

/// Law: a well-formed script decodes back from its own encoding.
pub proof fn lemma_script_round_trip(v: ScriptV)
    requires
        v.code_hash.len() == 32,
        spec_script_enc(v).len() <= u32::MAX,
    ensures
        spec_script_dec(spec_script_enc(v)) == Some(v),
{
    let items = seq![v.code_hash, seq![v.hash_type], spec_encode_bytes(v.args)];
    lemma_u32_bytes_len();
    lemma_dynvec_len(items);
    assert(items =~= seq![items[0], items[1], items[2]]);
    lemma_sum3(items[0], items[1], items[2]);
    crate::molecule::lemma_dynvec_round_trip(items);
    crate::molecule::lemma_bytes_round_trip(v.args);
    assert(spec_script_dec(spec_script_enc(v))->Some_0 == v);
}

// ---------------------------------------------------------------------------
// OutPoint
// ---------------------------------------------------------------------------

/// A reference to a transaction output: transaction hash and output index.
#[derive(Clone, Debug, Default, Eq, Hash, PartialEq)]
pub struct OutPoint {
    pub tx_hash: [u8; 32],
    pub index: u32,
}

/// Mathematical image of an [`OutPoint`].
pub ghost struct OutPointV {
    pub tx_hash: Seq<u8>,
    pub index: u32,
}

impl View for OutPoint {
    type V = OutPointV;

    open spec fn view(&self) -> OutPointV {
        OutPointV { tx_hash: self.tx_hash@, index: self.index }
    }
}

/// Wire form of an out-point: a `seq` of transaction hash and index.
pub open spec fn spec_outpoint_enc(v: OutPointV) -> Seq<u8> {
    concat_of(seq![v.tx_hash, spec_u32_to_le_bytes(v.index)])
}

/// Structural parse of an out-point against its fixed 36-byte layout.
pub open spec fn spec_outpoint_dec(data: Seq<u8>) -> Option<OutPointV> {
    match spec_decode_seq(data, seq![32usize, 4usize]) {
        Option::None => Option::None,
        Option::Some(p) => Option::Some(
            OutPointV { tx_hash: p[0], index: spec_u32_from_le_bytes(p[1]) },
        ),
    }
}

impl OutPoint {
    pub fn new(tx_hash: [u8; 32], index: u32) -> (r: Self)
        ensures
            r@ == (OutPointV { tx_hash: tx_hash@, index }),
    {
        Self { tx_hash, index }
    }

    pub fn molecule(&self) -> (r: Vec<u8>)
        ensures
            r@ == spec_outpoint_enc(self@),
            r@.len() == 36,
    {
        proof {
            lemma_u32_bytes_len();
            lemma_cat2(self@.tx_hash, spec_u32_to_le_bytes(self@.index));
        }
        let mut parts: Vec<Vec<u8>> = Vec::new();
        parts.push(encode_byte32(self.tx_hash));
        parts.push(encode_u32(self.index));
        let r = encode_seq(&parts);
        proof {
            assert(views_of(parts@) =~= seq![self@.tx_hash, spec_u32_to_le_bytes(self@.index)]);
        }
        r
    }

    pub fn molecule_decode(data: &[u8]) -> (r: Option<Self>)
        ensures
            r is Some <==> spec_outpoint_dec(data@) is Some,
            r is Some ==> r->Some_0@ == spec_outpoint_dec(data@)->Some_0,
    {
        let mut sizes: Vec<usize> = Vec::new();
        sizes.push(32);
        sizes.push(4);
        proof {
            assert(sizes@ =~= seq![32usize, 4usize]);
            lemma_sum_of_take(sizes@, 0);
            lemma_sum_of_take(sizes@, 1);
        }
        let parts = match decode_seq(data, sizes.as_slice()) {
            Some(p) => p,
            None => {
                return None;
            },
        };
        proof {
            assert(parts@.len() == views_of(parts@).len());
            assert(parts@.len() == 2);
            assert(forall|i: int|
                0 <= i < parts@.len() ==> views_of(parts@)[i] == #[trigger] parts@[i]@);
        }
        let tx_hash = match decode_byte32(parts[0].as_slice()) {
            Some(v) => v,
            None => {
                return None;
            },
        };
        let index = match decode_u32(parts[1].as_slice()) {
            Some(v) => v,
            None => {
                return None;
            },
        };
        Some(Self { tx_hash, index })
    }

    /// The fixed wire size of an out-point.
    pub fn molecule_size() -> (r: usize)
        ensures
            r == 36,
    {
        36
    }
}

/// Law: a well-formed out-point decodes back from its own encoding.
pub proof fn lemma_outpoint_round_trip(v: OutPointV)
    requires
        v.tx_hash.len() == 32,
    ensures
        spec_outpoint_dec(spec_outpoint_enc(v)) == Some(v),
{
    let items = seq![v.tx_hash, spec_u32_to_le_bytes(v.index)];
    let sizes = seq![32usize, 4usize];
    lemma_u32_bytes_len();
    assert(items =~= seq![items[0], items[1]]);
    lemma_cat2(items[0], items[1]);
    crate::molecule::lemma_seq_round_trip(items, sizes);
    proof_u32_round(v.index);
    assert(spec_outpoint_dec(spec_outpoint_enc(v))->Some_0 == v);
}

proof fn proof_u32_round(x: u32)
    ensures
        spec_u32_from_le_bytes(spec_u32_to_le_bytes(x)) == x,
{
    vstd::bytes::lemma_auto_spec_u32_to_from_le_bytes();
    assert(spec_u32_to_le_bytes(x).len() == 4);
}

// ---------------------------------------------------------------------------
// CellInput
// ---------------------------------------------------------------------------

/// A transaction input: a since condition and the consumed out-point.
#[derive(Clone, Debug, Default, Eq, Hash, PartialEq)]
pub struct CellInput {
    pub since: u64,
    pub previous_output: OutPoint,
}

/// Mathematical image of a [`CellInput`].
pub ghost struct CellInputV {
    pub since: u64,
    pub previous_output: OutPointV,
}

impl View for CellInput {
    type V = CellInputV;

    open spec fn view(&self) -> CellInputV {
        CellInputV { since: self.since, previous_output: self.previous_output@ }
    }
}

/// Wire form of a cell input: a `seq` of since and out-point.
pub open spec fn spec_cellinput_enc(v: CellInputV) -> Seq<u8> {
    concat_of(seq![spec_u64_to_le_bytes(v.since), spec_outpoint_enc(v.previous_output)])
}

/// Structural parse of a cell input against its fixed 44-byte layout.
pub open spec fn spec_cellinput_dec(data: Seq<u8>) -> Option<CellInputV> {
    match spec_decode_seq(data, seq![8usize, 36usize]) {
        Option::None => Option::None,
        Option::Some(p) => match spec_outpoint_dec(p[1]) {
            Option::None => Option::None,
            Option::Some(op) => Option::Some(
                CellInputV { since: spec_u64_from_le_bytes(p[0]), previous_output: op },
            ),
        },
    }
}

impl CellInput {
    pub fn new(since: u64, previous_output: OutPoint) -> (r: Self)
        ensures
            r@ == (CellInputV { since, previous_output: previous_output@ }),
    {
        Self { since, previous_output }
    }

    pub fn molecule(&self) -> (r: Vec<u8>)
        ensures
            r@ == spec_cellinput_enc(self@),
            r@.len() == 44,
    {
        proof {
            lemma_u64_bytes_len();
            lemma_cat2(
                spec_u64_to_le_bytes(self@.since),
                spec_outpoint_enc(self@.previous_output),
            );
        }
        let mut parts: Vec<Vec<u8>> = Vec::new();
        parts.push(encode_u64(self.since));
        parts.push(self.previous_output.molecule());
        let r = encode_seq(&parts);
        proof {
            assert(views_of(parts@) =~= seq![spec_u64_to_le_bytes(self@.since), spec_outpoint_enc(
                self@.previous_output,
            )]);
        }
        r
    }

    pub fn molecule_decode(data: &[u8]) -> (r: Option<Self>)
        ensures
            r is Some <==> spec_cellinput_dec(data@) is Some,
            r is Some ==> r->Some_0@ == spec_cellinput_dec(data@)->Some_0,
    {
        let mut sizes: Vec<usize> = Vec::new();
        sizes.push(8);
        sizes.push(36);
        proof {
            assert(sizes@ =~= seq![8usize, 36usize]);
            lemma_sum_of_take(sizes@, 0);
            lemma_sum_of_take(sizes@, 1);
        }
        let parts = match decode_seq(data, sizes.as_slice()) {
            Some(p) => p,
            None => {
                return None;
            },
        };
        proof {
            assert(parts@.len() == views_of(parts@).len());
            assert(parts@.len() == 2);
            assert(forall|i: int|
                0 <= i < parts@.len() ==> views_of(parts@)[i] == #[trigger] parts@[i]@);
        }
        let since = match decode_u64(parts[0].as_slice()) {
            Some(v) => v,
            None => {
                return None;
            },
        };
        let previous_output = match OutPoint::molecule_decode(parts[1].as_slice()) {
            Some(v) => v,
            None => {
                return None;
            },
        };
        Some(Self { since, previous_output })
    }

    /// The fixed wire size of a cell input.
    pub fn molecule_size() -> (r: usize)
        ensures
            r == 44,
    {
        44
    }
}

// ---------------------------------------------------------------------------
// CellDep
// ---------------------------------------------------------------------------

/// A cell dependency: an out-point and a dependency type.
#[derive(Clone, Debug, Default, Eq, Hash, PartialEq)]
pub struct CellDep {
    pub out_point: OutPoint,
    pub dep_type: u8,
}

/// Mathematical image of a [`CellDep`].
pub ghost struct CellDepV {
    pub out_point: OutPointV,
    pub dep_type: u8,
}

impl View for CellDep {
    type V = CellDepV;

    open spec fn view(&self) -> CellDepV {
        CellDepV { out_point: self.out_point@, dep_type: self.dep_type }
    }
}

/// Wire form of a cell dependency: a `seq` of out-point and dep type.
pub open spec fn spec_celldep_enc(v: CellDepV) -> Seq<u8> {
    concat_of(seq![spec_outpoint_enc(v.out_point), seq![v.dep_type]])
}

/// Structural parse of a cell dependency against its fixed 37-byte layout.
pub open spec fn spec_celldep_dec(data: Seq<u8>) -> Option<CellDepV> {
    match spec_decode_seq(data, seq![36usize, 1usize]) {
        Option::None => Option::None,
        Option::Some(p) => match spec_outpoint_dec(p[0]) {
            Option::None => Option::None,
            Option::Some(op) => Option::Some(CellDepV { out_point: op, dep_type: p[1][0] }),
        },
    }
}

impl CellDep {
    pub fn new(out_point: OutPoint, dep_type: u8) -> (r: Self)
        ensures
            r@ == (CellDepV { out_point: out_point@, dep_type }),
    {
        Self { out_point, dep_type }
    }

    pub fn molecule(&self) -> (r: Vec<u8>)
        ensures
            r@ == spec_celldep_enc(self@),
            r@.len() == 37,
    {
        proof {
            lemma_cat2(spec_outpoint_enc(self@.out_point), seq![self@.dep_type]);
        }
        let mut parts: Vec<Vec<u8>> = Vec::new();
        parts.push(self.out_point.molecule());
        parts.push(encode_byte(self.dep_type));
        let r = encode_seq(&parts);
        proof {
            assert(views_of(parts@) =~= seq![spec_outpoint_enc(self@.out_point), seq![
                self@.dep_type,
            ]]);
        }
        r
    }

    pub fn molecule_decode(data: &[u8]) -> (r: Option<Self>)
        ensures
            r is Some <==> spec_celldep_dec(data@) is Some,
            r is Some ==> r->Some_0@ == spec_celldep_dec(data@)->Some_0,
    {
        let mut sizes: Vec<usize> = Vec::new();
        sizes.push(36);
        sizes.push(1);
        proof {
            assert(sizes@ =~= seq![36usize, 1usize]);
            lemma_sum_of_take(sizes@, 0);
            lemma_sum_of_take(sizes@, 1);
        }
        let parts = match decode_seq(data, sizes.as_slice()) {
            Some(p) => p,
            None => {
                return None;
            },
        };
        proof {
            assert(parts@.len() == views_of(parts@).len());
            assert(parts@.len() == 2);
            assert(forall|i: int|
                0 <= i < parts@.len() ==> views_of(parts@)[i] == #[trigger] parts@[i]@);
        }
        let out_point = match OutPoint::molecule_decode(parts[0].as_slice()) {
            Some(v) => v,
            None => {
                return None;
            },
        };
        let dep_type = match decode_byte(parts[1].as_slice()) {
            Some(v) => v,
            None => {
                return None;
            },
        };
        Some(Self { out_point, dep_type })
    }

    /// The fixed wire size of a cell dependency.
    pub fn molecule_size() -> (r: usize)
        ensures
            r == 37,
    {
        37
    }
}

// ---------------------------------------------------------------------------
// CellOutput
// ---------------------------------------------------------------------------

/// A transaction output: capacity, lock script, and optional type script.
#[derive(Clone, Debug, Default, Eq, Hash, PartialEq)]
pub struct CellOutput {
    pub capacity: u64,
    pub lock: Script,
    pub kype: Option<Script>,
}

/// Mathematical image of a [`CellOutput`].
pub ghost struct CellOutputV {
    pub capacity: u64,
    pub lock: ScriptV,
    pub kype: Option<ScriptV>,
}

impl View for CellOutput {
    type V = CellOutputV;

    open spec fn view(&self) -> CellOutputV {
        CellOutputV {
            capacity: self.capacity,
            lock: self.lock@,
            kype: match self.kype {
                Option::Some(k) => Option::Some(k@),
                Option::None => Option::None,
            },
        }
    }
}

/// The three `dynvec` items of a cell output: capacity, lock script, and
/// type script; an absent type script is a zero-length item.
pub open spec fn spec_celloutput_items(v: CellOutputV) -> Seq<Seq<u8>> {
    seq![
        spec_u64_to_le_bytes(v.capacity),
        spec_script_enc(v.lock),
        match v.kype {
            Option::Some(k) => spec_script_enc(k),
            Option::None => Seq::empty(),
        },
    ]
}

/// Wire form of a cell output.
pub open spec fn spec_celloutput_enc(v: CellOutputV) -> Seq<u8> {
    spec_encode_dynvec(spec_celloutput_items(v))
}

/// Structural parse of a cell output. A zero-length third field is an
/// absent type script.
pub open spec fn spec_celloutput_dec(data: Seq<u8>) -> Option<CellOutputV> {
    match spec_decode_dynvec(data) {
        Option::None => Option::None,
        Option::Some(p) => {
            if p.len() >= 3 && p[0].len() == 8 && spec_script_dec(p[1]) is Some && (p[2].len()
                == 0 || spec_script_dec(p[2]) is Some) {
                Option::Some(
                    CellOutputV {
                        capacity: spec_u64_from_le_bytes(p[0]),
                        lock: spec_script_dec(p[1])->Some_0,
                        kype: if p[2].len() == 0 {
                            Option::None
                        } else {
                            Option::Some(spec_script_dec(p[2])->Some_0)
                        },
                    },
                )
            } else {
                Option::None
            }
        },
    }
}

impl CellOutput {
    pub fn new(capacity: u64, lock: Script, kype: Option<Script>) -> (r: Self)
        ensures
            r@.capacity == capacity,
            r@.lock == lock@,
            kype is Some ==> r@.kype == Option::Some(kype->Some_0@),
            kype is None ==> r@.kype is None,
    {
        Self { capacity, lock, kype }
    }

    pub fn molecule(&self) -> (r: Vec<u8>)
        requires
            spec_celloutput_enc(self@).len() <= u32::MAX,
        ensures
            r@ == spec_celloutput_enc(self@),
    {
        let ghost items = spec_celloutput_items(self@);
        proof {
            lemma_dynvec_len(items);
            lemma_u64_bytes_len();
            assert(items =~= seq![items[0], items[1], items[2]]);
            lemma_sum3(items[0], items[1], items[2]);
        }
        let mut parts: Vec<Vec<u8>> = Vec::new();
        parts.push(encode_u64(self.capacity));
        parts.push(self.lock.molecule());
        let kype_part = match &self.kype {
            Some(kype) => kype.molecule(),
            None => Vec::new(),
        };
        parts.push(kype_part);
        proof {
            assert(views_of(parts@) =~= items);
        }
        encode_dynvec(&parts)
    }

    pub fn molecule_decode(data: &[u8]) -> (r: Option<Self>)
        ensures
            r is Some <==> spec_celloutput_dec(data@) is Some,
            r is Some ==> r->Some_0@ == spec_celloutput_dec(data@)->Some_0,
    {
        let parts = match decode_dynvec(data) {
            Some(p) => p,
            None => {
                return None;
            },
        };
        proof {
            assert(parts@.len() == views_of(parts@).len());
            assert(forall|i: int|
                0 <= i < parts@.len() ==> views_of(parts@)[i] == #[trigger] parts@[i]@);
        }
        if parts.len() < 3 {
            return None;
        }
        let capacity = match decode_u64(parts[0].as_slice()) {
            Some(v) => v,
            None => {
                return None;
            },
        };
        let lock = match Script::molecule_decode(parts[1].as_slice()) {
            Some(v) => v,
            None => {
                return None;
            },
        };
        let kype = if parts[2].len() > 0 {
            match Script::molecule_decode(parts[2].as_slice()) {
                Some(v) => Some(v),
                None => {
                    return None;
                },
            }
        } else {
            None
        };
        Some(Self { capacity, lock, kype })
    }
}

// ---------------------------------------------------------------------------
// WitnessArgs
// ---------------------------------------------------------------------------

/// Witness arguments: three optional byte blobs for lock, input type and
/// output type.
#[derive(Clone, Debug, Default, Eq, Hash, PartialEq)]
pub struct WitnessArgs {
    pub lock: Option<Vec<u8>>,
    pub input_type: Option<Vec<u8>>,
    pub output_type: Option<Vec<u8>>,
}

/// Mathematical image of a [`WitnessArgs`].
pub ghost struct WitnessArgsV {
    pub lock: Option<Seq<u8>>,
    pub input_type: Option<Seq<u8>>,
    pub output_type: Option<Seq<u8>>,
}

impl View for WitnessArgs {
    type V = WitnessArgsV;

    open spec fn view(&self) -> WitnessArgsV {
        WitnessArgsV {
            lock: match self.lock {
                Option::Some(ref b) => Option::Some(b@),
                Option::None => Option::None,
            },
            input_type: match self.input_type {
                Option::Some(ref b) => Option::Some(b@),
                Option::None => Option::None,
            },
            output_type: match self.output_type {
                Option::Some(ref b) => Option::Some(b@),
                Option::None => Option::None,
            },
        }
    }
}

/// The wire form of one optional blob field: a `bytes` item, or a
/// zero-length item when absent.
pub open spec fn spec_opt_bytes_enc(f: Option<Seq<u8>>) -> Seq<u8> {
    match f {
        Option::Some(b) => spec_encode_bytes(b),
        Option::None => Seq::empty(),
    }
}

/// Structural parse of one optional blob field.
pub open spec fn spec_opt_bytes_dec(item: Seq<u8>) -> Option<Option<Seq<u8>>> {
    if item.len() == 0 {
        Option::Some(Option::None)
    } else {
        match spec_decode_bytes(item) {
            Option::Some(b) => Option::Some(Option::Some(b)),
            Option::None => Option::None,
        }
    }
}

/// The three `dynvec` items of witness arguments.
pub open spec fn spec_witnessargs_items(v: WitnessArgsV) -> Seq<Seq<u8>> {
    seq![
        spec_opt_bytes_enc(v.lock),
        spec_opt_bytes_enc(v.input_type),
        spec_opt_bytes_enc(v.output_type),
    ]
}

/// Wire form of witness arguments.
pub open spec fn spec_witnessargs_enc(v: WitnessArgsV) -> Seq<u8> {
    spec_encode_dynvec(spec_witnessargs_items(v))
}

/// Structural parse of witness arguments.
pub open spec fn spec_witnessargs_dec(data: Seq<u8>) -> Option<WitnessArgsV> {
    match spec_decode_dynvec(data) {
        Option::None => Option::None,
        Option::Some(p) => {
            if p.len() >= 3 && spec_opt_bytes_dec(p[0]) is Some && spec_opt_bytes_dec(p[1])
                is Some && spec_opt_bytes_dec(p[2]) is Some {
                Option::Some(
                    WitnessArgsV {
                        lock: spec_opt_bytes_dec(p[0])->Some_0,
                        input_type: spec_opt_bytes_dec(p[1])->Some_0,
                        output_type: spec_opt_bytes_dec(p[2])->Some_0,
                    },
                )
            } else {
                Option::None
            }
        },
    }
}

/// Encode one optional blob field of a `dynvec`.
fn encode_opt_bytes(f: &Option<Vec<u8>>) -> (r: Vec<u8>)
    requires
        (f matches Some(b) ==> b@.len() <= u32::MAX),
    ensures
        r@ == spec_opt_bytes_enc(
            match *f {
                Option::Some(ref b) => Option::Some(b@),
                Option::None => Option::None,
            },
        ),
{
    match f {
        Some(b) => encode_bytes(b.as_slice()),
        None => Vec::new(),
    }
}

/// Decode one optional blob field of a `dynvec`.
fn decode_opt_bytes(item: &Vec<u8>) -> (r: Option<Option<Vec<u8>>>)
    ensures
        r is Some <==> spec_opt_bytes_dec(item@) is Some,
        r is Some ==> (match r->Some_0 {
            Option::Some(ref b) => Option::Some(b@),
            Option::None => Option::None,
        }) == spec_opt_bytes_dec(item@)->Some_0,
{
    if item.len() == 0 {
        return Some(None);
    }
    match decode_bytes(item.as_slice()) {
        Some(b) => Some(Some(b)),
        None => None,
    }
}

impl WitnessArgs {
    pub fn new(lock: Option<Vec<u8>>, input_type: Option<Vec<u8>>, output_type: Option<Vec<u8>>)
        -> (r: Self)
        ensures
            r.lock == lock,
            r.input_type == input_type,
            r.output_type == output_type,
    {
        Self { lock, input_type, output_type }
    }

    pub fn molecule(&self) -> (r: Vec<u8>)
        requires
            spec_witnessargs_enc(self@).len() <= u32::MAX,
        ensures
            r@ == spec_witnessargs_enc(self@),
    {
        let ghost items = spec_witnessargs_items(self@);
        proof {
            lemma_dynvec_len(items);
            lemma_u32_bytes_len();
            assert(items =~= seq![items[0], items[1], items[2]]);
            lemma_sum3(items[0], items[1], items[2]);
            lemma_concat_len(items);
        }
        let mut parts: Vec<Vec<u8>> = Vec::new();
        parts.push(encode_opt_bytes(&self.lock));
        parts.push(encode_opt_bytes(&self.input_type));
        parts.push(encode_opt_bytes(&self.output_type));
        proof {
            assert(views_of(parts@) =~= items);
        }
        encode_dynvec(&parts)
    }

    pub fn molecule_decode(data: &[u8]) -> (r: Option<Self>)
        ensures
            r is Some <==> spec_witnessargs_dec(data@) is Some,
            r is Some ==> r->Some_0@ == spec_witnessargs_dec(data@)->Some_0,
    {
        let parts = match decode_dynvec(data) {
            Some(p) => p,
            None => {
                return None;
            },
        };
        proof {
            assert(parts@.len() == views_of(parts@).len());
            assert(forall|i: int|
                0 <= i < parts@.len() ==> views_of(parts@)[i] == #[trigger] parts@[i]@);
        }
        if parts.len() < 3 {
            return None;
        }
        let lock = match decode_opt_bytes(&parts[0]) {
            Some(v) => v,
            None => {
                return None;
            },
        };
        let input_type = match decode_opt_bytes(&parts[1]) {
            Some(v) => v,
            None => {
                return None;
            },
        };
        let output_type = match decode_opt_bytes(&parts[2]) {
            Some(v) => v,
            None => {
                return None;
            },
        };
        Some(Self { lock, input_type, output_type })
    }
}

// ---------------------------------------------------------------------------
// RawHeader
// ---------------------------------------------------------------------------

/// The fixed-layout part of a block header.
#[derive(Clone, Debug, Default, Eq, Hash, PartialEq)]
pub struct RawHeader {
    pub version: u32,
    pub compact_target: u32,
    pub timestamp: u64,
    pub number: u64,
    pub epoch: u64,
    pub parent_hash: [u8; 32],
    pub transactions_root: [u8; 32],
    pub proposals_hash: [u8; 32],
    pub extra_hash: [u8; 32],
    pub dao: [u8; 32],
}

/// Mathematical image of a [`RawHeader`].
pub ghost struct RawHeaderV {
    pub version: u32,
    pub compact_target: u32,
    pub timestamp: u64,
    pub number: u64,
    pub epoch: u64,
    pub parent_hash: Seq<u8>,
    pub transactions_root: Seq<u8>,
    pub proposals_hash: Seq<u8>,
    pub extra_hash: Seq<u8>,
    pub dao: Seq<u8>,
}

impl View for RawHeader {
    type V = RawHeaderV;

    open spec fn view(&self) -> RawHeaderV {
        RawHeaderV {
            version: self.version,
            compact_target: self.compact_target,
            timestamp: self.timestamp,
            number: self.number,
            epoch: self.epoch,
            parent_hash: self.parent_hash@,
            transactions_root: self.transactions_root@,
            proposals_hash: self.proposals_hash@,
            extra_hash: self.extra_hash@,
            dao: self.dao@,
        }
    }
}

/// The ten `seq` fields of a raw header.
pub open spec fn spec_rawheader_items(v: RawHeaderV) -> Seq<Seq<u8>> {
    seq![
        spec_u32_to_le_bytes(v.version),
        spec_u32_to_le_bytes(v.compact_target),
        spec_u64_to_le_bytes(v.timestamp),
        spec_u64_to_le_bytes(v.number),
        spec_u64_to_le_bytes(v.epoch),
        v.parent_hash,
        v.transactions_root,
        v.proposals_hash,
        v.extra_hash,
        v.dao,
    ]
}

/// Wire form of a raw header: a `seq` of its ten fields, 192 bytes.
pub open spec fn spec_rawheader_enc(v: RawHeaderV) -> Seq<u8> {
    concat_of(spec_rawheader_items(v))
}

/// The size list of a raw header.
pub open spec fn spec_rawheader_sizes() -> Seq<usize> {
    seq![4usize, 4, 8, 8, 8, 32, 32, 32, 32, 32]
}

/// Structural parse of a raw header against its fixed 192-byte layout.
pub open spec fn spec_rawheader_dec(data: Seq<u8>) -> Option<RawHeaderV> {
    match spec_decode_seq(data, spec_rawheader_sizes()) {
        Option::None => Option::None,
        Option::Some(p) => Option::Some(
            RawHeaderV {
                version: spec_u32_from_le_bytes(p[0]),
                compact_target: spec_u32_from_le_bytes(p[1]),
                timestamp: spec_u64_from_le_bytes(p[2]),
                number: spec_u64_from_le_bytes(p[3]),
                epoch: spec_u64_from_le_bytes(p[4]),
                parent_hash: p[5],
                transactions_root: p[6],
                proposals_hash: p[7],
                extra_hash: p[8],
                dao: p[9],
            },
        ),
    }
}

/// A well-formed raw-header image: the five hash fields are 32 bytes each,
/// as they are for the view of any [`RawHeader`] value.
pub open spec fn rawheader_v_wf(v: RawHeaderV) -> bool {
    v.parent_hash.len() == 32 && v.transactions_root.len() == 32 && v.proposals_hash.len() == 32
        && v.extra_hash.len() == 32 && v.dao.len() == 32
}

/// A well-formed raw header always encodes to exactly 192 bytes.
pub proof fn lemma_rawheader_enc_len(v: RawHeaderV)
    requires
        rawheader_v_wf(v),
    ensures
        spec_rawheader_enc(v).len() == 192,
{
    let items = spec_rawheader_items(v);
    lemma_u32_bytes_len();
    lemma_u64_bytes_len();
    assert(items =~= seq![items[0], items[1], items[2], items[3], items[4], items[5], items[6],
        items[7], items[8], items[9]]);
    lemma_cat10(items[0], items[1], items[2], items[3], items[4], items[5], items[6], items[7],
        items[8], items[9]);
    lemma_concat_len(items);
}

impl RawHeader {
    pub fn new(
        version: u32,
        compact_target: u32,
        timestamp: u64,
        number: u64,
        epoch: u64,
        parent_hash: [u8; 32],
        transactions_root: [u8; 32],
        proposals_hash: [u8; 32],
        extra_hash: [u8; 32],
        dao: [u8; 32],
    ) -> (r: Self)
        ensures
            r@ == (RawHeaderV {
                version,
                compact_target,
                timestamp,
                number,
                epoch,
                parent_hash: parent_hash@,
                transactions_root: transactions_root@,
                proposals_hash: proposals_hash@,
                extra_hash: extra_hash@,
                dao: dao@,
            }),
    {
        Self {
            version,
            compact_target,
            timestamp,
            number,
            epoch,
            parent_hash,
            transactions_root,
            proposals_hash,
            extra_hash,
            dao,
        }
    }

    pub fn molecule(&self) -> (r: Vec<u8>)
        ensures
            r@ == spec_rawheader_enc(self@),
            r@.len() == 192,
    {
        proof {
            lemma_rawheader_enc_len(self@);
        }
        let mut parts: Vec<Vec<u8>> = Vec::new();
        parts.push(encode_u32(self.version));
        parts.push(encode_u32(self.compact_target));
        parts.push(encode_u64(self.timestamp));
        parts.push(encode_u64(self.number));
        parts.push(encode_u64(self.epoch));
        parts.push(encode_byte32(self.parent_hash));
        parts.push(encode_byte32(self.transactions_root));
        parts.push(encode_byte32(self.proposals_hash));
        parts.push(encode_byte32(self.extra_hash));
        parts.push(encode_byte32(self.dao));
        let r = encode_seq(&parts);
        proof {
            assert(views_of(parts@) =~= spec_rawheader_items(self@));
        }
        r
    }

    pub fn molecule_decode(data: &[u8]) -> (r: Option<Self>)
        ensures
            r is Some <==> spec_rawheader_dec(data@) is Some,
            r is Some ==> r->Some_0@ == spec_rawheader_dec(data@)->Some_0,
    {
        let mut sizes: Vec<usize> = Vec::new();
        sizes.push(4);
        sizes.push(4);
        sizes.push(8);
        sizes.push(8);
        sizes.push(8);
        sizes.push(32);
        sizes.push(32);
        sizes.push(32);
        sizes.push(32);
        sizes.push(32);
        proof {
            assert(sizes@ =~= spec_rawheader_sizes());
            assert forall|i: int| 0 <= i <= 10 implies 0 <= sum_of(#[trigger] sizes@.take(i))
                <= sum_of(sizes@) by {
                lemma_sum_of_take(sizes@, i);
            }
            assert forall|i: int| 0 <= i < 10 implies sum_of(#[trigger] sizes@.take(i + 1))
                == sum_of(sizes@.take(i)) + sizes@[i] by {
                lemma_sum_of_take(sizes@, i);
            }
        }
        let parts = match decode_seq(data, sizes.as_slice()) {
            Some(p) => p,
            None => {
                return None;
            },
        };
        proof {
            assert(parts@.len() == views_of(parts@).len());
            assert(parts@.len() == 10);
            assert(forall|i: int|
                0 <= i < parts@.len() ==> views_of(parts@)[i] == #[trigger] parts@[i]@);
        }
        let version = match decode_u32(parts[0].as_slice()) {
            Some(v) => v,
            None => {
                return None;
            },
        };
        let compact_target = match decode_u32(parts[1].as_slice()) {
            Some(v) => v,
            None => {
                return None;
            },
        };
        let timestamp = match decode_u64(parts[2].as_slice()) {
            Some(v) => v,
            None => {
                return None;
            },
        };
        let number = match decode_u64(parts[3].as_slice()) {
            Some(v) => v,
            None => {
                return None;
            },
        };
        let epoch = match decode_u64(parts[4].as_slice()) {
            Some(v) => v,
            None => {
                return None;
            },
        };
        let parent_hash = match decode_byte32(parts[5].as_slice()) {
            Some(v) => v,
            None => {
                return None;
            },
        };
        let transactions_root = match decode_byte32(parts[6].as_slice()) {
            Some(v) => v,
            None => {
                return None;
            },
        };
        let proposals_hash = match decode_byte32(parts[7].as_slice()) {
            Some(v) => v,
            None => {
                return None;
            },
        };
        let extra_hash = match decode_byte32(parts[8].as_slice()) {
            Some(v) => v,
            None => {
                return None;
            },
        };
        let dao = match decode_byte32(parts[9].as_slice()) {
            Some(v) => v,
            None => {
                return None;
            },
        };
        Some(
            Self {
                version,
                compact_target,
                timestamp,
                number,
                epoch,
                parent_hash,
                transactions_root,
                proposals_hash,
                extra_hash,
                dao,
            },
        )
    }

    /// The fixed wire size of a raw header.
    pub fn molecule_size() -> (r: usize)
        ensures
            r == 192,
    {
        192
    }
}

// ---------------------------------------------------------------------------
// Header
// ---------------------------------------------------------------------------

/// A block header: the raw header followed by the nonce.
#[derive(Clone, Debug, Default, Eq, Hash, PartialEq)]
pub struct Header {
    pub raw: RawHeader,
    pub nonce: u128,
}

/// Mathematical image of a [`Header`].
pub ghost struct HeaderV {
    pub raw: RawHeaderV,
    pub nonce: u128,
}

impl View for Header {
    type V = HeaderV;

    open spec fn view(&self) -> HeaderV {
        HeaderV { raw: self.raw@, nonce: self.nonce }
    }
}

/// Wire form of a header: a `seq` of raw header and nonce, 208 bytes.
pub open spec fn spec_header_enc(v: HeaderV) -> Seq<u8> {
    concat_of(seq![spec_rawheader_enc(v.raw), spec_u128_to_le_bytes(v.nonce)])
}

/// Structural parse of a header against its fixed 208-byte layout.
pub open spec fn spec_header_dec(data: Seq<u8>) -> Option<HeaderV> {
    match spec_decode_seq(data, seq![192usize, 16usize]) {
        Option::None => Option::None,
        Option::Some(p) => match spec_rawheader_dec(p[0]) {
            Option::None => Option::None,
            Option::Some(raw) => Option::Some(
                HeaderV { raw, nonce: spec_u128_from_le_bytes(p[1]) },
            ),
        },
    }
}

/// A header with a well-formed raw header always encodes to exactly 208
/// bytes.
pub proof fn lemma_header_enc_len(v: HeaderV)
    requires
        rawheader_v_wf(v.raw),
    ensures
        spec_header_enc(v).len() == 208,
{
    lemma_rawheader_enc_len(v.raw);
    lemma_u128_bytes_len();
    lemma_cat2(spec_rawheader_enc(v.raw), spec_u128_to_le_bytes(v.nonce));
    lemma_concat_len(seq![spec_rawheader_enc(v.raw), spec_u128_to_le_bytes(v.nonce)]);
}

impl Header {
    pub fn new(raw: RawHeader, nonce: u128) -> (r: Self)
        ensures
            r@ == (HeaderV { raw: raw@, nonce }),
    {
        Self { raw, nonce }
    }

    pub fn molecule(&self) -> (r: Vec<u8>)
        ensures
            r@ == spec_header_enc(self@),
            r@.len() == 208,
    {
        proof {
            lemma_header_enc_len(self@);
        }
        let mut parts: Vec<Vec<u8>> = Vec::new();
        parts.push(self.raw.molecule());
        parts.push(encode_u128(self.nonce));
        let r = encode_seq(&parts);
        proof {
            assert(views_of(parts@) =~= seq![spec_rawheader_enc(self@.raw), spec_u128_to_le_bytes(
                self@.nonce,
            )]);
        }
        r
    }

    pub fn molecule_decode(data: &[u8]) -> (r: Option<Self>)
        ensures
            r is Some <==> spec_header_dec(data@) is Some,
            r is Some ==> r->Some_0@ == spec_header_dec(data@)->Some_0,
    {
        let mut sizes: Vec<usize> = Vec::new();
        sizes.push(192);
        sizes.push(16);
        proof {
            assert(sizes@ =~= seq![192usize, 16usize]);
            lemma_sum_of_take(sizes@, 0);
            lemma_sum_of_take(sizes@, 1);
        }
        let parts = match decode_seq(data, sizes.as_slice()) {
            Some(p) => p,
            None => {
                return None;
            },
        };
        proof {
            assert(parts@.len() == views_of(parts@).len());
            assert(parts@.len() == 2);
            assert(forall|i: int|
                0 <= i < parts@.len() ==> views_of(parts@)[i] == #[trigger] parts@[i]@);
        }
        let raw = match RawHeader::molecule_decode(parts[0].as_slice()) {
            Some(v) => v,
            None => {
                return None;
            },
        };
        let nonce = match decode_u128(parts[1].as_slice()) {
            Some(v) => v,
            None => {
                return None;
            },
        };
        Some(Self { raw, nonce })
    }

    /// The fixed wire size of a header.
    pub fn molecule_size() -> (r: usize)
        ensures
            r == 208,
    {
        208
    }
}

// ---------------------------------------------------------------------------
// CellbaseWitness
// ---------------------------------------------------------------------------

/// The witness of a cellbase transaction: a lock script and a message.
#[derive(Clone, Debug, Default, Eq, Hash, PartialEq)]
pub struct CellbaseWitness {
    pub lock: Script,
    pub message: Vec<u8>,
}

/// Mathematical image of a [`CellbaseWitness`].
pub ghost struct CellbaseWitnessV {
    pub lock: ScriptV,
    pub message: Seq<u8>,
}

impl View for CellbaseWitness {
    type V = CellbaseWitnessV;

    open spec fn view(&self) -> CellbaseWitnessV {
        CellbaseWitnessV { lock: self.lock@, message: self.message@ }
    }
}

/// The two `dynvec` items of a cellbase witness.
pub open spec fn spec_cellbasewitness_items(v: CellbaseWitnessV) -> Seq<Seq<u8>> {
    seq![spec_script_enc(v.lock), spec_encode_bytes(v.message)]
}

/// Wire form of a cellbase witness.
pub open spec fn spec_cellbasewitness_enc(v: CellbaseWitnessV) -> Seq<u8> {
    spec_encode_dynvec(spec_cellbasewitness_items(v))
}

/// Structural parse of a cellbase witness.
pub open spec fn spec_cellbasewitness_dec(data: Seq<u8>) -> Option<CellbaseWitnessV> {
    match spec_decode_dynvec(data) {
        Option::None => Option::None,
        Option::Some(p) => {
            if p.len() >= 2 && spec_script_dec(p[0]) is Some && spec_decode_bytes(p[1]) is Some {
                Option::Some(
                    CellbaseWitnessV {
                        lock: spec_script_dec(p[0])->Some_0,
                        message: spec_decode_bytes(p[1])->Some_0,
                    },
                )
            } else {
                Option::None
            }
        },
    }
}

impl CellbaseWitness {
    pub fn new(lock: Script, message: Vec<u8>) -> (r: Self)
        ensures
            r@ == (CellbaseWitnessV { lock: lock@, message: message@ }),
    {
        Self { lock, message }
    }

    pub fn molecule(&self) -> (r: Vec<u8>)
        requires
            spec_cellbasewitness_enc(self@).len() <= u32::MAX,
        ensures
            r@ == spec_cellbasewitness_enc(self@),
    {
        let ghost items = spec_cellbasewitness_items(self@);
        proof {
            lemma_dynvec_len(items);
            lemma_u32_bytes_len();
            assert(items =~= seq![items[0], items[1]]);
            lemma_cat2(items[0], items[1]);
        }
        let mut parts: Vec<Vec<u8>> = Vec::new();
        parts.push(self.lock.molecule());
        parts.push(encode_bytes(self.message.as_slice()));
        proof {
            assert(views_of(parts@) =~= items);
        }
        encode_dynvec(&parts)
    }

    pub fn molecule_decode(data: &[u8]) -> (r: Option<Self>)
        ensures
            r is Some <==> spec_cellbasewitness_dec(data@) is Some,
            r is Some ==> r->Some_0@ == spec_cellbasewitness_dec(data@)->Some_0,
    {
        let parts = match decode_dynvec(data) {
            Some(p) => p,
            None => {
                return None;
            },
        };
        proof {
            assert(parts@.len() == views_of(parts@).len());
            assert(forall|i: int|
                0 <= i < parts@.len() ==> views_of(parts@)[i] == #[trigger] parts@[i]@);
        }
        if parts.len() < 2 {
            return None;
        }
        let lock = match Script::molecule_decode(parts[0].as_slice()) {
            Some(v) => v,
            None => {
                return None;
            },
        };
        let message = match decode_bytes(parts[1].as_slice()) {
            Some(v) => v,
            None => {
                return None;
            },
        };
        Some(Self { lock, message })
    }
}

// ---------------------------------------------------------------------------
// Element vectors: encoding and decoding of homogeneous record vectors
// ---------------------------------------------------------------------------

/// Fixed length of an out-point encoding.
pub proof fn lemma_outpoint_enc_len(v: OutPointV)
    requires
        v.tx_hash.len() == 32,
    ensures
        spec_outpoint_enc(v).len() == 36,
{
    lemma_u32_bytes_len();
    lemma_cat2(v.tx_hash, spec_u32_to_le_bytes(v.index));
    lemma_concat_len(seq![v.tx_hash, spec_u32_to_le_bytes(v.index)]);
}

/// Fixed length of a cell-dependency encoding.
pub proof fn lemma_celldep_enc_len(v: CellDepV)
    requires
        v.out_point.tx_hash.len() == 32,
    ensures
        spec_celldep_enc(v).len() == 37,
{
    lemma_outpoint_enc_len(v.out_point);
    lemma_cat2(spec_outpoint_enc(v.out_point), seq![v.dep_type]);
    lemma_concat_len(seq![spec_outpoint_enc(v.out_point), seq![v.dep_type]]);
}

/// Fixed length of a cell-input encoding.
pub proof fn lemma_cellinput_enc_len(v: CellInputV)
    requires
        v.previous_output.tx_hash.len() == 32,
    ensures
        spec_cellinput_enc(v).len() == 44,
{
    lemma_u64_bytes_len();
    lemma_outpoint_enc_len(v.previous_output);
    lemma_cat2(spec_u64_to_le_bytes(v.since), spec_outpoint_enc(v.previous_output));
    lemma_concat_len(seq![spec_u64_to_le_bytes(v.since), spec_outpoint_enc(v.previous_output)]);
}

/// Whether every item of a vector parses as a cell dependency.
pub open spec fn celldeps_dec_ok(items: Seq<Seq<u8>>) -> bool {
    forall|i: int| 0 <= i < items.len() ==> (#[trigger] spec_celldep_dec(items[i])) is Some
}

/// The parsed cell dependencies of a vector whose items all parse.
pub open spec fn celldeps_dec(items: Seq<Seq<u8>>) -> Seq<CellDepV> {
    Seq::new(items.len(), |i: int| spec_celldep_dec(items[i])->Some_0)
}

/// Whether every item of a vector is a 32-byte hash.
pub open spec fn byte32s_dec_ok(items: Seq<Seq<u8>>) -> bool {
    forall|i: int| 0 <= i < items.len() ==> (#[trigger] items[i]).len() == 32
}

/// Whether every item of a vector parses as a cell input.
pub open spec fn cellinputs_dec_ok(items: Seq<Seq<u8>>) -> bool {
    forall|i: int| 0 <= i < items.len() ==> (#[trigger] spec_cellinput_dec(items[i])) is Some
}

/// The parsed cell inputs of a vector whose items all parse.
pub open spec fn cellinputs_dec(items: Seq<Seq<u8>>) -> Seq<CellInputV> {
    Seq::new(items.len(), |i: int| spec_cellinput_dec(items[i])->Some_0)
}

/// Whether every item of a vector parses as a cell output.
pub open spec fn celloutputs_dec_ok(items: Seq<Seq<u8>>) -> bool {
    forall|i: int| 0 <= i < items.len() ==> (#[trigger] spec_celloutput_dec(items[i])) is Some
}

/// The parsed cell outputs of a vector whose items all parse.
pub open spec fn celloutputs_dec(items: Seq<Seq<u8>>) -> Seq<CellOutputV> {
    Seq::new(items.len(), |i: int| spec_celloutput_dec(items[i])->Some_0)
}

/// Whether every item of a vector parses as a length-prefixed byte string.
pub open spec fn bytes_items_dec_ok(items: Seq<Seq<u8>>) -> bool {
    forall|i: int| 0 <= i < items.len() ==> (#[trigger] spec_decode_bytes(items[i])) is Some
}

/// The parsed byte strings of a vector whose items all parse.
pub open spec fn bytes_items_dec(items: Seq<Seq<u8>>) -> Seq<Seq<u8>> {
    Seq::new(items.len(), |i: int| spec_decode_bytes(items[i])->Some_0)
}

/// Encode each cell dependency of a vector.
fn encode_celldep_vec(xs: &Vec<CellDep>) -> (r: Vec<Vec<u8>>)
    ensures
        views_of(r@) == xs@.map_values(|d: CellDep| d@).map_values(
            |v: CellDepV| spec_celldep_enc(v),
        ),
{
    let ghost target = xs@.map_values(|d: CellDep| d@).map_values(
        |v: CellDepV| spec_celldep_enc(v),
    );
    let mut r: Vec<Vec<u8>> = Vec::new();
    let mut i: usize = 0;
    while i < xs.len()
        invariant
            0 <= i <= xs@.len(),
            target == xs@.map_values(|d: CellDep| d@).map_values(
                |v: CellDepV| spec_celldep_enc(v),
            ),
            target.len() == xs@.len(),
            r@.len() == i,
            forall|j: int| 0 <= j < i ==> #[trigger] r@[j]@ == target[j],
        decreases xs@.len() - i,
    {
        r.push(xs[i].molecule());
        i = i + 1;
    }
    proof {
        assert(views_of(r@) =~= target);
    }
    r
}

/// Decode each item of a vector as a cell dependency.
fn decode_celldep_vec(items: &Vec<Vec<u8>>) -> (r: Option<Vec<CellDep>>)
    ensures
        r is Some <==> celldeps_dec_ok(views_of(items@)),
        r is Some ==> r->Some_0@.map_values(|d: CellDep| d@) == celldeps_dec(views_of(items@)),
{
    let ghost vs = views_of(items@);
    let mut r: Vec<CellDep> = Vec::new();
    let mut i: usize = 0;
    while i < items.len()
        invariant
            0 <= i <= items@.len(),
            vs == views_of(items@),
            vs.len() == items@.len(),
            forall|j: int| 0 <= j < vs.len() ==> vs[j] == #[trigger] items@[j]@,
            r@.len() == i,
            forall|j: int| 0 <= j < i ==> (#[trigger] spec_celldep_dec(vs[j])) is Some,
            forall|j: int| 0 <= j < i ==> #[trigger] r@[j]@ == spec_celldep_dec(vs[j])->Some_0,
        decreases items@.len() - i,
    {
        let d = match CellDep::molecule_decode(items[i].as_slice()) {
            Some(d) => d,
            None => {
                return None;
            },
        };
        r.push(d);
        i = i + 1;
    }
    proof {
        assert(r@.map_values(|d: CellDep| d@) =~= celldeps_dec(vs));
    }
    Some(r)
}

/// Encode each 32-byte hash of a vector.
fn encode_byte32_vec(xs: &Vec<[u8; 32]>) -> (r: Vec<Vec<u8>>)
    ensures
        views_of(r@) == xs@.map_values(|h: [u8; 32]| h@),
{
    let ghost target = xs@.map_values(|h: [u8; 32]| h@);
    let mut r: Vec<Vec<u8>> = Vec::new();
    let mut i: usize = 0;
    while i < xs.len()
        invariant
            0 <= i <= xs@.len(),
            target == xs@.map_values(|h: [u8; 32]| h@),
            target.len() == xs@.len(),
            r@.len() == i,
            forall|j: int| 0 <= j < i ==> #[trigger] r@[j]@ == target[j],
        decreases xs@.len() - i,
    {
        r.push(encode_byte32(xs[i]));
        i = i + 1;
    }
    proof {
        assert(views_of(r@) =~= target);
    }
    r
}

/// Decode each item of a vector as a 32-byte hash.
fn decode_byte32_vec(items: &Vec<Vec<u8>>) -> (r: Option<Vec<[u8; 32]>>)
    ensures
        r is Some <==> byte32s_dec_ok(views_of(items@)),
        r is Some ==> r->Some_0@.map_values(|h: [u8; 32]| h@) == views_of(items@),
{
    let ghost vs = views_of(items@);
    let mut r: Vec<[u8; 32]> = Vec::new();
    let mut i: usize = 0;
    while i < items.len()
        invariant
            0 <= i <= items@.len(),
            vs == views_of(items@),
            vs.len() == items@.len(),
            forall|j: int| 0 <= j < vs.len() ==> vs[j] == #[trigger] items@[j]@,
            r@.len() == i,
            forall|j: int| 0 <= j < i ==> (#[trigger] vs[j]).len() == 32,
            forall|j: int| 0 <= j < i ==> #[trigger] r@[j]@ == vs[j],
        decreases items@.len() - i,
    {
        let h = match decode_byte32(items[i].as_slice()) {
            Some(h) => h,
            None => {
                return None;
            },
        };
        r.push(h);
        i = i + 1;
    }
    proof {
        assert(r@.map_values(|h: [u8; 32]| h@) =~= vs);
    }
    Some(r)
}

/// Encode each cell input of a vector.
fn encode_cellinput_vec(xs: &Vec<CellInput>) -> (r: Vec<Vec<u8>>)
    ensures
        views_of(r@) == xs@.map_values(|d: CellInput| d@).map_values(
            |v: CellInputV| spec_cellinput_enc(v),
        ),
{
    let ghost target = xs@.map_values(|d: CellInput| d@).map_values(
        |v: CellInputV| spec_cellinput_enc(v),
    );
    let mut r: Vec<Vec<u8>> = Vec::new();
    let mut i: usize = 0;
    while i < xs.len()
        invariant
            0 <= i <= xs@.len(),
            target == xs@.map_values(|d: CellInput| d@).map_values(
                |v: CellInputV| spec_cellinput_enc(v),
            ),
            target.len() == xs@.len(),
            r@.len() == i,
            forall|j: int| 0 <= j < i ==> #[trigger] r@[j]@ == target[j],
        decreases xs@.len() - i,
    {
        r.push(xs[i].molecule());
        i = i + 1;
    }
    proof {
        assert(views_of(r@) =~= target);
    }
    r
}

/// Decode each item of a vector as a cell input.
fn decode_cellinput_vec(items: &Vec<Vec<u8>>) -> (r: Option<Vec<CellInput>>)
    ensures
        r is Some <==> cellinputs_dec_ok(views_of(items@)),
        r is Some ==> r->Some_0@.map_values(|d: CellInput| d@) == cellinputs_dec(
            views_of(items@),
        ),
{
    let ghost vs = views_of(items@);
    let mut r: Vec<CellInput> = Vec::new();
    let mut i: usize = 0;
    while i < items.len()
        invariant
            0 <= i <= items@.len(),
            vs == views_of(items@),
            vs.len() == items@.len(),
            forall|j: int| 0 <= j < vs.len() ==> vs[j] == #[trigger] items@[j]@,
            r@.len() == i,
            forall|j: int| 0 <= j < i ==> (#[trigger] spec_cellinput_dec(vs[j])) is Some,
            forall|j: int| 0 <= j < i ==> #[trigger] r@[j]@ == spec_cellinput_dec(vs[j])->Some_0,
        decreases items@.len() - i,
    {
        let d = match CellInput::molecule_decode(items[i].as_slice()) {
            Some(d) => d,
            None => {
                return None;
            },
        };
        r.push(d);
        i = i + 1;
    }
    proof {
        assert(r@.map_values(|d: CellInput| d@) =~= cellinputs_dec(vs));
    }
    Some(r)
}

/// Encode each cell output of a vector.
fn encode_celloutput_vec(xs: &Vec<CellOutput>) -> (r: Vec<Vec<u8>>)
    requires
        forall|i: int|
            0 <= i < xs@.len() ==> (#[trigger] spec_celloutput_enc(xs@[i]@)).len() <= u32::MAX,
    ensures
        views_of(r@) == xs@.map_values(|d: CellOutput| d@).map_values(
            |v: CellOutputV| spec_celloutput_enc(v),
        ),
{
    let ghost target = xs@.map_values(|d: CellOutput| d@).map_values(
        |v: CellOutputV| spec_celloutput_enc(v),
    );
    let mut r: Vec<Vec<u8>> = Vec::new();
    let mut i: usize = 0;
    while i < xs.len()
        invariant
            0 <= i <= xs@.len(),
            forall|j: int|
                0 <= j < xs@.len() ==> (#[trigger] spec_celloutput_enc(xs@[j]@)).len()
                    <= u32::MAX,
            target == xs@.map_values(|d: CellOutput| d@).map_values(
                |v: CellOutputV| spec_celloutput_enc(v),
            ),
            target.len() == xs@.len(),
            r@.len() == i,
            forall|j: int| 0 <= j < i ==> #[trigger] r@[j]@ == target[j],
        decreases xs@.len() - i,
    {
        r.push(xs[i].molecule());
        i = i + 1;
    }
    proof {
        assert(views_of(r@) =~= target);
    }
    r
}

/// Decode each item of a vector as a cell output.
fn decode_celloutput_vec(items: &Vec<Vec<u8>>) -> (r: Option<Vec<CellOutput>>)
    ensures
        r is Some <==> celloutputs_dec_ok(views_of(items@)),
        r is Some ==> r->Some_0@.map_values(|d: CellOutput| d@) == celloutputs_dec(
            views_of(items@),
        ),
{
    let ghost vs = views_of(items@);
    let mut r: Vec<CellOutput> = Vec::new();
    let mut i: usize = 0;
    while i < items.len()
        invariant
            0 <= i <= items@.len(),
            vs == views_of(items@),
            vs.len() == items@.len(),
            forall|j: int| 0 <= j < vs.len() ==> vs[j] == #[trigger] items@[j]@,
            r@.len() == i,
            forall|j: int| 0 <= j < i ==> (#[trigger] spec_celloutput_dec(vs[j])) is Some,
            forall|j: int|
                0 <= j < i ==> #[trigger] r@[j]@ == spec_celloutput_dec(vs[j])->Some_0,
        decreases items@.len() - i,
    {
        let d = match CellOutput::molecule_decode(items[i].as_slice()) {
            Some(d) => d,
            None => {
                return None;
            },
        };
        r.push(d);
        i = i + 1;
    }
    proof {
        assert(r@.map_values(|d: CellOutput| d@) =~= celloutputs_dec(vs));
    }
    Some(r)
}

/// Encode each byte string of a vector as a `bytes` item.
fn encode_bytes_vec(xs: &Vec<Vec<u8>>) -> (r: Vec<Vec<u8>>)
    requires
        forall|i: int| 0 <= i < xs@.len() ==> (#[trigger] xs@[i]@).len() <= u32::MAX,
    ensures
        views_of(r@) == views_of(xs@).map_values(|b: Seq<u8>| spec_encode_bytes(b)),
{
    let ghost target = views_of(xs@).map_values(|b: Seq<u8>| spec_encode_bytes(b));
    let mut r: Vec<Vec<u8>> = Vec::new();
    let mut i: usize = 0;
    while i < xs.len()
        invariant
            0 <= i <= xs@.len(),
            forall|j: int| 0 <= j < xs@.len() ==> (#[trigger] xs@[j]@).len() <= u32::MAX,
            target == views_of(xs@).map_values(|b: Seq<u8>| spec_encode_bytes(b)),
            target.len() == xs@.len(),
            r@.len() == i,
            forall|j: int| 0 <= j < i ==> #[trigger] r@[j]@ == target[j],
        decreases xs@.len() - i,
    {
        r.push(encode_bytes(xs[i].as_slice()));
        i = i + 1;
    }
    proof {
        assert(views_of(r@) =~= target);
    }
    r
}

/// Decode each item of a vector as a `bytes` item.
fn decode_bytes_vec(items: &Vec<Vec<u8>>) -> (r: Option<Vec<Vec<u8>>>)
    ensures
        r is Some <==> bytes_items_dec_ok(views_of(items@)),
        r is Some ==> views_of(r->Some_0@) == bytes_items_dec(views_of(items@)),
{
    let ghost vs = views_of(items@);
    let mut r: Vec<Vec<u8>> = Vec::new();
    let mut i: usize = 0;
    while i < items.len()
        invariant
            0 <= i <= items@.len(),
            vs == views_of(items@),
            vs.len() == items@.len(),
            forall|j: int| 0 <= j < vs.len() ==> vs[j] == #[trigger] items@[j]@,
            r@.len() == i,
            forall|j: int| 0 <= j < i ==> (#[trigger] spec_decode_bytes(vs[j])) is Some,
            forall|j: int| 0 <= j < i ==> #[trigger] r@[j]@ == spec_decode_bytes(vs[j])->Some_0,
        decreases items@.len() - i,
    {
        let d = match decode_bytes(items[i].as_slice()) {
            Some(d) => d,
            None => {
                return None;
            },
        };
        r.push(d);
        i = i + 1;
    }
    proof {
        assert(views_of(r@) =~= bytes_items_dec(vs));
    }
    Some(r)
}

// ---------------------------------------------------------------------------
// RawTransaction
// ---------------------------------------------------------------------------

/// The unsigned part of a transaction.
#[derive(Clone, Debug, Default, Eq, Hash, PartialEq)]
pub struct RawTransaction {
    pub version: u32,
    pub cell_deps: Vec<CellDep>,
    pub header_deps: Vec<[u8; 32]>,
    pub inputs: Vec<CellInput>,
    pub outputs: Vec<CellOutput>,
    pub outputs_data: Vec<Vec<u8>>,
}

/// Mathematical image of a [`RawTransaction`].
pub ghost struct RawTransactionV {
    pub version: u32,
    pub cell_deps: Seq<CellDepV>,
    pub header_deps: Seq<Seq<u8>>,
    pub inputs: Seq<CellInputV>,
    pub outputs: Seq<CellOutputV>,
    pub outputs_data: Seq<Seq<u8>>,
}

impl View for RawTransaction {
    type V = RawTransactionV;

    open spec fn view(&self) -> RawTransactionV {
        RawTransactionV {
            version: self.version,
            cell_deps: self.cell_deps@.map_values(|d: CellDep| d@),
            header_deps: self.header_deps@.map_values(|h: [u8; 32]| h@),
            inputs: self.inputs@.map_values(|d: CellInput| d@),
            outputs: self.outputs@.map_values(|d: CellOutput| d@),
            outputs_data: views_of(self.outputs_data@),
        }
    }
}

/// The six `dynvec` items of a raw transaction.
pub open spec fn spec_rawtx_items(v: RawTransactionV) -> Seq<Seq<u8>> {
    seq![
        spec_u32_to_le_bytes(v.version),
        spec_encode_fixvec(v.cell_deps.map_values(|d: CellDepV| spec_celldep_enc(d))),
        spec_encode_fixvec(v.header_deps),
        spec_encode_fixvec(v.inputs.map_values(|d: CellInputV| spec_cellinput_enc(d))),
        spec_encode_dynvec(v.outputs.map_values(|d: CellOutputV| spec_celloutput_enc(d))),
        spec_encode_dynvec(v.outputs_data.map_values(|b: Seq<u8>| spec_encode_bytes(b))),
    ]
}

/// Wire form of a raw transaction.
pub open spec fn spec_rawtx_enc(v: RawTransactionV) -> Seq<u8> {
    spec_encode_dynvec(spec_rawtx_items(v))
}

/// Structural parse of a raw transaction.
pub open spec fn spec_rawtx_dec(data: Seq<u8>) -> Option<RawTransactionV> {
    match spec_decode_dynvec(data) {
        Option::None => Option::None,
        Option::Some(p) => {
            if p.len() >= 6 && p[0].len() == 4 && spec_decode_fixvec(p[1]) is Some
                && celldeps_dec_ok(spec_decode_fixvec(p[1])->Some_0) && spec_decode_fixvec(p[2])
                is Some && byte32s_dec_ok(spec_decode_fixvec(p[2])->Some_0)
                && spec_decode_fixvec(p[3]) is Some && cellinputs_dec_ok(
                spec_decode_fixvec(p[3])->Some_0,
            ) && spec_decode_dynvec(p[4]) is Some && celloutputs_dec_ok(
                spec_decode_dynvec(p[4])->Some_0,
            ) && spec_decode_dynvec(p[5]) is Some && bytes_items_dec_ok(
                spec_decode_dynvec(p[5])->Some_0,
            ) {
                Option::Some(
                    RawTransactionV {
                        version: spec_u32_from_le_bytes(p[0]),
                        cell_deps: celldeps_dec(spec_decode_fixvec(p[1])->Some_0),
                        header_deps: spec_decode_fixvec(p[2])->Some_0,
                        inputs: cellinputs_dec(spec_decode_fixvec(p[3])->Some_0),
                        outputs: celloutputs_dec(spec_decode_dynvec(p[4])->Some_0),
                        outputs_data: bytes_items_dec(spec_decode_dynvec(p[5])->Some_0),
                    },
                )
            } else {
                Option::None
            }
        },
    }
}

impl RawTransaction {
    pub fn new(
        version: u32,
        cell_deps: Vec<CellDep>,
        header_deps: Vec<[u8; 32]>,
        inputs: Vec<CellInput>,
        outputs: Vec<CellOutput>,
        outputs_data: Vec<Vec<u8>>,
    ) -> (r: Self)
        ensures
            r.version == version,
            r.cell_deps == cell_deps,
            r.header_deps == header_deps,
            r.inputs == inputs,
            r.outputs == outputs,
            r.outputs_data == outputs_data,
    {
        Self { version, cell_deps, header_deps, inputs, outputs, outputs_data }
    }

    #[verifier::rlimit(60)]
    pub fn molecule(&self) -> (r: Vec<u8>)
        requires
            spec_rawtx_enc(self@).len() <= u32::MAX,
        ensures
            r@ == spec_rawtx_enc(self@),
    {
        let ghost items = spec_rawtx_items(self@);
        let ghost dep_items = self@.cell_deps.map_values(|d: CellDepV| spec_celldep_enc(d));
        let ghost hdr_items = self@.header_deps;
        let ghost input_items = self@.inputs.map_values(|d: CellInputV| spec_cellinput_enc(d));
        let ghost out_items = self@.outputs.map_values(|d: CellOutputV| spec_celloutput_enc(d));
        let ghost data_items = self@.outputs_data.map_values(|b: Seq<u8>| spec_encode_bytes(b));
        proof {
            lemma_dynvec_len(items);
            lemma_u32_bytes_len();
            assert(items =~= seq![items[0], items[1], items[2], items[3], items[4], items[5]]);
            lemma_sum6(items[0], items[1], items[2], items[3], items[4], items[5]);
            // Bound the element counts by their byte sizes.
            assert forall|k: int| 0 <= k < dep_items.len() implies (#[trigger] dep_items[k]).len()
                == 37 by {
                lemma_celldep_enc_len(self@.cell_deps[k]);
            }
            assert forall|k: int| 0 <= k < hdr_items.len() implies (#[trigger] hdr_items[k]).len()
                == 32 by {
            }
            assert forall|k: int| 0 <= k < input_items.len() implies (
            #[trigger] input_items[k]).len() == 44 by {
                lemma_cellinput_enc_len(self@.inputs[k]);
            }
            lemma_sum_lens_uniform(dep_items, 37, dep_items.len() as int);
            assert(dep_items.take(dep_items.len() as int) =~= dep_items);
            lemma_sum_lens_uniform(hdr_items, 32, hdr_items.len() as int);
            assert(hdr_items.take(hdr_items.len() as int) =~= hdr_items);
            lemma_sum_lens_uniform(input_items, 44, input_items.len() as int);
            assert(input_items.take(input_items.len() as int) =~= input_items);
            lemma_fixvec_len(dep_items);
            lemma_fixvec_len(hdr_items);
            lemma_fixvec_len(input_items);
            lemma_dynvec_len(out_items);
            lemma_dynvec_len(data_items);
            assert(dep_items.len() <= 37 * dep_items.len()) by (nonlinear_arith);
            assert(hdr_items.len() <= 32 * hdr_items.len()) by (nonlinear_arith);
            assert(input_items.len() <= 44 * input_items.len()) by (nonlinear_arith);
            // Bound every nested encoding by the whole.
            assert forall|k: int| 0 <= k < self.outputs@.len() implies (
            #[trigger] spec_celloutput_enc(self.outputs@[k]@)).len() <= u32::MAX by {
                assert(self.outputs@[k]@ == self@.outputs[k]);
                lemma_item_le_sum(out_items, k);
            }
            assert forall|k: int| 0 <= k < self.outputs_data@.len() implies (
            #[trigger] self.outputs_data@[k]@).len() <= u32::MAX by {
                assert(self.outputs_data@[k]@ == self@.outputs_data[k]);
                lemma_item_le_sum(data_items, k);
            }
        }
        let mut parts: Vec<Vec<u8>> = Vec::new();
        parts.push(encode_u32(self.version));
        let deps = encode_celldep_vec(&self.cell_deps);
        parts.push(encode_fixvec(&deps));
        let hdrs = encode_byte32_vec(&self.header_deps);
        parts.push(encode_fixvec(&hdrs));
        let inputs = encode_cellinput_vec(&self.inputs);
        parts.push(encode_fixvec(&inputs));
        let outs = encode_celloutput_vec(&self.outputs);
        parts.push(encode_dynvec(&outs));
        let datas = encode_bytes_vec(&self.outputs_data);
        parts.push(encode_dynvec(&datas));
        proof {
            assert(views_of(parts@) =~= items);
        }
        encode_dynvec(&parts)
    }

    pub fn molecule_decode(data: &[u8]) -> (r: Option<Self>)
        ensures
            r is Some <==> spec_rawtx_dec(data@) is Some,
            r is Some ==> r->Some_0@ == spec_rawtx_dec(data@)->Some_0,
    {
        let parts = match decode_dynvec(data) {
            Some(p) => p,
            None => {
                return None;
            },
        };
        proof {
            assert(parts@.len() == views_of(parts@).len());
            assert(forall|i: int|
                0 <= i < parts@.len() ==> views_of(parts@)[i] == #[trigger] parts@[i]@);
        }
        if parts.len() < 6 {
            return None;
        }
        let version = match decode_u32(parts[0].as_slice()) {
            Some(v) => v,
            None => {
                return None;
            },
        };
        let dep_items = match decode_fixvec(parts[1].as_slice()) {
            Some(v) => v,
            None => {
                return None;
            },
        };
        let cell_deps = match decode_celldep_vec(&dep_items) {
            Some(v) => v,
            None => {
                return None;
            },
        };
        let hdr_items = match decode_fixvec(parts[2].as_slice()) {
            Some(v) => v,
            None => {
                return None;
            },
        };
        let header_deps = match decode_byte32_vec(&hdr_items) {
            Some(v) => v,
            None => {
                return None;
            },
        };
        let input_items = match decode_fixvec(parts[3].as_slice()) {
            Some(v) => v,
            None => {
                return None;
            },
        };
        let inputs = match decode_cellinput_vec(&input_items) {
            Some(v) => v,
            None => {
                return None;
            },
        };
        let out_items = match decode_dynvec(parts[4].as_slice()) {
            Some(v) => v,
            None => {
                return None;
            },
        };
        let outputs = match decode_celloutput_vec(&out_items) {
            Some(v) => v,
            None => {
                return None;
            },
        };
        let data_items = match decode_dynvec(parts[5].as_slice()) {
            Some(v) => v,
            None => {
                return None;
            },
        };
        let outputs_data = match decode_bytes_vec(&data_items) {
            Some(v) => v,
            None => {
                return None;
            },
        };
        let r = Self { version, cell_deps, header_deps, inputs, outputs, outputs_data };
        proof {
            assert(r@ =~~= spec_rawtx_dec(data@)->Some_0);
        }
        Some(r)
    }
}

// ---------------------------------------------------------------------------
// Transaction
// ---------------------------------------------------------------------------

/// A transaction: its raw part and its witnesses.
#[derive(Clone, Debug, Default, Eq, Hash, PartialEq)]
pub struct Transaction {
    pub raw: RawTransaction,
    pub witnesses: Vec<Vec<u8>>,
}

/// Mathematical image of a [`Transaction`].
pub ghost struct TransactionV {
    pub raw: RawTransactionV,
    pub witnesses: Seq<Seq<u8>>,
}

impl View for Transaction {
    type V = TransactionV;

    open spec fn view(&self) -> TransactionV {
        TransactionV { raw: self.raw@, witnesses: views_of(self.witnesses@) }
    }
}

/// The two `dynvec` items of a transaction.
pub open spec fn spec_tx_items(v: TransactionV) -> Seq<Seq<u8>> {
    seq![
        spec_rawtx_enc(v.raw),
        spec_encode_dynvec(v.witnesses.map_values(|b: Seq<u8>| spec_encode_bytes(b))),
    ]
}

/// Wire form of a transaction.
pub open spec fn spec_tx_enc(v: TransactionV) -> Seq<u8> {
    spec_encode_dynvec(spec_tx_items(v))
}

/// Structural parse of a transaction.
pub open spec fn spec_tx_dec(data: Seq<u8>) -> Option<TransactionV> {
    match spec_decode_dynvec(data) {
        Option::None => Option::None,
        Option::Some(p) => {
            if p.len() >= 2 && spec_rawtx_dec(p[0]) is Some && spec_decode_dynvec(p[1]) is Some
                && bytes_items_dec_ok(spec_decode_dynvec(p[1])->Some_0) {
                Option::Some(
                    TransactionV {
                        raw: spec_rawtx_dec(p[0])->Some_0,
                        witnesses: bytes_items_dec(spec_decode_dynvec(p[1])->Some_0),
                    },
                )
            } else {
                Option::None
            }
        },
    }
}

impl Transaction {
    pub fn new(raw: RawTransaction, witnesses: Vec<Vec<u8>>) -> (r: Self)
        ensures
            r.raw == raw,
            r.witnesses == witnesses,
    {
        Self { raw, witnesses }
    }

    pub fn molecule(&self) -> (r: Vec<u8>)
        requires
            spec_tx_enc(self@).len() <= u32::MAX,
        ensures
            r@ == spec_tx_enc(self@),
    {
        let ghost items = spec_tx_items(self@);
        let ghost wit_items = self@.witnesses.map_values(|b: Seq<u8>| spec_encode_bytes(b));
        proof {
            lemma_dynvec_len(items);
            lemma_u32_bytes_len();
            assert(items =~= seq![items[0], items[1]]);
            lemma_cat2(items[0], items[1]);
            lemma_dynvec_len(wit_items);
            assert forall|k: int| 0 <= k < self.witnesses@.len() implies (
            #[trigger] self.witnesses@[k]@).len() <= u32::MAX by {
                assert(self.witnesses@[k]@ == self@.witnesses[k]);
                lemma_item_le_sum(wit_items, k);
            }
        }
        let mut parts: Vec<Vec<u8>> = Vec::new();
        parts.push(self.raw.molecule());
        let wits = encode_bytes_vec(&self.witnesses);
        parts.push(encode_dynvec(&wits));
        proof {
            assert(views_of(parts@) =~= items);
        }
        encode_dynvec(&parts)
    }

    pub fn molecule_decode(data: &[u8]) -> (r: Option<Self>)
        ensures
            r is Some <==> spec_tx_dec(data@) is Some,
            r is Some ==> r->Some_0@ == spec_tx_dec(data@)->Some_0,
    {
        let parts = match decode_dynvec(data) {
            Some(p) => p,
            None => {
                return None;
            },
        };
        proof {
            assert(parts@.len() == views_of(parts@).len());
            assert(forall|i: int|
                0 <= i < parts@.len() ==> views_of(parts@)[i] == #[trigger] parts@[i]@);
        }
        if parts.len() < 2 {
            return None;
        }
        let raw = match RawTransaction::molecule_decode(parts[0].as_slice()) {
            Some(v) => v,
            None => {
                return None;
            },
        };
        let wit_items = match decode_dynvec(parts[1].as_slice()) {
            Some(v) => v,
            None => {
                return None;
            },
        };
        let witnesses = match decode_bytes_vec(&wit_items) {
            Some(v) => v,
            None => {
                return None;
            },
        };
        let r = Self { raw, witnesses };
        proof {
            assert(r@ =~~= spec_tx_dec(data@)->Some_0);
        }
        Some(r)
    }
}

// ---------------------------------------------------------------------------
// UncleBlock
// ---------------------------------------------------------------------------

/// An uncle block: a header and its proposal ids.
#[derive(Clone, Debug, Default, Eq, Hash, PartialEq)]
pub struct UncleBlock {
    pub header: Header,
    pub proposals: Vec<Vec<u8>>,
}

/// Mathematical image of an [`UncleBlock`].
pub ghost struct UncleBlockV {
    pub header: HeaderV,
    pub proposals: Seq<Seq<u8>>,
}

impl View for UncleBlock {
    type V = UncleBlockV;

    open spec fn view(&self) -> UncleBlockV {
        UncleBlockV { header: self.header@, proposals: views_of(self.proposals@) }
    }
}

/// The two `dynvec` items of an uncle block.
pub open spec fn spec_uncle_items(v: UncleBlockV) -> Seq<Seq<u8>> {
    seq![spec_header_enc(v.header), spec_encode_fixvec(v.proposals)]
}

/// Wire form of an uncle block.
pub open spec fn spec_uncle_enc(v: UncleBlockV) -> Seq<u8> {
    spec_encode_dynvec(spec_uncle_items(v))
}

/// The machine limits an uncle block must respect so that its 4-byte
/// length and count fields cannot overflow.
pub open spec fn uncle_fits(v: UncleBlockV) -> bool {
    spec_uncle_enc(v).len() <= u32::MAX && v.proposals.len() <= u32::MAX
}

/// Structural parse of an uncle block.
pub open spec fn spec_uncle_dec(data: Seq<u8>) -> Option<UncleBlockV> {
    match spec_decode_dynvec(data) {
        Option::None => Option::None,
        Option::Some(p) => {
            if p.len() >= 2 && spec_header_dec(p[0]) is Some && spec_decode_fixvec(p[1])
                is Some {
                Option::Some(
                    UncleBlockV {
                        header: spec_header_dec(p[0])->Some_0,
                        proposals: spec_decode_fixvec(p[1])->Some_0,
                    },
                )
            } else {
                Option::None
            }
        },
    }
}

impl UncleBlock {
    pub fn new(header: Header, proposals: Vec<Vec<u8>>) -> (r: Self)
        ensures
            r.header == header,
            r.proposals == proposals,
    {
        Self { header, proposals }
    }

    pub fn molecule(&self) -> (r: Vec<u8>)
        requires
            uncle_fits(self@),
        ensures
            r@ == spec_uncle_enc(self@),
    {
        let ghost items = spec_uncle_items(self@);
        proof {
            lemma_dynvec_len(items);
            lemma_u32_bytes_len();
            assert(items =~= seq![items[0], items[1]]);
            lemma_cat2(items[0], items[1]);
        }
        let mut parts: Vec<Vec<u8>> = Vec::new();
        parts.push(self.header.molecule());
        parts.push(encode_fixvec(&self.proposals));
        proof {
            assert(views_of(parts@) =~= items);
        }
        encode_dynvec(&parts)
    }

    pub fn molecule_decode(data: &[u8]) -> (r: Option<Self>)
        ensures
            r is Some <==> spec_uncle_dec(data@) is Some,
            r is Some ==> r->Some_0@ == spec_uncle_dec(data@)->Some_0,
    {
        let parts = match decode_dynvec(data) {
            Some(p) => p,
            None => {
                return None;
            },
        };
        proof {
            assert(parts@.len() == views_of(parts@).len());
            assert(forall|i: int|
                0 <= i < parts@.len() ==> views_of(parts@)[i] == #[trigger] parts@[i]@);
        }
        if parts.len() < 2 {
            return None;
        }
        let header = match Header::molecule_decode(parts[0].as_slice()) {
            Some(v) => v,
            None => {
                return None;
            },
        };
        let proposals = match decode_fixvec(parts[1].as_slice()) {
            Some(v) => v,
            None => {
                return None;
            },
        };
        let r = Self { header, proposals };
        proof {
            assert(r@ =~~= spec_uncle_dec(data@)->Some_0);
        }
        Some(r)
    }
}

/// Whether every item of a vector parses as an uncle block.
pub open spec fn uncles_dec_ok(items: Seq<Seq<u8>>) -> bool {
    forall|i: int| 0 <= i < items.len() ==> (#[trigger] spec_uncle_dec(items[i])) is Some
}

/// The parsed uncle blocks of a vector whose items all parse.
pub open spec fn uncles_dec(items: Seq<Seq<u8>>) -> Seq<UncleBlockV> {
    Seq::new(items.len(), |i: int| spec_uncle_dec(items[i])->Some_0)
}

/// Whether every item of a vector parses as a transaction.
pub open spec fn txs_dec_ok(items: Seq<Seq<u8>>) -> bool {
    forall|i: int| 0 <= i < items.len() ==> (#[trigger] spec_tx_dec(items[i])) is Some
}

/// The parsed transactions of a vector whose items all parse.
pub open spec fn txs_dec(items: Seq<Seq<u8>>) -> Seq<TransactionV> {
    Seq::new(items.len(), |i: int| spec_tx_dec(items[i])->Some_0)
}

/// Encode each uncle block of a vector.
fn encode_uncle_vec(xs: &Vec<UncleBlock>) -> (r: Vec<Vec<u8>>)
    requires
        forall|i: int| 0 <= i < xs@.len() ==> uncle_fits(#[trigger] xs@[i]@),
    ensures
        views_of(r@) == xs@.map_values(|d: UncleBlock| d@).map_values(
            |v: UncleBlockV| spec_uncle_enc(v),
        ),
{
    let ghost target = xs@.map_values(|d: UncleBlock| d@).map_values(
        |v: UncleBlockV| spec_uncle_enc(v),
    );
    let mut r: Vec<Vec<u8>> = Vec::new();
    let mut i: usize = 0;
    while i < xs.len()
        invariant
            0 <= i <= xs@.len(),
            forall|j: int| 0 <= j < xs@.len() ==> uncle_fits(#[trigger] xs@[j]@),
            target == xs@.map_values(|d: UncleBlock| d@).map_values(
                |v: UncleBlockV| spec_uncle_enc(v),
            ),
            target.len() == xs@.len(),
            r@.len() == i,
            forall|j: int| 0 <= j < i ==> #[trigger] r@[j]@ == target[j],
        decreases xs@.len() - i,
    {
        r.push(xs[i].molecule());
        i = i + 1;
    }
    proof {
        assert(views_of(r@) =~= target);
    }
    r
}

/// Decode each item of a vector as an uncle block.
fn decode_uncle_vec(items: &Vec<Vec<u8>>) -> (r: Option<Vec<UncleBlock>>)
    ensures
        r is Some <==> uncles_dec_ok(views_of(items@)),
        r is Some ==> r->Some_0@.map_values(|d: UncleBlock| d@) == uncles_dec(views_of(items@)),
{
    let ghost vs = views_of(items@);
    let mut r: Vec<UncleBlock> = Vec::new();
    let mut i: usize = 0;
    while i < items.len()
        invariant
            0 <= i <= items@.len(),
            vs == views_of(items@),
            vs.len() == items@.len(),
            forall|j: int| 0 <= j < vs.len() ==> vs[j] == #[trigger] items@[j]@,
            r@.len() == i,
            forall|j: int| 0 <= j < i ==> (#[trigger] spec_uncle_dec(vs[j])) is Some,
            forall|j: int| 0 <= j < i ==> #[trigger] r@[j]@ == spec_uncle_dec(vs[j])->Some_0,
        decreases items@.len() - i,
    {
        let d = match UncleBlock::molecule_decode(items[i].as_slice()) {
            Some(d) => d,
            None => {
                return None;
            },
        };
        r.push(d);
        i = i + 1;
    }
    proof {
        assert(r@.map_values(|d: UncleBlock| d@) =~= uncles_dec(vs));
    }
    Some(r)
}

/// Encode each transaction of a vector.
fn encode_tx_vec(xs: &Vec<Transaction>) -> (r: Vec<Vec<u8>>)
    requires
        forall|i: int|
            0 <= i < xs@.len() ==> (#[trigger] spec_tx_enc(xs@[i]@)).len() <= u32::MAX,
    ensures
        views_of(r@) == xs@.map_values(|d: Transaction| d@).map_values(
            |v: TransactionV| spec_tx_enc(v),
        ),
{
    let ghost target = xs@.map_values(|d: Transaction| d@).map_values(
        |v: TransactionV| spec_tx_enc(v),
    );
    let mut r: Vec<Vec<u8>> = Vec::new();
    let mut i: usize = 0;
    while i < xs.len()
        invariant
            0 <= i <= xs@.len(),
            forall|j: int|
                0 <= j < xs@.len() ==> (#[trigger] spec_tx_enc(xs@[j]@)).len() <= u32::MAX,
            target == xs@.map_values(|d: Transaction| d@).map_values(
                |v: TransactionV| spec_tx_enc(v),
            ),
            target.len() == xs@.len(),
            r@.len() == i,
            forall|j: int| 0 <= j < i ==> #[trigger] r@[j]@ == target[j],
        decreases xs@.len() - i,
    {
        r.push(xs[i].molecule());
        i = i + 1;
    }
    proof {
        assert(views_of(r@) =~= target);
    }
    r
}

/// Decode each item of a vector as a transaction.
fn decode_tx_vec(items: &Vec<Vec<u8>>) -> (r: Option<Vec<Transaction>>)
    ensures
        r is Some <==> txs_dec_ok(views_of(items@)),
        r is Some ==> r->Some_0@.map_values(|d: Transaction| d@) == txs_dec(views_of(items@)),
{
    let ghost vs = views_of(items@);
    let mut r: Vec<Transaction> = Vec::new();
    let mut i: usize = 0;
    while i < items.len()
        invariant
            0 <= i <= items@.len(),
            vs == views_of(items@),
            vs.len() == items@.len(),
            forall|j: int| 0 <= j < vs.len() ==> vs[j] == #[trigger] items@[j]@,
            r@.len() == i,
            forall|j: int| 0 <= j < i ==> (#[trigger] spec_tx_dec(vs[j])) is Some,
            forall|j: int| 0 <= j < i ==> #[trigger] r@[j]@ == spec_tx_dec(vs[j])->Some_0,
        decreases items@.len() - i,
    {
        let d = match Transaction::molecule_decode(items[i].as_slice()) {
            Some(d) => d,
            None => {
                return None;
            },
        };
        r.push(d);
        i = i + 1;
    }
    proof {
        assert(r@.map_values(|d: Transaction| d@) =~= txs_dec(vs));
    }
    Some(r)
}

// ---------------------------------------------------------------------------
// Block
// ---------------------------------------------------------------------------

/// A block: header, uncles, transactions and proposal ids.
#[derive(Clone, Debug, Default, Eq, Hash, PartialEq)]
pub struct Block {
    pub header: Header,
    pub uncles: Vec<UncleBlock>,
    pub transactions: Vec<Transaction>,
    pub proposals: Vec<Vec<u8>>,
}

/// Mathematical image of a [`Block`].
pub ghost struct BlockV {
    pub header: HeaderV,
    pub uncles: Seq<UncleBlockV>,
    pub transactions: Seq<TransactionV>,
    pub proposals: Seq<Seq<u8>>,
}

impl View for Block {
    type V = BlockV;

    open spec fn view(&self) -> BlockV {
        BlockV {
            header: self.header@,
            uncles: self.uncles@.map_values(|d: UncleBlock| d@),
            transactions: self.transactions@.map_values(|d: Transaction| d@),
            proposals: views_of(self.proposals@),
        }
    }
}

/// The four `dynvec` items of a block.
pub open spec fn spec_block_items(v: BlockV) -> Seq<Seq<u8>> {
    seq![
        spec_header_enc(v.header),
        spec_encode_dynvec(v.uncles.map_values(|u: UncleBlockV| spec_uncle_enc(u))),
        spec_encode_dynvec(v.transactions.map_values(|t: TransactionV| spec_tx_enc(t))),
        spec_encode_fixvec(v.proposals),
    ]
}

/// Wire form of a block.
pub open spec fn spec_block_enc(v: BlockV) -> Seq<u8> {
    spec_encode_dynvec(spec_block_items(v))
}

/// The machine limits a block must respect so that its 4-byte length and
/// count fields cannot overflow.
pub open spec fn block_fits(v: BlockV) -> bool {
    &&& spec_block_enc(v).len() <= u32::MAX
    &&& v.proposals.len() <= u32::MAX
    &&& forall|i: int| 0 <= i < v.uncles.len() ==> (#[trigger] v.uncles[i]).proposals.len()
        <= u32::MAX
}

/// Structural parse of a block.
pub open spec fn spec_block_dec(data: Seq<u8>) -> Option<BlockV> {
    match spec_decode_dynvec(data) {
        Option::None => Option::None,
        Option::Some(p) => {
            if p.len() >= 4 && spec_header_dec(p[0]) is Some && spec_decode_dynvec(p[1]) is Some
                && uncles_dec_ok(spec_decode_dynvec(p[1])->Some_0) && spec_decode_dynvec(p[2])
                is Some && txs_dec_ok(spec_decode_dynvec(p[2])->Some_0) && spec_decode_fixvec(
                p[3],
            ) is Some {
                Option::Some(
                    BlockV {
                        header: spec_header_dec(p[0])->Some_0,
                        uncles: uncles_dec(spec_decode_dynvec(p[1])->Some_0),
                        transactions: txs_dec(spec_decode_dynvec(p[2])->Some_0),
                        proposals: spec_decode_fixvec(p[3])->Some_0,
                    },
                )
            } else {
                Option::None
            }
        },
    }
}

impl Block {
    pub fn new(
        header: Header,
        uncles: Vec<UncleBlock>,
        transactions: Vec<Transaction>,
        proposals: Vec<Vec<u8>>,
    ) -> (r: Self)
        ensures
            r.header == header,
            r.uncles == uncles,
            r.transactions == transactions,
            r.proposals == proposals,
    {
        Self { header, uncles, transactions, proposals }
    }

    #[verifier::rlimit(60)]
    pub fn molecule(&self) -> (r: Vec<u8>)
        requires
            block_fits(self@),
        ensures
            r@ == spec_block_enc(self@),
    {
        let ghost items = spec_block_items(self@);
        let ghost uncle_items = self@.uncles.map_values(|u: UncleBlockV| spec_uncle_enc(u));
        let ghost tx_items = self@.transactions.map_values(|t: TransactionV| spec_tx_enc(t));
        proof {
            lemma_dynvec_len(items);
            lemma_u32_bytes_len();
            assert(items =~= seq![items[0], items[1], items[2], items[3]]);
            lemma_sum4(items[0], items[1], items[2], items[3]);
            lemma_dynvec_len(uncle_items);
            lemma_dynvec_len(tx_items);
            assert forall|k: int| 0 <= k < self.uncles@.len() implies uncle_fits(
                #[trigger] self.uncles@[k]@,
            ) by {
                assert(self.uncles@[k]@ == self@.uncles[k]);
                lemma_item_le_sum(uncle_items, k);
            }
            assert forall|k: int| 0 <= k < self.transactions@.len() implies (
            #[trigger] spec_tx_enc(self.transactions@[k]@)).len() <= u32::MAX by {
                assert(self.transactions@[k]@ == self@.transactions[k]);
                lemma_item_le_sum(tx_items, k);
            }
        }
        let mut parts: Vec<Vec<u8>> = Vec::new();
        parts.push(self.header.molecule());
        let uncles = encode_uncle_vec(&self.uncles);
        parts.push(encode_dynvec(&uncles));
        let txs = encode_tx_vec(&self.transactions);
        parts.push(encode_dynvec(&txs));
        parts.push(encode_fixvec(&self.proposals));
        proof {
            assert(views_of(parts@) =~= items);
        }
        encode_dynvec(&parts)
    }

    pub fn molecule_decode(data: &[u8]) -> (r: Option<Self>)
        ensures
            r is Some <==> spec_block_dec(data@) is Some,
            r is Some ==> r->Some_0@ == spec_block_dec(data@)->Some_0,
    {
        let parts = match decode_dynvec(data) {
            Some(p) => p,
            None => {
                return None;
            },
        };
        proof {
            assert(parts@.len() == views_of(parts@).len());
            assert(forall|i: int|
                0 <= i < parts@.len() ==> views_of(parts@)[i] == #[trigger] parts@[i]@);
        }
        if parts.len() < 4 {
            return None;
        }
        let header = match Header::molecule_decode(parts[0].as_slice()) {
            Some(v) => v,
            None => {
                return None;
            },
        };
        let uncle_items = match decode_dynvec(parts[1].as_slice()) {
            Some(v) => v,
            None => {
                return None;
            },
        };
        let uncles = match decode_uncle_vec(&uncle_items) {
            Some(v) => v,
            None => {
                return None;
            },
        };
        let tx_items = match decode_dynvec(parts[2].as_slice()) {
            Some(v) => v,
            None => {
                return None;
            },
        };
        let transactions = match decode_tx_vec(&tx_items) {
            Some(v) => v,
            None => {
                return None;
            },
        };
        let proposals = match decode_fixvec(parts[3].as_slice()) {
            Some(v) => v,
            None => {
                return None;
            },
        };
        let r = Self { header, uncles, transactions, proposals };
        proof {
            assert(r@ =~~= spec_block_dec(data@)->Some_0);
        }
        Some(r)
    }
}

// ---------------------------------------------------------------------------
// BlockV1
// ---------------------------------------------------------------------------

/// A block with the extension field added by a later protocol version.
#[derive(Clone, Debug, Default, Eq, Hash, PartialEq)]
pub struct BlockV1 {
    pub header: Header,
    pub uncles: Vec<UncleBlock>,
    pub transactions: Vec<Transaction>,
    pub proposals: Vec<Vec<u8>>,
    pub extension: Vec<u8>,
}

/// Mathematical image of a [`BlockV1`].
pub ghost struct BlockV1V {
    pub header: HeaderV,
    pub uncles: Seq<UncleBlockV>,
    pub transactions: Seq<TransactionV>,
    pub proposals: Seq<Seq<u8>>,
    pub extension: Seq<u8>,
}

impl View for BlockV1 {
    type V = BlockV1V;

    open spec fn view(&self) -> BlockV1V {
        BlockV1V {
            header: self.header@,
            uncles: self.uncles@.map_values(|d: UncleBlock| d@),
            transactions: self.transactions@.map_values(|d: Transaction| d@),
            proposals: views_of(self.proposals@),
            extension: self.extension@,
        }
    }
}

/// The five `dynvec` items of an extended block.
pub open spec fn spec_blockv1_items(v: BlockV1V) -> Seq<Seq<u8>> {
    seq![
        spec_header_enc(v.header),
        spec_encode_dynvec(v.uncles.map_values(|u: UncleBlockV| spec_uncle_enc(u))),
        spec_encode_dynvec(v.transactions.map_values(|t: TransactionV| spec_tx_enc(t))),
        spec_encode_fixvec(v.proposals),
        spec_encode_bytes(v.extension),
    ]
}

/// Wire form of an extended block.
pub open spec fn spec_blockv1_enc(v: BlockV1V) -> Seq<u8> {
    spec_encode_dynvec(spec_blockv1_items(v))
}

/// The machine limits an extended block must respect.
pub open spec fn blockv1_fits(v: BlockV1V) -> bool {
    &&& spec_blockv1_enc(v).len() <= u32::MAX
    &&& v.proposals.len() <= u32::MAX
    &&& forall|i: int| 0 <= i < v.uncles.len() ==> (#[trigger] v.uncles[i]).proposals.len()
        <= u32::MAX
}

/// Structural parse of an extended block.
pub open spec fn spec_blockv1_dec(data: Seq<u8>) -> Option<BlockV1V> {
    match spec_decode_dynvec(data) {
        Option::None => Option::None,
        Option::Some(p) => {
            if p.len() >= 5 && spec_header_dec(p[0]) is Some && spec_decode_dynvec(p[1]) is Some
                && uncles_dec_ok(spec_decode_dynvec(p[1])->Some_0) && spec_decode_dynvec(p[2])
                is Some && txs_dec_ok(spec_decode_dynvec(p[2])->Some_0) && spec_decode_fixvec(
                p[3],
            ) is Some && spec_decode_bytes(p[4]) is Some {
                Option::Some(
                    BlockV1V {
                        header: spec_header_dec(p[0])->Some_0,
                        uncles: uncles_dec(spec_decode_dynvec(p[1])->Some_0),
                        transactions: txs_dec(spec_decode_dynvec(p[2])->Some_0),
                        proposals: spec_decode_fixvec(p[3])->Some_0,
                        extension: spec_decode_bytes(p[4])->Some_0,
                    },
                )
            } else {
                Option::None
            }
        },
    }
}

impl BlockV1 {
    pub fn new(
        header: Header,
        uncles: Vec<UncleBlock>,
        transactions: Vec<Transaction>,
        proposals: Vec<Vec<u8>>,
        extension: Vec<u8>,
    ) -> (r: Self)
        ensures
            r.header == header,
            r.uncles == uncles,
            r.transactions == transactions,
            r.proposals == proposals,
            r.extension == extension,
    {
        Self { header, uncles, transactions, proposals, extension }
    }

    #[verifier::rlimit(60)]
    pub fn molecule(&self) -> (r: Vec<u8>)
        requires
            blockv1_fits(self@),
        ensures
            r@ == spec_blockv1_enc(self@),
    {
        let ghost items = spec_blockv1_items(self@);
        let ghost uncle_items = self@.uncles.map_values(|u: UncleBlockV| spec_uncle_enc(u));
        let ghost tx_items = self@.transactions.map_values(|t: TransactionV| spec_tx_enc(t));
        proof {
            lemma_dynvec_len(items);
            lemma_u32_bytes_len();
            assert(items =~= seq![items[0], items[1], items[2], items[3], items[4]]);
            lemma_sum5(items[0], items[1], items[2], items[3], items[4]);
            lemma_dynvec_len(uncle_items);
            lemma_dynvec_len(tx_items);
            assert forall|k: int| 0 <= k < self.uncles@.len() implies uncle_fits(
                #[trigger] self.uncles@[k]@,
            ) by {
                assert(self.uncles@[k]@ == self@.uncles[k]);
                lemma_item_le_sum(uncle_items, k);
            }
            assert forall|k: int| 0 <= k < self.transactions@.len() implies (
            #[trigger] spec_tx_enc(self.transactions@[k]@)).len() <= u32::MAX by {
                assert(self.transactions@[k]@ == self@.transactions[k]);
                lemma_item_le_sum(tx_items, k);
            }
        }
        let mut parts: Vec<Vec<u8>> = Vec::new();
        parts.push(self.header.molecule());
        let uncles = encode_uncle_vec(&self.uncles);
        parts.push(encode_dynvec(&uncles));
        let txs = encode_tx_vec(&self.transactions);
        parts.push(encode_dynvec(&txs));
        parts.push(encode_fixvec(&self.proposals));
        parts.push(encode_bytes(self.extension.as_slice()));
        proof {
            assert(views_of(parts@) =~= items);
        }
        encode_dynvec(&parts)
    }

    pub fn molecule_decode(data: &[u8]) -> (r: Option<Self>)
        ensures
            r is Some <==> spec_blockv1_dec(data@) is Some,
            r is Some ==> r->Some_0@ == spec_blockv1_dec(data@)->Some_0,
    {
        let parts = match decode_dynvec(data) {
            Some(p) => p,
            None => {
                return None;
            },
        };
        proof {
            assert(parts@.len() == views_of(parts@).len());
            assert(forall|i: int|
                0 <= i < parts@.len() ==> views_of(parts@)[i] == #[trigger] parts@[i]@);
        }
        if parts.len() < 5 {
            return None;
        }
        let header = match Header::molecule_decode(parts[0].as_slice()) {
            Some(v) => v,
            None => {
                return None;
            },
        };
        let uncle_items = match decode_dynvec(parts[1].as_slice()) {
            Some(v) => v,
            None => {
                return None;
            },
        };
        let uncles = match decode_uncle_vec(&uncle_items) {
            Some(v) => v,
            None => {
                return None;
            },
        };
        let tx_items = match decode_dynvec(parts[2].as_slice()) {
            Some(v) => v,
            None => {
                return None;
            },
        };
        let transactions = match decode_tx_vec(&tx_items) {
            Some(v) => v,
            None => {
                return None;
            },
        };
        let proposals = match decode_fixvec(parts[3].as_slice()) {
            Some(v) => v,
            None => {
                return None;
            },
        };
        let extension = match decode_bytes(parts[4].as_slice()) {
            Some(v) => v,
            None => {
                return None;
            },
        };
        let r = Self { header, uncles, transactions, proposals, extension };
        proof {
            assert(r@ =~~= spec_blockv1_dec(data@)->Some_0);
        }
        Some(r)
    }
}

} // verus!
