//! The log's byte-level record format: little-endian, fixed-width length
//! fields, variable-length payloads.
//!
//! A live write is laid out as
//! `key_len (8) | 0 (1) | value_len (8) | key | value | timestamp (16)`,
//! a tombstone as `key_len (8) | 1 (1) | key | timestamp (16)`.
//! Decoding branches on the tombstone byte and ends silently on any short
//! read: a truncated tail is "no more records", never an error.

use vstd::bytes::{
    lemma_auto_spec_u128_to_from_le_bytes, lemma_auto_spec_u64_to_from_le_bytes,
    spec_u128_from_le_bytes, spec_u128_to_le_bytes, spec_u64_from_le_bytes, spec_u64_to_le_bytes,
    u128_to_le_bytes, u64_to_le_bytes,
};
use vstd::prelude::*;

use crate::record::RecordModel;

verus! {

broadcast use vstd::slice::group_slice_axioms;

/// The bytes of a live-write record.
pub open spec fn spec_encode_set(key: Seq<u8>, value: Seq<u8>, timestamp: u128) -> Seq<u8> {
    spec_u64_to_le_bytes(key.len() as u64) + seq![0u8] + spec_u64_to_le_bytes(value.len() as u64)
        + key + value + spec_u128_to_le_bytes(timestamp)
}

/// The bytes of a tombstone record: no value-length field, no value.
pub open spec fn spec_encode_delete(key: Seq<u8>, timestamp: u128) -> Seq<u8> {
    spec_u64_to_le_bytes(key.len() as u64) + seq![1u8] + key + spec_u128_to_le_bytes(timestamp)
}

/// The bytes of a logical record, by its tombstone flag.
pub open spec fn spec_encode_record(r: RecordModel) -> Seq<u8> {
    match r.value {
        Some(v) => spec_encode_set(r.key, v, r.timestamp),
        None => spec_encode_delete(r.key, r.timestamp),
    }
}

/// The concatenated bytes of a whole sequence of records, in order.
pub open spec fn spec_encode_all(ops: Seq<RecordModel>) -> Seq<u8>
    decreases ops.len(),
{
    if ops.len() == 0 {
        Seq::empty()
    } else {
        spec_encode_record(ops.first()) + spec_encode_all(ops.drop_first())
    }
}

/// Decodes one record at `pos`: `None` on any short read, else the record
/// and the position just past it. A nonzero tombstone byte marks a delete.
pub open spec fn spec_decode(bytes: Seq<u8>, pos: int) -> Option<(RecordModel, int)> {
    if pos < 0 || pos + 9 > bytes.len() {
        None
    } else {
        let klen = spec_u64_from_le_bytes(bytes.subrange(pos, pos + 8)) as int;
        if bytes[pos + 8] != 0 {
            if pos + 9 + klen + 16 <= bytes.len() {
                Some(
                    (
                        RecordModel {
                            key: bytes.subrange(pos + 9, pos + 9 + klen),
                            value: None,
                            timestamp: spec_u128_from_le_bytes(
                                bytes.subrange(pos + 9 + klen, pos + 9 + klen + 16),
                            ),
                            deleted: true,
                        },
                        pos + 9 + klen + 16,
                    ),
                )
            } else {
                None
            }
        } else {
            if pos + 17 > bytes.len() {
                None
            } else {
                let vlen = spec_u64_from_le_bytes(bytes.subrange(pos + 9, pos + 17)) as int;
                if pos + 17 + klen + vlen + 16 <= bytes.len() {
                    Some(
                        (
                            RecordModel {
                                key: bytes.subrange(pos + 17, pos + 17 + klen),
                                value: Some(
                                    bytes.subrange(pos + 17 + klen, pos + 17 + klen + vlen),
                                ),
                                timestamp: spec_u128_from_le_bytes(
                                    bytes.subrange(
                                        pos + 17 + klen + vlen,
                                        pos + 17 + klen + vlen + 16,
                                    ),
                                ),
                                deleted: false,
                            },
                            pos + 17 + klen + vlen + 16,
                        ),
                    )
                } else {
                    None
                }
            }
        }
    }
}

/// A decoded record is well formed, and decoding makes progress within the
/// byte sequence.
pub proof fn lemma_decode_bounds(bytes: Seq<u8>, pos: int)
    requires
        spec_decode(bytes, pos) is Some,
    ensures
        pos + 25 <= spec_decode(bytes, pos).unwrap().1 <= bytes.len(),
        spec_decode(bytes, pos).unwrap().0.wf(),
{
}

/// All records decodable from `pos` on, in order, up to the first short read.
pub open spec fn records_from(bytes: Seq<u8>, pos: int) -> Seq<RecordModel>
    decreases bytes.len() - pos,
{
    match spec_decode(bytes, pos) {
        None => Seq::empty(),
        Some((r, next)) => if pos < next <= bytes.len() {
            seq![r] + records_from(bytes, next)
        } else {
            seq![r]
        },
    }
}

/// The logical contents of one log file: every complete record, in file
/// order; a truncated tail is discarded silently.
pub open spec fn records_of(bytes: Seq<u8>) -> Seq<RecordModel> {
    records_from(bytes, 0)
}

/// Decoding reads back exactly the record whose encoding sits at `pos`.
pub proof fn lemma_decode_encode(r: RecordModel, bytes: Seq<u8>, pos: int)
    requires
        r.wf(),
        0 <= pos,
        pos + spec_encode_record(r).len() <= bytes.len(),
        bytes.subrange(pos, pos + spec_encode_record(r).len() as int) == spec_encode_record(r),
    ensures
        spec_decode(bytes, pos) == Some(
            (r, pos + spec_encode_record(r).len() as int),
        ),
{
    lemma_auto_spec_u64_to_from_le_bytes();
    lemma_auto_spec_u128_to_from_le_bytes();
    let enc = spec_encode_record(r);
    let klen = r.key.len() as int;
    assert forall|j: int| 0 <= j < enc.len() implies bytes[pos + j] == enc[j] by {
        assert(bytes.subrange(pos, pos + enc.len() as int)[j] == enc[j]);
    }
    assert(bytes.subrange(pos, pos + 8) =~= enc.subrange(0, 8));
    match r.value {
        Some(v) => {
            let vlen = v.len() as int;
            assert(enc.len() == 33 + klen + vlen);
            assert(enc.subrange(0, 8) =~= spec_u64_to_le_bytes(r.key.len() as u64));
            assert(spec_u64_from_le_bytes(bytes.subrange(pos, pos + 8)) == r.key.len() as u64);
            assert(bytes[pos + 8] == enc[8]);
            assert(enc[8] == 0);
            assert(bytes.subrange(pos + 9, pos + 17) =~= spec_u64_to_le_bytes(v.len() as u64))
                by {
                assert forall|j: int| 0 <= j < 8 implies #[trigger] bytes.subrange(
                    pos + 9,
                    pos + 17,
                )[j] == spec_u64_to_le_bytes(v.len() as u64)[j] by {
                    assert(bytes.subrange(pos, pos + enc.len() as int)[9 + j] == enc[9 + j]);
                }
            }
            assert(bytes.subrange(pos + 17, pos + 17 + klen) =~= r.key) by {
                assert forall|j: int| 0 <= j < klen implies bytes.subrange(
                    pos + 17,
                    pos + 17 + klen,
                )[j] == r.key[j] by {
                    assert(bytes.subrange(pos, pos + enc.len() as int)[17 + j] == enc[17 + j]);
                }
            }
            assert(bytes.subrange(pos + 17 + klen, pos + 17 + klen + vlen) =~= v) by {
                assert forall|j: int| 0 <= j < vlen implies bytes.subrange(
                    pos + 17 + klen,
                    pos + 17 + klen + vlen,
                )[j] == v[j] by {
                    assert(bytes.subrange(pos, pos + enc.len() as int)[17 + klen + j] == enc[17 + klen + j]);
                }
            }
            assert(bytes.subrange(pos + 17 + klen + vlen, pos + 17 + klen + vlen + 16)
                =~= spec_u128_to_le_bytes(r.timestamp)) by {
                assert forall|j: int| 0 <= j < 16 implies #[trigger] bytes.subrange(
                    pos + 17 + klen + vlen,
                    pos + 17 + klen + vlen + 16,
                )[j] == spec_u128_to_le_bytes(r.timestamp)[j] by {
                    assert(bytes.subrange(pos, pos + enc.len() as int)[17 + klen + vlen + j] == enc[17 + klen + vlen + j]);
                }
            }
            assert(spec_decode(bytes, pos).unwrap().0 =~~= r);
        }
        None => {
            assert(enc.len() == 25 + klen);
            assert(enc.subrange(0, 8) =~= spec_u64_to_le_bytes(r.key.len() as u64));
            assert(spec_u64_from_le_bytes(bytes.subrange(pos, pos + 8)) == r.key.len() as u64);
            assert(bytes[pos + 8] == enc[8]);
            assert(enc[8] == 1);
            assert(bytes.subrange(pos + 9, pos + 9 + klen) =~= r.key) by {
                assert forall|j: int| 0 <= j < klen implies bytes.subrange(
                    pos + 9,
                    pos + 9 + klen,
                )[j] == r.key[j] by {
                    assert(bytes.subrange(pos, pos + enc.len() as int)[9 + j] == enc[9 + j]);
                }
            }
            assert(bytes.subrange(pos + 9 + klen, pos + 9 + klen + 16) =~= spec_u128_to_le_bytes(
                r.timestamp,
            )) by {
                assert forall|j: int| 0 <= j < 16 implies #[trigger] bytes.subrange(
                    pos + 9 + klen,
                    pos + 9 + klen + 16,
                )[j] == spec_u128_to_le_bytes(r.timestamp)[j] by {
                    assert(bytes.subrange(pos, pos + enc.len() as int)[9 + klen + j] == enc[9 + klen + j]);
                }
            }
            assert(spec_decode(bytes, pos).unwrap().0 =~~= r);
        }
    }
}

/// Decoding a suffix that holds exactly the encodings of `ops` yields `ops`.
pub proof fn lemma_records_from_encoded_suffix(bytes: Seq<u8>, pos: int, ops: Seq<RecordModel>)
    requires
        crate::mem_table::wf_records(ops),
        0 <= pos <= bytes.len(),
        bytes.subrange(pos, bytes.len() as int) == spec_encode_all(ops),
    ensures
        records_from(bytes, pos) == ops,
    decreases ops.len(),
{
    lemma_auto_spec_u64_to_from_le_bytes();
    lemma_auto_spec_u128_to_from_le_bytes();
    if ops.len() == 0 {
        assert(bytes.len() == pos);
    } else {
        let r = ops.first();
        assert(r.wf());
        let enc = spec_encode_record(r);
        let rest = spec_encode_all(ops.drop_first());
        assert(bytes.subrange(pos, bytes.len() as int) == enc + rest);
        assert(bytes.subrange(pos, pos + enc.len() as int) =~= enc);
        lemma_decode_encode(r, bytes, pos);
        let next = pos + enc.len() as int;
        assert(bytes.subrange(next, bytes.len() as int) =~= rest) by {
            assert forall|j: int| 0 <= j < bytes.len() - next implies #[trigger] bytes.subrange(
                next,
                bytes.len() as int,
            )[j] == rest[j] by {
                assert(bytes.subrange(pos, bytes.len() as int)[enc.len() + j] == (enc + rest)[
                    enc.len() + j
                ]);
            }
        }
        assert forall|j: int| 0 <= j < ops.drop_first().len() implies ops.drop_first()[j].wf() by {
            assert(ops.drop_first()[j] == ops[j + 1]);
        }
        lemma_records_from_encoded_suffix(bytes, next, ops.drop_first());
        lemma_decode_bounds(bytes, pos);
        assert(records_from(bytes, pos) =~= seq![r] + ops.drop_first());
        assert(seq![r] + ops.drop_first() =~= ops);
    }
}

/// Round trip: replaying a log that holds exactly the encodings of `ops`
/// yields `ops` back, each record intact and in its original order.
pub proof fn lemma_records_of_encode_all(ops: Seq<RecordModel>)
    requires
        crate::mem_table::wf_records(ops),
    ensures
        records_of(spec_encode_all(ops)) == ops,
{
    let bytes = spec_encode_all(ops);
    assert(bytes.subrange(0, bytes.len() as int) =~= bytes);
    lemma_records_from_encoded_suffix(bytes, 0, ops);
}

/// Appending one record to a batch appends its encoding to the batch's bytes.
pub proof fn lemma_encode_all_push(ops: Seq<RecordModel>, r: RecordModel)
    ensures
        spec_encode_all(ops.push(r)) == spec_encode_all(ops) + spec_encode_record(r),
    decreases ops.len(),
{
    if ops.len() == 0 {
        assert(ops.push(r).first() == r);
        assert(ops.push(r).drop_first() =~= Seq::<RecordModel>::empty());
        assert(spec_encode_all(ops.push(r)) == spec_encode_record(r) + spec_encode_all(
            Seq::<RecordModel>::empty(),
        ));
        assert(spec_encode_record(r) + Seq::<u8>::empty() =~= Seq::<u8>::empty()
            + spec_encode_record(r));
    } else {
        let f = ops.first();
        assert(ops.push(r).first() == f);
        assert(ops.push(r).drop_first() =~= ops.drop_first().push(r));
        lemma_encode_all_push(ops.drop_first(), r);
        assert(spec_encode_all(ops.push(r)) == spec_encode_record(f) + (spec_encode_all(
            ops.drop_first(),
        ) + spec_encode_record(r)));
        assert(spec_encode_record(f) + (spec_encode_all(ops.drop_first()) + spec_encode_record(r))
            =~= (spec_encode_record(f) + spec_encode_all(ops.drop_first()))
            + spec_encode_record(r));
    }
}

/// Encodes a live-write record.
pub fn encode_set(key: &[u8], value: &[u8], timestamp: u128) -> (r: Vec<u8>)
    ensures
        r@ == spec_encode_set(key@, value@, timestamp),
{
    proof {
        lemma_auto_spec_u64_to_from_le_bytes();
        lemma_auto_spec_u128_to_from_le_bytes();
    }
    let mut out: Vec<u8> = u64_to_le_bytes(key.len() as u64);
    out.push(0u8);
    let mut vl: Vec<u8> = u64_to_le_bytes(value.len() as u64);
    out.append(&mut vl);
    let mut k: Vec<u8> = vstd::slice::slice_to_vec(key);
    out.append(&mut k);
    let mut v: Vec<u8> = vstd::slice::slice_to_vec(value);
    out.append(&mut v);
    let mut ts: Vec<u8> = u128_to_le_bytes(timestamp);
    out.append(&mut ts);
    proof {
        assert(out@ =~= spec_encode_set(key@, value@, timestamp));
    }
    out
}

/// Encodes a tombstone record.
pub fn encode_delete(key: &[u8], timestamp: u128) -> (r: Vec<u8>)
    ensures
        r@ == spec_encode_delete(key@, timestamp),
{
    proof {
        lemma_auto_spec_u64_to_from_le_bytes();
        lemma_auto_spec_u128_to_from_le_bytes();
    }
    let mut out: Vec<u8> = u64_to_le_bytes(key.len() as u64);
    out.push(1u8);
    let mut k: Vec<u8> = vstd::slice::slice_to_vec(key);
    out.append(&mut k);
    let mut ts: Vec<u8> = u128_to_le_bytes(timestamp);
    out.append(&mut ts);
    proof {
        assert(out@ =~= spec_encode_delete(key@, timestamp));
    }
    out
}

} // verus!
