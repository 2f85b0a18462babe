//! The log writer: appends encoded records to one log's bytes, tracks the
//! durability boundary, and rebuilds state from prior logs by the recovery
//! protocol.
//!
//! The writer owns the log's byte contents; the caller keeps the backing
//! file in step with them and performs the actual device flush. `flushed`
//! marks the durability boundary: a record whose bytes sit before it is
//! durable, one past it may be lost by a crash.

use vstd::prelude::*;
use vstd::slice::slice_to_vec;

use crate::codec::{
    encode_delete, encode_set, lemma_decode_bounds, lemma_encode_all_push,
    lemma_records_of_encode_all, records_from, records_of, spec_encode_all, spec_encode_delete,
    spec_encode_set,
};
use crate::mem_table::{
    size_after_record, spec_upsert, table_after, table_size_after, wf_records, MemTable,
};
use crate::record::RecordModel;
use crate::wal_iterator::WALRecordIterator;

verus! {

/// The views of a list of log files' contents.
pub open spec fn log_views(logs: Seq<Vec<u8>>) -> Seq<Seq<u8>> {
    Seq::new(logs.len(), |i: int| logs[i]@)
}

/// Every complete record of every log, file by file in the given order,
/// records in file order within each file.
pub open spec fn all_records(logs: Seq<Seq<u8>>) -> Seq<RecordModel>
    decreases logs.len(),
{
    if logs.len() == 0 {
        Seq::empty()
    } else {
        all_records(logs.drop_last()) + records_of(logs.last())
    }
}

/// Round-trip recovery: one log holding exactly the encodings of `ops`
/// replays to `ops` itself, so recovery rebuilds the same table as applying
/// the operations directly.
pub proof fn lemma_recovery_round_trip(ops: Seq<RecordModel>)
    requires
        wf_records(ops),
    ensures
        all_records(seq![spec_encode_all(ops)]) == ops,
        table_after(all_records(seq![spec_encode_all(ops)])) == table_after(ops),
{
    lemma_records_of_encode_all(ops);
    let s = seq![spec_encode_all(ops)];
    assert(s.len() == 1);
    assert(s.last() == spec_encode_all(ops));
    assert(s.drop_last() =~= Seq::<Seq<u8>>::empty());
    assert(all_records(s) == all_records(s.drop_last()) + records_of(s.last()));
    assert(all_records(s.drop_last()) == Seq::<RecordModel>::empty());
    assert(Seq::<RecordModel>::empty() + records_of(spec_encode_all(ops)) =~= records_of(
        spec_encode_all(ops),
    ));
}

/// The append-only log writer.
pub struct WAL {
    contents: Vec<u8>,
    flushed: usize,
}

impl WAL {
    /// All bytes appended so far, in order.
    pub closed spec fn log(&self) -> Seq<u8> {
        self.contents@
    }

    /// How many leading bytes are durable.
    pub closed spec fn durable_len(&self) -> int {
        self.flushed as int
    }

    pub open spec fn wf(&self) -> bool {
        0 <= self.durable_len() <= self.log().len()
    }

    /// Creates a new, empty log.
    pub fn new() -> (r: WAL)
        ensures
            r.wf(),
            r.log() == Seq::<u8>::empty(),
            r.durable_len() == 0,
    {
        WAL { contents: Vec::new(), flushed: 0 }
    }

    /// Reopens a log whose bytes already sit on stable storage.
    pub fn from_contents(contents: Vec<u8>) -> (r: WAL)
        ensures
            r.wf(),
            r.log() == contents@,
            r.durable_len() == r.log().len(),
    {
        let flushed = contents.len();
        WAL { contents, flushed }
    }

    /// Appends a live-write record. Not durable until `flush`.
    pub fn set(&mut self, key: &[u8], value: &[u8], timestamp: u128)
        requires
            old(self).wf(),
        ensures
            final(self).wf(),
            final(self).log() == old(self).log() + spec_encode_set(key@, value@, timestamp),
            final(self).durable_len() == old(self).durable_len(),
    {
        let mut rec = encode_set(key, value, timestamp);
        self.contents.append(&mut rec);
    }

    /// Appends a tombstone record. Not durable until `flush`.
    pub fn delete(&mut self, key: &[u8], timestamp: u128)
        requires
            old(self).wf(),
        ensures
            final(self).wf(),
            final(self).log() == old(self).log() + spec_encode_delete(key@, timestamp),
            final(self).durable_len() == old(self).durable_len(),
    {
        let mut rec = encode_delete(key, timestamp);
        self.contents.append(&mut rec);
    }

    /// Moves the durability boundary to the end of the log: this is the
    /// point after which the appended records count as crash-safe.
    pub fn flush(&mut self)
        requires
            old(self).wf(),
        ensures
            final(self).wf(),
            final(self).log() == old(self).log(),
            final(self).durable_len() == final(self).log().len(),
    {
        self.flushed = self.contents.len();
    }

    /// The log's bytes: what the backing file must hold.
    pub fn contents(&self) -> (r: &[u8])
        ensures
            r@ == self.log(),
    {
        self.contents.as_slice()
    }

    /// The length of the durable prefix.
    pub fn flushed_len(&self) -> (r: usize)
        ensures
            r as int == self.durable_len(),
    {
        self.flushed
    }

    /// The recovery protocol: replays the given logs, oldest first, applying
    /// every complete record in order both to a fresh index and to a fresh
    /// consolidated log, then flushes that log. No record is merged away:
    /// the new log holds every historical record, in its original order;
    /// duplicates collapse only inside the index. The caller enumerates and
    /// sorts the old files, hands their bytes in here, writes the returned
    /// log out, and only then deletes the old files.
    pub fn load_mem_table_from_logs(logs: &Vec<Vec<u8>>) -> (r: (WAL, MemTable))
        ensures
            r.0.wf(),
            r.0.log() == spec_encode_all(all_records(log_views(logs@))),
            r.0.durable_len() == r.0.log().len(),
            r.1.wf(),
            r.1@ == table_after(all_records(log_views(logs@))),
            r.1.spec_size() as int == table_size_after(all_records(log_views(logs@))),
            wf_records(all_records(log_views(logs@))),
    {
        let ghost views = log_views(logs@);
        let mut mem = MemTable::new();
        let mut wal = WAL::new();
        let ghost mut ops: Seq<RecordModel> = Seq::empty();
        let mut f: usize = 0;
        proof {
            assert(views.take(0) =~= Seq::<Seq<u8>>::empty());
        }
        while f < logs.len()
            invariant
                0 <= f <= logs.len(),
                views == log_views(logs@),
                ops == all_records(views.take(f as int)),
                wf_records(ops),
                mem.wf(),
                mem@ == table_after(ops),
                mem.spec_size() as int == table_size_after(ops),
                wal.wf(),
                wal.log() == spec_encode_all(ops),
            decreases logs.len() - f,
        {
            let mut it = WALRecordIterator::new(slice_to_vec(logs[f].as_slice()));
            let ghost file = views[f as int];
            let ghost mut done: Seq<RecordModel> = Seq::empty();
            let ghost start_ops = ops;
            proof {
                assert(it.log() == file);
                assert(done + records_from(file, 0) =~= records_from(file, 0));
            }
            loop
                invariant
                    it.wf(),
                    it.log() == file,
                    records_of(file) == done + records_from(file, it.cursor()),
                    ops == start_ops + done,
                    wf_records(ops),
                    mem.wf(),
                    mem@ == table_after(ops),
                    mem.spec_size() as int == table_size_after(ops),
                    wal.wf(),
                    wal.log() == spec_encode_all(ops),
                ensures
                    ops == start_ops + records_of(file),
                    wf_records(ops),
                    mem.wf(),
                    mem@ == table_after(ops),
                    mem.spec_size() as int == table_size_after(ops),
                    wal.wf(),
                    wal.log() == spec_encode_all(ops),
                decreases it.log().len() - it.cursor(),
            {
                let ghost prev = it.cursor();
                match it.next() {
                    None => {
                        proof {
                            assert(records_from(file, prev) =~= Seq::<RecordModel>::empty());
                            assert(ops =~= start_ops + records_of(file));
                        }
                        break;
                    }
                    Some(rec) => {
                        proof {
                            lemma_decode_bounds(file, prev);
                            assert(rec@.wf());
                            assert(records_from(file, prev) == seq![rec@] + records_from(
                                file,
                                it.cursor(),
                            ));
                        }
                        if rec.deleted {
                            proof {
                                assert(rec@ == RecordModel::tombstone(rec.key@, rec.timestamp));
                            }
                            mem.delete(rec.key.as_slice(), rec.timestamp);
                            wal.delete(rec.key.as_slice(), rec.timestamp);
                        } else {
                            match &rec.value {
                                Some(v) => {
                                    proof {
                                        assert(rec@ == RecordModel::live(
                                            rec.key@,
                                            v@,
                                            rec.timestamp,
                                        ));
                                    }
                                    mem.set(rec.key.as_slice(), v.as_slice(), rec.timestamp);
                                    wal.set(rec.key.as_slice(), v.as_slice(), rec.timestamp);
                                }
                                None => {
                                    proof {
                                        assert(false);
                                    }
                                }
                            }
                        }
                        proof {
                            lemma_encode_all_push(ops, rec@);
                            assert(ops.push(rec@).drop_last() =~= ops);
                            assert(table_after(ops.push(rec@)) == spec_upsert(
                                table_after(ops),
                                rec@,
                            ));
                            let old_ops = ops;
                            let old_done = done;
                            ops = ops.push(rec@);
                            done = done.push(rec@);
                            assert(ops == start_ops + done) by {
                                assert(start_ops + old_done.push(rec@) =~= (start_ops + old_done)
                                    .push(rec@));
                            }
                            assert(records_of(file) == done + records_from(file, it.cursor()))
                                by {
                                assert(old_done + (seq![rec@] + records_from(file, it.cursor()))
                                    =~= old_done.push(rec@) + records_from(file, it.cursor()));
                            }
                            assert(wf_records(ops)) by {
                                assert forall|j: int| 0 <= j < ops.len() implies ops[j].wf() by {
                                    if j < old_ops.len() {
                                        assert(ops[j] == old_ops[j]);
                                    }
                                }
                            }
                        }
                    }
                }
            }
            f = f + 1;
            proof {
                assert(views.take(f as int).drop_last() =~= views.take(f as int - 1));
                assert(views.take(f as int).last() == file);
                assert(ops == all_records(views.take(f as int)));
            }
        }
        proof {
            assert(views.take(logs@.len() as int) =~= views);
        }
        wal.flush();
        (wal, mem)
    }
}

} // verus!
