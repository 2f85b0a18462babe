//! The engine façade: one sorted index and one log writer bound together,
//! every mutation going through the log-before-apply rule.

use vstd::prelude::*;
use vstd::slice::slice_to_vec;

use crate::codec::{
    lemma_encode_all_push, lemma_records_of_encode_all, records_of, spec_encode_all,
    spec_encode_delete, spec_encode_set,
};
use crate::mem_table::{
    size_after_delete, size_after_set, spec_lookup, spec_upsert, table_after, table_size_after,
    wf_records, MemTable,
};
use crate::record::RecordModel;
use crate::wal::{all_records, log_views, WAL};

verus! {

/// A live record handed out of the engine: key, value and timestamp, fully
/// owned by the caller.
pub struct DatabaseRecord {
    key: Vec<u8>,
    value: Vec<u8>,
    timestamp: u128,
}

impl View for DatabaseRecord {
    type V = RecordModel;

    closed spec fn view(&self) -> RecordModel {
        RecordModel {
            key: self.key@,
            value: Some(self.value@),
            timestamp: self.timestamp,
            deleted: false,
        }
    }
}

impl DatabaseRecord {
    pub fn key(&self) -> (r: &[u8])
        ensures
            r@ == self@.key,
    {
        self.key.as_slice()
    }

    pub fn value(&self) -> (r: &[u8])
        ensures
            Some(r@) == self@.value,
    {
        self.value.as_slice()
    }

    pub fn timestamp(&self) -> (r: u128)
        ensures
            r == self@.timestamp,
    {
        self.timestamp
    }
}

/// The engine: owns exactly one live index and one live log. The ghost
/// `history` is the sequence of operations accepted so far; the log always
/// holds exactly their encodings, fully durable, and the index equals their
/// replay — the in-memory state and the durable log never diverge.
pub struct Database {
    mem_table: MemTable,
    wal: WAL,
    history: Ghost<Seq<RecordModel>>,
}

impl Database {
    /// The operations accepted so far, oldest first.
    pub closed spec fn ops(&self) -> Seq<RecordModel> {
        self.history@
    }

    /// The index's entries, sorted by key.
    pub closed spec fn table(&self) -> Seq<RecordModel> {
        self.mem_table@
    }

    /// The index's byte-cost counter.
    pub closed spec fn table_size(&self) -> int {
        self.mem_table.spec_size() as int
    }

    /// The log's bytes.
    pub closed spec fn log(&self) -> Seq<u8> {
        self.wal.log()
    }

    /// Well-formed: the index is sorted, the whole log is durable, and log
    /// and index both agree with the operation history.
    pub closed spec fn wf(&self) -> bool {
        &&& self.mem_table.wf()
        &&& self.wal.wf()
        &&& wf_records(self.ops())
        &&& self.wal.log() == spec_encode_all(self.ops())
        &&& self.wal.durable_len() == self.wal.log().len()
        &&& self.mem_table@ == table_after(self.ops())
        &&& self.mem_table.spec_size() as int == table_size_after(self.ops())
    }

    /// Opens the engine on the byte contents of a directory's log files,
    /// sorted oldest first: runs recovery and serves from its result.
    pub fn new(logs: &Vec<Vec<u8>>) -> (db: Database)
        ensures
            db.wf(),
            db.ops() == all_records(log_views(logs@)),
            db.table() == table_after(all_records(log_views(logs@))),
            db.table_size() == table_size_after(all_records(log_views(logs@))),
            db.log() == spec_encode_all(all_records(log_views(logs@))),
    {
        let (wal, mem_table) = WAL::load_mem_table_from_logs(logs);
        Database { mem_table, wal, history: Ghost(all_records(log_views(logs@))) }
    }

    /// The log's bytes: what the backing log file must hold. After `new`
    /// the caller writes these out as the consolidated log; after that it
    /// appends what it encodes itself.
    pub fn log_contents(&self) -> (r: &[u8])
        ensures
            r@ == self.log(),
    {
        self.wal.contents()
    }

    /// Point read: a fully-owned copy of the live record under `key`. A
    /// tombstone reads as "not found", just like a key never written.
    pub fn get(&self, key: &[u8]) -> (r: Option<DatabaseRecord>)
        requires
            self.wf(),
        ensures
            match spec_lookup(self.table(), key@) {
                Some(m) => if m.deleted {
                    r is None
                } else {
                    r matches Some(dr) && dr@ == m
                },
                None => r is None,
            },
    {
        match self.mem_table.get(key) {
            Some(rec) => {
                if rec.deleted {
                    None
                } else {
                    match &rec.value {
                        Some(v) => Some(
                            DatabaseRecord {
                                key: slice_to_vec(rec.key.as_slice()),
                                value: slice_to_vec(v.as_slice()),
                                timestamp: rec.timestamp,
                            },
                        ),
                        None => {
                            proof {
                                assert(self.mem_table.wf());
                                assert(wf_records(self.mem_table@));
                                assert(spec_lookup(self.mem_table@, key@) == Some(rec@));
                                crate::mem_table::lemma_key_ip_bounds(self.mem_table@, key@);
                                let i = crate::mem_table::key_ip(self.mem_table@, key@);
                                assert(0 <= i < self.mem_table@.len());
                                assert(rec@ == self.mem_table@[i]);
                                assert(self.mem_table@[i].wf());
                                assert(false);
                            }
                            None
                        }
                    }
                }
            }
            None => None,
        }
    }

    /// One write, by the log-before-apply rule. The caller first makes the
    /// encoded record durable (append and flush on the backing device) and
    /// reports the outcome as `flush_ok`. On success the write lands in the
    /// log and the index; on failure the engine is left exactly as it was
    /// and the error is returned: a mutation is never visible in memory
    /// unless it is already durable.
    pub fn set(&mut self, key: &[u8], value: &[u8], timestamp: u128, flush_ok: bool) -> (r: Result<
        usize,
        usize,
    >)
        requires
            old(self).wf(),
        ensures
            final(self).wf(),
            flush_ok ==> {
                &&& r == Ok::<usize, usize>(1)
                &&& final(self).ops() == old(self).ops().push(
                    RecordModel::live(key@, value@, timestamp),
                )
                &&& final(self).log() == old(self).log() + spec_encode_set(
                    key@,
                    value@,
                    timestamp,
                )
                &&& final(self).table() == spec_upsert(
                    old(self).table(),
                    RecordModel::live(key@, value@, timestamp),
                )
                &&& final(self).table_size() == size_after_set(
                    old(self).table(),
                    old(self).table_size(),
                    key@,
                    value@,
                )
            },
            !flush_ok ==> {
                &&& r == Err::<usize, usize>(0)
                &&& final(self).ops() == old(self).ops()
                &&& final(self).log() == old(self).log()
                &&& final(self).table() == old(self).table()
                &&& final(self).table_size() == old(self).table_size()
            },
    {
        if !flush_ok {
            return Err(0);
        }
        let ghost rec = RecordModel::live(key@, value@, timestamp);
        self.wal.set(key, value, timestamp);
        self.wal.flush();
        self.mem_table.set(key, value, timestamp);
        proof {
            assert(vstd::slice::spec_slice_len(key) == key@.len());
            assert(vstd::slice::spec_slice_len(value) == value@.len());
            let old_ops = self.history@;
            self.history@ = self.history@.push(rec);
            lemma_encode_all_push(old_ops, rec);
            assert(self.history@.drop_last() =~= old_ops);
            assert forall|j: int| 0 <= j < self.history@.len() implies self.history@[j].wf() by {
                if j < old_ops.len() {
                    assert(self.history@[j] == old_ops[j]);
                }
            }
        }
        Ok(1)
    }

    /// One delete, by the same log-before-apply rule: the tombstone is made
    /// durable by the caller before it is applied to the index.
    pub fn delete(&mut self, key: &[u8], timestamp: u128, flush_ok: bool) -> (r: Result<
        usize,
        usize,
    >)
        requires
            old(self).wf(),
        ensures
            final(self).wf(),
            flush_ok ==> {
                &&& r == Ok::<usize, usize>(1)
                &&& final(self).ops() == old(self).ops().push(
                    RecordModel::tombstone(key@, timestamp),
                )
                &&& final(self).log() == old(self).log() + spec_encode_delete(key@, timestamp)
                &&& final(self).table() == spec_upsert(
                    old(self).table(),
                    RecordModel::tombstone(key@, timestamp),
                )
                &&& final(self).table_size() == size_after_delete(
                    old(self).table(),
                    old(self).table_size(),
                    key@,
                )
            },
            !flush_ok ==> {
                &&& r == Err::<usize, usize>(0)
                &&& final(self).ops() == old(self).ops()
                &&& final(self).log() == old(self).log()
                &&& final(self).table() == old(self).table()
                &&& final(self).table_size() == old(self).table_size()
            },
    {
        if !flush_ok {
            return Err(0);
        }
        let ghost rec = RecordModel::tombstone(key@, timestamp);
        self.wal.delete(key, timestamp);
        self.wal.flush();
        self.mem_table.delete(key, timestamp);
        proof {
            assert(vstd::slice::spec_slice_len(key) == key@.len());
            let old_ops = self.history@;
            self.history@ = self.history@.push(rec);
            lemma_encode_all_push(old_ops, rec);
            assert(self.history@.drop_last() =~= old_ops);
            assert forall|j: int| 0 <= j < self.history@.len() implies self.history@[j].wf() by {
                if j < old_ops.len() {
                    assert(self.history@[j] == old_ops[j]);
                }
            }
        }
        Ok(1)
    }
}

/// Durability: at any point the log's bytes decode back to exactly the
/// engine's accepted operations, and the index equals their replay — what
/// recovery would rebuild is what the engine is serving.
pub proof fn lemma_log_matches_history(db: &Database)
    requires
        db.wf(),
    ensures
        records_of(db.log()) == db.ops(),
        db.table() == table_after(db.ops()),
{
    lemma_records_of_encode_all(db.ops());
}

/// Reads are decided by call order alone: a key holds exactly the last
/// operation that touched it, whatever the records' timestamps say.
pub proof fn lemma_reads_follow_call_order(db: &Database, key: Seq<u8>)
    requires
        db.wf(),
    ensures
        spec_lookup(db.table(), key) == crate::mem_table::last_op_for(db.ops(), key),
{
    crate::mem_table::lemma_table_after_last_wins(db.ops(), key);
}

} // verus!
