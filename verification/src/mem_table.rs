//! The sorted in-memory index: an ordered sequence of records, strictly
//! increasing by key, one entry per key, with a running byte-cost counter.

use vstd::prelude::*;

use crate::lex::{
    lex_cmp, lex_lt, lemma_lex_lt_asymmetric, lemma_lex_lt_irreflexive, lemma_lex_lt_transitive,
    lemma_lex_lt_trichotomy, KeyOrder,
};
use crate::record::RecordModel;

verus! {

broadcast use vstd::slice::group_slice_axioms;

/// An in-memory record: owned key bytes, optional owned value bytes,
/// a timestamp and a tombstone flag.
pub struct Record {
    pub key: Vec<u8>,
    pub value: Option<Vec<u8>>,
    pub timestamp: u128,
    pub deleted: bool,
}

impl View for Record {
    type V = RecordModel;

    open spec fn view(&self) -> RecordModel {
        RecordModel {
            key: self.key@,
            value: match self.value {
                Some(v) => Some(v@),
                None => None,
            },
            timestamp: self.timestamp,
            deleted: self.deleted,
        }
    }
}

/// Entries strictly increasing by key: the index's central invariant.
pub open spec fn sorted_by_keys(s: Seq<RecordModel>) -> bool {
    forall|i: int, j: int| 0 <= i < j < s.len() ==> lex_lt(s[i].key, s[j].key)
}

/// Every entry is a well-formed record.
pub open spec fn wf_records(s: Seq<RecordModel>) -> bool {
    forall|i: int| 0 <= i < s.len() ==> s[i].wf()
}

/// The insertion point for `key`: the index of the first entry whose key is
/// not below `key`.
pub open spec fn key_ip(s: Seq<RecordModel>, key: Seq<u8>) -> int
    decreases s.len(),
{
    if s.len() == 0 {
        0
    } else if lex_lt(s[0].key, key) {
        1 + key_ip(s.skip(1), key)
    } else {
        0
    }
}

/// The entry stored under `key`, if any (live or tombstone).
pub open spec fn spec_lookup(s: Seq<RecordModel>, key: Seq<u8>) -> Option<RecordModel> {
    let i = key_ip(s, key);
    if i < s.len() && s[i].key == key {
        Some(s[i])
    } else {
        None
    }
}

/// Insert-or-replace: the record lands at its key's position, keeping the
/// sequence sorted and the key unique.
pub open spec fn spec_upsert(s: Seq<RecordModel>, r: RecordModel) -> Seq<RecordModel> {
    let i = key_ip(s, r.key);
    if i < s.len() && s[i].key == r.key {
        s.update(i, r)
    } else {
        s.insert(i, r)
    }
}

/// Addition clamped to the range of `usize`.
pub open spec fn clamped_add(a: int, b: int) -> int {
    if a + b > usize::MAX {
        usize::MAX as int
    } else {
        a + b
    }
}

/// Subtraction clamped at zero.
pub open spec fn clamped_sub(a: int, b: int) -> int {
    if a - b < 0 {
        0
    } else {
        a - b
    }
}

/// The byte-cost counter after a live write: on overwrite of a live value
/// adjust by the difference in value lengths, on overwrite of a tombstone
/// leave it unchanged, on a fresh insert add key, value and per-record
/// overhead (16 timestamp bytes plus 1 tombstone byte).
pub open spec fn size_after_set(s: Seq<RecordModel>, size: int, key: Seq<u8>, value: Seq<u8>) -> int {
    match spec_lookup(s, key) {
        Some(r) => match r.value {
            Some(v) => if value.len() < v.len() {
                clamped_sub(size, v.len() - value.len())
            } else {
                clamped_add(size, value.len() - v.len())
            },
            None => size,
        },
        None => clamped_add(size, key.len() as int + value.len() as int + 17),
    }
}

/// The byte-cost counter after a delete: dropping a live value gives its
/// length back, re-deleting changes nothing, a fresh tombstone adds key and
/// overhead.
pub open spec fn size_after_delete(s: Seq<RecordModel>, size: int, key: Seq<u8>) -> int {
    match spec_lookup(s, key) {
        Some(r) => match r.value {
            Some(v) => clamped_sub(size, v.len() as int),
            None => size,
        },
        None => clamped_add(size, key.len() as int + 17),
    }
}

/// One replayed record applied to a table state.
pub open spec fn apply_record(s: Seq<RecordModel>, r: RecordModel) -> Seq<RecordModel> {
    spec_upsert(s, r)
}

/// The table after applying a whole sequence of operations, in order, to an
/// empty table.
pub open spec fn table_after(ops: Seq<RecordModel>) -> Seq<RecordModel>
    decreases ops.len(),
{
    if ops.len() == 0 {
        Seq::empty()
    } else {
        apply_record(table_after(ops.drop_last()), ops.last())
    }
}

/// The byte-cost counter after one replayed record.
pub open spec fn size_after_record(s: Seq<RecordModel>, size: int, r: RecordModel) -> int {
    if r.deleted {
        size_after_delete(s, size, r.key)
    } else {
        match r.value {
            Some(v) => size_after_set(s, size, r.key, v),
            None => size,
        }
    }
}

/// The byte-cost counter after applying a whole sequence of operations to an
/// empty table.
pub open spec fn table_size_after(ops: Seq<RecordModel>) -> int
    decreases ops.len(),
{
    if ops.len() == 0 {
        0
    } else {
        size_after_record(table_after(ops.drop_last()), table_size_after(ops.drop_last()), ops.last())
    }
}

pub proof fn lemma_key_ip_bounds(s: Seq<RecordModel>, key: Seq<u8>)
    ensures
        0 <= key_ip(s, key) <= s.len(),
        forall|j: int| 0 <= j < key_ip(s, key) ==> lex_lt(s[j].key, key),
        key_ip(s, key) < s.len() ==> !lex_lt(s[key_ip(s, key)].key, key),
    decreases s.len(),
{
    if s.len() > 0 && lex_lt(s[0].key, key) {
        lemma_key_ip_bounds(s.skip(1), key);
        let ip = key_ip(s, key);
        assert forall|j: int| 0 <= j < ip implies lex_lt(s[j].key, key) by {
            if j > 0 {
                assert(s.skip(1)[j - 1] == s[j]);
                assert(lex_lt(s.skip(1)[j - 1].key, key));
            }
        }
        if ip < s.len() {
            assert(s.skip(1)[ip - 1] == s[ip]);
        }
    }
}

/// The insertion point is the unique index below which all keys are smaller
/// and at which the key is not.
pub proof fn lemma_key_ip_of(s: Seq<RecordModel>, key: Seq<u8>, i: int)
    requires
        0 <= i <= s.len(),
        forall|j: int| 0 <= j < i ==> lex_lt(s[j].key, key),
        i < s.len() ==> !lex_lt(s[i].key, key),
    ensures
        key_ip(s, key) == i,
    decreases s.len(),
{
    if s.len() == 0 {
    } else if i == 0 {
    } else {
        assert(lex_lt(s[0].key, key));
        assert forall|j: int| 0 <= j < i - 1 implies lex_lt(s.skip(1)[j].key, key) by {
            assert(s.skip(1)[j] == s[j + 1]);
        }
        if i - 1 < s.skip(1).len() {
            assert(s.skip(1)[i - 1] == s[i]);
        }
        lemma_key_ip_of(s.skip(1), key, i - 1);
    }
}

/// Upsert keeps the index sorted and stores the record under its key.
pub proof fn lemma_upsert_sorted(s: Seq<RecordModel>, r: RecordModel)
    requires
        sorted_by_keys(s),
    ensures
        sorted_by_keys(spec_upsert(s, r)),
        spec_lookup(spec_upsert(s, r), r.key) == Some(r),
        wf_records(s) && r.wf() ==> wf_records(spec_upsert(s, r)),
{
    lemma_key_ip_bounds(s, r.key);
    let i = key_ip(s, r.key);
    let t = spec_upsert(s, r);
    if i < s.len() && s[i].key == r.key {
        assert(t == s.update(i, r));
        assert forall|p: int, q: int| 0 <= p < q < t.len() implies lex_lt(t[p].key, t[q].key) by {
            assert(lex_lt(s[p].key, s[q].key));
        }
        lemma_lex_lt_irreflexive(r.key);
        lemma_key_ip_of(t, r.key, i);
    } else {
        assert(t == s.insert(i, r));
        s.insert_ensures(i, r);
        if i < s.len() {
            lemma_lex_lt_trichotomy(s[i].key, r.key);
            assert(lex_lt(r.key, s[i].key));
        }
        assert forall|p: int, q: int| 0 <= p < q < t.len() implies lex_lt(t[p].key, t[q].key) by {
            if q < i {
                assert(t[p] == s[p] && t[q] == s[q]);
            } else if p > i {
                assert(t[p] == s[p - 1] && t[q] == s[q - 1]);
            } else if p < i && q == i {
                assert(t[p] == s[p] && t[q] == r);
            } else if p < i && q > i {
                assert(t[p] == s[p] && t[q] == s[q - 1]);
            } else if p == i && q > i {
                assert(t[p] == r && t[q] == s[q - 1]);
                if q - 1 > i {
                    lemma_lex_lt_transitive(r.key, s[i].key, s[q - 1].key);
                }
            }
        }
        assert forall|j: int| 0 <= j < i implies lex_lt(t[j].key, r.key) by {
            assert(t[j] == s[j]);
        }
        lemma_lex_lt_irreflexive(r.key);
        lemma_key_ip_of(t, r.key, i);
        assert(t[i] == r);
        if wf_records(s) && r.wf() {
            assert forall|j: int| 0 <= j < t.len() implies t[j].wf() by {
                if j < i {
                    assert(t[j] == s[j]);
                } else if j == i {
                    assert(t[j] == r);
                } else {
                    assert(t[j] == s[j - 1]);
                }
            }
        }
    }
}

/// In a sorted index a lookup finds the one entry stored under the key, and
/// finds nothing exactly when no entry carries the key.
pub proof fn lemma_lookup_finds(s: Seq<RecordModel>, key: Seq<u8>)
    requires
        sorted_by_keys(s),
    ensures
        match spec_lookup(s, key) {
            Some(e) => e.key == key && exists|j: int| 0 <= j < s.len() && s[j] == e,
            None => forall|j: int| 0 <= j < s.len() ==> s[j].key != key,
        },
        forall|j: int| 0 <= j < s.len() && s[j].key == key ==> spec_lookup(s, key) == Some(s[j]),
{
    lemma_key_ip_bounds(s, key);
    let i = key_ip(s, key);
    assert forall|j: int| 0 <= j < s.len() && s[j].key == key implies spec_lookup(s, key) == Some(
        s[j],
    ) by {
        lemma_lex_lt_irreflexive(key);
        if j < i {
            assert(lex_lt(s[j].key, key));
        } else if j > i {
            if i < s.len() && lex_lt(key, s[i].key) {
                lemma_lex_lt_transitive(key, s[i].key, s[j].key);
            }
            lemma_lex_lt_trichotomy(s[i].key, key);
            if lex_lt(s[i].key, key) {
            } else if s[i].key == key {
                assert(lex_lt(s[i].key, s[j].key));
            } else {
                lemma_lex_lt_transitive(key, s[i].key, s[j].key);
                lemma_lex_lt_asymmetric(key, s[j].key);
            }
        }
    }
    if spec_lookup(s, key) is Some {
        assert(s[i] == spec_lookup(s, key).unwrap());
    } else {
        assert forall|j: int| 0 <= j < s.len() implies s[j].key != key by {
            if s[j].key == key {
                assert(spec_lookup(s, key) == Some(s[j]));
            }
        }
    }
}

/// The most recently applied record for a key wins, and entries under other
/// keys are untouched: conflict resolution is by call order alone.
pub proof fn lemma_upsert_last_wins(s: Seq<RecordModel>, r: RecordModel, key: Seq<u8>)
    requires
        sorted_by_keys(s),
    ensures
        spec_lookup(spec_upsert(s, r), r.key) == Some(r),
        key != r.key ==> spec_lookup(spec_upsert(s, r), key) == spec_lookup(s, key),
{
    lemma_upsert_sorted(s, r);
    lemma_key_ip_bounds(s, r.key);
    let i = key_ip(s, r.key);
    let t = spec_upsert(s, r);
    if key != r.key {
        lemma_lookup_finds(s, key);
        lemma_lookup_finds(t, key);
        if i < s.len() && s[i].key == r.key {
            assert(t == s.update(i, r));
            match spec_lookup(s, key) {
                Some(e) => {
                    let j = choose|j: int| 0 <= j < s.len() && s[j] == e;
                    assert(t[j] == e);
                    assert(spec_lookup(t, key) == Some(e));
                }
                None => {
                    if spec_lookup(t, key) is Some {
                        let e = spec_lookup(t, key).unwrap();
                        let j = choose|j: int| 0 <= j < t.len() && t[j] == e;
                        assert(s[j].key == key);
                    }
                }
            }
        } else {
            assert(t == s.insert(i, r));
            s.insert_ensures(i, r);
            match spec_lookup(s, key) {
                Some(e) => {
                    let j = choose|j: int| 0 <= j < s.len() && s[j] == e;
                    if j < i {
                        assert(t[j] == e);
                    } else {
                        assert(t[j + 1] == e);
                    }
                    assert(spec_lookup(t, key) == Some(e));
                }
                None => {
                    if spec_lookup(t, key) is Some {
                        let e = spec_lookup(t, key).unwrap();
                        let j = choose|j: int| 0 <= j < t.len() && t[j] == e;
                        if j < i {
                            assert(s[j].key == key);
                        } else if j == i {
                            assert(e == r);
                        } else {
                            assert(s[j - 1].key == key);
                        }
                    }
                }
            }
        }
    }
}

/// The last operation in a history that touched `key`, if any.
pub open spec fn last_op_for(ops: Seq<RecordModel>, key: Seq<u8>) -> Option<RecordModel>
    decreases ops.len(),
{
    if ops.len() == 0 {
        None
    } else if ops.last().key == key {
        Some(ops.last())
    } else {
        last_op_for(ops.drop_last(), key)
    }
}

/// After any sequence of operations the rebuilt table is strictly sorted by
/// key, with one entry per key.
pub proof fn lemma_table_after_sorted(ops: Seq<RecordModel>)
    ensures
        sorted_by_keys(table_after(ops)),
        wf_records(ops) ==> wf_records(table_after(ops)),
    decreases ops.len(),
{
    if ops.len() > 0 {
        lemma_table_after_sorted(ops.drop_last());
        lemma_upsert_sorted(table_after(ops.drop_last()), ops.last());
        if wf_records(ops) {
            assert forall|j: int| 0 <= j < ops.drop_last().len() implies ops.drop_last()[j].wf() by {
                assert(ops.drop_last()[j] == ops[j]);
            }
        }
    }
}

/// After a whole history each key holds exactly the last operation that
/// touched it — write or tombstone, whichever came last in call order — and
/// a key no operation touched is absent.
pub proof fn lemma_table_after_last_wins(ops: Seq<RecordModel>, key: Seq<u8>)
    ensures
        spec_lookup(table_after(ops), key) == last_op_for(ops, key),
    decreases ops.len(),
{
    if ops.len() > 0 {
        lemma_table_after_sorted(ops.drop_last());
        lemma_table_after_last_wins(ops.drop_last(), key);
        lemma_upsert_last_wins(table_after(ops.drop_last()), ops.last(), key);
    }
}

/// Addition on the counter, saturating at the top of `usize`.
fn sat_add(a: usize, b: usize) -> (r: usize)
    ensures
        r as int == clamped_add(a as int, b as int),
{
    if a > usize::MAX - b {
        usize::MAX
    } else {
        a + b
    }
}

/// Subtraction on the counter, saturating at zero.
fn sat_sub(a: usize, b: usize) -> (r: usize)
    ensures
        r as int == clamped_sub(a as int, b as int),
{
    if a < b {
        0
    } else {
        a - b
    }
}

/// `size + a + b + 17`, saturating at the top of `usize`.
fn sat_add_cost(size: usize, a: usize, b: usize) -> (r: usize)
    ensures
        r as int == clamped_add(size as int, a + b + 17),
{
    let d: u128 = a as u128 + b as u128 + 17;
    if d > usize::MAX as u128 {
        usize::MAX
    } else {
        sat_add(size, d as usize)
    }
}

/// The sorted index. Keys are unique and strictly increasing in unsigned
/// lexicographic byte order; `size` is the running byte-cost estimate.
pub struct MemTable {
    entries: Vec<Record>,
    size: usize,
}

impl View for MemTable {
    type V = Seq<RecordModel>;

    closed spec fn view(&self) -> Seq<RecordModel> {
        self.entries@.map_values(|r: Record| r@)
    }
}

impl MemTable {
    /// The running byte-cost counter.
    pub closed spec fn spec_size(&self) -> usize {
        self.size
    }

    /// Well-formed: sorted, unique keys, tombstones carry no value.
    pub open spec fn wf(&self) -> bool {
        &&& sorted_by_keys(self@)
        &&& wf_records(self@)
    }

    /// Creates an empty index.
    pub fn new() -> (r: MemTable)
        ensures
            r.wf(),
            r@ == Seq::<RecordModel>::empty(),
            r.spec_size() == 0,
    {
        let r = MemTable { entries: Vec::new(), size: 0 };
        proof {
            assert(r@ =~= Seq::<RecordModel>::empty());
        }
        r
    }

    /// Binary search for `key`: `Ok` carries the index holding the key,
    /// `Err` the insertion point where it would go.
    fn get_index(&self, key: &[u8]) -> (r: Result<usize, usize>)
        requires
            self.wf(),
        ensures
            match r {
                Ok(i) => i as int == key_ip(self@, key@) && i < self@.len() && self@[i as int].key
                    == key@,
                Err(i) => i as int == key_ip(self@, key@) && spec_lookup(self@, key@) is None,
            },
    {
        let ghost s = self@;
        let mut lo: usize = 0;
        let mut hi: usize = self.entries.len();
        proof {
            assert(s.len() == self.entries@.len());
        }
        while lo < hi
            invariant
                self.wf(),
                s == self@,
                s.len() == self.entries@.len(),
                lo <= hi <= s.len(),
                forall|j: int| 0 <= j < lo ==> lex_lt(s[j].key, key@),
                forall|j: int| hi <= j < s.len() ==> lex_lt(key@, s[j].key),
            decreases hi - lo,
        {
            let mid: usize = lo + (hi - lo) / 2;
            let cmp = lex_cmp(self.entries[mid].key.as_slice(), key);
            proof {
                assert(self.entries[mid as int]@ == s[mid as int]);
            }
            match cmp {
                KeyOrder::Less => {
                    proof {
                        assert forall|j: int| 0 <= j < mid + 1 implies lex_lt(s[j].key, key@) by {
                            if j < mid {
                                lemma_lex_lt_transitive(s[j].key, s[mid as int].key, key@);
                            }
                        }
                    }
                    lo = mid + 1;
                }
                KeyOrder::Greater => {
                    proof {
                        assert forall|j: int| mid <= j < s.len() implies lex_lt(key@, s[j].key) by {
                            if j > mid {
                                lemma_lex_lt_transitive(key@, s[mid as int].key, s[j].key);
                            }
                        }
                    }
                    hi = mid;
                }
                KeyOrder::Equal => {
                    proof {
                        lemma_lex_lt_irreflexive(key@);
                        assert forall|j: int| 0 <= j < mid implies lex_lt(s[j].key, key@) by {
                            assert(lex_lt(s[j].key, s[mid as int].key));
                        }
                        lemma_key_ip_of(s, key@, mid as int);
                    }
                    return Ok(mid);
                }
            }
        }
        proof {
            if (lo as int) < s.len() {
                lemma_lex_lt_asymmetric(key@, s[lo as int].key);
            }
            lemma_key_ip_of(s, key@, lo as int);
        }
        Err(lo)
    }

    /// Upserts a live record for `key`, keeping the index sorted and
    /// adjusting the byte-cost counter.
    pub fn set(&mut self, key: &[u8], value: &[u8], timestamp: u128)
        requires
            old(self).wf(),
        ensures
            final(self).wf(),
            final(self)@ == spec_upsert(old(self)@, RecordModel::live(key@, value@, timestamp)),
            final(self).spec_size() as int == size_after_set(
                old(self)@,
                old(self).spec_size() as int,
                key@,
                value@,
            ),
    {
        let ghost s = old(self)@;
        let ghost rec = RecordModel::live(key@, value@, timestamp);
        let entry = Record {
            key: vstd::slice::slice_to_vec(key),
            value: Some(vstd::slice::slice_to_vec(value)),
            timestamp,
            deleted: false,
        };
        proof {
            assert(vstd::slice::spec_slice_len(key) == key@.len());
            assert(vstd::slice::spec_slice_len(value) == value@.len());
            assert(rec.wf());
            assert(entry@ == rec);
            lemma_upsert_sorted(s, rec);
        }
        match self.get_index(key) {
            Ok(idx) => {
                proof {
                    assert(spec_lookup(s, key@) == Some(s[idx as int]));
                }
                match &self.entries[idx].value {
                    Some(v) => {
                        let plen = v.len();
                        proof {
                            assert(s[idx as int].value == Some(v@));
                        }
                        if value.len() < plen {
                            self.size = sat_sub(self.size, plen - value.len());
                        } else {
                            self.size = sat_add(self.size, value.len() - plen);
                        }
                    }
                    None => {}
                }
                let ghost es = self.entries@;
                self.entries.remove(idx);
                self.entries.insert(idx, entry);
                proof {
                    assert(self.entries@ =~= es.update(idx as int, entry));
                    assert forall|j: int| 0 <= j < self@.len() implies self@[j] == spec_upsert(
                        s,
                        rec,
                    )[j] by {
                        assert(self@[j] == self.entries@[j]@);
                        if j != idx {
                            assert(self.entries@[j] == es[j]);
                        }
                    }
                    assert(self@ =~= spec_upsert(s, rec));
                }
            }
            Err(idx) => {
                proof {
                    lemma_key_ip_bounds(s, key@);
                }
                self.size = sat_add_cost(self.size, key.len(), value.len());
                let ghost es = self.entries@;
                self.entries.insert(idx, entry);
                proof {
                    es.insert_ensures(idx as int, entry);
                    s.insert_ensures(idx as int, rec);
                    assert forall|j: int| 0 <= j < self@.len() implies self@[j] == spec_upsert(
                        s,
                        rec,
                    )[j] by {
                        assert(self@[j] == self.entries@[j]@);
                        if j < idx {
                            assert(self.entries@[j] == es[j]);
                            assert(spec_upsert(s, rec)[j] == s[j]);
                        } else if j == idx {
                            assert(self.entries@[j] == entry);
                        } else {
                            assert(self.entries@[j] == es[j - 1]);
                            assert(spec_upsert(s, rec)[j] == s[j - 1]);
                        }
                    }
                    assert(self@ =~= spec_upsert(s, rec));
                }
            }
        }
    }

    /// Upserts a tombstone for `key`: a delete is recorded, not erased, so
    /// that it shadows earlier writes. A live value's length is given back
    /// to the byte-cost counter.
    pub fn delete(&mut self, key: &[u8], timestamp: u128)
        requires
            old(self).wf(),
        ensures
            final(self).wf(),
            final(self)@ == spec_upsert(old(self)@, RecordModel::tombstone(key@, timestamp)),
            final(self).spec_size() as int == size_after_delete(
                old(self)@,
                old(self).spec_size() as int,
                key@,
            ),
    {
        let ghost s = old(self)@;
        let ghost rec = RecordModel::tombstone(key@, timestamp);
        let entry = Record {
            key: vstd::slice::slice_to_vec(key),
            value: None,
            timestamp,
            deleted: true,
        };
        proof {
            assert(vstd::slice::spec_slice_len(key) == key@.len());
            assert(rec.wf());
            assert(entry@ == rec);
            lemma_upsert_sorted(s, rec);
        }
        match self.get_index(key) {
            Ok(idx) => {
                proof {
                    assert(spec_lookup(s, key@) == Some(s[idx as int]));
                }
                match &self.entries[idx].value {
                    Some(v) => {
                        let plen = v.len();
                        proof {
                            assert(s[idx as int].value == Some(v@));
                        }
                        self.size = sat_sub(self.size, plen);
                    }
                    None => {}
                }
                let ghost es = self.entries@;
                self.entries.remove(idx);
                self.entries.insert(idx, entry);
                proof {
                    assert(self.entries@ =~= es.update(idx as int, entry));
                    assert forall|j: int| 0 <= j < self@.len() implies self@[j] == spec_upsert(
                        s,
                        rec,
                    )[j] by {
                        assert(self@[j] == self.entries@[j]@);
                        if j != idx {
                            assert(self.entries@[j] == es[j]);
                        }
                    }
                    assert(self@ =~= spec_upsert(s, rec));
                }
            }
            Err(idx) => {
                proof {
                    lemma_key_ip_bounds(s, key@);
                }
                self.size = sat_add_cost(self.size, key.len(), 0);
                let ghost es = self.entries@;
                self.entries.insert(idx, entry);
                proof {
                    es.insert_ensures(idx as int, entry);
                    s.insert_ensures(idx as int, rec);
                    assert forall|j: int| 0 <= j < self@.len() implies self@[j] == spec_upsert(
                        s,
                        rec,
                    )[j] by {
                        assert(self@[j] == self.entries@[j]@);
                        if j < idx {
                            assert(self.entries@[j] == es[j]);
                            assert(spec_upsert(s, rec)[j] == s[j]);
                        } else if j == idx {
                            assert(self.entries@[j] == entry);
                        } else {
                            assert(self.entries@[j] == es[j - 1]);
                            assert(spec_upsert(s, rec)[j] == s[j - 1]);
                        }
                    }
                    assert(self@ =~= spec_upsert(s, rec));
                }
            }
        }
    }

    /// Point lookup: returns the stored entry, live or tombstone; callers
    /// check the tombstone flag.
    pub fn get(&self, key: &[u8]) -> (r: Option<&Record>)
        requires
            self.wf(),
        ensures
            match r {
                Some(rec) => spec_lookup(self@, key@) == Some(rec@),
                None => spec_lookup(self@, key@) is None,
            },
    {
        match self.get_index(key) {
            Ok(idx) => {
                proof {
                    assert(self.entries@[idx as int]@ == self@[idx as int]);
                }
                Some(&self.entries[idx])
            }
            Err(_) => None,
        }
    }

    /// The number of entries in the index.
    pub fn len(&self) -> (r: usize)
        ensures
            r == self@.len(),
    {
        self.entries.len()
    }

    /// The entries in key order: a read-only view of the whole index.
    pub fn entries(&self) -> (r: &[Record])
        ensures
            r@.len() == self@.len(),
            forall|i: int| 0 <= i < r@.len() ==> (#[trigger] r@[i])@ == self@[i],
    {
        self.entries.as_slice()
    }

    /// The running byte-cost estimate of the stored records.
    pub fn size(&self) -> (r: usize)
        ensures
            r == self.spec_size(),
    {
        self.size
    }
}

} // verus!
