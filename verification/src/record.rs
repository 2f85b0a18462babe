//! The logical record: the unit both of the log and of the sorted index.

use vstd::prelude::*;

verus! {

/// Mathematical model of a logical record: a key, an optional value,
/// a timestamp in microseconds, and a tombstone flag.
pub struct RecordModel {
    pub key: Seq<u8>,
    pub value: Option<Seq<u8>>,
    pub timestamp: u128,
    pub deleted: bool,
}

impl RecordModel {
    /// A record is a tombstone exactly when it carries no value, and its
    /// payloads fit the 8-byte length fields of the log format.
    pub open spec fn wf(self) -> bool {
        &&& self.deleted <==> self.value is None
        &&& self.key.len() <= u64::MAX
        &&& match self.value {
            Some(v) => v.len() <= u64::MAX,
            None => true,
        }
    }

    /// The record a live write produces.
    pub open spec fn live(key: Seq<u8>, value: Seq<u8>, timestamp: u128) -> RecordModel {
        RecordModel { key, value: Some(value), timestamp, deleted: false }
    }

    /// The record a delete produces.
    pub open spec fn tombstone(key: Seq<u8>, timestamp: u128) -> RecordModel {
        RecordModel { key, value: None, timestamp, deleted: true }
    }
}

} // verus!
