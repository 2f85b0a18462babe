//! The log reader: decodes one log's bytes into a lazy, finite,
//! forward-only sequence of logical records, ending silently at the first
//! short read.

use vstd::bytes::{u128_from_le_bytes, u64_from_le_bytes};
use vstd::prelude::*;
use vstd::slice::{slice_subrange, slice_to_vec};

use crate::codec::spec_decode;
use crate::record::RecordModel;

verus! {

broadcast use vstd::slice::group_slice_axioms;

/// One record decoded from a log.
pub struct WALRecord {
    pub key: Vec<u8>,
    pub value: Option<Vec<u8>>,
    pub timestamp: u128,
    pub deleted: bool,
}

impl View for WALRecord {
    type V = RecordModel;

    open spec fn view(&self) -> RecordModel {
        RecordModel {
            key: self.key@,
            value: match self.value {
                Some(v) => Some(v@),
                None => None,
            },
            timestamp: self.timestamp,
            deleted: self.deleted,
        }
    }
}

/// A forward-only, non-restartable reader over one log's bytes.
pub struct WALRecordIterator {
    bytes: Vec<u8>,
    pos: usize,
}

impl WALRecordIterator {
    /// The bytes being decoded.
    pub closed spec fn log(&self) -> Seq<u8> {
        self.bytes@
    }

    /// The read cursor: decoding continues from here.
    pub closed spec fn cursor(&self) -> int {
        self.pos as int
    }

    pub open spec fn wf(&self) -> bool {
        self.cursor() <= self.log().len()
    }

    /// Starts reading a log from its first byte.
    pub fn new(bytes: Vec<u8>) -> (r: WALRecordIterator)
        ensures
            r.wf(),
            r.log() == bytes@,
            r.cursor() == 0,
    {
        WALRecordIterator { bytes, pos: 0 }
    }

    /// Decodes the next complete record, or returns `None` at the first
    /// short read; a truncated trailing record is discarded, not an error.
    pub fn next(&mut self) -> (r: Option<WALRecord>)
        requires
            old(self).wf(),
        ensures
            final(self).wf(),
            final(self).log() == old(self).log(),
            match r {
                None => {
                    &&& spec_decode(old(self).log(), old(self).cursor()) is None
                    &&& final(self).cursor() == old(self).cursor()
                },
                Some(rec) => spec_decode(old(self).log(), old(self).cursor()) == Some(
                    (rec@, final(self).cursor()),
                ),
            },
    {
        let n = self.bytes.len();
        let pos = self.pos;
        if n - pos < 9 {
            return None;
        }
        let klen64 = u64_from_le_bytes(slice_subrange(self.bytes.as_slice(), pos, pos + 8));
        let tomb = self.bytes[pos + 8];
        if tomb != 0 {
            let rem = n - (pos + 9);
            if klen64 > rem as u64 {
                return None;
            }
            let klen = klen64 as usize;
            if rem - klen < 16 {
                return None;
            }
            let key = slice_to_vec(slice_subrange(self.bytes.as_slice(), pos + 9, pos + 9 + klen));
            let timestamp = u128_from_le_bytes(
                slice_subrange(self.bytes.as_slice(), pos + 9 + klen, pos + 9 + klen + 16),
            );
            self.pos = pos + 9 + klen + 16;
            Some(WALRecord { key, value: None, timestamp, deleted: true })
        } else {
            if n - pos < 17 {
                return None;
            }
            let vlen64 = u64_from_le_bytes(
                slice_subrange(self.bytes.as_slice(), pos + 9, pos + 17),
            );
            let rem = n - (pos + 17);
            if klen64 > rem as u64 {
                return None;
            }
            let klen = klen64 as usize;
            if vlen64 > (rem - klen) as u64 {
                return None;
            }
            let vlen = vlen64 as usize;
            if rem - klen - vlen < 16 {
                return None;
            }
            let key = slice_to_vec(
                slice_subrange(self.bytes.as_slice(), pos + 17, pos + 17 + klen),
            );
            let value = slice_to_vec(
                slice_subrange(self.bytes.as_slice(), pos + 17 + klen, pos + 17 + klen + vlen),
            );
            let timestamp = u128_from_le_bytes(
                slice_subrange(
                    self.bytes.as_slice(),
                    pos + 17 + klen + vlen,
                    pos + 17 + klen + vlen + 16,
                ),
            );
            self.pos = pos + 17 + klen + vlen + 16;
            Some(WALRecord { key, value: Some(value), timestamp, deleted: false })
        }
    }
}

} // verus!
