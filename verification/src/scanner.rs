use vstd::prelude::*;

use crate::error::Error;

verus! {

use crate::codec::{LogEntry, record_at, is_tombstone_at, key_at, value_at, record_end};

/// Sequential, forward-only scanner over the raw bytes of a log: a cursor
/// that produces one record at a time, in write order. It ends cleanly only
/// when the bytes run out exactly at a record boundary; running out in the
/// middle of a record is a hard error, never a silent stop.
pub struct LogIterator<'a> {
    pub log: &'a Vec<u8>,
    pub position: u64,
}

impl<'a> LogIterator<'a> {
    /// The offset at which the next record would begin.
    pub open spec fn position_spec(self) -> int {
        self.position as int
    }

    /// The cursor stands on or before the end of the bytes.
    pub open spec fn wf(self) -> bool {
        self.position <= self.log@.len()
    }

    /// Opens a scanner at the start of the log bytes.
    pub fn new(log: &'a Vec<u8>) -> (it: LogIterator<'a>)
        ensures
            it.log == log,
            it.position_spec() == 0,
            it.wf(),
    {
        LogIterator { log, position: 0 }
    }

    /// Produces the next raw record. `None` exactly when the previous
    /// record ended flush with the bytes; an error when the bytes end
    /// partway through a record.
    pub fn next(&mut self) -> (r: Option<Result<LogEntry, Error>>)
        requires
            old(self).wf(),
        ensures
            final(self).log == old(self).log,
            final(self).wf(),
            ({
                let b = old(self).log@;
                let p = old(self).position as int;
                &&& (p == b.len() ==> r is None && final(self).position == old(self).position)
                &&& (p < b.len() && record_at(b, p) ==> {
                    &&& r matches Some(Ok(e))
                    &&& e.position == old(self).position
                    &&& e.key@ == key_at(b, p)
                    &&& (e.value is Some <==> !is_tombstone_at(b, p))
                    &&& (e.value matches Some(v) ==> v@ == value_at(b, p))
                    &&& final(self).position == record_end(b, p)
                })
                &&& (p < b.len() && !record_at(b, p) ==> r == Some(
                    Err::<LogEntry, Error>(Error::UnexpectedEof),
                ) && final(self).position == old(self).position)
            }),
    {
        let n: usize = self.log.len();
        if self.position == n as u64 {
            return None;
        }
        match LogEntry::read(self.log, self.position) {
            Ok(e) => {
                proof {
                    let b = self.log@;
                    let p = self.position as int;
                    assert(e.key@.len() == key_at(b, p).len());
                    if e.value is Some {
                        assert(e.value->Some_0@.len() == value_at(b, p).len());
                    }
                }
                let step: usize = match &e.value {
                    Some(v) => 8 + e.key.len() + v.len(),
                    None => 8 + e.key.len(),
                };
                self.position = self.position + step as u64;
                Some(Ok(e))
            },
            Err(err) => Some(Err(err)),
        }
    }
}

} // verus!
