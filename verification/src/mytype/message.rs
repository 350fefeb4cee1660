use vstd::prelude::*;

use crate::arbiter::Arbitratable;

verus! {

/// An application-level message: one copy of a sequence-numbered packet as it
/// arrived on one of the redundant source lines.
#[derive(Debug, Clone, PartialEq, Eq)]
pub struct Message {
    pub seq_num: u64,
    pub source_line: u8,
    pub ts: u64,
    /// The payload of the message.
    pub data: Vec<u8>,
}

impl Message {
    /// Creates a new Message.
    pub fn new(seq_num: u64, source_line: u8, ts: u64, data: Vec<u8>) -> (r: Self)
        ensures
            r.seq_num == seq_num,
            r.source_line == source_line,
            r.ts == ts,
            r.data == data,
    {
        Message { seq_num, source_line, ts, data }
    }
}

impl Arbitratable for Message {
    open spec fn spec_seq_num(&self) -> u64 {
        self.seq_num
    }

    open spec fn spec_source_line(&self) -> u8 {
        self.source_line
    }

    fn seq_num(&self) -> (r: u64) {
        self.seq_num
    }

    fn source_line(&self) -> (r: u8) {
        self.source_line
    }
}

} // verus!
