//! The event record and its wire format.
//!
//! A record is 88 bytes on the wire: `uid` (4 bytes), `pid` (4 bytes),
//! `command` (16 bytes) and `path` (64 bytes), in that order and without
//! padding. The two integers are stored least significant byte first.

use vstd::prelude::*;

verus! {

/// Bytes of the `command` field.
pub const COMMAND_LEN: usize = 16;

/// Bytes of the `path` field.
pub const PATH_LEN: usize = 64;

/// Bytes of one record on the wire.
pub const RECORD_SIZE: usize = 88;

/// One process-exec event.
#[derive(Clone, Copy)]
pub struct Data {
    pub uid: u32,
    pub pid: u32,
    pub command: [u8; 16],
    pub path: [u8; 64],
}

/// The mathematical value of a [`Data`]: its two integers and the contents of
/// its two byte fields.
pub struct Record {
    pub uid: u32,
    pub pid: u32,
    pub command: Seq<u8>,
    pub path: Seq<u8>,
}

impl View for Data {
    type V = Record;

    open spec fn view(&self) -> Record {
        Record { uid: self.uid, pid: self.pid, command: self.command@, path: self.path@ }
    }
}

/// The four bytes of `x`, least significant first.
pub open spec fn le_bytes(x: u32) -> Seq<u8> {
    seq![
        (x % 256) as u8,
        (x / 256 % 256) as u8,
        (x / 65536 % 256) as u8,
        (x / 16777216) as u8,
    ]
}

/// The integer whose least-significant-first bytes are `b[at..at + 4]`.
pub open spec fn le_value(b: Seq<u8>, at: int) -> int {
    b[at] + 256 * b[at + 1] + 65536 * b[at + 2] + 16777216 * b[at + 3]
}

impl Record {
    /// Both byte fields have their fixed lengths.
    pub open spec fn wf(self) -> bool {
        self.command.len() == COMMAND_LEN && self.path.len() == PATH_LEN
    }

    /// The record as it travels through the channel.
    pub open spec fn wire(self) -> Seq<u8> {
        le_bytes(self.uid) + le_bytes(self.pid) + self.command + self.path
    }
}

/// The record that a byte span holds, if it is exactly one record long.
pub open spec fn parse(bytes: Seq<u8>) -> Option<Record> {
    if bytes.len() == RECORD_SIZE {
        Some(
            Record {
                uid: le_value(bytes, 0) as u32,
                pid: le_value(bytes, 4) as u32,
                command: bytes.subrange(8, 24),
                path: bytes.subrange(24, 88),
            },
        )
    } else {
        None
    }
}

/// Parsing undoes `wire`.
pub proof fn lemma_parse_wire(r: Record)
    requires
        r.wf(),
    ensures
        r.wire().len() == RECORD_SIZE,
        parse(r.wire()) == Some(r),
{
    let w = r.wire();
    assert(w.subrange(8, 24) =~= r.command);
    assert(w.subrange(24, 88) =~= r.path);
}

/// Four bytes are the least-significant-first bytes of the integer they
/// spell.
proof fn lemma_le_bytes_of_value(b0: u8, b1: u8, b2: u8, b3: u8)
    ensures
        0 <= b0 + 256 * b1 + 65536 * b2 + 16777216 * b3 <= u32::MAX,
        le_bytes((b0 + 256 * b1 + 65536 * b2 + 16777216 * b3) as u32) == seq![b0, b1, b2, b3],
{
    let x: int = b0 + 256 * b1 + 65536 * b2 + 16777216 * b3;
    assert(x / 65536 == b2 + 256 * b3);
}

/// `wire` undoes parsing: a span of one record's length is the wire form of
/// the record parsed from it.
pub proof fn lemma_wire_parse(bytes: Seq<u8>)
    requires
        bytes.len() == RECORD_SIZE,
    ensures
        parse(bytes) matches Some(r) && r.wf() && r.wire() == bytes,
{
    lemma_le_bytes_of_value(bytes[0], bytes[1], bytes[2], bytes[3]);
    lemma_le_bytes_of_value(bytes[4], bytes[5], bytes[6], bytes[7]);
}

/// A span whose length is not that of one record parses to nothing, whatever
/// it holds; every span of that length parses.
pub proof fn lemma_parse_rejects_other_sizes(bytes: Seq<u8>)
    ensures
        parse(bytes) is None <==> bytes.len() != RECORD_SIZE,
{
}

fn read_u32(bytes: &[u8], at: usize) -> (x: u32)
    requires
        at + 4 <= bytes@.len(),
    ensures
        x == le_value(bytes@, at as int),
{
    let b0: u32 = bytes[at] as u32;
    let b1: u32 = bytes[at + 1] as u32;
    let b2: u32 = bytes[at + 2] as u32;
    let b3: u32 = bytes[at + 3] as u32;
    b0 + 256 * b1 + 65536 * b2 + 16777216 * b3
}

impl Data {
    /// Lays the record out in its wire format.
    pub fn encode(&self) -> (out: [u8; 88])
        ensures
            out@ == self@.wire(),
    {
        let mut out = [0u8; 88];
        out[0] = (self.uid % 256) as u8;
        out[1] = (self.uid / 256 % 256) as u8;
        out[2] = (self.uid / 65536 % 256) as u8;
        out[3] = (self.uid / 16777216) as u8;
        out[4] = (self.pid % 256) as u8;
        out[5] = (self.pid / 256 % 256) as u8;
        out[6] = (self.pid / 65536 % 256) as u8;
        out[7] = (self.pid / 16777216) as u8;
        let mut i: usize = 0;
        while i < 16
            invariant
                i <= 16,
                out@.subrange(0, 4) == le_bytes(self.uid),
                out@.subrange(4, 8) == le_bytes(self.pid),
                out@.subrange(8, 8 + i) == self.command@.subrange(0, i as int),
            decreases 16 - i,
        {
            out[8 + i] = self.command[i];
            i = i + 1;
        }
        let mut j: usize = 0;
        while j < 64
            invariant
                j <= 64,
                out@.subrange(0, 4) == le_bytes(self.uid),
                out@.subrange(4, 8) == le_bytes(self.pid),
                out@.subrange(8, 24) == self.command@,
                out@.subrange(24, 24 + j) == self.path@.subrange(0, j as int),
            decreases 64 - j,
        {
            out[24 + j] = self.path[j];
            j = j + 1;
        }
        assert(out@ =~= out@.subrange(0, 4) + out@.subrange(4, 8) + out@.subrange(8, 24)
            + out@.subrange(24, 88));
        out
    }

    /// Reads one record from a byte span. A span of any other length than
    /// [`RECORD_SIZE`] is rejected whole: no field of it is read.
    pub fn decode(bytes: &[u8]) -> (out: Option<Data>)
        ensures
            out is Some <==> bytes@.len() == RECORD_SIZE,
            match out {
                Some(d) => parse(bytes@) == Some(d@),
                None => parse(bytes@) is None,
            },
    {
        if bytes.len() != RECORD_SIZE {
            return None;
        }
        let uid = read_u32(bytes, 0);
        let pid = read_u32(bytes, 4);
        let mut command = [0u8; 16];
        let mut i: usize = 0;
        while i < 16
            invariant
                i <= 16,
                bytes@.len() == 88,
                command@.subrange(0, i as int) == bytes@.subrange(8, 8 + i),
            decreases 16 - i,
        {
            command[i] = bytes[8 + i];
            i = i + 1;
        }
        let mut path = [0u8; 64];
        let mut j: usize = 0;
        while j < 64
            invariant
                j <= 64,
                bytes@.len() == 88,
                path@.subrange(0, j as int) == bytes@.subrange(24, 24 + j),
            decreases 64 - j,
        {
            path[j] = bytes[24 + j];
            j = j + 1;
        }
        assert(command@ =~= command@.subrange(0, 16));
        assert(path@ =~= path@.subrange(0, 64));
        Some(Data { uid, pid, command, path })
    }
}

} // verus!
