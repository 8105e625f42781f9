//! The probe: what runs at every system-call entry.
//!
//! It looks at the call's number first and returns at once for every call
//! but the one it watches. For that one it reserves a slot for exactly one
//! record, fills it and publishes it. It never waits: with no room in the
//! channel the event is lost. Whatever happens, the traced call goes on.

use crate::channel::Channel;
use crate::record::{Data, Record, RECORD_SIZE};
use crate::ring::Ring;
use vstd::prelude::*;

verus! {

/// Number of the watched system call, `execve`, on x86-64.
pub const EXECVE: u64 = 59;

/// Status handed back to the kernel: the traced call goes on.
pub const CONTINUE: i32 = 0;

/// Most bytes of a file name that a record keeps: the `path` field less the
/// terminator.
pub const PATH_TEXT_MAX: usize = 63;

/// What the system-call entry point shows of one call.
pub struct SysEnter {
    /// The two words of the raw tracepoint: the address of the saved
    /// registers and the number of the system call.
    pub args: [u64; 2],
    /// User id of the caller.
    pub uid: u32,
    /// Process id of the caller.
    pub pid: u32,
    /// Short name of the calling process, where it could be had.
    pub command: Option<[u8; 16]>,
    /// The memory that the call's first argument points to, from that
    /// address on: the file name and its terminator. `None` where the
    /// argument or the memory cannot be read.
    pub filename: Option<Vec<u8>>,
}

/// What the probe did with one call.
#[derive(Clone, Copy, Debug, PartialEq, Eq, Structural)]
pub enum Outcome {
    /// Not the watched call: nothing was done.
    Ignored,
    /// The channel had no room for one record: the event is lost.
    Dropped,
    /// One record was published. `named` is false where the file name could
    /// not be read: the record's path is then all zeros.
    Published { named: bool },
}

/// Bytes of `text` before its first zero byte: all of them where it has
/// none.
pub open spec fn c_len(text: Seq<u8>) -> nat
    decreases text.len(),
{
    if text.len() == 0 || text[0] == 0 {
        0
    } else {
        1 + c_len(text.drop_first())
    }
}

/// Bytes of `text` that a bounded copy into the path field keeps.
pub open spec fn kept(text: Seq<u8>) -> nat {
    if c_len(text) < PATH_TEXT_MAX {
        c_len(text)
    } else {
        PATH_TEXT_MAX as nat
    }
}

/// The path field after a bounded copy of `text` over `field`: the kept
/// bytes, then a terminator, then what the field held before.
pub open spec fn copied(field: Seq<u8>, text: Seq<u8>) -> Seq<u8> {
    Seq::new(
        field.len(),
        |i: int|
            if i < kept(text) {
                text[i]
            } else if i == kept(text) {
                0u8
            } else {
                field[i]
            },
    )
}

/// The path field of the record for a call: the readable file name cut to
/// at most 63 bytes, and zeros from there on; all zeros with no readable
/// name.
pub open spec fn path_field(filename: Option<Seq<u8>>) -> Seq<u8> {
    match filename {
        Some(text) => copied(Seq::new(64, |i: int| 0u8), text),
        None => Seq::new(64, |i: int| 0u8),
    }
}

/// The command field used where the caller's name could not be had: `ERR`
/// and thirteen spaces.
pub open spec fn unknown_command() -> Seq<u8> {
    Seq::new(
        16,
        |i: int|
            if i == 0 {
                0x45u8
            } else if i == 1 || i == 2 {
                0x52u8
            } else {
                0x20u8
            },
    )
}

impl SysEnter {
    /// The call is the watched one.
    pub open spec fn is_exec(self) -> bool {
        self.args[1] == EXECVE
    }

    /// The readable memory at the first argument.
    pub open spec fn text(self) -> Option<Seq<u8>> {
        match self.filename {
            Some(bytes) => Some(bytes@),
            None => None,
        }
    }

    /// The record that the probe writes for this call.
    pub open spec fn record(self) -> Record {
        Record {
            uid: self.uid,
            pid: self.pid,
            command: match self.command {
                Some(name) => name@,
                None => unknown_command(),
            },
            path: path_field(self.text()),
        }
    }

    /// What the probe does with this call on a channel in state `ring`.
    pub open spec fn outcome(self, ring: Ring) -> Outcome {
        if !self.is_exec() {
            Outcome::Ignored
        } else if !ring.can_reserve(RECORD_SIZE as nat) {
            Outcome::Dropped
        } else {
            Outcome::Published { named: self.filename is Some }
        }
    }

    /// The channel after the probe ran on this call.
    pub open spec fn effect(self, ring: Ring) -> Ring {
        match self.outcome(ring) {
            Outcome::Published { .. } => ring.publish(self.record().wire()),
            _ => ring,
        }
    }
}

/// `c_len` is where the first zero byte is.
pub proof fn lemma_c_len(text: Seq<u8>)
    ensures
        c_len(text) <= text.len(),
        forall|i: int| 0 <= i < c_len(text) ==> text[i] != 0,
        c_len(text) < text.len() ==> text[c_len(text) as int] == 0,
    decreases text.len(),
{
    if !(text.len() == 0 || text[0] == 0) {
        let rest = text.drop_first();
        lemma_c_len(rest);
        assert forall|i: int| 0 <= i < c_len(text) implies text[i] != 0 by {
            if i > 0 {
                assert(rest[i - 1] == text[i]);
            }
        }
    }
}

/// A prefix without a zero byte that ends the text or stands before a zero
/// byte is the whole of the text before its first zero byte.
pub proof fn lemma_c_len_is(text: Seq<u8>, n: nat)
    requires
        n <= text.len(),
        forall|i: int| 0 <= i < n ==> text[i] != 0,
        n == text.len() || text[n as int] == 0,
    ensures
        c_len(text) == n,
    decreases text.len(),
{
    if n > 0 {
        let rest = text.drop_first();
        assert forall|i: int| 0 <= i < n - 1 implies rest[i] != 0 by {
            assert(rest[i] == text[i + 1]);
        }
        lemma_c_len_is(rest, (n - 1) as nat);
    }
}

/// The two words of the raw tracepoint.
pub fn get_args(ctx: &SysEnter) -> (args: &[u64])
    ensures
        args@ == ctx.args@,
{
    ctx.args.as_slice()
}

/// Copies the zero-terminated text at the start of `src` into `dest`, never
/// more than 63 bytes of it, and terminates it there. What `dest` holds
/// behind the terminator stays. Returns the number of text bytes copied.
pub fn read_user_str(dest: &mut [u8; 64], src: &[u8]) -> (n: usize)
    ensures
        n == kept(src@),
        final(dest)@ == copied(old(dest)@, src@),
{
    let mut n: usize = 0;
    while n < 63 && n < src.len() && src[n] != 0
        invariant
            n <= 63,
            n <= src@.len(),
            forall|i: int| 0 <= i < n ==> src@[i] != 0,
            forall|i: int| 0 <= i < n ==> dest@[i] == src@[i],
            forall|i: int| n <= i < 64 ==> dest@[i] == old(dest)@[i],
        decreases 63 - n,
    {
        dest[n] = src[n];
        n = n + 1;
    }
    dest[n] = 0;
    proof {
        if n < 63 {
            lemma_c_len_is(src@, n as nat);
        } else {
            lemma_c_len(src@);
        }
    }
    n
}

/// The record for one call.
pub fn record_of(ctx: &SysEnter) -> (data: Data)
    ensures
        data@ == ctx.record(),
        data@.wf(),
{
    let command = match ctx.command {
        Some(name) => name,
        None => {
            let mut name = [0x20u8; 16];
            name[0] = 0x45;
            name[1] = 0x52;
            name[2] = 0x52;
            assert(name@ =~= unknown_command());
            name
        },
    };
    let mut path = [0u8; 64];
    assert(path@ =~= Seq::new(64, |i: int| 0u8));
    match &ctx.filename {
        Some(text) => {
            let _ = read_user_str(&mut path, text.as_slice());
        },
        None => {},
    }
    Data { uid: ctx.uid, pid: ctx.pid, command, path }
}

/// Runs the probe on one call and says what became of the event.
///
/// A call other than `execve` is ignored. An `execve` gets one record,
/// written into a slot reserved for exactly that record and then published;
/// with less room than one record in the channel the event is dropped and
/// the channel is as before.
pub fn try_iced_test_aya(ctx: &SysEnter, events: &mut Channel) -> (out: Outcome)
    requires
        old(events).wf(),
    ensures
        final(events).wf(),
        out == ctx.outcome(old(events)@),
        final(events)@ == ctx.effect(old(events)@),
{
    let args = get_args(ctx);
    if args[1] != EXECVE {
        return Outcome::Ignored;
    }
    let entry = match events.reserve(RECORD_SIZE) {
        Some(entry) => entry,
        None => {
            return Outcome::Dropped;
        },
    };
    let data = record_of(ctx);
    let bytes = data.encode();
    let _ = events.write(&entry, 0, bytes.as_slice());
    let _ = events.submit(entry);
    proof {
        let before = old(events)@;
        before.lemma_reserve_wf(RECORD_SIZE as nat);
        assert(before.reserve(RECORD_SIZE as nat).entries.last().reserved_as(
            before.next_offset(),
            RECORD_SIZE as nat,
        ));
    }
    Outcome::Published { named: ctx.filename.is_some() }
}

/// The probe's entry point. The status is always [`CONTINUE`]: whatever
/// became of the event, the traced call is not disturbed.
pub fn iced_test_aya(ctx: &SysEnter, events: &mut Channel) -> (status: i32)
    requires
        old(events).wf(),
    ensures
        status == CONTINUE,
        final(events).wf(),
        final(events)@ == ctx.effect(old(events)@),
{
    let _ = try_iced_test_aya(ctx, events);
    CONTINUE
}

} // verus!
