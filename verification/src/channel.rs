//! The channel: a bounded circular buffer between one or more producers and
//! one consumer.
//!
//! A producer reserves a slot, writes into it and then submits or discards
//! it. The consumer drains submitted slots in the order in which they were
//! reserved. Nothing here blocks: a reservation that does not fit fails at
//! once, and a drain with nothing to return says so.

use crate::ring::{wrap, zeros, Entry, Ring, SlotState};
use vstd::prelude::*;

verus! {

/// Bytes of the channel between the probe and the poller: three pages, room
/// for 139 records.
pub const EVENTS_BYTE_SIZE: usize = 12288;

/// A producer's claim on a stretch of the arena, handed out by
/// [`Channel::reserve`] and given back to [`Channel::submit`] or
/// [`Channel::discard`].
pub struct Slot {
    offset: usize,
    len: usize,
}

impl Slot {
    /// Index in the arena of the slot's first byte.
    pub closed spec fn offset(&self) -> nat {
        self.offset as nat
    }

    /// Bytes of the slot.
    pub closed spec fn len(&self) -> nat {
        self.len as nat
    }

    /// Bytes of the slot.
    pub fn size(&self) -> (n: usize)
        ensures
            n == self.len(),
    {
        self.len
    }
}

struct Meta {
    offset: usize,
    len: usize,
    state: SlotState,
}

/// A circular buffer with a fixed capacity in bytes.
pub struct Channel {
    arena: Vec<u8>,
    head: usize,
    used: usize,
    slots: Vec<Meta>,
    ready: bool,
}

/// Steps from arena index `from` forward to arena index `a`, going round the
/// end of the arena.
spec fn ahead(a: int, from: int, capacity: int) -> int {
    if a >= from {
        a - from
    } else {
        a + capacity - from
    }
}

/// The `len` bytes of the arena from index `offset` on, going round the end.
spec fn span(arena: Seq<u8>, offset: nat, len: nat) -> Seq<u8> {
    Seq::new(len, |k: int| arena[wrap((offset + k) as nat, arena.len()) as int])
}

/// Byte `k` of slot `i` lies in the arena, as far from the read cursor as
/// the slot's start plus `k`.
proof fn lemma_cell(r: Ring, i: int, k: int)
    requires
        r.tiled(),
        0 <= i < r.entries.len(),
        0 <= k <= r.entries[i].bytes.len(),
    ensures
        0 <= wrap((r.entries[i].offset + k) as nat, r.capacity) <= r.capacity,
        k < r.entries[i].bytes.len() ==> wrap((r.entries[i].offset + k) as nat, r.capacity)
            < r.capacity,
        r.start(i) + k - r.head <= r.used,
        r.start(i) + k - r.head < r.capacity ==> ahead(
            wrap((r.entries[i].offset + k) as nat, r.capacity) as int,
            r.head as int,
            r.capacity as int,
        ) == r.start(i) + k - r.head,
        0 <= r.start(i) - r.head,
{
}

/// After `data` went into the arena from byte `at` of slot `i` on, byte `m`
/// of slot `j` is a byte of `data` where it lies in the written stretch, and
/// what it was everywhere else.
proof fn lemma_stored(
    r: Ring,
    i: int,
    at: int,
    data: Seq<u8>,
    before: Seq<u8>,
    after: Seq<u8>,
    j: int,
    m: int,
)
    requires
        r.tiled(),
        0 <= i < r.entries.len(),
        0 <= j < r.entries.len(),
        0 <= m < r.entries[j].bytes.len(),
        0 <= at,
        at + data.len() <= r.entries[i].bytes.len(),
        before.len() == r.capacity,
        after.len() == r.capacity,
        forall|a: int|
            0 <= a < r.capacity ==> #[trigger] after[a] == if ahead(
                a,
                wrap((r.entries[i].offset + at) as nat, r.capacity) as int,
                r.capacity as int,
            ) < data.len() {
                data[ahead(
                    a,
                    wrap((r.entries[i].offset + at) as nat, r.capacity) as int,
                    r.capacity as int,
                )]
            } else {
                before[a]
            },
    ensures
        0 <= wrap((r.entries[j].offset + m) as nat, r.capacity) < r.capacity,
        after[wrap((r.entries[j].offset + m) as nat, r.capacity) as int] == if j == i && at <= m
            < at + data.len() {
            data[m - at]
        } else {
            before[wrap((r.entries[j].offset + m) as nat, r.capacity) as int]
        },
{
    lemma_cell(r, j, m);
    lemma_cell(r, i, at);
    lemma_cell(r, i, 0);
}

impl View for Channel {
    type V = Ring;

    closed spec fn view(&self) -> Ring {
        Ring {
            capacity: self.arena@.len(),
            head: self.head as nat,
            used: self.used as nat,
            entries: Seq::new(
                self.slots@.len(),
                |i: int|
                    Entry {
                        offset: self.slots@[i].offset as nat,
                        state: self.slots@[i].state,
                        bytes: span(
                            self.arena@,
                            self.slots@[i].offset as nat,
                            self.slots@[i].len as nat,
                        ),
                    },
            ),
            ready: self.ready,
        }
    }
}

impl Channel {
    /// The invariant of a channel. Every operation keeps it.
    pub open spec fn wf(&self) -> bool {
        self@.wf()
    }

    /// An empty channel with an arena of `capacity` bytes. No allocation
    /// is larger than `isize::MAX` bytes.
    pub fn new(capacity: usize) -> (c: Channel)
        requires
            capacity <= isize::MAX,
        ensures
            c.wf(),
            c@ == Ring::empty(capacity as nat),
    {
        let c = Channel {
            arena: vec![0u8; capacity],
            head: 0,
            used: 0,
            slots: Vec::new(),
            ready: false,
        };
        assert(c@.entries =~= Seq::empty());
        c
    }

    /// Bytes of the arena.
    pub fn capacity(&self) -> (n: usize)
        ensures
            n == self@.capacity,
    {
        self.arena.len()
    }

    /// Bytes that can still be reserved.
    pub fn free(&self) -> (n: usize)
        requires
            self.wf(),
        ensures
            n == self@.free(),
    {
        self.arena.len() - self.used
    }

    /// Whether the readiness signal is raised.
    pub fn is_ready(&self) -> (b: bool)
        ensures
            b == self@.ready,
    {
        self.ready
    }

    /// Acknowledges the readiness signal. It stays raised while a drain
    /// would still return something.
    pub fn clear_ready(&mut self)
        requires
            old(self).wf(),
        ensures
            final(self).wf(),
            final(self)@ == old(self)@.clear_ready(),
    {
        self.ready = self.front_is(SlotState::Submitted);
    }

    fn front_is(&self, state: SlotState) -> (b: bool)
        ensures
            b == (self@.entries.len() > 0 && self@.entries[0].state == state),
    {
        self.slots.len() > 0 && self.slots[0].state == state
    }

    fn back_is(&self, state: SlotState) -> (b: bool)
        ensures
            b == (self@.entries.len() > 0 && self@.entries.last().state == state),
    {
        let n = self.slots.len();
        n > 0 && self.slots[n - 1].state == state
    }

    fn find(&self, slot: &Slot) -> (out: Option<usize>)
        ensures
            match out {
                Some(i) => i < self@.entries.len() && self@.entries[i as int].reserved_as(
                    slot.offset(),
                    slot.len(),
                ),
                None => !self@.holds(slot.offset(), slot.len()),
            },
    {
        let mut i: usize = 0;
        while i < self.slots.len()
            invariant
                i <= self.slots@.len(),
                forall|j: int|
                    0 <= j < i ==> !(#[trigger] self@.entries[j]).reserved_as(
                        slot.offset(),
                        slot.len(),
                    ),
            decreases self.slots@.len() - i,
        {
            if self.slots[i].offset == slot.offset && self.slots[i].len == slot.len
                && self.slots[i].state == SlotState::Reserved {
                return Some(i);
            }
            i = i + 1;
        }
        None
    }

    fn set_state(&mut self, i: usize, slot: &Slot, state: SlotState)
        requires
            old(self)@.tiled(),
            i < old(self)@.entries.len(),
            old(self)@.entries[i as int].reserved_as(slot.offset(), slot.len()),
        ensures
            final(self)@ == old(self)@.mark(slot.offset(), slot.len(), state),
    {
        self.slots[i] = Meta { offset: slot.offset, len: slot.len, state };
        assert(self@.entries =~= old(self)@.mark(slot.offset(), slot.len(), state).entries);
    }

    fn pop_front(&mut self)
        requires
            old(self)@.tiled(),
            old(self)@.entries.len() > 0,
        ensures
            final(self)@ == old(self)@.drop_front(),
            final(self)@.tiled(),
    {
        proof {
            old(self)@.lemma_drop_front_tiled();
            lemma_cell(old(self)@, 0, old(self)@.entries[0].bytes.len() as int);
        }
        let capacity = self.arena.len();
        let first = self.slots.remove(0);
        let room = capacity - self.head;
        self.head = if first.len < room {
            self.head + first.len
        } else {
            first.len - room
        };
        self.used = self.used - first.len;
        assert(self@.entries =~= old(self)@.drop_front().entries);
    }

    fn pop_back(&mut self)
        requires
            old(self)@.tiled(),
            old(self)@.entries.len() > 0,
        ensures
            final(self)@ == old(self)@.drop_back(),
            final(self)@.tiled(),
    {
        proof {
            old(self)@.lemma_drop_back_tiled();
            lemma_cell(old(self)@, old(self)@.entries.len() - 1, 0);
        }
        let n = self.slots.len();
        let last = self.slots.remove(n - 1);
        self.used = self.used - last.len;
        assert(self@.entries =~= old(self)@.drop_back().entries);
    }

    fn trim_front(&mut self)
        requires
            old(self)@.tiled(),
        ensures
            final(self)@ == old(self)@.trim_front(),
            final(self)@.tiled(),
    {
        while self.front_is(SlotState::Discarded)
            invariant
                self@.tiled(),
                self@.trim_front() == old(self)@.trim_front(),
            decreases self@.entries.len(),
        {
            self.pop_front();
        }
    }

    fn trim_back(&mut self)
        requires
            old(self)@.tiled(),
        ensures
            final(self)@ == old(self)@.trim_back(),
            final(self)@.tiled(),
    {
        while self.back_is(SlotState::Discarded)
            invariant
                self@.tiled(),
                self@.trim_back() == old(self)@.trim_back(),
            decreases self@.entries.len(),
        {
            self.pop_back();
        }
    }

    fn raise(&mut self)
        ensures
            final(self)@ == old(self)@.signal(),
    {
        if self.front_is(SlotState::Submitted) {
            self.ready = true;
        }
    }

    /// Claims `size` bytes at the write cursor for one producer, filled with
    /// zeros. Fails at once where `size` is zero or more than the channel
    /// has free.
    pub fn reserve(&mut self, size: usize) -> (out: Option<Slot>)
        requires
            old(self).wf(),
        ensures
            final(self).wf(),
            out is Some <==> old(self)@.can_reserve(size as nat),
            match out {
                Some(slot) => slot.offset() == old(self)@.next_offset() && slot.len() == size
                    && final(self)@ == old(self)@.reserve(size as nat),
                None => final(self)@ == old(self)@,
            },
    {
        let capacity = self.arena.len();
        if size == 0 || size > capacity - self.used {
            return None;
        }
        let room = capacity - self.head;
        let offset = if self.used < room {
            self.head + self.used
        } else {
            self.used - room
        };
        proof {
            old(self)@.lemma_reserve_wf(size as nat);
        }
        let mut at = offset;
        let mut k: usize = 0;
        while k < size
            invariant
                k <= size <= capacity,
                offset < capacity,
                capacity == self.arena@.len(),
                capacity == old(self).arena@.len(),
                at == wrap((offset + k) as nat, capacity as nat),
                self.head == old(self).head,
                self.used == old(self).used,
                self.slots == old(self).slots,
                self.ready == old(self).ready,
                forall|a: int|
                    0 <= a < capacity ==> #[trigger] self.arena@[a] == if ahead(
                        a,
                        offset as int,
                        capacity as int,
                    ) < k {
                        0u8
                    } else {
                        old(self).arena@[a]
                    },
            decreases size - k,
        {
            self.arena[at] = 0;
            at = at + 1;
            if at == capacity {
                at = 0;
            }
            k = k + 1;
        }
        self.slots.push(Meta { offset, len: size, state: SlotState::Reserved });
        self.used = self.used + size;
        proof {
            let before = old(self)@;
            let after = before.reserve(size as nat);
            let n = before.entries.len() as int;
            assert forall|i: int| 0 <= i < after.entries.len() implies self@.entries[i]
                == after.entries[i] by {
                if i < n {
                    assert(self@.entries[i].bytes =~= before.entries[i].bytes);
                } else {
                    assert(self@.entries[i].bytes =~= zeros(size as nat));
                }
            }
            assert(self@.entries =~= after.entries);
        }
        Some(Slot { offset, len: size })
    }

    /// Writes `data` into a reserved slot, from the slot's byte `at` on.
    /// Nothing is written where the slot is no live reservation of this
    /// channel or the data would run past its end.
    pub fn write(&mut self, slot: &Slot, at: usize, data: &[u8]) -> (done: bool)
        requires
            old(self).wf(),
        ensures
            final(self).wf(),
            done == (old(self)@.holds(slot.offset(), slot.len()) && at + data@.len()
                <= slot.len()),
            final(self)@ == old(self)@.write(slot.offset(), slot.len(), at as nat, data@),
    {
        proof {
            old(self)@.lemma_write_wf(slot.offset(), slot.len(), at as nat, data@);
        }
        let found = self.find(slot);
        let i = match found {
            Some(i) => i,
            None => {
                return false;
            },
        };
        if at > slot.len || data.len() > slot.len - at {
            return false;
        }
        let capacity = self.arena.len();
        let count = data.len();
        proof {
            lemma_cell(old(self)@, i as int, at as int);
        }
        let room = capacity - slot.offset;
        let first = if at < room {
            slot.offset + at
        } else {
            at - room
        };
        let mut p = if first == capacity {
            0
        } else {
            first
        };
        let mut k: usize = 0;
        while k < count
            invariant
                k <= count <= capacity,
                count == data@.len(),
                0 < capacity,
                first <= capacity,
                capacity == self.arena@.len(),
                capacity == old(self).arena@.len(),
                p == wrap((wrap(first as nat, capacity as nat) + k) as nat, capacity as nat),
                self.head == old(self).head,
                self.used == old(self).used,
                self.slots == old(self).slots,
                self.ready == old(self).ready,
                forall|a: int|
                    0 <= a < capacity ==> #[trigger] self.arena@[a] == if ahead(
                        a,
                        wrap(first as nat, capacity as nat) as int,
                        capacity as int,
                    ) < k {
                        data@[ahead(a, wrap(first as nat, capacity as nat) as int, capacity as int)]
                    } else {
                        old(self).arena@[a]
                    },
            decreases count - k,
        {
            self.arena[p] = data[k];
            p = p + 1;
            if p == capacity {
                p = 0;
            }
            k = k + 1;
        }
        proof {
            let before = old(self)@;
            let after = before.write(slot.offset(), slot.len(), at as nat, data@);
            assert forall|j: int| 0 <= j < after.entries.len() implies self@.entries[j]
                == after.entries[j] by {
                if j != i {
                    before.lemma_offsets_differ(j, i as int);
                }
                assert forall|m: int| 0 <= m < before.entries[j].bytes.len() implies span(
                    self.arena@,
                    before.entries[j].offset,
                    before.entries[j].bytes.len(),
                )[m] == after.entries[j].bytes[m] by {
                    lemma_stored(
                        before,
                        i as int,
                        at as int,
                        data@,
                        old(self).arena@,
                        self.arena@,
                        j,
                        m,
                    );
                }
                assert(self@.entries[j].bytes =~= after.entries[j].bytes);
            }
            assert(self@.entries =~= after.entries);
        }
        true
    }

    /// Publishes a reserved slot: the consumer will have it after every
    /// slot reserved before it. Returns whether the slot was a live
    /// reservation of this channel; nothing changes where it was not.
    pub fn submit(&mut self, slot: Slot) -> (done: bool)
        requires
            old(self).wf(),
        ensures
            final(self).wf(),
            done == old(self)@.holds(slot.offset(), slot.len()),
            final(self)@ == old(self)@.submit(slot.offset(), slot.len()),
    {
        proof {
            old(self)@.lemma_submit_wf(slot.offset(), slot.len());
        }
        match self.find(&slot) {
            Some(i) => {
                self.set_state(i, &slot, SlotState::Submitted);
                self.raise();
                true
            },
            None => false,
        }
    }

    /// Gives a reserved slot up: the consumer never sees it. Returns whether
    /// the slot was a live reservation of this channel; nothing changes
    /// where it was not.
    pub fn discard(&mut self, slot: Slot) -> (done: bool)
        requires
            old(self).wf(),
        ensures
            final(self).wf(),
            done == old(self)@.holds(slot.offset(), slot.len()),
            final(self)@ == old(self)@.discard(slot.offset(), slot.len()),
    {
        proof {
            old(self)@.lemma_discard_wf(slot.offset(), slot.len());
            old(self)@.lemma_mark_tiled(slot.offset(), slot.len(), SlotState::Discarded);
        }
        match self.find(&slot) {
            Some(i) => {
                self.set_state(i, &slot, SlotState::Discarded);
                self.trim_back();
                self.trim_front();
                self.raise();
                true
            },
            None => false,
        }
    }

    /// Drains one span: the oldest slot's bytes, if that slot is published.
    /// A slot still being written holds back every slot behind it.
    pub fn next(&mut self) -> (out: Option<Vec<u8>>)
        requires
            old(self).wf(),
        ensures
            final(self).wf(),
            final(self)@ == old(self)@.drain(),
            match out {
                Some(bytes) => old(self)@.front() == Some(bytes@),
                None => old(self)@.front() is None,
            },
    {
        proof {
            old(self)@.lemma_drain_wf();
        }
        if !self.front_is(SlotState::Submitted) {
            return None;
        }
        let capacity = self.arena.len();
        let len = self.slots[0].len;
        proof {
            lemma_cell(self@, 0, 0);
        }
        let mut bytes: Vec<u8> = Vec::new();
        let mut p = self.head;
        let mut k: usize = 0;
        while k < len
            invariant
                k <= len <= capacity,
                0 < capacity,
                self.head < capacity,
                capacity == self.arena@.len(),
                p == wrap((self.head + k) as nat, capacity as nat),
                bytes@.len() == k,
                forall|m: int|
                    0 <= m < k ==> #[trigger] bytes@[m] == span(
                        self.arena@,
                        self.head as nat,
                        len as nat,
                    )[m],
            decreases len - k,
        {
            bytes.push(self.arena[p]);
            p = p + 1;
            if p == capacity {
                p = 0;
            }
            k = k + 1;
        }
        self.pop_front();
        self.trim_front();
        Some(bytes)
    }
}

} // verus!
