//! The channel as a mathematical value: a circular arena of `capacity` bytes,
//! a read cursor, and the slots handed out between the read cursor and the
//! write cursor, oldest first.
//!
//! Every operation of the executable channel is a function on this value.

use vstd::prelude::*;

verus! {

/// What has become of a reserved slot.
#[derive(Clone, Copy, PartialEq, Eq, Structural)]
pub enum SlotState {
    /// Claimed by a producer and still being written.
    Reserved,
    /// Published: the consumer may read it.
    Submitted,
    /// Given up: the consumer never sees it.
    Discarded,
}

/// One slot of the arena.
pub struct Entry {
    /// Index in the arena of the slot's first byte.
    pub offset: nat,
    pub state: SlotState,
    /// What the slot holds; its length is the slot's size.
    pub bytes: Seq<u8>,
}

/// The value of a channel.
pub struct Ring {
    /// Bytes of the arena.
    pub capacity: nat,
    /// The read cursor: index in the arena of the oldest slot.
    pub head: nat,
    /// Bytes between the read cursor and the write cursor.
    pub used: nat,
    /// The slots between the two cursors, oldest first.
    pub entries: Seq<Entry>,
    /// The readiness signal that the consumer waits on.
    pub ready: bool,
}

/// An index that ran at most once past the end of the arena, brought back
/// into it.
pub open spec fn wrap(x: nat, capacity: nat) -> nat {
    if x >= capacity {
        (x - capacity) as nat
    } else {
        x
    }
}

/// `n` zero bytes.
pub open spec fn zeros(n: nat) -> Seq<u8> {
    Seq::new(n, |i: int| 0u8)
}

/// `bytes` with `data` written over it from index `at` on.
pub open spec fn overwrite(bytes: Seq<u8>, at: int, data: Seq<u8>) -> Seq<u8> {
    Seq::new(
        bytes.len(),
        |k: int|
            if at <= k < at + data.len() {
                data[k - at]
            } else {
                bytes[k]
            },
    )
}

impl Entry {
    /// The entry is the live reservation that a handle with this offset and
    /// size stands for.
    pub open spec fn reserved_as(self, offset: nat, len: nat) -> bool {
        self.offset == offset && self.bytes.len() == len && self.state == SlotState::Reserved
    }

    /// The same slot in another state.
    pub open spec fn with_state(self, state: SlotState) -> Entry {
        Entry { state, ..self }
    }
}

impl Ring {
    /// A channel of `capacity` bytes with nothing in it.
    pub open spec fn empty(capacity: nat) -> Ring {
        Ring { capacity, head: 0, used: 0, entries: Seq::empty(), ready: false }
    }

    /// Bytes that can still be reserved.
    pub open spec fn free(self) -> nat {
        (self.capacity - self.used) as nat
    }

    /// Distance of an arena index from the start of the arena, counted so
    /// that the read cursor comes first: indices before the read cursor lie
    /// one lap ahead.
    pub open spec fn pos(self, offset: nat) -> int {
        if offset >= self.head {
            offset as int
        } else {
            (offset + self.capacity) as int
        }
    }

    /// Where slot `i` starts, counted from the start of the arena.
    pub open spec fn start(self, i: int) -> int {
        self.pos(self.entries[i].offset)
    }

    /// Where slot `i` ends, counted from the start of the arena.
    pub open spec fn end(self, i: int) -> int {
        self.pos(self.entries[i].offset) + self.entries[i].bytes.len()
    }

    /// The slots tile the stretch from the read cursor to the write cursor:
    /// none is empty, each starts where the one before it ends, the first at
    /// the read cursor, and the last ends at the write cursor.
    pub open spec fn tiled(self) -> bool {
        &&& self.used <= self.capacity
        &&& if self.capacity == 0 {
            self.head == 0
        } else {
            self.head < self.capacity
        }
        &&& self.entries.len() == 0 ==> self.used == 0
        &&& self.entries.len() > 0 ==> self.entries[0].offset == self.head && self.end(
            self.entries.len() - 1,
        ) == self.head + self.used
        &&& forall|i: int|
            0 <= i < self.entries.len() ==> (#[trigger] self.entries[i]).bytes.len() > 0
                && self.entries[i].offset < self.capacity && self.head <= self.start(i)
                && self.end(i) <= self.head + self.used
        &&& forall|i: int|
            0 <= i && i + 1 < self.entries.len() ==> self.pos(
                (#[trigger] self.entries[i + 1]).offset,
            ) == self.end(i)
        &&& forall|i: int, j: int|
            0 <= i < j < self.entries.len() ==> self.pos((#[trigger] self.entries[i]).offset)
                + self.entries[i].bytes.len() <= self.pos((#[trigger] self.entries[j]).offset)
    }

    /// No discarded slot sits at either end: its bytes have been taken back.
    pub open spec fn trimmed(self) -> bool {
        self.entries.len() > 0 ==> self.entries[0].state != SlotState::Discarded
            && self.entries[self.entries.len() - 1].state != SlotState::Discarded
    }

    /// The oldest slot is published: a drain would return it.
    pub open spec fn readable(self) -> bool {
        self.entries.len() > 0 && self.entries[0].state == SlotState::Submitted
    }

    /// The invariant of a channel.
    pub open spec fn wf(self) -> bool {
        &&& self.tiled()
        &&& self.trimmed()
        &&& self.readable() ==> self.ready
    }

    /// Some live reservation answers to this offset and size.
    pub open spec fn holds(self, offset: nat, len: nat) -> bool {
        exists|i: int|
            0 <= i < self.entries.len() && (#[trigger] self.entries[i]).reserved_as(offset, len)
    }

    /// A reservation of `size` bytes succeeds: there is something to claim
    /// and room for it.
    pub open spec fn can_reserve(self, size: nat) -> bool {
        0 < size <= self.free()
    }

    /// The write cursor: where the next slot starts.
    pub open spec fn next_offset(self) -> nat {
        wrap(self.head + self.used, self.capacity)
    }

    /// The channel after a successful reservation: a new slot of `size` zero
    /// bytes at the write cursor.
    pub open spec fn reserve(self, size: nat) -> Ring {
        Ring {
            used: self.used + size,
            entries: self.entries.push(
                Entry {
                    offset: self.next_offset(),
                    state: SlotState::Reserved,
                    bytes: zeros(size),
                },
            ),
            ..self
        }
    }

    /// Raises the readiness signal if there is something to read.
    pub open spec fn signal(self) -> Ring {
        Ring { ready: self.ready || self.readable(), ..self }
    }

    /// The live reservation named by `offset` and `len`, if there is one, put
    /// into `state`; every other slot as it was.
    pub open spec fn mark(self, offset: nat, len: nat, state: SlotState) -> Ring {
        Ring {
            entries: self.entries.map_values(
                |e: Entry|
                    if e.reserved_as(offset, len) {
                        e.with_state(state)
                    } else {
                        e
                    },
            ),
            ..self
        }
    }

    /// `data` written into the named reservation from its byte `at` on. A
    /// write that would not fit in the slot, or names no live reservation,
    /// changes nothing.
    pub open spec fn write(self, offset: nat, len: nat, at: nat, data: Seq<u8>) -> Ring {
        Ring {
            entries: self.entries.map_values(
                |e: Entry|
                    if e.reserved_as(offset, len) && at + data.len() <= len {
                        Entry { bytes: overwrite(e.bytes, at as int, data), ..e }
                    } else {
                        e
                    },
            ),
            ..self
        }
    }

    /// The channel without its oldest slot: the read cursor moves past it.
    pub open spec fn drop_front(self) -> Ring {
        Ring {
            head: wrap(self.head + self.entries[0].bytes.len(), self.capacity),
            used: (self.used - self.entries[0].bytes.len()) as nat,
            entries: self.entries.drop_first(),
            ..self
        }
    }

    /// The channel without its newest slot: the write cursor moves back
    /// before it.
    pub open spec fn drop_back(self) -> Ring {
        Ring {
            used: (self.used - self.entries.last().bytes.len()) as nat,
            entries: self.entries.drop_last(),
            ..self
        }
    }

    /// Takes back the discarded slots at the read cursor.
    pub open spec fn trim_front(self) -> Ring
        decreases self.entries.len(),
    {
        if self.entries.len() > 0 && self.entries[0].state == SlotState::Discarded {
            self.drop_front().trim_front()
        } else {
            self
        }
    }

    /// Takes back the discarded slots at the write cursor.
    pub open spec fn trim_back(self) -> Ring
        decreases self.entries.len(),
    {
        if self.entries.len() > 0 && self.entries.last().state == SlotState::Discarded {
            self.drop_back().trim_back()
        } else {
            self
        }
    }

    /// The channel after the named reservation was published.
    pub open spec fn submit(self, offset: nat, len: nat) -> Ring {
        self.mark(offset, len, SlotState::Submitted).signal()
    }

    /// The channel after the named reservation was given up. Its bytes are
    /// free again at once where it was the newest slot or the oldest, and
    /// otherwise as soon as the slots on one side of it are gone.
    pub open spec fn discard(self, offset: nat, len: nat) -> Ring {
        self.mark(offset, len, SlotState::Discarded).trim_back().trim_front().signal()
    }

    /// What a drain returns: the oldest slot's bytes, if it is published.
    pub open spec fn front(self) -> Option<Seq<u8>> {
        if self.readable() {
            Some(self.entries[0].bytes)
        } else {
            None
        }
    }

    /// The channel after a drain.
    pub open spec fn drain(self) -> Ring {
        if self.readable() {
            self.drop_front().trim_front()
        } else {
            self
        }
    }

    /// The channel after the consumer acknowledged the readiness signal: it
    /// stays raised only while there is something to read.
    pub open spec fn clear_ready(self) -> Ring {
        Ring { ready: self.readable(), ..self }
    }

    /// The spans that successive drains return, in order, until a drain
    /// returns nothing.
    pub open spec fn visible(self) -> Seq<Seq<u8>> {
        visible_of(self.entries)
    }

    /// The channel after it was drained until a drain returned nothing.
    pub open spec fn drained(self) -> Ring
        decreases self.entries.len(),
    {
        if self.readable() {
            proof {
                self.drop_front().lemma_trim_front_shrinks();
            }
            self.drain().drained()
        } else {
            self
        }
    }

    /// Some slot is still being written.
    pub open spec fn pending(self) -> bool {
        exists|i: int|
            0 <= i < self.entries.len() && (#[trigger] self.entries[i]).state
                == SlotState::Reserved
    }

    /// The channel after one producer reserved a slot of the size of
    /// `bytes`, wrote `bytes` into it and published it.
    pub open spec fn publish(self, bytes: Seq<u8>) -> Ring {
        self.reserve(bytes.len()).write(self.next_offset(), bytes.len(), 0, bytes).submit(
            self.next_offset(),
            bytes.len(),
        )
    }
}

/// Bytes of all the slots among `entries` together.
pub open spec fn held(entries: Seq<Entry>) -> nat
    decreases entries.len(),
{
    if entries.len() == 0 {
        0
    } else {
        entries[0].bytes.len() + held(entries.drop_first())
    }
}

/// The published slots among `entries` that come before the first slot
/// still being written, in order.
pub open spec fn visible_of(entries: Seq<Entry>) -> Seq<Seq<u8>>
    decreases entries.len(),
{
    if entries.len() == 0 {
        Seq::empty()
    } else {
        match entries[0].state {
            SlotState::Reserved => Seq::empty(),
            SlotState::Submitted => seq![entries[0].bytes] + visible_of(entries.drop_first()),
            SlotState::Discarded => visible_of(entries.drop_first()),
        }
    }
}

impl Ring {
    /// Trimming at the read cursor never adds a slot.
    pub proof fn lemma_trim_front_shrinks(self)
        ensures
            self.trim_front().entries.len() <= self.entries.len(),
        decreases self.entries.len(),
    {
        if self.entries.len() > 0 && self.entries[0].state == SlotState::Discarded {
            self.drop_front().lemma_trim_front_shrinks();
        }
    }

    /// No two slots start at the same arena index.
    pub proof fn lemma_offsets_differ(self, i: int, j: int)
        requires
            self.tiled(),
            0 <= i < self.entries.len(),
            0 <= j < self.entries.len(),
            i != j,
        ensures
            self.entries[i].offset != self.entries[j].offset,
    {
    }

    /// A handle answers to at most one slot.
    pub proof fn lemma_reserved_as_unique(self, offset: nat, len: nat, i: int, j: int)
        requires
            self.tiled(),
            0 <= i < self.entries.len(),
            0 <= j < self.entries.len(),
            self.entries[i].reserved_as(offset, len),
            self.entries[j].reserved_as(offset, len),
        ensures
            i == j,
    {
        if i != j {
            self.lemma_offsets_differ(i, j);
        }
    }

    /// A reservation that fits keeps the slots tiled, and the channel valid.
    pub proof fn lemma_reserve_wf(self, size: nat)
        requires
            self.tiled(),
            self.can_reserve(size),
        ensures
            self.reserve(size).tiled(),
            self.next_offset() < self.capacity,
            self.wf() ==> self.reserve(size).wf(),
            forall|i: int|
                0 <= i < self.entries.len() ==> (#[trigger] self.entries[i]).offset
                    != self.next_offset(),
    {
        assert(self.reserve(size).entries.last().offset == self.next_offset());
    }

    /// Changing the state of a reservation moves no slot.
    pub proof fn lemma_mark_tiled(self, offset: nat, len: nat, state: SlotState)
        requires
            self.tiled(),
        ensures
            self.mark(offset, len, state).tiled(),
            self.mark(offset, len, state).entries.len() == self.entries.len(),
            !self.holds(offset, len) ==> self.mark(offset, len, state) == self,
    {
        if !self.holds(offset, len) {
            assert(self.mark(offset, len, state).entries =~= self.entries);
        }
    }

    /// A write moves no slot and changes no state.
    pub proof fn lemma_write_wf(self, offset: nat, len: nat, at: nat, data: Seq<u8>)
        requires
            self.tiled(),
        ensures
            self.write(offset, len, at, data).tiled(),
            self.wf() ==> self.write(offset, len, at, data).wf(),
            !self.holds(offset, len) || at + data.len() > len ==> self.write(
                offset,
                len,
                at,
                data,
            ) == self,
    {
        if !self.holds(offset, len) || at + data.len() > len {
            assert(self.write(offset, len, at, data).entries =~= self.entries);
        }
    }

    /// Moving the read cursor past the oldest slot keeps the rest tiled.
    pub proof fn lemma_drop_front_tiled(self)
        requires
            self.tiled(),
            self.entries.len() > 0,
        ensures
            self.drop_front().tiled(),
            self.drop_front().entries.len() == self.entries.len() - 1,
    {
    }

    /// Moving the write cursor back before the newest slot keeps the rest
    /// tiled.
    pub proof fn lemma_drop_back_tiled(self)
        requires
            self.tiled(),
            self.entries.len() > 0,
        ensures
            self.drop_back().tiled(),
            self.drop_back().entries.len() == self.entries.len() - 1,
    {
        let n = self.entries.len() - 1;
        if n > 0 {
            assert(self.pos(self.entries[(n - 1) + 1].offset) == self.end(n - 1));
        }
    }

    /// Trimming at the read cursor keeps the slots tiled and leaves no
    /// discarded slot there; the newest slot, if one is left, is the one
    /// that was the newest before.
    pub proof fn lemma_trim_front(self)
        requires
            self.tiled(),
        ensures
            self.trim_front().tiled(),
            self.trim_front().ready == self.ready,
            self.trim_front().entries.len() <= self.entries.len(),
            self.trim_front().entries.len() > 0 ==> self.trim_front().entries[0].state
                != SlotState::Discarded && self.trim_front().entries.last()
                == self.entries.last(),
            visible_of(self.trim_front().entries) == visible_of(self.entries),
        decreases self.entries.len(),
    {
        if self.entries.len() > 0 && self.entries[0].state == SlotState::Discarded {
            self.lemma_drop_front_tiled();
            self.drop_front().lemma_trim_front();
        }
    }

    /// Trimming at the write cursor keeps the slots tiled and leaves no
    /// discarded slot there; the oldest slot, if one is left, is the one
    /// that was the oldest before.
    pub proof fn lemma_trim_back(self)
        requires
            self.tiled(),
        ensures
            self.trim_back().tiled(),
            self.trim_back().ready == self.ready,
            self.trim_back().head == self.head,
            self.trim_back().entries.len() <= self.entries.len(),
            self.trim_back().entries.len() > 0 ==> self.trim_back().entries.last().state
                != SlotState::Discarded && self.trim_back().entries[0] == self.entries[0],
        decreases self.entries.len(),
    {
        if self.entries.len() > 0 && self.entries.last().state == SlotState::Discarded {
            self.lemma_drop_back_tiled();
            self.drop_back().lemma_trim_back();
        }
    }

    /// Publishing keeps the channel valid.
    pub proof fn lemma_submit_wf(self, offset: nat, len: nat)
        requires
            self.wf(),
        ensures
            self.submit(offset, len).wf(),
            !self.holds(offset, len) ==> self.submit(offset, len) == self,
    {
        self.lemma_mark_tiled(offset, len, SlotState::Submitted);
    }

    /// Giving a reservation up keeps the channel valid.
    pub proof fn lemma_discard_wf(self, offset: nat, len: nat)
        requires
            self.wf(),
        ensures
            self.discard(offset, len).wf(),
            !self.holds(offset, len) ==> self.discard(offset, len) == self,
    {
        let m = self.mark(offset, len, SlotState::Discarded);
        self.lemma_mark_tiled(offset, len, SlotState::Discarded);
        m.lemma_trim_back();
        m.trim_back().lemma_trim_front();
    }

    /// A drain keeps the channel valid.
    pub proof fn lemma_drain_wf(self)
        requires
            self.wf(),
        ensures
            self.drain().wf(),
            self.drain().entries.len() <= self.entries.len(),
            self.readable() ==> self.drain().entries.len() < self.entries.len(),
    {
        if self.readable() {
            self.lemma_drop_front_tiled();
            let d = self.drop_front();
            d.lemma_trim_front();
        }
    }

    /// Draining to the end keeps the channel valid and leaves nothing to
    /// read.
    pub proof fn lemma_drained_wf(self)
        requires
            self.wf(),
        ensures
            self.drained().wf(),
            !self.drained().readable(),
        decreases self.entries.len(),
    {
        if self.readable() {
            self.lemma_drain_wf();
            self.drain().lemma_drained_wf();
        }
    }
}

/// What a new slot adds to the spans a consumer can reach: its bytes if it
/// is published and no earlier slot is still being written, and nothing
/// otherwise.
pub proof fn lemma_visible_push(entries: Seq<Entry>, e: Entry)
    ensures
        visible_of(entries.push(e)) == if (exists|i: int|
            0 <= i < entries.len() && (#[trigger] entries[i]).state == SlotState::Reserved)
            || e.state != SlotState::Submitted {
            visible_of(entries)
        } else {
            visible_of(entries).push(e.bytes)
        },
    decreases entries.len(),
{
    if entries.len() == 0 {
        assert(entries.push(e).drop_first() =~= Seq::<Entry>::empty());
        assert(visible_of(Seq::<Entry>::empty()) =~= Seq::<Seq<u8>>::empty());
    } else {
        let rest = entries.drop_first();
        assert(entries.push(e).drop_first() =~= rest.push(e));
        lemma_visible_push(rest, e);
        let pending_rest = exists|i: int|
            0 <= i < rest.len() && (#[trigger] rest[i]).state == SlotState::Reserved;
        let pending_all = exists|i: int|
            0 <= i < entries.len() && (#[trigger] entries[i]).state == SlotState::Reserved;
        if pending_rest {
            let i = choose|i: int|
                0 <= i < rest.len() && (#[trigger] rest[i]).state == SlotState::Reserved;
        }
        if pending_all && entries[0].state != SlotState::Reserved {
            let i = choose|i: int|
                0 <= i < entries.len() && (#[trigger] entries[i]).state == SlotState::Reserved;
            assert(rest[i - 1] == entries[i]);
        }
    }
}

impl Ring {
    /// A slot that is reserved and at once discarded leaves the channel
    /// exactly as it was, whatever was written into the slot in between: the
    /// free capacity, the cursors, the other slots and the readiness signal
    /// are those from before the reservation.
    pub proof fn lemma_reserve_discard(self, size: nat, at: nat, data: Seq<u8>)
        requires
            self.wf(),
            self.can_reserve(size),
        ensures
            self.reserve(size).discard(self.next_offset(), size) == self,
            self.reserve(size).write(self.next_offset(), size, at, data).discard(
                self.next_offset(),
                size,
            ) == self,
            self.reserve(size).free() == self.free() - size,
            self.reserve(size).discard(self.next_offset(), size).free() == self.free(),
    {
        let offset = self.next_offset();
        let held = self.reserve(size);
        self.lemma_reserve_wf(size);
        assert(held.entries.drop_last() =~= self.entries);
        self.lemma_gave_up(held, size);
        let written = held.write(offset, size, at, data);
        held.lemma_write_wf(offset, size, at, data);
        assert(written.entries.drop_last() =~= self.entries);
        self.lemma_gave_up(written, size);
    }

    /// `held` is this channel with one more slot, the newest, reserved at
    /// the write cursor: discarding that slot gives this channel back.
    proof fn lemma_gave_up(self, held: Ring, size: nat)
        requires
            self.wf(),
            self.can_reserve(size),
            held.tiled(),
            held.capacity == self.capacity,
            held.head == self.head,
            held.ready == self.ready,
            held.used == self.used + size,
            held.entries.len() == self.entries.len() + 1,
            held.entries.drop_last() == self.entries,
            held.entries.last().reserved_as(self.next_offset(), size),
        ensures
            held.discard(self.next_offset(), size) == self,
    {
        let offset = self.next_offset();
        let m = held.mark(offset, size, SlotState::Discarded);
        held.lemma_mark_tiled(offset, size, SlotState::Discarded);
        assert(m.entries.drop_last() =~= self.entries);
        assert(self.trim_back() == self);
    }

    /// What publishing comes to: one more slot, the newest, published and
    /// holding exactly `bytes`; the signal raised where that slot is the
    /// oldest as well. Every slot that was there is as it was.
    pub proof fn lemma_publish(self, bytes: Seq<u8>)
        requires
            self.wf(),
            self.can_reserve(bytes.len()),
        ensures
            self.publish(bytes).wf(),
            self.publish(bytes) == (Ring {
                used: self.used + bytes.len(),
                entries: self.entries.push(
                    Entry { offset: self.next_offset(), state: SlotState::Submitted, bytes },
                ),
                ready: self.ready || self.entries.len() == 0,
                ..self
            }),
            self.publish(bytes).free() == self.free() - bytes.len(),
            self.publish(bytes).visible() == if self.pending() {
                self.visible()
            } else {
                self.visible().push(bytes)
            },
    {
        let offset = self.next_offset();
        let size = bytes.len();
        let n = self.entries.len() as int;
        let r1 = self.reserve(size);
        self.lemma_reserve_wf(size);
        let r2 = r1.write(offset, size, 0, bytes);
        r1.lemma_write_wf(offset, size, 0, bytes);
        let r3 = r2.submit(offset, size);
        r2.lemma_submit_wf(offset, size);
        let e = Entry { offset, state: SlotState::Submitted, bytes };
        assert forall|i: int| 0 <= i < n + 1 implies r3.entries[i] == self.entries.push(e)[i] by {
            if i < n {
                r1.lemma_offsets_differ(i, n);
            } else {
                assert(r2.entries[n].bytes =~= bytes);
            }
        }
        assert(r3.entries =~= self.entries.push(e));
        lemma_visible_push(self.entries, e);
    }

    /// Each drain hands over the first of the spans that the consumer can
    /// reach and leaves the others to later drains; with none to reach it
    /// returns nothing and changes nothing. So a published slot is returned
    /// by one drain and by no other.
    pub proof fn lemma_drain_visible(self)
        requires
            self.wf(),
        ensures
            match self.front() {
                Some(bytes) => self.visible() == seq![bytes] + self.drain().visible(),
                None => self.visible() == Seq::<Seq<u8>>::empty() && self.drain() == self,
            },
    {
        if self.readable() {
            self.lemma_drop_front_tiled();
            self.drop_front().lemma_trim_front();
        }
    }

    /// A slot reserved in an empty channel and then submitted comes out of
    /// the first drain after it, with exactly the bytes it held when it was
    /// submitted, and out of no drain after that one; the channel is then
    /// empty again.
    pub proof fn lemma_delivered_once(self, size: nat, at: nat, data: Seq<u8>)
        requires
            self.wf(),
            self.entries.len() == 0,
            self.can_reserve(size),
        ensures
            ({
                let offset = self.next_offset();
                let filled = self.reserve(size).write(offset, size, at, data);
                let sent = filled.submit(offset, size);
                &&& filled.entries.len() == 1
                &&& filled.entries[0].bytes == if at + data.len() <= size {
                    overwrite(zeros(size), at as int, data)
                } else {
                    zeros(size)
                }
                &&& sent.front() == Some(filled.entries[0].bytes)
                &&& sent.drain().front() is None
                &&& sent.drain().entries.len() == 0
                &&& sent.drain().free() == self.free()
            }),
    {
        let offset = self.next_offset();
        let held = self.reserve(size);
        self.lemma_reserve_wf(size);
        let filled = held.write(offset, size, at, data);
        held.lemma_write_wf(offset, size, at, data);
        let sent = filled.submit(offset, size);
        filled.lemma_submit_wf(offset, size);
        sent.lemma_drop_front_tiled();
    }

    /// Draining to the end returns every span that the consumer can reach
    /// and leaves none.
    pub proof fn lemma_drained_visible(self)
        requires
            self.wf(),
        ensures
            self.drained().visible() == Seq::<Seq<u8>>::empty(),
            self.drained().wf(),
        decreases self.entries.len(),
    {
        self.lemma_drain_visible();
        if self.readable() {
            self.lemma_drain_wf();
            self.drain().lemma_drained_visible();
        }
    }
}

impl Ring {
    /// The bytes in use are those of the slots, and never more than the
    /// arena has.
    pub proof fn lemma_held_is_used(self)
        requires
            self.tiled(),
        ensures
            held(self.entries) == self.used,
            self.used <= self.capacity,
        decreases self.entries.len(),
    {
        if self.entries.len() > 0 {
            self.lemma_drop_front_tiled();
            self.drop_front().lemma_held_is_used();
        }
    }
}

/// Slots that differ only in what the slots still being written hold give
/// the consumer the same spans.
proof fn lemma_visible_same(a: Seq<Entry>, b: Seq<Entry>)
    requires
        a.len() == b.len(),
        forall|i: int|
            0 <= i < a.len() ==> (#[trigger] a[i]).state == b[i].state && (a[i].state
                != SlotState::Reserved ==> a[i] == b[i]),
    ensures
        visible_of(a) == visible_of(b),
    decreases a.len(),
{
    if a.len() > 0 {
        assert(a[0].state == b[0].state);
        let (x, y) = (a.drop_first(), b.drop_first());
        assert forall|i: int| 0 <= i < x.len() implies (#[trigger] x[i]).state == y[i].state
            && (x[i].state != SlotState::Reserved ==> x[i] == y[i]) by {
            assert(a[i + 1].state == b[i + 1].state);
        }
        lemma_visible_same(x, y);
    }
}

impl Ring {
    /// A write reaches nothing but the slot it names, and that only while
    /// the slot is being written: every published slot and all that the
    /// consumer will read are as they were. No record is ever seen half
    /// written, and none is changed once it is published.
    pub proof fn lemma_write_keeps_visible(self, offset: nat, len: nat, at: nat, data: Seq<u8>)
        ensures
            self.write(offset, len, at, data).visible() == self.visible(),
            forall|i: int|
                0 <= i < self.entries.len() && !(#[trigger] self.entries[i]).reserved_as(
                    offset,
                    len,
                ) ==> self.write(offset, len, at, data).entries[i] == self.entries[i],
    {
        lemma_visible_same(self.write(offset, len, at, data).entries, self.entries);
    }
}

} // verus!
