//! The poller: the consumer's end of the channel.
//!
//! Each time the channel signals readiness the poller drains it until
//! nothing is left to read, decodes every span into a record, and
//! acknowledges the signal. A span that is not exactly one record long is
//! skipped whole.

use crate::channel::Channel;
use crate::probe::SysEnter;
use crate::record::{lemma_parse_wire, parse, Data, Record, RECORD_SIZE};
use crate::ring::{held, visible_of, Entry, Ring, SlotState};
use vstd::prelude::*;

verus! {

/// What one wake-up of the poller yields.
pub enum Message {
    /// There is no channel to poll.
    Tick,
    /// The records drained in this wake-up, oldest first.
    Events(Vec<Data>),
}

/// The values of a list of records.
pub open spec fn records(list: Seq<Data>) -> Seq<Record> {
    list.map_values(|d: Data| d@)
}

/// The records held by the spans that are exactly one record long, in the
/// order of the spans.
pub open spec fn decoded(spans: Seq<Seq<u8>>) -> Seq<Record>
    decreases spans.len(),
{
    if spans.len() == 0 {
        Seq::empty()
    } else {
        match parse(spans.last()) {
            Some(r) => decoded(spans.drop_last()).push(r),
            None => decoded(spans.drop_last()),
        }
    }
}

/// Decoding goes span by span: the records of a list of spans are those of
/// its first part followed by those of the rest.
pub proof fn lemma_decoded_concat(a: Seq<Seq<u8>>, b: Seq<Seq<u8>>)
    ensures
        decoded(a + b) == decoded(a) + decoded(b),
    decreases b.len(),
{
    if b.len() > 0 {
        assert((a + b).drop_last() =~= a + b.drop_last());
        lemma_decoded_concat(a, b.drop_last());
        match parse(b.last()) {
            Some(r) => {
                assert((decoded(a) + decoded(b.drop_last())).push(r) =~= decoded(a) + decoded(
                    b.drop_last(),
                ).push(r));
            },
            None => {},
        }
    }
}

/// Decodes the spans handed over by a drained channel, skipping every span
/// that is not exactly one record long.
pub fn collect(spans: &Vec<Vec<u8>>) -> (events: Vec<Data>)
    ensures
        records(events@) == decoded(spans@.map_values(|v: Vec<u8>| v@)),
{
    let ghost all = spans@.map_values(|v: Vec<u8>| v@);
    let mut events: Vec<Data> = Vec::new();
    let mut i: usize = 0;
    while i < spans.len()
        invariant
            i <= spans@.len(),
            all == spans@.map_values(|v: Vec<u8>| v@),
            records(events@) == decoded(all.subrange(0, i as int)),
        decreases spans@.len() - i,
    {
        assert(all.subrange(0, i + 1).drop_last() =~= all.subrange(0, i as int));
        match Data::decode(spans[i].as_slice()) {
            Some(data) => {
                events.push(data);
            },
            None => {},
        }
        i = i + 1;
    }
    assert(all.subrange(0, i as int) =~= all);
    events
}

/// One wake-up on a channel: drains it until a drain returns nothing,
/// decodes what came out, and acknowledges the readiness signal.
pub fn wake(events: &mut Channel) -> (batch: Vec<Data>)
    requires
        old(events).wf(),
    ensures
        final(events).wf(),
        records(batch@) == decoded(old(events)@.visible()),
        final(events)@ == old(events)@.drained().clear_ready(),
        !final(events)@.ready,
{
    let mut batch: Vec<Data> = Vec::new();
    let ghost mut taken: Seq<Seq<u8>> = Seq::empty();
    loop
        invariant_except_break
            events.wf(),
            taken + events@.visible() == old(events)@.visible(),
            events@.drained() == old(events)@.drained(),
            records(batch@) == decoded(taken),
        ensures
            events.wf(),
            !events@.readable(),
            events@ == old(events)@.drained(),
            records(batch@) == decoded(old(events)@.visible()),
        decreases events@.entries.len(),
    {
        proof {
            events@.lemma_drain_visible();
            events@.lemma_drain_wf();
        }
        match events.next() {
            Some(span) => {
                proof {
                    assert(taken.push(span@).drop_last() =~= taken);
                    taken = taken.push(span@);
                }
                match Data::decode(span.as_slice()) {
                    Some(data) => {
                        batch.push(data);
                    },
                    None => {},
                }
            },
            None => {
                break ;
            },
        }
    }
    events.clear_ready();
    batch
}

/// One step of the poller, from the channel it holds to the message for
/// its owner and the channel to hold on to. Without a channel there is
/// nothing to wait for and the step yields a tick.
pub fn subscription(poll: Option<Channel>) -> (out: (Message, Option<Channel>))
    requires
        poll matches Some(events) ==> events.wf(),
    ensures
        match poll {
            Some(events) => {
                &&& out.0 matches Message::Events(batch)
                &&& records(batch@) == decoded(events@.visible())
                &&& out.1 matches Some(left)
                &&& left.wf()
                &&& left@ == events@.drained().clear_ready()
            },
            None => out.0 is Tick && out.1 is None,
        },
{
    match poll {
        Some(events) => {
            let mut events = events;
            let batch = wake(&mut events);
            (Message::Events(batch), Some(events))
        },
        None => (Message::Tick, None),
    }
}

/// An `execve` that finds room in the channel, with no slot ahead of it
/// still being written, is seen by the consumer exactly once: the spans
/// within the consumer's reach grow by the record's wire form, and the
/// records decoded from them by that record, its uid, pid and command those
/// of the call and its path the call's file name cut to the field.
pub proof fn lemma_exec_is_observed(ctx: SysEnter, ring: Ring)
    requires
        ring.wf(),
        ctx.is_exec(),
        ring.can_reserve(RECORD_SIZE as nat),
        !ring.pending(),
    ensures
        ctx.outcome(ring) is Published,
        ctx.effect(ring).wf(),
        ctx.effect(ring).visible() == ring.visible().push(ctx.record().wire()),
        decoded(ctx.effect(ring).visible()) == decoded(ring.visible()).push(ctx.record()),
{
    let r = ctx.record();
    lemma_parse_wire(r);
    ring.lemma_publish(r.wire());
    let grown = ring.visible().push(r.wire());
    assert(grown.drop_last() =~= ring.visible());
}

/// An event that found less room than one record, or that was no `execve`,
/// leaves no trace: the channel and all that the consumer will read from it
/// are as before.
pub proof fn lemma_dropped_leaves_no_trace(ctx: SysEnter, ring: Ring)
    requires
        ring.wf(),
        !ctx.is_exec() || ring.free() < RECORD_SIZE,
    ensures
        !(ctx.outcome(ring) is Published),
        ctx.is_exec() ==> ctx.outcome(ring) is Dropped,
        ctx.effect(ring) == ring,
        decoded(ctx.effect(ring).visible()) == decoded(ring.visible()),
{
}

/// The records within the consumer's reach take no more room than the
/// slots they lie in.
proof fn lemma_decoded_fits(entries: Seq<Entry>)
    ensures
        decoded(visible_of(entries)).len() * RECORD_SIZE <= held(entries),
    decreases entries.len(),
{
    if entries.len() > 0 {
        let rest = entries.drop_first();
        lemma_decoded_fits(rest);
        if entries[0].state == SlotState::Submitted {
            let first = seq![entries[0].bytes];
            lemma_decoded_concat(first, visible_of(rest));
            assert(decoded(first.drop_last()).len() == 0);
        }
    }
}

/// However many events were attempted, the consumer never gets more
/// records out of the channel than the channel has room for: a channel
/// sized for a hundred records yields at most a hundred.
pub proof fn lemma_never_more_than_fits(ring: Ring)
    requires
        ring.wf(),
    ensures
        decoded(ring.visible()).len() * RECORD_SIZE <= ring.used,
        decoded(ring.visible()).len() * RECORD_SIZE <= ring.capacity,
{
    lemma_decoded_fits(ring.entries);
    ring.lemma_held_is_used();
}

} // verus!
