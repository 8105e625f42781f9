//! What the owner of the poller keeps: every record received so far, and
//! how many there are.

use crate::poller::{records, Message};
use crate::record::{Data, Record};
use crate::text::{decimal, push_decimal};
use vstd::prelude::*;
use vstd::string::StringExecFns;

verus! {

/// The records received so far, oldest first, and their number.
pub struct State {
    n_events: usize,
    events: Vec<Data>,
}

/// The first line of the listing: the number of records.
pub open spec fn count_line(n: nat) -> Seq<char> {
    "Events: "@ + decimal(n)
}

/// The line of the listing for one record.
pub open spec fn event_line(r: Record) -> Seq<char> {
    "Event: "@ + r.display()
}

impl State {
    /// The records received so far, oldest first.
    pub closed spec fn log(&self) -> Seq<Record> {
        records(self.events@)
    }

    /// The number kept beside the records.
    pub closed spec fn count(&self) -> nat {
        self.n_events as nat
    }

    /// The number kept is the number of records.
    pub open spec fn wf(&self) -> bool {
        self.count() == self.log().len()
    }

    /// A state with no record in it.
    pub fn new() -> (state: State)
        ensures
            state.wf(),
            state.log() == Seq::<Record>::empty(),
    {
        State { n_events: 0, events: Vec::new() }
    }

    /// How many records were received so far.
    pub fn n_events(&self) -> (n: usize)
        ensures
            n == self.count(),
    {
        self.n_events
    }

    /// The records received so far, oldest first.
    pub fn events(&self) -> (list: &Vec<Data>)
        ensures
            records(list@) == self.log(),
    {
        &self.events
    }

    /// Takes in one message of the poller: a batch of records goes behind
    /// those already there, in its order, and the number grows by the size
    /// of the batch; a tick changes nothing.
    pub fn update(&mut self, message: Message)
        ensures
            old(self).wf() ==> final(self).wf(),
            final(self).log() == match message {
                Message::Tick => old(self).log(),
                Message::Events(batch) => old(self).log() + records(batch@),
            },
            final(self).count() == match message {
                Message::Tick => old(self).count(),
                Message::Events(batch) => old(self).log().len() + batch@.len(),
            },
    {
        match message {
            Message::Tick => {},
            Message::Events(batch) => {
                let mut batch = batch;
                self.events.append(&mut batch);
                self.n_events = self.events.len();
            },
        }
    }

    /// The listing shown to the user: the number of records first, then one
    /// line for each record, the newest first.
    pub fn lines(&self) -> (out: Vec<String>)
        ensures
            out@.len() == self.log().len() + 1,
            out@[0]@ == count_line(self.count()),
            forall|i: int|
                0 <= i < self.log().len() ==> (#[trigger] out@[i + 1])@ == event_line(
                    self.log()[self.log().len() - 1 - i],
                ),
    {
        let mut out: Vec<String> = Vec::new();
        let mut first = String::new();
        first.append("Events: ");
        let _ = push_decimal(&mut first, self.n_events as u64);
        out.push(first);
        let n = self.events.len();
        let mut i: usize = 0;
        while i < n
            invariant
                i <= n,
                n == self.events@.len(),
                out@.len() == i + 1,
                out@[0]@ == count_line(self.count()),
                forall|k: int|
                    0 <= k < i ==> (#[trigger] out@[k + 1])@ == event_line(
                        self.log()[n - 1 - k],
                    ),
            decreases n - i,
        {
            let mut line = String::new();
            line.append("Event: ");
            let shown = self.events[n - 1 - i].to_string();
            line.append(shown.as_str());
            out.push(line);
            i = i + 1;
        }
        out
    }
}

} // verus!
