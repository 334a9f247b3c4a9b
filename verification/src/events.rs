//! The parser's event interface: the three callbacks that bracket objects
//! and deliver attributes, together with the ghost event log that the
//! contracts are stated over.

use vstd::prelude::*;

use crate::text::lossy_of;
use crate::text::to_text;

verus! {

/// One parsing event, as recorded in the ghost log of a consumer.
pub enum Event {
    Start,
    Attribute { name: Seq<u8>, value: Seq<u8> },
    End,
}

/// Consumer of parsing events.
///
/// Every consumer carries a ghost log of the events it has received; each
/// callback appends exactly one event to it. `wf` is the consumer's own
/// well-formedness tie between its concrete state and the log, which every
/// callback preserves.
pub trait Callbacks: Sized {
    /// Whatever configuration the consumer was built with; every
    /// callback leaves it untouched.
    type Config;

    spec fn config(&self) -> Self::Config;

    spec fn wf(&self) -> bool;

    spec fn events(&self) -> Seq<Event>;

    /// Called when a new object starts.
    fn start_object(&mut self)
        requires
            old(self).wf(),
        ensures
            final(self).wf(),
            final(self).config() == old(self).config(),
            final(self).events() == old(self).events().push(Event::Start),
    ;

    /// Called for each attribute with its name and value.
    fn attribute(&mut self, name: &[u8], value: &[u8])
        requires
            old(self).wf(),
        ensures
            final(self).wf(),
            final(self).config() == old(self).config(),
            final(self).events() == old(self).events().push(
                Event::Attribute { name: name@, value: value@ },
            ),
    ;

    /// Called when an object ends.
    fn end_object(&mut self)
        requires
            old(self).wf(),
        ensures
            final(self).wf(),
            final(self).config() == old(self).config(),
            final(self).events() == old(self).events().push(Event::End),
    ;
}

/// No-op consumer: discards every event, keeping only the ghost log.
pub struct Noop {
    log: Ghost<Seq<Event>>,
}

impl Noop {
    pub fn new() -> (r: Noop)
        ensures
            r.wf(),
            r.events() == Seq::<Event>::empty(),
    {
        Noop { log: Ghost(Seq::empty()) }
    }
}

impl Callbacks for Noop {
    type Config = ();

    open spec fn config(&self) -> () {
        ()
    }

    open spec fn wf(&self) -> bool {
        true
    }

    closed spec fn events(&self) -> Seq<Event> {
        self.log@
    }

    fn start_object(&mut self) {
        self.log = Ghost(self.log@.push(Event::Start));
    }

    fn attribute(&mut self, name: &[u8], value: &[u8]) {
        self.log = Ghost(self.log@.push(Event::Attribute { name: name@, value: value@ }));
    }

    fn end_object(&mut self) {
        self.log = Ghost(self.log@.push(Event::End));
    }
}

/// One line of a diagnostic trace: an event with its name and value
/// materialized as text.
#[derive(Debug, Clone, PartialEq, Eq)]
pub enum TraceEntry {
    Start,
    Attribute(String, String),
    End,
}

/// A trace line renders the event it came from.
pub open spec fn entry_matches(t: TraceEntry, e: Event) -> bool {
    match (t, e) {
        (TraceEntry::Start, Event::Start) => true,
        (TraceEntry::Attribute(n, v), Event::Attribute { name, value }) => n@ == lossy_of(name)
            && v@ == lossy_of(value),
        (TraceEntry::End, Event::End) => true,
        _ => false,
    }
}

/// Diagnostic consumer: records a human-readable trace of the events,
/// one entry per event, names and values materialized as text. It is
/// tooling around the two production builders, not one of them.
pub struct Printer {
    trace: Vec<TraceEntry>,
    log: Ghost<Seq<Event>>,
}

impl Printer {
    pub fn new() -> (r: Printer)
        ensures
            r.wf(),
            r.events() == Seq::<Event>::empty(),
    {
        Printer { trace: Vec::new(), log: Ghost(Seq::empty()) }
    }

    /// The recorded trace: one entry per event received, in order.
    pub fn into_trace(self) -> (r: Vec<TraceEntry>)
        requires
            self.wf(),
        ensures
            r@.len() == self.events().len(),
            forall|i: int|
                0 <= i < r@.len() ==> entry_matches(#[trigger] r@[i], self.events()[i]),
    {
        self.trace
    }
}

impl Callbacks for Printer {
    type Config = ();

    open spec fn config(&self) -> () {
        ()
    }

    closed spec fn wf(&self) -> bool {
        &&& self.trace@.len() == self.log@.len()
        &&& forall|i: int|
            0 <= i < self.trace@.len() ==> entry_matches(#[trigger] self.trace@[i], self.log@[i])
    }

    closed spec fn events(&self) -> Seq<Event> {
        self.log@
    }

    fn start_object(&mut self) {
        self.trace.push(TraceEntry::Start);
        self.log = Ghost(self.log@.push(Event::Start));
    }

    fn attribute(&mut self, name: &[u8], value: &[u8]) {
        self.trace.push(TraceEntry::Attribute(to_text(name), to_text(value)));
        self.log = Ghost(self.log@.push(Event::Attribute { name: name@, value: value@ }));
    }

    fn end_object(&mut self) {
        self.trace.push(TraceEntry::End);
        self.log = Ghost(self.log@.push(Event::End));
    }
}

/// How many `Start` events the sequence holds.
pub open spec fn count_starts(events: Seq<Event>) -> int
    decreases events.len(),
{
    if events.len() == 0 {
        0
    } else {
        count_starts(events.drop_last()) + if events.last() is Start {
            1int
        } else {
            0int
        }
    }
}

/// How many `End` events the sequence holds.
pub open spec fn count_ends(events: Seq<Event>) -> int
    decreases events.len(),
{
    if events.len() == 0 {
        0
    } else {
        count_ends(events.drop_last()) + if events.last() is End {
            1int
        } else {
            0int
        }
    }
}

/// Nesting depth added by the sequence: starts minus ends.
pub open spec fn depth(events: Seq<Event>) -> int {
    count_starts(events) - count_ends(events)
}

/// Bracketing discipline of an event sequence that begins at depth `d0`:
/// an object starts only outside an object, and attributes are delivered
/// and objects closed only inside one.
pub open spec fn well_bracketed_from(events: Seq<Event>, d0: int) -> bool {
    forall|i: int|
        0 <= i < events.len() ==> match #[trigger] events[i] {
            Event::Start => d0 + depth(events.take(i)) == 0,
            Event::Attribute { .. } => d0 + depth(events.take(i)) == 1,
            Event::End => d0 + depth(events.take(i)) == 1,
        }
}

/// Counts of a one-event sequence.
pub proof fn lemma_counts_single(e: Event)
    ensures
        count_starts(seq![e]) == (if e is Start {
            1int
        } else {
            0int
        }),
        count_ends(seq![e]) == (if e is End {
            1int
        } else {
            0int
        }),
{
    assert(count_starts(Seq::<Event>::empty()) == 0);
    assert(count_ends(Seq::<Event>::empty()) == 0);
    assert(seq![e].drop_last() =~= Seq::<Event>::empty());
    assert(seq![e].len() == 1);
    assert(seq![e].last() == e);
}

/// Counts distribute over concatenation.
pub proof fn lemma_counts_concat(a: Seq<Event>, b: Seq<Event>)
    ensures
        count_starts(a + b) == count_starts(a) + count_starts(b),
        count_ends(a + b) == count_ends(a) + count_ends(b),
    decreases b.len(),
{
    if b.len() == 0 {
        assert(a + b =~= a);
    } else {
        lemma_counts_concat(a, b.drop_last());
        assert((a + b).drop_last() =~= a + b.drop_last());
        assert((a + b).last() == b.last());
    }
}

/// Concatenating well-bracketed sequences at matching depths is
/// well-bracketed.
pub proof fn lemma_well_bracketed_concat(a: Seq<Event>, b: Seq<Event>, d0: int)
    requires
        well_bracketed_from(a, d0),
        well_bracketed_from(b, d0 + depth(a)),
    ensures
        well_bracketed_from(a + b, d0),
{
    assert forall|i: int| 0 <= i < (a + b).len() implies match #[trigger] (a + b)[i] {
        Event::Start => d0 + depth((a + b).take(i)) == 0,
        Event::Attribute { .. } => d0 + depth((a + b).take(i)) == 1,
        Event::End => d0 + depth((a + b).take(i)) == 1,
    } by {
        if i < a.len() {
            assert((a + b).take(i) =~= a.take(i));
            assert((a + b)[i] == a[i]);
        } else {
            assert((a + b).take(i) =~= a + b.take(i - a.len()));
            lemma_counts_concat(a, b.take(i - a.len()));
            assert((a + b)[i] == b[i - a.len()]);
        }
    }
}

} // verus!
