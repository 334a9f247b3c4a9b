//! Schemaless consumer: one row per object holding the ordered list of
//! (name, value) pairs exactly as they arrived.
//!
//! The builder keeps a flat record buffer and a parallel list of object
//! boundaries; its invariant ties both to the event log, and `build`
//! slices the buffer at consecutive boundaries.

use vstd::prelude::*;
use vstd::seq_lib::*;

use crate::events::Callbacks;
use crate::events::Event;
use crate::text::lossy_of;
use crate::text::to_text;

verus! {

/// State of the schemaless consumer as a function of its event log: the
/// record buffers and the object boundaries into them.
pub struct SchemalessState {
    pub names: Seq<Seq<char>>,
    pub values: Seq<Seq<char>>,
    pub starts: Seq<int>,
}

pub open spec fn schemaless_init() -> SchemalessState {
    SchemalessState { names: Seq::empty(), values: Seq::empty(), starts: seq![0int] }
}

/// One event's effect: attributes append a record, an object end appends
/// the current buffer length as the next boundary.
pub open spec fn schemaless_step(s: SchemalessState, e: Event) -> SchemalessState {
    match e {
        Event::Start => s,
        Event::Attribute { name, value } => SchemalessState {
            names: s.names.push(lossy_of(name)),
            values: s.values.push(lossy_of(value)),
            starts: s.starts,
        },
        Event::End => SchemalessState {
            names: s.names,
            values: s.values,
            starts: s.starts.push(s.names.len() as int),
        },
    }
}

pub open spec fn schemaless_fold(events: Seq<Event>) -> SchemalessState
    decreases events.len(),
{
    if events.len() == 0 {
        schemaless_init()
    } else {
        schemaless_step(schemaless_fold(events.drop_last()), events.last())
    }
}

pub proof fn lemma_schemaless_fold_push(events: Seq<Event>, e: Event)
    ensures
        schemaless_fold(events.push(e)) == schemaless_step(schemaless_fold(events), e),
{
    assert(events.push(e).drop_last() =~= events);
    assert(events.push(e).last() == e);
}

/// The boundaries are non-decreasing, begin at zero and stay within the
/// record buffer, whose two halves have equal length.
pub proof fn lemma_schemaless_fold_wf(events: Seq<Event>)
    ensures
        ({
            let m = schemaless_fold(events);
            &&& m.names.len() == m.values.len()
            &&& m.starts.len() >= 1
            &&& m.starts[0] == 0
            &&& (forall|i: int| 0 <= i < m.starts.len() ==> 0 <= #[trigger] m.starts[i]
                <= m.names.len())
            &&& (forall|i: int, j: int|
                0 <= i <= j < m.starts.len() ==> #[trigger] m.starts[i] <= #[trigger] m.starts[j])
        }),
    decreases events.len(),
{
    if events.len() > 0 {
        lemma_schemaless_fold_wf(events.drop_last());
    }
}

/// The rows that the event log describes: the record buffer sliced at
/// consecutive boundaries; records after the last boundary belong to no
/// finished object and are dropped.
pub open spec fn schemaless_rows(events: Seq<Event>) -> Seq<Seq<(Seq<char>, Seq<char>)>> {
    let m = schemaless_fold(events);
    Seq::new(
        (m.starts.len() - 1) as nat,
        |i: int|
            Seq::new(
                (m.starts[i + 1] - m.starts[i]) as nat,
                |j: int| (m.names[m.starts[i] + j], m.values[m.starts[i] + j]),
            ),
    )
}

/// The text of a finished table, row by row.
pub open spec fn rows_view(r: Seq<Vec<(String, String)>>) -> Seq<Seq<(Seq<char>, Seq<char>)>> {
    r.map_values(|row: Vec<(String, String)>| row@.map_values(|p: (String, String)| (p.0@, p.1@)))
}

/// Schemaless consumer of parse events.
pub struct SchemalessBuilder {
    names: Vec<String>,
    values: Vec<String>,
    object_starts: Vec<usize>,
    log: Ghost<Seq<Event>>,
}

impl SchemalessBuilder {
    pub fn new() -> (r: SchemalessBuilder)
        ensures
            r.wf(),
            r.events() == Seq::<Event>::empty(),
    {
        let mut object_starts: Vec<usize> = Vec::new();
        object_starts.push(0);
        let r = SchemalessBuilder {
            names: Vec::new(),
            values: Vec::new(),
            object_starts,
            log: Ghost(Seq::empty()),
        };
        proof {
            assert(r.object_starts@.map_values(|u: usize| u as int) =~= seq![0int]);
            assert(r.names@.map_values(|s: String| s@) =~= Seq::<Seq<char>>::empty());
            assert(r.values@.map_values(|s: String| s@) =~= Seq::<Seq<char>>::empty());
        }
        r
    }

    /// One row per object, each the ordered attribute list of that object,
    /// duplicates preserved verbatim.
    #[verifier::loop_isolation(false)]
    pub fn build(self) -> (r: Vec<Vec<(String, String)>>)
        requires
            self.wf(),
        ensures
            rows_view(r@) == schemaless_rows(self.events()),
    {
        proof {
            lemma_schemaless_fold_wf(self.log@);
        }
        let ghost m = schemaless_fold(self.log@);
        let ghost spec_rows = schemaless_rows(self.log@);
        let nrows = self.object_starts.len() - 1;
        let mut rows: Vec<Vec<(String, String)>> = Vec::new();
        let mut i: usize = 0;
        while i < nrows
            invariant
                self.wf(),
                m == schemaless_fold(self.log@),
                spec_rows == schemaless_rows(self.log@),
                nrows + 1 == self.object_starts@.len(),
                i <= nrows,
                rows@.len() == i,
                forall|k: int| 0 <= k < i ==> rows_view(rows@)[k] == spec_rows[k],
            decreases nrows - i,
        {
            let lo = self.object_starts[i];
            let hi = self.object_starts[i + 1];
            proof {
                assert(m.starts[i as int] == self.object_starts@.map_values(|u: usize| u as int)[
                    i as int
                ]);
                assert(m.starts[i as int + 1] == self.object_starts@.map_values(
                    |u: usize| u as int,
                )[i as int + 1]);
            }
            let mut row: Vec<(String, String)> = Vec::new();
            let mut j = lo;
            while j < hi
                invariant
                    self.wf(),
                    m == schemaless_fold(self.log@),
                    lo <= j <= hi,
                    lo == m.starts[i as int],
                    hi == m.starts[i as int + 1],
                    hi <= self.names@.len(),
                    self.names@.len() == self.values@.len(),
                    row@.len() == j - lo,
                    forall|t: int|
                        0 <= t < j - lo ==> (#[trigger] row@[t]).0@ == m.names[lo + t] && row@[
                            t
                        ].1@ == m.values[lo + t],
                decreases hi - j,
            {
                proof {
                    assert(m.names[j as int] == self.names@.map_values(|s: String| s@)[j as int]);
                    assert(m.values[j as int] == self.values@.map_values(|s: String| s@)[
                        j as int
                    ]);
                }
                row.push((self.names[j].clone(), self.values[j].clone()));
                j = j + 1;
            }
            proof {
                assert(row@.map_values(|p: (String, String)| (p.0@, p.1@)) =~= spec_rows[i as int]);
            }
            rows.push(row);
            i = i + 1;
            proof {
                assert(forall|k: int| 0 <= k < i ==> rows_view(rows@)[k] == spec_rows[k]);
            }
        }
        proof {
            assert(rows_view(rows@) =~= spec_rows);
        }
        rows
    }
}

impl Callbacks for SchemalessBuilder {
    type Config = ();

    open spec fn config(&self) -> () {
        ()
    }

    /// The buffers are exactly the fold of the event log.
    closed spec fn wf(&self) -> bool {
        let m = schemaless_fold(self.log@);
        &&& self.names@.map_values(|s: String| s@) == m.names
        &&& self.values@.map_values(|s: String| s@) == m.values
        &&& self.object_starts@.map_values(|u: usize| u as int) == m.starts
    }

    closed spec fn events(&self) -> Seq<Event> {
        self.log@
    }

    fn start_object(&mut self) {
        proof {
            lemma_schemaless_fold_push(self.log@, Event::Start);
        }
        self.log = Ghost(self.log@.push(Event::Start));
    }

    fn attribute(&mut self, name: &[u8], value: &[u8]) {
        proof {
            lemma_schemaless_fold_push(self.log@, Event::Attribute { name: name@, value: value@ });
        }
        let ghost m = schemaless_fold(self.log@);
        self.names.push(to_text(name));
        self.values.push(to_text(value));
        self.log = Ghost(self.log@.push(Event::Attribute { name: name@, value: value@ }));
        proof {
            assert(self.names@.map_values(|s: String| s@) =~= m.names.push(lossy_of(name@)));
            assert(self.values@.map_values(|s: String| s@) =~= m.values.push(lossy_of(value@)));
        }
    }

    fn end_object(&mut self) {
        proof {
            lemma_schemaless_fold_push(self.log@, Event::End);
        }
        let ghost m = schemaless_fold(self.log@);
        let n = self.names.len();
        self.object_starts.push(n);
        self.log = Ghost(self.log@.push(Event::End));
        proof {
            assert(self.object_starts@.map_values(|u: usize| u as int) =~= m.starts.push(
                m.names.len() as int,
            ));
        }
    }
}

} // verus!
