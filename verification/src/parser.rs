//! The streaming RPSL parser: a two-state machine over physical lines that
//! assembles attributes, joins continuation lines and brackets objects.
//!
//! The whole behaviour is pinned by the specification-level machine
//! [`run`]/[`run_attr`]: [`RpslParser::parse`] emits exactly the events of
//! `spec_parse(input)` and fails exactly when the machine fails, with the
//! same line number, error kind and raw line.

use vstd::prelude::*;

use crate::events::Callbacks;
use crate::events::Event;
use crate::events::count_ends;
use crate::events::count_starts;
use crate::events::depth;
use crate::events::lemma_counts_concat;
use crate::events::lemma_counts_single;
use crate::events::lemma_well_bracketed_concat;
use crate::events::well_bracketed_from;
use crate::scanner::find_byte;
use crate::scanner::find_byte_spec;
use crate::scanner::is_cont_byte;
use crate::scanner::is_continuation;
use crate::scanner::lemma_find_byte_spec;
use crate::scanner::lemma_line_at_advances;
use crate::scanner::lemma_line_at_first_byte;
use crate::scanner::line_at;
use crate::scanner::next_is_continuation;
use crate::scanner::read_line;
use crate::scanner::strip_comment;
use crate::scanner::strip_comment_spec;
use crate::scanner::trim;
use crate::scanner::trim_spec;
use crate::text::lossy_of;
use crate::text::to_text;

verus! {

/// The kind of a syntax error.
#[derive(Debug, Clone, Copy, PartialEq, Eq, Structural)]
pub enum SyntaxErrorKind {
    UnexpectedContinuation,
    ExpectedAttribute,
    EmptyAttributeName,
}

impl SyntaxErrorKind {
    /// The diagnostic message for this kind.
    pub fn message(&self) -> (r: &'static str)
        ensures
            self is UnexpectedContinuation ==> r@ == "unexpected continuation line"@,
            self is ExpectedAttribute ==> r@ == "expected an attribute"@,
            self is EmptyAttributeName ==> r@ == "empty attribute name"@,
    {
        match self {
            SyntaxErrorKind::UnexpectedContinuation => "unexpected continuation line",
            SyntaxErrorKind::ExpectedAttribute => "expected an attribute",
            SyntaxErrorKind::EmptyAttributeName => "empty attribute name",
        }
    }
}

/// A parse failure.
#[derive(Debug, Clone, PartialEq, Eq)]
pub enum ParseError {
    /// Reserved: declared for end of stream inside an attribute, which no
    /// current transition triggers; end of stream closes an open object.
    UnexpectedEof { line_number: usize },
    /// A line that no transition accepts, with its 1-based number and its
    /// raw text before comment stripping.
    InvalidSyntax { line_number: usize, kind: SyntaxErrorKind, line: String },
}

/// Specification-level syntax error: line number, kind and raw line bytes.
pub struct SpecSyntaxError {
    pub line_number: int,
    pub kind: SyntaxErrorKind,
    pub raw_line: Seq<u8>,
}

/// How a specification-level parse ends.
pub enum ParseEnd {
    /// End of stream reached; an open object was closed.
    Eos,
    /// The bare `EOF` sentinel line: parsing stops, any further bytes
    /// are ignored, and an open object is closed as at end of stream.
    EofToken,
    /// A syntax error.
    Failed(SpecSyntaxError),
}

/// The outcome of the specification-level machine: the events emitted up
/// to the end, and how it ended.
pub struct ParseOut {
    pub events: Seq<Event>,
    pub end: ParseEnd,
}

/// What one continuation line adds to a value: nothing when the marker is
/// followed by a comment-only or blank remainder, otherwise one space and
/// the trimmed remainder.
pub open spec fn cont_contrib(l: Seq<u8>) -> Seq<u8> {
    match strip_comment_spec(l.drop_first()) {
        None => Seq::empty(),
        Some(c) => {
            let f = trim_spec(c);
            if f.len() > 0 {
                seq![32u8] + f
            } else {
                Seq::empty()
            }
        },
    }
}

/// The machine while it accumulates the value of one attribute: consumes
/// continuation lines, then emits the attribute and returns to [`run`]
/// inside an object.
pub open spec fn run_attr(input: Seq<u8>, pos: int, ln: int, name: Seq<u8>, acc: Seq<u8>) -> ParseOut
    decreases input.len() - pos, 1int,
        via run_attr_decreases
{
    if 0 <= pos < input.len() && is_cont_byte(input[pos]) {
        let lr = line_at(input, pos);
        run_attr(input, lr.1, ln + 1, name, acc + cont_contrib(lr.0))
    } else {
        let rest = run(input, pos, ln, true);
        ParseOut {
            events: seq![Event::Attribute { name, value: acc }] + rest.events,
            end: rest.end,
        }
    }
}

#[via_fn]
proof fn run_attr_decreases(input: Seq<u8>, pos: int, ln: int, name: Seq<u8>, acc: Seq<u8>) {
    if 0 <= pos < input.len() {
        lemma_line_at_advances(input, pos);
    }
}

/// The machine, one physical line per unfolding, from position `pos` with
/// `ln` lines already consumed and `in_obj` telling whether an object is
/// open.
pub open spec fn run(input: Seq<u8>, pos: int, ln: int, in_obj: bool) -> ParseOut
    decreases input.len() - pos, 0int,
        via run_decreases
{
    if pos < 0 || pos >= input.len() {
        ParseOut {
            events: if in_obj {
                seq![Event::End]
            } else {
                Seq::empty()
            },
            end: ParseEnd::Eos,
        }
    } else {
        let lr = line_at(input, pos);
        let l = lr.0;
        let next = lr.1;
        match strip_comment_spec(l) {
            None => run(input, next, ln + 1, in_obj),
            Some(c) => if c.len() == 0 {
                let rest = run(input, next, ln + 1, false);
                ParseOut {
                    events: (if in_obj {
                        seq![Event::End]
                    } else {
                        Seq::empty()
                    }) + rest.events,
                    end: rest.end,
                }
            } else if is_cont_byte(c[0]) {
                ParseOut {
                    events: Seq::empty(),
                    end: ParseEnd::Failed(
                        SpecSyntaxError {
                            line_number: ln + 1,
                            kind: SyntaxErrorKind::UnexpectedContinuation,
                            raw_line: l,
                        },
                    ),
                }
            } else {
                match find_byte_spec(c, 58, 0) {
                    None => if c == seq![69u8, 79u8, 70u8] {
                        ParseOut {
                            events: if in_obj {
                                seq![Event::End]
                            } else {
                                Seq::empty()
                            },
                            end: ParseEnd::EofToken,
                        }
                    } else {
                        ParseOut {
                            events: Seq::empty(),
                            end: ParseEnd::Failed(
                                SpecSyntaxError {
                                    line_number: ln + 1,
                                    kind: SyntaxErrorKind::ExpectedAttribute,
                                    raw_line: l,
                                },
                            ),
                        }
                    },
                    Some(p) => if p == 0 {
                        ParseOut {
                            events: Seq::empty(),
                            end: ParseEnd::Failed(
                                SpecSyntaxError {
                                    line_number: ln + 1,
                                    kind: SyntaxErrorKind::EmptyAttributeName,
                                    raw_line: l,
                                },
                            ),
                        }
                    } else {
                        let name = c.subrange(0, p);
                        let v0 = trim_spec(c.subrange(p + 1, c.len() as int));
                        let tail = run_attr(input, next, ln + 1, name, v0);
                        ParseOut {
                            events: (if in_obj {
                                Seq::empty()
                            } else {
                                seq![Event::Start]
                            }) + tail.events,
                            end: tail.end,
                        }
                    },
                }
            },
        }
    }
}

#[via_fn]
proof fn run_decreases(input: Seq<u8>, pos: int, ln: int, in_obj: bool) {
    if 0 <= pos < input.len() {
        lemma_line_at_advances(input, pos);
    }
}

/// The whole parse of an input.
pub open spec fn spec_parse(input: Seq<u8>) -> ParseOut {
    run(input, 0, 0, false)
}

/// RPSL parser around a consumer of events.
pub struct RpslParser<C> {
    pub callbacks: C,
}

impl<C: Callbacks> RpslParser<C> {
    pub fn new(callbacks: C) -> (r: Self)
        ensures
            r.callbacks == callbacks,
    {
        Self { callbacks }
    }

    pub fn into_callbacks(self) -> (r: C)
        ensures
            r == self.callbacks,
    {
        self.callbacks
    }

    /// Parse the input, delivering every event of `spec_parse(input)` to
    /// the callbacks, and fail exactly when the machine fails, with the
    /// machine's line number, kind and raw line.
    #[verifier::loop_isolation(false)]
    pub fn parse(&mut self, input: &[u8]) -> (res: Result<(), ParseError>)
        requires
            old(self).callbacks.wf(),
        ensures
            final(self).callbacks.wf(),
            final(self).callbacks.config() == old(self).callbacks.config(),
            final(self).callbacks.events() == old(self).callbacks.events() + spec_parse(
                input@,
            ).events,
            match res {
                Ok(_) => !(spec_parse(input@).end is Failed),
                Err(e) => spec_parse(input@).end matches ParseEnd::Failed(se) && (e matches
                    ParseError::InvalidSyntax { line_number, kind, line } && line_number
                    == se.line_number && kind == se.kind && line@ == lossy_of(se.raw_line)),
            },
    {
        let mut pos: usize = 0;
        let mut line_number: usize = 0;
        let mut in_object: bool = false;
        loop
            invariant
                self.callbacks.wf(),
                self.callbacks.config() == old(self).callbacks.config(),
                pos <= input@.len(),
                line_number <= pos,
                spec_parse(input@).end == run(
                    input@,
                    pos as int,
                    line_number as int,
                    in_object,
                ).end,
                old(self).callbacks.events() + spec_parse(input@).events == self.callbacks.events() + run(
                    input@,
                    pos as int,
                    line_number as int,
                    in_object,
                ).events,
            decreases input@.len() - pos,
        {
            let ghost ln0 = line_number as int;
            let ghost here = run(input@, pos as int, ln0, in_object);
            match read_line(input, pos) {
                None => {
                    if in_object {
                        self.callbacks.end_object();
                        proof {
                            assert(self.callbacks.events() =~= old(self).callbacks.events() + spec_parse(input@).events);
                        }
                    } else {
                        proof {
                            assert(self.callbacks.events() =~= old(self).callbacks.events() + spec_parse(input@).events);
                        }
                    }
                    return Ok(());
                },
                Some((line, next)) => {
                    line_number = line_number + 1;
                    match strip_comment(line) {
                        None => {
                            pos = next;
                        },
                        Some(clean) => {
                            if clean.len() == 0 {
                                let ghost rest = run(input@, next as int, ln0 + 1, false);
                                if in_object {
                                    self.callbacks.end_object();
                                    proof {
                                        assert(here.events =~= seq![Event::End] + rest.events);
                                        assert(self.callbacks.events() + rest.events =~= old(self).callbacks.events()
                                            + spec_parse(input@).events);
                                    }
                                    in_object = false;
                                } else {
                                    proof {
                                        assert(here.events =~= rest.events);
                                    }
                                }
                                pos = next;
                            } else if is_continuation(clean[0]) {
                                proof {
                                    assert(here.events =~= Seq::<Event>::empty());
                                    assert(self.callbacks.events() =~= old(self).callbacks.events() + spec_parse(
                                        input@,
                                    ).events);
                                }
                                return Err(ParseError::InvalidSyntax {
                                    line_number,
                                    kind: SyntaxErrorKind::UnexpectedContinuation,
                                    line: to_text(line),
                                });
                            } else {
                                proof {
                                    lemma_find_byte_spec(clean@, 58, 0);
                                }
                                match find_byte(58, clean) {
                                    None => {
                                        proof {
                                            assert(find_byte_spec(clean@, 58, 0) is None);
                                        }
                                        if clean.len() == 3 && clean[0] == 69 && clean[1] == 79
                                            && clean[2] == 70 {
                                            proof {
                                                assert(clean@ =~= seq![69u8, 79u8, 70u8]);
                                            }
                                            if in_object {
                                                self.callbacks.end_object();
                                            }
                                            proof {
                                                assert(self.callbacks.events() =~= old(self).callbacks.events() + spec_parse(
                                                    input@,
                                                ).events);
                                            }
                                            return Ok(());
                                        } else {
                                            proof {
                                                let t = seq![69u8, 79u8, 70u8];
                                                assert(t.len() == 3 && t[0] == 69u8 && t[1] == 79u8
                                                    && t[2] == 70u8);
                                                assert(here.events =~= Seq::<Event>::empty());
                                                assert(self.callbacks.events() =~= old(self).callbacks.events() + spec_parse(
                                                    input@,
                                                ).events);
                                            }
                                            return Err(ParseError::InvalidSyntax {
                                                line_number,
                                                kind: SyntaxErrorKind::ExpectedAttribute,
                                                line: to_text(line),
                                            });
                                        }
                                    },
                                    Some(p) => {
                                        proof {
                                            assert(find_byte_spec(clean@, 58, 0) == Some(p as int));
                                        }
                                        if p == 0 {
                                            proof {
                                                assert(here.events =~= Seq::<Event>::empty());
                                                assert(self.callbacks.events() =~= old(self).callbacks.events()
                                                    + spec_parse(input@).events);
                                            }
                                            return Err(ParseError::InvalidSyntax {
                                                line_number,
                                                kind: SyntaxErrorKind::EmptyAttributeName,
                                                line: to_text(line),
                                            });
                                        }
                                        let name = vstd::slice::slice_subrange(clean, 0, p);
                                        let value_raw = vstd::slice::slice_subrange(
                                            clean,
                                            p + 1,
                                            clean.len(),
                                        );
                                        let ghost v0 = trim_spec(clean@.subrange(
                                            p + 1,
                                            clean@.len() as int,
                                        ));
                                        let ghost startpre: Seq<Event> = if in_object {
                                            Seq::empty()
                                        } else {
                                            seq![Event::Start]
                                        };
                                        if !in_object {
                                            self.callbacks.start_object();
                                            in_object = true;
                                        }
                                        let tv = trim(value_raw);
                                        let mut acc: Vec<u8> = Vec::new();
                                        push_bytes(&mut acc, tv);
                                        proof {
                                            assert(acc@ =~= v0);
                                        }
                                        let mut cpos: usize = next;
                                        let mut cln: usize = line_number;
                                        let ghost evs0 = self.callbacks.events();
                                        while next_is_continuation(input, cpos)
                                            invariant
                                                cpos <= input@.len(),
                                                next <= cpos,
                                                cln <= cpos,
                                                self.callbacks.wf(),
                                                self.callbacks.config() == old(self).callbacks.config(),
                                                self.callbacks.events() == evs0,
                                                run_attr(
                                                    input@,
                                                    next as int,
                                                    ln0 + 1,
                                                    name@,
                                                    v0,
                                                ) == run_attr(
                                                    input@,
                                                    cpos as int,
                                                    cln as int,
                                                    name@,
                                                    acc@,
                                                ),
                                            decreases input@.len() - cpos,
                                        {
                                            proof {
                                                lemma_line_at_first_byte(input@, cpos as int);
                                            }
                                            match read_line(input, cpos) {
                                                Some((l, nx)) => {
                                                    let ghost acc_old = acc@;
                                                    let rest2 = vstd::slice::slice_subrange(
                                                        l,
                                                        1,
                                                        l.len(),
                                                    );
                                                    proof {
                                                        assert(rest2@ =~= l@.drop_first());
                                                    }
                                                    match strip_comment(rest2) {
                                                        None => {
                                                            proof {
                                                                assert(acc@ =~= acc_old
                                                                    + cont_contrib(l@));
                                                            }
                                                        },
                                                        Some(cc) => {
                                                            let f = trim(cc);
                                                            if f.len() > 0 {
                                                                acc.push(32);
                                                                push_bytes(&mut acc, f);
                                                                proof {
                                                                    assert(acc@ =~= acc_old
                                                                        + cont_contrib(l@));
                                                                }
                                                            } else {
                                                                proof {
                                                                    assert(acc@ =~= acc_old
                                                                        + cont_contrib(l@));
                                                                }
                                                            }
                                                        },
                                                    }
                                                    cln = cln + 1;
                                                    cpos = nx;
                                                },
                                                None => {
                                                    proof {
                                                        assert(false);
                                                    }
                                                },
                                            }
                                        }
                                        let ghost tail = run(input@, cpos as int, cln as int, true);
                                        proof {
                                            assert(run_attr(input@, cpos as int, cln as int, name@, acc@)
                                                == ParseOut {
                                                events: seq![
                                                    Event::Attribute { name: name@, value: acc@ },
                                                ] + tail.events,
                                                end: tail.end,
                                            });
                                        }
                                        self.callbacks.attribute(name, acc.as_slice());
                                        proof {
                                            assert(here.events =~= startpre + (seq![
                                                Event::Attribute { name: name@, value: acc@ },
                                            ] + tail.events));
                                            assert(self.callbacks.events() + tail.events =~= old(self).callbacks.events()
                                                + spec_parse(input@).events);
                                        }
                                        pos = cpos;
                                        line_number = cln;
                                    },
                                }
                            }
                        },
                    }
                },
            }
        }
    }
}

/// Bracketing of the events that [`run_attr`] emits, which always begin
/// inside an object.
pub proof fn lemma_run_attr_bracketed(input: Seq<u8>, pos: int, ln: int, name: Seq<u8>, acc: Seq<u8>)
    requires
        0 <= pos <= input.len(),
    ensures
        ({
            let out = run_attr(input, pos, ln, name, acc);
            &&& well_bracketed_from(out.events, 1)
            &&& (!(out.end is Failed) ==> depth(out.events) == -1)
            &&& (out.end is Failed ==> depth(out.events) == -1 || depth(out.events) == 0)
        }),
    decreases input.len() - pos, 1int,
{
    if pos < input.len() && is_cont_byte(input[pos]) {
        lemma_line_at_advances(input, pos);
        let lr = line_at(input, pos);
        lemma_run_attr_bracketed(input, lr.1, ln + 1, name, acc + cont_contrib(lr.0));
    } else {
        let rest = run(input, pos, ln, true);
        lemma_run_bracketed(input, pos, ln, true);
        let a = seq![Event::Attribute { name, value: acc }];
        lemma_counts_single(a[0]);
        assert(a.take(0) =~= Seq::<Event>::empty());
        assert(well_bracketed_from(a, 1));
        lemma_counts_concat(a, rest.events);
        lemma_well_bracketed_concat(a, rest.events, 1);
    }
}

/// Bracketing of the events that [`run`] emits from a state that is `d0`
/// objects deep, `d0` being zero or one.
pub proof fn lemma_run_bracketed(input: Seq<u8>, pos: int, ln: int, in_obj: bool)
    requires
        0 <= pos <= input.len(),
    ensures
        ({
            let out = run(input, pos, ln, in_obj);
            let d0: int = if in_obj {
                1
            } else {
                0
            };
            &&& well_bracketed_from(out.events, d0)
            &&& (!(out.end is Failed) ==> depth(out.events) == -d0)
            &&& (out.end is Failed ==> depth(out.events) == -d0 || depth(out.events) == 1 - d0)
        }),
    decreases input.len() - pos, 0int,
{
    let d0: int = if in_obj {
        1
    } else {
        0
    };
    if pos >= input.len() {
        if in_obj {
            let e = seq![Event::End];
            lemma_counts_single(Event::End);
            assert(e.take(0) =~= Seq::<Event>::empty());
            assert(well_bracketed_from(e, 1));
        }
    } else {
        lemma_line_at_advances(input, pos);
        let lr = line_at(input, pos);
        let l = lr.0;
        let next = lr.1;
        match strip_comment_spec(l) {
            None => {
                lemma_run_bracketed(input, next, ln + 1, in_obj);
            },
            Some(c) => {
                if c.len() == 0 {
                    lemma_run_bracketed(input, next, ln + 1, false);
                    let rest = run(input, next, ln + 1, false);
                    let pre: Seq<Event> = if in_obj {
                        seq![Event::End]
                    } else {
                        Seq::empty()
                    };
                    if in_obj {
                        lemma_counts_single(Event::End);
                        assert(pre.take(0) =~= Seq::<Event>::empty());
                    }
                    assert(well_bracketed_from(pre, d0));
                    lemma_counts_concat(pre, rest.events);
                    lemma_well_bracketed_concat(pre, rest.events, d0);
                } else if is_cont_byte(c[0]) {
                } else {
                    match find_byte_spec(c, 58, 0) {
                        None => {
                            if c == seq![69u8, 79u8, 70u8] && in_obj {
                                let e = seq![Event::End];
                                lemma_counts_single(Event::End);
                                assert(e.take(0) =~= Seq::<Event>::empty());
                                assert(well_bracketed_from(e, 1));
                            }
                        },
                        Some(p) => {
                            lemma_find_byte_spec(c, 58, 0);
                            if p > 0 {
                                let name = c.subrange(0, p);
                                let v0 = trim_spec(c.subrange(p + 1, c.len() as int));
                                lemma_run_attr_bracketed(input, next, ln + 1, name, v0);
                                let tail = run_attr(input, next, ln + 1, name, v0);
                                let pre: Seq<Event> = if in_obj {
                                    Seq::empty()
                                } else {
                                    seq![Event::Start]
                                };
                                if !in_obj {
                                    lemma_counts_single(Event::Start);
                                    assert(pre.take(0) =~= Seq::<Event>::empty());
                                }
                                assert(well_bracketed_from(pre, d0));
                                lemma_counts_concat(pre, tail.events);
                                lemma_well_bracketed_concat(pre, tail.events, d0);
                            }
                        },
                    }
                }
            },
        }
    }
}

/// Law: the events of a parse are well bracketed — an object starts only
/// at depth zero, and attributes are delivered and objects closed only
/// inside an object; attributes never cross an object boundary.
pub proof fn lemma_events_well_bracketed(input: Seq<u8>)
    ensures
        well_bracketed_from(spec_parse(input).events, 0),
{
    lemma_run_bracketed(input, 0, 0, false);
}

/// Law: every successful parse — ending at end of stream or at the
/// `EOF` sentinel — emits exactly as many `end_object` as `start_object`
/// events, an object still open there being closed implicitly.
pub proof fn lemma_start_end_balance(input: Seq<u8>)
    requires
        !(spec_parse(input).end is Failed),
    ensures
        count_starts(spec_parse(input).events) == count_ends(spec_parse(input).events),
{
    lemma_run_bracketed(input, 0, 0, false);
}

/// The trimmed remainder of one continuation line: the line without its
/// marker byte, comment stripped, leading whitespace removed.
pub open spec fn cont_fragment(l: Seq<u8>) -> Seq<u8> {
    match strip_comment_spec(l.drop_first()) {
        None => Seq::empty(),
        Some(c) => trim_spec(c),
    }
}

/// The trimmed remainders of the run of continuation lines starting at
/// `pos`.
pub open spec fn cont_fragments(input: Seq<u8>, pos: int) -> Seq<Seq<u8>>
    decreases input.len() - pos,
        via cont_fragments_decreases
{
    if 0 <= pos < input.len() && is_cont_byte(input[pos]) {
        let lr = line_at(input, pos);
        seq![cont_fragment(lr.0)] + cont_fragments(input, lr.1)
    } else {
        Seq::empty()
    }
}

#[via_fn]
proof fn cont_fragments_decreases(input: Seq<u8>, pos: int) {
    if 0 <= pos < input.len() {
        lemma_line_at_advances(input, pos);
    }
}

/// `first` followed by each fragment in turn, a single space before every
/// fragment that is not empty, and nothing for one that is.
pub open spec fn join_fragments(first: Seq<u8>, frags: Seq<Seq<u8>>) -> Seq<u8>
    decreases frags.len(),
{
    if frags.len() == 0 {
        first
    } else {
        join_fragments(
            first + (if frags[0].len() > 0 {
                seq![32u8] + frags[0]
            } else {
                Seq::empty()
            }),
            frags.drop_first(),
        )
    }
}

/// Law: continuation round trip — the value the machine accumulates for
/// an attribute equals the trimmed first-line remainder joined with each
/// following continuation fragment by exactly one space, with empty
/// fragments contributing no separator.
pub proof fn lemma_continuation_round_trip(
    input: Seq<u8>,
    pos: int,
    ln: int,
    name: Seq<u8>,
    first: Seq<u8>,
)
    requires
        0 <= pos <= input.len(),
    ensures
        run_attr(input, pos, ln, name, first).events.len() > 0,
        run_attr(input, pos, ln, name, first).events[0] == (Event::Attribute {
            name,
            value: join_fragments(first, cont_fragments(input, pos)),
        }),
    decreases input.len() - pos,
{
    if pos < input.len() && is_cont_byte(input[pos]) {
        lemma_line_at_advances(input, pos);
        let lr = line_at(input, pos);
        let frags = cont_fragments(input, pos);
        assert(frags.drop_first() =~= cont_fragments(input, lr.1));
        lemma_continuation_round_trip(input, lr.1, ln + 1, name, first + cont_contrib(lr.0));
    }
}

/// Append the bytes of `src` to `dst`.
fn push_bytes(dst: &mut Vec<u8>, src: &[u8])
    ensures
        final(dst)@ == old(dst)@ + src@,
{
    let mut i: usize = 0;
    proof {
        assert(dst@ =~= dst@ + src@.subrange(0, 0));
    }
    while i < src.len()
        invariant
            i <= src@.len(),
            dst@ == old(dst)@ + src@.subrange(0, i as int),
        decreases src@.len() - i,
    {
        proof {
            assert(dst@.push(src@[i as int]) =~= old(dst)@ + src@.subrange(0, i as int + 1));
        }
        dst.push(src[i]);
        i = i + 1;
    }
    proof {
        assert(old(dst)@ + src@.subrange(0, src@.len() as int) =~= old(dst)@ + src@);
    }
}

} // verus!
