//! Reader for RPSL (Routing Policy Specification Language) object dumps.
//!
//! A streaming line parser splits a byte stream into objects made of
//! attribute name/value pairs and reports them through the [`Callbacks`]
//! trait; two consumers turn the events into tables, one generic and one
//! typed against a caller-declared schema.

use vstd::prelude::*;

pub mod events;
pub mod parser;
pub mod scanner;
pub mod schema;
pub mod schemaless;
pub mod text;

pub use parser::ParseError;
pub use parser::RpslParser;
pub use parser::SyntaxErrorKind;

pub use events::Callbacks;
pub use events::Event;
pub use events::Noop;
pub use events::Printer;
pub use events::TraceEntry;

pub use schema::ColumnData;
pub use schema::ColumnType;
pub use schema::RpslError;
pub use schema::SchemaBuilder;
pub use schema::SchemaColumn;
pub use schema::SchemaTable;

pub use schemaless::SchemalessBuilder;

pub use scanner::is_continuation;
pub use scanner::next_is_continuation;
pub use scanner::peek;
pub use scanner::read_line;
pub use scanner::strip_comment;
pub use scanner::trim;

verus! {

/// Read RPSL data schemaless: one row per parsed object, holding that
/// object's ordered (name, value) pairs; the first syntax error aborts
/// the whole parse.
pub fn read_rpsl(input: &[u8]) -> (r: Result<Vec<Vec<(String, String)>>, ParseError>)
    ensures
        ({
            let out = parser::spec_parse(input@);
            match r {
                Ok(rows) => !(out.end is Failed) && schemaless::rows_view(rows@)
                    == schemaless::schemaless_rows(out.events),
                Err(e) => out.end matches parser::ParseEnd::Failed(se) && (e matches
                    ParseError::InvalidSyntax { line_number, kind, line } && line_number
                    == se.line_number && kind == se.kind && line@ == text::lossy_of(se.raw_line)),
            }
        }),
{
    let builder = SchemalessBuilder::new();
    let mut p = RpslParser::new(builder);
    let res = p.parse(input);
    proof {
        assert(Seq::<Event>::empty() + parser::spec_parse(input@).events =~= parser::spec_parse(
            input@,
        ).events);
    }
    match res {
        Ok(_) => Ok(p.into_callbacks().build()),
        Err(e) => Err(e),
    }
}

/// Read RPSL data against a schema: one row per object and one column
/// per schema entry, in declaration order. Fails with `UnsupportedType`
/// before parsing for a column type outside `Text`/`TextList`, with
/// `Parse` on the first syntax error, and with `DuplicateSingleValue`
/// when a text column saw two values in one object.
pub fn read_rpsl_with_schema(input: &[u8], schema: &Vec<(String, ColumnType)>) -> (r: Result<
    SchemaTable,
    RpslError,
>)
    ensures
        ({
            let out = parser::spec_parse(input@);
            let decl = schema::schema_decl(schema@);
            let s = schema::schema_fold(decl, out.events);
            match r {
                Ok(t) => ({
                    &&& (forall|i: int|
                        0 <= i < schema@.len() ==> !((#[trigger] schema@[i]).1 is Other))
                    &&& !(out.end is Failed)
                    &&& s.err is None
                    &&& t.columns@.len() == s.cols.len()
                    &&& (forall|i: int|
                        0 <= i < s.cols.len() ==> (#[trigger] t.columns@[i]).name@
                            == s.cols[i].name)
                    &&& (forall|i: int|
                        0 <= i < s.cols.len() && !s.cols[i].is_list ==> ((
                        #[trigger] t.columns@[i]).data matches ColumnData::Text(cells)
                            && cells@.map_values(|o: Option<String>| schema::opt_view(o))
                            == s.cols[i].cells))
                    &&& (forall|i: int|
                        0 <= i < s.cols.len() && s.cols[i].is_list ==> ((
                        #[trigger] t.columns@[i]).data matches ColumnData::TextList(rows)
                            && rows@.map_values(|v: Vec<String>| v@.map_values(|x: String| x@))
                            == schema::list_rows(s.cols[i].values, s.cols[i].offsets)))
                }),
                Err(e) => match e {
                    RpslError::UnsupportedType { column, dtype } => exists|i: int|
                        {
                            &&& 0 <= i < schema@.len()
                            &&& (#[trigger] schema@[i]).1 is Other
                            &&& (forall|k: int|
                                0 <= k < i ==> !((#[trigger] schema@[k]).1 is Other))
                            &&& column@ == schema@[i].0@
                            &&& (schema@[i].1 matches ColumnType::Other(d) && dtype@ == d@)
                        },
                    RpslError::Parse(pe) => (forall|i: int|
                        0 <= i < schema@.len() ==> !((#[trigger] schema@[i]).1 is Other)) && (
                    out.end matches parser::ParseEnd::Failed(se) && (pe matches
                    ParseError::InvalidSyntax { line_number, kind, line } && line_number
                        == se.line_number && kind == se.kind && line@ == text::lossy_of(
                        se.raw_line,
                    ))),
                    RpslError::DuplicateSingleValue { attr, row } => (forall|i: int|
                        0 <= i < schema@.len() ==> !((#[trigger] schema@[i]).1 is Other)) && !(
                    out.end is Failed) && (s.err matches Some(ev) && attr@ == ev.0 && row as int
                        == ev.1),
                },
            }
        }),
{
    let builder = match SchemaBuilder::new(schema) {
        Ok(b) => b,
        Err(e) => {
            return Err(e);
        },
    };
    let mut p = RpslParser::new(builder);
    let res = p.parse(input);
    proof {
        assert(Seq::<Event>::empty() + parser::spec_parse(input@).events =~= parser::spec_parse(
            input@,
        ).events);
    }
    match res {
        Ok(_) => p.into_callbacks().build(),
        Err(e) => Err(RpslError::Parse(e)),
    }
}

} // verus!
