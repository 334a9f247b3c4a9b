//! Schema-typed consumer: one row per object with one column per schema
//! entry, multiplicity validated.
//!
//! A text column gets null for an absent attribute, the value for a single
//! occurrence, and latches a duplicate-value error for more; a list column
//! collects every occurrence in order into a values buffer plus an offsets
//! sequence. The builder's invariant ties the whole state to the event
//! log through the fold [`schema_fold`].

use vstd::prelude::*;
use vstd::seq_lib::*;

use crate::events::Callbacks;
use crate::events::Event;
use crate::parser::ParseError;
use crate::text::lossy_of;
use crate::text::to_text;

verus! {

/// A column type a caller may declare. Only `Text` and `TextList` can be
/// built; `Other` carries the name of any different type and is rejected
/// when the builder is constructed.
#[derive(Debug, Clone, PartialEq, Eq)]
pub enum ColumnType {
    Text,
    TextList,
    Other(String),
}

/// An error of the schema-typed reader.
#[derive(Debug, Clone, PartialEq, Eq)]
pub enum RpslError {
    Parse(ParseError),
    /// A text column saw more than one value inside one object.
    DuplicateSingleValue { attr: String, row: usize },
    /// A schema column declared a type outside `Text` and `TextList`.
    UnsupportedType { column: String, dtype: String },
}

/// The declaration a schema describes: per column its name and whether
/// it is a list column.
pub open spec fn schema_decl(schema: Seq<(String, ColumnType)>) -> Seq<(Seq<char>, bool)> {
    schema.map_values(|p: (String, ColumnType)| (p.0@, p.1 is TextList))
}

/// Specification-level state of one column.
pub struct ColModel {
    pub name: Seq<char>,
    pub is_list: bool,
    pub cells: Seq<Option<Seq<char>>>,
    pub values: Seq<Seq<char>>,
    pub offsets: Seq<int>,
}

/// Specification-level state of the whole builder.
pub struct SchemaState {
    pub cols: Seq<ColModel>,
    pub scratch: Seq<(int, Seq<char>)>,
    pub row_count: int,
    pub err: Option<(Seq<char>, int)>,
}

/// The empty accumulator for a declaration: per column its name, whether
/// it is a list, and empty buffers; a list column's offsets begin at zero.
pub open spec fn schema_init(decl: Seq<(Seq<char>, bool)>) -> SchemaState {
    SchemaState {
        cols: decl.map_values(
            |d: (Seq<char>, bool)|
                ColModel {
                    name: d.0,
                    is_list: d.1,
                    cells: Seq::empty(),
                    values: Seq::empty(),
                    offsets: if d.1 {
                        seq![0int]
                    } else {
                        Seq::empty()
                    },
                },
        ),
        scratch: Seq::empty(),
        row_count: 0,
        err: None,
    }
}

/// First column at or after `from` whose name is the given text.
pub open spec fn match_col(cols: Seq<ColModel>, name: Seq<char>, from: int) -> Option<int>
    decreases cols.len() - from,
{
    if from < 0 || from >= cols.len() {
        None
    } else if cols[from].name == name {
        Some(from)
    } else {
        match_col(cols, name, from + 1)
    }
}

/// The values the scratch buffer holds for column `j`, in arrival order.
pub open spec fn scratch_values(scr: Seq<(int, Seq<char>)>, j: int) -> Seq<Seq<char>>
    decreases scr.len(),
{
    if scr.len() == 0 {
        Seq::empty()
    } else {
        scratch_values(scr.drop_last(), j) + (if scr.last().0 == j {
            seq![scr.last().1]
        } else {
            Seq::empty()
        })
    }
}

/// A `start_object` event clears the scratch buffer.
pub open spec fn schema_start_step(s: SchemaState) -> SchemaState {
    SchemaState { scratch: Seq::empty(), ..s }
}

/// An `attribute` event appends to the scratch buffer when its name is a
/// declared column and no error is latched; anything else is ignored.
pub open spec fn schema_attr_step(s: SchemaState, name: Seq<u8>, value: Seq<u8>) -> SchemaState {
    if s.err is Some {
        s
    } else {
        match match_col(s.cols, lossy_of(name), 0) {
            None => s,
            Some(j) => SchemaState { scratch: s.scratch.push((j, lossy_of(value))), ..s },
        }
    }
}

/// Finalizing one object, column by column from `j`: a list column takes
/// all its scratch values and a new offset; a text column takes null or
/// the single value, and more than one value stops the walk with the
/// duplicate error, later columns left untouched.
pub open spec fn schema_end_cols(
    cols: Seq<ColModel>,
    scr: Seq<(int, Seq<char>)>,
    row: int,
    j: int,
) -> (Seq<ColModel>, Option<(Seq<char>, int)>)
    decreases cols.len() - j,
{
    if j < 0 || j >= cols.len() {
        (cols, None)
    } else {
        let c = cols[j];
        let vs = scratch_values(scr, j);
        if c.is_list {
            let c2 = ColModel {
                values: c.values + vs,
                offsets: c.offsets.push((c.values + vs).len() as int),
                ..c
            };
            schema_end_cols(cols.update(j, c2), scr, row, j + 1)
        } else if vs.len() == 0 {
            schema_end_cols(cols.update(j, ColModel { cells: c.cells.push(None), ..c }), scr, row, j + 1)
        } else if vs.len() == 1 {
            schema_end_cols(
                cols.update(j, ColModel { cells: c.cells.push(Some(vs[0])), ..c }),
                scr,
                row,
                j + 1,
            )
        } else {
            (cols, Some((c.name, row)))
        }
    }
}

/// An `end_object` event finalizes the open object, unless an error is
/// already latched; the row counter stops at the machine's limit.
pub open spec fn schema_end_step(s: SchemaState) -> SchemaState {
    if s.err is Some {
        s
    } else {
        let r = schema_end_cols(s.cols, s.scratch, s.row_count, 0);
        match r.1 {
            Some(e) => SchemaState { cols: r.0, err: Some(e), ..s },
            None => SchemaState {
                cols: r.0,
                row_count: if s.row_count == usize::MAX as int {
                    s.row_count
                } else {
                    s.row_count + 1
                },
                ..s
            },
        }
    }
}

/// The builder state after a sequence of events.
pub open spec fn schema_fold(decl: Seq<(Seq<char>, bool)>, events: Seq<Event>) -> SchemaState
    decreases events.len(),
{
    if events.len() == 0 {
        schema_init(decl)
    } else {
        let s = schema_fold(decl, events.drop_last());
        match events.last() {
            Event::Start => schema_start_step(s),
            Event::Attribute { name, value } => schema_attr_step(s, name, value),
            Event::End => schema_end_step(s),
        }
    }
}

pub proof fn lemma_schema_fold_push(decl: Seq<(Seq<char>, bool)>, events: Seq<Event>, e: Event)
    ensures
        schema_fold(decl, events.push(e)) == (match e {
            Event::Start => schema_start_step(schema_fold(decl, events)),
            Event::Attribute { name, value } => schema_attr_step(
                schema_fold(decl, events),
                name,
                value,
            ),
            Event::End => schema_end_step(schema_fold(decl, events)),
        }),
{
    assert(events.push(e).drop_last() =~= events);
    assert(events.push(e).last() == e);
}

/// The offsets discipline of one column: for a list column they are
/// non-decreasing, start at zero and end at the length of the values
/// buffer; a text column has no values buffer and no offsets.
pub open spec fn col_inv(c: ColModel) -> bool {
    if c.is_list {
        &&& c.cells.len() == 0
        &&& c.offsets.len() >= 1
        &&& c.offsets[0] == 0
        &&& c.offsets.last() == c.values.len()
        &&& (forall|a: int| 0 <= a < c.offsets.len() ==> 0 <= #[trigger] c.offsets[a]
            <= c.values.len())
        &&& (forall|a: int, b: int|
            0 <= a <= b < c.offsets.len() ==> #[trigger] c.offsets[a] <= #[trigger] c.offsets[b])
    } else {
        c.values.len() == 0 && c.offsets.len() == 0
    }
}

proof fn lemma_end_cols_inv(cols: Seq<ColModel>, scr: Seq<(int, Seq<char>)>, row: int, j: int)
    requires
        forall|i: int| 0 <= i < cols.len() ==> col_inv(#[trigger] cols[i]),
    ensures
        schema_end_cols(cols, scr, row, j).0.len() == cols.len(),
        forall|i: int|
            0 <= i < cols.len() ==> col_inv(#[trigger] schema_end_cols(cols, scr, row, j).0[i]),
        forall|i: int|
            0 <= i < cols.len() ==> (#[trigger] schema_end_cols(cols, scr, row, j).0[i]).name
                == cols[i].name && schema_end_cols(cols, scr, row, j).0[i].is_list
                == cols[i].is_list,
        schema_end_cols(cols, scr, row, j).1 matches Some(e) ==> e.1 == row,
    decreases cols.len() - j,
{
    if 0 <= j < cols.len() {
        let c = cols[j];
        let vs = scratch_values(scr, j);
        if c.is_list {
            let c2 = ColModel {
                values: c.values + vs,
                offsets: c.offsets.push((c.values + vs).len() as int),
                ..c
            };
            lemma_end_cols_inv(cols.update(j, c2), scr, row, j + 1);
        } else if vs.len() == 0 {
            lemma_end_cols_inv(cols.update(j, ColModel { cells: c.cells.push(None), ..c }), scr, row, j + 1);
        } else if vs.len() == 1 {
            lemma_end_cols_inv(
                cols.update(j, ColModel { cells: c.cells.push(Some(vs[0])), ..c }),
                scr,
                row,
                j + 1,
            );
        }
    }
}

/// Every state the fold reaches keeps the offsets discipline, names and
/// kinds of the declaration, and a row counter within machine bounds.
pub proof fn lemma_schema_fold_inv(decl: Seq<(Seq<char>, bool)>, events: Seq<Event>)
    ensures
        ({
            let s = schema_fold(decl, events);
            &&& s.cols.len() == decl.len()
            &&& (forall|i: int| 0 <= i < s.cols.len() ==> col_inv(#[trigger] s.cols[i]))
            &&& (forall|i: int|
                0 <= i < s.cols.len() ==> (#[trigger] s.cols[i]).name == decl[i].0
                    && s.cols[i].is_list == decl[i].1)
            &&& 0 <= s.row_count <= usize::MAX as int
            &&& (s.err matches Some(e) ==> 0 <= e.1 <= usize::MAX as int)
        }),
    decreases events.len(),
{
    if events.len() == 0 {
        let s0 = schema_init(decl);
        assert forall|i: int|
            0 <= i < decl.len() implies col_inv(#[trigger] s0.cols[i]) && s0.cols[i].name
            == decl[i].0 && s0.cols[i].is_list == decl[i].1 by {
            if decl[i].1 {
                assert(s0.cols[i].offsets == seq![0int]);
                assert(s0.cols[i].offsets[0] == 0);
                assert(s0.cols[i].offsets.last() == 0);
            }
        }
    }
    if events.len() > 0 {
        lemma_schema_fold_inv(decl, events.drop_last());
        let s = schema_fold(decl, events.drop_last());
        match events.last() {
            Event::Start => {},
            Event::Attribute { .. } => {},
            Event::End => {
                if !(s.err is Some) {
                    lemma_end_cols_inv(s.cols, s.scratch, s.row_count, 0);
                }
            },
        }
    }
}

/// One column's accumulator.
struct ColAcc {
    name: String,
    is_list: bool,
    cells: Vec<Option<String>>,
    values: Vec<String>,
    offsets: Vec<usize>,
}

/// The text of an optional cell.
pub open spec fn opt_view(o: Option<String>) -> Option<Seq<char>> {
    match o {
        Some(s) => Some(s@),
        None => None,
    }
}

spec fn col_view(c: ColAcc) -> ColModel {
    ColModel {
        name: c.name@,
        is_list: c.is_list,
        cells: c.cells@.map_values(|o: Option<String>| opt_view(o)),
        values: c.values@.map_values(|s: String| s@),
        offsets: c.offsets@.map_values(|u: usize| u as int),
    }
}

spec fn cols_view(cs: Seq<ColAcc>) -> Seq<ColModel> {
    cs.map_values(|c: ColAcc| col_view(c))
}

spec fn scratch_view(sc: Seq<(usize, String)>) -> Seq<(int, Seq<char>)> {
    sc.map_values(|p: (usize, String)| (p.0 as int, p.1@))
}

spec fn err_view(e: Option<(String, usize)>) -> Option<(Seq<char>, int)> {
    match e {
        Some(p) => Some((p.0@, p.1 as int)),
        None => None,
    }
}

/// One finished column of a schema-typed table.
#[derive(Debug, Clone, PartialEq, Eq)]
pub struct SchemaColumn {
    pub name: String,
    pub data: ColumnData,
}

/// The data of one finished column: cells for a text column, one list of
/// values per row for a list column.
#[derive(Debug, Clone, PartialEq, Eq)]
pub enum ColumnData {
    Text(Vec<Option<String>>),
    TextList(Vec<Vec<String>>),
}

/// A finished schema-typed table: columns in declaration order.
#[derive(Debug, Clone, PartialEq, Eq)]
pub struct SchemaTable {
    pub columns: Vec<SchemaColumn>,
}

/// The rows a list column's values buffer and offsets describe.
pub open spec fn list_rows(values: Seq<Seq<char>>, offsets: Seq<int>) -> Seq<Seq<Seq<char>>> {
    Seq::new((offsets.len() - 1) as nat, |r: int| values.subrange(offsets[r], offsets[r + 1]))
}

/// Schema-typed consumer of parse events.
pub struct SchemaBuilder {
    cols: Vec<ColAcc>,
    scratch: Vec<(usize, String)>,
    row_count: usize,
    error: Option<(String, usize)>,
    decl: Ghost<Seq<(Seq<char>, bool)>>,
    log: Ghost<Seq<Event>>,
}

impl SchemaBuilder {
    /// The declaration this builder was constructed from.
    pub open spec fn decl(&self) -> Seq<(Seq<char>, bool)> {
        self.config()
    }

    /// Build the accumulators for a schema; fails with `UnsupportedType`
    /// naming the first column whose type is outside `Text`/`TextList`,
    /// before any parsing begins.
    pub fn new(schema: &Vec<(String, ColumnType)>) -> (r: Result<SchemaBuilder, RpslError>)
        ensures
            match r {
                Ok(b) => (forall|i: int|
                    0 <= i < schema@.len() ==> !((#[trigger] schema@[i]).1 is Other)) && b.wf()
                    && b.events() == Seq::<Event>::empty() && b.decl() == schema_decl(schema@),
                Err(e) => exists|i: int|
                    {
                        &&& 0 <= i < schema@.len()
                        &&& (#[trigger] schema@[i]).1 is Other
                        &&& (forall|k: int| 0 <= k < i ==> !((#[trigger] schema@[k]).1 is Other))
                        &&& e matches RpslError::UnsupportedType { column, dtype } && column@
                            == schema@[i].0@ && (schema@[i].1 matches ColumnType::Other(d)
                            && dtype@ == d@)
                    },
            },
    {
        let ghost decl = schema_decl(schema@);
        let n = schema.len();
        let mut cols: Vec<ColAcc> = Vec::new();
        let mut i: usize = 0;
        while i < n
            invariant
                i <= n,
                n == schema@.len(),
                decl == schema@.map_values(|p: (String, ColumnType)| (p.0@, p.1 is TextList)),
                cols@.len() == i,
                forall|k: int| 0 <= k < i ==> !((#[trigger] schema@[k]).1 is Other),
                forall|k: int|
                    0 <= k < i ==> #[trigger] cols_view(cols@)[k] == schema_init(decl).cols[k],
            decreases n - i,
        {
            let ghost pre_cols = cols@;
            let name = &schema[i].0;
            match &schema[i].1 {
                ColumnType::Text => {
                    let c = ColAcc {
                        name: name.clone(),
                        is_list: false,
                        cells: Vec::new(),
                        values: Vec::new(),
                        offsets: Vec::new(),
                    };
                    proof {
                        assert(col_view(c).cells =~= Seq::<Option<Seq<char>>>::empty());
                        assert(col_view(c).values =~= Seq::<Seq<char>>::empty());
                        assert(col_view(c).offsets =~= Seq::<int>::empty());
                    }
                    cols.push(c);
                },
                ColumnType::TextList => {
                    let mut offsets: Vec<usize> = Vec::new();
                    offsets.push(0);
                    let c = ColAcc {
                        name: name.clone(),
                        is_list: true,
                        cells: Vec::new(),
                        values: Vec::new(),
                        offsets,
                    };
                    proof {
                        assert(col_view(c).cells =~= Seq::<Option<Seq<char>>>::empty());
                        assert(col_view(c).values =~= Seq::<Seq<char>>::empty());
                        assert(col_view(c).offsets =~= seq![0int]);
                    }
                    cols.push(c);
                },
                ColumnType::Other(d) => {
                    return Err(
                        RpslError::UnsupportedType { column: name.clone(), dtype: d.clone() },
                    );
                },
            }
            proof {
                assert(decl[i as int] == (schema@[i as int].0@, schema@[i as int].1 is TextList));
                assert forall|k: int| 0 <= k <= i implies #[trigger] cols_view(cols@)[k]
                    == schema_init(decl).cols[k] by {
                    if k < i {
                        assert(cols@[k] == pre_cols[k]);
                        assert(cols_view(pre_cols)[k] == col_view(pre_cols[k]));
                    } else {
                        assert(cols_view(cols@)[k] == col_view(cols@[k]));
                    }
                }
            }
            i = i + 1;
        }
        let b = SchemaBuilder {
            cols,
            scratch: Vec::new(),
            row_count: 0,
            error: None,
            decl: Ghost(decl),
            log: Ghost(Seq::empty()),
        };
        proof {
            assert(cols_view(b.cols@) =~= schema_init(decl).cols);
            assert(scratch_view(b.scratch@) =~= Seq::<(int, Seq<char>)>::empty());
        }
        Ok(b)
    }

    /// Assemble the table, columns in declaration order; a latched
    /// duplicate-value error is returned instead and discards the table.
    #[verifier::loop_isolation(false)]
    pub fn build(self) -> (r: Result<SchemaTable, RpslError>)
        requires
            self.wf(),
        ensures
            ({
                let s = schema_fold(self.decl(), self.events());
                match s.err {
                    Some(e) => r matches Err(RpslError::DuplicateSingleValue { attr, row })
                        && attr@ == e.0 && row as int == e.1,
                    None => r matches Ok(t) && t.columns@.len() == s.cols.len() && (forall|i: int|
                        0 <= i < s.cols.len() ==> {
                            let c = #[trigger] s.cols[i];
                            let tc = t.columns@[i];
                            &&& tc.name@ == c.name
                            &&& (!c.is_list ==> (tc.data matches ColumnData::Text(cells)
                                && cells@.map_values(|o: Option<String>| opt_view(o)) == c.cells))
                            &&& (c.is_list ==> (tc.data matches ColumnData::TextList(rows)
                                && rows@.map_values(
                                |v: Vec<String>| v@.map_values(|x: String| x@),
                            ) == list_rows(c.values, c.offsets)))
                        }),
                }
            }),
    {
        proof {
            lemma_schema_fold_inv(self.decl@, self.log@);
        }
        let ghost s = schema_fold(self.decl@, self.log@);
        match self.error {
            Some(e) => Err(RpslError::DuplicateSingleValue { attr: e.0, row: e.1 }),
            None => {
                let mut cols = self.cols;
                let n = cols.len();
                let mut columns: Vec<SchemaColumn> = Vec::new();
                let mut i: usize = 0;
                while i < n
                    invariant
                        i <= n,
                        cols@.len() == n - i,
                        forall|k: int|
                            0 <= k < n - i ==> #[trigger] cols_view(cols@)[k] == s.cols[k + i],
                        columns@.len() == i,
                        forall|k: int|
                            0 <= k < i ==> {
                                let c = #[trigger] s.cols[k];
                                let tc = columns@[k];
                                &&& tc.name@ == c.name
                                &&& (!c.is_list ==> (tc.data matches ColumnData::Text(cells)
                                    && cells@.map_values(|o: Option<String>| opt_view(o))
                                    == c.cells))
                                &&& (c.is_list ==> (tc.data matches ColumnData::TextList(rows)
                                    && rows@.map_values(
                                    |v: Vec<String>| v@.map_values(|x: String| x@),
                                ) == list_rows(c.values, c.offsets)))
                            },
                    decreases n - i,
                {
                    let ghost pre = cols@;
                    let c = cols.remove(0);
                    proof {
                        assert(col_view(c) == cols_view(pre)[0]);
                        assert(cols@ =~= pre.remove(0));
                        assert forall|k: int| 0 <= k < n - i - 1 implies #[trigger] cols_view(
                            cols@,
                        )[k] == s.cols[k + i + 1] by {
                            assert(cols@[k] == pre[k + 1]);
                            assert(cols_view(cols@)[k] == col_view(cols@[k]));
                            assert(cols_view(pre)[k + 1] == col_view(pre[k + 1]));
                            assert(cols_view(pre)[k + 1] == s.cols[k + 1 + i]);
                        }
                        assert(col_view(c) == s.cols[i as int]);
                    }
                    if !c.is_list {
                        columns.push(SchemaColumn { name: c.name, data: ColumnData::Text(c.cells) });
                    } else {
                        proof {
                            assert(col_inv(col_view(c)));
                            assert(col_view(c).offsets.len() == c.offsets@.len());
                        }
                        let nrows = c.offsets.len() - 1;
                        let mut rows: Vec<Vec<String>> = Vec::new();
                        let mut r: usize = 0;
                        while r < nrows
                            invariant
                                r <= nrows,
                                nrows + 1 == c.offsets@.len(),
                                rows@.len() == r,
                                forall|k: int|
                                    0 <= k < r ==> (#[trigger] rows@[k])@.map_values(
                                        |x: String| x@,
                                    ) == list_rows(col_view(c).values, col_view(c).offsets)[k],
                            decreases nrows - r,
                        {
                            let lo = c.offsets[r];
                            let hi = c.offsets[r + 1];
                            proof {
                                assert(lo as int == col_view(c).offsets[r as int]);
                                assert(hi as int == col_view(c).offsets[r as int + 1]);
                                assert(col_view(c).values.len() == c.values@.len());
                                assert(lo <= hi && hi as int <= col_view(c).values.len());
                            }
                            let mut row: Vec<String> = Vec::new();
                            let mut t = lo;
                            while t < hi
                                invariant
                                    lo <= t <= hi,
                                    hi <= c.values@.len(),
                                    lo == col_view(c).offsets[r as int],
                                    hi == col_view(c).offsets[r as int + 1],
                                    row@.len() == t - lo,
                                    forall|q: int|
                                        0 <= q < t - lo ==> (#[trigger] row@[q])@ == col_view(
                                            c,
                                        ).values[lo + q],
                                decreases hi - t,
                            {
                                row.push(c.values[t].clone());
                                t = t + 1;
                            }
                            proof {
                                assert(row@.map_values(|x: String| x@) =~= list_rows(
                                    col_view(c).values,
                                    col_view(c).offsets,
                                )[r as int]);
                            }
                            rows.push(row);
                            r = r + 1;
                        }
                        columns.push(
                            SchemaColumn { name: c.name, data: ColumnData::TextList(rows) },
                        );
                    }
                    i = i + 1;
                }
                Ok(SchemaTable { columns })
            },
        }
    }
}

impl Callbacks for SchemaBuilder {
    type Config = Seq<(Seq<char>, bool)>;

    closed spec fn config(&self) -> Seq<(Seq<char>, bool)> {
        self.decl@
    }

    /// The state is exactly the fold of the event log for the
    /// declaration.
    closed spec fn wf(&self) -> bool {
        let s = schema_fold(self.decl@, self.log@);
        &&& cols_view(self.cols@) == s.cols
        &&& scratch_view(self.scratch@) == s.scratch
        &&& self.row_count as int == s.row_count
        &&& err_view(self.error) == s.err
    }

    closed spec fn events(&self) -> Seq<Event> {
        self.log@
    }

    fn start_object(&mut self) {
        proof {
            lemma_schema_fold_push(self.decl@, self.log@, Event::Start);
        }
        self.scratch.clear();
        self.log = Ghost(self.log@.push(Event::Start));
        proof {
            assert(scratch_view(self.scratch@) =~= Seq::<(int, Seq<char>)>::empty());
        }
    }

    #[verifier::loop_isolation(false)]
    fn attribute(&mut self, name: &[u8], value: &[u8]) {
        proof {
            lemma_schema_fold_push(
                self.decl@,
                self.log@,
                Event::Attribute { name: name@, value: value@ },
            );
        }
        let ghost s = schema_fold(self.decl@, self.log@);
        if self.error.is_some() {
            self.log = Ghost(self.log@.push(Event::Attribute { name: name@, value: value@ }));
            return ;
        }
        let text = to_text(name);
        let n = self.cols.len();
        let mut k: usize = 0;
        let mut found: Option<usize> = None;
        while k < n && found.is_none()
            invariant
                k <= n,
                n == self.cols@.len(),
                cols_view(self.cols@) == s.cols,
                text@ == lossy_of(name@),
                match found {
                    None => match_col(s.cols, lossy_of(name@), 0) == match_col(
                        s.cols,
                        lossy_of(name@),
                        k as int,
                    ),
                    Some(j) => match_col(s.cols, lossy_of(name@), 0) == Some(j as int) && j < n,
                },
            decreases n - k, (if found is None {
                1int
            } else {
                0int
            }),
        {
            proof {
                assert(s.cols[k as int] == cols_view(self.cols@)[k as int]);
            }
            if text == self.cols[k].name {
                found = Some(k);
            } else {
                k = k + 1;
            }
        }
        match found {
            None => {
                self.log = Ghost(self.log@.push(Event::Attribute { name: name@, value: value@ }));
            },
            Some(j) => {
                let ghost old_scratch = scratch_view(self.scratch@);
                self.scratch.push((j, to_text(value)));
                self.log = Ghost(self.log@.push(Event::Attribute { name: name@, value: value@ }));
                proof {
                    assert(scratch_view(self.scratch@) =~= old_scratch.push(
                        (j as int, lossy_of(value@)),
                    ));
                }
            },
        }
    }

    #[verifier::loop_isolation(false)]
    fn end_object(&mut self) {
        proof {
            lemma_schema_fold_push(self.decl@, self.log@, Event::End);
            lemma_schema_fold_inv(self.decl@, self.log@);
        }
        let ghost s = schema_fold(self.decl@, self.log@);
        if self.error.is_some() {
            self.log = Ghost(self.log@.push(Event::End));
            return ;
        }
        let ghost scr = scratch_view(self.scratch@);
        let n = self.cols.len();
        let ghost mut mcols = s.cols;
        let mut latched: Option<(String, usize)> = None;
        let mut j: usize = 0;
        while j < n
            invariant
                j <= n,
                self.cols@.len() == n,
                mcols.len() == n,
                self.log@ == old(self).log@,
                self.decl@ == old(self).decl@,
                self.error is None,
                self.row_count == old(self).row_count,
                scr == scratch_view(self.scratch@),
                cols_view(self.cols@) == mcols.subrange(j as int, n as int) + mcols.subrange(
                    0,
                    j as int,
                ),
                match latched {
                    None => schema_end_cols(s.cols, scr, s.row_count, 0) == schema_end_cols(
                        mcols,
                        scr,
                        s.row_count,
                        j as int,
                    ),
                    Some(p) => schema_end_cols(s.cols, scr, s.row_count, 0) == (
                        mcols,
                        Some((p.0@, p.1 as int)),
                    ) && p.1 == self.row_count,
                },
            decreases n - j,
        {
            let ghost pre = self.cols@;
            let ghost mcols0 = mcols;
            let mut c = self.cols.remove(0);
            proof {
                assert(col_view(c) == cols_view(pre)[0]);
                assert(col_view(c) == mcols[j as int]);
            }
            let ghost cv = col_view(c);
            if latched.is_none() {
                let ghost vs = scratch_values(scr, j as int);
                let m = self.scratch.len();
                if c.is_list {
                    let mut t: usize = 0;
                    proof {
                        assert(scr.take(0) =~= Seq::<(int, Seq<char>)>::empty());
                        assert(col_view(c).values =~= cv.values + scratch_values(
                            scr.take(0),
                            j as int,
                        ));
                    }
                    while t < m
                        invariant
                            t <= m,
                            m == self.scratch@.len(),
                            c.name@ == cv.name,
                            c.is_list == cv.is_list,
                            col_view(c).cells == cv.cells,
                            col_view(c).offsets == cv.offsets,
                            col_view(c).values == cv.values + scratch_values(
                                scr.take(t as int),
                                j as int,
                            ),
                        decreases m - t,
                    {
                        let ghost vals0 = col_view(c).values;
                        let matched = self.scratch[t].0 == j;
                        if matched {
                            let v = self.scratch[t].1.clone();
                            c.values.push(v);
                        }
                        proof {
                            assert(scr.take(t as int + 1).drop_last() =~= scr.take(t as int));
                            assert(scr.take(t as int + 1).last() == scr[t as int]);
                            if matched {
                                assert(col_view(c).values =~= vals0 + seq![scr[t as int].1]);
                                assert(cv.values + scratch_values(scr.take(t as int + 1), j as int)
                                    =~= vals0 + seq![scr[t as int].1]);
                            } else {
                                assert(cv.values + scratch_values(scr.take(t as int + 1), j as int)
                                    =~= vals0);
                            }
                        }
                        t = t + 1;
                    }
                    proof {
                        assert(scr.take(m as int) =~= scr);
                    }
                    let len = c.values.len();
                    let ghost vals1 = col_view(c).values;
                    c.offsets.push(len);
                    proof {
                        assert(col_view(c).offsets =~= cv.offsets.push(vals1.len() as int));
                        assert(col_view(c) == ColModel {
                            values: cv.values + vs,
                            offsets: cv.offsets.push((cv.values + vs).len() as int),
                            ..cv
                        });
                        mcols = mcols.update(j as int, col_view(c));
                    }
                } else {
                    let mut count: usize = 0;
                    let mut first: Option<String> = None;
                    let mut t: usize = 0;
                    proof {
                        assert(scr.take(0) =~= Seq::<(int, Seq<char>)>::empty());
                    }
                    while t < m
                        invariant
                            t <= m,
                            m == self.scratch@.len(),
                            count == scratch_values(scr.take(t as int), j as int).len(),
                            count <= t,
                            match first {
                                None => count == 0,
                                Some(f) => count >= 1 && f@ == scratch_values(
                                    scr.take(t as int),
                                    j as int,
                                )[0],
                            },
                        decreases m - t,
                    {
                        let ghost part0 = scratch_values(scr.take(t as int), j as int);
                        let matched = self.scratch[t].0 == j;
                        if matched {
                            if first.is_none() {
                                first = Some(self.scratch[t].1.clone());
                            }
                            count = count + 1;
                        }
                        proof {
                            assert(scr.take(t as int + 1).drop_last() =~= scr.take(t as int));
                            assert(scr.take(t as int + 1).last() == scr[t as int]);
                            if matched {
                                assert(scratch_values(scr.take(t as int + 1), j as int) =~= part0
                                    + seq![scr[t as int].1]);
                            } else {
                                assert(scratch_values(scr.take(t as int + 1), j as int) =~= part0);
                            }
                        }
                        t = t + 1;
                    }
                    proof {
                        assert(scr.take(m as int) =~= scr);
                    }
                    if count == 0 {
                        let ghost cells0 = col_view(c).cells;
                        c.cells.push(None);
                        proof {
                            assert(col_view(c).cells =~= cv.cells.push(None));
                            assert(col_view(c) == ColModel { cells: cv.cells.push(None), ..cv });
                            mcols = mcols.update(j as int, col_view(c));
                        }
                    } else if count == 1 {
                        match first {
                            Some(f) => {
                                let ghost fv = f@;
                                c.cells.push(Some(f));
                                proof {
                                    assert(col_view(c).cells =~= cv.cells.push(Some(vs[0])));
                                    assert(col_view(c) == ColModel {
                                        cells: cv.cells.push(Some(vs[0])),
                                        ..cv
                                    });
                                    mcols = mcols.update(j as int, col_view(c));
                                }
                            },
                            None => {
                                proof {
                                    assert(false);
                                }
                            },
                        }
                    } else {
                        latched = Some((c.name.clone(), self.row_count));
                        proof {
                            assert(schema_end_cols(mcols, scr, s.row_count, j as int) == (
                                mcols,
                                Some((cv.name, s.row_count)),
                            ));
                        }
                    }
                }
            }
            self.cols.push(c);
            proof {
                assert(mcols[j as int] == col_view(c));
                assert(self.cols@ =~= pre.remove(0).push(c));
                assert forall|k: int|
                    0 <= k < n implies #[trigger] cols_view(self.cols@)[k] == (mcols.subrange(
                    j as int + 1,
                    n as int,
                ) + mcols.subrange(0, j as int + 1))[k] by {
                    assert(cols_view(self.cols@)[k] == col_view(self.cols@[k]));
                    if k < n - 1 {
                        assert(self.cols@[k] == pre[k + 1]);
                        assert(cols_view(pre)[k + 1] == col_view(pre[k + 1]));
                        assert(cols_view(pre)[k + 1] == (mcols0.subrange(j as int, n as int)
                            + mcols0.subrange(0, j as int))[k + 1]);
                    } else {
                        assert(self.cols@[k] == c);
                    }
                }
                assert(cols_view(self.cols@) =~= mcols.subrange(j as int + 1, n as int)
                    + mcols.subrange(0, j as int + 1));
            }
            j = j + 1;
        }
        proof {
            assert(mcols.subrange(n as int, n as int) =~= Seq::<ColModel>::empty());
            assert(cols_view(self.cols@) =~= mcols);
        }
        match latched {
            Some(p) => {
                self.error = Some(p);
            },
            None => {
                if self.row_count < usize::MAX {
                    self.row_count = self.row_count + 1;
                }
            },
        }
        self.log = Ghost(self.log@.push(Event::End));
    }
}

} // verus!
