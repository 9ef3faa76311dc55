//! The two passes over a table: statistics and schema.
//!
//! A pass is made from the header, takes the rows one by one and is
//! finished at the end; what it hands back is said of the rows that it has
//! taken. `run_summary` and `run_schema` do the same for rows that are all
//! at hand.

use vstd::prelude::*;
use crate::cli::{parse_columns, selection, tells, Cli, SummaryArgs, Trouble};
use crate::csv_reader::CsvOptions;
use crate::error::CsvpeekError;
use crate::filter::{holds, Filter, Formula};
use crate::parser::{parsed, reports, Failure};
use crate::record::{cell, column_of, field_names, fields_of, rows_of};
use crate::schema::{observe, observed, outline, SchemaInferrer};
use crate::stats::{absorb, picked, running, summary, StatsCollector};
use crate::text::{eq_ignore_case, is_word, to_chars};
use crate::types::{ColumnSchema, ColumnStats};

verus! {

/// The delimiter that a word or a character names: `tab`, `comma`,
/// `semicolon`, `pipe` and `space` in any case, or the character itself;
/// of any other text its first byte, and a comma where the text is empty.
pub open spec fn delimiter_of(s: Seq<char>) -> u8 {
    if eq_ignore_case(s, "tab"@) || eq_ignore_case(s, "\\t"@) || eq_ignore_case(s, "\t"@) {
        9
    } else if eq_ignore_case(s, "comma"@) || eq_ignore_case(s, ","@) {
        44
    } else if eq_ignore_case(s, "semicolon"@) || eq_ignore_case(s, ";"@) {
        59
    } else if eq_ignore_case(s, "pipe"@) || eq_ignore_case(s, "|"@) {
        124
    } else if eq_ignore_case(s, "space"@) || eq_ignore_case(s, " "@) {
        32
    } else {
        let bytes = vstd::utf8::encode_utf8(s);
        if bytes.len() > 0 {
            bytes[0]
        } else {
            44
        }
    }
}

/// Reads the name of a delimiter.
pub fn parse_delimiter(s: &str) -> (r: u8)
    ensures
        r == delimiter_of(s@),
{
    let chars = to_chars(s);
    let w = chars.as_slice();
    if is_word(w, "tab") || is_word(w, "\\t") || is_word(w, "\t") {
        9
    } else if is_word(w, "comma") || is_word(w, ",") {
        44
    } else if is_word(w, "semicolon") || is_word(w, ";") {
        59
    } else if is_word(w, "pipe") || is_word(w, "|") {
        124
    } else if is_word(w, "space") || is_word(w, " ") {
        32
    } else {
        let bytes = s.as_bytes();
        if bytes.len() > 0 {
            bytes[0]
        } else {
            44
        }
    }
}

/// The options of the reader that the arguments ask for.
pub fn build_csv_options(cli: &Cli) -> (r: CsvOptions)
    ensures
        r.delimiter == delimiter_of(cli.delimiter@),
        r.no_header == cli.no_header,
        r.encoding == cli.encoding,
{
    let delimiter = parse_delimiter(cli.delimiter.as_str());
    CsvOptions::new().with_delimiter(delimiter).with_no_header(cli.no_header).with_encoding(
        cli.encoding.clone(),
    )
}

/// The rows that satisfy a formula, in their order.
pub open spec fn passing(rows: Seq<Seq<Seq<char>>>, f: Formula) -> Seq<Seq<Seq<char>>>
    decreases rows.len(),
{
    if rows.len() == 0 {
        Seq::empty()
    } else {
        let before = passing(rows.drop_last(), f);
        if holds(f, rows.last()) {
            before.push(rows.last())
        } else {
            before
        }
    }
}

/// The rows that are kept: all of them where there is no filter.
pub open spec fn kept(rows: Seq<Seq<Seq<char>>>, f: Option<Formula>) -> Seq<Seq<Seq<char>>> {
    match f {
        Some(x) => passing(rows, x),
        None => rows,
    }
}

/// The formula of an optional filter.
pub open spec fn formula_of(filter: Option<Filter>) -> Option<Formula> {
    match filter {
        Some(x) => Some(x@),
        None => None,
    }
}

/// What a summary reports: the number of rows, the number of rows that
/// passed the filter, and the statistics of the target columns.
#[derive(Debug)]
pub struct SummaryReport {
    pub total_rows: u64,
    pub matched_rows: u64,
    pub stats: Vec<ColumnStats>,
}

/// The names of the columns that a summary is asked for: those that the
/// selection names, or all where there is no selection.
pub open spec fn chosen(cols: Option<String>, header: Seq<Seq<char>>) -> Result<
    Seq<Seq<char>>,
    Trouble,
> {
    match cols {
        Some(c) => selection(c@, header),
        None => Ok(header),
    }
}

/// The formula of the filter that a summary is asked for, if it is asked
/// for one.
pub open spec fn compiled(where_clause: Option<String>, header: Seq<Seq<char>>) -> Result<
    Option<Formula>,
    Failure,
> {
    match where_clause {
        Some(w) => match parsed(w@, header) {
            Ok(f) => Ok(Some(f)),
            Err(x) => Err(x),
        },
        None => Ok(None),
    }
}

/// What a summary reports of the rows taken, for the columns followed and
/// the rows kept.
pub open spec fn is_summary_of(
    report: SummaryReport,
    rows: Seq<Seq<Seq<char>>>,
    f: Option<Formula>,
    followed: Seq<(Seq<char>, int)>,
) -> bool {
    &&& report.total_rows == rows.len()
    &&& report.matched_rows == kept(rows, f).len()
    &&& report.stats@.len() == followed.len()
    &&& forall|i: int|
        0 <= i < followed.len() ==> (#[trigger] report.stats@[i])@ == summary(
            followed[i].0,
            running(column_of(kept(rows, f), followed[i].1)),
        )
}

/// What a schema reports of the rows taken.
pub open spec fn is_schema_of(
    schema: Seq<ColumnSchema>,
    rows: Seq<Seq<Seq<char>>>,
    header: Seq<Seq<char>>,
) -> bool {
    &&& schema.len() == header.len()
    &&& forall|i: int|
        0 <= i < schema.len() ==> (#[trigger] schema[i])@ == outline(
            header[i],
            observed(column_of(rows, i)),
        )
}

proof fn lemma_running_push(cells: Seq<Seq<char>>, c: Seq<char>)
    ensures
        running(cells.push(c)) == absorb(running(cells), c),
{
    assert(cells.push(c).drop_last() =~= cells);
}

proof fn lemma_observed_push(cells: Seq<Seq<char>>, c: Seq<char>)
    ensures
        observed(cells.push(c)) == observe(observed(cells), c),
{
    assert(cells.push(c).drop_last() =~= cells);
}

proof fn lemma_column_push(rows: Seq<Seq<Seq<char>>>, row: Seq<Seq<char>>, i: int)
    ensures
        column_of(rows.push(row), i) == column_of(rows, i).push(cell(row, i)),
{
    assert(column_of(rows.push(row), i) =~= column_of(rows, i).push(cell(row, i)));
}

proof fn lemma_kept_push(rows: Seq<Seq<Seq<char>>>, f: Option<Formula>, row: Seq<Seq<char>>)
    ensures
        kept(rows.push(row), f) == if f is None || holds(f.unwrap(), row) {
            kept(rows, f).push(row)
        } else {
            kept(rows, f)
        },
{
    assert(rows.push(row).drop_last() =~= rows);
}

proof fn lemma_kept_len(rows: Seq<Seq<Seq<char>>>, f: Option<Formula>)
    ensures
        kept(rows, f).len() <= rows.len(),
    decreases rows.len(),
{
    if rows.len() > 0 && f is Some {
        lemma_kept_len(rows.drop_last(), f);
    }
}

/// A summary in the making: the filter, the statistics of the target
/// columns, and the count of the rows.
pub struct SummaryPass {
    filter: Option<Filter>,
    collector: StatsCollector,
    total_rows: u64,
    matched_rows: u64,
    rows: Ghost<Seq<Seq<Seq<char>>>>,
}

impl SummaryPass {
    /// The rows taken so far.
    pub closed spec fn rows(&self) -> Seq<Seq<Seq<char>>> {
        self.rows@
    }

    /// The formula of the filter, if there is one.
    pub closed spec fn formula(&self) -> Option<Formula> {
        formula_of(self.filter)
    }

    /// The columns that are followed: the name and the place of each.
    pub closed spec fn targets(&self) -> Seq<(Seq<char>, int)> {
        self.collector.targets()
    }

    #[verifier::type_invariant]
    spec fn inv(&self) -> bool {
        let taken = kept(self.rows@, formula_of(self.filter));
        &&& self.collector.wf()
        &&& self.collector.states().len() == self.collector.targets().len()
        &&& self.total_rows == self.rows@.len()
        &&& self.matched_rows == taken.len()
        &&& self.collector.rows() == self.matched_rows
        &&& forall|i: int|
            0 <= i < self.collector.targets().len() ==> #[trigger] self.collector.states()[i]
                == running(column_of(taken, self.collector.targets()[i].1))
    }

    /// Sets a summary up: the selection of columns is read first, then the
    /// filter, both against the header; where no columns are selected all
    /// are taken. No row has been taken.
    pub fn new(args: &SummaryArgs, headers: &csv::StringRecord) -> (r: Result<
        SummaryPass,
        CsvpeekError,
    >)
        ensures
            match chosen(args.cols, fields_of(*headers)) {
                Err(t) => r matches Err(e) && tells(e, t),
                Ok(names) => match compiled(args.where_clause, fields_of(*headers)) {
                    Err(x) => r matches Err(e) && reports(e, x),
                    Ok(f) => r matches Ok(p) && p.rows() == Seq::<Seq<Seq<char>>>::empty()
                        && p.formula() == f && p.targets() == picked(names, fields_of(*headers)),
                },
            },
    {
        let target_cols = match &args.cols {
            Some(c) => match parse_columns(c.as_str(), headers) {
                Err(e) => {
                    return Err(e);
                },
                Ok(v) => v,
            },
            None => field_names(headers),
        };
        let filter = match &args.where_clause {
            Some(w) => match Filter::parse(w.as_str(), headers) {
                Err(e) => {
                    return Err(e);
                },
                Ok(f) => Some(f),
            },
            None => None,
        };
        let collector = StatsCollector::new(target_cols.as_slice(), headers);
        let ghost none = Seq::<Seq<Seq<char>>>::empty();
        proof {
            let taken = kept(none, formula_of(filter));
            assert(taken =~= none);
            assert forall|i: int| 0 <= i < collector.targets().len() implies #[trigger] collector.states()[i]
                == running(column_of(taken, collector.targets()[i].1)) by {
                assert(column_of(taken, collector.targets()[i].1) =~= Seq::empty());
            }
        }
        Ok(SummaryPass { filter, collector, total_rows: 0, matched_rows: 0, rows: Ghost(none) })
    }

    /// Whether the pass has taken as many rows as it can count.
    pub fn is_full(&self) -> (r: bool)
        ensures
            r == (self.rows().len() >= u64::MAX),
    {
        proof {
            use_type_invariant(self);
        }
        self.total_rows == u64::MAX
    }

    /// Takes one more row: it is counted, and where it passes the filter
    /// each target column takes its cell. A pass that is full takes no row.
    pub fn add_record(self, record: &csv::StringRecord) -> (r: SummaryPass)
        ensures
            r.formula() == self.formula(),
            r.targets() == self.targets(),
            r.rows() == if self.rows().len() < u64::MAX {
                self.rows().push(fields_of(*record))
            } else {
                self.rows()
            },
    {
        proof {
            use_type_invariant(&self);
        }
        if self.total_rows == u64::MAX {
            return self;
        }
        let ghost f = formula_of(self.filter);
        let ghost before = self.rows@;
        let ghost taken = kept(before, f);
        let ghost row = fields_of(*record);
        let ghost followed = self.collector.targets();
        let ghost old_states = self.collector.states();
        let filter = self.filter;
        let mut collector = self.collector;
        let mut matched_rows = self.matched_rows;
        proof {
            lemma_kept_push(before, f, row);
            lemma_kept_len(before, f);
        }
        let passes = match &filter {
            Some(x) => match x.matches(record, record) {
                Ok(b) => b,
                Err(_) => false,
            },
            None => true,
        };
        if passes {
            let _ = collector.add_record(record, record);
            matched_rows = matched_rows + 1;
            proof {
                assert forall|i: int| 0 <= i < followed.len() implies #[trigger] collector.states()[i]
                    == running(column_of(taken.push(row), followed[i].1)) by {
                    lemma_column_push(taken, row, followed[i].1);
                    lemma_running_push(column_of(taken, followed[i].1), cell(row, followed[i].1));
                    assert(old_states[i] == running(column_of(taken, followed[i].1)));
                }
            }
        }
        SummaryPass {
            filter,
            collector,
            total_rows: self.total_rows + 1,
            matched_rows,
            rows: Ghost(before.push(row)),
        }
    }

    /// The summary of the rows taken.
    pub fn finish(self) -> (r: SummaryReport)
        ensures
            is_summary_of(r, self.rows(), self.formula(), self.targets()),
    {
        proof {
            use_type_invariant(&self);
        }
        let stats = self.collector.finalize();
        SummaryReport { total_rows: self.total_rows, matched_rows: self.matched_rows, stats }
    }
}

/// Gathers the statistics of the target columns over the rows that pass the
/// filter. The selection of columns is read first, then the filter; where
/// no columns are selected all are taken.
pub fn run_summary(args: &SummaryArgs, headers: &csv::StringRecord, records: &[csv::StringRecord]) -> (r:
    Result<SummaryReport, CsvpeekError>)
    ensures
        match chosen(args.cols, fields_of(*headers)) {
            Err(t) => r matches Err(e) && tells(e, t),
            Ok(names) => match compiled(args.where_clause, fields_of(*headers)) {
                Err(x) => r matches Err(e) && reports(e, x),
                Ok(f) => r matches Ok(report) && is_summary_of(
                    report,
                    rows_of(records@),
                    f,
                    picked(names, fields_of(*headers)),
                ),
            },
        },
{
    let mut pass = match SummaryPass::new(args, headers) {
        Err(e) => {
            return Err(e);
        },
        Ok(p) => p,
    };
    let ghost rows = rows_of(records@);
    let ghost f = pass.formula();
    let ghost followed = pass.targets();
    let n: usize = records.len();
    let mut k: usize = 0;
    assert(rows.take(0) =~= Seq::empty());
    while k < n
        invariant
            k <= n == records@.len(),
            rows == rows_of(records@),
            pass.formula() == f,
            pass.targets() == followed,
            pass.rows() == rows.take(k as int),
        decreases n - k,
    {
        pass = pass.add_record(&records[k]);
        assert(rows.take(k + 1) =~= rows.take(k as int).push(rows[k as int]));
        k += 1;
    }
    assert(rows.take(n as int) =~= rows);
    Ok(pass.finish())
}

/// A schema in the making.
pub struct SchemaPass {
    inferrer: SchemaInferrer,
    count: u64,
    rows: Ghost<Seq<Seq<Seq<char>>>>,
}

impl SchemaPass {
    /// The rows taken so far.
    pub closed spec fn rows(&self) -> Seq<Seq<Seq<char>>> {
        self.rows@
    }

    /// The names of the columns.
    pub closed spec fn names(&self) -> Seq<Seq<char>> {
        self.inferrer.names()
    }

    #[verifier::type_invariant]
    spec fn inv(&self) -> bool {
        &&& self.inferrer.wf()
        &&& self.inferrer.states().len() == self.inferrer.names().len()
        &&& self.count == self.rows@.len()
        &&& self.inferrer.rows() == self.count
        &&& forall|i: int|
            0 <= i < self.inferrer.names().len() ==> #[trigger] self.inferrer.states()[i]
                == observed(column_of(self.rows@, i))
    }

    /// Sets a schema up with one column for each field of the header. No
    /// row has been taken.
    pub fn new(headers: &csv::StringRecord) -> (r: SchemaPass)
        ensures
            r.rows() == Seq::<Seq<Seq<char>>>::empty(),
            r.names() == fields_of(*headers),
    {
        let inferrer = SchemaInferrer::new(headers);
        let ghost none = Seq::<Seq<Seq<char>>>::empty();
        proof {
            assert forall|i: int| 0 <= i < inferrer.names().len() implies #[trigger] inferrer.states()[i]
                == observed(column_of(none, i)) by {
                assert(column_of(none, i) =~= Seq::empty());
            }
        }
        SchemaPass { inferrer, count: 0, rows: Ghost(none) }
    }

    /// Whether the pass has taken as many rows as it can count.
    pub fn is_full(&self) -> (r: bool)
        ensures
            r == (self.rows().len() >= u64::MAX),
    {
        proof {
            use_type_invariant(self);
        }
        self.count == u64::MAX
    }

    /// Takes one more row: the column at each place takes the cell there. A
    /// pass that is full takes no row.
    pub fn add_record(self, record: &csv::StringRecord) -> (r: SchemaPass)
        ensures
            r.names() == self.names(),
            r.rows() == if self.rows().len() < u64::MAX {
                self.rows().push(fields_of(*record))
            } else {
                self.rows()
            },
    {
        proof {
            use_type_invariant(&self);
        }
        if self.count == u64::MAX {
            return self;
        }
        let ghost before = self.rows@;
        let ghost row = fields_of(*record);
        let ghost names = self.inferrer.names();
        let ghost old_states = self.inferrer.states();
        let mut inferrer = self.inferrer;
        let _ = inferrer.add_record(record);
        proof {
            assert forall|i: int| 0 <= i < names.len() implies #[trigger] inferrer.states()[i]
                == observed(column_of(before.push(row), i)) by {
                lemma_column_push(before, row, i);
                lemma_observed_push(column_of(before, i), cell(row, i));
                assert(old_states[i] == observed(column_of(before, i)));
            }
        }
        SchemaPass { inferrer, count: self.count + 1, rows: Ghost(before.push(row)) }
    }

    /// The schema of the rows taken.
    pub fn finish(self) -> (r: Vec<ColumnSchema>)
        ensures
            is_schema_of(r@, self.rows(), self.names()),
    {
        proof {
            use_type_invariant(&self);
        }
        self.inferrer.finalize()
    }
}

/// Infers the type of every column from all rows.
pub fn run_schema(headers: &csv::StringRecord, records: &[csv::StringRecord]) -> (r: Vec<
    ColumnSchema,
>)
    ensures
        is_schema_of(r@, rows_of(records@), fields_of(*headers)),
{
    let mut pass = SchemaPass::new(headers);
    let ghost rows = rows_of(records@);
    let ghost names = pass.names();
    let n: usize = records.len();
    let mut k: usize = 0;
    assert(rows.take(0) =~= Seq::empty());
    while k < n
        invariant
            k <= n == records@.len(),
            rows == rows_of(records@),
            pass.names() == names,
            pass.rows() == rows.take(k as int),
        decreases n - k,
    {
        pass = pass.add_record(&records[k]);
        assert(rows.take(k + 1) =~= rows.take(k as int).push(rows[k as int]));
        k += 1;
    }
    assert(rows.take(n as int) =~= rows);
    pass.finish()
}

} // verus!
