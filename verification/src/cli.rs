//! The arguments of an invocation, and the selection of columns.
//!
//! A selection is a list parted by commas. Each item is a range of places
//! (`0..5`, `0..=5`), a place counted from zero, or a column name.

use vstd::prelude::*;
use crate::error::{
    find_similar_column, first_equal, lemma_first_equal_stays, similar, ColumnSuggestion,
    CsvpeekError,
};
use crate::number::{parse_usize, usize_of};
use crate::parser::suggested;
use crate::record::{field_names, fields_of, texts};
use crate::text::{find, index_of, push_chars, same, to_chars, to_string, trim, trimmed};

verus! {

/// The arguments of the `guide` command.
#[derive(Debug, Clone, Default)]
pub struct GuideArgs {
    pub topic: Option<String>,
}

/// The arguments of the `summary` command.
#[derive(Debug, Clone, Default)]
pub struct SummaryArgs {
    pub cols: Option<String>,
    pub where_clause: Option<String>,
    pub format: Option<String>,
}

/// The arguments of the `schema` command.
#[derive(Debug, Clone, Default)]
pub struct SchemaArgs {
    pub format: Option<String>,
}

/// The commands.
#[derive(Debug, Clone)]
pub enum Commands {
    Summary(SummaryArgs),
    Schema(SchemaArgs),
    Guide(GuideArgs),
}

/// The arguments that every command shares.
#[derive(Debug, Clone)]
pub struct Cli {
    pub command: Option<Commands>,
    pub file: Option<String>,
    pub delimiter: String,
    pub no_header: bool,
    pub output: Option<String>,
    pub quiet: bool,
    pub color: String,
    pub encoding: Option<String>,
}

/// Why a text selects no columns.
pub ghost enum Trouble {
    NotFound { name: Seq<char>, suggestion: Option<Seq<char>> },
    OutOfRange { index: int, max: int },
    BadStart(Seq<char>),
    BadEnd(Seq<char>),
}

/// Whether an error tells of a trouble.
pub open spec fn tells(e: CsvpeekError, t: Trouble) -> bool {
    match t {
        Trouble::NotFound { name, suggestion } => e matches CsvpeekError::ColumnNotFound {
            name: n,
            suggestion: s,
        } && n@ == name && suggested(s) == suggestion,
        Trouble::OutOfRange { index, max } => e matches CsvpeekError::ColumnIndexOutOfRange {
            index: i,
            max: m,
        } && i == index && m == max,
        Trouble::BadStart(t) => e matches CsvpeekError::InvalidFilter(m) && m@
            == "Invalid range start: "@ + t,
        Trouble::BadEnd(t) => e matches CsvpeekError::InvalidFilter(m) && m@
            == "Invalid range end: "@ + t,
    }
}

/// The greatest place in a header of `n` columns; zero where there is none.
pub open spec fn last_place(n: int) -> int {
    if n > 0 {
        n - 1
    } else {
        0
    }
}

/// The columns at the places from `from` up to, not including, `to`.
pub open spec fn span(header: Seq<Seq<char>>, from: int, to: int) -> Seq<Seq<char>> {
    if 0 <= from <= to <= header.len() {
        header.subrange(from, to)
    } else {
        Seq::empty()
    }
}

/// The two bounds of a range, given the texts before and behind its sign;
/// both are trimmed and read as places.
pub open spec fn bounds(a: Seq<char>, b: Seq<char>) -> Result<(int, int), Trouble> {
    match usize_of(trim(a)) {
        None => Err(Trouble::BadStart(a)),
        Some(start) => match usize_of(trim(b)) {
            None => Err(Trouble::BadEnd(b)),
            Some(end) => Ok((start as int, end as int)),
        },
    }
}

/// The columns that a range selects, if the text is a range: one with
/// `..=` takes its end in, one with `..` leaves it out.
pub open spec fn range_of(s: Seq<char>, header: Seq<Seq<char>>) -> Option<
    Result<Seq<Seq<char>>, Trouble>,
> {
    let n = header.len() as int;
    match index_of(s, "..="@) {
        Some(i) => Some(
            match bounds(s.subrange(0, i), s.subrange(i + 3, s.len() as int)) {
                Err(t) => Err(t),
                Ok((start, end)) => if end >= n {
                    Err(Trouble::OutOfRange { index: end, max: last_place(n) })
                } else {
                    Ok(span(header, start, end + 1))
                },
            },
        ),
        None => match index_of(s, ".."@) {
            Some(i) => Some(
                match bounds(s.subrange(0, i), s.subrange(i + 2, s.len() as int)) {
                    Err(t) => Err(t),
                    Ok((start, end)) => if end > n {
                        Err(Trouble::OutOfRange { index: end - 1, max: last_place(n) })
                    } else {
                        Ok(span(header, start, end))
                    },
                },
            ),
            None => None,
        },
    }
}

/// The columns that one item selects.
pub open spec fn item_of(c: Seq<char>, header: Seq<Seq<char>>) -> Result<Seq<Seq<char>>, Trouble> {
    let n = header.len() as int;
    match range_of(c, header) {
        Some(r) => r,
        None => match usize_of(c) {
            Some(i) => if i < n {
                Ok(seq![header[i as int]])
            } else {
                Err(Trouble::OutOfRange { index: i as int, max: last_place(n) })
            },
            None => if first_equal(c, header, n) is Some {
                Ok(seq![c])
            } else {
                Err(Trouble::NotFound { name: c, suggestion: similar(c, header) })
            },
        },
    }
}

/// The columns that a selection names, item by item; empty items are
/// passed over and the first trouble ends the reading.
pub open spec fn selection(s: Seq<char>, header: Seq<Seq<char>>) -> Result<Seq<Seq<char>>, Trouble>
    decreases s.len(),
{
    let at = index_of(s, ","@);
    let cut = at is Some && 0 <= at.unwrap() < s.len();
    let piece = if cut {
        s.subrange(0, at.unwrap())
    } else {
        s
    };
    let c = trim(piece);
    let here = if c.len() == 0 {
        Ok(Seq::empty())
    } else {
        item_of(c, header)
    };
    match here {
        Err(t) => Err(t),
        Ok(cols) => if cut {
            match selection(s.subrange(at.unwrap() + 1, s.len() as int), header) {
                Err(t) => Err(t),
                Ok(more) => Ok(cols + more),
            }
        } else {
            Ok(cols)
        },
    }
}

fn bad(prefix: &str, t: &[char]) -> (e: CsvpeekError)
    ensures
        e matches CsvpeekError::InvalidFilter(m) && m@ == prefix@ + t@,
{
    let mut m = prefix.to_owned();
    push_chars(&mut m, t);
    CsvpeekError::InvalidFilter(m)
}

fn parse_bounds(a: &[char], b: &[char]) -> (r: Result<(usize, usize), CsvpeekError>)
    ensures
        match bounds(a@, b@) {
            Ok((s, e)) => r matches Ok(p) && p.0 == s && p.1 == e,
            Err(t) => r matches Err(e) && tells(e, t),
        },
{
    match parse_usize(trimmed(a)) {
        None => Err(bad("Invalid range start: ", a)),
        Some(start) => match parse_usize(trimmed(b)) {
            None => Err(bad("Invalid range end: ", b)),
            Some(end) => Ok((start, end)),
        },
    }
}

fn copy_span(headers: &[String], from: usize, to: usize) -> (r: Vec<String>)
    ensures
        texts(r@) == span(texts(headers@), from as int, to as int),
{
    let mut out: Vec<String> = Vec::new();
    if from <= to && to <= headers.len() {
        let mut i: usize = from;
        while i < to
            invariant
                from <= i <= to <= headers@.len(),
                out@.len() == i - from,
                forall|k: int| 0 <= k < out@.len() ==> out@[k]@ == headers@[from + k]@,
            decreases to - i,
        {
            out.push(headers[i].clone());
            i += 1;
        }
        assert(texts(out@) =~= texts(headers@).subrange(from as int, to as int));
    } else {
        assert(texts(out@) =~= Seq::empty());
    }
    out
}

fn last_index(n: usize) -> (r: usize)
    ensures
        r == last_place(n as int),
{
    if n > 0 {
        n - 1
    } else {
        0
    }
}

/// Reads a range of places, or says that the text is none.
pub fn parse_range(s: &[char], headers: &[String]) -> (r: Result<Option<Vec<String>>, CsvpeekError>)
    ensures
        match range_of(s@, texts(headers@)) {
            Some(Ok(cols)) => r matches Ok(Some(v)) && texts(v@) == cols,
            Some(Err(t)) => r matches Err(e) && tells(e, t),
            None => r matches Ok(None),
        },
{
    let n: usize = headers.len();
    let len: usize = s.len();
    proof {
        reveal_strlit("..=");
        reveal_strlit("..");
    }
    let inclusive = to_chars("..=");
    if let Some(i) = find(s, inclusive.as_slice()) {
        let a = vstd::slice::slice_subrange(s, 0, i);
        let b = vstd::slice::slice_subrange(s, i + 3, len);
        return match parse_bounds(a, b) {
            Err(e) => Err(e),
            Ok((start, end)) => {
                if end >= n {
                    Err(CsvpeekError::ColumnIndexOutOfRange { index: end, max: last_index(n) })
                } else {
                    Ok(Some(copy_span(headers, start, end + 1)))
                }
            },
        };
    }
    let exclusive = to_chars("..");
    if let Some(i) = find(s, exclusive.as_slice()) {
        let a = vstd::slice::slice_subrange(s, 0, i);
        let b = vstd::slice::slice_subrange(s, i + 2, len);
        return match parse_bounds(a, b) {
            Err(e) => Err(e),
            Ok((start, end)) => {
                if end > n {
                    Err(CsvpeekError::ColumnIndexOutOfRange { index: end - 1, max: last_index(n) })
                } else {
                    Ok(Some(copy_span(headers, start, end)))
                }
            },
        };
    }
    Ok(None)
}

fn holds_name(c: &[char], headers: &[String]) -> (r: bool)
    ensures
        r == (first_equal(c@, texts(headers@), headers@.len() as int) is Some),
{
    let n: usize = headers.len();
    let mut i: usize = 0;
    while i < n
        invariant
            i <= n == headers@.len(),
            first_equal(c@, texts(headers@), i as int) is None,
        decreases n - i,
    {
        let h = to_chars(headers[i].as_str());
        if same(c, h.as_slice()) {
            proof {
                lemma_first_equal_stays(c@, texts(headers@), i + 1, n as int);
            }
            return true;
        }
        i += 1;
    }
    false
}

/// Reads one item of a selection.
pub fn parse_item(c: &[char], headers: &[String]) -> (r: Result<Vec<String>, CsvpeekError>)
    ensures
        match item_of(c@, texts(headers@)) {
            Ok(cols) => r matches Ok(v) && texts(v@) == cols,
            Err(t) => r matches Err(e) && tells(e, t),
        },
{
    let n: usize = headers.len();
    match parse_range(c, headers) {
        Err(e) => {
            return Err(e);
        },
        Ok(Some(cols)) => {
            return Ok(cols);
        },
        Ok(None) => {},
    }
    if let Some(i) = parse_usize(c) {
        if i < n {
            let mut out: Vec<String> = Vec::new();
            out.push(headers[i].clone());
            assert(texts(out@) =~= seq![texts(headers@)[i as int]]);
            return Ok(out);
        } else {
            return Err(CsvpeekError::ColumnIndexOutOfRange { index: i, max: last_index(n) });
        }
    }
    if holds_name(c, headers) {
        let mut out: Vec<String> = Vec::new();
        out.push(to_string(c));
        assert(texts(out@) =~= seq![c@]);
        Ok(out)
    } else {
        let name = to_string(c);
        let suggestion = match find_similar_column(name.as_str(), headers) {
            Some(s) => Some(ColumnSuggestion { suggested: s }),
            None => None,
        };
        Err(CsvpeekError::ColumnNotFound { name, suggestion })
    }
}

proof fn lemma_texts_append(a: Seq<String>, b: Seq<String>)
    ensures
        texts(a + b) == texts(a) + texts(b),
{
    assert(texts(a + b) =~= texts(a) + texts(b));
}

/// Reads a selection given as characters against a header.
pub fn select_columns(s: &[char], headers: &[String]) -> (r: Result<Vec<String>, CsvpeekError>)
    ensures
        match selection(s@, texts(headers@)) {
            Ok(cols) => r matches Ok(v) && texts(v@) == cols,
            Err(t) => r matches Err(e) && tells(e, t),
        },
    decreases s@.len(),
{
    proof {
        reveal_strlit(",");
    }
    let comma = to_chars(",");
    let at = find(s, comma.as_slice());
    let len: usize = s.len();
    let piece = match at {
        Some(i) => vstd::slice::slice_subrange(s, 0, i),
        None => s,
    };
    let c = trimmed(piece);
    let mut cols: Vec<String> = if c.len() == 0 {
        let v: Vec<String> = Vec::new();
        assert(texts(v@) =~= Seq::empty());
        v
    } else {
        match parse_item(c, headers) {
            Err(e) => {
                return Err(e);
            },
            Ok(v) => v,
        }
    };
    match at {
        None => Ok(cols),
        Some(i) => {
            match select_columns(vstd::slice::slice_subrange(s, i + 1, len), headers) {
                Err(e) => Err(e),
                Ok(more) => {
                    let ghost first = cols@;
                    let mut more = more;
                    let ghost rest = more@;
                    cols.append(&mut more);
                    proof {
                        lemma_texts_append(first, rest);
                    }
                    Ok(cols)
                },
            }
        },
    }
}

/// Reads a selection of columns against the header of a table.
pub fn parse_columns(cols_str: &str, headers: &csv::StringRecord) -> (r: Result<
    Vec<String>,
    CsvpeekError,
>)
    ensures
        match selection(cols_str@, fields_of(*headers)) {
            Ok(cols) => r matches Ok(v) && texts(v@) == cols,
            Err(t) => r matches Err(e) && tells(e, t),
        },
{
    let header = field_names(headers);
    let text = to_chars(cols_str);
    select_columns(text.as_slice(), header.as_slice())
}

} // verus!
