//! Inference of column types.

use vstd::prelude::*;
use crate::error::CsvpeekError;
use crate::record::{cell, field, field_names, fields_of, texts};
use crate::stats::running;
use crate::text::{same, to_chars, to_string, trim, trimmed};
use crate::types::{
    classify, classify_chars, is_null_chars, is_null_text, type_of, ColumnSchema, DataType,
};

verus! {

/// How many sample values are kept of a column.
pub const SAMPLE_LIMIT: usize = 3;

/// What is counted of a column: its cells, the nulls among them, the other
/// cells by their type, and the first few distinct values, trimmed.
pub ghost struct Counts {
    pub total: nat,
    pub nulls: nat,
    pub integers: nat,
    pub floats: nat,
    pub booleans: nat,
    pub strings: nat,
    pub samples: Seq<Seq<char>>,
}

/// The counts before any cell.
pub open spec fn nothing() -> Counts {
    Counts {
        total: 0,
        nulls: 0,
        integers: 0,
        floats: 0,
        booleans: 0,
        strings: 0,
        samples: Seq::empty(),
    }
}

/// The samples after one more value: it is added where it is new and there
/// is room.
pub open spec fn sampled(samples: Seq<Seq<char>>, t: Seq<char>) -> Seq<Seq<char>> {
    if samples.len() < SAMPLE_LIMIT && !samples.contains(t) {
        samples.push(t)
    } else {
        samples
    }
}

/// The counts after one more cell.
pub open spec fn observe(c: Counts, x: Seq<char>) -> Counts {
    if is_null_text(x) {
        Counts { total: c.total + 1, nulls: c.nulls + 1, ..c }
    } else {
        let seen = Counts { total: c.total + 1, samples: sampled(c.samples, trim(x)), ..c };
        match type_of(classify(x)) {
            DataType::Integer => Counts { integers: c.integers + 1, ..seen },
            DataType::Float => Counts { floats: c.floats + 1, ..seen },
            DataType::Boolean => Counts { booleans: c.booleans + 1, ..seen },
            DataType::String => Counts { strings: c.strings + 1, ..seen },
        }
    }
}

/// The counts after a run of cells.
pub open spec fn observed(cells: Seq<Seq<char>>) -> Counts
    decreases cells.len(),
{
    if cells.len() == 0 {
        nothing()
    } else {
        observe(observed(cells.drop_last()), cells.last())
    }
}

/// The type of a column by its counts: `String` where every cell is null;
/// `Integer` where every other cell is a whole number; `Float` where every
/// other cell is a number; `Boolean` where every other cell is a boolean;
/// else `String`.
pub open spec fn inferred(c: Counts) -> DataType {
    let non_null = c.total - c.nulls;
    if non_null == 0 {
        DataType::String
    } else if c.integers == non_null {
        DataType::Integer
    } else if c.integers + c.floats == non_null {
        DataType::Float
    } else if c.booleans == non_null {
        DataType::Boolean
    } else {
        DataType::String
    }
}

/// The counts add up.
pub open spec fn balanced(c: Counts) -> bool {
    c.nulls + c.integers + c.floats + c.booleans + c.strings == c.total
}

/// The counts of a run of cells add up, and the type by counts is the type
/// that promotion cell by cell arrives at.
pub proof fn lemma_inference_agrees(cells: Seq<Seq<char>>)
    ensures
        balanced(observed(cells)),
        running(cells).count == observed(cells).total,
        running(cells).nulls == observed(cells).nulls,
        running(cells).kind == if observed(cells).total == observed(cells).nulls {
            None
        } else {
            Some(inferred(observed(cells)))
        },
    decreases cells.len(),
{
    if cells.len() > 0 {
        lemma_inference_agrees(cells.drop_last());
    }
}

/// The mathematical form of a `ColumnSchema`.
pub ghost struct Outline {
    pub name: Seq<char>,
    pub inferred_type: DataType,
    pub null_count: nat,
    pub total_count: nat,
    pub sample_values: Seq<Seq<char>>,
}

impl View for ColumnSchema {
    type V = Outline;

    open spec fn view(&self) -> Outline {
        Outline {
            name: self.name@,
            inferred_type: self.inferred_type,
            null_count: self.null_count as nat,
            total_count: self.total_count as nat,
            sample_values: texts(self.sample_values@),
        }
    }
}

/// What is reported of a column with the counts `c`.
pub open spec fn outline(name: Seq<char>, c: Counts) -> Outline {
    Outline {
        name,
        inferred_type: inferred(c),
        null_count: c.nulls,
        total_count: c.total,
        sample_values: c.samples,
    }
}

/// The type of one column in the making.
#[derive(Debug)]
pub struct ColumnTypeAccumulator {
    name: String,
    total_count: u64,
    null_count: u64,
    integer_count: u64,
    float_count: u64,
    boolean_count: u64,
    string_count: u64,
    samples: Vec<Vec<char>>,
}

/// The texts of a list of character vectors.
pub open spec fn lines(v: Seq<Vec<char>>) -> Seq<Seq<char>> {
    Seq::new(v.len(), |i: int| v[i]@)
}

impl View for ColumnTypeAccumulator {
    type V = Counts;

    closed spec fn view(&self) -> Counts {
        Counts {
            total: self.total_count as nat,
            nulls: self.null_count as nat,
            integers: self.integer_count as nat,
            floats: self.float_count as nat,
            booleans: self.boolean_count as nat,
            strings: self.string_count as nat,
            samples: lines(self.samples@),
        }
    }
}

fn holds_sample(samples: &Vec<Vec<char>>, t: &[char]) -> (r: bool)
    ensures
        r == lines(samples@).contains(t@),
{
    let mut i: usize = 0;
    while i < samples.len()
        invariant
            i <= samples@.len(),
            forall|k: int| 0 <= k < i ==> lines(samples@)[k] != t@,
        decreases samples@.len() - i,
    {
        if same(t, samples[i].as_slice()) {
            assert(lines(samples@)[i as int] == t@);
            return true;
        }
        i += 1;
    }
    false
}

impl ColumnTypeAccumulator {
    /// The name of the column.
    pub closed spec fn column(&self) -> Seq<char> {
        self.name@
    }

    /// An accumulator that has seen no cell.
    pub fn new(name: String) -> (r: ColumnTypeAccumulator)
        ensures
            r@ == nothing(),
            r.column() == name@,
    {
        let r = ColumnTypeAccumulator {
            name,
            total_count: 0,
            null_count: 0,
            integer_count: 0,
            float_count: 0,
            boolean_count: 0,
            string_count: 0,
            samples: Vec::new(),
        };
        assert(lines(r.samples@) =~= Seq::empty());
        r
    }

    /// Takes one more cell.
    pub fn add_value(&mut self, value: &str)
        requires
            balanced(old(self)@),
            old(self)@.total < u64::MAX,
        ensures
            balanced(final(self)@),
            final(self)@ == observe(old(self)@, value@),
            final(self).column() == old(self).column(),
    {
        let chars = to_chars(value);
        self.total_count = self.total_count + 1;
        if is_null_chars(chars.as_slice()) {
            self.null_count = self.null_count + 1;
            return ;
        }
        let t = trimmed(chars.as_slice());
        let ghost before = self.samples@;
        if self.samples.len() < SAMPLE_LIMIT && !holds_sample(&self.samples, t) {
            self.samples.push(vstd::slice::slice_to_vec(t));
            assert(lines(self.samples@) =~= lines(before).push(t@));
        }
        let (dtype, _) = classify_chars(chars.as_slice());
        match dtype {
            DataType::Integer => {
                self.integer_count = self.integer_count + 1;
            },
            DataType::Float => {
                self.float_count = self.float_count + 1;
            },
            DataType::Boolean => {
                self.boolean_count = self.boolean_count + 1;
            },
            DataType::String => {
                self.string_count = self.string_count + 1;
            },
        }
    }

    /// The type of the column by what was seen of it.
    pub fn infer_type(&self) -> (r: DataType)
        requires
            balanced(self@),
        ensures
            r == inferred(self@),
    {
        let non_null: u64 = self.total_count - self.null_count;
        if non_null == 0 {
            DataType::String
        } else if self.integer_count == non_null {
            DataType::Integer
        } else if self.integer_count + self.float_count == non_null {
            DataType::Float
        } else if self.boolean_count == non_null {
            DataType::Boolean
        } else {
            DataType::String
        }
    }

    /// The schema of the column.
    pub fn finalize(self) -> (r: ColumnSchema)
        requires
            balanced(self@),
        ensures
            r@ == outline(self.column(), self@),
    {
        let inferred_type = self.infer_type();
        let mut sample_values: Vec<String> = Vec::new();
        let mut i: usize = 0;
        while i < self.samples.len()
            invariant
                i <= self.samples@.len(),
                sample_values@.len() == i,
                forall|k: int| 0 <= k < i ==> sample_values@[k]@ == self.samples@[k]@,
            decreases self.samples@.len() - i,
        {
            sample_values.push(to_string(self.samples[i].as_slice()));
            i += 1;
        }
        assert(texts(sample_values@) =~= lines(self.samples@));
        ColumnSchema {
            name: self.name,
            inferred_type,
            null_count: self.null_count,
            total_count: self.total_count,
            sample_values,
        }
    }
}

/// The types of all columns in the making.
pub struct SchemaInferrer {
    columns: Vec<ColumnTypeAccumulator>,
    rows: u64,
}

impl SchemaInferrer {
    /// The names of the columns.
    pub closed spec fn names(&self) -> Seq<Seq<char>> {
        Seq::new(self.columns@.len(), |i: int| self.columns@[i].column())
    }

    /// The counts of each column.
    pub closed spec fn states(&self) -> Seq<Counts> {
        Seq::new(self.columns@.len(), |i: int| self.columns@[i]@)
    }

    /// The number of rows taken.
    pub closed spec fn rows(&self) -> nat {
        self.rows as nat
    }

    pub closed spec fn wf(&self) -> bool {
        forall|i: int|
            0 <= i < self.columns@.len() ==> balanced((#[trigger] self.columns@[i])@)
                && self.columns@[i]@.total == self.rows
    }

    /// An inferrer with one column for each field of the header.
    pub fn new(headers: &csv::StringRecord) -> (r: SchemaInferrer)
        ensures
            r.wf(),
            r.rows() == 0,
            r.names() == fields_of(*headers),
            r.states().len() == r.names().len(),
            forall|i: int| 0 <= i < r.states().len() ==> r.states()[i] == nothing(),
    {
        let header = field_names(headers);
        let mut columns: Vec<ColumnTypeAccumulator> = Vec::new();
        let n: usize = header.len();
        let mut k: usize = 0;
        while k < n
            invariant
                k <= n == header@.len(),
                columns@.len() == k,
                forall|i: int|
                    0 <= i < k ==> (#[trigger] columns@[i])@ == nothing() && columns@[i].column()
                        == header@[i]@,
            decreases n - k,
        {
            columns.push(ColumnTypeAccumulator::new(header[k].clone()));
            k += 1;
        }
        let r = SchemaInferrer { columns, rows: 0 };
        assert(r.names() =~= texts(header@));
        r
    }

    /// Takes one more row: the column at each place takes the cell there.
    pub fn add_record(&mut self, record: &csv::StringRecord) -> (r: Result<(), CsvpeekError>)
        requires
            old(self).wf(),
            old(self).rows() < u64::MAX,
        ensures
            r is Ok,
            final(self).wf(),
            final(self).rows() == old(self).rows() + 1,
            final(self).names() == old(self).names(),
            final(self).states().len() == old(self).states().len(),
            forall|i: int|
                0 <= i < old(self).states().len() ==> final(self).states()[i] == observe(
                    old(self).states()[i],
                    cell(fields_of(*record), i),
                ),
    {
        let n: usize = self.columns.len();
        let mut i: usize = 0;
        while i < n
            invariant
                i <= n == self.columns@.len() == old(self).columns@.len(),
                self.rows == old(self).rows,
                self.rows < u64::MAX,
                forall|k: int|
                    0 <= k < i ==> balanced((#[trigger] self.columns@[k])@)
                        && self.columns@[k].column() == old(self).columns@[k].column()
                        && self.columns@[k]@ == observe(
                        old(self).columns@[k]@,
                        cell(fields_of(*record), k),
                    ),
                forall|k: int| i <= k < n ==> self.columns@[k] == old(self).columns@[k],
                forall|k: int|
                    0 <= k < n ==> balanced((#[trigger] old(self).columns@[k])@) && old(
                        self,
                    ).columns@[k]@.total == self.rows,
            decreases n - i,
        {
            let value = field(record, i);
            self.columns[i].add_value(value);
            i += 1;
        }
        self.rows = self.rows + 1;
        assert(self.names() =~= old(self).names());
        Ok(())
    }

    /// The schema of each column.
    pub fn finalize(self) -> (r: Vec<ColumnSchema>)
        requires
            self.wf(),
        ensures
            r@.len() == self.states().len(),
            forall|i: int|
                0 <= i < r@.len() ==> (#[trigger] r@[i])@ == outline(
                    self.names()[i],
                    self.states()[i],
                ),
    {
        let ghost all = self.columns@;
        let mut columns = self.columns;
        let mut out: Vec<ColumnSchema> = Vec::new();
        let n: usize = columns.len();
        let mut k: usize = 0;
        while k < n
            invariant
                k <= n == all.len(),
                columns@ == all.subrange(k as int, n as int),
                out@.len() == k,
                forall|i: int| 0 <= i < n ==> balanced((#[trigger] all[i])@),
                forall|i: int|
                    0 <= i < k ==> (#[trigger] out@[i])@ == outline(all[i].column(), all[i]@),
            decreases n - k,
        {
            let acc = columns.remove(0);
            assert(columns@ =~= all.subrange(k + 1, n as int));
            assert(acc == all[k as int]);
            out.push(acc.finalize());
            k += 1;
        }
        out
    }
}

} // verus!
