//! Streaming statistics of columns.
//!
//! An accumulator takes the cells of one column one by one. What it holds
//! after a run of cells is `running` of that run, and `summary` says what
//! is made of it at the end.

use vstd::prelude::*;
use crate::error::{first_equal, lemma_first_equal_stays, CsvpeekError};
use crate::number::{ascending, number_of, parse_decimal, sort_numbers, values, Decimal, Number};
use crate::record::{cell, field, field_names, fields_of, texts};
use crate::tally::Tally;
use crate::text::{less, lex_less, same, to_chars, to_string, trim, trimmed};
use crate::types::{
    classify, classify_chars, is_null_chars, is_null_text, promote, promoted, type_of, Classified,
    ColumnStats, DataType, Quantile, Value,
};

verus! {

/// How many of the most frequent values are reported.
pub const TOP_K: usize = 5;

/// The state of an accumulator: the cells seen and the nulls among them, the
/// type so far, the numbers in the order of their arrival, the first and
/// the last text in lexicographic order, the least and the greatest length,
/// and each distinct text with its frequency, in the order of first
/// appearance. Texts are trimmed.
pub ghost struct Running {
    pub count: nat,
    pub nulls: nat,
    pub kind: Option<DataType>,
    pub numbers: Seq<Number>,
    pub least: Option<Seq<char>>,
    pub greatest: Option<Seq<char>>,
    pub shortest: Option<nat>,
    pub longest: Option<nat>,
    pub tally: Seq<(Seq<char>, nat)>,
}

/// The state before any cell.
pub open spec fn fresh() -> Running {
    Running {
        count: 0,
        nulls: 0,
        kind: None,
        numbers: Seq::empty(),
        least: None,
        greatest: None,
        shortest: None,
        longest: None,
        tally: Seq::empty(),
    }
}

/// The number that a cell contributes: that of a cell classified as a
/// number, whole or not.
pub open spec fn number_in(c: Seq<char>) -> Option<Number> {
    match classify(c) {
        Classified::Integer(_) => number_of(trim(c)),
        Classified::Float(n) => Some(n),
        _ => None,
    }
}

/// A cell contributes a number exactly where it is classified as one.
pub proof fn lemma_number_in(c: Seq<char>)
    ensures
        number_in(c) is Some <==> is_numeric(type_of(classify(c))),
{
    if classify(c) is Integer {
        crate::number::lemma_integers_are_numbers(trim(c));
    }
}

/// The texts of a frequency table.
pub open spec fn names_of(t: Seq<(Seq<char>, nat)>) -> Seq<Seq<char>> {
    Seq::new(t.len(), |i: int| t[i].0)
}

/// The table after one more occurrence of `x`.
pub open spec fn bumped(t: Seq<(Seq<char>, nat)>, x: Seq<char>) -> Seq<(Seq<char>, nat)> {
    match first_equal(x, names_of(t), t.len() as int) {
        Some(i) => t.update(i, (x, t[i].1 + 1)),
        None => t.push((x, 1)),
    }
}

/// The state after one more cell. A null cell is counted and changes
/// nothing else.
pub open spec fn absorb(r: Running, c: Seq<char>) -> Running {
    if is_null_text(c) {
        Running { count: r.count + 1, nulls: r.nulls + 1, ..r }
    } else {
        let t = trim(c);
        Running {
            count: r.count + 1,
            nulls: r.nulls,
            kind: Some(promoted(r.kind, type_of(classify(c)))),
            numbers: match number_in(c) {
                Some(n) => r.numbers.push(n),
                None => r.numbers,
            },
            least: Some(
                match r.least {
                    Some(m) => if lex_less(t, m) {
                        t
                    } else {
                        m
                    },
                    None => t,
                },
            ),
            greatest: Some(
                match r.greatest {
                    Some(m) => if lex_less(m, t) {
                        t
                    } else {
                        m
                    },
                    None => t,
                },
            ),
            shortest: Some(
                match r.shortest {
                    Some(m) => if t.len() < m {
                        t.len()
                    } else {
                        m
                    },
                    None => t.len(),
                },
            ),
            longest: Some(
                match r.longest {
                    Some(m) => if t.len() > m {
                        t.len()
                    } else {
                        m
                    },
                    None => t.len(),
                },
            ),
            tally: bumped(r.tally, t),
        }
    }
}

/// The state after a run of cells.
pub open spec fn running(cells: Seq<Seq<char>>) -> Running
    decreases cells.len(),
{
    if cells.len() == 0 {
        fresh()
    } else {
        absorb(running(cells.drop_last()), cells.last())
    }
}

/// The place of the `p`-th percentile among `n` values in ascending order:
/// at rank `p / 100 * (n - 1)`, between the elements below and above it.
pub open spec fn quantile(n: nat, p: nat) -> Option<Quantile> {
    if n == 0 {
        None
    } else {
        let q = p * (n - 1);
        Some(
            Quantile {
                lower: (q / 100) as usize,
                upper: (if q % 100 > 0 {
                    q / 100 + 1
                } else {
                    q / 100
                }) as usize,
                weight: (q % 100) as u8,
            },
        )
    }
}

/// Among the first `n` entries, the index of the first one with the
/// greatest frequency.
pub open spec fn leader(t: Seq<(Seq<char>, nat)>, n: int) -> int
    decreases n,
{
    if n <= 1 {
        0
    } else {
        let b = leader(t, n - 1);
        if t[n - 1].1 > t[b].1 {
            n - 1
        } else {
            b
        }
    }
}

/// The `k` most frequent entries, the most frequent first; of entries with
/// the same frequency the one that appeared first comes first.
pub open spec fn top(t: Seq<(Seq<char>, nat)>, k: nat) -> Seq<(Seq<char>, nat)>
    decreases k,
{
    if k == 0 || t.len() == 0 {
        Seq::empty()
    } else {
        let i = leader(t, t.len() as int);
        seq![t[i]] + top(t.remove(i), (k - 1) as nat)
    }
}

/// The mathematical form of `ColumnStats`.
pub ghost struct Summary {
    pub name: Seq<char>,
    pub data_type: DataType,
    pub count: nat,
    pub null_count: nat,
    pub min: Option<Seq<char>>,
    pub max: Option<Seq<char>>,
    pub min_len: Option<nat>,
    pub max_len: Option<nat>,
    pub unique_count: Option<nat>,
    pub numbers: Seq<Number>,
    pub median: Option<Quantile>,
    pub p25: Option<Quantile>,
    pub p75: Option<Quantile>,
    pub top_values: Option<Seq<(Seq<char>, nat)>>,
}

pub open spec fn is_numeric(t: DataType) -> bool {
    t == DataType::Integer || t == DataType::Float
}

/// What is reported of a column whose accumulator holds `r`.
pub open spec fn summary(name: Seq<char>, r: Running) -> Summary {
    let data_type = match r.kind {
        Some(t) => t,
        None => DataType::String,
    };
    let sorted = ascending(r.numbers);
    Summary {
        name,
        data_type,
        count: (r.count - r.nulls) as nat,
        null_count: r.nulls,
        min: if is_numeric(data_type) {
            if sorted.len() > 0 {
                Some(crate::number::number_text(sorted.first()))
            } else {
                None
            }
        } else {
            r.least
        },
        max: if is_numeric(data_type) {
            if sorted.len() > 0 {
                Some(crate::number::number_text(sorted.last()))
            } else {
                None
            }
        } else {
            r.greatest
        },
        min_len: r.shortest,
        max_len: r.longest,
        unique_count: Some(r.tally.len()),
        numbers: sorted,
        median: quantile(sorted.len(), 50),
        p25: quantile(sorted.len(), 25),
        p75: quantile(sorted.len(), 75),
        top_values: if r.tally.len() > 0 {
            Some(top(r.tally, TOP_K as nat))
        } else {
            None
        },
    }
}

pub open spec fn option_text(s: Option<String>) -> Option<Seq<char>> {
    match s {
        Some(x) => Some(x@),
        None => None,
    }
}

pub open spec fn option_nat(s: Option<usize>) -> Option<nat> {
    match s {
        Some(x) => Some(x as nat),
        None => None,
    }
}

pub open spec fn frequencies(v: Seq<(String, u64)>) -> Seq<(Seq<char>, nat)> {
    Seq::new(v.len(), |i: int| (v[i].0@, v[i].1 as nat))
}

impl View for ColumnStats {
    type V = Summary;

    open spec fn view(&self) -> Summary {
        Summary {
            name: self.name@,
            data_type: self.data_type,
            count: self.count as nat,
            null_count: self.null_count as nat,
            min: option_text(self.min),
            max: option_text(self.max),
            min_len: option_nat(self.min_len),
            max_len: option_nat(self.max_len),
            unique_count: option_nat(self.unique_count),
            numbers: values(self.numbers@),
            median: self.median,
            p25: self.p25,
            p75: self.p75,
            top_values: match self.top_values {
                Some(v) => Some(frequencies(v@)),
                None => None,
            },
        }
    }
}

/// The place of the `p`-th percentile among `n` values in ascending order.
pub fn percentile(n: usize, p: u8) -> (r: Option<Quantile>)
    requires
        p <= 100,
    ensures
        r == quantile(n as nat, p as nat),
        r matches Some(q) ==> q.lower <= q.upper < n && q.weight < 100,
{
    if n == 0 {
        return None;
    }
    let m: u128 = (n - 1) as u128;
    assert(p as u128 * m <= 100 * 0xFFFF_FFFF_FFFF_FFFF) by (nonlinear_arith)
        requires
            p <= 100,
            m <= 0xFFFF_FFFF_FFFF_FFFF,
    ;
    let q: u128 = p as u128 * m;
    assert(q <= 100 * m) by (nonlinear_arith)
        requires
            q == p as u128 * m,
            p <= 100,
    ;
    let lower: u128 = q / 100;
    let rest: u128 = q % 100;
    let upper: u128 = if rest > 0 {
        lower + 1
    } else {
        lower
    };
    Some(Quantile { lower: lower as usize, upper: upper as usize, weight: rest as u8 })
}

/// The statistics of one column in the making.
#[derive(Debug)]
pub struct ColumnAccumulator {
    name: String,
    count: u64,
    null_count: u64,
    data_type: Option<DataType>,
    numbers: Vec<Decimal>,
    min_string: Option<Vec<char>>,
    max_string: Option<Vec<char>>,
    min_len: Option<usize>,
    max_len: Option<usize>,
    tally: Tally,
}

pub open spec fn option_chars(s: Option<Vec<char>>) -> Option<Seq<char>> {
    match s {
        Some(x) => Some(x@),
        None => None,
    }
}

/// The frequency table that two lists of equal length stand for.
pub open spec fn table(keys: Seq<Vec<char>>, counts: Seq<u64>) -> Seq<(Seq<char>, nat)> {
    Seq::new(keys.len(), |i: int| (keys[i]@, counts[i] as nat))
}

impl View for ColumnAccumulator {
    type V = Running;

    closed spec fn view(&self) -> Running {
        Running {
            count: self.count as nat,
            nulls: self.null_count as nat,
            kind: self.data_type,
            numbers: values(self.numbers@),
            least: option_chars(self.min_string),
            greatest: option_chars(self.max_string),
            shortest: option_nat(self.min_len),
            longest: option_nat(self.max_len),
            tally: self.tally@,
        }
    }
}

impl ColumnAccumulator {
    /// What keeps the counters within their range: no frequency is above
    /// the number of cells seen.
    pub closed spec fn wf(&self) -> bool {
        &&& self.null_count <= self.count
        &&& self.tally.wf()
        &&& self.tally.below(self.count as int)
    }

    /// The name of the column.
    pub closed spec fn column(&self) -> Seq<char> {
        self.name@
    }

    /// An accumulator that has seen no cell.
    pub fn new(name: String) -> (r: ColumnAccumulator)
        ensures
            r.wf(),
            r@ == fresh(),
            r.column() == name@,
    {
        let r = ColumnAccumulator {
            name,
            count: 0,
            null_count: 0,
            data_type: None,
            numbers: Vec::new(),
            min_string: None,
            max_string: None,
            min_len: None,
            max_len: None,
            tally: Tally::new(),
        };
        assert(values(r.numbers@) =~= Seq::empty());
        r
    }

    /// The number of cells seen.
    pub fn seen(&self) -> (n: u64)
        ensures
            n == self@.count,
    {
        self.count
    }

    /// Takes one more cell, given as characters.
    pub fn add_chars(&mut self, value: &[char])
        requires
            old(self).wf(),
            old(self)@.count < u64::MAX,
        ensures
            final(self).wf(),
            final(self)@ == absorb(old(self)@, value@),
            final(self).column() == old(self).column(),
    {
        proof {
            self.tally.lemma_below_more(self.count as int, self.count + 1);
        }
        self.count = self.count + 1;
        if is_null_chars(value) {
            self.null_count = self.null_count + 1;
            return ;
        }
        let t = trimmed(value);
        let (dtype, parsed) = classify_chars(value);
        self.data_type = Some(
            match self.data_type {
                None => dtype,
                Some(current) => promote(current, dtype),
            },
        );
        let ghost numbers_before = self.numbers@;
        match parsed {
            Value::Float(d) => {
                self.numbers.push(d);
                proof {
                    assert(values(self.numbers@) =~= values(numbers_before).push(d@));
                }
            },
            Value::Integer(_) => {
                match parse_decimal(t) {
                    Some(d) => {
                        self.numbers.push(d);
                        proof {
                            assert(values(self.numbers@) =~= values(numbers_before).push(d@));
                        }
                    },
                    None => {},
                }
            },
            _ => {},
        }
        let len: usize = t.len();
        let shorter = match self.min_len {
            Some(m) => len < m,
            None => true,
        };
        if shorter {
            self.min_len = Some(len);
        }
        let longer = match self.max_len {
            Some(m) => len > m,
            None => true,
        };
        if longer {
            self.max_len = Some(len);
        }
        self.tally.bump(t);
        let before = match &self.min_string {
            Some(m) => less(t, m.as_slice()),
            None => true,
        };
        if before {
            self.min_string = Some(vstd::slice::slice_to_vec(t));
        }
        let after = match &self.max_string {
            Some(m) => less(m.as_slice(), t),
            None => true,
        };
        if after {
            self.max_string = Some(vstd::slice::slice_to_vec(t));
        }
    }

    /// Takes one more cell.
    pub fn add_value(&mut self, value: &str)
        requires
            old(self).wf(),
            old(self)@.count < u64::MAX,
        ensures
            final(self).wf(),
            final(self)@ == absorb(old(self)@, value@),
            final(self).column() == old(self).column(),
    {
        let chars = to_chars(value);
        self.add_chars(chars.as_slice());
    }
}

proof fn lemma_table_remove(keys: Seq<Vec<char>>, counts: Seq<u64>, i: int)
    requires
        keys.len() == counts.len(),
        0 <= i < keys.len(),
    ensures
        table(keys.remove(i), counts.remove(i)) == table(keys, counts).remove(i),
{
    assert(table(keys.remove(i), counts.remove(i)) =~= table(keys, counts).remove(i));
}

/// The index of the first of the greatest frequencies.
fn leading(counts: &Vec<u64>, Ghost(keys): Ghost<Seq<Vec<char>>>) -> (best: usize)
    requires
        counts@.len() > 0,
        keys.len() == counts@.len(),
    ensures
        best < counts@.len(),
        best == leader(table(keys, counts@), counts@.len() as int),
{
    let n: usize = counts.len();
    let mut best: usize = 0;
    let mut j: usize = 1;
    while j < n
        invariant
            1 <= j <= n == counts@.len() == keys.len(),
            best < j,
            best == leader(table(keys, counts@), j as int),
        decreases n - j,
    {
        if counts[j] > counts[best] {
            best = j;
        }
        j += 1;
    }
    best
}

/// The most frequent entries of a frequency table.
fn take_top(keys: Vec<Vec<char>>, counts: Vec<u64>) -> (out: Vec<(String, u64)>)
    requires
        keys@.len() == counts@.len(),
    ensures
        frequencies(out@) == top(table(keys@, counts@), TOP_K as nat),
{
    let ghost all = table(keys@, counts@);
    let mut keys = keys;
    let mut counts = counts;
    let mut out: Vec<(String, u64)> = Vec::new();
    let mut k: usize = 0;
    assert(frequencies(out@) + top(all, TOP_K as nat) =~= top(all, TOP_K as nat));
    while k < TOP_K && keys.len() > 0
        invariant
            k <= TOP_K,
            keys@.len() == counts@.len(),
            frequencies(out@) + top(table(keys@, counts@), (TOP_K - k) as nat) == top(
                all,
                TOP_K as nat,
            ),
        decreases TOP_K - k,
    {
        let ghost now = table(keys@, counts@);
        let ghost done = frequencies(out@);
        let best = leading(&counts, Ghost(keys@));
        proof {
            lemma_table_remove(keys@, counts@, best as int);
        }
        let key = keys.remove(best);
        let c = counts.remove(best);
        out.push((to_string(key.as_slice()), c));
        proof {
            assert(frequencies(out@) =~= done + seq![now[best as int]]);
            assert(top(now, (TOP_K - k) as nat) == seq![now[best as int]] + top(
                now.remove(best as int),
                (TOP_K - k - 1) as nat,
            ));
            assert(frequencies(out@) + top(now.remove(best as int), (TOP_K - k - 1) as nat)
                =~= done + top(now, (TOP_K - k) as nat));
        }
        k += 1;
    }
    assert(top(table(keys@, counts@), (TOP_K - k) as nat) =~= Seq::empty());
    assert(frequencies(out@) + Seq::empty() =~= frequencies(out@));
    out
}

fn option_string(s: &Option<Vec<char>>) -> (r: Option<String>)
    ensures
        option_text(r) == option_chars(*s),
{
    match s {
        Some(v) => Some(to_string(v.as_slice())),
        None => None,
    }
}

impl ColumnAccumulator {
    /// The statistics of the column.
    pub fn finalize(self) -> (r: ColumnStats)
        requires
            self.wf(),
        ensures
            r@ == summary(self.column(), self@),
    {
        let data_type = match self.data_type {
            Some(t) => t,
            None => DataType::String,
        };
        let sorted = sort_numbers(self.numbers.as_slice());
        let n: usize = sorted.len();
        let numeric = match data_type {
            DataType::Integer => true,
            DataType::Float => true,
            _ => false,
        };
        let min = if numeric {
            if n > 0 {
                Some(to_string(sorted[0].to_text().as_slice()))
            } else {
                None
            }
        } else {
            option_string(&self.min_string)
        };
        let max = if numeric {
            if n > 0 {
                Some(to_string(sorted[n - 1].to_text().as_slice()))
            } else {
                None
            }
        } else {
            option_string(&self.max_string)
        };
        let unique: usize = self.tally.len();
        let top_values = if unique > 0 {
            let (keys, counts) = self.tally.into_parts();
            Some(take_top(keys, counts))
        } else {
            None
        };
        ColumnStats {
            name: self.name,
            data_type,
            count: self.count - self.null_count,
            null_count: self.null_count,
            min,
            max,
            min_len: self.min_len,
            max_len: self.max_len,
            unique_count: Some(unique),
            numbers: sorted,
            median: percentile(n, 50),
            p25: percentile(n, 25),
            p75: percentile(n, 75),
            top_values,
        }
    }
}

/// The columns to follow, with their places in the header: the target
/// names that the header holds, in the order of the targets; a name that
/// several columns bear stands for the first of them.
pub open spec fn picked(targets: Seq<Seq<char>>, header: Seq<Seq<char>>) -> Seq<(Seq<char>, int)>
    decreases targets.len(),
{
    if targets.len() == 0 {
        Seq::empty()
    } else {
        let before = picked(targets.drop_last(), header);
        match first_equal(targets.last(), header, header.len() as int) {
            Some(i) => before.push((targets.last(), i)),
            None => before,
        }
    }
}

/// The statistics of several columns in the making.
pub struct StatsCollector {
    columns: Vec<ColumnAccumulator>,
    column_indices: Vec<usize>,
    rows: u64,
}

fn position(name: &[char], header: &Vec<String>) -> (r: Option<usize>)
    ensures
        match r {
            Some(i) => first_equal(name@, texts(header@), header@.len() as int) == Some(i as int),
            None => first_equal(name@, texts(header@), header@.len() as int) is None,
        },
{
    let n: usize = header.len();
    let mut i: usize = 0;
    while i < n
        invariant
            i <= n == header@.len(),
            first_equal(name@, texts(header@), i as int) is None,
        decreases n - i,
    {
        let h = to_chars(header[i].as_str());
        if same(name, h.as_slice()) {
            proof {
                lemma_first_equal_stays(name@, texts(header@), i + 1, n as int);
            }
            return Some(i);
        }
        i += 1;
    }
    None
}

impl StatsCollector {
    /// The columns that are followed: the name and the place of each.
    pub closed spec fn targets(&self) -> Seq<(Seq<char>, int)> {
        Seq::new(
            self.columns@.len(),
            |i: int| (self.columns@[i].column(), self.column_indices@[i] as int),
        )
    }

    /// The state of each column.
    pub closed spec fn states(&self) -> Seq<Running> {
        Seq::new(self.columns@.len(), |i: int| self.columns@[i]@)
    }

    /// The number of rows taken.
    pub closed spec fn rows(&self) -> nat {
        self.rows as nat
    }

    pub closed spec fn wf(&self) -> bool {
        &&& self.columns@.len() == self.column_indices@.len()
        &&& forall|i: int|
            0 <= i < self.columns@.len() ==> (#[trigger] self.columns@[i]).wf()
                && self.columns@[i]@.count == self.rows
    }

    /// A collector for the target columns that the header holds.
    pub fn new(target_columns: &[String], headers: &csv::StringRecord) -> (r: StatsCollector)
        ensures
            r.wf(),
            r.rows() == 0,
            r.targets() == picked(texts(target_columns@), fields_of(*headers)),
            r.states().len() == r.targets().len(),
            forall|i: int| 0 <= i < r.states().len() ==> r.states()[i] == fresh(),
    {
        let header = field_names(headers);
        let mut columns: Vec<ColumnAccumulator> = Vec::new();
        let mut column_indices: Vec<usize> = Vec::new();
        let n: usize = target_columns.len();
        let mut k: usize = 0;
        let ghost names = texts(target_columns@);
        assert(names.take(0) =~= Seq::empty());
        while k < n
            invariant
                k <= n == target_columns@.len(),
                names == texts(target_columns@),
                texts(header@) == fields_of(*headers),
                columns@.len() == column_indices@.len(),
                Seq::new(
                    columns@.len(),
                    |i: int| (columns@[i].column(), column_indices@[i] as int),
                ) == picked(names.take(k as int), texts(header@)),
                forall|i: int|
                    0 <= i < columns@.len() ==> (#[trigger] columns@[i]).wf() && columns@[i]@
                        == fresh(),
            decreases n - k,
        {
            let ghost before = Seq::new(
                columns@.len(),
                |i: int| (columns@[i].column(), column_indices@[i] as int),
            );
            let name = to_chars(target_columns[k].as_str());
            proof {
                assert(names.take(k + 1).drop_last() =~= names.take(k as int));
                assert(names.take(k + 1).last() == name@);
            }
            match position(name.as_slice(), &header) {
                Some(i) => {
                    columns.push(ColumnAccumulator::new(target_columns[k].clone()));
                    column_indices.push(i);
                    assert(Seq::new(
                        columns@.len(),
                        |i: int| (columns@[i].column(), column_indices@[i] as int),
                    ) =~= before.push((name@, i as int)));
                },
                None => {},
            }
            k += 1;
        }
        assert(names.take(n as int) =~= names);
        StatsCollector { columns, column_indices, rows: 0 }
    }

    /// Takes one more row: each column takes the cell at its place. The
    /// second argument is not read.
    pub fn add_record(&mut self, record: &csv::StringRecord, _headers: &csv::StringRecord) -> (r:
        Result<(), CsvpeekError>)
        requires
            old(self).wf(),
            old(self).rows() < u64::MAX,
        ensures
            r is Ok,
            final(self).wf(),
            final(self).rows() == old(self).rows() + 1,
            final(self).targets() == old(self).targets(),
            final(self).states().len() == old(self).states().len(),
            forall|i: int|
                0 <= i < old(self).states().len() ==> final(self).states()[i] == absorb(
                    old(self).states()[i],
                    cell(fields_of(*record), old(self).targets()[i].1),
                ),
    {
        let n: usize = self.columns.len();
        let mut i: usize = 0;
        while i < n
            invariant
                i <= n == self.columns@.len() == old(self).columns@.len(),
                self.column_indices == old(self).column_indices,
                self.rows == old(self).rows,
                self.rows < u64::MAX,
                self.columns@.len() == self.column_indices@.len(),
                forall|k: int|
                    0 <= k < i ==> (#[trigger] self.columns@[k]).wf() && self.columns@[k].column()
                        == old(self).columns@[k].column() && self.columns@[k]@ == absorb(
                        old(self).columns@[k]@,
                        cell(fields_of(*record), self.column_indices@[k] as int),
                    ),
                forall|k: int| i <= k < n ==> self.columns@[k] == old(self).columns@[k],
                forall|k: int|
                    0 <= k < n ==> (#[trigger] old(self).columns@[k]).wf() && old(
                        self,
                    ).columns@[k]@.count == self.rows,
            decreases n - i,
        {
            let value = field(record, self.column_indices[i]);
            self.columns[i].add_value(value);
            i += 1;
        }
        self.rows = self.rows + 1;
        assert(self.targets() =~= old(self).targets());
        Ok(())
    }

    /// The statistics of each column.
    pub fn finalize(self) -> (r: Vec<ColumnStats>)
        requires
            self.wf(),
        ensures
            r@.len() == self.states().len(),
            forall|i: int|
                0 <= i < r@.len() ==> (#[trigger] r@[i])@ == summary(
                    self.targets()[i].0,
                    self.states()[i],
                ),
    {
        let ghost all = self.columns@;
        let mut columns = self.columns;
        let mut out: Vec<ColumnStats> = Vec::new();
        let n: usize = columns.len();
        let mut k: usize = 0;
        while k < n
            invariant
                k <= n == all.len(),
                columns@ == all.subrange(k as int, n as int),
                out@.len() == k,
                forall|i: int| 0 <= i < n ==> (#[trigger] all[i]).wf(),
                forall|i: int|
                    0 <= i < k ==> (#[trigger] out@[i])@ == summary(all[i].column(), all[i]@),
            decreases n - k,
        {
            let acc = columns.remove(0);
            assert(columns@ =~= all.subrange(k + 1, n as int));
            assert(acc == all[k as int]);
            out.push(acc.finalize());
            k += 1;
        }
        out
    }
}

} // verus!
