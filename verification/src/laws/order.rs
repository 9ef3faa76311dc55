//! The statistics of a column do not depend on the order of its rows.
//!
//! What an accumulator holds is cut down to a digest that leaves the order
//! of arrival out. The digest is a fold with a step that commutes, so that
//! two runs of the same cells in different orders leave the same digest.

use vstd::prelude::*;
use vstd::multiset::Multiset;
use vstd::seq_lib::{commutative_foldl, lemma_fold_left_permutation, lemma_sorted_unique};
use crate::commands::kept;
use crate::filter::{holds, Formula};
use crate::laws::frequency::{lemma_distinct_values_order, lemma_tally};
use crate::number::{ascending, at_most, lemma_at_most_total, Number};
use crate::record::{cell, column_of};
use crate::schema::{lemma_inference_agrees, observed, outline};
use crate::stats::{absorb, fresh, number_in, running, summary, Running};
use crate::text::{
    lemma_lex_asymmetric, lemma_lex_connected, lemma_lex_irreflexive, lemma_lex_transitive,
    lex_less, trim,
};
use crate::types::{classify, is_null_text, promoted, type_of, DataType};

verus! {

/// What an accumulator holds, the order of arrival left out.
pub ghost struct Digest {
    pub count: nat,
    pub nulls: nat,
    pub kind: Option<DataType>,
    pub numbers: Multiset<Number>,
    pub least: Option<Seq<char>>,
    pub greatest: Option<Seq<char>>,
    pub shortest: Option<nat>,
    pub longest: Option<nat>,
}

pub open spec fn digest(r: Running) -> Digest {
    Digest {
        count: r.count,
        nulls: r.nulls,
        kind: r.kind,
        numbers: r.numbers.to_multiset(),
        least: r.least,
        greatest: r.greatest,
        shortest: r.shortest,
        longest: r.longest,
    }
}

pub open spec fn first_of(m: Option<Seq<char>>, t: Seq<char>) -> Seq<char> {
    match m {
        Some(x) => if lex_less(t, x) {
            t
        } else {
            x
        },
        None => t,
    }
}

pub open spec fn last_of(m: Option<Seq<char>>, t: Seq<char>) -> Seq<char> {
    match m {
        Some(x) => if lex_less(x, t) {
            t
        } else {
            x
        },
        None => t,
    }
}

pub open spec fn lesser(m: Option<nat>, n: nat) -> nat {
    match m {
        Some(x) => if n < x {
            n
        } else {
            x
        },
        None => n,
    }
}

pub open spec fn greater(m: Option<nat>, n: nat) -> nat {
    match m {
        Some(x) => if n > x {
            n
        } else {
            x
        },
        None => n,
    }
}

/// The digest after one more cell.
pub open spec fn digest_step(d: Digest, c: Seq<char>) -> Digest {
    if is_null_text(c) {
        Digest { count: d.count + 1, nulls: d.nulls + 1, ..d }
    } else {
        let t = trim(c);
        Digest {
            count: d.count + 1,
            nulls: d.nulls,
            kind: Some(promoted(d.kind, type_of(classify(c)))),
            numbers: match number_in(c) {
                Some(n) => d.numbers.insert(n),
                None => d.numbers,
            },
            least: Some(first_of(d.least, t)),
            greatest: Some(last_of(d.greatest, t)),
            shortest: Some(lesser(d.shortest, t.len())),
            longest: Some(greater(d.longest, t.len())),
        }
    }
}

pub open spec fn step() -> spec_fn(Digest, Seq<char>) -> Digest {
    |d: Digest, c: Seq<char>| digest_step(d, c)
}

proof fn lemma_digest_absorb(r: Running, c: Seq<char>)
    ensures
        digest(absorb(r, c)) == digest_step(digest(r), c),
{
    broadcast use vstd::seq_lib::group_to_multiset_ensures;

    if !is_null_text(c) {
        match number_in(c) {
            Some(n) => {
                vstd::seq_lib::to_multiset_build(r.numbers, n);
            },
            None => {},
        }
    }
    assert(digest(absorb(r, c)).numbers =~= digest_step(digest(r), c).numbers);
}

proof fn lemma_digest_running(cells: Seq<Seq<char>>)
    ensures
        digest(running(cells)) == cells.fold_left(digest(fresh()), step()),
    decreases cells.len(),
{
    if cells.len() > 0 {
        lemma_digest_running(cells.drop_last());
        lemma_digest_absorb(running(cells.drop_last()), cells.last());
    }
}

proof fn lemma_texts_ordered(a: Seq<char>, b: Seq<char>, c: Seq<char>)
    ensures
        !lex_less(a, a),
        lex_less(a, b) ==> !lex_less(b, a),
        lex_less(a, b) && lex_less(b, c) ==> lex_less(a, c),
        a != b ==> lex_less(a, b) || lex_less(b, a),
{
    lemma_lex_irreflexive(a);
    if lex_less(a, b) {
        lemma_lex_asymmetric(a, b);
    }
    if lex_less(a, b) && lex_less(b, c) {
        lemma_lex_transitive(a, b, c);
    }
    if a != b {
        lemma_lex_connected(a, b);
    }
}

proof fn lemma_first_last_commute(m: Option<Seq<char>>, a: Seq<char>, b: Seq<char>)
    ensures
        first_of(Some(first_of(m, a)), b) == first_of(Some(first_of(m, b)), a),
        last_of(Some(last_of(m, a)), b) == last_of(Some(last_of(m, b)), a),
{
    lemma_texts_ordered(a, b, a);
    lemma_texts_ordered(b, a, b);
    match m {
        Some(x) => {
            lemma_texts_ordered(a, b, x);
            lemma_texts_ordered(b, a, x);
            lemma_texts_ordered(a, x, b);
            lemma_texts_ordered(b, x, a);
            lemma_texts_ordered(x, a, b);
            lemma_texts_ordered(x, b, a);
        },
        None => {},
    }
}

proof fn lemma_step_commutes()
    ensures
        commutative_foldl(step()),
{
    let f = step();
    assert forall|x: Seq<char>, y: Seq<char>, v: Digest| #[trigger] f(f(v, x), y) == f(f(v, y), x) by {
        let p = digest_step(digest_step(v, x), y);
        let q = digest_step(digest_step(v, y), x);
        lemma_first_last_commute(v.least, trim(x), trim(y));
        lemma_first_last_commute(v.greatest, trim(x), trim(y));
        assert(p.numbers =~= q.numbers);
        assert(p.kind == q.kind);
        assert(p.least == q.least);
        assert(p.greatest == q.greatest);
        assert(p.shortest == q.shortest);
        assert(p.longest == q.longest);
    }
}

/// Two runs of the same cells in different orders leave the same digest.
pub proof fn lemma_digest_order(a: Seq<Seq<char>>, b: Seq<Seq<char>>)
    requires
        a.to_multiset() == b.to_multiset(),
    ensures
        digest(running(a)) == digest(running(b)),
{
    lemma_digest_running(a);
    lemma_digest_running(b);
    lemma_step_commutes();
    lemma_fold_left_permutation(a, b, step(), digest(fresh()));
}

/// Order invariance: two runs of the same cells in different orders give
/// the same statistics. This holds of every field but the most frequent
/// values, which are there for both runs or for neither.
pub proof fn lemma_order_invariance(name: Seq<char>, a: Seq<Seq<char>>, b: Seq<Seq<char>>)
    requires
        a.to_multiset() == b.to_multiset(),
    ensures
        ({
            let x = summary(name, running(a));
            let y = summary(name, running(b));
            &&& x.name == y.name
            &&& x.data_type == y.data_type
            &&& x.count == y.count
            &&& x.null_count == y.null_count
            &&& x.min == y.min
            &&& x.max == y.max
            &&& x.min_len == y.min_len
            &&& x.max_len == y.max_len
            &&& x.unique_count == y.unique_count
            &&& x.numbers == y.numbers
            &&& x.median == y.median
            &&& x.p25 == y.p25
            &&& x.p75 == y.p75
            &&& x.top_values is Some == y.top_values is Some
        }),
{
    lemma_digest_order(a, b);
    let p = running(a);
    let q = running(b);
    assert(digest(p).numbers == digest(q).numbers);
    lemma_at_most_total();
    p.numbers.lemma_sort_by_ensures(at_most());
    q.numbers.lemma_sort_by_ensures(at_most());
    lemma_sorted_unique(ascending(p.numbers), ascending(q.numbers), at_most());
    lemma_tally(a);
    lemma_tally(b);
    lemma_distinct_values_order(a, b);
}

/// Whether a row is kept.
pub open spec fn keeps(f: Option<Formula>, row: Seq<Seq<char>>) -> bool {
    match f {
        Some(x) => holds(x, row),
        None => true,
    }
}

proof fn lemma_kept_column_fold(
    rows: Seq<Seq<Seq<char>>>,
    f: Option<Formula>,
    i: int,
    g: spec_fn(Multiset<Seq<char>>, Seq<Seq<char>>) -> Multiset<Seq<char>>,
)
    requires
        g == |m: Multiset<Seq<char>>, row: Seq<Seq<char>>|
            if keeps(f, row) {
                m.insert(cell(row, i))
            } else {
                m
            },
    ensures
        column_of(kept(rows, f), i).to_multiset() == rows.fold_left(Multiset::empty(), g),
        f is None ==> kept(rows, f) == rows,
    decreases rows.len(),
{
    broadcast use vstd::seq_lib::group_to_multiset_ensures;

    if rows.len() == 0 {
        assert(column_of(kept(rows, f), i) =~= Seq::empty());
        assert(kept(rows, f) =~= Seq::empty());
    } else {
        let before = rows.drop_last();
        lemma_kept_column_fold(before, f, i, g);
        assert(rows =~= before.push(rows.last()));
        if keeps(f, rows.last()) {
            assert(kept(rows, f) =~= kept(before, f).push(rows.last()));
            assert(column_of(kept(rows, f), i) =~= column_of(kept(before, f), i).push(
                cell(rows.last(), i),
            ));
            vstd::seq_lib::to_multiset_build(column_of(kept(before, f), i), cell(rows.last(), i));
        } else {
            assert(kept(rows, f) == kept(before, f));
        }
    }
}

/// The cells that a column takes from the rows that pass a filter are the
/// same, up to their order, whatever the order of the rows.
pub proof fn lemma_rows_order(
    a: Seq<Seq<Seq<char>>>,
    b: Seq<Seq<Seq<char>>>,
    f: Option<Formula>,
    i: int,
)
    requires
        a.to_multiset() == b.to_multiset(),
    ensures
        column_of(kept(a, f), i).to_multiset() == column_of(kept(b, f), i).to_multiset(),
{
    let g = |m: Multiset<Seq<char>>, row: Seq<Seq<char>>|
        if keeps(f, row) {
            m.insert(cell(row, i))
        } else {
            m
        };
    lemma_kept_column_fold(a, f, i, g);
    lemma_kept_column_fold(b, f, i, g);
    assert forall|x: Seq<Seq<char>>, y: Seq<Seq<char>>, v: Multiset<Seq<char>>| #[trigger]
        g(g(v, x), y) == g(g(v, y), x) by {
        assert(g(g(v, x), y) =~= g(g(v, y), x));
    }
    lemma_fold_left_permutation(a, b, g, Multiset::empty());
}

/// Order invariance of a summary: the statistics of the column at place
/// `i`, gathered over the rows that pass a filter, are the same for two
/// tables that hold the same rows in different orders. This holds of every
/// field but the most frequent values, which are there for both tables or
/// for neither.
pub proof fn lemma_summary_order(
    name: Seq<char>,
    a: Seq<Seq<Seq<char>>>,
    b: Seq<Seq<Seq<char>>>,
    f: Option<Formula>,
    i: int,
)
    requires
        a.to_multiset() == b.to_multiset(),
    ensures
        ({
            let x = summary(name, running(column_of(kept(a, f), i)));
            let y = summary(name, running(column_of(kept(b, f), i)));
            &&& x.name == y.name
            &&& x.data_type == y.data_type
            &&& x.count == y.count
            &&& x.null_count == y.null_count
            &&& x.min == y.min
            &&& x.max == y.max
            &&& x.min_len == y.min_len
            &&& x.max_len == y.max_len
            &&& x.unique_count == y.unique_count
            &&& x.numbers == y.numbers
            &&& x.median == y.median
            &&& x.p25 == y.p25
            &&& x.p75 == y.p75
            &&& x.top_values is Some == y.top_values is Some
        }),
{
    lemma_rows_order(a, b, f, i);
    lemma_order_invariance(name, column_of(kept(a, f), i), column_of(kept(b, f), i));
}

/// Order invariance of a schema: the type and the counts of a column do
/// not depend on the order of its cells. Which values serve as samples
/// does.
pub proof fn lemma_schema_order(name: Seq<char>, a: Seq<Seq<char>>, b: Seq<Seq<char>>)
    requires
        a.to_multiset() == b.to_multiset(),
    ensures
        outline(name, observed(a)).inferred_type == outline(name, observed(b)).inferred_type,
        outline(name, observed(a)).null_count == outline(name, observed(b)).null_count,
        outline(name, observed(a)).total_count == outline(name, observed(b)).total_count,
{
    lemma_digest_order(a, b);
    lemma_inference_agrees(a);
    lemma_inference_agrees(b);
}

} // verus!
