//! The distinct values of a column, their frequencies, and the most
//! frequent among them.

use vstd::prelude::*;
use vstd::multiset::Multiset;
use vstd::seq_lib::{commutative_foldl, lemma_fold_left_permutation};
use crate::error::{first_equal, lemma_first_equal};
use crate::stats::{bumped, leader, names_of, running, top, TOP_K};
use crate::text::trim;
use crate::types::is_null_text;

verus! {

/// The distinct values of a column: its cells that are not null, trimmed.
pub open spec fn distinct_values(cells: Seq<Seq<char>>) -> Set<Seq<char>> {
    Set::new(
        |t: Seq<char>|
            exists|i: int| 0 <= i < cells.len() && !is_null_text(cells[i]) && trim(cells[i]) == t,
    )
}

/// How often a value occurs in a column.
pub open spec fn occurrences(cells: Seq<Seq<char>>, t: Seq<char>) -> nat
    decreases cells.len(),
{
    if cells.len() == 0 {
        0
    } else {
        let before = occurrences(cells.drop_last(), t);
        if !is_null_text(cells.last()) && trim(cells.last()) == t {
            before + 1
        } else {
            before
        }
    }
}

proof fn lemma_distinct_values_step(cells: Seq<Seq<char>>)
    requires
        cells.len() > 0,
    ensures
        distinct_values(cells) == if is_null_text(cells.last()) {
            distinct_values(cells.drop_last())
        } else {
            distinct_values(cells.drop_last()).insert(trim(cells.last()))
        },
{
    let before = cells.drop_last();
    let expected = if is_null_text(cells.last()) {
        distinct_values(before)
    } else {
        distinct_values(before).insert(trim(cells.last()))
    };
    assert forall|t: Seq<char>| distinct_values(cells).contains(t) == expected.contains(t) by {
        if distinct_values(cells).contains(t) {
            let i = choose|i: int|
                0 <= i < cells.len() && !is_null_text(cells[i]) && trim(cells[i]) == t;
            if i < before.len() {
                assert(before[i] == cells[i]);
            }
        }
        if distinct_values(before).contains(t) {
            let i = choose|i: int|
                0 <= i < before.len() && !is_null_text(before[i]) && trim(before[i]) == t;
            assert(cells[i] == before[i]);
        }
        if !is_null_text(cells.last()) && t == trim(cells.last()) {
            assert(cells[cells.len() - 1] == cells.last());
        }
    }
    assert(distinct_values(cells) =~= expected);
}

/// The frequency table of a column holds each of its distinct values once,
/// with the number of its occurrences.
pub proof fn lemma_tally(cells: Seq<Seq<char>>)
    ensures
        names_of(running(cells).tally).no_duplicates(),
        names_of(running(cells).tally).to_set() == distinct_values(cells),
        running(cells).tally.len() == distinct_values(cells).len(),
        forall|i: int|
            0 <= i < running(cells).tally.len() ==> (#[trigger] running(cells).tally[i]).1
                == occurrences(cells, running(cells).tally[i].0),
    decreases cells.len(),
{
    broadcast use vstd::seq_lib::group_seq_properties;

    let tally = running(cells).tally;
    let names = names_of(tally);
    if cells.len() == 0 {
        assert(names =~= Seq::empty());
        assert(names.to_set() =~= distinct_values(cells));
    } else {
        let before = cells.drop_last();
        let old_tally = running(before).tally;
        let old_names = names_of(old_tally);
        lemma_tally(before);
        lemma_distinct_values_step(cells);
        if is_null_text(cells.last()) {
            assert(tally == old_tally);
        } else {
            let t = trim(cells.last());
            assert(tally == bumped(old_tally, t));
            lemma_first_equal(t, old_names, old_names.len() as int);
            match first_equal(t, old_names, old_tally.len() as int) {
                Some(i) => {
                    assert(names =~= old_names);
                    assert(old_names.to_set().contains(t));
                    assert(old_names.to_set().insert(t) =~= old_names.to_set());
                    assert forall|k: int| 0 <= k < tally.len() implies (#[trigger] tally[k]).1
                        == occurrences(cells, tally[k].0) by {
                        if k != i {
                            assert(old_names[k] != old_names[i]);
                        }
                    }
                },
                None => {
                    assert(names =~= old_names.push(t));
                    assert(names.to_set() =~= old_names.to_set().insert(t));
                    assert forall|k: int| 0 <= k < tally.len() implies (#[trigger] tally[k]).1
                        == occurrences(cells, tally[k].0) by {
                        if k < old_tally.len() {
                            assert(old_names[k] != t);
                        } else {
                            lemma_occurrences_of_new(before, t);
                        }
                    }
                },
            }
        }
    }
    names.unique_seq_to_set();
}

proof fn lemma_occurrences_of_new(cells: Seq<Seq<char>>, t: Seq<char>)
    requires
        !distinct_values(cells).contains(t),
    ensures
        occurrences(cells, t) == 0,
    decreases cells.len(),
{
    if cells.len() > 0 {
        lemma_distinct_values_step(cells);
        lemma_occurrences_of_new(cells.drop_last(), t);
    }
}

proof fn lemma_same_members(a: Seq<Seq<char>>, b: Seq<Seq<char>>)
    requires
        a.to_multiset() == b.to_multiset(),
    ensures
        forall|i: int| 0 <= i < a.len() ==> b.contains(#[trigger] a[i]),
{
    broadcast use vstd::seq_lib::group_to_multiset_ensures;

    assert forall|i: int| 0 <= i < a.len() implies b.contains(#[trigger] a[i]) by {
        assert(a.contains(a[i]));
        assert(a.to_multiset().count(a[i]) > 0);
    }
}

/// The distinct values of a column do not depend on the order of its cells.
pub proof fn lemma_distinct_values_order(a: Seq<Seq<char>>, b: Seq<Seq<char>>)
    requires
        a.to_multiset() == b.to_multiset(),
    ensures
        distinct_values(a) == distinct_values(b),
{
    lemma_same_members(a, b);
    lemma_same_members(b, a);
    assert forall|t: Seq<char>| distinct_values(a).contains(t) == distinct_values(b).contains(
        t,
    ) by {
        if distinct_values(a).contains(t) {
            let i = choose|i: int| 0 <= i < a.len() && !is_null_text(a[i]) && trim(a[i]) == t;
            assert(b.contains(a[i]));
            let j = choose|j: int| 0 <= j < b.len() && b[j] == a[i];
            assert(!is_null_text(b[j]) && trim(b[j]) == t);
        }
        if distinct_values(b).contains(t) {
            let i = choose|i: int| 0 <= i < b.len() && !is_null_text(b[i]) && trim(b[i]) == t;
            assert(a.contains(b[i]));
            let j = choose|j: int| 0 <= j < a.len() && a[j] == b[i];
            assert(!is_null_text(a[j]) && trim(a[j]) == t);
        }
    }
    assert(distinct_values(a) =~= distinct_values(b));
}

/// The number of occurrences of a value does not depend on the order of
/// the cells.
pub proof fn lemma_occurrences_order(a: Seq<Seq<char>>, b: Seq<Seq<char>>, t: Seq<char>)
    requires
        a.to_multiset() == b.to_multiset(),
    ensures
        occurrences(a, t) == occurrences(b, t),
{
    let f = |n: nat, c: Seq<char>|
        if !is_null_text(c) && trim(c) == t {
            n + 1
        } else {
            n
        };
    lemma_occurrences_fold(a, t, f);
    lemma_occurrences_fold(b, t, f);
    assert(commutative_foldl(f));
    lemma_fold_left_permutation(a, b, f, 0nat);
}

proof fn lemma_occurrences_fold(
    cells: Seq<Seq<char>>,
    t: Seq<char>,
    f: spec_fn(nat, Seq<char>) -> nat,
)
    requires
        f == |n: nat, c: Seq<char>|
            if !is_null_text(c) && trim(c) == t {
                n + 1
            } else {
                n
            },
    ensures
        occurrences(cells, t) == cells.fold_left(0nat, f),
    decreases cells.len(),
{
    if cells.len() > 0 {
        lemma_occurrences_fold(cells.drop_last(), t, f);
    }
}

/// Every one of the most frequent entries is an entry of the table.
pub proof fn lemma_top_members(t: Seq<(Seq<char>, nat)>, k: nat)
    ensures
        top(t, k).len() <= k,
        top(t, k).len() <= t.len(),
        forall|i: int| 0 <= i < top(t, k).len() ==> t.contains(#[trigger] top(t, k)[i]),
    decreases k,
{
    if k > 0 && t.len() > 0 {
        let b = leader(t, t.len() as int);
        lemma_leader(t, t.len() as int);
        let rest = t.remove(b);
        lemma_top_members(rest, (k - 1) as nat);
        assert forall|i: int| 0 <= i < top(t, k).len() implies t.contains(
            #[trigger] top(t, k)[i],
        ) by {
            if i == 0 {
                assert(t[b] == top(t, k)[0]);
            } else {
                let e = top(rest, (k - 1) as nat)[i - 1];
                assert(rest.contains(e));
                let j = choose|j: int| 0 <= j < rest.len() && rest[j] == e;
                if j < b {
                    assert(t[j] == e);
                } else {
                    assert(t[j + 1] == e);
                }
            }
        }
    }
}

/// The leader is an entry, none is more frequent, and none before it is as
/// frequent.
pub proof fn lemma_leader(t: Seq<(Seq<char>, nat)>, n: int)
    requires
        1 <= n <= t.len(),
    ensures
        0 <= leader(t, n) < n,
        forall|j: int| 0 <= j < n ==> (#[trigger] t[j]).1 <= t[leader(t, n)].1,
        forall|j: int| 0 <= j < leader(t, n) ==> (#[trigger] t[j]).1 < t[leader(t, n)].1,
    decreases n,
{
    if n > 1 {
        lemma_leader(t, n - 1);
    }
}

/// Every one of the most frequent values that are reported is a value of
/// the column, reported with the number of its occurrences.
pub proof fn lemma_top_frequencies(cells: Seq<Seq<char>>, i: int)
    requires
        0 <= i < top(running(cells).tally, TOP_K as nat).len(),
    ensures
        ({
            let e = top(running(cells).tally, TOP_K as nat)[i];
            distinct_values(cells).contains(e.0) && e.1 == occurrences(cells, e.0)
        }),
{
    let tally = running(cells).tally;
    let e = top(tally, TOP_K as nat)[i];
    lemma_top_members(tally, TOP_K as nat);
    lemma_tally(cells);
    assert(tally.contains(e));
    let j = choose|j: int| 0 <= j < tally.len() && tally[j] == e;
    assert(names_of(tally)[j] == e.0);
    assert(names_of(tally).to_set().contains(e.0));
}

/// Where the table has no more than `k` entries, all of them are among the
/// `k` most frequent.
pub proof fn lemma_top_all(t: Seq<(Seq<char>, nat)>, k: nat)
    requires
        t.len() <= k,
    ensures
        top(t, k).to_multiset() == t.to_multiset(),
    decreases k,
{
    broadcast use vstd::seq_lib::group_to_multiset_ensures;

    if t.len() == 0 {
        assert(top(t, k) =~= t);
    } else {
        let b = leader(t, t.len() as int);
        lemma_leader(t, t.len() as int);
        let rest = t.remove(b);
        lemma_top_all(rest, (k - 1) as nat);
        let tail = top(rest, (k - 1) as nat);
        vstd::seq_lib::lemma_multiset_commutative(seq![t[b]], tail);
        assert(seq![t[b]].to_multiset() =~= Multiset::empty().insert(t[b])) by {
            assert(seq![t[b]] =~= Seq::empty().push(t[b]));
        }
        assert(rest.to_multiset() =~= t.to_multiset().remove(t[b]));
        assert(t.to_multiset().count(t[b]) > 0) by {
            assert(t.contains(t[b]));
        }
        assert(top(t, k).to_multiset() =~= t.to_multiset());
    }
}

/// The entries of a frequency table as a set.
pub open spec fn entries(cells: Seq<Seq<char>>) -> Set<(Seq<char>, nat)> {
    Set::new(
        |e: (Seq<char>, nat)| distinct_values(cells).contains(e.0) && e.1 == occurrences(cells, e.0),
    )
}

proof fn lemma_entries(cells: Seq<Seq<char>>)
    ensures
        running(cells).tally.to_set() == entries(cells),
{
    let tally = running(cells).tally;
    lemma_tally(cells);
    assert forall|e: (Seq<char>, nat)| tally.to_set().contains(e) == entries(cells).contains(e) by {
        if tally.to_set().contains(e) {
            assert(tally.contains(e));
            let j = choose|j: int| 0 <= j < tally.len() && tally[j] == e;
            assert(names_of(tally)[j] == e.0);
            assert(names_of(tally).to_set().contains(e.0));
        }
        if entries(cells).contains(e) {
            assert(names_of(tally).to_set().contains(e.0));
            assert(names_of(tally).contains(e.0));
            let j = choose|j: int| 0 <= j < tally.len() && names_of(tally)[j] == e.0;
            assert(tally[j] == e);
        }
    }
    assert(tally.to_set() =~= entries(cells));
}

/// The frequency table, taken as a set, does not depend on the order of
/// the cells.
pub proof fn lemma_entries_order(a: Seq<Seq<char>>, b: Seq<Seq<char>>)
    requires
        a.to_multiset() == b.to_multiset(),
    ensures
        entries(a) == entries(b),
{
    lemma_distinct_values_order(a, b);
    assert forall|e: (Seq<char>, nat)| entries(a).contains(e) == entries(b).contains(e) by {
        lemma_occurrences_order(a, b, e.0);
    }
    assert(entries(a) =~= entries(b));
}

proof fn lemma_same_set(x: Seq<(Seq<char>, nat)>, y: Seq<(Seq<char>, nat)>)
    requires
        x.to_multiset() == y.to_multiset(),
    ensures
        x.to_set() == y.to_set(),
{
    broadcast use vstd::seq_lib::group_to_multiset_ensures;

    assert forall|e: (Seq<char>, nat)| x.to_set().contains(e) == y.to_set().contains(e) by {
        assert(x.contains(e) == (x.to_multiset().count(e) > 0));
        assert(y.contains(e) == (y.to_multiset().count(e) > 0));
    }
    assert(x.to_set() =~= y.to_set());
}

/// Where a column has no more distinct values than are reported, the most
/// frequent values, taken as a set, do not depend on the order of the cells.
pub proof fn lemma_top_order_few(a: Seq<Seq<char>>, b: Seq<Seq<char>>)
    requires
        a.to_multiset() == b.to_multiset(),
        distinct_values(a).len() <= TOP_K,
    ensures
        top(running(a).tally, TOP_K as nat).to_set() == top(running(b).tally, TOP_K as nat).to_set(),
{
    lemma_tally(a);
    lemma_tally(b);
    lemma_distinct_values_order(a, b);
    lemma_top_all(running(a).tally, TOP_K as nat);
    lemma_top_all(running(b).tally, TOP_K as nat);
    lemma_same_set(top(running(a).tally, TOP_K as nat), running(a).tally);
    lemma_same_set(top(running(b).tally, TOP_K as nat), running(b).tally);
    lemma_entries(a);
    lemma_entries(b);
    lemma_entries_order(a, b);
}

/// The least of two numbers.
pub open spec fn least_of(a: int, b: int) -> int {
    if a <= b {
        a
    } else {
        b
    }
}

/// The `k` most frequent entries of a table without repetitions: there are
/// `k` of them, or as many as the table holds; none is repeated; and no
/// entry that is left out is more frequent than one that is taken.
pub proof fn lemma_top_shape(t: Seq<(Seq<char>, nat)>, k: nat)
    requires
        t.no_duplicates(),
    ensures
        top(t, k).len() == least_of(k as int, t.len() as int),
        top(t, k).no_duplicates(),
        forall|e: (Seq<char>, nat), i: int|
            #![trigger t.contains(e), top(t, k)[i]]
            t.contains(e) && !top(t, k).contains(e) && 0 <= i < top(t, k).len() ==> e.1 <= top(
                t,
                k,
            )[i].1,
    decreases k,
{
    if k > 0 && t.len() > 0 {
        let b = leader(t, t.len() as int);
        lemma_leader(t, t.len() as int);
        let rest = t.remove(b);
        let r = top(rest, (k - 1) as nat);
        let all = top(t, k);
        assert(rest.no_duplicates());
        lemma_top_shape(rest, (k - 1) as nat);
        lemma_top_members(rest, (k - 1) as nat);
        assert(all =~= seq![t[b]] + r);
        assert forall|j: int| 0 <= j < rest.len() implies rest[j] != t[b] by {
            if j < b {
                assert(rest[j] == t[j]);
            } else {
                assert(rest[j] == t[j + 1]);
            }
        }
        assert forall|i: int| 0 <= i < r.len() implies r[i] != t[b] by {
            assert(rest.contains(r[i]));
        }
        assert forall|i: int, j: int| 0 <= i < all.len() && 0 <= j < all.len() && i != j implies all[i]
            != all[j] by {
            if i > 0 && j > 0 {
                assert(r[i - 1] != r[j - 1]);
            }
        }
        assert forall|e: (Seq<char>, nat), i: int|
            #![trigger t.contains(e), all[i]]
            t.contains(e) && !all.contains(e) && 0 <= i < all.len() implies e.1 <= all[i].1 by {
            let j = choose|j: int| 0 <= j < t.len() && t[j] == e;
            assert(all[0] == t[b]);
            assert(j != b);
            if j < b {
                assert(rest[j] == e);
            } else {
                assert(rest[j - 1] == e);
            }
            assert(rest.contains(e));
            if r.contains(e) {
                let q = choose|q: int| 0 <= q < r.len() && r[q] == e;
                assert(all[q + 1] == e);
            }
            if i > 0 {
                assert(all[i] == r[i - 1]);
            }
        }
    }
}

/// The most frequent entries come in the order of their frequencies, the
/// most frequent first.
pub proof fn lemma_top_descending(t: Seq<(Seq<char>, nat)>, k: nat)
    ensures
        forall|i: int, j: int|
            0 <= i < j < top(t, k).len() ==> (#[trigger] top(t, k)[i]).1 >= (#[trigger] top(
                t,
                k,
            )[j]).1,
    decreases k,
{
    if k > 0 && t.len() > 0 {
        let b = leader(t, t.len() as int);
        lemma_leader(t, t.len() as int);
        let rest = t.remove(b);
        let r = top(rest, (k - 1) as nat);
        let all = top(t, k);
        lemma_top_descending(rest, (k - 1) as nat);
        lemma_top_members(rest, (k - 1) as nat);
        assert(all =~= seq![t[b]] + r);
        assert forall|i: int, j: int| 0 <= i < j < all.len() implies (#[trigger] all[i]).1 >= (
        #[trigger] all[j]).1 by {
            assert(all[j] == r[j - 1]);
            if i == 0 {
                assert(rest.contains(r[j - 1]));
                let q = choose|q: int| 0 <= q < rest.len() && rest[q] == r[j - 1];
                if q < b {
                    assert(t[q] == rest[q]);
                } else {
                    assert(t[q + 1] == rest[q]);
                }
            } else {
                assert(all[i] == r[i - 1]);
            }
        }
    }
}

/// The entries that occur `m` times or more.
pub open spec fn frequent(t: Seq<(Seq<char>, nat)>, m: nat) -> Set<(Seq<char>, nat)> {
    Set::new(|e: (Seq<char>, nat)| t.contains(e) && e.1 >= m)
}

/// Where exactly `k` entries of a table occur `m` times or more, they are
/// the `k` most frequent.
pub proof fn lemma_top_decided(t: Seq<(Seq<char>, nat)>, k: nat, m: nat)
    requires
        t.no_duplicates(),
        frequent(t, m).len() == k,
    ensures
        top(t, k).to_set() == frequent(t, m),
{
    broadcast use vstd::seq_lib::group_seq_properties;

    let all = top(t, k);
    let chosen = all.to_set();
    let wanted = frequent(t, m);
    vstd::seq_lib::seq_to_set_is_finite(t);
    vstd::seq_lib::seq_to_set_is_finite(all);
    assert(wanted.subset_of(t.to_set()));
    vstd::set_lib::lemma_len_subset(wanted, t.to_set());
    t.lemma_cardinality_of_set();
    lemma_top_shape(t, k);
    lemma_top_members(t, k);
    all.unique_seq_to_set();
    assert(chosen.len() == k);
    if !wanted.subset_of(chosen) {
        let e = choose|e: (Seq<char>, nat)| wanted.contains(e) && !chosen.contains(e);
        assert(!all.contains(e));
        assert forall|x: (Seq<char>, nat)| chosen.contains(x) implies wanted.contains(x) by {
            assert(all.contains(x));
            let i = choose|i: int| 0 <= i < all.len() && all[i] == x;
            assert(e.1 <= all[i].1);
            assert(t.contains(all[i]));
        }
        assert(chosen.subset_of(wanted));
        vstd::set_lib::lemma_subset_equality(chosen, wanted);
        assert(false);
    }
    vstd::set_lib::lemma_subset_equality(wanted, chosen);
    assert(chosen =~= wanted);
}

/// The values of a column that occur `m` times or more, with the number of
/// their occurrences.
pub open spec fn frequent_values(cells: Seq<Seq<char>>, m: nat) -> Set<(Seq<char>, nat)> {
    Set::new(|e: (Seq<char>, nat)| entries(cells).contains(e) && e.1 >= m)
}

proof fn lemma_tally_distinct(cells: Seq<Seq<char>>)
    ensures
        running(cells).tally.no_duplicates(),
        forall|m: nat| #[trigger] frequent(running(cells).tally, m) == frequent_values(cells, m),
{
    let t = running(cells).tally;
    lemma_tally(cells);
    lemma_entries(cells);
    assert forall|i: int, j: int| 0 <= i < t.len() && 0 <= j < t.len() && i != j implies t[i]
        != t[j] by {
        assert(names_of(t)[i] != names_of(t)[j]);
    }
    assert forall|m: nat| #[trigger] frequent(t, m) == frequent_values(cells, m) by {
        assert forall|e: (Seq<char>, nat)| frequent(t, m).contains(e) == frequent_values(
            cells,
            m,
        ).contains(e) by {
            assert(t.contains(e) == t.to_set().contains(e));
        }
        assert(frequent(t, m) =~= frequent_values(cells, m));
    }
}

/// Where as many values as are reported occur `m` times or more, for some
/// `m`, the most frequent values, taken as a set, do not depend on the
/// order of the cells. Where too many values are as frequent as the last
/// one reported, the order decides which of them are reported.
pub proof fn lemma_top_order(a: Seq<Seq<char>>, b: Seq<Seq<char>>, m: nat)
    requires
        a.to_multiset() == b.to_multiset(),
        frequent_values(a, m).len() == TOP_K,
    ensures
        top(running(a).tally, TOP_K as nat).to_set() == top(running(b).tally, TOP_K as nat).to_set(),
        top(running(a).tally, TOP_K as nat).to_set() == frequent_values(a, m),
{
    lemma_tally_distinct(a);
    lemma_tally_distinct(b);
    lemma_entries_order(a, b);
    assert(frequent_values(a, m) =~= frequent_values(b, m));
    assert(frequent(running(a).tally, m) == frequent_values(a, m));
    assert(frequent(running(b).tally, m) == frequent_values(b, m));
    lemma_top_decided(running(a).tally, TOP_K as nat, m);
    lemma_top_decided(running(b).tally, TOP_K as nat, m);
}

} // verus!
