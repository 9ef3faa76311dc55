//! The test for null of a column and the test for a value in it.

use vstd::prelude::*;
use crate::error::lemma_first_equal;
use crate::filter::{holds, Formula};
use crate::parser::{
    call_body, first_split, is_structural, lemma_first_split, parsed, resolved, scan, splits_at,
    Failure, Scan,
};
use crate::text::{is_space, occurs_at, starts_with, trim};

verus! {

/// The text of the test for null of a column.
pub open spec fn null_test(c: Seq<char>) -> Seq<char> {
    "is_null("@ + c + ")"@
}

/// The text of the test for a value in a column.
pub open spec fn not_null_test(c: Seq<char>) -> Seq<char> {
    "is_not_null("@ + c + ")"@
}

/// No `||` and no `&&` splits the text.
pub open spec fn unsplit(t: Seq<char>) -> bool {
    first_split(t, "||"@, 0) is None && first_split(t, "&&"@, 0) is None
}

proof fn lemma_trim_keeps(s: Seq<char>)
    requires
        s.len() > 0,
        !is_space(s[0]),
        !is_space(s.last()),
    ensures
        trim(s) == s,
{
}

/// The test for null of a column, where nothing splits its text, is the
/// null test of that column.
pub proof fn lemma_null_test_parses(c: Seq<char>, header: Seq<Seq<char>>)
    requires
        unsplit(null_test(c)),
    ensures
        parsed(null_test(c), header) == match resolved(trim(c), header) {
            Ok(col) => Ok::<Formula, Failure>(Formula::IsNull(col)),
            Err(e) => Err(e),
        },
{
    let t = null_test(c);
    reveal_strlit("is_null(");
    reveal_strlit("contains(");
    reveal_strlit("in(");
    reveal_strlit(")");
    reveal_strlit("(");
    reveal_strlit("!");
    assert(t.len() == c.len() + 9);
    assert(t[0] == 'i');
    assert(t[1] == 's');
    assert(t.last() == ')');
    lemma_trim_keeps(t);
    assert(!starts_with(t, "contains("@)) by {
        if starts_with(t, "contains("@) {
            assert(t.subrange(0, 9)[0] == t[0]);
        }
    }
    assert(!starts_with(t, "in("@)) by {
        if starts_with(t, "in("@) {
            assert(t.subrange(0, 3)[1] == t[1]);
        }
    }
    assert(t.subrange(0, 8) =~= "is_null("@);
    assert(t.subrange(t.len() - 1, t.len() as int) =~= ")"@);
    assert(t.subrange(8, t.len() - 1) =~= c);
    assert(call_body(t, "is_null("@) == Some(c));
}

/// The test for a value in a column, where nothing splits its text, is the
/// negation of the null test of that column.
pub proof fn lemma_not_null_test_parses(c: Seq<char>, header: Seq<Seq<char>>)
    requires
        unsplit(not_null_test(c)),
    ensures
        parsed(not_null_test(c), header) == match resolved(trim(c), header) {
            Ok(col) => Ok::<Formula, Failure>(Formula::IsNotNull(col)),
            Err(e) => Err(e),
        },
{
    let t = not_null_test(c);
    reveal_strlit("is_not_null(");
    reveal_strlit("is_null(");
    reveal_strlit("contains(");
    reveal_strlit("in(");
    reveal_strlit(")");
    reveal_strlit("(");
    reveal_strlit("!");
    assert(t.len() == c.len() + 13);
    assert(t[0] == 'i');
    assert(t[1] == 's');
    assert(t[4] == 'o');
    assert(t.last() == ')');
    lemma_trim_keeps(t);
    assert(!starts_with(t, "contains("@)) by {
        if starts_with(t, "contains("@) {
            assert(t.subrange(0, 9)[0] == t[0]);
        }
    }
    assert(!starts_with(t, "in("@)) by {
        if starts_with(t, "in("@) {
            assert(t.subrange(0, 3)[1] == t[1]);
        }
    }
    assert(!starts_with(t, "is_null("@)) by {
        if starts_with(t, "is_null("@) {
            assert(t.subrange(0, 8)[4] == t[4]);
        }
    }
    assert(t.subrange(0, 12) =~= "is_not_null("@);
    assert(t.subrange(t.len() - 1, t.len() as int) =~= ")"@);
    assert(t.subrange(12, t.len() - 1) =~= c);
    assert(call_body(t, "is_not_null("@) == Some(c));
}

/// For every row, the test for null of a column holds exactly where the
/// test for a value in it does not. The two tests compile together or fail
/// together. This is said of the texts that nothing splits.
pub proof fn lemma_null_tests_complement(
    c: Seq<char>,
    header: Seq<Seq<char>>,
    row: Seq<Seq<char>>,
)
    requires
        unsplit(null_test(c)),
        unsplit(not_null_test(c)),
    ensures
        match (parsed(null_test(c), header), parsed(not_null_test(c), header)) {
            (Ok(x), Ok(y)) => holds(x, row) == !holds(y, row),
            (Err(_), Err(_)) => true,
            _ => false,
        },
{
    lemma_null_test_parses(c, header);
    lemma_not_null_test_parses(c, header);
}

/// A text without quotes, brackets and backslashes.
pub open spec fn is_plain(c: Seq<char>) -> bool {
    forall|i: int| 0 <= i < c.len() ==> !is_structural(#[trigger] c[i])
}

proof fn lemma_scan_plain(t: Seq<char>, from: int, to: int)
    requires
        0 <= from <= to <= t.len(),
        !scan(t, from).escaped,
        forall|k: int| from <= k < to ==> !is_structural(#[trigger] t[k]),
    ensures
        scan(t, to) == scan(t, from),
    decreases to - from,
{
    if from < to {
        lemma_scan_plain(t, from, to - 1);
        assert(!is_structural(t[to - 1]));
    }
}

/// A call with a plain argument is not split at a sign that does not
/// begin with a letter of the name of the function.
proof fn lemma_call_unsplit(name: Seq<char>, c: Seq<char>, op: Seq<char>)
    requires
        name.len() > 0,
        name.last() == '(',
        op.len() > 0,
        forall|i: int|
            0 <= i < name.len() - 1 ==> !is_structural(#[trigger] name[i]) && name[i] != op[0],
        is_plain(c),
    ensures
        first_split(name + c + seq![')'], op, 0) is None,
{
    let t = name + c + seq![')'];
    let n = name.len() as int;
    let inside = Scan { depth: 1, quoted: false, escaped: false };
    assert forall|k: int| 0 <= k < n - 1 implies !is_structural(#[trigger] t[k]) by {
        assert(t[k] == name[k]);
    }
    lemma_scan_plain(t, 0, n - 1);
    assert(t[n - 1] == '(');
    assert(scan(t, n) == inside);
    assert forall|k: int| n <= k < n + c.len() implies !is_structural(#[trigger] t[k]) by {
        assert(t[k] == c[k - n]);
    }
    assert forall|i: int| 0 <= i < t.len() implies !splits_at(t, op, i) by {
        if i < n - 1 {
            assert(t[i] == name[i]);
            if occurs_at(t, op, i) {
                assert(t.subrange(i, i + op.len())[0] == t[i]);
            }
        } else if i == n - 1 {
        } else if i < n + c.len() {
            lemma_scan_plain(t, n, i);
        } else {
            assert(t[i] == ')');
        }
    }
    lemma_first_split(t, op, 0);
}

/// The tests for null of a column with a plain name are not split.
pub proof fn lemma_plain_unsplit(c: Seq<char>)
    requires
        is_plain(c),
    ensures
        unsplit(null_test(c)),
        unsplit(not_null_test(c)),
{
    reveal_strlit("is_null(");
    reveal_strlit("is_not_null(");
    reveal_strlit(")");
    reveal_strlit("||");
    reveal_strlit("&&");
    assert(")"@ =~= seq![')']);
    lemma_call_unsplit("is_null("@, c, "||"@);
    lemma_call_unsplit("is_null("@, c, "&&"@);
    lemma_call_unsplit("is_not_null("@, c, "||"@);
    lemma_call_unsplit("is_not_null("@, c, "&&"@);
}

/// For every row and every column with a plain name, the test for null of
/// the column holds exactly where the test for a value in it does not.
pub proof fn lemma_null_tests_of_plain_column(
    c: Seq<char>,
    header: Seq<Seq<char>>,
    row: Seq<Seq<char>>,
)
    requires
        is_plain(c),
        header.contains(trim(c)),
    ensures
        match (parsed(null_test(c), header), parsed(not_null_test(c), header)) {
            (Ok(x), Ok(y)) => holds(x, row) == !holds(y, row),
            _ => false,
        },
{
    lemma_plain_unsplit(c);
    lemma_null_test_parses(c, header);
    lemma_not_null_test_parses(c, header);
    lemma_first_equal(trim(c), header, header.len() as int);
}

} // verus!
