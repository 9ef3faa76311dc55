//! Errors, and the search for a column name that the user may have meant.

use vstd::prelude::*;
use vstd::string::StringExecFns;
use crate::number::{decimal_text, usize_text};
use crate::record::texts;
use crate::text::{push_chars, same, to_chars};

verus! {

/// A column name offered in place of one that was not found.
#[derive(Debug, Clone, PartialEq, Eq)]
pub struct ColumnSuggestion {
    pub suggested: String,
}

/// What can go wrong when a query is set up.
#[derive(Debug, Clone, PartialEq, Eq)]
pub enum CsvpeekError {
    FileNotFound(String),
    ColumnNotFound { name: String, suggestion: Option<ColumnSuggestion> },
    ColumnIndexOutOfRange { index: usize, max: usize },
    InvalidFilter(String),
    ParseError { position: usize, message: String },
}

/// The words of a suggestion.
pub open spec fn suggestion_text(s: Seq<char>) -> Seq<char> {
    "did you mean \""@ + s + "\"?"@
}

/// The message of an error.
pub open spec fn message_of(e: CsvpeekError) -> Seq<char> {
    match e {
        CsvpeekError::FileNotFound(path) => "File not found: "@ + path@,
        CsvpeekError::ColumnNotFound { name, suggestion } => "Column not found: "@ + name@,
        CsvpeekError::ColumnIndexOutOfRange { index, max } => "Column index "@ + decimal_text(
            index as nat,
        ) + " is out of range (max: "@ + decimal_text(max as nat) + ")"@,
        CsvpeekError::InvalidFilter(m) => "Invalid filter expression: "@ + m@,
        CsvpeekError::ParseError { position, message } => "Parse error at position "@
            + decimal_text(position as nat) + ": "@ + message@,
    }
}

impl ColumnSuggestion {
    /// The suggestion in words.
    pub fn to_string(&self) -> (r: String)
        ensures
            r@ == suggestion_text(self.suggested@),
    {
        let mut m = "did you mean \"".to_owned();
        m.append(self.suggested.as_str());
        m.append("\"?");
        m
    }
}

impl CsvpeekError {
    /// The message of the error.
    pub fn to_string(&self) -> (r: String)
        ensures
            r@ == message_of(*self),
    {
        match self {
            CsvpeekError::FileNotFound(path) => {
                let mut m = "File not found: ".to_owned();
                m.append(path.as_str());
                m
            },
            CsvpeekError::ColumnNotFound { name, suggestion } => {
                let mut m = "Column not found: ".to_owned();
                m.append(name.as_str());
                m
            },
            CsvpeekError::ColumnIndexOutOfRange { index, max } => {
                let mut m = "Column index ".to_owned();
                push_chars(&mut m, usize_text(*index).as_slice());
                m.append(" is out of range (max: ");
                push_chars(&mut m, usize_text(*max).as_slice());
                m.append(")");
                m
            },
            CsvpeekError::InvalidFilter(text) => {
                let mut m = "Invalid filter expression: ".to_owned();
                m.append(text.as_str());
                m
            },
            CsvpeekError::ParseError { position, message } => {
                let mut m = "Parse error at position ".to_owned();
                push_chars(&mut m, usize_text(*position).as_slice());
                m.append(": ");
                m.append(message.as_str());
                m
            },
        }
    }
}

pub open spec fn min2(x: int, y: int) -> int {
    if x <= y {
        x
    } else {
        y
    }
}

/// Whether `a` and `b` end in the same two characters, exchanged.
pub open spec fn ends_exchanged(a: Seq<char>, b: Seq<char>) -> bool {
    a.len() >= 2 && b.len() >= 2 && a[a.len() - 1] == b[b.len() - 2] && a[a.len() - 2] == b[b.len()
        - 1]
}

/// The edit distance of `a` and `b`: the least number of edits that turn
/// `a` into `b`, where an edit inserts, deletes or replaces one character,
/// or exchanges two neighbouring characters.
pub open spec fn edit_distance(a: Seq<char>, b: Seq<char>) -> int
    decreases a.len() + b.len(),
{
    if a.len() == 0 {
        b.len() as int
    } else if b.len() == 0 {
        a.len() as int
    } else {
        let replace: int = if a.last() == b.last() {
            0
        } else {
            1
        };
        let single = min2(
            min2(edit_distance(a.drop_last(), b) + 1, edit_distance(a, b.drop_last()) + 1),
            edit_distance(a.drop_last(), b.drop_last()) + replace,
        );
        if ends_exchanged(a, b) {
            min2(single, edit_distance(a.take(a.len() - 2), b.take(b.len() - 2)) + 1)
        } else {
            single
        }
    }
}

/// The lower-case form of a text by the rules of Unicode.
pub uninterp spec fn lowercase_of(s: Seq<char>) -> Seq<char>;

/// `str::to_lowercase` returns the lower-case equivalent of its argument as
/// a new string; the result depends on the argument alone.
pub assume_specification[ str::to_lowercase ](s: &str) -> (r: std::string::String)
    ensures
        r@ == lowercase_of(s@),
;

pub proof fn lemma_edit_distance_bounds(a: Seq<char>, b: Seq<char>)
    ensures
        0 <= edit_distance(a, b),
        edit_distance(a, b) <= a.len() || edit_distance(a, b) <= b.len(),
    decreases a.len() + b.len(),
{
    if a.len() > 0 && b.len() > 0 {
        lemma_edit_distance_bounds(a.drop_last(), b);
        lemma_edit_distance_bounds(a, b.drop_last());
        lemma_edit_distance_bounds(a.drop_last(), b.drop_last());
        if ends_exchanged(a, b) {
            lemma_edit_distance_bounds(a.take(a.len() - 2), b.take(b.len() - 2));
        }
    }
}

/// The distance of two prefixes by the distances of shorter ones.
proof fn lemma_edit_distance_step(a: Seq<char>, b: Seq<char>, i: int, j: int)
    requires
        0 <= i < a.len(),
        0 <= j < b.len(),
    ensures
        ({
            let single = min2(
                min2(
                    edit_distance(a.take(i), b.take(j + 1)) + 1,
                    edit_distance(a.take(i + 1), b.take(j)) + 1,
                ),
                edit_distance(a.take(i), b.take(j)) + if a[i] == b[j] {
                    0int
                } else {
                    1int
                },
            );
            edit_distance(a.take(i + 1), b.take(j + 1)) == if i >= 1 && j >= 1 && a[i] == b[j - 1]
                && a[i - 1] == b[j] {
                min2(single, edit_distance(a.take(i - 1), b.take(j - 1)) + 1)
            } else {
                single
            }
        }),
{
    let x = a.take(i + 1);
    let y = b.take(j + 1);
    assert(x.drop_last() =~= a.take(i));
    assert(y.drop_last() =~= b.take(j));
    if i >= 1 && j >= 1 {
        assert(x.take(x.len() - 2) =~= a.take(i - 1));
        assert(y.take(y.len() - 2) =~= b.take(j - 1));
        assert(x[x.len() - 1] == a[i] && x[x.len() - 2] == a[i - 1]);
        assert(y[y.len() - 1] == b[j] && y[y.len() - 2] == b[j - 1]);
    }
}

/// The row of distances of the empty text to every prefix of a text of
/// `n` characters.
fn first_row(Ghost(a): Ghost<Seq<char>>, Ghost(b): Ghost<Seq<char>>, n: usize) -> (row: Vec<usize>)
    requires
        n == b.len(),
    ensures
        row@.len() == n + 1,
        forall|k: int| 0 <= k <= n ==> row@[k] == edit_distance(a.take(0), #[trigger] b.take(k)),
{
    let mut row: Vec<usize> = Vec::new();
    let mut j: usize = 0;
    while j < n
        invariant
            j <= n,
            row@.len() == j,
            forall|k: int| 0 <= k < j ==> row@[k] == k,
        decreases n - j,
    {
        row.push(j);
        j += 1;
    }
    row.push(n);
    assert(a.take(0).len() == 0);
    assert forall|k: int| 0 <= k <= n implies row@[k] == edit_distance(
        a.take(0),
        #[trigger] b.take(k),
    ) by {}
    row
}

/// The edit distance of two texts given as characters.
pub fn distance(a: &[char], b: &[char]) -> (d: usize)
    ensures
        d == edit_distance(a@, b@),
{
    let m: usize = a.len();
    let n: usize = b.len();
    let mut prev: Vec<usize> = first_row(Ghost(a@), Ghost(b@), n);
    let mut before: Vec<usize> = Vec::new();
    let mut i: usize = 0;
    while i < m
        invariant
            i <= m == a@.len(),
            n == b@.len(),
            prev@.len() == n + 1,
            forall|k: int|
                0 <= k <= n ==> prev@[k] == edit_distance(a@.take(i as int), #[trigger] b@.take(k)),
            i >= 1 ==> before@.len() == n + 1 && forall|k: int|
                0 <= k <= n ==> before@[k] == edit_distance(
                    a@.take(i - 1),
                    #[trigger] b@.take(k),
                ),
        decreases m - i,
    {
        let mut cur: Vec<usize> = Vec::new();
        cur.push(i + 1);
        assert(b@.take(0).len() == 0);
        let mut j: usize = 0;
        while j < n
            invariant
                i < m == a@.len(),
                j <= n == b@.len(),
                prev@.len() == n + 1,
                cur@.len() == j + 1,
                forall|k: int|
                    0 <= k <= n ==> prev@[k] == edit_distance(
                        a@.take(i as int),
                        #[trigger] b@.take(k),
                    ),
                i >= 1 ==> before@.len() == n + 1 && forall|k: int|
                    0 <= k <= n ==> before@[k] == edit_distance(
                        a@.take(i - 1),
                        #[trigger] b@.take(k),
                    ),
                forall|k: int|
                    0 <= k <= j ==> cur@[k] == edit_distance(a@.take(i + 1), #[trigger] b@.take(k)),
            decreases n - j,
        {
            let replace: u128 = if a[i] == b[j] {
                0
            } else {
                1
            };
            let remove: u128 = prev[j + 1] as u128 + 1;
            let insert: u128 = cur[j] as u128 + 1;
            let change: u128 = prev[j] as u128 + replace;
            let side: u128 = if remove <= insert {
                remove
            } else {
                insert
            };
            let single: u128 = if side <= change {
                side
            } else {
                change
            };
            let best: u128 = if i >= 1 && j >= 1 && a[i] == b[j - 1] && a[i - 1] == b[j] {
                let exchange: u128 = before[j - 1] as u128 + 1;
                if exchange < single {
                    exchange
                } else {
                    single
                }
            } else {
                single
            };
            proof {
                lemma_edit_distance_step(a@, b@, i as int, j as int);
                lemma_edit_distance_bounds(a@.take(i + 1), b@.take(j + 1));
            }
            cur.push(best as usize);
            j += 1;
        }
        before = prev;
        prev = cur;
        i += 1;
    }
    assert(a@.take(m as int) =~= a@);
    assert(b@.take(n as int) =~= b@);
    prev[n]
}

/// The edit distance of two texts.
pub fn levenshtein_distance(a: &str, b: &str) -> (d: usize)
    ensures
        d == edit_distance(a@, b@),
{
    let x = to_chars(a);
    let y = to_chars(b);
    distance(x.as_slice(), y.as_slice())
}

/// Picks the name to suggest, given the lower-case forms of the name that
/// was asked for and of every known name.
pub fn pick_similar(target: &[char], lowered: &Vec<Vec<char>>) -> (r: Option<usize>)
    ensures
        match r {
            Some(i) => i < lowered@.len(),
            None => true,
        },
        ({
            let forms = Seq::new(lowered@.len(), |i: int| lowered@[i]@);
            r == pick(target@, forms)
        }),
{
    let ghost forms = Seq::new(lowered@.len(), |i: int| lowered@[i]@);
    let n: usize = lowered.len();
    let mut i: usize = 0;
    while i < n
        invariant
            i <= n == lowered@.len(),
            forms == Seq::new(lowered@.len(), |i: int| lowered@[i]@),
            first_equal(target@, forms, i as int) is None,
        decreases n - i,
    {
        if same(target, lowered[i].as_slice()) {
            proof {
                lemma_first_equal_stays(target@, forms, i + 1, n as int);
            }
            return Some(i);
        }
        i += 1;
    }
    let mut best: Option<(usize, usize)> = None;
    let mut k: usize = 0;
    while k < n
        invariant
            k <= n == lowered@.len(),
            forms == Seq::new(lowered@.len(), |i: int| lowered@[i]@),
            first_equal(target@, forms, n as int) is None,
            match best {
                Some((at, d)) => at < k && nearest(target@, forms, k as int) == Some(at as int) && d
                    == edit_distance(target@, forms[at as int]),
                None => nearest(target@, forms, k as int) is None,
            },
        decreases n - k,
    {
        let d = distance(target, lowered[k].as_slice());
        if d <= 2 {
            match best {
                None => {
                    best = Some((k, d));
                },
                Some((_, least)) => {
                    if d < least {
                        best = Some((k, d));
                    }
                },
            }
        }
        k += 1;
    }
    match best {
        Some((at, _)) => Some(at),
        None => None,
    }
}

/// Among the first `n` forms, the index of the first one equal to `target`.
pub open spec fn first_equal(target: Seq<char>, forms: Seq<Seq<char>>, n: int) -> Option<int>
    decreases n,
{
    if n <= 0 {
        None
    } else {
        match first_equal(target, forms, n - 1) {
            Some(i) => Some(i),
            None => if forms[n - 1] == target {
                Some(n - 1)
            } else {
                None
            },
        }
    }
}

/// What `first_equal` finds is the first of the forms that equal the
/// target.
pub proof fn lemma_first_equal(target: Seq<char>, forms: Seq<Seq<char>>, n: int)
    requires
        0 <= n <= forms.len(),
    ensures
        match first_equal(target, forms, n) {
            Some(i) => 0 <= i < n && forms[i] == target && forall|j: int|
                0 <= j < i ==> forms[j] != target,
            None => forall|j: int| 0 <= j < n ==> forms[j] != target,
        },
    decreases n,
{
    if n > 0 {
        lemma_first_equal(target, forms, n - 1);
    }
}

pub proof fn lemma_first_equal_stays(target: Seq<char>, forms: Seq<Seq<char>>, k: int, n: int)
    requires
        0 <= k <= n,
        first_equal(target, forms, k) is Some,
    ensures
        first_equal(target, forms, n) == first_equal(target, forms, k),
    decreases n - k,
{
    if k < n {
        lemma_first_equal_stays(target, forms, k, n - 1);
    }
}

/// Among the first `n` forms, the index of the first one at the least edit
/// distance from `target`, forms further than two edits away left out.
pub open spec fn nearest(target: Seq<char>, forms: Seq<Seq<char>>, n: int) -> Option<int>
    decreases n,
{
    if n <= 0 {
        None
    } else {
        let before = nearest(target, forms, n - 1);
        let d = edit_distance(target, forms[n - 1]);
        if d <= 2 && (before is None || d < edit_distance(target, forms[before.unwrap()])) {
            Some(n - 1)
        } else {
            before
        }
    }
}

/// The index to suggest: that of the first form equal to `target`; failing
/// that, that of the first of the nearest forms, within two edits.
pub open spec fn pick(target: Seq<char>, forms: Seq<Seq<char>>) -> Option<usize> {
    match first_equal(target, forms, forms.len() as int) {
        Some(i) => Some(i as usize),
        None => match nearest(target, forms, forms.len() as int) {
            Some(i) => Some(i as usize),
            None => None,
        },
    }
}

/// The lower-case forms of a list of names.
pub open spec fn lowercase_forms(names: Seq<Seq<char>>) -> Seq<Seq<char>> {
    Seq::new(names.len(), |i: int| lowercase_of(names[i]))
}

/// The name to suggest in place of `name`: the first one that differs from
/// it in case only; failing that, the first of those nearest to it in lower
/// case, within two edits.
pub open spec fn similar(name: Seq<char>, names: Seq<Seq<char>>) -> Option<Seq<char>> {
    match pick(lowercase_of(name), lowercase_forms(names)) {
        Some(i) => Some(names[i as int]),
        None => None,
    }
}

/// The text of an optional string.
pub open spec fn text_of(s: Option<String>) -> Option<Seq<char>> {
    match s {
        Some(x) => Some(x@),
        None => None,
    }
}

/// Looks for a column name that `name` may be a misspelling of.
pub fn find_similar_column(name: &str, headers: &[String]) -> (r: Option<String>)
    ensures
        text_of(r) == similar(name@, texts(headers@)),
{
    let target = to_chars(name.to_lowercase().as_str());
    let n: usize = headers.len();
    let mut lowered: Vec<Vec<char>> = Vec::new();
    let mut i: usize = 0;
    while i < n
        invariant
            i <= n == headers@.len(),
            lowered@.len() == i,
            forall|k: int| 0 <= k < i ==> lowered@[k]@ == lowercase_of(headers@[k]@),
        decreases n - i,
    {
        lowered.push(to_chars(headers[i].as_str().to_lowercase().as_str()));
        i += 1;
    }
    assert(Seq::new(lowered@.len(), |i: int| lowered@[i]@) =~= lowercase_forms(texts(headers@)));
    match pick_similar(target.as_slice(), &lowered) {
        Some(at) => Some(headers[at].clone()),
        None => None,
    }
}

} // verus!
