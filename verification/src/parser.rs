//! The grammar of filters.
//!
//! A filter is split at the first `||` that stands outside quotes and
//! brackets; failing that, at the first such `&&`. What cannot be split is a
//! negation, a bracketed filter, a function call or a comparison, tried in
//! this order.

use vstd::prelude::*;
use vstd::string::StringExecFns;
use crate::error::{find_similar_column, first_equal, similar, ColumnSuggestion, CsvpeekError};
use crate::filter::{Column, ColumnRef, CompareOp, Expr, Formula, Literal, Operand, items};
use crate::number::{number_of, parse_decimal};
use crate::pattern::{error_text, is_pattern, language_of};
use crate::record::texts;
use crate::text::{
    ends_with, find, has_prefix, has_suffix, index_of, lemma_trim_idempotent, lemma_trim_len,
    matches_at, occurs_at, push_chars, same, starts_with, to_chars, to_string, trim, trimmed,
};

verus! {

/// Where a scan of a filter text stands: how many brackets are open, whether
/// a quote is open, and whether the next character is escaped.
pub ghost struct Scan {
    pub depth: int,
    pub quoted: bool,
    pub escaped: bool,
}

/// One step of the scan. A backslash escapes the character behind it; a
/// quote opens or closes a string; outside strings `(` and `[` open a level
/// and `)` and `]` close one.
pub open spec fn scan_step(st: Scan, c: char) -> Scan {
    if st.escaped {
        Scan { escaped: false, ..st }
    } else if c == '\\' {
        Scan { escaped: true, ..st }
    } else if c == '"' {
        Scan { quoted: !st.quoted, ..st }
    } else if !st.quoted && (c == '(' || c == '[') {
        Scan { depth: st.depth + 1, ..st }
    } else if !st.quoted && (c == ')' || c == ']') {
        Scan { depth: st.depth - 1, ..st }
    } else {
        st
    }
}

/// The state of the scan in front of the character at index `i`.
pub open spec fn scan(s: Seq<char>, i: int) -> Scan
    decreases i,
{
    if i <= 0 {
        Scan { depth: 0, quoted: false, escaped: false }
    } else {
        scan_step(scan(s, i - 1), s[i - 1])
    }
}

/// The characters that steer the scan.
pub open spec fn is_structural(c: char) -> bool {
    c == '\\' || c == '"' || c == '(' || c == ')' || c == '[' || c == ']'
}

/// `op` stands at index `i` of `s`, outside quotes and brackets.
pub open spec fn splits_at(s: Seq<char>, op: Seq<char>, i: int) -> bool {
    let st = scan(s, i);
    0 <= i < s.len() && !st.escaped && !st.quoted && st.depth == 0 && !is_structural(s[i])
        && occurs_at(s, op, i)
}

/// The first index at or after `from` at which `s` splits.
pub open spec fn first_split(s: Seq<char>, op: Seq<char>, from: int) -> Option<int>
    decreases s.len() - from,
{
    if from < 0 || from >= s.len() {
        None
    } else if splits_at(s, op, from) {
        Some(from)
    } else {
        first_split(s, op, from + 1)
    }
}

/// Why a text is no filter.
pub ghost enum Failure {
    ColumnNotFound { name: Seq<char>, suggestion: Option<Seq<char>> },
    BadArguments,
    ExpectedArray,
    Unparsable(Seq<char>),
    BadPattern(Seq<char>),
}

/// The text of an optional suggestion.
pub open spec fn suggested(s: Option<ColumnSuggestion>) -> Option<Seq<char>> {
    match s {
        Some(x) => Some(x.suggested@),
        None => None,
    }
}

/// Whether an error tells of a failure. The message of a pattern that does
/// not compile ends with the compiler's own words, which are left open.
pub open spec fn reports(e: CsvpeekError, f: Failure) -> bool {
    match f {
        Failure::ColumnNotFound { name, suggestion } => e matches CsvpeekError::ColumnNotFound {
            name: n,
            suggestion: s,
        } && n@ == name && suggested(s) == suggestion,
        Failure::BadArguments => e matches CsvpeekError::InvalidFilter(m) && m@
            == "Invalid function arguments"@,
        Failure::ExpectedArray => e matches CsvpeekError::InvalidFilter(m) && m@
            == "Expected array"@,
        Failure::Unparsable(t) => e matches CsvpeekError::InvalidFilter(m) && m@
            == "Cannot parse expression: "@ + t,
        Failure::BadPattern(p) => e matches CsvpeekError::InvalidFilter(m) && starts_with(
            m@,
            "Invalid regex pattern '"@ + p + "': "@,
        ),
    }
}

/// The column of the header with the given name: the first one, where
/// several have it.
pub open spec fn resolved(name: Seq<char>, header: Seq<Seq<char>>) -> Result<ColumnRef, Failure> {
    match first_equal(name, header, header.len() as int) {
        Some(i) => Ok(ColumnRef { name, index: i }),
        None => Err(Failure::ColumnNotFound { name, suggestion: similar(name, header) }),
    }
}

pub open spec fn is_quoted(v: Seq<char>) -> bool {
    v.len() >= 2 && v[0] == '"' && v.last() == '"'
}

/// `v` without the quotes around it, if it has them.
pub open spec fn unquoted(v: Seq<char>) -> Seq<char> {
    if is_quoted(v) {
        v.subrange(1, v.len() - 1)
    } else {
        v
    }
}

/// The two arguments of a call: the text is split at its first comma outside
/// quotes and brackets, both parts are trimmed, and the second loses its
/// quotes.
pub open spec fn arguments(s: Seq<char>) -> Option<(Seq<char>, Seq<char>)> {
    match first_split(s, ","@, 0) {
        Some(i) => Some((trim(s.subrange(0, i)), unquoted(trim(s.subrange(i + 1, s.len() as int))))),
        None => None,
    }
}

/// `rest` with `x` in front, unless `x` is empty.
pub open spec fn kept(x: Seq<char>, rest: Seq<Seq<char>>) -> Seq<Seq<char>> {
    if x.len() > 0 {
        seq![x] + rest
    } else {
        rest
    }
}

/// The items of a list: the text is split at every comma, each part is
/// trimmed and loses its quotes, and empty parts are dropped.
pub open spec fn list_items(s: Seq<char>) -> Seq<Seq<char>>
    decreases s.len(),
{
    match index_of(s, ","@) {
        Some(i) => if 0 <= i < s.len() {
            kept(unquoted(trim(s.subrange(0, i))), list_items(s.subrange(i + 1, s.len() as int)))
        } else {
            Seq::empty()
        },
        None => kept(unquoted(trim(s)), Seq::empty()),
    }
}

/// The items of an array literal `[a, b, ..]`.
pub open spec fn array_of(v: Seq<char>) -> Option<Seq<Seq<char>>> {
    let t = trim(v);
    if starts_with(t, "["@) && ends_with(t, "]"@) {
        Some(list_items(t.subrange(1, t.len() - 1)))
    } else {
        None
    }
}

/// What stands between `name`, which ends in `(`, and a closing `)`.
pub open spec fn call_body(t: Seq<char>, name: Seq<char>) -> Option<Seq<char>> {
    if starts_with(t, name) && ends_with(t, ")"@) && name.len() < t.len() {
        Some(t.subrange(name.len() as int, t.len() - 1))
    } else {
        None
    }
}

/// A call with a column and a second argument.
pub open spec fn binary_call(
    body: Seq<char>,
    header: Seq<Seq<char>>,
) -> Result<(ColumnRef, Seq<char>), Failure> {
    match arguments(body) {
        None => Err(Failure::BadArguments),
        Some((col, val)) => match resolved(col, header) {
            Err(e) => Err(e),
            Ok(c) => Ok((c, val)),
        },
    }
}

/// The function call that a trimmed text `t` is, if it is one.
pub open spec fn call_of(t: Seq<char>, header: Seq<Seq<char>>) -> Option<Result<Formula, Failure>> {
    if call_body(t, "contains("@) is Some {
        Some(
            match binary_call(call_body(t, "contains("@).unwrap(), header) {
                Err(e) => Err(e),
                Ok((c, val)) => Ok(Formula::Contains(c, val)),
            },
        )
    } else if call_body(t, "in("@) is Some {
        Some(
            match binary_call(call_body(t, "in("@).unwrap(), header) {
                Err(e) => Err(e),
                Ok((c, val)) => match array_of(val) {
                    None => Err(Failure::ExpectedArray),
                    Some(vs) => Ok(Formula::In(c, vs)),
                },
            },
        )
    } else if call_body(t, "is_null("@) is Some {
        Some(
            match resolved(trim(call_body(t, "is_null("@).unwrap()), header) {
                Err(e) => Err(e),
                Ok(c) => Ok(Formula::IsNull(c)),
            },
        )
    } else if call_body(t, "is_not_null("@) is Some {
        Some(
            match resolved(trim(call_body(t, "is_not_null("@).unwrap()), header) {
                Err(e) => Err(e),
                Ok(c) => Ok(Formula::IsNotNull(c)),
            },
        )
    } else if call_body(t, "matches("@) is Some {
        Some(
            match binary_call(call_body(t, "matches("@).unwrap(), header) {
                Err(e) => Err(e),
                Ok((c, val)) => if is_pattern(val) {
                    Ok(Formula::Matches(c, language_of(val)))
                } else {
                    Err(Failure::BadPattern(val))
                },
            },
        )
    } else {
        None
    }
}

/// The comparison signs, in the order in which they are looked for.
pub open spec fn signs() -> Seq<(Seq<char>, CompareOp)> {
    seq![
        ("=="@, CompareOp::Eq),
        ("!="@, CompareOp::Ne),
        ("<="@, CompareOp::Le),
        (">="@, CompareOp::Ge),
        ("<"@, CompareOp::Lt),
        (">"@, CompareOp::Gt),
    ]
}

/// The literal on the right of a comparison: a quoted text, else a number,
/// else the bare text.
pub open spec fn operand_of(v: Seq<char>) -> Operand {
    if is_quoted(v) {
        Operand::Text(v.subrange(1, v.len() - 1))
    } else {
        match number_of(v) {
            Some(n) => Operand::Number(n),
            None => Operand::Text(v),
        }
    }
}

/// The comparison that `t` is, by the first sign from the `k`-th on that
/// occurs in it; the text is split at the first occurrence of that sign.
pub open spec fn comparison_of(t: Seq<char>, header: Seq<Seq<char>>, k: int) -> Result<
    Formula,
    Failure,
>
    decreases 6 - k,
{
    if k < 0 || k >= 6 {
        Err(Failure::Unparsable(t))
    } else {
        let sign = signs()[k].0;
        match index_of(t, sign) {
            Some(i) => match resolved(trim(t.subrange(0, i)), header) {
                Err(e) => Err(e),
                Ok(c) => Ok(
                    Formula::Compare(
                        c,
                        signs()[k].1,
                        operand_of(trim(t.subrange(i + sign.len(), t.len() as int))),
                    ),
                ),
            },
            None => comparison_of(t, header, k + 1),
        }
    }
}

/// Two filters joined by `||`; the failure of the left one comes first.
pub open spec fn either(a: Result<Formula, Failure>, b: Result<Formula, Failure>) -> Result<
    Formula,
    Failure,
> {
    match a {
        Err(e) => Err(e),
        Ok(x) => match b {
            Err(e) => Err(e),
            Ok(y) => Ok(Formula::Or(Box::new(x), Box::new(y))),
        },
    }
}

/// Two filters joined by `&&`; the failure of the left one comes first.
pub open spec fn both(a: Result<Formula, Failure>, b: Result<Formula, Failure>) -> Result<
    Formula,
    Failure,
> {
    match a {
        Err(e) => Err(e),
        Ok(x) => match b {
            Err(e) => Err(e),
            Ok(y) => Ok(Formula::And(Box::new(x), Box::new(y))),
        },
    }
}

pub open spec fn negated(a: Result<Formula, Failure>) -> Result<Formula, Failure> {
    match a {
        Err(e) => Err(e),
        Ok(x) => Ok(Formula::Not(Box::new(x))),
    }
}

/// A split point lies inside the text, and nothing splits before it.
pub proof fn lemma_first_split(s: Seq<char>, op: Seq<char>, from: int)
    requires
        0 <= from,
    ensures
        match first_split(s, op, from) {
            Some(i) => from <= i < s.len() && splits_at(s, op, i) && forall|j: int|
                from <= j < i ==> !splits_at(s, op, j),
            None => forall|j: int| from <= j < s.len() ==> !splits_at(s, op, j),
        },
    decreases s.len() - from,
{
    if from < s.len() && !splits_at(s, op, from) {
        lemma_first_split(s, op, from + 1);
    }
}

/// The filter that a text stands for against a header, or why it is none.
pub open spec fn parsed(s: Seq<char>, header: Seq<Seq<char>>) -> Result<Formula, Failure>
    decreases s.len(),
{
    let t = trim(s);
    if first_split(t, "||"@, 0) is Some {
        let i = first_split(t, "||"@, 0).unwrap();
        proof {
            lemma_trim_len(s);
            lemma_first_split(t, "||"@, 0);
            reveal_strlit("||");
        }
        either(parsed(t.subrange(0, i), header), parsed(t.subrange(i + 2, t.len() as int), header))
    } else if first_split(t, "&&"@, 0) is Some {
        let i = first_split(t, "&&"@, 0).unwrap();
        proof {
            lemma_trim_len(s);
            lemma_first_split(t, "&&"@, 0);
            reveal_strlit("&&");
        }
        both(parsed(t.subrange(0, i), header), parsed(t.subrange(i + 2, t.len() as int), header))
    } else if t.len() > 0 && t[0] == '!' && !starts_with(t, "!="@) {
        proof {
            lemma_trim_len(s);
        }
        negated(parsed(t.subrange(1, t.len() as int), header))
    } else if t.len() >= 2 && t[0] == '(' && t.last() == ')' {
        proof {
            lemma_trim_len(s);
        }
        parsed(t.subrange(1, t.len() - 1), header)
    } else {
        match call_of(t, header) {
            Some(r) => r,
            None => comparison_of(t, header, 0),
        }
    }
}

/// Finds the first place at which `s` splits at `op`.
pub fn find_operator(s: &[char], op: &[char]) -> (r: Option<usize>)
    ensures
        match r {
            Some(i) => first_split(s@, op@, 0) == Some(i as int),
            None => first_split(s@, op@, 0) is None,
        },
{
    let n: usize = s.len();
    let mut depth: i128 = 0;
    let mut quoted = false;
    let mut escaped = false;
    let mut i: usize = 0;
    while i < n
        invariant
            i <= n == s@.len(),
            scan(s@, i as int) == (Scan { depth: depth as int, quoted, escaped }),
            -(i as int) <= depth <= i,
            first_split(s@, op@, 0) == first_split(s@, op@, i as int),
        decreases n - i,
    {
        let c = s[i];
        if escaped {
            escaped = false;
        } else if c == '\\' {
            escaped = true;
        } else if c == '"' {
            quoted = !quoted;
        } else if !quoted && (c == '(' || c == '[') {
            depth += 1;
        } else if !quoted && (c == ')' || c == ']') {
            depth -= 1;
        } else if !quoted && depth == 0 && matches_at(s, op, i) {
            return Some(i);
        }
        i += 1;
    }
    None
}

fn unquote(v: &[char]) -> (r: &[char])
    ensures
        r@ == unquoted(v@),
{
    let n: usize = v.len();
    if n >= 2 && v[0] == '"' && v[n - 1] == '"' {
        vstd::slice::slice_subrange(v, 1, n - 1)
    } else {
        v
    }
}

fn invalid(message: &str) -> (e: CsvpeekError)
    ensures
        e matches CsvpeekError::InvalidFilter(m) && m@ == message@,
{
    CsvpeekError::InvalidFilter(message.to_owned())
}

/// Splits the arguments of a call.
pub fn parse_func_args(s: &[char]) -> (r: Result<(Vec<char>, Vec<char>), CsvpeekError>)
    ensures
        match arguments(s@) {
            Some((c, v)) => r matches Ok(p) && p.0@ == c && p.1@ == v,
            None => r matches Err(e) && reports(e, Failure::BadArguments),
        },
{
    let comma = to_chars(",");
    match find_operator(s, comma.as_slice()) {
        Some(i) => {
            proof {
                lemma_first_split(s@, ","@, 0);
            }
            let n: usize = s.len();
            let col = trimmed(vstd::slice::slice_subrange(s, 0, i));
            let val = unquote(trimmed(vstd::slice::slice_subrange(s, i + 1, n)));
            Ok((vstd::slice::slice_to_vec(col), vstd::slice::slice_to_vec(val)))
        },
        None => Err(invalid("Invalid function arguments")),
    }
}

proof fn lemma_items_push(v: Seq<Vec<char>>, x: Vec<char>)
    ensures
        items(v.push(x)) == items(v) + seq![x@],
{
    assert(items(v.push(x)) =~= items(v) + seq![x@]);
}

/// Reads an array literal.
pub fn parse_array(s: &[char]) -> (r: Result<Vec<Vec<char>>, CsvpeekError>)
    ensures
        match array_of(s@) {
            Some(vs) => r matches Ok(x) && items(x@) == vs,
            None => r matches Err(e) && reports(e, Failure::ExpectedArray),
        },
{
    let t = trimmed(s);
    let open = to_chars("[");
    let close = to_chars("]");
    proof {
        reveal_strlit("[");
        reveal_strlit("]");
        reveal_strlit(",");
    }
    if !(has_prefix(t, open.as_slice()) && has_suffix(t, close.as_slice())) {
        return Err(invalid("Expected array"));
    }
    assert(t@.subrange(0, 1)[0] == '[');
    assert(t@.subrange(t@.len() - 1, t@.len() as int)[0] == ']');
    let inner = vstd::slice::slice_subrange(t, 1, t.len() - 1);
    let comma = to_chars(",");
    let mut out: Vec<Vec<char>> = Vec::new();
    let mut rest: &[char] = inner;
    let mut done = false;
    assert(items(out@) + list_items(rest@) =~= list_items(inner@));
    while !done
        invariant
            comma@ == ","@,
            ","@.len() == 1,
            !done ==> items(out@) + list_items(rest@) == list_items(inner@),
            done ==> items(out@) == list_items(inner@),
        decreases rest@.len() + if done { 0int } else { 1int },
    {
        let ghost before = out@;
        match find(rest, comma.as_slice()) {
            Some(i) => {
                let piece = unquote(trimmed(vstd::slice::slice_subrange(rest, 0, i)));
                let ghost tail = list_items(rest@.subrange(i + 1, rest@.len() as int));
                if piece.len() > 0 {
                    out.push(vstd::slice::slice_to_vec(piece));
                    proof {
                        lemma_items_push(before, out@.last());
                        assert(items(out@) + tail =~= items(before) + (seq![piece@] + tail));
                    }
                }
                let n: usize = rest.len();
                rest = vstd::slice::slice_subrange(rest, i + 1, n);
            },
            None => {
                let piece = unquote(trimmed(rest));
                if piece.len() > 0 {
                    out.push(vstd::slice::slice_to_vec(piece));
                    proof {
                        lemma_items_push(before, out@.last());
                        assert(items(out@) =~= items(before) + (seq![piece@] + Seq::empty()));
                    }
                } else {
                    assert(items(out@) =~= items(before) + Seq::empty());
                }
                done = true;
            },
        }
    }
    Ok(out)
}

/// Looks a column name up in the header.
pub fn validate_column(col: &[char], headers: &Vec<String>) -> (r: Result<Column, CsvpeekError>)
    ensures
        match resolved(col@, texts(headers@)) {
            Ok(c) => r matches Ok(x) && x@ == c,
            Err(f) => r matches Err(e) && reports(e, f),
        },
{
    let n: usize = headers.len();
    let mut i: usize = 0;
    while i < n
        invariant
            i <= n == headers@.len(),
            first_equal(col@, texts(headers@), i as int) is None,
        decreases n - i,
    {
        let h = to_chars(headers[i].as_str());
        if same(col, h.as_slice()) {
            proof {
                crate::error::lemma_first_equal_stays(col@, texts(headers@), i + 1, n as int);
            }
            return Ok(Column { name: vstd::slice::slice_to_vec(col), index: i });
        }
        i += 1;
    }
    let name = to_string(col);
    let suggestion = match find_similar_column(name.as_str(), headers.as_slice()) {
        Some(s) => Some(ColumnSuggestion { suggested: s }),
        None => None,
    };
    Err(CsvpeekError::ColumnNotFound { name, suggestion })
}

fn call_inner<'a>(s: &'a [char], name: &str) -> (r: Option<&'a [char]>)
    ensures
        match call_body(s@, name@) {
            Some(b) => r matches Some(x) && x@ == b,
            None => r is None,
        },
{
    let pre = to_chars(name);
    let close = to_chars(")");
    if has_prefix(s, pre.as_slice()) && has_suffix(s, close.as_slice()) && pre.len() < s.len() {
        Some(vstd::slice::slice_subrange(s, pre.len(), s.len() - 1))
    } else {
        None
    }
}

fn parse_binary_call(body: &[char], headers: &Vec<String>) -> (r: Result<
    (Column, Vec<char>),
    CsvpeekError,
>)
    ensures
        match binary_call(body@, texts(headers@)) {
            Ok((c, v)) => r matches Ok(p) && p.0@ == c && p.1@ == v,
            Err(f) => r matches Err(e) && reports(e, f),
        },
{
    match parse_func_args(body) {
        Err(e) => Err(e),
        Ok((col, val)) => match validate_column(col.as_slice(), headers) {
            Err(e) => Err(e),
            Ok(c) => Ok((c, val)),
        },
    }
}

fn compile_pattern(c: Column, val: Vec<char>) -> (r: Result<Expr, CsvpeekError>)
    ensures
        if is_pattern(val@) {
            r matches Ok(x) && x@ == Formula::Matches(c@, language_of(val@))
        } else {
            r matches Err(e) && reports(e, Failure::BadPattern(val@))
        },
{
    let pattern = to_string(val.as_slice());
    match regex::Regex::new(pattern.as_str()) {
        Ok(re) => Ok(Expr::Matches(c, re)),
        Err(e) => {
            let mut m = "Invalid regex pattern '".to_owned();
            push_chars(&mut m, val.as_slice());
            m.append("': ");
            let ghost head = m@;
            m.append(error_text(&e).as_str());
            assert(m@.subrange(0, head.len() as int) =~= head);
            Err(CsvpeekError::InvalidFilter(m))
        },
    }
}

/// Reads a function call, or says that the text is none. The text is
/// trimmed first.
pub fn parse_function(s: &[char], headers: &Vec<String>) -> (r: Result<Option<Expr>, CsvpeekError>)
    ensures
        match call_of(trim(s@), texts(headers@)) {
            Some(Ok(f)) => r matches Ok(Some(x)) && x@ == f,
            Some(Err(f)) => r matches Err(e) && reports(e, f),
            None => r matches Ok(None),
        },
{
    let s = trimmed(s);
    if let Some(body) = call_inner(s, "contains(") {
        return match parse_binary_call(body, headers) {
            Err(e) => Err(e),
            Ok((c, val)) => Ok(Some(Expr::Contains(c, val))),
        };
    }
    if let Some(body) = call_inner(s, "in(") {
        return match parse_binary_call(body, headers) {
            Err(e) => Err(e),
            Ok((c, val)) => match parse_array(val.as_slice()) {
                Err(e) => Err(e),
                Ok(vs) => Ok(Some(Expr::In(c, vs))),
            },
        };
    }
    if let Some(body) = call_inner(s, "is_null(") {
        return match validate_column(trimmed(body), headers) {
            Err(e) => Err(e),
            Ok(c) => Ok(Some(Expr::IsNull(c))),
        };
    }
    if let Some(body) = call_inner(s, "is_not_null(") {
        return match validate_column(trimmed(body), headers) {
            Err(e) => Err(e),
            Ok(c) => Ok(Some(Expr::IsNotNull(c))),
        };
    }
    if let Some(body) = call_inner(s, "matches(") {
        return match parse_binary_call(body, headers) {
            Err(e) => Err(e),
            Ok((c, val)) => match compile_pattern(c, val) {
                Err(e) => Err(e),
                Ok(x) => Ok(Some(x)),
            },
        };
    }
    Ok(None)
}

fn sign_at(k: usize) -> (r: (&'static str, CompareOp))
    requires
        k < 6,
    ensures
        (r.0@, r.1) == signs()[k as int],
{
    match k {
        0 => ("==", CompareOp::Eq),
        1 => ("!=", CompareOp::Ne),
        2 => ("<=", CompareOp::Le),
        3 => (">=", CompareOp::Ge),
        4 => ("<", CompareOp::Lt),
        _ => (">", CompareOp::Gt),
    }
}

fn parse_operand(v: &[char]) -> (r: Literal)
    ensures
        r@ == operand_of(v@),
{
    let n: usize = v.len();
    if n >= 2 && v[0] == '"' && v[n - 1] == '"' {
        Literal::Text(vstd::slice::slice_to_vec(vstd::slice::slice_subrange(v, 1, n - 1)))
    } else {
        match parse_decimal(v) {
            Some(d) => Literal::Number(d),
            None => Literal::Text(vstd::slice::slice_to_vec(v)),
        }
    }
}

/// Reads a comparison.
pub fn parse_comparison(s: &[char], headers: &Vec<String>) -> (r: Result<Expr, CsvpeekError>)
    ensures
        match comparison_of(s@, texts(headers@), 0) {
            Ok(f) => r matches Ok(x) && x@ == f,
            Err(f) => r matches Err(e) && reports(e, f),
        },
{
    let mut k: usize = 0;
    while k < 6
        invariant
            k <= 6,
            comparison_of(s@, texts(headers@), 0) == comparison_of(s@, texts(headers@), k as int),
        decreases 6 - k,
    {
        let (sign, op) = sign_at(k);
        let mark = to_chars(sign);
        match find(s, mark.as_slice()) {
            Some(i) => {
                let n: usize = s.len();
                let col = trimmed(vstd::slice::slice_subrange(s, 0, i));
                let val = trimmed(vstd::slice::slice_subrange(s, i + mark.len(), n));
                return match validate_column(col, headers) {
                    Err(e) => Err(e),
                    Ok(c) => Ok(Expr::Compare(c, op, parse_operand(val))),
                };
            },
            None => {},
        }
        k += 1;
    }
    let mut m = "Cannot parse expression: ".to_owned();
    push_chars(&mut m, s);
    Err(CsvpeekError::InvalidFilter(m))
}

/// Reads a filter.
pub fn parse_expr(s: &[char], headers: &Vec<String>) -> (r: Result<Expr, CsvpeekError>)
    ensures
        match parsed(s@, texts(headers@)) {
            Ok(f) => r matches Ok(x) && x@ == f,
            Err(f) => r matches Err(e) && reports(e, f),
        },
    decreases s@.len(),
{
    let t = trimmed(s);
    let n: usize = t.len();
    proof {
        lemma_trim_len(s@);
        lemma_trim_idempotent(s@);
        reveal_strlit("||");
        reveal_strlit("&&");
        lemma_first_split(t@, "||"@, 0);
        lemma_first_split(t@, "&&"@, 0);
    }
    let or_sign = to_chars("||");
    if let Some(i) = find_operator(t, or_sign.as_slice()) {
        let left = parse_expr(vstd::slice::slice_subrange(t, 0, i), headers);
        match left {
            Err(e) => {
                return Err(e);
            },
            Ok(a) => {
                let right = parse_expr(vstd::slice::slice_subrange(t, i + 2, n), headers);
                return match right {
                    Err(e) => Err(e),
                    Ok(b) => Ok(Expr::Or(Box::new(a), Box::new(b))),
                };
            },
        }
    }
    let and_sign = to_chars("&&");
    if let Some(i) = find_operator(t, and_sign.as_slice()) {
        let left = parse_expr(vstd::slice::slice_subrange(t, 0, i), headers);
        match left {
            Err(e) => {
                return Err(e);
            },
            Ok(a) => {
                let right = parse_expr(vstd::slice::slice_subrange(t, i + 2, n), headers);
                return match right {
                    Err(e) => Err(e),
                    Ok(b) => Ok(Expr::And(Box::new(a), Box::new(b))),
                };
            },
        }
    }
    let not_equal = to_chars("!=");
    if n > 0 && t[0] == '!' && !has_prefix(t, not_equal.as_slice()) {
        return match parse_expr(vstd::slice::slice_subrange(t, 1, n), headers) {
            Err(e) => Err(e),
            Ok(a) => Ok(Expr::Not(Box::new(a))),
        };
    }
    if n >= 2 && t[0] == '(' && t[n - 1] == ')' {
        return parse_expr(vstd::slice::slice_subrange(t, 1, n - 1), headers);
    }
    match parse_function(t, headers) {
        Err(e) => Err(e),
        Ok(Some(x)) => Ok(x),
        Ok(None) => parse_comparison(t, headers),
    }
}

} // verus!
