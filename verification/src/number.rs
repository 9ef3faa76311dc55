//! Numbers as they are written in cells and filter literals.
//!
//! Whole numbers are read into `i64`. Every other number is kept exactly, in
//! normalised scientific notation: a sign, the significant digits
//! `d1 d2 .. dn` (no leading and no trailing zero) and the position `top` of
//! the decimal point, standing for `0.d1d2..dn * 10^top`. Numbers in this form
//! are ordered by sign, then by `top`, then by their digits.

use vstd::prelude::*;
use vstd::relations::{sorted_by, total_ordering};
use crate::text::{
    append_chars, lemma_lex_asymmetric, lemma_lex_connected, lemma_lex_irreflexive,
    lemma_lex_transitive, less, lex_less, same, to_chars,
};


verus! {

pub open spec fn is_digit(c: char) -> bool {
    '0' <= c <= '9'
}

pub open spec fn digit_of(c: char) -> int {
    c as int - 48
}

pub open spec fn all_digits(s: Seq<char>) -> bool {
    forall|i: int| 0 <= i < s.len() ==> is_digit(#[trigger] s[i])
}

/// The number that a run of decimal digits denotes.
pub open spec fn digits_value(s: Seq<char>) -> int
    decreases s.len(),
{
    if s.len() == 0 {
        0
    } else {
        digits_value(s.drop_last()) * 10 + digit_of(s.last())
    }
}

pub open spec fn is_sign(c: char) -> bool {
    c == '+' || c == '-'
}

/// The value of a whole-number literal: an optional sign, then one or more
/// digits.
pub open spec fn integer_of(s: Seq<char>) -> Option<int> {
    let signed = s.len() > 0 && is_sign(s[0]);
    let body = if signed {
        s.drop_first()
    } else {
        s
    };
    if body.len() > 0 && all_digits(body) {
        if signed && s[0] == '-' {
            Some(-digits_value(body))
        } else {
            Some(digits_value(body))
        }
    } else {
        None
    }
}

/// The value of a whole-number literal that fits 64 signed bits.
pub open spec fn i64_of(s: Seq<char>) -> Option<i64> {
    match integer_of(s) {
        Some(v) => if i64::MIN <= v <= i64::MAX {
            Some(v as i64)
        } else {
            None
        },
        None => None,
    }
}

/// The value of an index literal: an optional `+`, then one or more digits,
/// within the range of `usize`.
pub open spec fn usize_of(s: Seq<char>) -> Option<usize> {
    let body = if s.len() > 0 && s[0] == '+' {
        s.drop_first()
    } else {
        s
    };
    if body.len() > 0 && all_digits(body) && digits_value(body) <= usize::MAX {
        Some(digits_value(body) as usize)
    } else {
        None
    }
}

pub fn is_digit_char(c: char) -> (r: bool)
    ensures
        r == is_digit(c),
{
    let u: u32 = c as u32;
    48 <= u && u <= 57
}

pub proof fn lemma_digits_value_push(s: Seq<char>, i: int)
    requires
        0 <= i < s.len(),
    ensures
        digits_value(s.take(i + 1)) == digits_value(s.take(i)) * 10 + digit_of(s[i]),
{
    assert(s.take(i + 1).drop_last() =~= s.take(i));
}

/// A longer run of digits never denotes a smaller number than its prefix.
pub proof fn lemma_digits_value_grows(s: Seq<char>, i: int)
    requires
        0 <= i <= s.len(),
        all_digits(s),
    ensures
        0 <= digits_value(s.take(i)) <= digits_value(s),
    decreases s.len() - i,
{
    if i == s.len() {
        assert(s.take(i) =~= s);
        lemma_digits_value_nonnegative(s);
    } else {
        lemma_digits_value_push(s, i);
        lemma_digits_value_grows(s, i + 1);
        assert(is_digit(s[i]));
        lemma_digits_value_nonnegative(s.take(i));
    }
}

pub proof fn lemma_digits_value_nonnegative(s: Seq<char>)
    requires
        all_digits(s),
    ensures
        0 <= digits_value(s),
    decreases s.len(),
{
    if s.len() > 0 {
        assert(is_digit(s.last()));
        assert forall|i: int| 0 <= i < s.drop_last().len() implies is_digit(
            #[trigger] s.drop_last()[i],
        ) by {
            assert(s.drop_last()[i] == s[i]);
        }
        lemma_digits_value_nonnegative(s.drop_last());
    }
}

/// Reads a run of digits as the negative of its value, or says that the run
/// holds something else or that the value is beyond `2^63`.
fn negated_value(body: &[char]) -> (r: Option<i64>)
    ensures
        match r {
            Some(v) => all_digits(body@) && v == -digits_value(body@),
            None => !all_digits(body@) || digits_value(body@) > 0x8000_0000_0000_0000,
        },
{
    let n: usize = body.len();
    let mut acc: i64 = 0;
    let mut i: usize = 0;
    assert(body@.take(0) =~= Seq::<char>::empty());
    while i < n
        invariant
            i <= n == body@.len(),
            all_digits(body@.take(i as int)),
            acc == -digits_value(body@.take(i as int)),
            acc <= 0,
        decreases n - i,
    {
        let c = body[i];
        if !is_digit_char(c) {
            return None;
        }
        let d: i64 = (c as u32 - 48) as i64;
        proof {
            lemma_digits_value_push(body@, i as int);
            if all_digits(body@) {
                lemma_digits_value_grows(body@, i + 1);
            }
        }
        if acc < -922337203685477580 {
            return None;
        }
        let shifted: i64 = acc * 10;
        if shifted < i64::MIN + d {
            return None;
        }
        acc = shifted - d;
        proof {
            assert forall|j: int| 0 <= j < body@.take(i + 1).len() implies is_digit(
                #[trigger] body@.take(i + 1)[j],
            ) by {
                if j < i {
                    assert(body@.take(i as int)[j] == body@[j]);
                }
            }
        }
        i += 1;
    }
    assert(body@.take(n as int) =~= body@);
    Some(acc)
}

/// Reads a whole-number literal.
pub fn parse_i64(s: &[char]) -> (r: Option<i64>)
    ensures
        r == i64_of(s@),
{
    let n: usize = s.len();
    if n == 0 {
        return None;
    }
    let negative = s[0] == '-';
    let signed = s[0] == '-' || s[0] == '+';
    let body = if signed {
        vstd::slice::slice_subrange(s, 1, n)
    } else {
        s
    };
    assert(signed ==> body@ =~= s@.drop_first());
    if body.len() == 0 {
        return None;
    }
    match negated_value(body) {
        None => None,
        Some(v) => {
            if negative {
                Some(v)
            } else if v == i64::MIN {
                None
            } else {
                Some(-v)
            }
        },
    }
}

/// Reads a run of digits as its value, or says that the run holds
/// something else or that the value is beyond the range of `usize`.
fn unsigned_value(body: &[char]) -> (r: Option<usize>)
    ensures
        match r {
            Some(v) => all_digits(body@) && v == digits_value(body@),
            None => !all_digits(body@) || digits_value(body@) > usize::MAX,
        },
{
    let m: usize = body.len();
    let mut acc: usize = 0;
    let mut i: usize = 0;
    assert(body@.take(0) =~= Seq::<char>::empty());
    while i < m
        invariant
            i <= m == body@.len(),
            all_digits(body@.take(i as int)),
            acc == digits_value(body@.take(i as int)),
        decreases m - i,
    {
        let c = body[i];
        if !is_digit_char(c) {
            return None;
        }
        let d: usize = (c as u32 - 48) as usize;
        proof {
            lemma_digits_value_push(body@, i as int);
            if all_digits(body@) {
                lemma_digits_value_grows(body@, i + 1);
            }
        }
        if acc > usize::MAX / 10 {
            return None;
        }
        let shifted: usize = acc * 10;
        if shifted > usize::MAX - d {
            return None;
        }
        acc = shifted + d;
        proof {
            assert forall|j: int| 0 <= j < body@.take(i + 1).len() implies is_digit(
                #[trigger] body@.take(i + 1)[j],
            ) by {
                if j < i {
                    assert(body@.take(i as int)[j] == body@[j]);
                }
            }
        }
        i += 1;
    }
    assert(body@.take(m as int) =~= body@);
    Some(acc)
}

/// Reads an index literal.
pub fn parse_usize(s: &[char]) -> (r: Option<usize>)
    ensures
        r == usize_of(s@),
{
    let n: usize = s.len();
    let body = if n > 0 && s[0] == '+' {
        vstd::slice::slice_subrange(s, 1, n)
    } else {
        s
    };
    assert(n > 0 && s@[0] == '+' ==> body@ =~= s@.drop_first());
    if body.len() == 0 {
        return None;
    }
    unsigned_value(body)
}

/// The character of a digit.
pub open spec fn digit_char(d: int) -> char {
    (48 + d) as char
}

/// A natural number written in decimal digits.
pub open spec fn decimal_text(n: nat) -> Seq<char>
    decreases n,
{
    if n < 10 {
        seq![digit_char(n as int)]
    } else {
        decimal_text(n / 10).push(digit_char((n % 10) as int))
    }
}

/// Appends `n` in decimal digits.
pub fn push_decimal(out: &mut Vec<char>, n: usize)
    ensures
        final(out)@ == old(out)@ + decimal_text(n as nat),
    decreases n,
{
    if n >= 10 {
        push_decimal(out, n / 10);
    }
    let d: u8 = (n % 10) as u8;
    out.push((48u8 + d) as char);
    assert(out@ =~= old(out)@ + decimal_text(n as nat));
}

/// `n` in decimal digits.
pub fn usize_text(n: usize) -> (r: Vec<char>)
    ensures
        r@ == decimal_text(n as nat),
{
    let mut out: Vec<char> = Vec::new();
    push_decimal(&mut out, n);
    assert(out@ =~= decimal_text(n as nat));
    out
}

/// A number in normalised scientific notation: `0.d1d2..dn * 10^top`.
pub ghost struct Number {
    pub negative: bool,
    pub top: int,
    pub digits: Seq<char>,
}

/// The parts of a decimal literal.
pub ghost struct LiteralParts {
    pub negative: bool,
    pub whole: Seq<char>,
    pub fraction: Seq<char>,
    pub exponent: int,
}

/// The greatest `top` of a number that is kept.
pub const MAX_TOP: i32 = 309;

/// The least `top` of a number that is told apart from zero.
pub const MIN_TOP: i32 = -323;

/// Exponents are read up to this magnitude and no further.
pub const EXPONENT_CAP: i64 = 1000000000;

/// The digits of the least magnitude with `top == MAX_TOP` that is too large
/// for a double-precision number: `2^1024 - 2^970`.
pub const LIMIT: &'static str =
    "179769313486231580793728971405303415079934132710037826936173778980444968292764750946649017977587207096330286416692887910946555547851940402630657488671505820681908902000708383676273854845817711531764475730270069855571366959622842914819860834936475292719074168444365510704342711559699508093042880177904174497792";

pub open spec fn zero() -> Number {
    Number { negative: false, top: 0, digits: Seq::empty() }
}

/// The index of the first character at or after `from` that is no digit.
pub open spec fn digits_end(s: Seq<char>, from: int) -> int
    decreases s.len() - from,
{
    if 0 <= from < s.len() && is_digit(s[from]) {
        digits_end(s, from + 1)
    } else {
        from
    }
}

pub open spec fn capped(v: int) -> int {
    if v > EXPONENT_CAP {
        EXPONENT_CAP as int
    } else {
        v
    }
}

/// Splits a decimal literal into its parts: an optional sign; digits with at
/// most one `.` among them, before them or behind them; and optionally `e`
/// or `E`, an optional sign and digits.
pub open spec fn literal_of(s: Seq<char>) -> Option<LiteralParts> {
    let first: int = if s.len() > 0 && is_sign(s[0]) {
        1
    } else {
        0
    };
    let dot = digits_end(s, first);
    let dotted = dot < s.len() && s[dot] == '.';
    let after_dot = if dotted {
        dot + 1
    } else {
        dot
    };
    let mark = if dotted {
        digits_end(s, after_dot)
    } else {
        after_dot
    };
    let negative = first == 1 && s[0] == '-';
    let whole = s.subrange(first, dot);
    let fraction = s.subrange(after_dot, mark);
    if dot - first + mark - after_dot == 0 {
        None
    } else if mark == s.len() {
        Some(LiteralParts { negative, whole, fraction, exponent: 0 })
    } else if s[mark] == 'e' || s[mark] == 'E' {
        let signed = mark + 1 < s.len() && is_sign(s[mark + 1]);
        let exp_from = if signed {
            mark + 2
        } else {
            mark + 1
        };
        let exp_to = digits_end(s, exp_from);
        if exp_from < exp_to && exp_to == s.len() {
            let magnitude = capped(digits_value(s.subrange(exp_from, exp_to)));
            let exponent = if signed && s[mark + 1] == '-' {
                -magnitude
            } else {
                magnitude
            };
            Some(LiteralParts { negative, whole, fraction, exponent })
        } else {
            None
        }
    } else {
        None
    }
}

pub open spec fn skip_zeros(s: Seq<char>) -> Seq<char>
    decreases s.len(),
{
    if s.len() > 0 && s[0] == '0' {
        skip_zeros(s.drop_first())
    } else {
        s
    }
}

pub open spec fn drop_trailing_zeros(s: Seq<char>) -> Seq<char>
    decreases s.len(),
{
    if s.len() > 0 && s.last() == '0' {
        drop_trailing_zeros(s.drop_last())
    } else {
        s
    }
}

/// The digits of a literal from its first to its last that is not zero.
pub open spec fn significant(l: LiteralParts) -> Seq<char> {
    drop_trailing_zeros(skip_zeros(l.whole + l.fraction))
}

/// The place of the decimal point of a literal, counted from the first of
/// its significant digits.
pub open spec fn literal_top(l: LiteralParts) -> int {
    let mantissa = l.whole + l.fraction;
    l.whole.len() - (mantissa.len() - skip_zeros(mantissa).len()) + l.exponent
}

/// The number that a literal stands for. A magnitude below `10^(MIN_TOP - 1)`
/// counts as zero; one of `2^1024 - 2^970` or more is no number.
pub open spec fn number_of_literal(l: LiteralParts) -> Option<Number> {
    let digits = significant(l);
    let top = literal_top(l);
    if digits.len() == 0 || top < MIN_TOP {
        Some(zero())
    } else if top > MAX_TOP || (top == MAX_TOP && !lex_less(digits, LIMIT@)) {
        None
    } else {
        Some(Number { negative: l.negative, top, digits })
    }
}

/// The number that a text stands for, if it is a decimal literal within
/// range.
pub open spec fn number_of(s: Seq<char>) -> Option<Number> {
    match literal_of(s) {
        Some(l) => number_of_literal(l),
        None => None,
    }
}

/// The form in which every number is kept.
pub open spec fn is_canonical(n: Number) -> bool {
    &&& all_digits(n.digits)
    &&& n.digits.len() == 0 ==> n == zero()
    &&& n.digits.len() > 0 ==> {
        &&& n.digits[0] != '0'
        &&& n.digits.last() != '0'
        &&& MIN_TOP <= n.top <= MAX_TOP
        &&& n.top == MAX_TOP ==> lex_less(n.digits, LIMIT@)
    }
}

/// Order of magnitudes: zero first, then by `top`, then by the digits.
pub open spec fn magnitude_less(a: Number, b: Number) -> bool {
    if b.digits.len() == 0 {
        a.digits.len() == 0 && a.top < b.top
    } else if a.digits.len() == 0 {
        true
    } else if a.top != b.top {
        a.top < b.top
    } else {
        lex_less(a.digits, b.digits)
    }
}

/// The order of numbers.
pub open spec fn number_less(a: Number, b: Number) -> bool {
    if a.negative != b.negative {
        a.negative
    } else if a.negative {
        magnitude_less(b, a)
    } else {
        magnitude_less(a, b)
    }
}

pub open spec fn number_at_most(a: Number, b: Number) -> bool {
    a == b || number_less(a, b)
}

/// `number_at_most` as a relation.
pub open spec fn at_most() -> spec_fn(Number, Number) -> bool {
    |a: Number, b: Number| number_at_most(a, b)
}

/// The numbers of `s` in ascending order.
pub open spec fn ascending(s: Seq<Number>) -> Seq<Number> {
    s.sort_by(at_most())
}

proof fn lemma_magnitude_order(a: Number, b: Number, c: Number)
    ensures
        !magnitude_less(a, a),
        magnitude_less(a, b) ==> !magnitude_less(b, a),
        magnitude_less(a, b) && magnitude_less(b, c) ==> magnitude_less(a, c),
        a.digits != b.digits || a.top != b.top ==> magnitude_less(a, b) || magnitude_less(b, a),
{
    lemma_lex_irreflexive(a.digits);
    if lex_less(a.digits, b.digits) {
        lemma_lex_asymmetric(a.digits, b.digits);
    }
    if lex_less(a.digits, b.digits) && lex_less(b.digits, c.digits) {
        lemma_lex_transitive(a.digits, b.digits, c.digits);
    }
    if a.digits != b.digits {
        lemma_lex_connected(a.digits, b.digits);
    } else {
        assert(a.digits.len() == b.digits.len());
    }
}

/// Numbers are totally ordered.
pub proof fn lemma_number_order(a: Number, b: Number, c: Number)
    ensures
        !number_less(a, a),
        number_less(a, b) ==> !number_less(b, a),
        number_less(a, b) && number_less(b, c) ==> number_less(a, c),
        a != b ==> number_less(a, b) || number_less(b, a),
{
    lemma_magnitude_order(a, b, c);
    lemma_magnitude_order(c, b, a);
    lemma_magnitude_order(b, a, c);
}

/// `number_at_most` is a total order.
pub proof fn lemma_at_most_total()
    ensures
        total_ordering(at_most()),
{
    let r = at_most();
    assert forall|x: Number, y: Number| #[trigger] r(x, y) && #[trigger] r(y, x) implies x
        == y by {
        lemma_number_order(x, y, x);
    }
    assert forall|x: Number, y: Number, z: Number| #[trigger] r(x, y) && #[trigger] r(y, z) implies r(
        x,
        z,
    ) by {
        lemma_number_order(x, y, z);
    }
    assert forall|x: Number, y: Number| #[trigger] r(x, y) || #[trigger] r(y, x) by {
        lemma_number_order(x, y, x);
    }
}

/// A number read from text.
#[derive(Debug, Clone, PartialEq, Eq)]
pub struct Decimal {
    negative: bool,
    top: i32,
    digits: Vec<char>,
}

impl View for Decimal {
    type V = Number;

    closed spec fn view(&self) -> Number {
        Number { negative: self.negative, top: self.top as int, digits: self.digits@ }
    }
}

fn scan_digits(s: &[char], from: usize) -> (end: usize)
    requires
        from <= s@.len(),
    ensures
        from <= end <= s@.len(),
        end == digits_end(s@, from as int),
        all_digits(s@.subrange(from as int, end as int)),
{
    let mut i: usize = from;
    while i < s.len() && is_digit_char(s[i])
        invariant
            from <= i <= s@.len(),
            digits_end(s@, from as int) == digits_end(s@, i as int),
            all_digits(s@.subrange(from as int, i as int)),
        decreases s@.len() - i,
    {
        proof {
            assert forall|j: int| 0 <= j < s@.subrange(from as int, i + 1).len() implies is_digit(
                #[trigger] s@.subrange(from as int, i + 1)[j],
            ) by {
                if j < i - from {
                    assert(s@.subrange(from as int, i as int)[j] == s@[from + j]);
                }
            }
        }
        i += 1;
    }
    i
}

fn capped_value(body: &[char]) -> (v: i64)
    requires
        all_digits(body@),
    ensures
        v == capped(digits_value(body@)),
        0 <= v <= EXPONENT_CAP,
{
    let n: usize = body.len();
    let mut acc: i64 = 0;
    let mut i: usize = 0;
    assert(body@.take(0) =~= Seq::<char>::empty());
    while i < n
        invariant
            i <= n == body@.len(),
            all_digits(body@),
            acc == capped(digits_value(body@.take(i as int))),
            0 <= acc <= EXPONENT_CAP,
            0 <= digits_value(body@.take(i as int)),
        decreases n - i,
    {
        let c = body[i];
        assert(is_digit(body@[i as int]));
        let d: i64 = (c as u32 - 48) as i64;
        proof {
            lemma_digits_value_push(body@, i as int);
        }
        let next: i64 = acc * 10 + d;
        acc = if next > EXPONENT_CAP {
            EXPONENT_CAP
        } else {
            next
        };
        i += 1;
    }
    assert(body@.take(n as int) =~= body@);
    acc
}

proof fn lemma_skip_zeros_step(s: Seq<char>, i: int)
    requires
        0 <= i < s.len(),
        s[i] == '0',
    ensures
        skip_zeros(s.subrange(i, s.len() as int)) == skip_zeros(s.subrange(i + 1, s.len() as int)),
{
    let t = s.subrange(i, s.len() as int);
    assert(t.drop_first() =~= s.subrange(i + 1, s.len() as int));
}

proof fn lemma_drop_zeros_step(s: Seq<char>, a: int, j: int)
    requires
        0 <= a < j <= s.len(),
        s[j - 1] == '0',
    ensures
        drop_trailing_zeros(s.subrange(a, j)) == drop_trailing_zeros(s.subrange(a, j - 1)),
{
    let t = s.subrange(a, j);
    assert(t.drop_last() =~= s.subrange(a, j - 1));
}

/// The bounds of the significant digits inside a run of digits.
fn significant_bounds(m: &[char]) -> (r: (usize, usize))
    ensures
        r.0 <= r.1 <= m@.len(),
        skip_zeros(m@) == m@.subrange(r.0 as int, m@.len() as int),
        drop_trailing_zeros(skip_zeros(m@)) == m@.subrange(r.0 as int, r.1 as int),
        r.0 < r.1 ==> m@[r.0 as int] != '0' && m@[r.1 - 1] != '0',
{
    let n: usize = m.len();
    let mut a: usize = 0;
    assert(m@.subrange(0, n as int) =~= m@);
    while a < n && m[a] == '0'
        invariant
            a <= n == m@.len(),
            skip_zeros(m@) == skip_zeros(m@.subrange(a as int, n as int)),
        decreases n - a,
    {
        proof {
            lemma_skip_zeros_step(m@, a as int);
        }
        a += 1;
    }
    assert(skip_zeros(m@) == m@.subrange(a as int, n as int));
    let mut b: usize = n;
    while b > a && m[b - 1] == '0'
        invariant
            a <= b <= n == m@.len(),
            drop_trailing_zeros(skip_zeros(m@)) == drop_trailing_zeros(
                m@.subrange(a as int, b as int),
            ),
        decreases b,
    {
        proof {
            lemma_drop_zeros_step(m@, a as int, b as int);
        }
        b -= 1;
    }
    (a, b)
}

/// Where the parts of a literal lie in its text.
struct Parts {
    negative: bool,
    whole: (usize, usize),
    fraction: (usize, usize),
    exponent: i64,
}

impl Parts {
    spec fn literal(&self, s: Seq<char>) -> LiteralParts {
        LiteralParts {
            negative: self.negative,
            whole: s.subrange(self.whole.0 as int, self.whole.1 as int),
            fraction: s.subrange(self.fraction.0 as int, self.fraction.1 as int),
            exponent: self.exponent as int,
        }
    }

    spec fn within(&self, s: Seq<char>) -> bool {
        &&& self.whole.0 <= self.whole.1 <= s.len()
        &&& self.fraction.0 <= self.fraction.1 <= s.len()
        &&& all_digits(s.subrange(self.whole.0 as int, self.whole.1 as int))
        &&& all_digits(s.subrange(self.fraction.0 as int, self.fraction.1 as int))
        &&& -EXPONENT_CAP <= self.exponent <= EXPONENT_CAP
    }
}

fn read_exponent(s: &[char], mark: usize) -> (r: Option<i64>)
    requires
        mark < s@.len(),
        s@[mark as int] == 'e' || s@[mark as int] == 'E',
    ensures
        ({
            let signed = mark + 1 < s@.len() && is_sign(s@[mark + 1]);
            let exp_from = if signed {
                mark + 2
            } else {
                mark + 1
            };
            let exp_to = digits_end(s@, exp_from);
            let magnitude = capped(digits_value(s@.subrange(exp_from, exp_to)));
            match r {
                Some(e) => exp_from < exp_to && exp_to == s@.len() && -EXPONENT_CAP <= e <= EXPONENT_CAP && e
                    == if signed && s@[mark + 1] == '-' {
                    -magnitude
                } else {
                    magnitude
                },
                None => !(exp_from < exp_to && exp_to == s@.len()),
            }
        }),
{
    let n: usize = s.len();
    let signed = mark + 1 < n && (s[mark + 1] == '+' || s[mark + 1] == '-');
    let exp_from: usize = if signed {
        mark + 2
    } else {
        mark + 1
    };
    let exp_to = scan_digits(s, exp_from);
    if exp_to == exp_from || exp_to < n {
        return None;
    }
    let magnitude = capped_value(vstd::slice::slice_subrange(s, exp_from, exp_to));
    if signed && s[mark + 1] == '-' {
        Some(-magnitude)
    } else {
        Some(magnitude)
    }
}

fn read_literal(s: &[char]) -> (r: Option<Parts>)
    ensures
        match r {
            Some(p) => p.within(s@) && literal_of(s@) == Some(p.literal(s@)),
            None => literal_of(s@) is None,
        },
{
    let n: usize = s.len();
    let first: usize = if n > 0 && (s[0] == '+' || s[0] == '-') {
        1
    } else {
        0
    };
    let negative = first == 1 && s[0] == '-';
    let dot = scan_digits(s, first);
    let dotted = dot < n && s[dot] == '.';
    let after_dot: usize = if dotted {
        dot + 1
    } else {
        dot
    };
    let mark: usize = if dotted {
        scan_digits(s, after_dot)
    } else {
        after_dot
    };
    assert(all_digits(s@.subrange(after_dot as int, mark as int)));
    if dot - first + (mark - after_dot) == 0 {
        return None;
    }
    let mut exponent: i64 = 0;
    if mark < n {
        if s[mark] != 'e' && s[mark] != 'E' {
            return None;
        }
        match read_exponent(s, mark) {
            None => {
                return None;
            },
            Some(e) => {
                exponent = e;
            },
        }
    }
    Some(Parts { negative, whole: (first, dot), fraction: (after_dot, mark), exponent })
}

fn normalise(negative: bool, whole: &[char], fraction: &[char], exponent: i64) -> (r: Option<
    Decimal,
>)
    requires
        all_digits(whole@),
        all_digits(fraction@),
        -EXPONENT_CAP <= exponent <= EXPONENT_CAP,
    ensures
        ({
            let l = LiteralParts { negative, whole: whole@, fraction: fraction@, exponent: exponent as int };
            match r {
                Some(d) => number_of_literal(l) == Some(d@) && is_canonical(d@),
                None => number_of_literal(l) is None,
            }
        }),
{
    let mut mantissa: Vec<char> = Vec::new();
    append_chars(&mut mantissa, whole);
    append_chars(&mut mantissa, fraction);
    assert(mantissa@ =~= whole@ + fraction@);
    let (a, b) = significant_bounds(mantissa.as_slice());
    if a == b {
        return Some(Decimal { negative: false, top: 0, digits: Vec::new() });
    }
    let top: i128 = whole.len() as i128 - a as i128 + exponent as i128;
    if top < MIN_TOP as i128 {
        return Some(Decimal { negative: false, top: 0, digits: Vec::new() });
    }
    if top > MAX_TOP as i128 {
        return None;
    }
    let digits = vstd::slice::slice_to_vec(vstd::slice::slice_subrange(mantissa.as_slice(), a, b));
    if top == MAX_TOP as i128 {
        let limit = to_chars(LIMIT);
        if !less(digits.as_slice(), limit.as_slice()) {
            return None;
        }
    }
    proof {
        assert forall|i: int| 0 <= i < digits@.len() implies is_digit(#[trigger] digits@[i]) by {
            let k = a + i;
            if k < whole@.len() {
                assert(mantissa@[k] == whole@[k]);
            } else {
                assert(mantissa@[k] == fraction@[k - whole@.len()]);
            }
        }
    }
    Some(Decimal { negative, top: top as i32, digits })
}

/// Reads a decimal literal.
pub fn parse_decimal(s: &[char]) -> (r: Option<Decimal>)
    ensures
        match r {
            Some(d) => number_of(s@) == Some(d@) && is_canonical(d@),
            None => number_of(s@) is None,
        },
{
    match read_literal(s) {
        None => None,
        Some(p) => normalise(
            p.negative,
            vstd::slice::slice_subrange(s, p.whole.0, p.whole.1),
            vstd::slice::slice_subrange(s, p.fraction.0, p.fraction.1),
            p.exponent,
        ),
    }
}

impl Decimal {
    /// Whether `self` is less than `other`.
    pub fn less_than(&self, other: &Decimal) -> (r: bool)
        ensures
            r == number_less(self@, other@),
    {
        if self.negative != other.negative {
            self.negative
        } else if self.negative {
            Self::magnitude_below(other, self)
        } else {
            Self::magnitude_below(self, other)
        }
    }

    fn magnitude_below(a: &Decimal, b: &Decimal) -> (r: bool)
        ensures
            r == magnitude_less(a@, b@),
    {
        if b.digits.len() == 0 {
            a.digits.len() == 0 && a.top < b.top
        } else if a.digits.len() == 0 {
            true
        } else if a.top != b.top {
            a.top < b.top
        } else {
            less(a.digits.as_slice(), b.digits.as_slice())
        }
    }

    /// Whether `self` and `other` are the same number.
    pub fn same_as(&self, other: &Decimal) -> (r: bool)
        ensures
            r == (self@ == other@),
    {
        self.negative == other.negative && self.top == other.top && same(
            self.digits.as_slice(),
            other.digits.as_slice(),
        )
    }

    /// A copy of `self`.
    pub fn copy(&self) -> (r: Decimal)
        ensures
            r@ == self@,
    {
        Decimal {
            negative: self.negative,
            top: self.top,
            digits: vstd::slice::slice_to_vec(self.digits.as_slice()),
        }
    }
}

/// A run of `n` zeros.
pub open spec fn zeros(n: int) -> Seq<char> {
    Seq::new(
        if n > 0 {
            n as nat
        } else {
            0
        },
        |i: int| '0',
    )
}

/// A number written out in full: digits, and a point where it is needed.
pub open spec fn number_text(n: Number) -> Seq<char> {
    let sign: Seq<char> = if n.negative {
        seq!['-']
    } else {
        Seq::empty()
    };
    let len = n.digits.len() as int;
    if len == 0 {
        seq!['0']
    } else if n.top <= 0 {
        sign + seq!['0', '.'] + zeros(-n.top) + n.digits
    } else if n.top >= len {
        sign + n.digits + zeros(n.top - len)
    } else {
        sign + n.digits.subrange(0, n.top) + seq!['.'] + n.digits.subrange(n.top, len)
    }
}

fn push_zeros(v: &mut Vec<char>, n: u64)
    ensures
        final(v)@ == old(v)@ + zeros(n as int),
{
    let mut i: u64 = 0;
    assert(v@ =~= old(v)@ + zeros(0));
    while i < n
        invariant
            i <= n,
            v@ == old(v)@ + zeros(i as int),
        decreases n - i,
    {
        v.push('0');
        assert(v@ =~= old(v)@ + zeros(i + 1));
        i += 1;
    }
}

impl Decimal {
    /// The number written out in full.
    pub fn to_text(&self) -> (r: Vec<char>)
        ensures
            r@ == number_text(self@),
    {
        let mut out: Vec<char> = Vec::new();
        let len: usize = self.digits.len();
        if len == 0 {
            out.push('0');
            assert(out@ =~= seq!['0']);
            return out;
        }
        if self.negative {
            out.push('-');
        }
        let ghost sign = out@;
        assert(sign =~= if self.negative {
            seq!['-']
        } else {
            Seq::<char>::empty()
        });
        let top: i64 = self.top as i64;
        if top <= 0 {
            out.push('0');
            out.push('.');
            push_zeros(&mut out, (-top) as u64);
            append_chars(&mut out, self.digits.as_slice());
            assert(out@ =~= sign + seq!['0', '.'] + zeros(-top as int) + self.digits@);
        } else if top as u64 >= len as u64 {
            append_chars(&mut out, self.digits.as_slice());
            push_zeros(&mut out, top as u64 - len as u64);
            assert(out@ =~= sign + self.digits@ + zeros(top - len));
        } else {
            let cut: usize = top as usize;
            append_chars(&mut out, vstd::slice::slice_subrange(self.digits.as_slice(), 0, cut));
            out.push('.');
            append_chars(&mut out, vstd::slice::slice_subrange(self.digits.as_slice(), cut, len));
            assert(out@ =~= sign + self.digits@.subrange(0, top as int) + seq!['.']
                + self.digits@.subrange(top as int, len as int));
        }
        out
    }
}

impl Decimal {
    /// The number written out in full, as a string.
    pub fn to_string(&self) -> (r: String)
        ensures
            r@ == number_text(self@),
    {
        let text = self.to_text();
        crate::text::to_string(text.as_slice())
    }
}

/// The views of a list of numbers.
pub open spec fn values(v: Seq<Decimal>) -> Seq<Number> {
    Seq::new(v.len(), |i: int| v[i]@)
}

proof fn lemma_values_push(v: Seq<Decimal>, x: Decimal)
    ensures
        values(v.push(x)) == values(v).push(x@),
{
    assert(values(v.push(x)) =~= values(v).push(x@));
}

fn merge(left: &[Decimal], right: &[Decimal]) -> (out: Vec<Decimal>)
    requires
        sorted_by(values(left@), at_most()),
        sorted_by(values(right@), at_most()),
    ensures
        sorted_by(values(out@), at_most()),
        values(out@).to_multiset() == values(left@).to_multiset().add(values(right@).to_multiset()),
{
    broadcast use vstd::seq_lib::group_to_multiset_ensures;

    let ghost l = values(left@);
    let ghost r = values(right@);
    let mut out: Vec<Decimal> = Vec::new();
    let mut i: usize = 0;
    let mut j: usize = 0;
    assert(values(out@) =~= Seq::empty());
    assert(l.take(0) =~= Seq::empty());
    assert(r.take(0) =~= Seq::empty());
    while i < left.len() || j < right.len()
        invariant
            l == values(left@),
            r == values(right@),
            i <= left@.len(),
            j <= right@.len(),
            sorted_by(l, at_most()),
            sorted_by(r, at_most()),
            sorted_by(values(out@), at_most()),
            values(out@).to_multiset() == l.take(i as int).to_multiset().add(
                r.take(j as int).to_multiset(),
            ),
            forall|k: int, m: int|
                0 <= k < out@.len() && i <= m < l.len() ==> number_at_most(
                    #[trigger] values(out@)[k],
                    #[trigger] l[m],
                ),
            forall|k: int, m: int|
                0 <= k < out@.len() && j <= m < r.len() ==> number_at_most(
                    #[trigger] values(out@)[k],
                    #[trigger] r[m],
                ),
        decreases left@.len() - i + right@.len() - j,
    {
        let ghost before = out@;
        let from_left = if i < left.len() && j < right.len() {
            !right[j].less_than(&left[i])
        } else {
            i < left.len()
        };
        proof {
            lemma_at_most_total();
            if i < left.len() && j < right.len() {
                lemma_number_order(l[i as int], r[j as int], l[i as int]);
            }
        }
        if from_left {
            out.push(left[i].copy());
            proof {
                lemma_values_push(before, out@.last());
                assert(l.take(i + 1) =~= l.take(i as int).push(l[i as int]));
                vstd::seq_lib::to_multiset_build(values(before), l[i as int]);
                vstd::seq_lib::to_multiset_build(l.take(i as int), l[i as int]);
                assert(values(out@).to_multiset() =~= values(before).to_multiset().insert(
                    l[i as int],
                ));
                assert(l.take(i + 1).to_multiset() =~= l.take(i as int).to_multiset().insert(
                    l[i as int],
                ));
                assert(values(out@).to_multiset() =~= l.take(i + 1).to_multiset().add(
                    r.take(j as int).to_multiset(),
                ));
                assert forall|k: int, m: int|
                    0 <= k < out@.len() && j <= m < r.len() implies number_at_most(
                    #[trigger] values(out@)[k],
                    #[trigger] r[m],
                ) by {
                    if k == before.len() {
                        assert(at_most()(r[j as int], r[m]) || m == j);
                        lemma_number_order(l[i as int], r[j as int], r[m]);
                    } else {
                        assert(values(out@)[k] == values(before)[k]);
                    }
                }
                assert forall|k: int, m: int|
                    0 <= k < out@.len() && i + 1 <= m < l.len() implies number_at_most(
                    #[trigger] values(out@)[k],
                    #[trigger] l[m],
                ) by {
                    if k == before.len() {
                        assert(at_most()(l[i as int], l[m]));
                    } else {
                        assert(values(out@)[k] == values(before)[k]);
                    }
                }
                assert forall|a: int, b: int| 0 <= a < b < out@.len() implies at_most()(
                    #[trigger] values(out@)[a],
                    #[trigger] values(out@)[b],
                ) by {
                    if b == before.len() {
                        assert(values(out@)[a] == values(before)[a]);
                    } else {
                        assert(at_most()(values(before)[a], values(before)[b]));
                    }
                }
            }
            i += 1;
        } else {
            out.push(right[j].copy());
            proof {
                lemma_values_push(before, out@.last());
                assert(r.take(j + 1) =~= r.take(j as int).push(r[j as int]));
                vstd::seq_lib::to_multiset_build(values(before), r[j as int]);
                vstd::seq_lib::to_multiset_build(r.take(j as int), r[j as int]);
                assert(values(out@).to_multiset() =~= values(before).to_multiset().insert(
                    r[j as int],
                ));
                assert(r.take(j + 1).to_multiset() =~= r.take(j as int).to_multiset().insert(
                    r[j as int],
                ));
                assert(values(out@).to_multiset() =~= l.take(i as int).to_multiset().add(
                    r.take(j + 1).to_multiset(),
                ));
                assert forall|k: int, m: int|
                    0 <= k < out@.len() && i <= m < l.len() implies number_at_most(
                    #[trigger] values(out@)[k],
                    #[trigger] l[m],
                ) by {
                    if k == before.len() {
                        assert(at_most()(l[i as int], l[m]) || m == i);
                        lemma_number_order(r[j as int], l[i as int], l[m]);
                    } else {
                        assert(values(out@)[k] == values(before)[k]);
                    }
                }
                assert forall|k: int, m: int|
                    0 <= k < out@.len() && j + 1 <= m < r.len() implies number_at_most(
                    #[trigger] values(out@)[k],
                    #[trigger] r[m],
                ) by {
                    if k == before.len() {
                        assert(at_most()(r[j as int], r[m]));
                    } else {
                        assert(values(out@)[k] == values(before)[k]);
                    }
                }
                assert forall|a: int, b: int| 0 <= a < b < out@.len() implies at_most()(
                    #[trigger] values(out@)[a],
                    #[trigger] values(out@)[b],
                ) by {
                    if b == before.len() {
                        assert(values(out@)[a] == values(before)[a]);
                    } else {
                        assert(at_most()(values(before)[a], values(before)[b]));
                    }
                }
            }
            j += 1;
        }
    }
    assert(l.take(i as int) =~= l);
    assert(r.take(j as int) =~= r);
    out
}

/// The numbers of `v` in ascending order.
pub fn sort_numbers(v: &[Decimal]) -> (out: Vec<Decimal>)
    ensures
        values(out@) == ascending(values(v@)),
    decreases v@.len(),
{
    broadcast use vstd::seq_lib::group_to_multiset_ensures;

    let n: usize = v.len();
    let out = if n <= 1 {
        let mut one: Vec<Decimal> = Vec::new();
        if n == 1 {
            one.push(v[0].copy());
        }
        assert(values(one@) =~= values(v@));
        one
    } else {
        let mid: usize = n / 2;
        let a = vstd::slice::slice_subrange(v, 0, mid);
        let b = vstd::slice::slice_subrange(v, mid, n);
        let left = sort_numbers(a);
        let right = sort_numbers(b);
        proof {
            lemma_at_most_total();
            values(a@).lemma_sort_by_ensures(at_most());
            values(b@).lemma_sort_by_ensures(at_most());
        }
        let merged = merge(left.as_slice(), right.as_slice());
        proof {
            assert(values(v@) =~= values(a@) + values(b@));
            vstd::seq_lib::lemma_multiset_commutative(values(a@), values(b@));
        }
        merged
    };
    proof {
        lemma_at_most_total();
        values(v@).lemma_sort_by_ensures(at_most());
        vstd::seq_lib::lemma_sorted_unique(values(out@), ascending(values(v@)), at_most());
    }
    out
}

/// Ten to the power of `n`.
pub open spec fn pow10(n: nat) -> nat
    decreases n,
{
    if n == 0 {
        1
    } else {
        10 * pow10((n - 1) as nat)
    }
}

proof fn lemma_digits_end_all(s: Seq<char>, from: int)
    requires
        0 <= from <= s.len(),
        all_digits(s.subrange(from, s.len() as int)),
    ensures
        digits_end(s, from) == s.len(),
    decreases s.len() - from,
{
    if from < s.len() {
        assert(s.subrange(from, s.len() as int)[0] == s[from]);
        assert forall|i: int| 0 <= i < s.len() - from - 1 implies is_digit(
            #[trigger] s.subrange(from + 1, s.len() as int)[i],
        ) by {
            assert(s.subrange(from, s.len() as int)[i + 1] == s[from + 1 + i]);
        }
        lemma_digits_end_all(s, from + 1);
    }
}

proof fn lemma_leading_zero(r: Seq<char>)
    ensures
        digits_value(seq!['0'] + r) == digits_value(r),
    decreases r.len(),
{
    let s = seq!['0'] + r;
    assert(digits_value(s) == digits_value(s.drop_last()) * 10 + digit_of(s.last()));
    if r.len() == 0 {
        assert(s.drop_last() =~= Seq::<char>::empty());
        assert(digits_value(Seq::<char>::empty()) == 0);
        assert(s.last() == '0');
    } else {
        assert(s.drop_last() =~= seq!['0'] + r.drop_last());
        assert(s.last() == r.last());
        lemma_leading_zero(r.drop_last());
    }
}

proof fn lemma_skip_zeros_value(s: Seq<char>)
    requires
        all_digits(s),
    ensures
        digits_value(skip_zeros(s)) == digits_value(s),
        all_digits(skip_zeros(s)),
        skip_zeros(s).len() <= s.len(),
        skip_zeros(s).len() > 0 ==> skip_zeros(s)[0] != '0',
    decreases s.len(),
{
    if s.len() > 0 && s[0] == '0' {
        let r = s.drop_first();
        assert forall|i: int| 0 <= i < r.len() implies is_digit(#[trigger] r[i]) by {
            assert(r[i] == s[i + 1]);
        }
        lemma_skip_zeros_value(r);
        assert(s =~= seq!['0'] + r);
        lemma_leading_zero(r);
    }
}

pub proof fn lemma_value_of_significant(s: Seq<char>)
    requires
        all_digits(s),
        s.len() > 0,
        s[0] != '0',
    ensures
        digits_value(s) >= pow10((s.len() - 1) as nat),
    decreases s.len(),
{
    assert(is_digit(s[0]));
    assert(digits_value(s) == digits_value(s.drop_last()) * 10 + digit_of(s.last()));
    if s.len() == 1 {
        assert(s.drop_last() =~= Seq::<char>::empty());
        assert(digits_value(Seq::<char>::empty()) == 0);
        assert(s.last() == s[0]);
        assert(pow10(0) == 1);
    } else {
        let r = s.drop_last();
        assert forall|i: int| 0 <= i < r.len() implies is_digit(#[trigger] r[i]) by {
            assert(r[i] == s[i]);
        }
        assert(is_digit(s.last()));
        lemma_value_of_significant(r);
    }
}

pub proof fn lemma_pow10_grows(a: nat, b: nat)
    requires
        a <= b,
    ensures
        pow10(a) <= pow10(b),
        pow10(a) >= 1,
    decreases b,
{
    if a < b {
        lemma_pow10_grows(a, (b - 1) as nat);
    } else if a > 0 {
        lemma_pow10_grows((a - 1) as nat, (a - 1) as nat);
    }
}

/// The digits of a whole-number literal.
pub open spec fn integer_body(t: Seq<char>) -> Seq<char> {
    if t.len() > 0 && is_sign(t[0]) {
        t.drop_first()
    } else {
        t
    }
}

/// A whole-number literal is a decimal literal without fraction and
/// exponent.
pub proof fn lemma_integer_literal(t: Seq<char>)
    requires
        integer_of(t) is Some,
    ensures
        literal_of(t) == Some(
            LiteralParts {
                negative: t[0] == '-',
                whole: integer_body(t),
                fraction: Seq::empty(),
                exponent: 0,
            },
        ),
        all_digits(integer_body(t)),
        integer_of(t) == Some(
            if t[0] == '-' {
                -digits_value(integer_body(t))
            } else {
                digits_value(integer_body(t))
            },
        ),
{
    let signed = t.len() > 0 && is_sign(t[0]);
    let body = integer_body(t);
    let first: int = if signed {
        1
    } else {
        0
    };
    assert(body =~= t.subrange(first, t.len() as int));
    lemma_digits_end_all(t, first);
    let l = literal_of(t).unwrap();
    assert(l.whole =~= body);
    assert(l.fraction =~= Seq::<char>::empty());
    if !signed {
        assert(is_digit(body[0]));
    }
}

/// A whole number that fits 64 bits is a number: the decimal literals take
/// in the whole-number literals.
pub proof fn lemma_integers_are_numbers(t: Seq<char>)
    requires
        i64_of(t) is Some,
    ensures
        number_of(t) is Some,
        literal_top(literal_of(t)->0) >= 0,
{
    lemma_integer_literal(t);
    let body = integer_body(t);
    let l = literal_of(t).unwrap();
    assert(l.whole + l.fraction =~= body);
    lemma_skip_zeros_value(body);
    let tail = skip_zeros(body);
    if tail.len() > 0 {
        lemma_value_of_significant(tail);
        if tail.len() >= 20 {
            lemma_pow10_grows(19, (tail.len() - 1) as nat);
            reveal_with_fuel(pow10, 20);
            assert(pow10(19) == 10000000000000000000);
        }
    }
}

} // verus!
