//! The order of numbers is the order of their values.
//!
//! A number `0.d1d2..dn * 10^top` is measured in units of `10^-e`, for an
//! `e` large enough to make the measure whole.

use vstd::prelude::*;
use crate::number::{
    all_digits, digit_of, digits_end, digits_value, drop_trailing_zeros, i64_of, integer_body,
    is_canonical, is_digit, lemma_integer_literal, lemma_integers_are_numbers,
    lemma_pow10_grows, lemma_value_of_significant, literal_of, literal_top, magnitude_less,
    number_less, number_of, number_of_literal, number_text, pow10, significant, skip_zeros, zero,
    zeros, LiteralParts, Number, MIN_TOP,
};
use crate::text::{lemma_lex_irreflexive, lex_less};

verus! {

/// Powers of ten multiply as their exponents add.
pub proof fn lemma_pow10_add(a: nat, b: nat)
    ensures
        pow10(a + b) == pow10(a) * pow10(b),
    decreases a,
{
    if a == 0 {
        assert(pow10(0) == 1);
        assert(pow10(a + b) == pow10(b));
    } else {
        lemma_pow10_add((a - 1) as nat, b);
        assert(pow10(a + b) == 10 * pow10((a - 1 + b) as nat));
        assert(pow10(a) == 10 * pow10((a - 1) as nat));
        assert(10 * (pow10((a - 1) as nat) * pow10(b)) == (10 * pow10((a - 1) as nat)) * pow10(b))
            by (nonlinear_arith);
    }
}

/// The value of two runs of digits side by side.
pub proof fn lemma_value_concat(x: Seq<char>, y: Seq<char>)
    ensures
        digits_value(x + y) == digits_value(x) * pow10(y.len()) + digits_value(y),
    decreases y.len(),
{
    if y.len() == 0 {
        assert(x + y =~= x);
        assert(pow10(0) == 1);
        assert(digits_value(y) == 0);
    } else {
        let s = x + y;
        assert(s.drop_last() =~= x + y.drop_last());
        assert(s.last() == y.last());
        lemma_value_concat(x, y.drop_last());
        let p = pow10(y.drop_last().len());
        assert(pow10(y.len()) == 10 * p);
        let a = digits_value(x);
        let b = digits_value(y.drop_last());
        let d = digit_of(y.last());
        assert(digits_value(s) == (a * p + b) * 10 + d);
        assert(digits_value(y) == b * 10 + d);
        assert((a * p + b) * 10 + d == a * (10 * p) + (b * 10 + d)) by (nonlinear_arith);
    }
}

/// A run of zeros is worth nothing.
pub proof fn lemma_value_zeros(n: int)
    ensures
        digits_value(zeros(n)) == 0,
        all_digits(zeros(n)),
    decreases n,
{
    if n > 0 {
        assert(zeros(n).drop_last() =~= zeros(n - 1));
        lemma_value_zeros(n - 1);
        assert(zeros(n).last() == '0');
    } else {
        assert(zeros(n).len() == 0);
    }
}

/// A run of `n` digits is worth less than `10^n`.
pub proof fn lemma_value_below(s: Seq<char>)
    requires
        all_digits(s),
    ensures
        0 <= digits_value(s) < pow10(s.len()),
    decreases s.len(),
{
    if s.len() == 0 {
        assert(pow10(0) == 1);
    } else {
        let r = s.drop_last();
        assert forall|i: int| 0 <= i < r.len() implies is_digit(#[trigger] r[i]) by {
            assert(r[i] == s[i]);
        }
        assert(is_digit(s.last()));
        lemma_value_below(r);
        assert(pow10(s.len()) == 10 * pow10(r.len()));
    }
}

/// Of two runs of digits of one length, the one that comes first in
/// lexicographic order is worth less.
pub proof fn lemma_lex_is_value_order(a: Seq<char>, b: Seq<char>)
    requires
        all_digits(a),
        all_digits(b),
        a.len() == b.len(),
    ensures
        lex_less(a, b) <==> digits_value(a) < digits_value(b),
        a == b <==> digits_value(a) == digits_value(b),
    decreases a.len(),
{
    if a.len() == 0 {
        assert(a =~= b);
    } else {
        let x = a.drop_first();
        let y = b.drop_first();
        assert(a =~= seq![a[0]] + x);
        assert(b =~= seq![b[0]] + y);
        lemma_value_concat(seq![a[0]], x);
        lemma_value_concat(seq![b[0]], y);
        assert(digits_value(seq![a[0]]) == digit_of(a[0])) by {
            assert(seq![a[0]].drop_last() =~= Seq::<char>::empty());
            assert(digits_value(Seq::<char>::empty()) == 0);
        }
        assert(digits_value(seq![b[0]]) == digit_of(b[0])) by {
            assert(seq![b[0]].drop_last() =~= Seq::<char>::empty());
            assert(digits_value(Seq::<char>::empty()) == 0);
        }
        assert forall|i: int| 0 <= i < x.len() implies is_digit(#[trigger] x[i]) by {
            assert(x[i] == a[i + 1]);
        }
        assert forall|i: int| 0 <= i < y.len() implies is_digit(#[trigger] y[i]) by {
            assert(y[i] == b[i + 1]);
        }
        assert(is_digit(a[0]) && is_digit(b[0]));
        lemma_value_below(x);
        lemma_value_below(y);
        lemma_lex_is_value_order(x, y);
        let p = pow10(x.len()) as int;
        let da = digit_of(a[0]);
        let db = digit_of(b[0]);
        let va = digits_value(x);
        let vb = digits_value(y);
        if a[0] != b[0] {
            if da < db {
                assert(da * p + va < db * p + vb) by (nonlinear_arith)
                    requires
                        da < db,
                        0 <= va < p,
                        0 <= vb,
                ;
            } else {
                assert(db * p + vb < da * p + va) by (nonlinear_arith)
                    requires
                        db < da,
                        0 <= vb < p,
                        0 <= va,
                ;
            }
        } else {
            if x == y {
                assert(a =~= b);
            }
        }
    }
}

/// Zeros behind two runs of digits that end in other digits do not change
/// their order.
pub proof fn lemma_lex_padded(a: Seq<char>, b: Seq<char>, za: int, zb: int)
    requires
        all_digits(a),
        all_digits(b),
        za >= 0,
        zb >= 0,
        a.len() + za == b.len() + zb,
        a.len() > 0 ==> a.last() != '0',
        b.len() > 0 ==> b.last() != '0',
    ensures
        lex_less(a + zeros(za), b + zeros(zb)) == lex_less(a, b),
    decreases a.len() + b.len() + za + zb,
{
    let x = a + zeros(za);
    let y = b + zeros(zb);
    if a.len() > 0 && b.len() > 0 {
        assert(x[0] == a[0] && y[0] == b[0]);
        if a[0] == b[0] {
            let p = a.drop_first();
            let q = b.drop_first();
            assert(x.drop_first() =~= p + zeros(za));
            assert(y.drop_first() =~= q + zeros(zb));
            assert forall|i: int| 0 <= i < p.len() implies is_digit(#[trigger] p[i]) by {
                assert(p[i] == a[i + 1]);
            }
            assert forall|i: int| 0 <= i < q.len() implies is_digit(#[trigger] q[i]) by {
                assert(q[i] == b[i + 1]);
            }
            lemma_lex_padded(p, q, za, zb);
        }
    } else if a.len() == 0 && b.len() > 0 {
        assert(x =~= zeros(za));
        assert(x[0] == '0' && y[0] == b[0]);
        assert(is_digit(b[0]));
        if b[0] == '0' {
            let q = b.drop_first();
            assert(x.drop_first() =~= a + zeros(za - 1));
            assert(y.drop_first() =~= q + zeros(zb));
            assert forall|i: int| 0 <= i < q.len() implies is_digit(#[trigger] q[i]) by {
                assert(q[i] == b[i + 1]);
            }
            lemma_lex_padded(a, q, za - 1, zb);
        }
    } else if a.len() > 0 && b.len() == 0 {
        assert(y =~= zeros(zb));
        assert(y[0] == '0' && x[0] == a[0]);
        assert(is_digit(a[0]));
        if a[0] == '0' {
            let p = a.drop_first();
            assert(x.drop_first() =~= p + zeros(za));
            assert(y.drop_first() =~= b + zeros(zb - 1));
            assert forall|i: int| 0 <= i < p.len() implies is_digit(#[trigger] p[i]) by {
                assert(p[i] == a[i + 1]);
            }
            lemma_lex_padded(p, b, za, zb - 1);
        }
    } else {
        assert(x =~= y);
        lemma_lex_irreflexive(x);
    }
}

/// The magnitude of a number in units of `10^-e`.
pub open spec fn magnitude(n: Number, e: int) -> int {
    digits_value(n.digits) * pow10((n.top - n.digits.len() + e) as nat)
}

/// A number in units of `10^-e`.
pub open spec fn measure(n: Number, e: int) -> int {
    if n.negative {
        -magnitude(n, e)
    } else {
        magnitude(n, e)
    }
}

/// The unit `10^-e` is fine enough to measure `n` in whole units.
pub open spec fn fine_enough(n: Number, e: int) -> bool {
    n.top - n.digits.len() + e >= 0
}

proof fn lemma_magnitude_bounds(n: Number, e: int)
    requires
        is_canonical(n),
        n.digits.len() > 0,
        fine_enough(n, e),
    ensures
        pow10((n.top - 1 + e) as nat) <= magnitude(n, e) < pow10((n.top + e) as nat),
        n.top - 1 + e >= 0,
{
    let len = n.digits.len();
    let k = (n.top - len + e) as nat;
    let d = digits_value(n.digits);
    lemma_value_of_significant(n.digits);
    lemma_value_below(n.digits);
    lemma_pow10_add((len - 1) as nat, k);
    lemma_pow10_add(len, k);
    lemma_pow10_grows(0, k);
    let low = pow10((len - 1) as nat) as int;
    let high = pow10(len) as int;
    let p = pow10(k) as int;
    assert(low * p <= d * p < high * p) by (nonlinear_arith)
        requires
            low <= d < high,
            p >= 1,
    ;
    assert((len - 1) as nat + k == (n.top - 1 + e) as nat);
    assert(len + k == (n.top + e) as nat);
}

proof fn lemma_padded_value(digits: Seq<char>, pad: int)
    requires
        all_digits(digits),
        pad >= 0,
    ensures
        digits_value(digits + zeros(pad)) == digits_value(digits) * pow10(pad as nat),
        all_digits(digits + zeros(pad)),
{
    lemma_value_concat(digits, zeros(pad));
    lemma_value_zeros(pad);
    let s = digits + zeros(pad);
    assert forall|i: int| 0 <= i < s.len() implies is_digit(#[trigger] s[i]) by {
        if i < digits.len() {
            assert(s[i] == digits[i]);
        } else {
            assert(s[i] == zeros(pad)[i - digits.len()]);
        }
    }
}

/// Magnitudes are ordered as their measures are.
pub proof fn lemma_magnitude_is_measure_order(a: Number, b: Number, e: int)
    requires
        is_canonical(a),
        is_canonical(b),
        fine_enough(a, e),
        fine_enough(b, e),
    ensures
        magnitude_less(a, b) <==> magnitude(a, e) < magnitude(b, e),
        (a.digits == b.digits && a.top == b.top) <==> magnitude(a, e) == magnitude(b, e),
        magnitude(a, e) >= 0,
        a.digits.len() > 0 ==> magnitude(a, e) > 0,
{
    lemma_pow10_grows(0, 0);
    if a.digits.len() > 0 {
        lemma_magnitude_bounds(a, e);
        lemma_pow10_grows(0, (a.top - 1 + e) as nat);
    } else {
        assert(digits_value(a.digits) == 0);
        assert(magnitude(a, e) == 0) by (nonlinear_arith)
            requires
                magnitude(a, e) == 0 * pow10((a.top - a.digits.len() + e) as nat),
        ;
    }
    if b.digits.len() > 0 {
        lemma_magnitude_bounds(b, e);
        lemma_pow10_grows(0, (b.top - 1 + e) as nat);
    } else {
        assert(digits_value(b.digits) == 0);
        assert(magnitude(b, e) == 0) by (nonlinear_arith)
            requires
                magnitude(b, e) == 0 * pow10((b.top - b.digits.len() + e) as nat),
        ;
    }
    if a.digits.len() > 0 && b.digits.len() > 0 {
        if a.top < b.top {
            lemma_pow10_grows((a.top + e) as nat, (b.top - 1 + e) as nat);
        } else if b.top < a.top {
            lemma_pow10_grows((b.top + e) as nat, (a.top - 1 + e) as nat);
        } else {
            let la = a.digits.len() as int;
            let lb = b.digits.len() as int;
            let m = if la >= lb {
                la
            } else {
                lb
            };
            let k = (a.top - m + e) as nat;
            let x = a.digits + zeros(m - la);
            let y = b.digits + zeros(m - lb);
            lemma_padded_value(a.digits, m - la);
            lemma_padded_value(b.digits, m - lb);
            lemma_pow10_add((m - la) as nat, k);
            lemma_pow10_add((m - lb) as nat, k);
            lemma_pow10_grows(0, k);
            lemma_lex_is_value_order(x, y);
            lemma_lex_padded(a.digits, b.digits, m - la, m - lb);
            let p = pow10(k) as int;
            let vx = digits_value(x);
            let vy = digits_value(y);
            let da = digits_value(a.digits);
            let db = digits_value(b.digits);
            let pa = pow10((m - la) as nat) as int;
            let pb = pow10((m - lb) as nat) as int;
            assert((m - la) as nat + k == (a.top - la + e) as nat);
            assert((m - lb) as nat + k == (b.top - lb + e) as nat);
            assert(magnitude(a, e) == vx * p) by (nonlinear_arith)
                requires
                    magnitude(a, e) == da * (pa * p),
                    vx == da * pa,
            ;
            assert(magnitude(b, e) == vy * p) by (nonlinear_arith)
                requires
                    magnitude(b, e) == db * (pb * p),
                    vy == db * pb,
            ;
            assert((vx < vy) == (vx * p < vy * p) && (vx == vy) == (vx * p == vy * p))
                by (nonlinear_arith)
                requires
                    p >= 1,
            ;
            if x == y {
                lemma_lex_irreflexive(x);
                if a.digits != b.digits {
                    crate::text::lemma_lex_connected(a.digits, b.digits);
                    if lex_less(b.digits, a.digits) {
                        lemma_lex_padded(b.digits, a.digits, m - lb, m - la);
                    }
                }
            }
        }
    }
}

/// The order of numbers is the order of their measures, and numbers are
/// equal where their measures are.
pub proof fn lemma_order_is_measure_order(a: Number, b: Number, e: int)
    requires
        is_canonical(a),
        is_canonical(b),
        fine_enough(a, e),
        fine_enough(b, e),
    ensures
        number_less(a, b) <==> measure(a, e) < measure(b, e),
        a == b <==> measure(a, e) == measure(b, e),
{
    lemma_magnitude_is_measure_order(a, b, e);
    lemma_magnitude_is_measure_order(b, a, e);
    if a.digits == b.digits && a.top == b.top && a.negative == b.negative {
        assert(a == b);
    }
}

proof fn lemma_skip_zeros_split(s: Seq<char>)
    ensures
        skip_zeros(s).len() <= s.len(),
        s == zeros(s.len() - skip_zeros(s).len()) + skip_zeros(s),
        skip_zeros(s).len() > 0 ==> skip_zeros(s)[0] != '0',
    decreases s.len(),
{
    if s.len() > 0 && s[0] == '0' {
        let r = s.drop_first();
        lemma_skip_zeros_split(r);
        assert(s =~= zeros(s.len() - skip_zeros(s).len()) + skip_zeros(s)) by {
            assert(s =~= seq!['0'] + r);
            assert(zeros(s.len() - skip_zeros(s).len()) =~= seq!['0'] + zeros(
                r.len() - skip_zeros(r).len(),
            ));
        }
    } else {
        assert(s =~= zeros(0) + s);
    }
}

proof fn lemma_drop_zeros_split(s: Seq<char>)
    ensures
        drop_trailing_zeros(s).len() <= s.len(),
        s == drop_trailing_zeros(s) + zeros(s.len() - drop_trailing_zeros(s).len()),
        drop_trailing_zeros(s).len() > 0 ==> drop_trailing_zeros(s).last() != '0'
            && drop_trailing_zeros(s)[0] == s[0],
    decreases s.len(),
{
    if s.len() > 0 && s.last() == '0' {
        let r = s.drop_last();
        lemma_drop_zeros_split(r);
        assert(s =~= drop_trailing_zeros(s) + zeros(s.len() - drop_trailing_zeros(s).len())) by {
            assert(s =~= r.push('0'));
            assert(zeros(s.len() - drop_trailing_zeros(s).len()) =~= zeros(
                r.len() - drop_trailing_zeros(r).len(),
            ).push('0'));
        }
    } else {
        assert(s =~= s + zeros(0));
    }
}

proof fn lemma_parts_are_digits(s: Seq<char>, a: Seq<char>, b: Seq<char>)
    requires
        s == a + b,
        all_digits(s),
    ensures
        all_digits(a),
        all_digits(b),
{
    assert forall|i: int| 0 <= i < a.len() implies is_digit(#[trigger] a[i]) by {
        assert(s[i] == a[i]);
    }
    assert forall|i: int| 0 <= i < b.len() implies is_digit(#[trigger] b[i]) by {
        assert(s[a.len() + i] == b[i]);
    }
}

proof fn lemma_joined_are_digits(a: Seq<char>, b: Seq<char>)
    requires
        all_digits(a),
        all_digits(b),
    ensures
        all_digits(a + b),
{
    let s = a + b;
    assert forall|i: int| 0 <= i < s.len() implies is_digit(#[trigger] s[i]) by {
        if i < a.len() {
            assert(s[i] == a[i]);
        } else {
            assert(s[i] == b[i - a.len()]);
        }
    }
}

/// The value of a literal in units of `10^-e`.
pub open spec fn literal_measure(l: LiteralParts, e: int) -> int {
    let v = digits_value(l.whole + l.fraction) * pow10((l.exponent - l.fraction.len() + e) as nat);
    if l.negative {
        -v
    } else {
        v
    }
}

/// The number that a literal stands for is in canonical form and has the
/// value of the literal, unless the value was too small to be told apart
/// from zero.
pub proof fn lemma_number_is_value(l: LiteralParts, e: int)
    requires
        all_digits(l.whole),
        all_digits(l.fraction),
        e >= 0,
        l.exponent - l.fraction.len() + e >= 0,
        number_of_literal(l) is Some,
    ensures
        ({
            let n = number_of_literal(l)->0;
            &&& is_canonical(n)
            &&& significant(l).len() == 0 || literal_top(l) >= MIN_TOP ==> fine_enough(n, e)
                && measure(n, e) == literal_measure(l, e)
        }),
{
    let n = number_of_literal(l)->0;
    let mantissa = l.whole + l.fraction;
    let tail = skip_zeros(mantissa);
    let digits = significant(l);
    let z = mantissa.len() - tail.len();
    let tz = tail.len() - digits.len();
    lemma_joined_are_digits(l.whole, l.fraction);
    lemma_skip_zeros_split(mantissa);
    lemma_drop_zeros_split(tail);
    lemma_parts_are_digits(mantissa, zeros(z), tail);
    lemma_parts_are_digits(tail, digits, zeros(tz));
    lemma_value_concat(zeros(z), tail);
    lemma_value_zeros(z);
    lemma_value_concat(digits, zeros(tz));
    lemma_value_zeros(tz);
    let d = digits_value(digits);
    let k = (l.exponent - l.fraction.len() + e) as nat;
    let ptz = pow10(tz as nat) as int;
    let pk = pow10(k) as int;
    assert(digits_value(mantissa) == d * ptz) by (nonlinear_arith)
        requires
            digits_value(mantissa) == 0 * pow10(tail.len()) + digits_value(tail),
            digits_value(tail) == d * ptz + 0,
    ;
    if digits.len() == 0 {
        assert(d == 0);
        assert(digits_value(mantissa) * pk == 0) by (nonlinear_arith)
            requires
                digits_value(mantissa) == 0 * ptz,
        ;
        assert(magnitude(n, e) == 0) by (nonlinear_arith)
            requires
                magnitude(n, e) == 0 * pow10((n.top - n.digits.len() + e) as nat),
        ;
    } else if literal_top(l) >= MIN_TOP {
        lemma_pow10_add(tz as nat, k);
        assert(tz as nat + k == (n.top - n.digits.len() + e) as nat);
        assert(d * (ptz * pk) == (d * ptz) * pk) by (nonlinear_arith);
    }
}

proof fn lemma_digit_run(s: Seq<char>, from: int)
    requires
        0 <= from <= s.len(),
    ensures
        from <= digits_end(s, from) <= s.len(),
        all_digits(s.subrange(from, digits_end(s, from))),
    decreases s.len() - from,
{
    if from < s.len() && is_digit(s[from]) {
        lemma_digit_run(s, from + 1);
        let run = s.subrange(from, digits_end(s, from));
        let rest = s.subrange(from + 1, digits_end(s, from + 1));
        assert forall|i: int| 0 <= i < run.len() implies is_digit(#[trigger] run[i]) by {
            if i > 0 {
                assert(rest[i - 1] == run[i]);
            }
        }
    }
}

/// The parts of a decimal literal are runs of digits.
pub proof fn lemma_literal_digits(t: Seq<char>)
    requires
        literal_of(t) is Some,
    ensures
        all_digits(literal_of(t)->0.whole),
        all_digits(literal_of(t)->0.fraction),
{
    let first: int = if t.len() > 0 && crate::number::is_sign(t[0]) {
        1
    } else {
        0
    };
    lemma_digit_run(t, first);
    let dot = digits_end(t, first);
    if dot < t.len() && t[dot] == '.' {
        lemma_digit_run(t, dot + 1);
    } else {
        assert(t.subrange(dot, dot) =~= Seq::<char>::empty());
    }
}

/// Every number that a text stands for is in canonical form.
pub proof fn lemma_numbers_are_canonical(t: Seq<char>)
    requires
        number_of(t) is Some,
    ensures
        is_canonical(number_of(t)->0),
{
    lemma_literal_digits(t);
    let l = literal_of(t)->0;
    let e = if l.fraction.len() - l.exponent >= 0 {
        l.fraction.len() - l.exponent
    } else {
        0
    };
    lemma_number_is_value(l, e);
}

/// The number that a text stands for has the value of the text, measured
/// in units fine enough for its fraction, unless the value was too small
/// to be told apart from zero.
pub proof fn lemma_number_of_is_value(t: Seq<char>, e: int)
    requires
        number_of(t) is Some,
        e >= 0,
        literal_of(t)->0.exponent - literal_of(t)->0.fraction.len() + e >= 0,
        significant(literal_of(t)->0).len() == 0 || literal_top(literal_of(t)->0) >= MIN_TOP,
    ensures
        fine_enough(number_of(t)->0, e),
        measure(number_of(t)->0, e) == literal_measure(literal_of(t)->0, e),
{
    lemma_literal_digits(t);
    lemma_number_is_value(literal_of(t)->0, e);
}

/// A whole number of 64 bits, read as a number, is worth itself.
pub proof fn lemma_integer_is_its_value(t: Seq<char>)
    requires
        i64_of(t) is Some,
    ensures
        number_of(t) is Some,
        fine_enough(number_of(t)->0, 0),
        measure(number_of(t)->0, 0) == i64_of(t)->0,
{
    lemma_integers_are_numbers(t);
    lemma_integer_literal(t);
    let l = literal_of(t)->0;
    lemma_number_of_is_value(t, 0);
    assert(l.whole + l.fraction =~= integer_body(t));
    let v = digits_value(integer_body(t));
    let p = pow10(0) as int;
    assert(p == 1);
    assert(v * p == v) by (nonlinear_arith)
        requires
            p == 1,
    ;
    assert((l.exponent - l.fraction.len() + 0) as nat == 0);
}

proof fn lemma_digits_end_run(s: Seq<char>, from: int, k: int)
    requires
        0 <= from,
        0 <= k,
        from + k <= s.len(),
        forall|i: int| from <= i < from + k ==> is_digit(#[trigger] s[i]),
        from + k == s.len() || !is_digit(s[from + k]),
    ensures
        digits_end(s, from) == from + k,
    decreases k,
{
    if k > 0 {
        assert(is_digit(s[from]));
        lemma_digits_end_run(s, from + 1, k - 1);
    }
}

proof fn lemma_skip_zeros_of(z: int, d: Seq<char>)
    requires
        z >= 0,
        d.len() == 0 || d[0] != '0',
    ensures
        skip_zeros(zeros(z) + d) == d,
    decreases z,
{
    let s = zeros(z) + d;
    if z > 0 {
        assert(s[0] == '0');
        assert(s.drop_first() =~= zeros(z - 1) + d);
        lemma_skip_zeros_of(z - 1, d);
    } else {
        assert(s =~= d);
    }
}

proof fn lemma_drop_zeros_of(d: Seq<char>, z: int)
    requires
        z >= 0,
        d.len() == 0 || d.last() != '0',
    ensures
        drop_trailing_zeros(d + zeros(z)) == d,
    decreases z,
{
    let s = d + zeros(z);
    if z > 0 {
        assert(s.last() == '0');
        assert(s.drop_last() =~= d + zeros(z - 1));
        lemma_drop_zeros_of(d, z - 1);
    } else {
        assert(s =~= d);
    }
}

/// A text made of an optional `-`, digits, and optionally a point and
/// more digits, is a literal with these parts.
proof fn lemma_plain_literal(t: Seq<char>, first: int, w: int, f: int, dotted: bool)
    requires
        first == 0 || first == 1,
        first == 1 ==> t.len() > 0 && t[0] == '-',
        first == 0 ==> t.len() > 0 && is_digit(t[0]),
        w >= 1,
        f >= 0,
        forall|i: int| first <= i < first + w ==> is_digit(#[trigger] t[i]),
        dotted ==> t.len() == first + w + 1 + f && t[first + w] == '.' && forall|i: int|
            first + w + 1 <= i < t.len() ==> is_digit(#[trigger] t[i]),
        !dotted ==> t.len() == first + w && f == 0,
    ensures
        literal_of(t) == Some(
            LiteralParts {
                negative: first == 1,
                whole: t.subrange(first, first + w),
                fraction: if dotted {
                    t.subrange(first + w + 1, t.len() as int)
                } else {
                    Seq::empty()
                },
                exponent: 0,
            },
        ),
{
    lemma_digits_end_run(t, first, w);
    if dotted {
        lemma_digits_end_run(t, first + w + 1, f);
    } else {
        assert(t.subrange(first + w, first + w) =~= Seq::<char>::empty());
    }
}

/// A literal whose digits are those of a canonical number between zeros,
/// with the point in the right place, stands for that number.
proof fn lemma_normalised(l: LiteralParts, n: Number, z: int, tz: int)
    requires
        is_canonical(n),
        n.digits.len() > 0,
        z >= 0,
        tz >= 0,
        l.whole + l.fraction == zeros(z) + n.digits + zeros(tz),
        l.exponent == 0,
        l.whole.len() - z == n.top,
        l.negative == n.negative,
    ensures
        number_of_literal(l) == Some(n),
{
    let d = n.digits;
    let mantissa = l.whole + l.fraction;
    let tail = d + zeros(tz);
    assert(mantissa =~= zeros(z) + tail);
    assert(tail[0] == d[0]);
    lemma_skip_zeros_of(z, tail);
    lemma_drop_zeros_of(d, tz);
    assert(mantissa.len() == z + tail.len());
}

proof fn lemma_small_text_reads_back(n: Number)
    requires
        is_canonical(n),
        n.digits.len() > 0,
        n.top <= 0,
    ensures
        number_of(number_text(n)) == Some(n),
{
    let d = n.digits;
    let len = d.len() as int;
    let t = number_text(n);
    let z = -n.top;
    let first: int = if n.negative {
        1
    } else {
        0
    };
    let sign: Seq<char> = if n.negative {
        seq!['-']
    } else {
        Seq::empty()
    };
    assert(t =~= sign + seq!['0', '.'] + zeros(z) + d);
    assert(t.len() == first + 2 + z + len);
    assert(t[first] == '0');
    assert(t[first + 1] == '.');
    assert forall|i: int| first + 2 <= i < t.len() implies is_digit(#[trigger] t[i]) by {
        if i < first + 2 + z {
            assert(t[i] == '0');
        } else {
            assert(t[i] == d[i - first - 2 - z]);
        }
    }
    lemma_plain_literal(t, first, 1, z + len, true);
    let l = literal_of(t)->0;
    assert(l.whole + l.fraction =~= zeros(z + 1) + d + zeros(0));
    lemma_normalised(l, n, z + 1, 0);
}

proof fn lemma_whole_text_reads_back(n: Number)
    requires
        is_canonical(n),
        n.digits.len() > 0,
        n.top >= n.digits.len(),
    ensures
        number_of(number_text(n)) == Some(n),
{
    let d = n.digits;
    let len = d.len() as int;
    let t = number_text(n);
    let z = n.top - len;
    let first: int = if n.negative {
        1
    } else {
        0
    };
    let sign: Seq<char> = if n.negative {
        seq!['-']
    } else {
        Seq::empty()
    };
    assert(t =~= sign + d + zeros(z));
    assert(t.len() == first + len + z);
    assert forall|i: int| first <= i < t.len() implies is_digit(#[trigger] t[i]) by {
        if i < first + len {
            assert(t[i] == d[i - first]);
        } else {
            assert(t[i] == '0');
        }
    }
    assert(t[first] == d[0]);
    lemma_plain_literal(t, first, len + z, 0, false);
    let l = literal_of(t)->0;
    assert(l.whole + l.fraction =~= zeros(0) + d + zeros(z));
    lemma_normalised(l, n, 0, z);
}

proof fn lemma_mixed_text_reads_back(n: Number)
    requires
        is_canonical(n),
        0 < n.top < n.digits.len(),
    ensures
        number_of(number_text(n)) == Some(n),
{
    let d = n.digits;
    let len = d.len() as int;
    let t = number_text(n);
    let first: int = if n.negative {
        1
    } else {
        0
    };
    let sign: Seq<char> = if n.negative {
        seq!['-']
    } else {
        Seq::empty()
    };
    assert(t =~= sign + d.subrange(0, n.top) + seq!['.'] + d.subrange(n.top, len));
    assert(t.len() == first + len + 1);
    assert(t[first + n.top] == '.');
    assert forall|i: int| first <= i < first + n.top implies is_digit(#[trigger] t[i]) by {
        assert(t[i] == d[i - first]);
    }
    assert forall|i: int| first + n.top + 1 <= i < t.len() implies is_digit(#[trigger] t[i]) by {
        assert(t[i] == d[i - first - 1]);
    }
    assert(t[first] == d[0]);
    lemma_plain_literal(t, first, n.top, len - n.top, true);
    let l = literal_of(t)->0;
    assert(l.whole + l.fraction =~= zeros(0) + d + zeros(0));
    lemma_normalised(l, n, 0, 0);
}

/// A number written out in full reads as itself.
pub proof fn lemma_text_reads_back(n: Number)
    requires
        is_canonical(n),
    ensures
        number_of(number_text(n)) == Some(n),
{
    if n.digits.len() == 0 {
        let t = number_text(n);
        assert(t =~= seq!['0']);
        lemma_plain_literal(t, 0, 1, 0, false);
        let l = literal_of(t)->0;
        assert(l.whole + l.fraction =~= zeros(1) + Seq::<char>::empty());
        lemma_skip_zeros_of(1, Seq::<char>::empty());
        assert(n == zero());
    } else if n.top <= 0 {
        lemma_small_text_reads_back(n);
    } else if n.top >= n.digits.len() {
        lemma_whole_text_reads_back(n);
    } else {
        lemma_mixed_text_reads_back(n);
    }
}

} // verus!
