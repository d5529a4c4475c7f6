//! Whether a floating-point literal reads as a finite `f64`: the decimal value it writes,
//! compared with the least value that rounds past `f64::MAX`.

use vstd::prelude::*;

use crate::decimal::{
    all_digits, digit_val, digits_value, is_digit, is_exponent, is_float_literal, is_mantissa,
    is_number, lemma_is_number_at, lemma_is_number_no_e, sub_vec, unsigned_part,
};
use crate::text::{chars_of, eq_lit, lower_vec};

verus! {

pub open spec fn pow10(n: nat) -> nat
    decreases n,
{
    if n == 0 {
        1
    } else {
        10 * pow10((n - 1) as nat)
    }
}

/// The decimal digits of `2^1024 - 2^970`, half a unit in the last place above
/// `f64::MAX`: a decimal value at or above it rounds (to nearest, ties to even) to infinity.
pub open spec fn overflow_digits() -> Seq<char> {
    "179769313486231580793728971405303415079934132710037826936173778980444968292764750946649017977587207096330286416692887910946555547851940402630657488671505820681908902000708383676273854845817711531764475730270069855571366959622842914819860834936475292719074168444365510704342711559699508093042880177904174497792"@
}

pub open spec fn overflow_threshold() -> nat {
    digits_value(overflow_digits())
}

/// `n` zero digits.
pub open spec fn zeros(n: nat) -> Seq<char> {
    Seq::new(n, |i: int| '0')
}

/// Whether `v * 10^x` lies below the overflow threshold.
pub open spec fn below_overflow(v: nat, x: int) -> bool {
    if x >= 0 {
        v * pow10(x as nat) < overflow_threshold()
    } else {
        v < overflow_threshold() * pow10((-x) as nat)
    }
}

pub proof fn lemma_pow10_positive(n: nat)
    ensures
        pow10(n) >= 1,
    decreases n,
{
    if n > 0 {
        lemma_pow10_positive((n - 1) as nat);
    }
}

pub proof fn lemma_pow10_adds(a: nat, b: nat)
    ensures
        pow10(a + b) == pow10(a) * pow10(b),
    decreases a,
{
    if a > 0 {
        lemma_pow10_adds((a - 1) as nat, b);
        assert(pow10(a + b) == 10 * pow10((a - 1 + b) as nat));
        let p = pow10((a - 1) as nat);
        let q = pow10(b);
        assert(pow10(a) == 10 * p);
        assert(10 * (p * q) == (10 * p) * q) by (nonlinear_arith);
    } else {
        assert(a + b == b);
        assert(pow10(a) == 1);
    }
}

pub proof fn lemma_pow10_monotone(a: nat, b: nat)
    requires
        a <= b,
    ensures
        pow10(a) <= pow10(b),
    decreases b,
{
    if a < b {
        lemma_pow10_monotone(a, (b - 1) as nat);
        lemma_pow10_positive((b - 1) as nat);
    }
}

/// The value of `a` followed by `b` is that of `a` shifted by the length of `b`, plus `b`.
pub proof fn lemma_digits_concat(a: Seq<char>, b: Seq<char>)
    ensures
        digits_value(a + b) == digits_value(a) * pow10(b.len()) + digits_value(b),
    decreases b.len(),
{
    if b.len() == 0 {
        assert(a + b =~= a);
        assert(digits_value(b) == 0);
        assert(pow10(b.len()) == 1);
        assert(digits_value(a) * 1 == digits_value(a));
        assert(digits_value(a + b) == digits_value(a) * pow10(b.len()) + digits_value(b));
    } else {
        let bl = b.drop_last();
        assert((a + b).drop_last() =~= a + bl);
        assert((a + b).last() == b.last());
        lemma_digits_concat(a, bl);
        let va = digits_value(a);
        let p = pow10(bl.len());
        let vb = digits_value(bl);
        assert(pow10(b.len()) == 10 * p);
        assert(digits_value(b) == vb * 10 + digit_val(b.last()));
        assert(digits_value(a + b) == digits_value(a + bl) * 10 + digit_val(b.last()));
        assert((va * p + vb) * 10 == va * (10 * p) + vb * 10) by (nonlinear_arith);
        assert(digits_value(a + b) == va * pow10(b.len()) + digits_value(b));
    }
}

pub proof fn lemma_digits_below(s: Seq<char>)
    requires
        all_digits(s),
    ensures
        digits_value(s) < pow10(s.len()),
    decreases s.len(),
{
    if s.len() > 0 {
        let d = s.drop_last();
        assert(all_digits(d)) by {
            assert forall|i: int| 0 <= i < d.len() implies is_digit(#[trigger] d[i]) by {
                assert(d[i] == s[i]);
            }
        }
        assert(is_digit(s[s.len() - 1]));
        lemma_digits_below(d);
    }
}

pub proof fn lemma_digits_at_least(s: Seq<char>)
    requires
        all_digits(s),
        s.len() > 0,
        s[0] != '0',
    ensures
        digits_value(s) >= pow10((s.len() - 1) as nat),
{
    let head = s.take(1);
    let rest = s.skip(1);
    assert(s =~= head + rest);
    lemma_digits_concat(head, rest);
    assert(head.drop_last() =~= Seq::<char>::empty());
    assert(digits_value(head.drop_last()) == 0);
    assert(head.last() == s[0]);
    assert(is_digit(s[0]));
    assert(digits_value(head) == digit_val(s[0]));
    assert(digits_value(head) >= 1);
    let p = pow10(rest.len());
    assert(digits_value(head) * p >= p) by (nonlinear_arith)
        requires
            digits_value(head) >= 1,
            p >= 0,
    ;
}

pub proof fn lemma_zeros_value(n: nat)
    ensures
        digits_value(zeros(n)) == 0,
    decreases n,
{
    if n > 0 {
        assert(zeros(n).drop_last() =~= zeros((n - 1) as nat));
        lemma_zeros_value((n - 1) as nat);
    }
}

/// Leading zeros add nothing to the value.
pub proof fn lemma_leading_zeros(s: Seq<char>, z: int)
    requires
        0 <= z <= s.len(),
        forall|j: int| 0 <= j < z ==> #[trigger] s[j] == '0',
    ensures
        digits_value(s) == digits_value(s.skip(z)),
{
    assert(s.take(z) =~= zeros(z as nat));
    assert(s =~= s.take(z) + s.skip(z));
    lemma_digits_concat(s.take(z), s.skip(z));
    lemma_zeros_value(z as nat);
}

/// Trailing zeros multiply the value by ten each.
pub proof fn lemma_trailing_zeros(s: Seq<char>, n: nat)
    ensures
        digits_value(s + zeros(n)) == digits_value(s) * pow10(n),
{
    lemma_digits_concat(s, zeros(n));
    lemma_zeros_value(n);
}

/// Two digit strings of one length compare as their first differing digits do.
pub proof fn lemma_digits_lex(a: Seq<char>, b: Seq<char>, i: int)
    requires
        a.len() == b.len(),
        all_digits(a),
        all_digits(b),
        0 <= i < a.len(),
        forall|j: int| 0 <= j < i ==> #[trigger] a[j] == b[j],
        a[i] < b[i],
    ensures
        digits_value(a) < digits_value(b),
{
    let n = a.len();
    let ah = a.take(i + 1);
    let bh = b.take(i + 1);
    let at = a.skip(i + 1);
    let bt = b.skip(i + 1);
    assert(a =~= ah + at);
    assert(b =~= bh + bt);
    lemma_digits_concat(ah, at);
    lemma_digits_concat(bh, bt);
    assert(ah.drop_last() =~= bh.drop_last());
    assert(ah.last() == a[i] && bh.last() == b[i]);
    assert(is_digit(a[i]) && is_digit(b[i]));
    assert(digits_value(ah) + 1 <= digits_value(bh));
    assert(all_digits(at)) by {
        assert forall|j: int| 0 <= j < at.len() implies is_digit(#[trigger] at[j]) by {
            assert(at[j] == a[i + 1 + j]);
        }
    }
    lemma_digits_below(at);
    let p = pow10(at.len());
    let x = digits_value(ah);
    let y = digits_value(bh);
    let r = digits_value(at);
    let s = digits_value(bt);
    assert(x * p + r < y * p + s) by (nonlinear_arith)
        requires
            x + 1 <= y,
            r < p,
            s >= 0,
    ;
}

pub proof fn lemma_threshold_range()
    ensures
        pow10(308) <= overflow_threshold() < pow10(309),
{
    reveal_strlit("179769313486231580793728971405303415079934132710037826936173778980444968292764750946649017977587207096330286416692887910946555547851940402630657488671505820681908902000708383676273854845817711531764475730270069855571366959622842914819860834936475292719074168444365510704342711559699508093042880177904174497792");
    let t = overflow_digits();
    assert(t.len() == 309);
    assert(t[0] == '1');
    assert(all_digits(t));
    lemma_digits_below(t);
    lemma_digits_at_least(t);
}

/// A value with `len` digits, the first not zero, lies below the threshold whenever
/// `len + x <= 308`.
pub proof fn lemma_short_is_below(v: nat, len: nat, x: int)
    requires
        v < pow10(len),
        len + x <= 308,
    ensures
        below_overflow(v, x),
{
    lemma_threshold_range();
    let t = overflow_threshold();
    if x >= 0 {
        let q = pow10(x as nat);
        lemma_pow10_adds(len, x as nat);
        lemma_pow10_monotone((len + x) as nat, 308);
        lemma_pow10_positive(x as nat);
        assert(v * q < pow10(len) * q) by (nonlinear_arith)
            requires
                v < pow10(len),
                q >= 1,
        ;
    } else {
        let nx = (-x) as nat;
        let q = pow10(nx);
        lemma_pow10_positive(nx);
        if len + x >= 0 {
            let pp = (len + x) as nat;
            lemma_pow10_adds(pp, nx);
            assert(pp + nx == len);
            lemma_pow10_monotone(pp, 308);
            assert(pow10(pp) * q <= t * q) by (nonlinear_arith)
                requires
                    pow10(pp) <= t,
                    q >= 1,
            ;
        } else {
            lemma_pow10_monotone(len, nx);
            lemma_pow10_positive(308);
            assert(q <= t * q) by (nonlinear_arith)
                requires
                    t >= 1,
                    q >= 1,
            ;
        }
    }
}

/// A value with `len` digits, the first not zero, reaches the threshold whenever
/// `len + x >= 310`.
pub proof fn lemma_long_is_above(v: nat, len: nat, x: int)
    requires
        len >= 1,
        v >= pow10((len - 1) as nat),
        len + x >= 310,
    ensures
        !below_overflow(v, x),
{
    lemma_threshold_range();
    let t = overflow_threshold();
    if x >= 0 {
        let q = pow10(x as nat);
        lemma_pow10_adds((len - 1) as nat, x as nat);
        lemma_pow10_monotone(309, (len - 1 + x) as nat);
        assert(v * q >= pow10((len - 1) as nat) * q) by (nonlinear_arith)
            requires
                v >= pow10((len - 1) as nat),
                q >= 0,
        ;
    } else {
        let nx = (-x) as nat;
        let q = pow10(nx);
        lemma_pow10_positive(nx);
        let pp = (len - 1 + x) as nat;
        lemma_pow10_adds(pp, nx);
        assert(pp + nx == len - 1);
        lemma_pow10_monotone(309, pp);
        assert(t * q < pow10(pp) * q) by (nonlinear_arith)
            requires
                t < pow10(pp),
                q >= 1,
        ;
    }
}

/// The common length to which both digit strings are padded.
pub open spec fn edge_len(len: nat) -> nat {
    if len >= 309 {
        len
    } else {
        309
    }
}

/// When `len + x == 309`, the comparison is that of the digits of `v` and of the threshold,
/// both padded with zeros to a common length.
pub proof fn lemma_edge_compare(d: Seq<char>, x: int)
    requires
        d.len() + x == 309,
    ensures
        below_overflow(digits_value(d), x) == (digits_value(d + zeros((edge_len(d.len()) - d.len()) as nat))
            < digits_value(overflow_digits() + zeros((edge_len(d.len()) - 309) as nat))),
{
    reveal_strlit("179769313486231580793728971405303415079934132710037826936173778980444968292764750946649017977587207096330286416692887910946555547851940402630657488671505820681908902000708383676273854845817711531764475730270069855571366959622842914819860834936475292719074168444365510704342711559699508093042880177904174497792");
    let len = d.len();
    let n = edge_len(len);
    lemma_trailing_zeros(d, (n - len) as nat);
    lemma_trailing_zeros(overflow_digits(), (n - 309) as nat);
    if len <= 309 {
        assert(n == 309);
        assert(pow10(0) == 1);
    } else {
        assert(n - len == 0);
        assert(pow10(0) == 1);
    }
}

/// The decimal digits of the midpoint between `1e-12` as an `f64` and the `f64` just below
/// it, scaled by `10^93`. That `f64` has an odd significand, so a decimal value at or below
/// the midpoint rounds (to nearest, ties to even) below `1e-12`, and one above it rounds to
/// `1e-12` or more.
pub open spec fn small_digits() -> Seq<char> {
    "999999999999999878912451760966104274551587149932885267844540067017078399658203125"@
}

pub open spec fn small_threshold() -> nat {
    digits_value(small_digits())
}

/// Whether `v * 10^x` is at most the midpoint below `1e-12`.
pub open spec fn at_most_small(v: nat, x: int) -> bool {
    let y = x + 93;
    if y >= 0 {
        v * pow10(y as nat) <= small_threshold()
    } else {
        v <= small_threshold() * pow10((-y) as nat)
    }
}

/// Whether `f64::from_str` reads the literal `s` as a number whose magnitude lies below
/// `1e-12` (as an `f64`): not an infinity or a NaN, and a decimal value at most the
/// midpoint between that `f64` and the one below it.
pub open spec fn is_negligible_literal(s: Seq<char>) -> bool {
    let b = unsigned_part(s);
    if b == "inf"@ || b == "infinity"@ || b == "nan"@ {
        false
    } else {
        let k = e_index(b);
        let m = b.take(k as int);
        let e = if k < b.len() {
            exponent_value(b.skip(k as int + 1))
        } else {
            0
        };
        at_most_small(mantissa_value(m), e - fraction_len(m))
    }
}

pub proof fn lemma_small_range()
    ensures
        pow10(80) <= small_threshold() < pow10(81),
{
    reveal_strlit("999999999999999878912451760966104274551587149932885267844540067017078399658203125");
    let t = small_digits();
    assert(t.len() == 81);
    assert(t[0] == '9');
    assert(all_digits(t));
    lemma_digits_below(t);
    lemma_digits_at_least(t);
}

/// A value with `len` digits lies at or below the midpoint whenever `len + x + 93 <= 80`.
pub proof fn lemma_short_is_small(v: nat, len: nat, x: int)
    requires
        v < pow10(len),
        len + x + 93 <= 80,
    ensures
        at_most_small(v, x),
{
    lemma_small_range();
    let t = small_threshold();
    let y = x + 93;
    if y >= 0 {
        let q = pow10(y as nat);
        lemma_pow10_adds(len, y as nat);
        lemma_pow10_monotone((len + y) as nat, 80);
        lemma_pow10_positive(y as nat);
        assert(v * q < pow10(len) * q) by (nonlinear_arith)
            requires
                v < pow10(len),
                q >= 1,
        ;
    } else {
        let ny = (-y) as nat;
        let q = pow10(ny);
        lemma_pow10_positive(ny);
        if len + y >= 0 {
            let pp = (len + y) as nat;
            lemma_pow10_adds(pp, ny);
            assert(pp + ny == len);
            lemma_pow10_monotone(pp, 80);
            assert(pow10(pp) * q <= t * q) by (nonlinear_arith)
                requires
                    pow10(pp) <= t,
                    q >= 1,
            ;
        } else {
            lemma_pow10_monotone(len, ny);
            lemma_pow10_positive(80);
            assert(q <= t * q) by (nonlinear_arith)
                requires
                    t >= 1,
                    q >= 1,
            ;
        }
    }
}

/// A value with `len` digits, the first not zero, lies above the midpoint whenever
/// `len + x + 93 >= 82`.
pub proof fn lemma_long_is_not_small(v: nat, len: nat, x: int)
    requires
        len >= 1,
        v >= pow10((len - 1) as nat),
        len + x + 93 >= 82,
    ensures
        !at_most_small(v, x),
{
    lemma_small_range();
    let t = small_threshold();
    let y = x + 93;
    if y >= 0 {
        let q = pow10(y as nat);
        lemma_pow10_adds((len - 1) as nat, y as nat);
        lemma_pow10_monotone(81, (len - 1 + y) as nat);
        assert(v * q >= pow10((len - 1) as nat) * q) by (nonlinear_arith)
            requires
                v >= pow10((len - 1) as nat),
                q >= 0,
        ;
    } else {
        let ny = (-y) as nat;
        let q = pow10(ny);
        lemma_pow10_positive(ny);
        let pp = (len - 1 + y) as nat;
        lemma_pow10_adds(pp, ny);
        assert(pp + ny == len - 1);
        lemma_pow10_monotone(81, pp);
        assert(t * q < pow10(pp) * q) by (nonlinear_arith)
            requires
                t < pow10(pp),
                q >= 1,
        ;
    }
}

/// The common length to which a value's digits and the midpoint's are padded.
pub open spec fn small_edge_len(len: nat) -> nat {
    if len >= 81 {
        len
    } else {
        81
    }
}

/// When `len + x + 93 == 81`, the comparison is that of the digits of `v` and of the
/// midpoint, both padded with zeros to a common length.
pub proof fn lemma_small_edge_compare(d: Seq<char>, x: int)
    requires
        d.len() + x + 93 == 81,
    ensures
        at_most_small(digits_value(d), x) == (digits_value(d + zeros((small_edge_len(d.len()) - d.len()) as nat))
            <= digits_value(small_digits() + zeros((small_edge_len(d.len()) - 81) as nat))),
{
    reveal_strlit("999999999999999878912451760966104274551587149932885267844540067017078399658203125");
    let len = d.len();
    let n = small_edge_len(len);
    lemma_trailing_zeros(d, (n - len) as nat);
    lemma_trailing_zeros(small_digits(), (n - 81) as nat);
    if len <= 81 {
        assert(n == 81);
        assert(pow10(0) == 1);
    } else {
        assert(n - len == 0);
        assert(pow10(0) == 1);
    }
}

/// The number written by the digits of a mantissa, its point left out.
pub open spec fn mantissa_value(m: Seq<char>) -> nat
    decreases m.len(),
{
    if m.len() == 0 {
        0
    } else if m.last() == '.' {
        mantissa_value(m.drop_last())
    } else {
        mantissa_value(m.drop_last()) * 10 + digit_val(m.last())
    }
}

/// How many characters follow the last point.
pub open spec fn after_point(m: Seq<char>) -> nat
    decreases m.len(),
{
    if m.len() == 0 || m.last() == '.' {
        0
    } else {
        after_point(m.drop_last()) + 1
    }
}

/// How many digits of a mantissa follow its point (none without one).
pub open spec fn fraction_len(m: Seq<char>) -> nat {
    if m.contains('.') {
        after_point(m)
    } else {
        0
    }
}

/// The exponent digits as `f64::from_str` accumulates them: once the running value
/// reaches 65536, further digits are ignored.
pub open spec fn capped_exponent(d: Seq<char>) -> nat
    decreases d.len(),
{
    if d.len() == 0 {
        0
    } else {
        let a = capped_exponent(d.drop_last());
        if a < 65536 {
            a * 10 + digit_val(d.last())
        } else {
            a
        }
    }
}

/// The signed exponent written after the `e`.
pub open spec fn exponent_value(t: Seq<char>) -> int {
    if t.len() > 0 && t[0] == '-' {
        -(capped_exponent(t.drop_first()) as int)
    } else if t.len() > 0 && t[0] == '+' {
        capped_exponent(t.drop_first()) as int
    } else {
        capped_exponent(t) as int
    }
}

/// Position of the first `e`, or the length when there is none.
pub open spec fn e_index(b: Seq<char>) -> nat
    decreases b.len(),
{
    if b.len() == 0 || b[0] == 'e' {
        0
    } else {
        e_index(b.drop_first()) + 1
    }
}

/// Whether `f64::from_str` reads the literal `s` as a finite number: not an infinity or a
/// NaN, and a decimal value below the overflow threshold.
pub open spec fn is_finite_literal(s: Seq<char>) -> bool {
    let b = unsigned_part(s);
    if b == "inf"@ || b == "infinity"@ || b == "nan"@ {
        false
    } else {
        let k = e_index(b);
        let m = b.take(k as int);
        let e = if k < b.len() {
            exponent_value(b.skip(k as int + 1))
        } else {
            0
        };
        below_overflow(mantissa_value(m), e - fraction_len(m))
    }
}

proof fn lemma_e_index(b: Seq<char>, k: int)
    requires
        0 <= k <= b.len(),
        forall|j: int| 0 <= j < k ==> #[trigger] b[j] != 'e',
        k == b.len() || b[k] == 'e',
    ensures
        e_index(b) == k,
    decreases k,
{
    if k > 0 {
        let t = b.drop_first();
        assert forall|j: int| 0 <= j < k - 1 implies #[trigger] t[j] != 'e' by {
            assert(t[j] == b[j + 1]);
        }
        assert(b[0] != 'e');
        lemma_e_index(t, k - 1);
    }
}

/// The digits of the mantissa `b[0..k]` without its point, and how many follow the point.
fn mantissa_digits(b: &Vec<char>, k: usize) -> (r: (Vec<char>, usize))
    requires
        k <= b@.len(),
        is_mantissa(b@.take(k as int)),
    ensures
        digits_value(r.0@) == mantissa_value(b@.take(k as int)),
        all_digits(r.0@),
        r.1 == fraction_len(b@.take(k as int)),
{
    let ghost m = b@.take(k as int);
    let mut digits: Vec<char> = Vec::new();
    let mut frac: usize = 0;
    let mut dot = false;
    let mut i: usize = 0;
    while i < k
        invariant
            k <= b@.len(),
            m == b@.take(k as int),
            is_mantissa(m),
            i <= k,
            mantissa_value(m.take(i as int)) == digits_value(digits@),
            all_digits(digits@),
            dot == m.take(i as int).contains('.'),
            frac == (if dot { after_point(m.take(i as int)) } else { 0 }),
            frac <= i,
        decreases k - i,
    {
        let c = b[i];
        let ghost pre = m.take(i as int);
        let ghost cur = m.take(i + 1);
        assert(cur.drop_last() =~= pre);
        assert(cur.last() == c);
        assert(m[i as int] == c);
        assert(cur.contains('.') == (pre.contains('.') || c == '.')) by {
            if cur.contains('.') {
                let p = choose|p: int| 0 <= p < cur.len() && cur[p] == '.';
                if p < i {
                    assert(pre[p] == '.');
                }
            }
            if pre.contains('.') {
                let p = choose|p: int| 0 <= p < pre.len() && pre[p] == '.';
                assert(cur[p] == '.');
            }
            if c == '.' {
                assert(cur[i as int] == '.');
            }
        }
        if c == '.' {
            proof {
                if dot {
                    let p = choose|p: int| 0 <= p < pre.len() && pre[p] == '.';
                    assert(m[p] == '.' && m[i as int] == '.');
                }
            }
            dot = true;
            frac = 0;
        } else {
            assert(is_digit(m[i as int]));
            let ghost before = digits@;
            digits.push(c);
            assert(digits@.drop_last() =~= before);
            assert(all_digits(digits@)) by {
                assert forall|j: int| 0 <= j < digits@.len() implies is_digit(#[trigger] digits@[j]) by {
                    if j < before.len() {
                        assert(digits@[j] == before[j]);
                    }
                }
            }
            if dot {
                frac = frac + 1;
            }
        }
        i = i + 1;
    }
    assert(m.take(k as int) =~= m);
    (digits, frac)
}

/// The exponent written from position `lo` on (after the `e`): its sign, and its digits
/// as `capped_exponent` reads them.
fn exponent_of(b: &Vec<char>, lo: usize) -> (r: (bool, u32))
    requires
        lo <= b@.len(),
        is_exponent(b@.skip(lo as int)),
    ensures
        (if r.0 { -(r.1 as int) } else { r.1 as int }) == exponent_value(b@.skip(lo as int)),
{
    let ghost t = b@.skip(lo as int);
    let neg = lo < b.len() && b[lo] == '-';
    let start = if lo < b.len() && (b[lo] == '+' || b[lo] == '-') { lo + 1 } else { lo };
    let ghost d = b@.subrange(start as int, b@.len() as int);
    proof {
        if lo < b@.len() && (b@[lo as int] == '+' || b@[lo as int] == '-') {
            assert(d =~= t.drop_first());
        } else {
            assert(d =~= t);
        }
    }
    let mut a: u32 = 0;
    let mut j = start;
    while j < b.len()
        invariant
            start <= j <= b@.len(),
            d == b@.subrange(start as int, b@.len() as int),
            all_digits(d),
            a == capped_exponent(d.take(j - start)),
            a <= 655359,
        decreases b@.len() - j,
    {
        let ghost pre = d.take(j - start);
        assert(d.take(j - start + 1).drop_last() =~= pre);
        assert(d.take(j - start + 1).last() == b@[j as int]);
        assert(is_digit(d[j - start]));
        if a < 65536 {
            a = a * 10 + ((b[j] as u32) - ('0' as u32));
        }
        j = j + 1;
    }
    assert(d.take(j - start) =~= d);
    (neg, a)
}

/// Whether `f64::from_str` reads the literal `s` as a finite number.
pub fn finite_literal(s: &Vec<char>) -> (r: bool)
    requires
        is_float_literal(s@),
    ensures
        r == is_finite_literal(s@),
{
    let l = lower_vec(s);
    let start: usize = if l.len() > 0 && (l[0] == '+' || l[0] == '-') { 1 } else { 0 };
    let b = sub_vec(&l, start, l.len());
    proof {
        if l@.len() > 0 && (l@[0] == '+' || l@[0] == '-') {
            assert(b@ == l@.drop_first());
        } else {
            assert(b@ == l@);
        }
        assert(b@ == unsigned_part(s@));
    }
    if eq_lit(&b, "inf") || eq_lit(&b, "infinity") || eq_lit(&b, "nan") {
        return false;
    }
    assert(is_number(b@));
    let mut k: usize = 0;
    while k < b.len() && b[k] != 'e'
        invariant
            k <= b@.len(),
            forall|j: int| 0 <= j < k ==> #[trigger] b@[j] != 'e',
        decreases b@.len() - k,
    {
        k = k + 1;
    }
    proof {
        lemma_e_index(b@, k as int);
        if k == b@.len() {
            lemma_is_number_no_e(b@);
            assert(b@.take(k as int) =~= b@);
        } else {
            lemma_is_number_at(b@, k as int);
        }
    }
    let (digits, frac) = mantissa_digits(&b, k);
    let (neg, e) = if k < b.len() { exponent_of(&b, k + 1) } else { (false, 0) };
    let ghost ev: int = if k < b@.len() { exponent_value(b@.skip(k + 1)) } else { 0 };
    assert((if neg { -(e as int) } else { e as int }) == ev);
    let mut z: usize = 0;
    while z < digits.len() && digits[z] == '0'
        invariant
            z <= digits@.len(),
            forall|j: int| 0 <= j < z ==> #[trigger] digits@[j] == '0',
        decreases digits@.len() - z,
    {
        z = z + 1;
    }
    let d = sub_vec(&digits, z, digits.len());
    proof {
        assert(d@ =~= digits@.skip(z as int));
        lemma_leading_zeros(digits@, z as int);
        assert(all_digits(d@)) by {
            assert forall|j: int| 0 <= j < d@.len() implies is_digit(#[trigger] d@[j]) by {
                assert(d@[j] == digits@[z + j]);
            }
        }
    }
    assert(d@.len() == 0 || d@[0] != '0') by {
        if d@.len() > 0 {
            assert(d@[0] == digits@[z as int]);
        }
    }
    assert(is_finite_literal(s@) == below_overflow(digits_value(d@), ev - frac));
    value_below_overflow(&d, neg, e, frac)
}

/// Whether the digits `d` (no leading zero), scaled by `10^(±e - frac)`, lie below the
/// overflow threshold.
fn value_below_overflow(d: &Vec<char>, neg: bool, e: u32, frac: usize) -> (r: bool)
    requires
        all_digits(d@),
        d@.len() == 0 || d@[0] != '0',
    ensures
        r == below_overflow(digits_value(d@), (if neg { -(e as int) } else { e as int }) - frac),
{
    let ghost ev: int = if neg { -(e as int) } else { e as int };
    let ghost v = digits_value(d@);
    let ghost x: int = ev - frac;
    let len = d.len();
    if len == 0 {
        proof {
            lemma_threshold_range();
            assert(d@ =~= Seq::<char>::empty());
            assert(v == 0);
            if x >= 0 {
                assert(v * pow10(x as nat) == 0) by (nonlinear_arith)
                    requires
                        v == 0,
                ;
            } else {
                lemma_pow10_positive((-x) as nat);
                assert(overflow_threshold() * pow10((-x) as nat) >= 1) by (nonlinear_arith)
                    requires
                        overflow_threshold() >= 1,
                        pow10((-x) as nat) >= 1,
                ;
            }
        }
        return true;
    }
    let xe: i128 = if neg { -(e as i128) } else { e as i128 };
    let xx: i128 = xe - frac as i128;
    let p: i128 = len as i128 + xx;
    assert(xx == x);
    if p <= 308 {
        proof {
            lemma_digits_below(d@);
            lemma_short_is_below(v, len as nat, x);
        }
        return true;
    }
    if p >= 310 {
        proof {
            lemma_digits_at_least(d@);
            lemma_long_is_above(v, len as nat, x);
        }
        return false;
    }
    let td = chars_of("179769313486231580793728971405303415079934132710037826936173778980444968292764750946649017977587207096330286416692887910946555547851940402630657488671505820681908902000708383676273854845817711531764475730270069855571366959622842914819860834936475292719074168444365510704342711559699508093042880177904174497792");
    proof {
        reveal_strlit("179769313486231580793728971405303415079934132710037826936173778980444968292764750946649017977587207096330286416692887910946555547851940402630657488671505820681908902000708383676273854845817711531764475730270069855571366959622842914819860834936475292719074168444365510704342711559699508093042880177904174497792");
        assert(td@ == overflow_digits());
        assert(td@.len() == 309);
        lemma_edge_compare(d@, x);
    }
    let n: usize = if len >= 309 { len } else { 309 };
    let ghost pa = d@ + zeros((n - len) as nat);
    let ghost pb = overflow_digits() + zeros((n - 309) as nat);
    assert(n == edge_len(len as nat));
    assert(all_digits(pa)) by {
        assert forall|j: int| 0 <= j < pa.len() implies is_digit(#[trigger] pa[j]) by {
            if j < len {
                assert(pa[j] == d@[j]);
            }
        }
    }
    assert(all_digits(pb)) by {
        assert forall|j: int| 0 <= j < pb.len() implies is_digit(#[trigger] pb[j]) by {
            if j < 309 {
                assert(pb[j] == td@[j]);
            }
        }
    }
    let mut j: usize = 0;
    while j < n
        invariant
            n == edge_len(len as nat),
            len == d@.len(),
            td@ == overflow_digits(),
            td@.len() == 309,
            pa == d@ + zeros((n - len) as nat),
            pb == overflow_digits() + zeros((n - 309) as nat),
            all_digits(pa),
            all_digits(pb),
            below_overflow(v, x) == (digits_value(pa) < digits_value(pb)),
            v == digits_value(d@),
            x == (if neg { -(e as int) } else { e as int }) - frac,
            j <= n,
            forall|i: int| 0 <= i < j ==> #[trigger] pa[i] == pb[i],
        decreases n - j,
    {
        let ca = if j < len { d[j] } else { '0' };
        let cb = if j < 309 { td[j] } else { '0' };
        assert(pa[j as int] == ca);
        assert(pb[j as int] == cb);
        if ca < cb {
            proof {
                lemma_digits_lex(pa, pb, j as int);
            }
            return true;
        }
        if cb < ca {
            proof {
                assert forall|i: int| 0 <= i < j implies #[trigger] pb[i] == pa[i] by {
                    assert(pa[i] == pb[i]);
                }
                lemma_digits_lex(pb, pa, j as int);
            }
            return false;
        }
        j = j + 1;
    }
    assert(pa =~= pb);
    false
}

/// Whether `f64::from_str` reads the literal `s` as a number of magnitude below `1e-12`.
pub fn negligible_literal(s: &Vec<char>) -> (r: bool)
    requires
        is_float_literal(s@),
    ensures
        r == is_negligible_literal(s@),
{
    let l = lower_vec(s);
    let start: usize = if l.len() > 0 && (l[0] == '+' || l[0] == '-') { 1 } else { 0 };
    let b = sub_vec(&l, start, l.len());
    proof {
        if l@.len() > 0 && (l@[0] == '+' || l@[0] == '-') {
            assert(b@ == l@.drop_first());
        } else {
            assert(b@ == l@);
        }
        assert(b@ == unsigned_part(s@));
    }
    if eq_lit(&b, "inf") || eq_lit(&b, "infinity") || eq_lit(&b, "nan") {
        return false;
    }
    assert(is_number(b@));
    let mut k: usize = 0;
    while k < b.len() && b[k] != 'e'
        invariant
            k <= b@.len(),
            forall|j: int| 0 <= j < k ==> #[trigger] b@[j] != 'e',
        decreases b@.len() - k,
    {
        k = k + 1;
    }
    proof {
        lemma_e_index(b@, k as int);
        if k == b@.len() {
            lemma_is_number_no_e(b@);
            assert(b@.take(k as int) =~= b@);
        } else {
            lemma_is_number_at(b@, k as int);
        }
    }
    let (digits, frac) = mantissa_digits(&b, k);
    let (neg, e) = if k < b.len() { exponent_of(&b, k + 1) } else { (false, 0) };
    let ghost ev: int = if k < b@.len() { exponent_value(b@.skip(k + 1)) } else { 0 };
    assert((if neg { -(e as int) } else { e as int }) == ev);
    let mut z: usize = 0;
    while z < digits.len() && digits[z] == '0'
        invariant
            z <= digits@.len(),
            forall|j: int| 0 <= j < z ==> #[trigger] digits@[j] == '0',
        decreases digits@.len() - z,
    {
        z = z + 1;
    }
    let d = sub_vec(&digits, z, digits.len());
    proof {
        assert(d@ =~= digits@.skip(z as int));
        lemma_leading_zeros(digits@, z as int);
        assert(all_digits(d@)) by {
            assert forall|j: int| 0 <= j < d@.len() implies is_digit(#[trigger] d@[j]) by {
                assert(d@[j] == digits@[z + j]);
            }
        }
    }
    assert(d@.len() == 0 || d@[0] != '0') by {
        if d@.len() > 0 {
            assert(d@[0] == digits@[z as int]);
        }
    }
    assert(is_negligible_literal(s@) == at_most_small(digits_value(d@), ev - frac));
    value_at_most_small(&d, neg, e, frac)
}

/// Whether the digits `d` (no leading zero), scaled by `10^(±e - frac)`, lie at or below
/// the midpoint below `1e-12`.
fn value_at_most_small(d: &Vec<char>, neg: bool, e: u32, frac: usize) -> (r: bool)
    requires
        all_digits(d@),
        d@.len() == 0 || d@[0] != '0',
    ensures
        r == at_most_small(digits_value(d@), (if neg { -(e as int) } else { e as int }) - frac),
{
    let ghost ev: int = if neg { -(e as int) } else { e as int };
    let ghost v = digits_value(d@);
    let ghost x: int = ev - frac;
    let len = d.len();
    if len == 0 {
        proof {
            assert(d@ =~= Seq::<char>::empty());
            assert(v == 0);
            let y = x + 93;
            if y >= 0 {
                assert(v * pow10(y as nat) == 0) by (nonlinear_arith)
                    requires
                        v == 0,
                ;
            }
        }
        return true;
    }
    let xe: i128 = if neg { -(e as i128) } else { e as i128 };
    let xx: i128 = xe - frac as i128;
    let p: i128 = len as i128 + xx + 93;
    assert(xx == x);
    if p <= 80 {
        proof {
            lemma_digits_below(d@);
            lemma_short_is_small(v, len as nat, x);
        }
        return true;
    }
    if p >= 82 {
        proof {
            lemma_digits_at_least(d@);
            lemma_long_is_not_small(v, len as nat, x);
        }
        return false;
    }
    let td = chars_of("999999999999999878912451760966104274551587149932885267844540067017078399658203125");
    proof {
        reveal_strlit("999999999999999878912451760966104274551587149932885267844540067017078399658203125");
        assert(td@ == small_digits());
        assert(td@.len() == 81);
        lemma_small_edge_compare(d@, x);
    }
    let n: usize = if len >= 81 { len } else { 81 };
    let ghost pa = d@ + zeros((n - len) as nat);
    let ghost pb = small_digits() + zeros((n - 81) as nat);
    assert(n == small_edge_len(len as nat));
    assert(all_digits(pa)) by {
        assert forall|j: int| 0 <= j < pa.len() implies is_digit(#[trigger] pa[j]) by {
            if j < len {
                assert(pa[j] == d@[j]);
            }
        }
    }
    assert(all_digits(pb)) by {
        assert forall|j: int| 0 <= j < pb.len() implies is_digit(#[trigger] pb[j]) by {
            if j < 81 {
                assert(pb[j] == td@[j]);
            }
        }
    }
    let mut j: usize = 0;
    while j < n
        invariant
            n == small_edge_len(len as nat),
            len == d@.len(),
            td@ == small_digits(),
            td@.len() == 81,
            pa == d@ + zeros((n - len) as nat),
            pb == small_digits() + zeros((n - 81) as nat),
            all_digits(pa),
            all_digits(pb),
            at_most_small(v, x) == (digits_value(pa) <= digits_value(pb)),
            v == digits_value(d@),
            x == (if neg { -(e as int) } else { e as int }) - frac,
            j <= n,
            forall|i: int| 0 <= i < j ==> #[trigger] pa[i] == pb[i],
        decreases n - j,
    {
        let ca = if j < len { d[j] } else { '0' };
        let cb = if j < 81 { td[j] } else { '0' };
        assert(pa[j as int] == ca);
        assert(pb[j as int] == cb);
        if ca < cb {
            proof {
                lemma_digits_lex(pa, pb, j as int);
            }
            return true;
        }
        if cb < ca {
            proof {
                assert forall|i: int| 0 <= i < j implies #[trigger] pb[i] == pa[i] by {
                    assert(pa[i] == pb[i]);
                }
                lemma_digits_lex(pb, pa, j as int);
            }
            return false;
        }
        j = j + 1;
    }
    assert(pa =~= pb);
    true
}

} // verus!
