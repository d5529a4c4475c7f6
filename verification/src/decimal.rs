//! Decimal text: unsigned bytes, and the syntax of floating-point literals.

use vstd::prelude::*;

use crate::text::{ascii_lower, eq_lit, lower_vec};

verus! {

pub open spec fn is_digit(c: char) -> bool {
    '0' <= c && c <= '9'
}

pub open spec fn digit_val(c: char) -> nat {
    (c as u32 - '0' as u32) as nat
}

pub open spec fn all_digits(s: Seq<char>) -> bool {
    forall|i: int| 0 <= i < s.len() ==> is_digit(#[trigger] s[i])
}

/// The number written by the decimal digits `s`.
pub open spec fn digits_value(s: Seq<char>) -> nat
    decreases s.len(),
{
    if s.len() == 0 {
        0
    } else {
        digits_value(s.drop_last()) * 10 + digit_val(s.last())
    }
}

/// What `u8::from_str` gives: an optional `+`, then at least one decimal digit, for a
/// value of at most 255.
pub open spec fn spec_parse_u8(s: Seq<char>) -> Option<u8> {
    let d = if s.len() > 0 && s[0] == '+' { s.drop_first() } else { s };
    if d.len() > 0 && all_digits(d) && digits_value(d) <= 255 {
        Some(digits_value(d) as u8)
    } else {
        None
    }
}

pub proof fn lemma_digits_value_prefix(s: Seq<char>, i: int)
    requires
        0 <= i <= s.len(),
        all_digits(s),
    ensures
        digits_value(s.take(i)) <= digits_value(s),
    decreases s.len() - i,
{
    if i < s.len() {
        lemma_digits_value_prefix(s, i + 1);
        assert(s.take(i + 1).drop_last() == s.take(i));
    } else {
        assert(s.take(i) == s);
    }
}

/// The byte written by `s`, as `u8::from_str` reads it.
pub fn parse_u8(s: &Vec<char>) -> (r: Option<u8>)
    ensures
        r == spec_parse_u8(s@),
{
    let ghost d = if s@.len() > 0 && s@[0] == '+' { s@.drop_first() } else { s@ };
    let start: usize = if s.len() > 0 && s[0] == '+' { 1 } else { 0 };
    assert(d == s@.skip(start as int));
    if start == s.len() {
        return None;
    }
    let mut v: u32 = 0;
    let mut i = start;
    while i < s.len()
        invariant
            start <= i <= s@.len(),
            d == s@.skip(start as int),
            d == (if s@.len() > 0 && s@[0] == '+' { s@.drop_first() } else { s@ }),
            v as nat == digits_value(d.take(i - start)),
            v <= 255,
            all_digits(d.take(i - start)),
        decreases s@.len() - i,
    {
        let c = s[i];
        assert(d[i - start] == c);
        if !('0' <= c && c <= '9') {
            proof {
                assert(!is_digit(d[i - start]));
                assert(!all_digits(d));
                assert(spec_parse_u8(s@) is None);
            }
            return None;
        }
        let ghost before = d.take(i - start);
        assert(d.take(i - start + 1).drop_last() == before);
        assert(d.take(i - start + 1).last() == c);
        v = v * 10 + ((c as u32) - ('0' as u32));
        assert(all_digits(d.take(i - start + 1))) by {
            assert forall|j: int| 0 <= j < i - start + 1 implies is_digit(#[trigger] d.take(i - start + 1)[j]) by {
                if j < i - start {
                    assert(d.take(i - start + 1)[j] == before[j]);
                }
            }
        }
        i = i + 1;
        if v > 255 {
            proof {
                let k = (i - start) as int;
                if all_digits(d) {
                    lemma_digits_value_prefix(d, k);
                }
            }
            return None;
        }
    }
    proof {
        assert(d.take(i - start) == d);
    }
    Some(v as u8)
}

/// Syntax of the mantissa: digits and at most one point, with at least one digit.
pub open spec fn is_mantissa(m: Seq<char>) -> bool {
    &&& forall|i: int| 0 <= i < m.len() ==> is_digit(#[trigger] m[i]) || m[i] == '.'
    &&& forall|i: int, j: int| 0 <= i < j < m.len() ==> !(#[trigger] m[i] == '.' && #[trigger] m[j] == '.')
    &&& exists|i: int| 0 <= i < m.len() && is_digit(#[trigger] m[i])
}

/// Syntax of what follows the `e`: an optional sign, then at least one digit.
pub open spec fn is_exponent(t: Seq<char>) -> bool {
    let d = if t.len() > 0 && (t[0] == '+' || t[0] == '-') { t.drop_first() } else { t };
    d.len() > 0 && all_digits(d)
}

/// Syntax of an unsigned finite-form number (lower-cased).
pub open spec fn is_number(b: Seq<char>) -> bool {
    ||| (forall|i: int| 0 <= i < b.len() ==> #[trigger] b[i] != 'e') && is_mantissa(b)
    ||| exists|k: int|
        0 <= k < b.len() && #[trigger] b[k] == 'e' && (forall|j: int| 0 <= j < k ==> b[j] != 'e')
            && is_mantissa(b.take(k)) && is_exponent(b.skip(k + 1))
}

/// The literal without its sign, lower-cased.
pub open spec fn unsigned_part(s: Seq<char>) -> Seq<char> {
    let l = ascii_lower(s);
    if l.len() > 0 && (l[0] == '+' || l[0] == '-') { l.drop_first() } else { l }
}

/// The strings that `f64::from_str` accepts, as its documentation gives them: an
/// optional sign, then `inf`, `infinity`, `nan` or a number with an optional exponent,
/// letters compared without regard to ASCII case.
pub open spec fn is_float_literal(s: Seq<char>) -> bool {
    let b = unsigned_part(s);
    b == "inf"@ || b == "infinity"@ || b == "nan"@ || is_number(b)
}

fn check_mantissa(b: &Vec<char>, lo: usize, hi: usize) -> (r: bool)
    requires
        lo <= hi <= b@.len(),
    ensures
        r == is_mantissa(b@.subrange(lo as int, hi as int)),
{
    let ghost m = b@.subrange(lo as int, hi as int);
    let mut dots: usize = 0;
    let ghost mut dot_pos: int = 0;
    let mut digits = false;
    let mut i = lo;
    while i < hi
        invariant
            lo <= i <= hi <= b@.len(),
            m == b@.subrange(lo as int, hi as int),
            forall|j: int| 0 <= j < i - lo ==> is_digit(#[trigger] m[j]) || m[j] == '.',
            dots <= 1,
            dots == 0 ==> forall|j: int| 0 <= j < i - lo ==> #[trigger] m[j] != '.',
            dots == 1 ==> 0 <= dot_pos < i - lo && m[dot_pos] == '.' && forall|j: int| 0 <= j < i - lo && j != dot_pos ==> #[trigger] m[j] != '.',
            digits <==> exists|j: int| 0 <= j < i - lo && is_digit(#[trigger] m[j]),
        decreases hi - i,
    {
        let c = b[i];
        assert(m[i - lo] == c);
        if c == '.' {
            if dots == 1 {
                proof {
                    assert(m[dot_pos] == '.' && m[i - lo] == '.');
                }
                return false;
            }
            dots = 1;
            proof { dot_pos = i - lo; }
        } else if '0' <= c && c <= '9' {
            digits = true;
        } else {
            return false;
        }
        i = i + 1;
    }
    digits
}

/// `v@.subrange(lo, hi)` as a vector.
pub fn sub_vec(v: &Vec<char>, lo: usize, hi: usize) -> (r: Vec<char>)
    requires
        lo <= hi <= v@.len(),
    ensures
        r@ == v@.subrange(lo as int, hi as int),
{
    let mut r: Vec<char> = Vec::new();
    let mut i = lo;
    while i < hi
        invariant
            lo <= i <= hi <= v@.len(),
            r@ == v@.subrange(lo as int, i as int),
        decreases hi - i,
    {
        r.push(v[i]);
        assert(v@.subrange(lo as int, i + 1) == v@.subrange(lo as int, i as int).push(v@[i as int]));
        i = i + 1;
    }
    r
}

fn check_exponent(b: &Vec<char>, lo: usize) -> (r: bool)
    requires
        lo <= b@.len(),
    ensures
        r == is_exponent(b@.skip(lo as int)),
{
    let ghost t = b@.skip(lo as int);
    let start = if lo < b.len() && (b[lo] == '+' || b[lo] == '-') { lo + 1 } else { lo };
    let ghost d = if t.len() > 0 && (t[0] == '+' || t[0] == '-') { t.drop_first() } else { t };
    assert(d == b@.skip(start as int));
    if start == b.len() {
        return false;
    }
    let mut i = start;
    while i < b.len()
        invariant
            start <= i <= b@.len(),
            d == b@.skip(start as int),
            t == b@.skip(lo as int),
            d == (if t.len() > 0 && (t[0] == '+' || t[0] == '-') { t.drop_first() } else { t }),
            forall|j: int| 0 <= j < i - start ==> is_digit(#[trigger] d[j]),
        decreases b@.len() - i,
    {
        assert(d[i - start] == b@[i as int]);
        if !('0' <= b[i] && b[i] <= '9') {
            return false;
        }
        i = i + 1;
    }
    true
}

/// Whether `s` is a literal that `f64::from_str` accepts.
pub fn float_literal_ok(s: &Vec<char>) -> (r: bool)
    ensures
        r == is_float_literal(s@),
{
    let l = lower_vec(s);
    let start: usize = if l.len() > 0 && (l[0] == '+' || l[0] == '-') { 1 } else { 0 };
    let b = sub_vec(&l, start, l.len());
    proof {
        if l@.len() > 0 && (l@[0] == '+' || l@[0] == '-') {
            assert(b@ == l@.drop_first());
        } else {
            assert(b@ == l@);
        }
        assert(b@ == unsigned_part(s@));
    }
    if eq_lit(&b, "inf") || eq_lit(&b, "infinity") || eq_lit(&b, "nan") {
        return true;
    }
    let mut k: usize = 0;
    while k < b.len() && b[k] != 'e'
        invariant
            k <= b@.len(),
            forall|j: int| 0 <= j < k ==> #[trigger] b@[j] != 'e',
        decreases b@.len() - k,
    {
        k = k + 1;
    }
    if k == b.len() {
        let r = check_mantissa(&b, 0, b.len());
        proof {
            assert(b@.subrange(0, b@.len() as int) == b@);
            lemma_is_number_no_e(b@);
        }
        r
    } else {
        let r1 = check_mantissa(&b, 0, k);
        let r2 = check_exponent(&b, k + 1);
        proof {
            assert(b@.subrange(0, k as int) == b@.take(k as int));
            lemma_is_number_at(b@, k as int);
        }
        r1 && r2
    }
}

pub proof fn lemma_is_number_no_e(b: Seq<char>)
    requires
        forall|j: int| 0 <= j < b.len() ==> #[trigger] b[j] != 'e',
    ensures
        is_number(b) == is_mantissa(b),
{
    if exists|kk: int| 0 <= kk < b.len() && #[trigger] b[kk] == 'e' && (forall|j: int| 0 <= j < kk ==> b[j] != 'e')
        && is_mantissa(b.take(kk)) && is_exponent(b.skip(kk + 1)) {
        let kk = choose|kk: int| 0 <= kk < b.len() && #[trigger] b[kk] == 'e' && (forall|j: int| 0 <= j < kk ==> b[j] != 'e')
            && is_mantissa(b.take(kk)) && is_exponent(b.skip(kk + 1));
        assert(b[kk] != 'e');
    }
}

pub proof fn lemma_is_number_at(b: Seq<char>, k: int)
    requires
        0 <= k < b.len(),
        b[k] == 'e',
        forall|j: int| 0 <= j < k ==> #[trigger] b[j] != 'e',
    ensures
        is_number(b) == (is_mantissa(b.take(k)) && is_exponent(b.skip(k + 1))),
{
    if exists|kk: int| 0 <= kk < b.len() && #[trigger] b[kk] == 'e' && (forall|j: int| 0 <= j < kk ==> b[j] != 'e')
        && is_mantissa(b.take(kk)) && is_exponent(b.skip(kk + 1)) {
        let kk = choose|kk: int| 0 <= kk < b.len() && #[trigger] b[kk] == 'e' && (forall|j: int| 0 <= j < kk ==> b[j] != 'e')
            && is_mantissa(b.take(kk)) && is_exponent(b.skip(kk + 1));
        if kk < k {
            assert(b[kk] != 'e');
        } else if k < kk {
            assert(b[k] != 'e');
        }
    }
    if is_mantissa(b.take(k)) && is_exponent(b.skip(k + 1)) {
        assert(exists|kk: int| 0 <= kk < b.len() && #[trigger] b[kk] == 'e' && (forall|j: int| 0 <= j < kk ==> b[j] != 'e')
            && is_mantissa(b.take(kk)) && is_exponent(b.skip(kk + 1)));
    }
    assert(!(forall|i: int| 0 <= i < b.len() ==> #[trigger] b[i] != 'e'));
}

/// Whether `d` is a non-empty run of decimal digits whose value is at most `bound`.
pub open spec fn digits_within(d: Seq<char>, bound: int) -> bool {
    d.len() > 0 && all_digits(d) && digits_value(d) <= bound
}

/// The value of `s[lo..hi]` when it is a non-empty run of digits worth at most `bound`.
pub fn bounded_digits(s: &Vec<char>, lo: usize, hi: usize, bound: u64) -> (r: Option<u64>)
    requires
        lo <= hi <= s@.len(),
    ensures
        match r {
            Some(v) => digits_within(s@.subrange(lo as int, hi as int), bound as int)
                && v == digits_value(s@.subrange(lo as int, hi as int)),
            None => !digits_within(s@.subrange(lo as int, hi as int), bound as int),
        },
{
    let ghost d = s@.subrange(lo as int, hi as int);
    if lo == hi {
        return None;
    }
    let mut v: u128 = 0;
    let mut i = lo;
    while i < hi
        invariant
            lo <= i <= hi <= s@.len(),
            d == s@.subrange(lo as int, hi as int),
            v as nat == digits_value(d.take(i - lo)),
            v <= bound,
            all_digits(d.take(i - lo)),
        decreases hi - i,
    {
        let c = s[i];
        assert(d[i - lo] == c);
        if !('0' <= c && c <= '9') {
            proof {
                assert(!is_digit(d[i - lo]));
            }
            return None;
        }
        let ghost before = d.take(i - lo);
        assert(d.take(i - lo + 1).drop_last() == before);
        assert(d.take(i - lo + 1).last() == c);
        v = v * 10 + ((c as u32) - ('0' as u32)) as u128;
        assert(all_digits(d.take(i - lo + 1))) by {
            assert forall|j: int| 0 <= j < i - lo + 1 implies is_digit(#[trigger] d.take(i - lo + 1)[j]) by {
                if j < i - lo {
                    assert(d.take(i - lo + 1)[j] == before[j]);
                }
            }
        }
        i = i + 1;
        if v > bound as u128 {
            proof {
                if all_digits(d) {
                    lemma_digits_value_prefix(d, i - lo);
                }
            }
            return None;
        }
    }
    assert(d.take(i - lo) == d);
    Some(v as u64)
}

/// What `i32::from_str` gives: an optional sign, then at least one decimal digit, for a
/// value in the range of `i32`.
pub open spec fn spec_parse_i32(s: Seq<char>) -> Option<int> {
    if s.len() > 0 && s[0] == '-' {
        if digits_within(s.drop_first(), 2147483648) {
            Some(-(digits_value(s.drop_first()) as int))
        } else {
            None
        }
    } else {
        let d = if s.len() > 0 && s[0] == '+' { s.drop_first() } else { s };
        if digits_within(d, 2147483647) {
            Some(digits_value(d) as int)
        } else {
            None
        }
    }
}

/// The number written by `s`, as `i32::from_str` reads it.
pub fn parse_i32(s: &Vec<char>) -> (r: Option<i32>)
    ensures
        match r {
            Some(v) => spec_parse_i32(s@) == Some(v as int),
            None => spec_parse_i32(s@) is None,
        },
{
    let neg = s.len() > 0 && s[0] == '-';
    let start: usize = if s.len() > 0 && (s[0] == '-' || s[0] == '+') { 1 } else { 0 };
    assert(s@.subrange(start as int, s@.len() as int) == (if start == 1 { s@.drop_first() } else { s@ }));
    if neg {
        match bounded_digits(s, start, s.len(), 2147483648) {
            Some(v) => {
                let r: i64 = -(v as i64);
                Some(r as i32)
            },
            None => None,
        }
    } else {
        match bounded_digits(s, start, s.len(), 2147483647) {
            Some(v) => Some(v as i32),
            None => None,
        }
    }
}

/// What `usize::from_str` gives: an optional `+`, then at least one decimal digit, for a
/// value in the range of `usize`.
pub open spec fn spec_parse_usize(s: Seq<char>) -> Option<nat> {
    let d = if s.len() > 0 && s[0] == '+' { s.drop_first() } else { s };
    if digits_within(d, usize::MAX as int) {
        Some(digits_value(d))
    } else {
        None
    }
}

/// The number written by `s`, as `usize::from_str` reads it.
pub fn parse_usize(s: &Vec<char>) -> (r: Option<usize>)
    ensures
        match r {
            Some(v) => spec_parse_usize(s@) == Some(v as nat),
            None => spec_parse_usize(s@) is None,
        },
{
    let start: usize = if s.len() > 0 && s[0] == '+' { 1 } else { 0 };
    assert(s@.subrange(start as int, s@.len() as int) == (if start == 1 { s@.drop_first() } else { s@ }));
    match bounded_digits(s, start, s.len(), usize::MAX as u64) {
        Some(v) => Some(v as usize),
        None => None,
    }
}

} // verus!
