//! Exact ratios of natural numbers, for thresholds and reported quotients.
use vstd::prelude::*;

use crate::text::{
    all_digits, ascii_lower, chars_of, decimal_value, digit_value, is_digit, lower, lower_char,
    pow10, text_is,
};

verus! {

/// The ratio `num / den`. A denominator of zero stands for a value above
/// every number, or with a numerator of zero for no number.
#[derive(Debug, Clone, Copy, PartialEq, Eq, Structural)]
pub struct Ratio {
    /// The numerator.
    pub num: u64,
    /// The denominator.
    pub den: u64,
}

impl Ratio {
    /// Makes a ratio of its two parts.
    #[must_use]
    pub fn new(num: u64, den: u64) -> (r: Self)
        ensures
            r.num == num,
            r.den == den,
    {
        Ratio { num, den }
    }

    /// Whether `part <= whole * self`.
    pub open spec fn covers(self, part: int, whole: int) -> bool {
        part * self.den <= whole * self.num
    }

    /// Whether `whole / part >= self`.
    pub open spec fn reached_by(self, whole: int, part: int) -> bool {
        whole * self.den >= part * self.num
    }

    /// Whether the ratio is a number that is at most one.
    pub open spec fn at_most_one(self) -> bool {
        self.num <= self.den && self.den > 0
    }

    /// Whether `part` is at most `whole` times this ratio.
    #[must_use]
    pub fn is_covered(&self, part: u64, whole: u64) -> (r: bool)
        ensures
            r == self.covers(part as int, whole as int),
    {
        proof {
            lemma_product_fits(part, self.den);
            lemma_product_fits(whole, self.num);
        }
        (part as u128) * (self.den as u128) <= (whole as u128) * (self.num as u128)
    }

    /// Whether `whole / part` is at least this ratio.
    #[must_use]
    pub fn is_reached(&self, whole: u64, part: u64) -> (r: bool)
        ensures
            r == self.reached_by(whole as int, part as int),
    {
        proof {
            lemma_product_fits(whole, self.den);
            lemma_product_fits(part, self.num);
        }
        (whole as u128) * (self.den as u128) >= (part as u128) * (self.num as u128)
    }
}

proof fn lemma_product_fits(a: u64, b: u64)
    ensures
        0 <= a * b <= u128::MAX,
{
    assert(0 <= a * b <= 0xffff_ffff_ffff_ffff * 0xffff_ffff_ffff_ffff) by (nonlinear_arith)
        requires
            0 <= a <= 0xffff_ffff_ffff_ffff,
            0 <= b <= 0xffff_ffff_ffff_ffff,
    ;
}

/// The most decimals that are kept of a number in text.
pub const MAX_DECIMALS: usize = 18;

/// The index of the first dot from `from` on, or the length.
pub open spec fn dot_from(s: Seq<char>, from: int) -> int
    decreases s.len() - from,
{
    if from >= s.len() {
        s.len() as int
    } else if s[from] == '.' {
        from
    } else {
        dot_from(s, from + 1)
    }
}

/// The digits in front of the dot.
pub open spec fn whole_part(s: Seq<char>) -> Seq<char> {
    s.take(dot_from(s, 0))
}

/// The digits behind the dot.
pub open spec fn fraction_part(s: Seq<char>) -> Seq<char> {
    if dot_from(s, 0) < s.len() {
        s.skip(dot_from(s, 0) + 1)
    } else {
        Seq::empty()
    }
}

/// Whether a text is made of digits with at most one dot among them, and is
/// not the dot alone.
pub open spec fn is_decimal(s: Seq<char>) -> bool {
    &&& all_digits(whole_part(s))
    &&& all_digits(fraction_part(s))
    &&& whole_part(s).len() + fraction_part(s).len() > 0
}

/// The index of the first `e` from `from` on, in either case, or the length.
pub open spec fn exponent_from(s: Seq<char>, from: int) -> int
    decreases s.len() - from,
{
    if from >= s.len() {
        s.len() as int
    } else if s[from] == 'e' || s[from] == 'E' {
        from
    } else {
        exponent_from(s, from + 1)
    }
}

/// What stands in front of the exponent.
pub open spec fn mantissa_part(s: Seq<char>) -> Seq<char> {
    s.take(exponent_from(s, 0))
}

/// What stands behind the `e`.
pub open spec fn exponent_part(s: Seq<char>) -> Seq<char> {
    if exponent_from(s, 0) < s.len() {
        s.skip(exponent_from(s, 0) + 1)
    } else {
        Seq::empty()
    }
}

/// Whether a text starts with a minus sign.
pub open spec fn is_negative(s: Seq<char>) -> bool {
    s.len() > 0 && s[0] == '-'
}

/// A text without its sign.
pub open spec fn unsigned(s: Seq<char>) -> Seq<char> {
    if s.len() > 0 && (s[0] == '-' || s[0] == '+') {
        s.skip(1)
    } else {
        s
    }
}

/// Whether a text is a whole number, with a sign or without.
pub open spec fn is_exponent(s: Seq<char>) -> bool {
    unsigned(s).len() > 0 && all_digits(unsigned(s))
}

/// The whole number that a text stands for.
pub open spec fn exponent_value(s: Seq<char>) -> int {
    if is_negative(s) {
        -(decimal_value(unsigned(s)) as int)
    } else {
        decimal_value(unsigned(s)) as int
    }
}

/// The exponent of a number in text: none is zero.
pub open spec fn exponent_of(s: Seq<char>) -> int {
    if exponent_from(s, 0) < s.len() {
        exponent_value(exponent_part(s))
    } else {
        0
    }
}

/// The number that the first `m` of the given digits make, with zeros behind
/// them where there are fewer.
pub open spec fn leading(digits: Seq<char>, m: int) -> nat {
    if m <= 0 {
        0
    } else if m <= digits.len() {
        decimal_value(digits.take(m))
    } else {
        decimal_value(digits) * pow10((m - digits.len()) as nat)
    }
}

/// The most decimals, up to `k`, with which the number still fits.
pub open spec fn fitting_decimals(digits: Seq<char>, point: int, k: int) -> int
    decreases k,
{
    if k <= 0 || leading(digits, point + k) <= u64::MAX {
        k
    } else {
        fitting_decimals(digits, point, k - 1)
    }
}

/// How many decimals there are to keep behind the point.
pub open spec fn decimals_given(digits: Seq<char>, point: int) -> int {
    if digits.len() - point <= 0 {
        0
    } else if digits.len() - point >= MAX_DECIMALS {
        MAX_DECIMALS as int
    } else {
        digits.len() - point
    }
}

/// The ratio that digits stand for whose decimal point is behind the first
/// `point` of them: with all decimals, as far as there is room for them in 18
/// and in the numerator, and the others cut off. A number above all numerators
/// is above every number.
pub open spec fn ratio_of_digits(digits: Seq<char>, point: int) -> Ratio {
    if leading(digits, point) > u64::MAX {
        Ratio { num: 1, den: 0 }
    } else {
        let k = fitting_decimals(digits, point, decimals_given(digits, point));
        Ratio { num: leading(digits, point + k) as u64, den: pow10(k as nat) as u64 }
    }
}

/// The size of the number that a text stands for: digits with or without a dot
/// and an exponent, as in `0.95`, `2`, `.5`, `1.` and `1e-3`; `inf` and
/// `infinity` for the value above every number; `nan`, as zero over zero, for
/// none. Letters may be in either case, and a sign may stand in front.
pub open spec fn ratio_in_text(s: Seq<char>) -> Option<Ratio> {
    let body = unsigned(s);
    let mantissa = mantissa_part(body);
    if lower(body) == "inf"@ || lower(body) == "infinity"@ {
        Some(Ratio { num: 1, den: 0 })
    } else if lower(body) == "nan"@ {
        Some(Ratio { num: 0, den: 0 })
    } else if is_decimal(mantissa) && (exponent_from(body, 0) < body.len() ==> is_exponent(
        exponent_part(body),
    )) {
        Some(
            ratio_of_digits(
                whole_part(mantissa) + fraction_part(mantissa),
                whole_part(mantissa).len() + exponent_of(body),
            ),
        )
    } else {
        None
    }
}

proof fn lemma_pow10_bound(n: nat)
    requires
        n <= 18,
    ensures
        1 <= pow10(n) <= 1_000_000_000_000_000_000,
{
    reveal_with_fuel(pow10, 19);
}

fn power_of_ten(n: usize) -> (r: u64)
    requires
        n <= 18,
    ensures
        r == pow10(n as nat),
        r >= 1,
    decreases n,
{
    proof {
        lemma_pow10_bound(n as nat);
    }
    if n == 0 {
        1
    } else {
        10 * power_of_ten(n - 1)
    }
}

proof fn lemma_pow10_grows(n: nat)
    ensures
        pow10(n) >= 1,
        n >= 20 ==> pow10(n) > u64::MAX,
    decreases n,
{
    if n > 20 {
        lemma_pow10_grows((n - 1) as nat);
    } else if n == 20 {
        reveal_with_fuel(pow10, 21);
    } else if n > 0 {
        lemma_pow10_grows((n - 1) as nat);
    }
}

proof fn lemma_leading_step(digits: Seq<char>, m: int)
    requires
        0 <= m,
    ensures
        leading(digits, m + 1) == 10 * leading(digits, m) + if m < digits.len() {
            digit_value(digits[m])
        } else {
            0
        },
{
    if m < digits.len() {
        assert(digits.take(m + 1).drop_last() =~= digits.take(m));
        if m == 0 {
            assert(digits.take(0) =~= Seq::empty());
        }
    } else {
        assert(digits.take(digits.len() as int) =~= digits);
        let d = decimal_value(digits) as int;
        let p = pow10((m - digits.len()) as nat) as int;
        assert(pow10((m + 1 - digits.len()) as nat) == 10 * p);
        assert(d * (10 * p) == 10 * (d * p)) by (nonlinear_arith);
        if m == digits.len() {
            assert(p == 1);
            assert(d * p == d) by (nonlinear_arith)
                requires
                    p == 1,
            ;
        }
    }
}

proof fn lemma_leading_grows(digits: Seq<char>, m: int, n: int)
    requires
        m <= n,
    ensures
        leading(digits, m) <= leading(digits, n),
    decreases n - m,
{
    if m < n {
        lemma_leading_grows(digits, m, n - 1);
        if n - 1 >= 0 {
            lemma_leading_step(digits, n - 1);
        }
    }
}

proof fn lemma_leading_of_zero(digits: Seq<char>, m: int)
    requires
        decimal_value(digits) == 0,
    ensures
        leading(digits, m) == 0,
{
    if m <= digits.len() {
        lemma_leading_grows(digits, m, digits.len() as int);
        assert(digits.take(digits.len() as int) =~= digits);
        if digits.len() == 0 {
            assert(leading(digits, 0) == 0);
        }
    }
}

proof fn lemma_leading_overflows(digits: Seq<char>, m: int)
    requires
        decimal_value(digits) > 0,
        m >= digits.len() + 20,
    ensures
        leading(digits, m) > u64::MAX,
{
    let p = pow10((m - digits.len()) as nat) as int;
    let d = decimal_value(digits) as int;
    lemma_pow10_grows((m - digits.len()) as nat);
    assert(d * p >= p) by (nonlinear_arith)
        requires
            d >= 1,
            p >= 0,
    ;
}

/// An exponent far from every length of text says no more than one nearer by.
proof fn lemma_far_points(digits: Seq<char>, a: int, b: int)
    requires
        (a >= digits.len() + 20 && b >= digits.len() + 20) || (a <= -18 && b <= -18),
    ensures
        ratio_of_digits(digits, a) == ratio_of_digits(digits, b),
{
    if a >= digits.len() + 20 {
        if decimal_value(digits) == 0 {
            lemma_leading_of_zero(digits, a);
            lemma_leading_of_zero(digits, b);
        } else {
            lemma_leading_overflows(digits, a);
            lemma_leading_overflows(digits, b);
        }
    }
}

/// The number that the first `m` digits make, if it fits.
fn leading_number(digits: &Vec<char>, m: i128) -> (r: Option<u64>)
    requires
        all_digits(digits@),
    ensures
        match r {
            Some(v) => v == leading(digits@, m as int),
            None => leading(digits@, m as int) > u64::MAX,
        },
{
    let mut v: u64 = 0;
    let mut i: i128 = 0;
    if m <= 0 {
        return Some(0);
    }
    let n: usize = digits.len();
    while i < m
        invariant
            0 <= i <= m,
            n == digits@.len(),
            all_digits(digits@),
            v == leading(digits@, i as int),
        decreases m - i,
    {
        let digit: u64 = if i < n as i128 {
            let c: char = digits[i as usize];
            proof {
                assert(is_digit(digits@[i as int]));
            }
            (c as u32 - 48) as u64
        } else {
            0
        };
        proof {
            lemma_leading_step(digits@, i as int);
            lemma_leading_grows(digits@, i as int + 1, m as int);
            if i >= n && v == 0 {
                assert(digits@.take(n as int) =~= digits@);
                lemma_leading_grows(digits@, n as int, i as int);
                if n > 0 {
                    assert(leading(digits@, n as int) == decimal_value(digits@));
                }
                lemma_leading_of_zero(digits@, m as int);
            }
        }
        if i >= n as i128 && v == 0 {
            return Some(0);
        }
        if v > (u64::MAX - digit) / 10 {
            return None;
        }
        v = 10 * v + digit;
        i = i + 1;
    }
    Some(v)
}

fn ratio_at(digits: &Vec<char>, point: i128) -> (r: Ratio)
    requires
        all_digits(digits@),
        -0x1000_0000_0000_0000_0000_0000_0000 <= point <= 0x1000_0000_0000_0000_0000_0000_0000,
    ensures
        r == ratio_of_digits(digits@, point as int),
{
    if leading_number(digits, point).is_none() {
        return Ratio { num: 1, den: 0 };
    }
    let n: i128 = digits.len() as i128;
    let mut k: usize = if n - point <= 0 {
        0
    } else if n - point >= MAX_DECIMALS as i128 {
        MAX_DECIMALS
    } else {
        (n - point) as usize
    };
    let ghost given = decimals_given(digits@, point as int);
    while k > 0
        invariant
            all_digits(digits@),
            -0x1000_0000_0000_0000_0000_0000_0000 <= point
                <= 0x1000_0000_0000_0000_0000_0000_0000,
            0 <= k <= MAX_DECIMALS,
            given == decimals_given(digits@, point as int),
            leading(digits@, point as int) <= u64::MAX,
            fitting_decimals(digits@, point as int, given) == fitting_decimals(
                digits@,
                point as int,
                k as int,
            ),
        decreases k,
    {
        match leading_number(digits, point + k as i128) {
            Some(num) => {
                proof {
                    lemma_pow10_bound(k as nat);
                }
                return Ratio { num, den: power_of_ten(k) };
            },
            None => {},
        }
        k = k - 1;
    }
    match leading_number(digits, point) {
        Some(num) => {
            proof {
                assert(pow10(0) == 1);
            }
            Ratio { num, den: 1 }
        },
        None => Ratio { num: 1, den: 0 },
    }
}

/// The digits of a decimal, and how many stand in front of the dot.
fn split_decimal(chars: &Vec<char>) -> (r: Option<(Vec<char>, usize)>)
    ensures
        match r {
            Some((digits, whole)) => {
                &&& is_decimal(chars@)
                &&& digits@ == whole_part(chars@) + fraction_part(chars@)
                &&& all_digits(digits@)
                &&& whole == whole_part(chars@).len()
            },
            None => !is_decimal(chars@),
        },
{
    let ghost s = chars@;
    let mut dot: usize = 0;
    while dot < chars.len() && chars[dot] != '.'
        invariant
            dot <= chars@.len(),
            chars@ == s,
            dot_from(s, 0) == dot_from(s, dot as int),
        decreases chars@.len() - dot,
    {
        dot = dot + 1;
    }
    let mut digits: Vec<char> = Vec::new();
    let mut i: usize = 0;
    while i < chars.len()
        invariant
            i <= chars@.len(),
            chars@ == s,
            dot <= chars@.len(),
            dot == dot_from(s, 0),
            digits@ == if i <= dot {
                s.take(i as int)
            } else {
                s.take(dot as int) + s.subrange(dot + 1, i as int)
            },
            forall|k: int| 0 <= k < digits@.len() ==> is_digit(#[trigger] digits@[k]),
        decreases chars@.len() - i,
    {
        let c: char = chars[i];
        if i != dot {
            if !('0' <= c && c <= '9') {
                proof {
                    if i < dot {
                        assert(!is_digit(whole_part(s)[i as int]));
                    } else {
                        assert(!is_digit(fraction_part(s)[i - dot - 1]));
                    }
                }
                return None;
            }
            digits.push(c);
        }
        i = i + 1;
        proof {
            if i <= dot {
                assert(digits@ =~= s.take(i as int));
            } else {
                assert(digits@ =~= s.take(dot as int) + s.subrange(dot + 1, i as int));
            }
        }
    }
    proof {
        let whole = whole_part(s);
        let fraction = fraction_part(s);
        assert(digits@ =~= whole + fraction);
        assert forall|k: int| 0 <= k < whole.len() implies is_digit(#[trigger] whole[k]) by {
            assert(digits@[k] == whole[k]);
        }
        assert forall|k: int| 0 <= k < fraction.len() implies is_digit(#[trigger] fraction[k]) by {
            assert(digits@[whole.len() + k] == fraction[k]);
        }
    }
    if digits.len() == 0 {
        return None;
    }
    Some((digits, dot))
}

/// A value cut to the range of plus or minus the given bound.
pub open spec fn within(v: int, bound: int) -> int {
    if v > bound {
        bound
    } else if v < -bound {
        -bound
    } else {
        v
    }
}

/// The whole number in a text, as far as the bound goes.
fn near_exponent(chars: &Vec<char>) -> (r: Option<i128>)
    ensures
        match r {
            Some(v) => is_exponent(chars@) && v == within(
                exponent_value(chars@),
                0x1_0000_0000_0000_0000_0000_0000,
            ),
            None => !is_exponent(chars@),
        },
{
    let bound: i128 = 0x1_0000_0000_0000_0000_0000_0000;
    let negative: bool = chars.len() > 0 && chars[0] == '-';
    let start: usize = if chars.len() > 0 && (chars[0] == '-' || chars[0] == '+') {
        1
    } else {
        0
    };
    let ghost d = unsigned(chars@);
    if chars.len() == start {
        return None;
    }
    let mut v: i128 = 0;
    let mut i: usize = start;
    proof {
        assert(d.take(0) =~= Seq::empty());
    }
    while i < chars.len()
        invariant
            start <= i <= chars@.len(),
            start <= 1,
            bound == 0x1_0000_0000_0000_0000_0000_0000,
            d == unsigned(chars@),
            d == chars@.skip(start as int),
            0 <= v <= bound,
            v == within(decimal_value(d.take(i - start)) as int, bound as int),
            forall|k: int| 0 <= k < i - start ==> is_digit(#[trigger] d[k]),
        decreases chars@.len() - i,
    {
        let c: char = chars[i];
        let ghost k = i - start;
        if !('0' <= c && c <= '9') {
            proof {
                assert(!is_digit(d[k]));
            }
            return None;
        }
        proof {
            assert(d.take(k + 1).drop_last() =~= d.take(k));
            assert(d.take(k + 1).last() == c);
        }
        v = 10 * v + (c as u32 - 48) as i128;
        if v > bound {
            v = bound;
        }
        i = i + 1;
    }
    proof {
        assert(d.take(d.len() as int) =~= d);
    }
    if negative {
        Some(-v)
    } else {
        Some(v)
    }
}

fn part_of(chars: &Vec<char>, from: usize, to: usize) -> (r: Vec<char>)
    requires
        from <= to <= chars@.len(),
    ensures
        r@ == chars@.subrange(from as int, to as int),
{
    let mut out: Vec<char> = Vec::new();
    let mut i: usize = from;
    while i < to
        invariant
            from <= i <= to <= chars@.len(),
            out@ == chars@.subrange(from as int, i as int),
        decreases to - i,
    {
        out.push(chars[i]);
        i = i + 1;
        proof {
            assert(out@ =~= chars@.subrange(from as int, i as int));
        }
    }
    out
}

fn lowered(chars: &Vec<char>) -> (r: Vec<char>)
    ensures
        r@ == lower(chars@),
{
    let mut out: Vec<char> = Vec::new();
    let mut i: usize = 0;
    while i < chars.len()
        invariant
            i <= chars@.len(),
            out@.len() == i,
            forall|k: int| 0 <= k < i ==> #[trigger] out@[k] == ascii_lower(chars@[k]),
        decreases chars@.len() - i,
    {
        out.push(lower_char(chars[i]));
        i = i + 1;
    }
    proof {
        assert(out@ =~= lower(chars@));
    }
    out
}

impl Ratio {
    /// Reads the size of a number, and whether it stands with a minus sign.
    #[must_use]
    pub fn parse_signed(text: &str) -> (r: Option<(bool, Ratio)>)
        ensures
            match r {
                Some((negative, ratio)) => ratio_in_text(text@) == Some(ratio) && negative
                    == is_negative(text@),
                None => ratio_in_text(text@) is None,
            },
    {
        let chars: Vec<char> = chars_of(text);
        let negative: bool = chars.len() > 0 && chars[0] == '-';
        let start: usize = if chars.len() > 0 && (chars[0] == '-' || chars[0] == '+') {
            1
        } else {
            0
        };
        let body: Vec<char> = part_of(&chars, start, chars.len());
        proof {
            assert(body@ =~= unsigned(text@));
        }
        let word: Vec<char> = lowered(&body);
        if text_is(&word, "inf") || text_is(&word, "infinity") {
            return Some((negative, Ratio { num: 1, den: 0 }));
        }
        if text_is(&word, "nan") {
            return Some((negative, Ratio { num: 0, den: 0 }));
        }
        let ghost s = body@;
        let mut e: usize = 0;
        while e < body.len() && body[e] != 'e' && body[e] != 'E'
            invariant
                e <= body@.len(),
                body@ == s,
                exponent_from(s, 0) == exponent_from(s, e as int),
            decreases body@.len() - e,
        {
            e = e + 1;
        }
        let mantissa: Vec<char> = part_of(&body, 0, e);
        proof {
            assert(mantissa@ =~= mantissa_part(s));
        }
        let (digits, whole): (Vec<char>, usize) = match split_decimal(&mantissa) {
            Some(d) => d,
            None => {
                return None;
            },
        };
        let exponent: i128 = if e < body.len() {
            let tail: Vec<char> = part_of(&body, e + 1, body.len());
            proof {
                assert(tail@ =~= exponent_part(s));
            }
            match near_exponent(&tail) {
                Some(v) => v,
                None => {
                    return None;
                },
            }
        } else {
            0
        };
        let point: i128 = whole as i128 + exponent;
        proof {
            let given = whole + exponent_of(s);
            assert(digits@.len() == digits.len());
            assert(whole <= digits@.len());
            if given != point {
                lemma_far_points(digits@, given, point as int);
            }
        }
        Some((negative, ratio_at(&digits, point)))
    }

    /// Reads a number as a bound for what is never negative: one below zero
    /// counts as zero.
    #[must_use]
    pub fn parse(text: &str) -> (r: Option<Ratio>)
        ensures
            r == bound_in_text(text@),
    {
        match Ratio::parse_signed(text) {
            Some((negative, ratio)) => {
                if negative && !(ratio.num == 0 && ratio.den == 0) {
                    Some(Ratio { num: 0, den: 1 })
                } else {
                    Some(ratio)
                }
            },
            None => None,
        }
    }
}

/// The number that a text stands for as a bound for what is never negative: one
/// below zero counts as zero.
pub open spec fn bound_in_text(s: Seq<char>) -> Option<Ratio> {
    match ratio_in_text(s) {
        Some(ratio) => if is_negative(s) && ratio != (Ratio { num: 0, den: 0 }) {
            Some(Ratio { num: 0, den: 1 })
        } else {
            Some(ratio)
        },
        None => None,
    }
}

/// A part is covered by a ratio of a whole just if it is at most the whole times
/// the ratio, and the ratio is reached just if the whole is at least the part
/// times the ratio, both without rounding.
pub proof fn law_ratios_compare_exactly(r: Ratio, part: int, whole: int)
    ensures
        r.covers(part, whole) <==> whole * r.num - part * r.den >= 0,
        r.reached_by(whole, part) <==> whole * r.den - part * r.num >= 0,
        r.at_most_one() <==> r.den >= 1 && r.num <= r.den,
{
}

proof fn lemma_dot(s: Seq<char>, from: int, at: int)
    requires
        0 <= from <= at <= s.len(),
        forall|i: int| from <= i < at ==> #[trigger] s[i] != '.',
        at < s.len() ==> s[at] == '.',
    ensures
        dot_from(s, from) == at,
    decreases at - from,
{
    if from < at {
        lemma_dot(s, from + 1, at);
    }
}

proof fn lemma_exponent_at(s: Seq<char>, from: int, at: int)
    requires
        0 <= from <= at <= s.len(),
        forall|i: int| from <= i < at ==> #[trigger] s[i] != 'e' && s[i] != 'E',
        at < s.len() ==> s[at] == 'e' || s[at] == 'E',
    ensures
        exponent_from(s, from) == at,
    decreases at - from,
{
    if from < at {
        lemma_exponent_at(s, from + 1, at);
    }
}

/// A text that starts with a digit or a dot has no sign and is no word.
proof fn lemma_no_word(s: Seq<char>)
    requires
        s.len() > 0,
        is_digit(s[0]) || s[0] == '.',
    ensures
        unsigned(s) == s,
        !is_negative(s),
        lower(s) != "inf"@,
        lower(s) != "infinity"@,
        lower(s) != "nan"@,
{
    reveal_strlit("inf");
    reveal_strlit("infinity");
    reveal_strlit("nan");
    assert("inf"@[0] == 'i' && "infinity"@[0] == 'i' && "nan"@[0] == 'n');
    assert(lower(s)[0] == s[0]);
}

/// Digits with a dot among them read as what the digits make over the power of
/// ten with as many zeros as there are decimals; digits alone as a whole number.
pub proof fn law_decimals_read_exactly(w: Seq<char>, f: Seq<char>)
    requires
        all_digits(w),
        all_digits(f),
        w.len() + f.len() > 0,
        f.len() <= 18,
        decimal_value(w + f) <= u64::MAX,
    ensures
        ratio_in_text(w + seq!['.'] + f) == Some(
            Ratio { num: decimal_value(w + f) as u64, den: pow10(f.len()) as u64 },
        ),
        f.len() == 0 ==> ratio_in_text(w) == Some(Ratio { num: decimal_value(w) as u64, den: 1 }),
        pow10(f.len()) <= u64::MAX,
{
    let s = w + seq!['.'] + f;
    let digits = w + f;
    let n = s.len() as int;
    lemma_pow10_bound(f.len());
    if w.len() > 0 {
        assert(is_digit(w[0]));
        assert(s[0] == w[0]);
    }
    lemma_no_word(s);
    assert forall|i: int| 0 <= i < n implies #[trigger] s[i] != 'e' && s[i] != 'E' by {
        if i < w.len() {
            assert(is_digit(w[i]));
        } else if i > w.len() {
            assert(is_digit(f[i - w.len() - 1]));
        }
    }
    lemma_exponent_at(s, 0, n);
    assert(mantissa_part(s) =~= s);
    assert forall|i: int| 0 <= i < w.len() implies #[trigger] s[i] != '.' by {
        assert(is_digit(w[i]));
    }
    lemma_dot(s, 0, w.len() as int);
    assert(whole_part(s) =~= w);
    assert(fraction_part(s) =~= f);
    lemma_digits_ratio(w, f);
    if f.len() == 0 {
        assert(is_digit(w[0]));
        lemma_no_word(w);
        assert forall|i: int| 0 <= i < w.len() implies #[trigger] w[i] != 'e' && w[i] != 'E'
            && w[i] != '.' by {
            assert(is_digit(w[i]));
        }
        lemma_exponent_at(w, 0, w.len() as int);
        assert(mantissa_part(w) =~= w);
        lemma_dot(w, 0, w.len() as int);
        assert(whole_part(w) =~= w);
        assert(fraction_part(w) =~= f);
        assert(w + f =~= w);
        assert(pow10(0) == 1);
    }
}

proof fn lemma_digits_ratio(w: Seq<char>, f: Seq<char>)
    requires
        w.len() + f.len() > 0,
        f.len() <= 18,
        decimal_value(w + f) <= u64::MAX,
    ensures
        ratio_of_digits(w + f, w.len() as int) == (Ratio {
            num: decimal_value(w + f) as u64,
            den: pow10(f.len()) as u64,
        }),
{
    let digits = w + f;
    let total = digits.len() as int;
    assert(digits.take(total) =~= digits);
    assert(leading(digits, total) == decimal_value(digits));
    lemma_leading_grows(digits, w.len() as int, total);
    assert(decimals_given(digits, w.len() as int) == f.len());
    assert(fitting_decimals(digits, w.len() as int, f.len() as int) == f.len());
}

/// An exponent behind a whole number multiplies it by that power of ten, or
/// divides it by it.
pub proof fn law_exponents_shift(w: Seq<char>, k: nat)
    requires
        all_digits(w),
        w.len() > 0,
    ensures
        decimal_value(w) * pow10(k) <= u64::MAX ==> ratio_in_text(
            w + seq!['e'] + crate::text::decimal(k),
        ) == Some(Ratio { num: (decimal_value(w) * pow10(k)) as u64, den: 1 }),
        decimal_value(w) <= u64::MAX && k <= 18 && k <= w.len() ==> ratio_in_text(
            w + seq!['e', '-'] + crate::text::decimal(k),
        ) == Some(Ratio { num: decimal_value(w) as u64, den: pow10(k) as u64 }),
{
    let d = crate::text::decimal(k);
    crate::text::law_decimal_parses_back(k);
    assert(is_digit(w[0]));
    let empty = Seq::<char>::empty();
    let up = w + seq!['e'] + d;
    let down = w + seq!['e', '-'] + d;
    assert forall|i: int| 0 <= i < w.len() implies #[trigger] w[i] != '.' && w[i] != 'e' && w[i]
        != 'E' by {
        assert(is_digit(w[i]));
    }
    assert forall|i: int| 0 <= i < w.len() implies #[trigger] up[i] != 'e' && up[i] != 'E' by {
        assert(up[i] == w[i]);
    }
    assert forall|i: int| 0 <= i < w.len() implies #[trigger] down[i] != 'e' && down[i] != 'E' by {
        assert(down[i] == w[i]);
    }
    lemma_no_word(up);
    lemma_no_word(down);
    lemma_exponent_at(up, 0, w.len() as int);
    lemma_exponent_at(down, 0, w.len() as int);
    assert(mantissa_part(up) =~= w);
    assert(mantissa_part(down) =~= w);
    lemma_dot(w, 0, w.len() as int);
    assert(whole_part(w) =~= w);
    assert(fraction_part(w) =~= empty);
    assert(w + empty =~= w);
    assert(exponent_part(up) =~= d);
    assert(exponent_part(down) =~= seq!['-'] + d);
    assert(is_digit(d[0]));
    assert(unsigned(d) == d);
    assert(unsigned(seq!['-'] + d) =~= d);
    let n = w.len() as int;
    assert(w.take(n) =~= w);
    assert(pow10(0) == 1);
    let v = decimal_value(w) as int;
    assert(v * 1 == v);
    if v * pow10(k) <= u64::MAX {
        if k == 0 {
            assert(v * pow10(k) == v) by (nonlinear_arith)
                requires
                    pow10(k) == 1,
            ;
        }
        assert(leading(w, n + k) == v * pow10(k));
        assert(decimals_given(w, n + k) == 0);
    }
    if v <= u64::MAX && k <= 18 && k <= n {
        lemma_pow10_bound(k);
        lemma_leading_grows(w, n - k, n);
        assert(leading(w, n) == v);
        assert(decimals_given(w, n - k) == k);
        assert(fitting_decimals(w, n - k, k as int) == k);
    }
}

/// A sign does not change a number's size; as a bound, what stands with a minus
/// is zero unless it is no number.
pub proof fn law_signs(s: Seq<char>)
    requires
        s.len() > 0,
        is_digit(s[0]) || s[0] == '.',
    ensures
        ratio_in_text(seq!['+'] + s) == ratio_in_text(s),
        ratio_in_text(seq!['-'] + s) == ratio_in_text(s),
        bound_in_text(s) == ratio_in_text(s),
        bound_in_text(seq!['+'] + s) == ratio_in_text(s),
        ratio_in_text(s) matches Some(r) && r.den > 0 ==> bound_in_text(seq!['-'] + s) == Some(
            Ratio { num: 0, den: 1 },
        ),
        ratio_in_text(s) is None ==> bound_in_text(seq!['-'] + s) is None,
{
    lemma_no_word(s);
    assert((seq!['+'] + s).skip(1) =~= s);
    assert((seq!['-'] + s).skip(1) =~= s);
}

/// A text that holds anything but digits, a dot, a sign or an exponent's letter
/// is a number only if it is one of the three words.
pub proof fn law_other_text_is_no_number(s: Seq<char>, i: int)
    requires
        0 < i < s.len(),
        !is_digit(s[i]),
        s[i] != '.' && s[i] != 'e' && s[i] != 'E' && s[i] != '+' && s[i] != '-',
        lower(unsigned(s)) != "inf"@,
        lower(unsigned(s)) != "infinity"@,
        lower(unsigned(s)) != "nan"@,
    ensures
        ratio_in_text(s) is None,
        bound_in_text(s) is None,
{
    let body = unsigned(s);
    let k = if body.len() < s.len() {
        i - 1
    } else {
        i
    };
    assert(body[k] == s[i]);
    let e = exponent_from(body, 0);
    lemma_exponent_found(body, 0);
    if k < e {
        let m = mantissa_part(body);
        assert(m[k] == body[k]);
        lemma_dot_found(m, 0);
        let d = dot_from(m, 0);
        if is_decimal(m) {
            if k < d {
                assert(whole_part(m)[k] == m[k]);
                assert(is_digit(whole_part(m)[k]));
            } else {
                assert(k > d);
                assert(fraction_part(m)[k - d - 1] == m[k]);
                assert(is_digit(fraction_part(m)[k - d - 1]));
            }
        }
    } else {
        let x = exponent_part(body);
        assert(k > e);
        assert(x[k - e - 1] == body[k]);
        if is_exponent(x) {
            let u = unsigned(x);
            if u.len() < x.len() {
                assert(k - e - 1 > 0);
                assert(u[k - e - 2] == body[k]);
                assert(is_digit(u[k - e - 2]));
            } else {
                assert(is_digit(u[k - e - 1]));
            }
        }
    }
}

proof fn lemma_exponent_found(s: Seq<char>, from: int)
    requires
        0 <= from <= s.len(),
    ensures
        from <= exponent_from(s, from) <= s.len(),
        exponent_from(s, from) < s.len() ==> s[exponent_from(s, from)] == 'e' || s[exponent_from(
            s,
            from,
        )] == 'E',
    decreases s.len() - from,
{
    if from < s.len() && s[from] != 'e' && s[from] != 'E' {
        lemma_exponent_found(s, from + 1);
    }
}

proof fn lemma_dot_found(s: Seq<char>, from: int)
    requires
        0 <= from <= s.len(),
    ensures
        from <= dot_from(s, from) <= s.len(),
        dot_from(s, from) < s.len() ==> s[dot_from(s, from)] == '.',
    decreases s.len() - from,
{
    if from < s.len() && s[from] != '.' {
        lemma_dot_found(s, from + 1);
    }
}

/// One more digit in front of the point is ten times the number and the digit;
/// behind the last digit it is a zero.
pub proof fn law_digits_lead(digits: Seq<char>, m: int)
    requires
        0 <= m,
    ensures
        leading(digits, 0) == 0,
        m < digits.len() ==> leading(digits, m + 1) == 10 * leading(digits, m) + digit_value(
            digits[m],
        ),
        m >= digits.len() ==> leading(digits, m + 1) == 10 * leading(digits, m),
{
    lemma_leading_step(digits, m);
}

/// Digits read as what stands in front of the point and as many decimals as are
/// there, up to 18 and up to the largest numerator; what is too large in front
/// of the point is above every number.
pub proof fn law_as_many_decimals_as_fit(digits: Seq<char>, point: int)
    ensures
        leading(digits, point) > u64::MAX ==> ratio_of_digits(digits, point) == (Ratio {
            num: 1,
            den: 0,
        }),
        leading(digits, point) <= u64::MAX ==> exists|k: nat|
            {
                let r = ratio_of_digits(digits, point);
                &&& k <= 18
                &&& k <= digits.len() - point || k == 0
                &&& r.num == leading(digits, point + k)
                &&& r.den == #[trigger] pow10(k)
                &&& k == 18 || k >= digits.len() - point || leading(digits, point + k + 1)
                    > u64::MAX
            },
{
    if leading(digits, point) <= u64::MAX {
        let given = decimals_given(digits, point);
        lemma_fitting(digits, point, given);
        let k = fitting_decimals(digits, point, given) as nat;
        lemma_pow10_bound(k);
        let r = ratio_of_digits(digits, point);
        assert(r.num == leading(digits, point + k) && r.den == pow10(k));
    }
}

proof fn lemma_fitting(digits: Seq<char>, point: int, k: int)
    requires
        0 <= k,
        leading(digits, point) <= u64::MAX,
    ensures
        0 <= fitting_decimals(digits, point, k) <= k,
        leading(digits, point + fitting_decimals(digits, point, k)) <= u64::MAX,
        fitting_decimals(digits, point, k) < k ==> leading(
            digits,
            point + fitting_decimals(digits, point, k) + 1,
        ) > u64::MAX,
    decreases k,
{
    if k > 0 && leading(digits, point + k) > u64::MAX {
        lemma_fitting(digits, point, k - 1);
    }
}

/// The words for what is above every number and for no number read so in either
/// case and with a sign or none; as a bound, what is below every number is zero.
pub proof fn law_words_read(s: Seq<char>)
    ensures
        lower(unsigned(s)) == "inf"@ || lower(unsigned(s)) == "infinity"@ ==> {
            &&& ratio_in_text(s) == Some(Ratio { num: 1, den: 0 })
            &&& bound_in_text(s) == if s.len() > 0 && s[0] == '-' {
                Some(Ratio { num: 0, den: 1 })
            } else {
                Some(Ratio { num: 1, den: 0 })
            }
        },
        lower(unsigned(s)) == "nan"@ ==> {
            &&& ratio_in_text(s) == Some(Ratio { num: 0, den: 0 })
            &&& bound_in_text(s) == Some(Ratio { num: 0, den: 0 })
        },
        s.len() > 0 && (s[0] == '+' || s[0] == '-') ==> unsigned(s) == s.skip(1),
        s.len() > 0 && s[0] != '+' && s[0] != '-' ==> unsigned(s) == s,
{
    reveal_strlit("inf");
    reveal_strlit("infinity");
    reveal_strlit("nan");
    assert("inf"@.len() == 3 && "nan"@.len() == 3 && "infinity"@.len() == 8);
    assert("inf"@[0] == 'i' && "nan"@[0] == 'n');
}

/// However many digits stand on either side of a dot, and with an exponent or
/// none, a number reads as its digits with the point moved by the exponent.
pub proof fn law_points_move(w: Seq<char>, f: Seq<char>, e: char, k: Seq<char>)
    requires
        w.len() + f.len() > 0,
        k.len() > 0,
        e == 'e' || e == 'E',
        forall|i: int| 0 <= i < w.len() ==> '0' <= #[trigger] w[i] <= '9',
        forall|i: int| 0 <= i < f.len() ==> '0' <= #[trigger] f[i] <= '9',
        forall|i: int| 0 <= i < k.len() ==> '0' <= #[trigger] k[i] <= '9',
    ensures
        ({
            let m = w + seq!['.'] + f;
            let v = decimal_value(k) as int;
            &&& ratio_in_text(m) == Some(ratio_of_digits(w + f, w.len() as int))
            &&& ratio_in_text(m + seq![e] + k) == Some(ratio_of_digits(w + f, w.len() + v))
            &&& ratio_in_text(m + seq![e, '+'] + k) == Some(ratio_of_digits(w + f, w.len() + v))
            &&& ratio_in_text(m + seq![e, '-'] + k) == Some(ratio_of_digits(w + f, w.len() - v))
        }),
{
    let m = w + seq!['.'] + f;
    let v = decimal_value(k) as int;
    assert('0' <= k[0] <= '9');
    assert(all_digits(k));
    assert(unsigned(k) == k);
    lemma_mantissa_reads(w, f, Seq::empty());
    assert(m + Seq::<char>::empty() =~= m);
    lemma_mantissa_reads(w, f, seq![e] + k);
    lemma_mantissa_reads(w, f, seq![e, '+'] + k);
    lemma_mantissa_reads(w, f, seq![e, '-'] + k);
    assert(m + (seq![e] + k) =~= m + seq![e] + k);
    assert(m + (seq![e, '+'] + k) =~= m + seq![e, '+'] + k);
    assert(m + (seq![e, '-'] + k) =~= m + seq![e, '-'] + k);
    assert((seq![e] + k).skip(1) =~= k);
    assert((seq![e, '+'] + k).skip(1) =~= seq!['+'] + k);
    assert((seq![e, '-'] + k).skip(1) =~= seq!['-'] + k);
    assert((seq!['+'] + k).skip(1) =~= k);
    assert((seq!['-'] + k).skip(1) =~= k);
}

/// A decimal with nothing behind it, or with an exponent.
proof fn lemma_mantissa_reads(w: Seq<char>, f: Seq<char>, tail: Seq<char>)
    requires
        w.len() + f.len() > 0,
        forall|i: int| 0 <= i < w.len() ==> '0' <= #[trigger] w[i] <= '9',
        forall|i: int| 0 <= i < f.len() ==> '0' <= #[trigger] f[i] <= '9',
        tail.len() > 0 ==> (tail[0] == 'e' || tail[0] == 'E') && is_exponent(tail.skip(1)),
    ensures
        ratio_in_text(w + seq!['.'] + f + tail) == Some(
            ratio_of_digits(
                w + f,
                w.len() + if tail.len() > 0 {
                    exponent_value(tail.skip(1))
                } else {
                    0
                },
            ),
        ),
{
    let m = w + seq!['.'] + f;
    let s = m + tail;
    let n = m.len() as int;
    if w.len() > 0 {
        assert('0' <= w[0] <= '9');
        assert(s[0] == w[0]);
    } else {
        assert(s[0] == '.');
    }
    lemma_no_word(s);
    assert forall|i: int| 0 <= i < n implies #[trigger] s[i] != 'e' && s[i] != 'E' by {
        if i < w.len() {
            assert(s[i] == w[i]);
        } else if i > w.len() {
            assert(s[i] == f[i - w.len() - 1]);
        }
    }
    if tail.len() > 0 {
        assert(s[n] == tail[0]);
    }
    lemma_exponent_at(s, 0, n);
    assert(mantissa_part(s) =~= m);
    if tail.len() > 0 {
        assert(exponent_part(s) =~= tail.skip(1));
    }
    assert forall|i: int| 0 <= i < w.len() implies #[trigger] m[i] != '.' by {
        assert(m[i] == w[i]);
    }
    lemma_dot(m, 0, w.len() as int);
    assert(whole_part(m) =~= w);
    assert(fraction_part(m) =~= f);
}

} // verus!
