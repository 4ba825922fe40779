//! The backup schedule: a fixed interval, each wait lengthened or shortened by
//! up to a fraction of it.
use vstd::prelude::*;

use crate::ratio::{exponent_from, is_negative, mantissa_part, ratio_in_text, unsigned, Ratio};
use crate::span::{Span, SPAN_MAX_NANOS};
use crate::text::chars_of;

verus! {

/// The default interval in seconds: 3 hours.
pub const DEFAULT_INTERVAL: u64 = 10_800;

/// The default jitter, in hundredths of the interval.
pub const DEFAULT_JITTER: u64 = 10;

/// Why an interval and a jitter are not a schedule.
#[derive(Debug, Clone, Copy, PartialEq, Eq, Structural)]
pub enum ScheduleError {
    /// The interval is zero.
    ZeroInterval,
    /// The jitter is below zero or above one.
    JitterOutOfRange {
        /// Its numerator.
        num: i64,
        /// Its denominator.
        den: u64,
    },
}

/// A jittered interval.
#[derive(Debug, Clone, Copy, PartialEq, Eq, Structural)]
pub struct SchedulePolicy {
    interval: Span,
    jitter_num: u64,
    jitter_den: u64,
}

/// The whole nanoseconds of a fraction of an interval.
pub open spec fn deviation_of(interval: int, num: int, den: int) -> int {
    interval * num / den
}

impl SchedulePolicy {
    /// The interval without jitter.
    pub closed spec fn nominal(self) -> Span {
        self.interval
    }

    /// The numerator of the jitter.
    pub closed spec fn num(self) -> u64 {
        self.jitter_num
    }

    /// The denominator of the jitter.
    pub closed spec fn den(self) -> u64 {
        self.jitter_den
    }

    /// How far a wait can be from the interval, in nanoseconds.
    pub open spec fn deviation(self) -> int {
        deviation_of(self.nominal().nanos as int, self.num() as int, self.den() as int)
    }

    #[verifier::type_invariant]
    closed spec fn valid(self) -> bool {
        &&& 0 < self.interval.nanos <= SPAN_MAX_NANOS
        &&& self.jitter_num <= self.jitter_den
        &&& self.jitter_den > 0
    }

    /// Makes a schedule of an interval and a jitter between zero and one.
    pub fn new(interval: Span, jitter_num: i64, jitter_den: u64) -> (r: Result<
        Self,
        ScheduleError,
    >)
        requires
            interval.nanos <= SPAN_MAX_NANOS,
            jitter_den > 0,
        ensures
            match r {
                Ok(p) => {
                    &&& interval.nanos > 0
                    &&& 0 <= jitter_num <= jitter_den
                    &&& p.nominal() == interval
                    &&& p.num() == jitter_num
                    &&& p.den() == jitter_den
                },
                Err(ScheduleError::ZeroInterval) => interval.nanos == 0,
                Err(ScheduleError::JitterOutOfRange { num, den }) => {
                    &&& interval.nanos > 0
                    &&& !(0 <= jitter_num <= jitter_den)
                    &&& num == jitter_num
                    &&& den == jitter_den
                },
            },
    {
        if interval.is_zero() {
            return Err(ScheduleError::ZeroInterval);
        }
        if jitter_num < 0 || jitter_num as u64 > jitter_den {
            return Err(ScheduleError::JitterOutOfRange { num: jitter_num, den: jitter_den });
        }
        Ok(SchedulePolicy { interval, jitter_num: jitter_num as u64, jitter_den })
    }

    /// The default schedule: every 3 hours, a tenth more or less.
    #[must_use]
    pub fn default_policy() -> (r: Self)
        ensures
            r.nominal().nanos == DEFAULT_INTERVAL * 1_000_000_000,
            r.num() == DEFAULT_JITTER,
            r.den() == 100,
    {
        SchedulePolicy {
            interval: Span::from_secs(DEFAULT_INTERVAL),
            jitter_num: DEFAULT_JITTER,
            jitter_den: 100,
        }
    }

    /// The interval without jitter.
    #[must_use]
    pub fn interval(&self) -> (r: Span)
        ensures
            r == self.nominal(),
    {
        self.interval
    }

    /// The jitter, as numerator and denominator.
    #[must_use]
    pub fn jitter(&self) -> (r: (u64, u64))
        ensures
            r.0 == self.num(),
            r.1 == self.den(),
            r.0 <= r.1,
            r.1 > 0,
    {
        proof {
            use_type_invariant(self);
        }
        (self.jitter_num, self.jitter_den)
    }

    /// How far a wait can be from the interval, in nanoseconds: never further
    /// than the interval is long.
    #[must_use]
    pub fn max_deviation(&self) -> (r: u128)
        ensures
            r == self.deviation(),
            r <= self.nominal().nanos,
            r <= SPAN_MAX_NANOS,
    {
        proof {
            use_type_invariant(self);
        }
        let den: u128 = self.jitter_den as u128;
        let num: u128 = self.jitter_num as u128;
        let whole: u128 = self.interval.nanos / den;
        let rest: u128 = self.interval.nanos % den;
        proof {
            lemma_split(self.interval.nanos as int, num as int, den as int);
        }
        whole * num + rest * num / den
    }

    /// The next wait, for a number drawn from zero to twice the deviation: the
    /// interval less the deviation, plus what was drawn.
    #[must_use]
    pub fn next_delay(&self, drawn: u128) -> (r: Span)
        requires
            drawn <= 2 * self.deviation(),
        ensures
            r.nanos == self.nominal().nanos - self.deviation() + drawn,
            self.nominal().nanos - self.deviation() <= r.nanos <= self.nominal().nanos
                + self.deviation(),
    {
        let deviation: u128 = self.max_deviation();
        proof {
            use_type_invariant(self);
        }
        Span { nanos: self.interval.nanos - deviation + drawn }
    }
}

proof fn lemma_split(interval: int, num: int, den: int)
    requires
        0 <= interval <= SPAN_MAX_NANOS,
        0 <= num <= den <= u64::MAX,
        den > 0,
    ensures
        ({
            let q = interval / den;
            let r = interval % den;
            &&& 0 <= q * num <= SPAN_MAX_NANOS
            &&& 0 <= r * num <= u128::MAX
            &&& q * num + r * num / den == deviation_of(interval, num, den)
            &&& 0 <= deviation_of(interval, num, den) <= interval
        }),
{
    let q = interval / den;
    let r = interval % den;
    assert(interval == q * den + r && 0 <= r < den && 0 <= q) by (nonlinear_arith)
        requires
            0 <= interval,
            den > 0,
            q == interval / den,
            r == interval % den,
    ;
    assert(0 <= q * num <= q * den) by (nonlinear_arith)
        requires
            0 <= q,
            0 <= num <= den,
    ;
    assert(0 <= r * num <= 0xffff_ffff_ffff_ffff * 0xffff_ffff_ffff_ffff) by (nonlinear_arith)
        requires
            0 <= r <= 0xffff_ffff_ffff_ffff,
            0 <= num <= 0xffff_ffff_ffff_ffff,
    ;
    assert(interval * num == (q * num) * den + r * num) by (nonlinear_arith)
        requires
            interval == q * den + r,
    ;
    let a = q * num;
    let b = r * num;
    assert((a * den + b) / den == a + b / den) by (nonlinear_arith)
        requires
            den > 0,
    ;
    assert(0 <= interval * num <= interval * den) by (nonlinear_arith)
        requires
            0 <= interval,
            0 <= num <= den,
    ;
    let p = interval * num;
    assert(0 <= p / den <= interval) by (nonlinear_arith)
        requires
            0 <= p <= interval * den,
            den > 0,
    ;
}

/// A wait stays within the jitter's band around the interval, and without
/// jitter it is exactly the interval.
pub proof fn law_delay_stays_in_band(interval: int, num: int, den: int, drawn: int)
    requires
        0 <= interval <= SPAN_MAX_NANOS,
        0 <= num <= den <= u64::MAX,
        den > 0,
        0 <= drawn <= 2 * deviation_of(interval, num, den),
    ensures
        ({
            let delay = interval - deviation_of(interval, num, den) + drawn;
            &&& delay >= 0
            &&& interval * (den - num) <= delay * den <= interval * (den + num)
            &&& num == 0 ==> delay == interval
        }),
{
    lemma_split(interval, num, den);
    let d = deviation_of(interval, num, den);
    let p = interval * num;
    assert(d * den <= p) by (nonlinear_arith)
        requires
            d == p / den,
            den > 0,
    ;
    let delay = interval - d + drawn;
    assert((interval - d) * den == interval * den - d * den) by (nonlinear_arith);
    assert((interval + d) * den == interval * den + d * den) by (nonlinear_arith);
    assert((interval - d) * den <= delay * den <= (interval + d) * den) by (nonlinear_arith)
        requires
            interval - d <= delay <= interval + d,
            den > 0,
    ;
    assert(interval * (den - num) == interval * den - p) by (nonlinear_arith)
        requires
            p == interval * num,
    ;
    assert(interval * (den + num) == interval * den + p) by (nonlinear_arith)
        requires
            p == interval * num,
    ;
    if num == 0 {
        assert(p == 0) by (nonlinear_arith)
            requires
                p == interval * num,
                num == 0,
        ;
        assert(d == 0) by (nonlinear_arith)
            requires
                d == p / den,
                p == 0,
                den > 0,
        ;
    }
}

/// Whether a number in text is zero: none of its digits is another.
pub open spec fn is_zero_text(s: Seq<char>) -> bool {
    forall|i: int|
        #![trigger s[i]]
        0 <= i < s.len() ==> !('1' <= s[i] <= '9')
}

/// The jitter fraction that a text stands for, as numerator and denominator.
/// What is above every numerator, or no number, is far above one; what is below
/// zero stays below it.
pub open spec fn jitter_in_text(s: Seq<char>) -> Option<(int, int)> {
    match ratio_in_text(s) {
        None => None,
        Some(r) => if r.den == 0 || r.num > i64::MAX {
            Some((i64::MAX as int, 1))
        } else if !is_negative(s) || is_zero_text(mantissa_part(unsigned(s))) {
            Some((r.num as int, r.den as int))
        } else if r.num == 0 {
            Some((-1, r.den as int))
        } else {
            Some((-(r.num as int), r.den as int))
        },
    }
}

fn mantissa_is_zero(text: &str) -> (r: bool)
    ensures
        r == is_zero_text(mantissa_part(unsigned(text@))),
{
    let chars: Vec<char> = chars_of(text);
    let start: usize = if chars.len() > 0 && (chars[0] == '-' || chars[0] == '+') {
        1
    } else {
        0
    };
    let ghost body = unsigned(text@);
    let ghost m = mantissa_part(body);
    let mut i: usize = start;
    while i < chars.len() && chars[i] != 'e' && chars[i] != 'E'
        invariant
            start <= i <= chars@.len(),
            start <= 1,
            chars@ == text@,
            body == unsigned(text@),
            body == chars@.skip(start as int),
            m == mantissa_part(body),
            exponent_from(body, 0) == exponent_from(body, i - start),
            forall|k: int| #![trigger body[k]] 0 <= k < i - start ==> !('1' <= body[k] <= '9'),
        decreases chars@.len() - i,
    {
        let c: char = chars[i];
        proof {
            lemma_exponent_behind(body, i - start + 1);
            assert(body[i - start] == c);
        }
        if '1' <= c && c <= '9' {
            proof {
                assert(m[i - start] == c);
            }
            return false;
        }
        i = i + 1;
    }
    proof {
        assert forall|k: int| #![trigger m[k]] 0 <= k < m.len() implies !('1' <= m[k] <= '9') by {
            assert(m[k] == body[k]);
        }
    }
    true
}

proof fn lemma_exponent_behind(s: Seq<char>, from: int)
    requires
        from <= s.len(),
    ensures
        from <= exponent_from(s, from) <= s.len(),
    decreases s.len() - from,
{
    if from < s.len() {
        lemma_exponent_behind(s, from + 1);
    }
}

/// Reads a jitter fraction such as `0.1`, for [`SchedulePolicy::new`] to accept
/// or refuse. `None` for a text that is not a number.
#[must_use]
pub fn parse_jitter(text: &str) -> (r: Option<(i64, u64)>)
    ensures
        match r {
            Some((num, den)) => jitter_in_text(text@) == Some((num as int, den as int)) && den > 0,
            None => jitter_in_text(text@) is None,
        },
{
    match Ratio::parse_signed(text) {
        None => None,
        Some((negative, ratio)) => {
            if ratio.den == 0 || ratio.num > i64::MAX as u64 {
                Some((i64::MAX, 1))
            } else if !negative || mantissa_is_zero(text) {
                Some((ratio.num as i64, ratio.den))
            } else if ratio.num == 0 {
                Some((-1, ratio.den))
            } else {
                Some((-(ratio.num as i64), ratio.den))
            }
        },
    }
}

/// The deviation is the fraction of the interval, in whole nanoseconds: nothing
/// for no jitter, all of the interval for a jitter of one.
pub proof fn law_deviation_is_the_fraction(interval: int, num: int, den: int)
    requires
        0 <= interval,
        0 <= num <= den,
        den > 0,
    ensures
        deviation_of(interval, num, den) * den <= interval * num,
        interval * num < (deviation_of(interval, num, den) + 1) * den,
        num == 0 ==> deviation_of(interval, num, den) == 0,
        num == den ==> deviation_of(interval, num, den) == interval,
{
    let p = interval * num;
    let d = deviation_of(interval, num, den);
    vstd::arithmetic::div_mod::lemma_fundamental_div_mod(p, den);
    assert(0 <= p % den < den) by (nonlinear_arith)
        requires
            den > 0,
    ;
    assert(den * d == d * den) by (nonlinear_arith);
    assert((d + 1) * den == d * den + den) by (nonlinear_arith);
    if num == 0 {
        assert(d == 0) by (nonlinear_arith)
            requires
                d * den <= interval * num,
                interval * num < (d + 1) * den,
                num == 0,
                den > 0,
        ;
    }
    if num == den {
        assert(d == interval) by (nonlinear_arith)
            requires
                d * den <= interval * num,
                interval * num < (d + 1) * den,
                num == den,
                den > 0,
        ;
    }
}

/// A jitter reads as the fraction that its text stands for; behind a minus sign
/// it is below zero, unless it is zero. What is above every number or none is
/// above one, and what is no number in text is no jitter.
pub proof fn law_jitter_reads(s: Seq<char>)
    ensures
        match (ratio_in_text(s), jitter_in_text(s)) {
            (None, j) => j is None,
            (Some(_), None) => false,
            (Some(r), Some((n, d))) => {
                let below = is_negative(s) && !is_zero_text(mantissa_part(unsigned(s)));
                &&& d > 0
                &&& r.den == 0 || r.num > i64::MAX ==> n > d
                &&& r.den > 0 && r.num <= i64::MAX ==> d == r.den
                &&& r.den > 0 && r.num <= i64::MAX && !below ==> n == r.num
                &&& r.den > 0 && 0 < r.num <= i64::MAX && below ==> n == -r.num
                &&& r.den > 0 && r.num <= i64::MAX && below ==> n < 0
            },
        },
{
}

/// A number in text is zero just if it has no digit from `1` to `9`.
pub proof fn law_zero_text(s: Seq<char>)
    ensures
        is_zero_text(s) <==> forall|d: char|
            #![trigger s.contains(d)]
            '1' <= d <= '9' ==> !s.contains(d),
{
    if is_zero_text(s) {
        assert forall|d: char| #![trigger s.contains(d)] '1' <= d <= '9' implies !s.contains(d) by {
        }
    } else {
        let i = choose|i: int| 0 <= i < s.len() && '1' <= #[trigger] s[i] <= '9';
        assert(s.contains(s[i]));
    }
}

/// A schedule's waits deviate by its own jitter's part of its own interval, in
/// whole nanoseconds.
pub proof fn law_schedule_deviates_by_its_jitter(p: SchedulePolicy)
    requires
        p.num() <= p.den(),
        p.den() > 0,
    ensures
        p.deviation() * p.den() <= p.nominal().nanos * p.num(),
        p.nominal().nanos * p.num() < (p.deviation() + 1) * p.den(),
{
    law_deviation_is_the_fraction(p.nominal().nanos as int, p.num() as int, p.den() as int);
}

} // verus!
