//! Sizes and intervals as an operator writes them.
use vstd::prelude::*;

use crate::text::{
    decimal, decimal_value, is_digit, is_white, law_decimal_digits, law_decimal_parses_back,
    law_digits_read, law_numbers_are_digits, law_numbers_read_back, law_trimming,
    law_trimming_keeps_tight_text, parse_number, parsed_number, trim_chars, trimmed,
};

verus! {

/// Why a text is not a quantity.
#[derive(Debug, Clone, Copy, PartialEq, Eq, Structural)]
pub enum UnitFault {
    /// It is empty.
    Empty,
    /// It is not a number with at most one unit letter.
    NotANumber,
    /// It is too large.
    Overflow,
}

/// What a size's last letter stands for: `k` for 1024 bytes, `m` for 1024
/// times that, in either case.
pub open spec fn size_unit(c: char) -> Option<int> {
    if c == 'k' || c == 'K' {
        Some(1024)
    } else if c == 'm' || c == 'M' {
        Some(1_048_576)
    } else {
        None
    }
}

/// What an interval's last letter stands for: hours, minutes or seconds, in
/// either case.
pub open spec fn interval_unit(c: char) -> Option<int> {
    if c == 'h' || c == 'H' {
        Some(3600)
    } else if c == 'm' || c == 'M' {
        Some(60)
    } else if c == 's' || c == 'S' {
        Some(1)
    } else {
        None
    }
}

/// The quantity that digits and a unit stand for, up to `max`.
pub open spec fn quantity(digits: Seq<char>, unit: int, max: int) -> Result<int, UnitFault> {
    match parsed_number(digits, max) {
        None => Err(UnitFault::NotANumber),
        Some(v) => if v * unit > max {
            Err(UnitFault::Overflow)
        } else {
            Ok(v * unit)
        },
    }
}

/// The bytes that a text such as `256K`, `1M` or `4096` stands for.
pub open spec fn size_in_text(s: Seq<char>) -> Result<int, UnitFault> {
    let t = trimmed(s);
    if t.len() == 0 {
        Err(UnitFault::Empty)
    } else {
        match size_unit(t.last()) {
            Some(unit) => quantity(t.drop_last(), unit, usize::MAX as int),
            None => quantity(t, 1, usize::MAX as int),
        }
    }
}

/// The seconds that a text such as `3h`, `90m`, `5400s` or `5400` stands for.
pub open spec fn seconds_in_text(s: Seq<char>) -> Result<int, UnitFault> {
    let t = trimmed(s);
    if t.len() == 0 {
        Err(UnitFault::Empty)
    } else {
        match interval_unit(t.last()) {
            Some(unit) => quantity(t.drop_last(), unit, u64::MAX as int),
            None => quantity(t, 1, u64::MAX as int),
        }
    }
}

fn parse_quantity(chars: &Vec<char>, len: usize, unit: u64, max: u64) -> (r: Result<
    u64,
    UnitFault,
>)
    requires
        len <= chars@.len(),
        unit > 0,
    ensures
        match r {
            Ok(v) => quantity(chars@.take(len as int), unit as int, max as int) == Ok::<
                int,
                UnitFault,
            >(v as int),
            Err(e) => quantity(chars@.take(len as int), unit as int, max as int) == Err::<
                int,
                UnitFault,
            >(e),
        },
{
    match parse_number(chars, len, max) {
        None => Err(UnitFault::NotANumber),
        Some(v) => match v.checked_mul(unit) {
            None => Err(UnitFault::Overflow),
            Some(n) => if n > max {
                Err(UnitFault::Overflow)
            } else {
                Ok(n)
            },
        },
    }
}

/// Parses a size such as `256K`, `1M` or `4096`.
pub fn parse_size_text(s: &str) -> (r: Result<usize, UnitFault>)
    ensures
        match r {
            Ok(v) => size_in_text(s@) == Ok::<int, UnitFault>(v as int),
            Err(e) => size_in_text(s@) == Err::<int, UnitFault>(e),
        },
{
    let chars: Vec<char> = trim_chars(s);
    let n: usize = chars.len();
    if n == 0 {
        return Err(UnitFault::Empty);
    }
    let last: char = chars[n - 1];
    let unit: u64 = if last == 'k' || last == 'K' {
        1024
    } else if last == 'm' || last == 'M' {
        1_048_576
    } else {
        1
    };
    let len: usize = if unit > 1 {
        n - 1
    } else {
        n
    };
    proof {
        assert(chars@.take(n as int) =~= chars@);
        assert(chars@.take(n - 1) =~= chars@.drop_last());
    }
    match parse_quantity(&chars, len, unit, usize::MAX as u64) {
        Ok(v) => Ok(v as usize),
        Err(e) => Err(e),
    }
}

/// Parses an interval such as `3h`, `90m`, `5400s` or `5400` into seconds.
pub fn parse_seconds_text(s: &str) -> (r: Result<u64, UnitFault>)
    ensures
        match r {
            Ok(v) => seconds_in_text(s@) == Ok::<int, UnitFault>(v as int),
            Err(e) => seconds_in_text(s@) == Err::<int, UnitFault>(e),
        },
{
    let chars: Vec<char> = trim_chars(s);
    let n: usize = chars.len();
    if n == 0 {
        return Err(UnitFault::Empty);
    }
    let last: char = chars[n - 1];
    let unit: Option<u64> = if last == 'h' || last == 'H' {
        Some(3600)
    } else if last == 'm' || last == 'M' {
        Some(60)
    } else if last == 's' || last == 'S' {
        Some(1)
    } else {
        None
    };
    proof {
        assert(chars@.take(n as int) =~= chars@);
        assert(chars@.take(n - 1) =~= chars@.drop_last());
    }
    match unit {
        Some(u) => parse_quantity(&chars, n - 1, u, u64::MAX),
        None => parse_quantity(&chars, n, 1, u64::MAX),
    }
}

/// What a text stands for if it is a number of units: too large a number is no
/// number, too large a quantity overflows.
pub open spec fn units_fit(n: nat, unit: int, max: int) -> Result<int, UnitFault> {
    if n > max {
        Err(UnitFault::NotANumber)
    } else if n * unit > max {
        Err(UnitFault::Overflow)
    } else {
        Ok(n * unit)
    }
}

proof fn lemma_tight_number(n: nat, tail: Seq<char>)
    requires
        forall|i: int| 0 <= i < tail.len() ==> !is_white(#[trigger] tail[i]),
    ensures
        trimmed(decimal(n) + tail) == decimal(n) + tail,
        !is_white(decimal(n).last()),
        48 <= decimal(n).last() as u32 <= 57,
{
    law_decimal_parses_back(n);
    law_decimal_digits(n);
    let d = decimal(n);
    let s = d + tail;
    assert(is_digit(d[0]));
    assert(is_digit(d[d.len() - 1]));
    assert(s[0] == d[0]);
    if tail.len() > 0 {
        assert(s.last() == tail[tail.len() - 1]);
    } else {
        assert(s =~= d);
    }
    law_trimming_keeps_tight_text(s);
}

/// A number of bytes reads as itself, with `K` or `k` behind it as so many
/// times 1024, with `M` or `m` as so many times 1024 times that.
pub proof fn law_sizes_read(n: nat)
    ensures
        size_in_text(decimal(n)) == units_fit(n, 1, usize::MAX as int),
        size_in_text(decimal(n) + seq!['K']) == units_fit(n, 1024, usize::MAX as int),
        size_in_text(decimal(n) + seq!['k']) == units_fit(n, 1024, usize::MAX as int),
        size_in_text(decimal(n) + seq!['M']) == units_fit(n, 1_048_576, usize::MAX as int),
        size_in_text(decimal(n) + seq!['m']) == units_fit(n, 1_048_576, usize::MAX as int),
{
    lemma_suffixed(n, usize::MAX as int);
}

/// A number of seconds reads as itself, with or without an `s` behind it, with
/// `m` as minutes and with `h` as hours, in either case.
pub proof fn law_intervals_read(n: nat)
    ensures
        seconds_in_text(decimal(n)) == units_fit(n, 1, u64::MAX as int),
        seconds_in_text(decimal(n) + seq!['s']) == units_fit(n, 1, u64::MAX as int),
        seconds_in_text(decimal(n) + seq!['S']) == units_fit(n, 1, u64::MAX as int),
        seconds_in_text(decimal(n) + seq!['m']) == units_fit(n, 60, u64::MAX as int),
        seconds_in_text(decimal(n) + seq!['M']) == units_fit(n, 60, u64::MAX as int),
        seconds_in_text(decimal(n) + seq!['h']) == units_fit(n, 3600, u64::MAX as int),
        seconds_in_text(decimal(n) + seq!['H']) == units_fit(n, 3600, u64::MAX as int),
{
    lemma_suffixed(n, u64::MAX as int);
}

proof fn lemma_suffixed(n: nat, max: int)
    ensures
        parsed_number(decimal(n), max) == if n <= max {
            Some(n as int)
        } else {
            None
        },
        decimal(n).len() > 0,
        48 <= decimal(n).last() as u32 <= 57,
        trimmed(decimal(n)) == decimal(n),
        forall|c: char|
            !is_white(c) ==> trimmed(#[trigger] (decimal(n) + seq![c])) == decimal(n) + seq![c],
        forall|c: char| (#[trigger] (decimal(n) + seq![c])).drop_last() == decimal(n),
        forall|c: char| (#[trigger] (decimal(n) + seq![c])).last() == c,
{
    law_numbers_read_back(n, max);
    law_decimal_digits(n);
    assert(decimal(n) + Seq::<char>::empty() =~= decimal(n));
    lemma_tight_number(n, Seq::empty());
    assert forall|c: char| !is_white(c) implies trimmed(#[trigger] (decimal(n) + seq![c]))
        == decimal(n) + seq![c] by {
        lemma_tight_number(n, seq![c]);
    }
    assert forall|c: char| (#[trigger] (decimal(n) + seq![c])).drop_last() == decimal(n) by {
        assert((decimal(n) + seq![c]).drop_last() =~= decimal(n));
    }
}

/// A text is a quantity by what is left when white space is cut off its ends,
/// and white space alone is none.
pub proof fn law_white_space_around_does_not_count(s: Seq<char>)
    ensures
        size_in_text(s) == size_in_text(trimmed(s)),
        seconds_in_text(s) == seconds_in_text(trimmed(s)),
        trimmed(s).len() == 0 <==> size_in_text(s) == Err::<int, UnitFault>(UnitFault::Empty),
        trimmed(s).len() == 0 <==> seconds_in_text(s) == Err::<int, UnitFault>(UnitFault::Empty),
{
    law_trimming(s);
    let t = trimmed(s);
    if t.len() > 0 {
        law_trimming_keeps_tight_text(t);
    } else {
        law_trimming(t);
    }
}

/// What is read as a size holds digits only, but for a plus sign in front and
/// one of the unit letters at the end.
pub proof fn law_sizes_are_digits(s: Seq<char>, i: int)
    requires
        size_in_text(s) is Ok,
        0 <= i < trimmed(s).len(),
    ensures
        ({
            let t = trimmed(s);
            ||| 48 <= t[i] as u32 <= 57
            ||| i == 0 && t[i] == '+'
            ||| i == t.len() - 1 && (t[i] == 'K' || t[i] == 'k' || t[i] == 'M' || t[i] == 'm')
        }),
{
    let t = trimmed(s);
    let max = usize::MAX as int;
    if size_unit(t.last()) is Some {
        if i < t.len() - 1 {
            law_numbers_are_digits(t.drop_last(), max, i);
        }
    } else {
        law_numbers_are_digits(t, max, i);
    }
}

/// What is read as an interval holds digits only, but for a plus sign in front
/// and one of the unit letters at the end.
pub proof fn law_intervals_are_digits(s: Seq<char>, i: int)
    requires
        seconds_in_text(s) is Ok,
        0 <= i < trimmed(s).len(),
    ensures
        ({
            let t = trimmed(s);
            ||| 48 <= t[i] as u32 <= 57
            ||| i == 0 && t[i] == '+'
            ||| i == t.len() - 1 && (t[i] == 'h' || t[i] == 'H' || t[i] == 'm' || t[i] == 'M'
                || t[i] == 's' || t[i] == 'S')
        }),
{
    let t = trimmed(s);
    let max = u64::MAX as int;
    if interval_unit(t.last()) is Some {
        if i < t.len() - 1 {
            law_numbers_are_digits(t.drop_last(), max, i);
        }
    } else {
        law_numbers_are_digits(t, max, i);
    }
}

/// Whatever digits stand for a number of bytes: they read as so many bytes, or
/// with a unit letter behind them as so many of its units.
pub proof fn law_digits_make_sizes(d: Seq<char>)
    requires
        d.len() > 0,
        forall|i: int| 0 <= i < d.len() ==> '0' <= #[trigger] d[i] <= '9',
    ensures
        size_in_text(d) == units_fit(decimal_value(d), 1, usize::MAX as int),
        size_in_text(d + seq!['K']) == units_fit(decimal_value(d), 1024, usize::MAX as int),
        size_in_text(d + seq!['k']) == units_fit(decimal_value(d), 1024, usize::MAX as int),
        size_in_text(d + seq!['M']) == units_fit(decimal_value(d), 1_048_576, usize::MAX as int),
        size_in_text(d + seq!['m']) == units_fit(decimal_value(d), 1_048_576, usize::MAX as int),
{
    lemma_digits_suffixed(d, usize::MAX as int);
}

/// Whatever digits stand for a number of seconds: they read as so many seconds,
/// or with a unit letter behind them as so many of its units.
pub proof fn law_digits_make_intervals(d: Seq<char>)
    requires
        d.len() > 0,
        forall|i: int| 0 <= i < d.len() ==> '0' <= #[trigger] d[i] <= '9',
    ensures
        seconds_in_text(d) == units_fit(decimal_value(d), 1, u64::MAX as int),
        seconds_in_text(d + seq!['s']) == units_fit(decimal_value(d), 1, u64::MAX as int),
        seconds_in_text(d + seq!['S']) == units_fit(decimal_value(d), 1, u64::MAX as int),
        seconds_in_text(d + seq!['m']) == units_fit(decimal_value(d), 60, u64::MAX as int),
        seconds_in_text(d + seq!['M']) == units_fit(decimal_value(d), 60, u64::MAX as int),
        seconds_in_text(d + seq!['h']) == units_fit(decimal_value(d), 3600, u64::MAX as int),
        seconds_in_text(d + seq!['H']) == units_fit(decimal_value(d), 3600, u64::MAX as int),
{
    lemma_digits_suffixed(d, u64::MAX as int);
}

proof fn lemma_digits_suffixed(d: Seq<char>, max: int)
    requires
        d.len() > 0,
        forall|i: int| 0 <= i < d.len() ==> '0' <= #[trigger] d[i] <= '9',
    ensures
        parsed_number(d, max) == if decimal_value(d) <= max {
            Some(decimal_value(d) as int)
        } else {
            None
        },
        48 <= d.last() as u32 <= 57,
        trimmed(d) == d,
        forall|c: char| !is_white(c) ==> trimmed(#[trigger] (d + seq![c])) == d + seq![c],
        forall|c: char| (#[trigger] (d + seq![c])).drop_last() == d,
        forall|c: char| (#[trigger] (d + seq![c])).last() == c,
{
    law_digits_read(d, max);
    assert('0' <= d[0] <= '9' && '0' <= d[d.len() - 1] <= '9');
    law_trimming_keeps_tight_text(d);
    assert forall|c: char| !is_white(c) implies trimmed(#[trigger] (d + seq![c])) == d + seq![c] by {
        law_trimming_keeps_tight_text(d + seq![c]);
    }
    assert forall|c: char| (#[trigger] (d + seq![c])).drop_last() == d by {
        assert((d + seq![c]).drop_last() =~= d);
    }
}

} // verus!
