//! The history that a daemon holds.
use vstd::prelude::*;

use crate::snapshot_id::SnapshotId;
use crate::sort::{is_arrangement, law_arrangement_is_complete, sorted_places, Ranked};
use crate::text::{
    decimal, decimal_value, law_zero_padding, pow10, push_decimal, push_zero_padded, zero_padded,
};

verus! {

/// A retained snapshot.
#[derive(Debug, Clone, Copy, PartialEq, Eq, Structural)]
pub struct SnapshotEntry {
    /// Its identity.
    pub id: SnapshotId,
    /// Its creation time in milliseconds since the Unix epoch.
    pub timestamp_ms: u64,
}

/// Errors of listing.
#[derive(Debug, Clone, Copy, PartialEq, Eq, Structural)]
pub enum ListError {
    /// The daemon sent an identity that does not have 16 bytes.
    BadSnapshotId {
        /// How many it has.
        len: usize,
    },
}

/// The index of the first raw identity from `from` on that does not have 16
/// bytes, or the number of them.
pub open spec fn first_bad_id(raw: Seq<Vec<u8>>, from: int) -> int
    decreases raw.len() - from,
{
    if from >= raw.len() {
        raw.len() as int
    } else if raw[from]@.len() != 16 {
        from
    } else {
        first_bad_id(raw, from + 1)
    }
}

/// Identities, to be sorted.
struct Ids {
    ids: Vec<SnapshotId>,
}

impl Ranked for Ids {
    closed spec fn size(&self) -> nat {
        self.ids@.len()
    }

    closed spec fn ranks(&self, i: int, j: int) -> bool {
        self.ids@[i].value <= self.ids@[j].value
    }

    proof fn ranks_all(&self, i: int, j: int, k: int) {
    }

    fn may_precede(&self, i: usize, j: usize) -> (r: bool) {
        self.ids[i].value <= self.ids[j].value
    }
}

/// Whether a snapshot comes before another, or is the same: by creation time,
/// then by identity.
pub open spec fn chronological(a: SnapshotEntry, b: SnapshotEntry) -> bool {
    a.timestamp_ms < b.timestamp_ms || (a.timestamp_ms == b.timestamp_ms && a.id.value
        <= b.id.value)
}

/// Whether entries are those of raw identities, oldest first: each identity
/// in one entry, with its creation time.
pub open spec fn listed(entries: Seq<SnapshotEntry>, raw: Seq<Vec<u8>>) -> bool {
    &&& entries.len() == raw.len()
    &&& forall|i: int, j: int|
        #![trigger entries[i], entries[j]]
        0 <= i <= j < entries.len() ==> chronological(entries[i], entries[j])
    &&& exists|order: Seq<usize>| #[trigger]
        is_arrangement(order, raw.len()) && forall|i: int|
            #![trigger entries[i]]
            0 <= i < entries.len() ==> entries[i].id.wire() == raw[order[i] as int]@
                && entries[i].timestamp_ms == entries[i].id.time()
}

/// Parses the identities that the daemon sent and puts them in order, oldest
/// first. Fails on the first that does not have 16 bytes.
pub fn list_snapshots(raw: &Vec<Vec<u8>>) -> (r: Result<Vec<SnapshotEntry>, ListError>)
    ensures
        match r {
            Ok(entries) => first_bad_id(raw@, 0) == raw@.len() && listed(entries@, raw@),
            Err(e) => first_bad_id(raw@, 0) < raw@.len() && e == (ListError::BadSnapshotId {
                len: raw@[first_bad_id(raw@, 0)]@.len() as usize,
            }),
        },
{
    let mut ids: Vec<SnapshotId> = Vec::with_capacity(raw.len());
    let mut i: usize = 0;
    while i < raw.len()
        invariant
            i <= raw@.len(),
            ids@.len() == i,
            first_bad_id(raw@, 0) == first_bad_id(raw@, i as int),
            forall|k: int| #![trigger ids@[k]] 0 <= k < i ==> ids@[k].wire() == raw@[k]@,
        decreases raw@.len() - i,
    {
        match SnapshotId::from_wire(raw[i].as_slice()) {
            Some(id) => {
                ids.push(id);
            },
            None => {
                return Err(ListError::BadSnapshotId { len: raw[i].len() });
            },
        }
        i = i + 1;
    }
    let list: Ids = Ids { ids };
    let order: Vec<usize> = sorted_places(&list, raw.len());
    let mut entries: Vec<SnapshotEntry> = Vec::with_capacity(raw.len());
    let mut i: usize = 0;
    while i < order.len()
        invariant
            i <= order@.len(),
            order@.len() == raw@.len(),
            list.ids@.len() == raw@.len(),
            is_arrangement(order@, raw@.len()),
            entries@.len() == i,
            forall|k: int|
                #![trigger entries@[k]]
                0 <= k < i ==> entries@[k].id == list.ids@[order@[k] as int]
                    && entries@[k].timestamp_ms == entries@[k].id.time(),
        decreases order@.len() - i,
    {
        let id: SnapshotId = list.ids[order[i]];
        entries.push(SnapshotEntry { id, timestamp_ms: id.timestamp_ms() });
        i = i + 1;
    }
    proof {
        assert forall|a: int, b: int|
            #![trigger entries@[a], entries@[b]]
            0 <= a <= b < entries@.len() implies chronological(entries@[a], entries@[b]) by {
            assert(list.ranks(order@[a] as int, order@[b] as int));
            crate::snapshot_id::law_snapshot_id(entries@[b].id, entries@[a].id);
        }
        assert forall|a: int| #![trigger entries@[a]] 0 <= a < entries@.len() implies entries@[
            a].id.wire() == raw@[order@[a] as int]@ && entries@[a].timestamp_ms
            == entries@[a].id.time() by {
            assert(list.ids@[order@[a] as int].wire() == raw@[order@[a] as int]@);
        }
        assert(is_arrangement(order@, raw@.len()));
    }
    Ok(entries)
}

/// The last `limit` of the entries, in their order.
#[must_use]
pub fn recent(entries: &Vec<SnapshotEntry>, limit: usize) -> (r: Vec<SnapshotEntry>)
    ensures
        r@ == if entries@.len() <= limit {
            entries@
        } else {
            entries@.skip(entries@.len() - limit)
        },
{
    let start: usize = if entries.len() <= limit {
        0
    } else {
        entries.len() - limit
    };
    let mut out: Vec<SnapshotEntry> = Vec::new();
    let mut i: usize = start;
    while i < entries.len()
        invariant
            start <= i <= entries@.len(),
            out@ == entries@.subrange(start as int, i as int),
        decreases entries@.len() - i,
    {
        out.push(entries[i]);
        i = i + 1;
        proof {
            assert(out@ =~= entries@.subrange(start as int, i as int));
        }
    }
    proof {
        assert(entries@.subrange(start as int, i as int) =~= entries@.skip(start as int));
        assert(entries@.skip(0) =~= entries@);
    }
    out
}

/// Whether a year is a leap year.
pub open spec fn is_leap(year: int) -> bool {
    year % 4 == 0 && (year % 100 != 0 || year % 400 == 0)
}

/// How many days a year has.
pub open spec fn year_days(year: int) -> int {
    if is_leap(year) {
        366
    } else {
        365
    }
}

/// How many days a month has.
pub open spec fn month_days(year: int, month: int) -> int {
    if month == 2 {
        if is_leap(year) {
            29
        } else {
            28
        }
    } else if month == 4 || month == 6 || month == 9 || month == 11 {
        30
    } else {
        31
    }
}

/// Days from 1970-01-01 to the first day of a year: 365 for each year between,
/// and one for each leap year.
pub open spec fn days_to_year(year: int) -> int {
    365 * (year - 1970) + (year - 1) / 4 - (year - 1) / 100 + (year - 1) / 400 - 477
}

/// Days from the first day of a year to the first day of a month.
pub open spec fn days_to_month(year: int, month: int) -> int
    decreases month,
{
    if month <= 1 {
        0
    } else {
        days_to_month(year, month - 1) + month_days(year, month - 1)
    }
}

/// Whether year, month and day are a date.
pub open spec fn is_date(year: int, month: int, day: int) -> bool {
    1 <= month <= 12 && 1 <= day <= month_days(year, month)
}

/// Days from 1970-01-01 to a date.
pub open spec fn day_number(year: int, month: int, day: int) -> int {
    days_to_year(year) + days_to_month(year, month) + day - 1
}

proof fn lemma_year(year: int)
    ensures
        days_to_year(year + 1) == days_to_year(year) + year_days(year),
        days_to_year(1970) == 0,
        days_to_month(year, 13) == year_days(year),
{
    reveal_with_fuel(days_to_month, 13);
}

proof fn lemma_era(n: int)
    ensures
        days_to_year(1970 + 400 * n) == 146_097 * n,
{
}

fn leap(year: u64) -> (r: bool)
    ensures
        r == is_leap(year as int),
{
    year % 4 == 0 && (year % 100 != 0 || year % 400 == 0)
}

fn days_of_month(year: u64, month: u64) -> (r: u64)
    ensures
        r == month_days(year as int, month as int),
{
    if month == 2 {
        if leap(year) {
            29
        } else {
            28
        }
    } else if month == 4 || month == 6 || month == 9 || month == 11 {
        30
    } else {
        31
    }
}

/// The date so many days after 1970-01-01.
#[must_use]
pub fn civil_from_days(days: u64) -> (r: (u64, u64, u64))
    requires
        days <= 213_503_982_334_601,
    ensures
        is_date(r.0 as int, r.1 as int, r.2 as int),
        day_number(r.0 as int, r.1 as int, r.2 as int) == days,
        r.0 >= 1970,
{
    let eras: u64 = days / 146_097;
    let mut rest: u64 = days % 146_097;
    let first: u64 = 1970 + 400 * eras;
    let mut year: u64 = first;
    proof {
        lemma_era(eras as int);
        lemma_era(eras + 1);
        lemma_year(year as int);
    }
    loop
        invariant_except_break
            days_to_year(year as int) + rest == days,
        invariant
            1970 <= first <= year <= first + 400,
            first == 1970 + 400 * eras,
            eras <= 213_503_982_334_601,
            days < days_to_year(first + 400),
        ensures
            1970 <= year,
            days_to_year(year as int) + rest == days,
            rest < year_days(year as int),
            year <= 0x7fff_ffff_ffff_ffff,
        decreases first + 400 - year,
    {
        let len: u64 = if leap(year) {
            366
        } else {
            365
        };
        if rest < len {
            break;
        }
        proof {
            lemma_year(year as int);
            if year == first + 400 {
                assert(days_to_year(year as int) <= days);
            }
        }
        rest = rest - len;
        year = year + 1;
    }
    let mut month: u64 = 1;
    proof {
        lemma_year(year as int);
    }
    loop
        invariant_except_break
            days_to_year(year as int) + days_to_month(year as int, month as int) + rest == days,
            1 <= month <= 12,
        invariant
            days < days_to_year(year as int) + days_to_month(year as int, 13),
        ensures
            1 <= month <= 12,
            days_to_year(year as int) + days_to_month(year as int, month as int) + rest == days,
            rest < month_days(year as int, month as int),
        decreases 13 - month,
    {
        let len: u64 = days_of_month(year, month);
        if rest < len {
            break;
        }
        proof {
            assert(days_to_month(year as int, month + 1) == days_to_month(
                year as int,
                month as int,
            ) + month_days(year as int, month as int));
        }
        rest = rest - len;
        month = month + 1;
    }
    (year, month, rest + 1)
}

/// A year with at least four digits.
pub open spec fn year_text(year: int) -> Seq<char> {
    if year < 10_000 {
        zero_padded(year as nat, 4)
    } else {
        decimal(year as nat)
    }
}

/// A date and a time of day as text.
pub open spec fn utc_text(year: int, month: int, day: int, second_of_day: int) -> Seq<char> {
    (((((year_text(year).push('-') + zero_padded(month as nat, 2)).push('-') + zero_padded(
        day as nat,
        2,
    )).push(' ') + zero_padded((second_of_day / 3600) as nat, 2)).push(':') + zero_padded(
        (second_of_day % 3600 / 60) as nat,
        2,
    )).push(':') + zero_padded((second_of_day % 60) as nat, 2)) + " UTC"@
}

/// Whether a text is the date and time of a Unix timestamp in seconds.
pub open spec fn is_utc_text(text: Seq<char>, secs: int) -> bool {
    exists|year: int, month: int, day: int| #[trigger]
        is_date(year, month, day) && day_number(year, month, day) == secs / 86_400 && text
            == utc_text(year, month, day, secs % 86_400)
}

/// Formats a Unix timestamp in seconds as `YYYY-MM-DD HH:MM:SS UTC`.
#[must_use]
pub fn format_utc_secs(secs: u64) -> (r: String)
    ensures
        is_utc_text(r@, secs as int),
{
    let (year, month, day) = civil_from_days(secs / 86_400);
    let rem: u64 = secs % 86_400;
    let mut out: String = String::new();
    if year < 10_000 {
        push_zero_padded(&mut out, year, 4);
    } else {
        push_decimal(&mut out, year as u128);
    }
    proof {
        assert(out@ =~= year_text(year as int));
    }
    out.push('-');
    push_zero_padded(&mut out, month, 2);
    out.push('-');
    push_zero_padded(&mut out, day, 2);
    out.push(' ');
    push_zero_padded(&mut out, rem / 3600, 2);
    out.push(':');
    push_zero_padded(&mut out, rem % 3600 / 60, 2);
    out.push(':');
    push_zero_padded(&mut out, rem % 60, 2);
    out.push_str(" UTC");
    proof {
        assert(is_date(year as int, month as int, day as int));
        assert(out@ == utc_text(year as int, month as int, day as int, rem as int));
    }
    out
}

/// Formats a Unix timestamp in milliseconds as `YYYY-MM-DD HH:MM:SS UTC`; the
/// fraction of the second is dropped.
#[must_use]
pub fn format_utc_ms(timestamp_ms: u64) -> (r: String)
    ensures
        is_utc_text(r@, timestamp_ms as int / 1000),
{
    format_utc_secs(timestamp_ms / 1000)
}

proof fn lemma_years_rise(a: int, b: int)
    requires
        a <= b,
    ensures
        days_to_year(a) + 365 * (b - a) <= days_to_year(b),
    decreases b - a,
{
    if a < b {
        lemma_years_rise(a, b - 1);
        lemma_year(b - 1);
    }
}

proof fn lemma_months_rise(year: int, a: int, b: int)
    requires
        1 <= a <= b,
    ensures
        days_to_month(year, a) <= days_to_month(year, b),
    decreases b - a,
{
    if a < b {
        lemma_months_rise(year, a, b - 1);
    }
}

proof fn lemma_day_within_year(year: int, month: int, day: int)
    requires
        is_date(year, month, day),
    ensures
        days_to_year(year) <= day_number(year, month, day) < days_to_year(year + 1),
{
    lemma_year(year);
    lemma_months_rise(year, 1, month);
    lemma_months_rise(year, month + 1, 13);
    assert(days_to_month(year, month + 1) == days_to_month(year, month) + month_days(year, month));
}

/// A day has one date: two dates with the same day number are the same.
pub proof fn law_dates_are_unique(y1: int, m1: int, d1: int, y2: int, m2: int, d2: int)
    requires
        is_date(y1, m1, d1),
        is_date(y2, m2, d2),
        day_number(y1, m1, d1) == day_number(y2, m2, d2),
    ensures
        y1 == y2 && m1 == m2 && d1 == d2,
{
    lemma_day_within_year(y1, m1, d1);
    lemma_day_within_year(y2, m2, d2);
    if y1 < y2 {
        lemma_years_rise(y1 + 1, y2);
    } else if y2 < y1 {
        lemma_years_rise(y2 + 1, y1);
    } else {
        if m1 < m2 {
            lemma_months_rise(y1, m1 + 1, m2);
            assert(days_to_month(y1, m1 + 1) == days_to_month(y1, m1) + month_days(y1, m1));
        } else if m2 < m1 {
            lemma_months_rise(y1, m2 + 1, m1);
            assert(days_to_month(y1, m2 + 1) == days_to_month(y1, m2) + month_days(y1, m2));
        }
    }
}

/// The identity that is reported is the first that does not have 16 bytes.
pub proof fn law_first_bad_id(raw: Seq<Vec<u8>>)
    ensures
        ({
            let at = first_bad_id(raw, 0);
            &&& 0 <= at <= raw.len()
            &&& at < raw.len() ==> raw[at]@.len() != 16
            &&& forall|i: int| #![trigger raw[i]] 0 <= i < at ==> raw[i]@.len() == 16
        }),
{
    lemma_first_bad_id(raw, 0);
}

proof fn lemma_first_bad_id(raw: Seq<Vec<u8>>, from: int)
    requires
        0 <= from <= raw.len(),
    ensures
        from <= first_bad_id(raw, from) <= raw.len(),
        first_bad_id(raw, from) < raw.len() ==> raw[first_bad_id(raw, from)]@.len() != 16,
        forall|i: int|
            #![trigger raw[i]]
            from <= i < first_bad_id(raw, from) ==> raw[i]@.len() == 16,
    decreases raw.len() - from,
{
    if from < raw.len() && raw[from]@.len() == 16 {
        lemma_first_bad_id(raw, from + 1);
    }
}

/// The list goes from the oldest snapshot to the newest, and holds each of the
/// daemon's identities with its own creation time: none is left out.
pub proof fn law_list_is_the_history(entries: Seq<SnapshotEntry>, raw: Seq<Vec<u8>>, k: int)
    requires
        listed(entries, raw),
        raw.len() <= usize::MAX,
        0 <= k < raw.len(),
    ensures
        entries.len() == raw.len(),
        exists|i: int|
            #![trigger entries[i]]
            0 <= i < entries.len() && entries[i].id.wire() == raw[k]@,
        entries[k].timestamp_ms == entries[k].id.time(),
        exists|j: int|
            #![trigger raw[j]]
            0 <= j < raw.len() && raw[j]@ == entries[k].id.wire(),
        k + 1 < entries.len() ==> entries[k].timestamp_ms <= entries[k + 1].timestamp_ms,
        k + 1 < entries.len() && entries[k].timestamp_ms == entries[k + 1].timestamp_ms
            ==> entries[k].id.value <= entries[k + 1].id.value,
{
    let order = choose|order: Seq<usize>| #[trigger]
        is_arrangement(order, raw.len()) && forall|i: int|
            #![trigger entries[i]]
            0 <= i < entries.len() ==> entries[i].id.wire() == raw[order[i] as int]@
                && entries[i].timestamp_ms == entries[i].id.time();
    law_arrangement_is_complete(order, raw.len());
    assert(order.contains(k as usize));
    let i = choose|i: int| 0 <= i < order.len() && order[i] == k as usize;
    assert(entries[i].id.wire() == raw[k]@);
    let e = entries[k];
    let source = raw[order[k] as int];
    assert(order[k] < raw.len());
    if k + 1 < entries.len() {
        assert(chronological(entries[k], entries[k + 1]));
    }
}

/// Leap years are every fourth, but of the full hundreds only every fourth.
pub proof fn law_leap_years(century: int, year: int)
    requires
        0 <= year < 100,
    ensures
        0 < year ==> (is_leap(100 * century + year) <==> year % 4 == 0),
        year == 0 ==> (is_leap(100 * century) <==> century % 4 == 0),
        year_days(year) == 365 || year_days(year) == 366,
        year_days(year) == 366 <==> is_leap(year),
{
}

/// The days count on from the first of 1970: the day after a date is the next
/// of the month, or the first of the next month, or of the next year, and
/// months have the days that they have.
pub proof fn law_days_count_on(year: int, month: int, day: int)
    requires
        is_date(year, month, day),
    ensures
        day_number(1970, 1, 1) == 0,
        month_days(year, month) == seq![
            31int,
            if is_leap(year) {
                29
            } else {
                28
            },
            31,
            30,
            31,
            30,
            31,
            31,
            30,
            31,
            30,
            31,
        ][month - 1],
        day < month_days(year, month) ==> day_number(year, month, day + 1) == day_number(
            year,
            month,
            day,
        ) + 1,
        day == month_days(year, month) && month < 12 ==> day_number(year, month + 1, 1)
            == day_number(year, month, day) + 1,
        day == month_days(year, month) && month == 12 ==> day_number(year + 1, 1, 1) == day_number(
            year,
            month,
            day,
        ) + 1,
{
    lemma_year(year);
    assert(days_to_month(year, 13) == days_to_month(year, 12) + month_days(year, 12));
    assert(days_to_month(1970, 1) == 0);
    assert(days_to_year(1970) == 0);
}

/// A date and time are written as four digits of the year, two each of month,
/// day, hour, minute and second, with their marks between, and `UTC`; hours,
/// minutes and seconds make up the second of the day.
pub proof fn law_utc_text_layout(year: int, month: int, day: int, second_of_day: int)
    requires
        0 <= year < 10_000,
        is_date(year, month, day),
        0 <= second_of_day < 86_400,
    ensures
        ({
            let t = utc_text(year, month, day, second_of_day);
            let h = decimal_value(t.subrange(11, 13));
            let m = decimal_value(t.subrange(14, 16));
            let s = decimal_value(t.subrange(17, 19));
            &&& t.len() == 23
            &&& decimal_value(t.subrange(0, 4)) == year
            &&& decimal_value(t.subrange(5, 7)) == month
            &&& decimal_value(t.subrange(8, 10)) == day
            &&& h < 24 && m < 60 && s < 60
            &&& 3600 * h + 60 * m + s == second_of_day
            &&& t[4] == '-' && t[7] == '-' && t[10] == ' ' && t[13] == ':' && t[16] == ':'
            &&& t.skip(19) == " UTC"@
        }),
{
    let t = utc_text(year, month, day, second_of_day);
    reveal_strlit(" UTC");
    let h = second_of_day / 3600;
    let m = second_of_day % 3600 / 60;
    let s = second_of_day % 60;
    assert(pow10(4) == 10_000 && pow10(2) == 100) by {
        reveal_with_fuel(pow10, 5);
    }
    assert((year as nat) % 10_000 == year && (month as nat) % 100 == month && (day as nat) % 100
        == day && (h as nat) % 100 == h && (m as nat) % 100 == m && (s as nat) % 100 == s);
    law_zero_padding(year as nat, 4);
    law_zero_padding(month as nat, 2);
    law_zero_padding(day as nat, 2);
    law_zero_padding(h as nat, 2);
    law_zero_padding(m as nat, 2);
    law_zero_padding(s as nat, 2);
    assert(t.subrange(0, 4) =~= zero_padded(year as nat, 4));
    assert(t.subrange(5, 7) =~= zero_padded(month as nat, 2));
    assert(t.subrange(8, 10) =~= zero_padded(day as nat, 2));
    assert(t.subrange(11, 13) =~= zero_padded(h as nat, 2));
    assert(t.subrange(14, 16) =~= zero_padded(m as nat, 2));
    assert(t.subrange(17, 19) =~= zero_padded(s as nat, 2));
    assert(t.skip(19) =~= " UTC"@);
}

/// A time is written with the date of its day and its second of that day.
pub proof fn law_time_is_written_as_its_date(text: Seq<char>, secs: int)
    requires
        0 <= secs,
        is_utc_text(text, secs),
    ensures
        exists|year: int, month: int, day: int|
            {
                let t = secs - 86_400 * day_number(year, month, day);
                &&& #[trigger] is_date(year, month, day)
                &&& 0 <= t < 86_400
                &&& text == utc_text(year, month, day, t)
            },
{
    let (year, month, day) = choose|year: int, month: int, day: int| #[trigger]
        is_date(year, month, day) && day_number(year, month, day) == secs / 86_400 && text
            == utc_text(year, month, day, secs % 86_400);
    assert(secs - 86_400 * day_number(year, month, day) == secs % 86_400);
}

/// A year below ten thousand has four digits, any other as many as it takes.
pub proof fn law_years_are_written(year: int)
    requires
        0 <= year,
    ensures
        decimal_value(year_text(year)) == year,
        year < 10_000 ==> year_text(year).len() == 4,
        year >= 10_000 ==> year_text(year) == decimal(year as nat),
{
    assert(pow10(4) == 10_000) by {
        reveal_with_fuel(pow10, 5);
    }
    law_zero_padding(year as nat, 4);
    crate::text::law_decimal_parses_back(year as nat);
    if year < 10_000 {
        assert((year as nat) % 10_000 == year);
    }
}

} // verus!
