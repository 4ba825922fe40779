//! Live progress of a backup or a restore: when it is shown, and as what.
//!
//! The figures shown are those of the running ledger itself. Showing is held
//! to one update in 150 ms, but for the last, which always comes.
use vstd::prelude::*;
use vstd::string::*;
use vstd::utf8::encode_utf8;

use crate::backup::{BackupReport, BackupTotals};
use crate::compression::capped;
use crate::restore::{RestoreReport, RestoreTotals};
use crate::span::Span;
use crate::text::{
    decimal, fixed_point, law_rounding, push_decimal, push_hundredths, round_ratio,
    round_ratio_up, rounded, rounded_up,
};

verus! {

/// The least time between two updates but for the last, in nanoseconds.
pub const MIN_INTERVAL_NANOS: u128 = 150_000_000;

/// How progress is shown.
#[derive(Debug, Clone, Copy, PartialEq, Eq, Structural)]
pub enum Mode {
    /// Not at all.
    Quiet,
    /// As one object per line, for programs.
    Json,
    /// As a line that is written over.
    Tty,
    /// As one line per update.
    Plain,
}

/// What is to be written.
#[derive(Debug, Clone, PartialEq, Eq)]
pub enum Rendered {
    /// Nothing.
    Nothing,
    /// The event with this number, as an object.
    Event {
        /// The number, counted from one.
        seq: u64,
    },
    /// This text.
    Text(String),
}

/// Shows progress.
#[derive(Debug, Clone, Copy, PartialEq, Eq, Structural)]
pub struct ProgressReporter {
    /// How it is shown.
    pub mode: Mode,
    /// When it was last shown, from the start.
    pub last_render: Option<Span>,
    /// How many bytes the line has that is to be written over.
    pub last_tty_len: usize,
    /// How many events there were.
    pub seq: u64,
}

/// How progress is shown: being quiet comes before all else.
pub open spec fn mode_for(quiet: bool, json: bool, terminal: bool) -> Mode {
    if quiet {
        Mode::Quiet
    } else if json {
        Mode::Json
    } else if terminal {
        Mode::Tty
    } else {
        Mode::Plain
    }
}

/// Whether an update is shown now.
pub open spec fn render_due(last: Option<Span>, now: Span, final_tick: bool) -> bool {
    final_tick || match last {
        None => true,
        Some(t) => now.nanos - t.nanos >= MIN_INTERVAL_NANOS,
    }
}

/// Mebibytes per second, as a quotient; zero before any time has passed.
pub open spec fn rate_of(bytes: int, nanos: int) -> (int, int) {
    if nanos == 0 {
        (0, 1)
    } else {
        (bytes * 1_000_000_000, nanos * 1_048_576)
    }
}

/// The seconds left at the rate so far, as a quotient; not known before
/// anything is done, before any time has passed, or once all is done.
pub open spec fn eta_of(total: int, done: int, nanos: int) -> Option<(int, int)> {
    if done == 0 || total <= done || nanos == 0 {
        None
    } else {
        Some(((total - done) * nanos, done * 1_000_000_000))
    }
}

/// Mebibytes per second, as numerator and denominator.
#[must_use]
pub fn mb_per_sec(bytes: u64, elapsed: Span) -> (r: (u128, u128))
    requires
        elapsed.nanos <= u64::MAX,
    ensures
        r.0 == rate_of(bytes as int, elapsed.nanos as int).0,
        r.1 == rate_of(bytes as int, elapsed.nanos as int).1,
        r.1 > 0,
        r.0 <= u64::MAX * 1_000_000_000,
        r.1 <= u64::MAX * 1_048_576,
{
    if elapsed.is_zero() {
        (0, 1)
    } else {
        (bytes as u128 * 1_000_000_000, elapsed.nanos * 1_048_576)
    }
}

/// The seconds left at the rate so far, as numerator and denominator.
#[must_use]
pub fn eta_secs(total: u64, done: u64, elapsed: Span) -> (r: Option<(u128, u128)>)
    requires
        elapsed.nanos <= u64::MAX,
    ensures
        match r {
            None => eta_of(total as int, done as int, elapsed.nanos as int) is None,
            Some((num, den)) => {
                &&& eta_of(total as int, done as int, elapsed.nanos as int) == Some(
                    (num as int, den as int),
                )
                &&& den > 0
                &&& num < u128::MAX
                &&& den <= u64::MAX * 1_000_000_000
            },
        },
{
    if done == 0 || total <= done || elapsed.is_zero() {
        return None;
    }
    let left: u64 = total - done;
    proof {
        let (a, b) = (left as int, elapsed.nanos as int);
        assert(0 <= a * b <= 0xffff_ffff_ffff_ffff * 0xffff_ffff_ffff_ffff) by (nonlinear_arith)
            requires
                0 <= a <= 0xffff_ffff_ffff_ffff,
                0 <= b <= 0xffff_ffff_ffff_ffff,
        ;
    }
    Some((left as u128 * elapsed.nanos, done as u128 * 1_000_000_000))
}

/// What is said of the time left.
pub open spec fn eta_text(eta: Option<(int, int)>) -> Seq<char> {
    match eta {
        None => Seq::empty(),
        Some((num, den)) => ", ETA ~"@ + decimal(rounded_up(num, den) as nat) + "s"@,
    }
}

/// A rate with two decimals.
pub open spec fn rate_text(rate: (int, int)) -> Seq<char> {
    fixed_point(rounded(100 * rate.0, rate.1) as nat, 2)
}

fn eta_suffix(eta: Option<(u128, u128)>) -> (r: String)
    requires
        eta matches Some((num, den)) ==> den > 0 && num < u128::MAX && den <= u64::MAX
            * 1_000_000_000,
    ensures
        r@ == eta_text(
            match eta {
                None => None,
                Some((num, den)) => Some((num as int, den as int)),
            },
        ),
{
    match eta {
        None => {
            let out: String = String::new();
            proof {
                assert(out@ =~= Seq::<char>::empty());
            }
            out
        },
        Some((num, den)) => {
            let mut out: String = ", ETA ~".to_owned();
            push_decimal(&mut out, round_ratio_up(num, den));
            out.push_str("s");
            out
        },
    }
}

fn push_count(out: &mut String, n: u64, label: &str)
    ensures
        final(out)@ == old(out)@ + decimal(n as nat) + label@,
{
    push_decimal(out, n as u128);
    out.push_str(label);
}

fn push_rate(out: &mut String, rate: (u128, u128))
    requires
        rate.1 > 0,
        rate.0 <= u64::MAX * 1_000_000_000,
        rate.1 <= u64::MAX * 1_048_576,
    ensures
        final(out)@ == old(out)@ + rate_text((rate.0 as int, rate.1 as int)),
{
    push_hundredths(out, round_ratio(100 * rate.0, rate.1));
}

/// A backup's progress line.
pub open spec fn backup_line(report: BackupReport, totals: BackupTotals, nanos: int) -> Seq<char> {
    "backup: "@ + decimal(report.files as nat) + "/"@ + decimal(totals.total_files as nat)
        + " files, "@ + decimal(report.chunks_total as nat) + " chunks hashed, "@ + decimal(
        report.chunks_unique as nat,
    ) + " to ship, "@ + decimal(report.chunks_uploaded as nat) + " shipped, "@ + decimal(
        report.upload_bytes as nat,
    ) + " bytes up, "@ + rate_text(rate_of(report.upload_bytes as int, nanos)) + " MB/s"@
        + eta_text(eta_of(totals.total_files as int, report.files as int, nanos))
}

/// A restore's progress line.
pub open spec fn restore_line(report: RestoreReport, totals: RestoreTotals, nanos: int) -> Seq<
    char,
> {
    "restore: "@ + decimal(report.files as nat) + "/"@ + decimal(totals.total_files as nat)
        + " files, "@ + decimal(report.chunks_fetched as nat) + " chunks fetched, "@ + decimal(
        report.bytes as nat,
    ) + "/"@ + decimal(totals.total_bytes as nat) + " bytes down, "@ + rate_text(
        rate_of(report.bytes as int, nanos),
    ) + " MB/s"@ + eta_text(eta_of(totals.total_bytes as int, report.bytes as int, nanos))
}

/// So many spaces.
pub open spec fn spaces(n: int) -> Seq<char> {
    Seq::new(
        if n < 0 {
            0
        } else {
            n as nat
        },
        |i: int| ' ',
    )
}

/// What is written for a line: on a terminal over the line before, with spaces
/// over what is left of it, and ended if it is the last; else as a line.
pub open spec fn written(mode: Mode, last_len: int, line: Seq<char>, final_tick: bool) -> Seq<
    char,
> {
    if mode == Mode::Tty {
        let over = seq!['\r'] + line + spaces(last_len - encode_utf8(line).len());
        if final_tick {
            over.push('\n')
        } else {
            over
        }
    } else {
        line.push('\n')
    }
}

impl ProgressReporter {
    /// Starts showing progress.
    #[must_use]
    pub fn new(quiet: bool, json: bool, terminal: bool) -> (r: Self)
        ensures
            r.mode == mode_for(quiet, json, terminal),
            r.last_render is None,
            r.last_tty_len == 0,
            r.seq == 0,
    {
        let mode: Mode = if quiet {
            Mode::Quiet
        } else if json {
            Mode::Json
        } else if terminal {
            Mode::Tty
        } else {
            Mode::Plain
        };
        ProgressReporter { mode, last_render: None, last_tty_len: 0, seq: 0 }
    }

    fn should_render(&mut self, now: Span, final_tick: bool) -> (r: bool)
        ensures
            r == render_due(old(self).last_render, now, final_tick),
            *final(self) == if r {
                ProgressReporter { last_render: Some(now), ..*old(self) }
            } else {
                *old(self)
            },
    {
        let due: bool = final_tick || match self.last_render {
            None => true,
            Some(t) => now.nanos >= t.nanos && now.nanos - t.nanos >= MIN_INTERVAL_NANOS,
        };
        if due {
            self.last_render = Some(now);
        }
        due
    }

    fn emit_line(&mut self, line: &str, final_tick: bool) -> (r: String)
        ensures
            r@ == written(old(self).mode, old(self).last_tty_len as int, line@, final_tick),
            final(self).mode == old(self).mode,
            final(self).last_render == old(self).last_render,
            final(self).seq == old(self).seq,
            final(self).last_tty_len == if old(self).mode != Mode::Tty {
                old(self).last_tty_len as int
            } else if final_tick {
                0
            } else {
                encode_utf8(line@).len() as int
            },
    {
        if self.mode != Mode::Tty {
            let mut out: String = line.to_owned();
            out.push('\n');
            return out;
        }
        let len: usize = line.as_bytes().len();
        let mut out: String = String::new();
        out.push('\r');
        out.push_str(line);
        let ghost over = seq!['\r'] + line@;
        proof {
            assert(out@ =~= over);
            assert(out@ =~= over + spaces(0));
        }
        let mut n: usize = len;
        while n < self.last_tty_len
            invariant
                len <= n,
                n == len || n <= self.last_tty_len,
                out@ == over + spaces(n - len),
            decreases self.last_tty_len - n,
        {
            out.push(' ');
            n = n + 1;
            proof {
                assert(out@ =~= over + spaces(n - len));
            }
        }
        proof {
            assert(spaces(n - len) =~= spaces(self.last_tty_len - len));
        }
        if final_tick {
            out.push('\n');
            self.last_tty_len = 0;
        } else {
            self.last_tty_len = len;
        }
        out
    }

    fn render(&mut self, line: String, final_tick: bool) -> (r: Rendered)
        requires
            old(self).mode != Mode::Quiet,
        ensures
            final(self).mode == old(self).mode,
            final(self).last_render == old(self).last_render,
            match old(self).mode {
                Mode::Json => {
                    &&& r == (Rendered::Event { seq: capped(old(self).seq + 1) })
                    &&& final(self).seq == capped(old(self).seq + 1)
                    &&& final(self).last_tty_len == old(self).last_tty_len
                },
                _ => {
                    &&& r matches Rendered::Text(t) && t@ == written(
                        old(self).mode,
                        old(self).last_tty_len as int,
                        line@,
                        final_tick,
                    )
                    &&& final(self).seq == old(self).seq
                    &&& final(self).last_tty_len == line_left(
                        old(self).mode,
                        old(self).last_tty_len as int,
                        line@,
                        final_tick,
                    )
                },
            },
    {
        match self.mode {
            Mode::Json => {
                self.seq = self.seq.saturating_add(1);
                Rendered::Event { seq: self.seq }
            },
            _ => Rendered::Text(self.emit_line(line.as_str(), final_tick)),
        }
    }

    /// Shows how far a backup is.
    pub fn backup_tick(
        &mut self,
        report: &BackupReport,
        totals: BackupTotals,
        elapsed: Span,
        final_tick: bool,
    ) -> (r: Rendered)
        requires
            elapsed.nanos <= u64::MAX,
        ensures
            shown(
                *old(self),
                *final(self),
                r,
                elapsed,
                final_tick,
                backup_line(*report, totals, elapsed.nanos as int),
            ),
    {
        if self.mode == Mode::Quiet || !self.should_render(elapsed, final_tick) {
            return Rendered::Nothing;
        }
        let mut line: String = "backup: ".to_owned();
        push_count(&mut line, report.files, "/");
        push_count(&mut line, totals.total_files, " files, ");
        push_count(&mut line, report.chunks_total, " chunks hashed, ");
        push_count(&mut line, report.chunks_unique, " to ship, ");
        push_count(&mut line, report.chunks_uploaded, " shipped, ");
        push_count(&mut line, report.upload_bytes, " bytes up, ");
        push_rate(&mut line, mb_per_sec(report.upload_bytes, elapsed));
        line.push_str(" MB/s");
        let eta: Option<(u128, u128)> = eta_secs(totals.total_files, report.files, elapsed);
        line.push_str(eta_suffix(eta).as_str());
        self.render(line, final_tick)
    }

    /// Shows how far a restore is.
    pub fn restore_tick(
        &mut self,
        report: &RestoreReport,
        totals: RestoreTotals,
        elapsed: Span,
        final_tick: bool,
    ) -> (r: Rendered)
        requires
            elapsed.nanos <= u64::MAX,
        ensures
            shown(
                *old(self),
                *final(self),
                r,
                elapsed,
                final_tick,
                restore_line(*report, totals, elapsed.nanos as int),
            ),
    {
        if self.mode == Mode::Quiet || !self.should_render(elapsed, final_tick) {
            return Rendered::Nothing;
        }
        let mut line: String = "restore: ".to_owned();
        push_count(&mut line, report.files, "/");
        push_count(&mut line, totals.total_files, " files, ");
        push_count(&mut line, report.chunks_fetched, " chunks fetched, ");
        push_count(&mut line, report.bytes, "/");
        push_count(&mut line, totals.total_bytes, " bytes down, ");
        push_rate(&mut line, mb_per_sec(report.bytes, elapsed));
        line.push_str(" MB/s");
        let eta: Option<(u128, u128)> = eta_secs(totals.total_bytes, report.bytes, elapsed);
        line.push_str(eta_suffix(eta).as_str());
        self.render(line, final_tick)
    }

    /// Ends showing progress. `true` if a line on the terminal is still to be
    /// ended: one was written, and not as the last.
    pub fn finish(&mut self) -> (r: bool)
        ensures
            r == (old(self).mode == Mode::Tty && old(self).last_tty_len > 0),
            *final(self) == if r {
                ProgressReporter { last_tty_len: 0, ..*old(self) }
            } else {
                *old(self)
            },
    {
        if self.mode == Mode::Tty && self.last_tty_len > 0 {
            self.last_tty_len = 0;
            true
        } else {
            false
        }
    }
}

/// How many bytes of the terminal's line are to be written over next.
pub open spec fn line_left(mode: Mode, last_len: int, line: Seq<char>, final_tick: bool) -> int {
    if mode != Mode::Tty {
        last_len
    } else if final_tick {
        0
    } else {
        encode_utf8(line).len() as int
    }
}

/// Whether an update was shown as it should: nothing when quiet or too early,
/// else the next event, or the line.
pub open spec fn shown(
    before: ProgressReporter,
    after: ProgressReporter,
    r: Rendered,
    now: Span,
    final_tick: bool,
    line: Seq<char>,
) -> bool {
    if before.mode == Mode::Quiet || !render_due(before.last_render, now, final_tick) {
        r is Nothing && after == before
    } else {
        &&& after.mode == before.mode
        &&& after.last_render == Some(now)
        &&& match before.mode {
            Mode::Json => {
                &&& r == (Rendered::Event { seq: capped(before.seq + 1) })
                &&& after.seq == capped(before.seq + 1)
                &&& after.last_tty_len == before.last_tty_len
            },
            _ => {
                &&& r matches Rendered::Text(t) && t@ == written(
                    before.mode,
                    before.last_tty_len as int,
                    line,
                    final_tick,
                )
                &&& after.seq == before.seq
                &&& after.last_tty_len == line_left(
                    before.mode,
                    before.last_tty_len as int,
                    line,
                    final_tick,
                )
            },
        }
    }
}

/// The last update of a run is always shown unless quiet, and quiet shows
/// nothing at all.
pub proof fn law_last_update_is_shown(
    before: ProgressReporter,
    after: ProgressReporter,
    r: Rendered,
    now: Span,
    final_tick: bool,
    line: Seq<char>,
)
    requires
        shown(before, after, r, now, final_tick, line),
    ensures
        before.mode == Mode::Quiet ==> r is Nothing,
        before.mode != Mode::Quiet && final_tick ==> !(r is Nothing),
{
}

/// Two updates that are not last are never shown within the least interval.
pub proof fn law_updates_are_spaced(
    a: ProgressReporter,
    b: ProgressReporter,
    c: ProgressReporter,
    r1: Rendered,
    r2: Rendered,
    t1: Span,
    t2: Span,
    l1: Seq<char>,
    l2: Seq<char>,
)
    requires
        shown(a, b, r1, t1, false, l1),
        shown(b, c, r2, t2, false, l2),
        !(r1 is Nothing),
        !(r2 is Nothing),
    ensures
        t2.nanos - t1.nanos >= MIN_INTERVAL_NANOS,
{
}

/// Quiet goes before everything, objects go before lines, and a line is written
/// over only on a terminal.
pub proof fn law_modes(quiet: bool, json: bool, terminal: bool)
    ensures
        mode_for(quiet, json, terminal) == Mode::Quiet <==> quiet,
        mode_for(quiet, json, terminal) == Mode::Json <==> !quiet && json,
        mode_for(quiet, json, terminal) == Mode::Tty <==> !quiet && !json && terminal,
        mode_for(quiet, json, terminal) == Mode::Plain <==> !quiet && !json && !terminal,
{
}

/// The first update and the last are due; another is due just if 150
/// milliseconds have passed since the one shown before it.
pub proof fn law_updates_due(shown_at: Span, now: Span)
    ensures
        render_due(None, now, false),
        render_due(None, now, true),
        render_due(Some(shown_at), now, true),
        render_due(Some(shown_at), now, false) <==> now.nanos >= shown_at.nanos + 150 * 1_000_000,
{
}

/// The rate is in mebibytes of 1024 times 1024 bytes per second of time.
pub proof fn law_rate(bytes: int, nanos: int)
    requires
        bytes >= 0,
        nanos > 0,
    ensures
        ({
            let (num, den) = rate_of(bytes, nanos);
            &&& den > 0
            &&& num * (1024 * 1024 * nanos) == bytes * 1_000_000_000 * den
        }),
        ({
            let (num, den) = rate_of(bytes, 0);
            num == 0 && den > 0
        }),
{
    let (num, den) = rate_of(bytes, nanos);
    assert(num * (1_048_576 * nanos) == bytes * 1_000_000_000 * den) by (nonlinear_arith)
        requires
            num == bytes * 1_000_000_000,
            den == nanos * 1_048_576,
    ;
}

/// The time left is known just while some but not all is done and time has
/// passed; then what is left takes as long, by what is done, as that has taken.
pub proof fn law_time_left(total: int, done: int, nanos: int)
    requires
        0 <= total,
        0 <= done,
        0 <= nanos,
    ensures
        eta_of(total, done, nanos) is Some <==> 0 < done < total && nanos > 0,
        match eta_of(total, done, nanos) {
            Some((num, den)) => den > 0 && num * (1_000_000_000 * done) == (total - done) * nanos
                * den,
            None => true,
        },
{
    if 0 < done < total && nanos > 0 {
        let num = (total - done) * nanos;
        let den = done * 1_000_000_000;
        assert(num * (1_000_000_000 * done) == (total - done) * nanos * den) by (nonlinear_arith)
            requires
                num == (total - done) * nanos,
                den == done * 1_000_000_000,
        ;
    }
}

/// On a terminal a line goes over the one before: it starts at the left edge,
/// has as many spaces behind it as that one was longer, and is ended just if it
/// is the last. Elsewhere it is a line of its own.
pub proof fn law_lines_are_written_over(last_len: int, line: Seq<char>, final_tick: bool)
    requires
        0 <= last_len,
    ensures
        ({
            let w = written(Mode::Tty, last_len, line, final_tick);
            let end = if final_tick {
                w.len() - 1
            } else {
                w.len() as int
            };
            let len = encode_utf8(line).len();
            &&& w.len() > line.len()
            &&& w[0] == '\r'
            &&& w.subrange(1, (1 + line.len()) as int) == line
            &&& end - 1 - line.len() == if last_len > len {
                last_len - len
            } else {
                0
            }
            &&& forall|i: int| 1 + line.len() <= i < end ==> #[trigger] w[i] == ' '
            &&& final_tick ==> w[end] == '\n'
        }),
        written(Mode::Plain, last_len, line, final_tick) == line + seq!['\n'],
{
    let w = written(Mode::Tty, last_len, line, final_tick);
    assert(w.subrange(1, (1 + line.len()) as int) =~= line);
    assert(written(Mode::Plain, last_len, line, final_tick) =~= line + seq!['\n']);
}

/// Whether a line holds a number between two texts.
pub open spec fn tells(line: Seq<char>, front: Seq<char>, n: nat, behind: Seq<char>) -> bool {
    exists|a: Seq<char>, b: Seq<char>|
        line == #[trigger] (a + (front + decimal(n) + behind) + b)
}

/// A number that a line tells, and the line seen from in front of it.
pub proof fn lemma_tells(
    line: Seq<char>,
    before: Seq<char>,
    front: Seq<char>,
    n: nat,
    behind: Seq<char>,
    rest: Seq<char>,
)
    requires
        line == before + front + decimal(n) + (behind + rest),
    ensures
        tells(line, front, n, behind),
        line == before + (front + (decimal(n) + (behind + rest))),
{
    assert(line =~= before + (front + decimal(n) + behind) + rest);
    assert(line =~= before + (front + (decimal(n) + (behind + rest))));
}

/// A backup's line tells the files and chunks so far, what is new, what was
/// shipped, and the bytes of that, each in front of its own words; the rate is
/// that of the shipped bytes, the time left that of the files.
pub proof fn law_backup_line_tells(report: BackupReport, totals: BackupTotals, nanos: int)
    ensures
        ({
            let line = backup_line(report, totals, nanos);
            &&& tells(line, "backup: "@, report.files as nat, "/"@)
            &&& tells(line, "/"@, totals.total_files as nat, " files, "@)
            &&& tells(line, " files, "@, report.chunks_total as nat, " chunks hashed, "@)
            &&& tells(line, " chunks hashed, "@, report.chunks_unique as nat, " to ship, "@)
            &&& tells(line, " to ship, "@, report.chunks_uploaded as nat, " shipped, "@)
            &&& tells(line, " shipped, "@, report.upload_bytes as nat, " bytes up, "@)
            &&& exists|a: Seq<char>|
                line == #[trigger] (a + (" bytes up, "@ + (rate_text(
                    rate_of(report.upload_bytes as int, nanos),
                ) + " MB/s"@ + eta_text(
                    eta_of(totals.total_files as int, report.files as int, nanos),
                ))))
        }),
{
    let line = backup_line(report, totals, nanos);
    let p1 = "backup: "@ + decimal(report.files as nat);
    let p2 = p1 + "/"@ + decimal(totals.total_files as nat);
    let p3 = p2 + " files, "@ + decimal(report.chunks_total as nat);
    let p4 = p3 + " chunks hashed, "@ + decimal(report.chunks_unique as nat);
    let p5 = p4 + " to ship, "@ + decimal(report.chunks_uploaded as nat);
    let p6 = p5 + " shipped, "@ + decimal(report.upload_bytes as nat);
    let rate = rate_text(rate_of(report.upload_bytes as int, nanos));
    let eta = eta_text(eta_of(totals.total_files as int, report.files as int, nanos));
    let r6 = rate + " MB/s"@ + eta;
    let r5 = decimal(report.upload_bytes as nat) + (" bytes up, "@ + r6);
    let r4 = decimal(report.chunks_uploaded as nat) + (" shipped, "@ + r5);
    let r3 = decimal(report.chunks_unique as nat) + (" to ship, "@ + r4);
    let r2 = decimal(report.chunks_total as nat) + (" chunks hashed, "@ + r3);
    let r1 = decimal(totals.total_files as nat) + (" files, "@ + r2);
    assert(line == p6 + " bytes up, "@ + rate + " MB/s"@ + eta);
    assert(p6 + " bytes up, "@ + rate + " MB/s"@ + eta =~= p6 + (" bytes up, "@ + r6));
    lemma_tells(line, p5, " shipped, "@, report.upload_bytes as nat, " bytes up, "@, r6);
    lemma_tells(line, p4, " to ship, "@, report.chunks_uploaded as nat, " shipped, "@, r5);
    lemma_tells(line, p3, " chunks hashed, "@, report.chunks_unique as nat, " to ship, "@, r4);
    lemma_tells(line, p2, " files, "@, report.chunks_total as nat, " chunks hashed, "@, r3);
    lemma_tells(line, p1, "/"@, totals.total_files as nat, " files, "@, r2);
    assert(Seq::<char>::empty() + "backup: "@ =~= "backup: "@);
    lemma_tells(line, Seq::empty(), "backup: "@, report.files as nat, "/"@, r1);
}

/// A restore's line tells the files, chunks and bytes so far, each in front of
/// its own words, and how many files and bytes there are in all; the rate and
/// the time left are those of the bytes.
pub proof fn law_restore_line_tells(report: RestoreReport, totals: RestoreTotals, nanos: int)
    ensures
        ({
            let line = restore_line(report, totals, nanos);
            &&& tells(line, "restore: "@, report.files as nat, "/"@)
            &&& tells(line, "/"@, totals.total_files as nat, " files, "@)
            &&& tells(line, " files, "@, report.chunks_fetched as nat, " chunks fetched, "@)
            &&& tells(line, " chunks fetched, "@, report.bytes as nat, "/"@)
            &&& tells(line, "/"@, totals.total_bytes as nat, " bytes down, "@)
            &&& exists|a: Seq<char>|
                line == #[trigger] (a + (" bytes down, "@ + (rate_text(
                    rate_of(report.bytes as int, nanos),
                ) + " MB/s"@ + eta_text(
                    eta_of(totals.total_bytes as int, report.bytes as int, nanos),
                ))))
        }),
{
    let line = restore_line(report, totals, nanos);
    let p1 = "restore: "@ + decimal(report.files as nat);
    let p2 = p1 + "/"@ + decimal(totals.total_files as nat);
    let p3 = p2 + " files, "@ + decimal(report.chunks_fetched as nat);
    let p4 = p3 + " chunks fetched, "@ + decimal(report.bytes as nat);
    let p5 = p4 + "/"@ + decimal(totals.total_bytes as nat);
    let rate = rate_text(rate_of(report.bytes as int, nanos));
    let eta = eta_text(eta_of(totals.total_bytes as int, report.bytes as int, nanos));
    let r5 = rate + " MB/s"@ + eta;
    let r4 = decimal(totals.total_bytes as nat) + (" bytes down, "@ + r5);
    let r3 = decimal(report.bytes as nat) + ("/"@ + r4);
    let r2 = decimal(report.chunks_fetched as nat) + (" chunks fetched, "@ + r3);
    let r1 = decimal(totals.total_files as nat) + (" files, "@ + r2);
    assert(line == p5 + " bytes down, "@ + rate + " MB/s"@ + eta);
    assert(p5 + " bytes down, "@ + rate + " MB/s"@ + eta =~= p5 + (" bytes down, "@ + r5));
    lemma_tells(line, p4, "/"@, totals.total_bytes as nat, " bytes down, "@, r5);
    lemma_tells(line, p3, " chunks fetched, "@, report.bytes as nat, "/"@, r4);
    lemma_tells(line, p2, " files, "@, report.chunks_fetched as nat, " chunks fetched, "@, r3);
    lemma_tells(line, p1, "/"@, totals.total_files as nat, " files, "@, r2);
    assert(Seq::<char>::empty() + "restore: "@ =~= "restore: "@);
    lemma_tells(line, Seq::empty(), "restore: "@, report.files as nat, "/"@, r1);
}

/// The time left is shown in whole seconds, off by at most a half, and the rate
/// in hundredths, off by at most half of one; an unknown time is not shown.
pub proof fn law_rate_and_time_are_near(num: int, den: int)
    requires
        num >= 0,
        den > 0,
    ensures
        exists|v: nat|
            eta_text(Some((num, den))) == #[trigger] (", ETA ~"@ + decimal(v) + "s"@) && -den < 2
                * (v * den - num) <= den,
        exists|v: nat|
            rate_text((num, den)) == #[trigger] fixed_point(v, 2) && -den <= 2 * (v * den - 100
                * num) <= den,
        eta_text(None) == Seq::<char>::empty(),
{
    law_rounding(num, den);
    law_rounding(100 * num, den);
    assert(num / den >= 0 && (100 * num) / den >= 0) by (nonlinear_arith)
        requires
            num >= 0,
            den > 0,
    ;
    let v = rounded_up(num, den) as nat;
    assert(v * den == rounded_up(num, den) * den);
    assert(eta_text(Some((num, den))) == ", ETA ~"@ + decimal(v) + "s"@);
    let w = rounded(100 * num, den) as nat;
    assert(w * den == rounded(100 * num, den) * den);
    assert(rate_text((num, den)) == fixed_point(w, 2));
}

/// An update that is shown as an object has the next number, one that is shown
/// as text is written as its line says, and the reporter remembers when.
pub proof fn law_shown_updates_are_remembered(
    before: ProgressReporter,
    after: ProgressReporter,
    r: Rendered,
    now: Span,
    final_tick: bool,
    line: Seq<char>,
)
    requires
        shown(before, after, r, now, final_tick, line),
    ensures
        r is Nothing ==> after == before,
        !(r is Nothing) ==> after.last_render == Some(now) && after.mode == before.mode,
        before.mode != Mode::Quiet && render_due(before.last_render, now, final_tick) ==> !(
        r is Nothing),
        before.mode == Mode::Json && !(r is Nothing) && before.seq < u64::MAX ==> r == (
        Rendered::Event { seq: (before.seq + 1) as u64 }) && after.seq == before.seq + 1,
        before.mode == Mode::Tty && !(r is Nothing) ==> after.last_tty_len == if final_tick {
            0
        } else {
            encode_utf8(line).len()
        },
        before.mode == Mode::Plain && !(r is Nothing) ==> (r matches Rendered::Text(t) && t@ == line
            + seq!['\n']),
{
    assert(line.push('\n') =~= line + seq!['\n']);
}

} // verus!
