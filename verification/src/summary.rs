//! What the commands say when they are done.
use vstd::prelude::*;
use vstd::string::*;

use crate::backup::BackupReport;
use crate::progress::{lemma_tells, tells};
use crate::restore::RestoreReport;
use crate::snapshot_id::ulid_text;
use crate::snapshots::SnapshotEntry;
use crate::status::{line_views, render_snapshot, snapshot_line};
use crate::text::{decimal, push_decimal};

verus! {

fn push_count(out: &mut String, n: u64, label: &str)
    ensures
        final(out)@ == old(out)@ + decimal(n as nat) + label@,
{
    push_decimal(out, n as u128);
    out.push_str(label);
}

/// A number with its sign.
pub open spec fn signed(n: int) -> Seq<char> {
    if n < 0 {
        "-"@ + decimal((-n) as nat)
    } else {
        decimal(n as nat)
    }
}

fn push_signed(out: &mut String, n: i64)
    ensures
        final(out)@ == old(out)@ + signed(n as int),
{
    if n < 0 {
        let ghost before = out@;
        out.push_str("-");
        push_decimal(out, (-(n as i128)) as u128);
        proof {
            assert(out@ =~= before + signed(n as int));
        }
    } else {
        push_decimal(out, n as u128);
    }
}

/// What a backup says.
pub open spec fn backup_summary(r: BackupReport, daemon: Seq<char>) -> Seq<Seq<char>> {
    seq![
        "snapshot "@ + ulid_text(r.snapshot_id.value) + " stored on "@ + daemon,
        "  "@ + decimal(r.files as nat) + " file(s), "@ + decimal(r.source_bytes as nat)
            + " bytes scanned; "@ + decimal(r.chunks_total as nat) + " chunk refs ("@ + decimal(
            r.chunks_unique as nat,
        ) + " unique)"@,
        "  shipped "@ + decimal(r.chunks_uploaded as nat) + " new chunk(s) = "@ + decimal(
            r.upload_bytes as nat,
        ) + " encrypted bytes; "@ + decimal(r.chunks_deduped as nat) + " deduplicated; manifest "@
            + decimal(r.manifest_bytes as nat) + " bytes (encrypted)"@,
        "  compression: "@ + decimal(r.compression.raw as nat) + " raw, "@ + decimal(
            r.compression.zstd3 as nat,
        ) + " zstd3, "@ + decimal(r.compression.escalated as nat) + " escalated ("@ + decimal(
            if r.compression.bytes_in >= r.compression.bytes_out {
                (r.compression.bytes_in - r.compression.bytes_out) as nat
            } else {
                0
            },
        ) + " bytes saved)"@,
    ]
}

/// Says what a backup did.
#[must_use]
pub fn render_backup(report: &BackupReport, daemon: &str) -> (r: Vec<String>)
    ensures
        line_views(r@) == backup_summary(*report, daemon@),
{
    let id: String = report.snapshot_id.to_string();
    let mut stored: String = "snapshot ".to_owned();
    stored.push_str(id.as_str());
    stored.push_str(" stored on ");
    stored.push_str(daemon);
    let mut scanned: String = "  ".to_owned();
    push_count(&mut scanned, report.files, " file(s), ");
    push_count(&mut scanned, report.source_bytes, " bytes scanned; ");
    push_count(&mut scanned, report.chunks_total, " chunk refs (");
    push_count(&mut scanned, report.chunks_unique, " unique)");
    let mut shipped: String = "  shipped ".to_owned();
    push_count(&mut shipped, report.chunks_uploaded, " new chunk(s) = ");
    push_count(&mut shipped, report.upload_bytes, " encrypted bytes; ");
    push_count(&mut shipped, report.chunks_deduped, " deduplicated; manifest ");
    push_count(&mut shipped, report.manifest_bytes, " bytes (encrypted)");
    let mut packed: String = "  compression: ".to_owned();
    push_count(&mut packed, report.compression.raw, " raw, ");
    push_count(&mut packed, report.compression.zstd3, " zstd3, ");
    push_count(&mut packed, report.compression.escalated, " escalated (");
    push_count(&mut packed, report.compression.bytes_saved(), " bytes saved)");
    let mut out: Vec<String> = Vec::new();
    out.push(stored);
    out.push(scanned);
    out.push(shipped);
    out.push(packed);
    proof {
        assert(line_views(out@) =~= backup_summary(*report, daemon@));
    }
    out
}

/// What a restore says.
pub open spec fn restore_summary(r: RestoreReport, target: Seq<char>) -> Seq<Seq<char>> {
    seq![
        "snapshot "@ + ulid_text(r.snapshot_id.value) + " restored to "@ + target,
        "  "@ + decimal(r.files as nat) + " file(s), "@ + decimal(r.bytes as nat)
            + " bytes written, "@ + decimal(r.chunks_fetched as nat)
            + " chunk(s) fetched and verified"@,
    ]
}

/// Says what a restore did.
#[must_use]
pub fn render_restore(report: &RestoreReport, target: &str) -> (r: Vec<String>)
    ensures
        line_views(r@) == restore_summary(*report, target@),
{
    let id: String = report.snapshot_id.to_string();
    let mut restored: String = "snapshot ".to_owned();
    restored.push_str(id.as_str());
    restored.push_str(" restored to ");
    restored.push_str(target);
    let mut written: String = "  ".to_owned();
    push_count(&mut written, report.files, " file(s), ");
    push_count(&mut written, report.bytes, " bytes written, ");
    push_count(&mut written, report.chunks_fetched, " chunk(s) fetched and verified");
    let mut out: Vec<String> = Vec::new();
    out.push(restored);
    out.push(written);
    proof {
        assert(line_views(out@) =~= restore_summary(*report, target@));
    }
    out
}

/// Whether lines list snapshots, oldest first.
pub open spec fn lists(
    lines: Seq<Seq<char>>,
    entries: Seq<SnapshotEntry>,
    daemon: Seq<char>,
) -> bool {
    if entries.len() == 0 {
        lines == seq!["no snapshots stored on "@ + daemon]
    } else {
        &&& lines.len() == entries.len() + 1
        &&& lines[0] == decimal(entries.len()) + " snapshot(s) on "@ + daemon + " (oldest first):"@
        &&& forall|i: int|
            #![trigger entries[i]]
            0 <= i < entries.len() ==> snapshot_line(lines[i + 1], entries[i])
    }
}

/// Lists the snapshots that a daemon holds.
#[must_use]
pub fn render_list(entries: &Vec<SnapshotEntry>, daemon: &str) -> (r: Vec<String>)
    ensures
        lists(line_views(r@), entries@, daemon@),
{
    let mut out: Vec<String> = Vec::new();
    if entries.len() == 0 {
        let mut none: String = "no snapshots stored on ".to_owned();
        none.push_str(daemon);
        out.push(none);
        proof {
            assert(line_views(out@) =~= seq!["no snapshots stored on "@ + daemon@]);
        }
        return out;
    }
    let mut head: String = String::new();
    push_decimal(&mut head, entries.len() as u128);
    proof {
        assert(head@ =~= decimal(entries@.len()));
    }
    head.push_str(" snapshot(s) on ");
    head.push_str(daemon);
    head.push_str(" (oldest first):");
    out.push(head);
    let mut i: usize = 0;
    while i < entries.len()
        invariant
            i <= entries@.len(),
            out@.len() == i + 1,
            out@[0]@ == decimal(entries@.len()) + " snapshot(s) on "@ + daemon@
                + " (oldest first):"@,
            forall|k: int|
                #![trigger entries@[k]]
                0 <= k < i ==> snapshot_line(out@[k + 1]@, entries@[k]),
        decreases entries@.len() - i,
    {
        out.push(render_snapshot(&entries[i]));
        i = i + 1;
    }
    proof {
        let views = line_views(out@);
        assert forall|k: int|
            #![trigger entries@[k]]
            0 <= k < entries@.len() implies snapshot_line(views[k + 1], entries@[k]) by {
            assert(views[k + 1] == out@[k + 1]@);
        }
    }
    out
}

/// What a scheduled backup says.
pub open spec fn tick_text(started_at_ms: int, r: BackupReport) -> Seq<char> {
    "[t="@ + signed(started_at_ms) + "ms] snapshot "@ + ulid_text(r.snapshot_id.value)
        + " stored: "@ + decimal(r.files as nat) + " file(s), "@ + decimal(
        r.chunks_uploaded as nat,
    ) + " chunk(s) shipped ("@ + decimal(r.upload_bytes as nat) + " bytes), "@ + decimal(
        r.chunks_deduped as nat,
    ) + " deduplicated"@
}

/// Says what a scheduled backup did.
#[must_use]
pub fn render_tick(started_at_ms: i64, report: &BackupReport) -> (r: String)
    ensures
        r@ == tick_text(started_at_ms as int, *report),
{
    let id: String = report.snapshot_id.to_string();
    let mut out: String = "[t=".to_owned();
    push_signed(&mut out, started_at_ms);
    out.push_str("ms] snapshot ");
    out.push_str(id.as_str());
    out.push_str(" stored: ");
    push_count(&mut out, report.files, " file(s), ");
    push_count(&mut out, report.chunks_uploaded, " chunk(s) shipped (");
    push_count(&mut out, report.upload_bytes, " bytes), ");
    push_count(&mut out, report.chunks_deduped, " deduplicated");
    out
}

/// What a scheduled backup says that failed.
pub open spec fn failed_tick_text(started_at_ms: int, why: Seq<char>) -> Seq<char> {
    "[t="@ + signed(started_at_ms) + "ms] backup attempt failed: "@ + why
}

/// Says that a scheduled backup failed, and why.
#[must_use]
pub fn render_failed_tick(started_at_ms: i64, why: &str) -> (r: String)
    ensures
        r@ == failed_tick_text(started_at_ms as int, why@),
{
    let mut out: String = "[t=".to_owned();
    push_signed(&mut out, started_at_ms);
    out.push_str("ms] backup attempt failed: ");
    out.push_str(why);
    out
}

/// What a backup says tells every figure of its ledger in front of its own
/// words, and names the snapshot and the daemon.
pub proof fn law_backup_summary_tells(r: BackupReport, daemon: Seq<char>)
    ensures
        ({
            let s = backup_summary(r, daemon);
            &&& s.len() == 4
            &&& s[0] == "snapshot "@ + ulid_text(r.snapshot_id.value) + " stored on "@ + daemon
            &&& tells(s[1], "  "@, r.files as nat, " file(s), "@)
            &&& tells(s[1], " file(s), "@, r.source_bytes as nat, " bytes scanned; "@)
            &&& tells(s[1], " bytes scanned; "@, r.chunks_total as nat, " chunk refs ("@)
            &&& tells(s[1], " chunk refs ("@, r.chunks_unique as nat, " unique)"@)
            &&& tells(s[2], "  shipped "@, r.chunks_uploaded as nat, " new chunk(s) = "@)
            &&& tells(s[2], " new chunk(s) = "@, r.upload_bytes as nat, " encrypted bytes; "@)
            &&& tells(
                s[2],
                " encrypted bytes; "@,
                r.chunks_deduped as nat,
                " deduplicated; manifest "@,
            )
            &&& tells(
                s[2],
                " deduplicated; manifest "@,
                r.manifest_bytes as nat,
                " bytes (encrypted)"@,
            )
            &&& tells(s[3], "  compression: "@, r.compression.raw as nat, " raw, "@)
            &&& tells(s[3], " raw, "@, r.compression.zstd3 as nat, " zstd3, "@)
            &&& tells(s[3], " zstd3, "@, r.compression.escalated as nat, " escalated ("@)
            &&& tells(s[3], " escalated ("@, r.compression.saved() as nat, " bytes saved)"@)
        }),
{
    let s = backup_summary(r, daemon);
    let none = Seq::<char>::empty();
    lemma_four(
        s[1],
        "  "@,
        r.files as nat,
        " file(s), "@,
        r.source_bytes as nat,
        " bytes scanned; "@,
        r.chunks_total as nat,
        " chunk refs ("@,
        r.chunks_unique as nat,
        " unique)"@,
    );
    lemma_four(
        s[2],
        "  shipped "@,
        r.chunks_uploaded as nat,
        " new chunk(s) = "@,
        r.upload_bytes as nat,
        " encrypted bytes; "@,
        r.chunks_deduped as nat,
        " deduplicated; manifest "@,
        r.manifest_bytes as nat,
        " bytes (encrypted)"@,
    );
    lemma_four(
        s[3],
        "  compression: "@,
        r.compression.raw as nat,
        " raw, "@,
        r.compression.zstd3 as nat,
        " zstd3, "@,
        r.compression.escalated as nat,
        " escalated ("@,
        r.compression.saved() as nat,
        " bytes saved)"@,
    );
}

/// A line of four numbers with words around them tells each of them.
proof fn lemma_four(
    line: Seq<char>,
    w0: Seq<char>,
    n1: nat,
    w1: Seq<char>,
    n2: nat,
    w2: Seq<char>,
    n3: nat,
    w3: Seq<char>,
    n4: nat,
    w4: Seq<char>,
)
    requires
        line == w0 + decimal(n1) + w1 + decimal(n2) + w2 + decimal(n3) + w3 + decimal(n4) + w4,
    ensures
        tells(line, w0, n1, w1),
        tells(line, w1, n2, w2),
        tells(line, w2, n3, w3),
        tells(line, w3, n4, w4),
{
    let none = Seq::<char>::empty();
    let p1 = w0 + decimal(n1);
    let p2 = p1 + w1 + decimal(n2);
    let p3 = p2 + w2 + decimal(n3);
    assert(w4 + none =~= w4);
    let r3 = decimal(n4) + (w4 + none);
    let r2 = decimal(n3) + (w3 + r3);
    let r1 = decimal(n2) + (w2 + r2);
    lemma_tells(line, p3, w3, n4, w4, none);
    lemma_tells(line, p2, w2, n3, w3, r3);
    lemma_tells(line, p1, w1, n2, w2, r2);
    assert(none + w0 =~= w0);
    lemma_tells(line, none, w0, n1, w1, r1);
}

/// What a restore says tells every figure of its ledger in front of its own
/// words, and names the snapshot and the target.
pub proof fn law_restore_summary_tells(r: RestoreReport, target: Seq<char>)
    ensures
        ({
            let s = restore_summary(r, target);
            &&& s.len() == 2
            &&& s[0] == "snapshot "@ + ulid_text(r.snapshot_id.value) + " restored to "@ + target
            &&& tells(s[1], "  "@, r.files as nat, " file(s), "@)
            &&& tells(s[1], " file(s), "@, r.bytes as nat, " bytes written, "@)
            &&& tells(
                s[1],
                " bytes written, "@,
                r.chunks_fetched as nat,
                " chunk(s) fetched and verified"@,
            )
        }),
{
    let line = restore_summary(r, target)[1];
    let none = Seq::<char>::empty();
    let p1 = "  "@ + decimal(r.files as nat);
    let p2 = p1 + " file(s), "@ + decimal(r.bytes as nat);
    let w3 = " chunk(s) fetched and verified"@;
    assert(w3 + none =~= w3);
    let r2 = decimal(r.chunks_fetched as nat) + (w3 + none);
    let r1 = decimal(r.bytes as nat) + (" bytes written, "@ + r2);
    lemma_tells(line, p2, " bytes written, "@, r.chunks_fetched as nat, w3, none);
    lemma_tells(line, p1, " file(s), "@, r.bytes as nat, " bytes written, "@, r2);
    assert(none + "  "@ =~= "  "@);
    lemma_tells(line, none, "  "@, r.files as nat, " file(s), "@, r1);
}

/// A listing has a line for each snapshot, in their order, behind a line with
/// their number; without any it says so.
pub proof fn law_listing_has_every_snapshot(
    lines: Seq<Seq<char>>,
    entries: Seq<SnapshotEntry>,
    daemon: Seq<char>,
    i: int,
)
    requires
        lists(lines, entries, daemon),
        0 <= i < entries.len(),
    ensures
        lines.len() == entries.len() + 1,
        tells(lines[0], Seq::empty(), entries.len(), " snapshot(s) on "@),
        snapshot_line(lines[i + 1], entries[i]),
{
    let none = Seq::<char>::empty();
    let d = decimal(entries.len());
    let rest = daemon + " (oldest first):"@;
    assert(none + none + d =~= d);
    assert(lines[0] =~= none + none + d + (" snapshot(s) on "@ + rest));
    lemma_tells(lines[0], none, none, entries.len(), " snapshot(s) on "@, rest);
    let e = entries[i];
}

/// What a scheduled backup says tells when it started, what it captured and
/// shipped, and what was there already.
pub proof fn law_tick_tells(started_at_ms: int, r: BackupReport)
    ensures
        ({
            let line = tick_text(started_at_ms, r);
            let head = "[t="@ + signed(started_at_ms) + "ms] snapshot "@ + ulid_text(
                r.snapshot_id.value,
            );
            &&& line.take(head.len() as int) == head
            &&& tells(line, " stored: "@, r.files as nat, " file(s), "@)
            &&& tells(line, " file(s), "@, r.chunks_uploaded as nat, " chunk(s) shipped ("@)
            &&& tells(line, " chunk(s) shipped ("@, r.upload_bytes as nat, " bytes), "@)
            &&& tells(line, " bytes), "@, r.chunks_deduped as nat, " deduplicated"@)
        }),
{
    let line = tick_text(started_at_ms, r);
    let head = "[t="@ + signed(started_at_ms) + "ms] snapshot "@ + ulid_text(r.snapshot_id.value);
    let none = Seq::<char>::empty();
    let p1 = head + " stored: "@ + decimal(r.files as nat);
    let p2 = p1 + " file(s), "@ + decimal(r.chunks_uploaded as nat);
    let p3 = p2 + " chunk(s) shipped ("@ + decimal(r.upload_bytes as nat);
    let w4 = " deduplicated"@;
    assert(w4 + none =~= w4);
    let r3 = decimal(r.chunks_deduped as nat) + (w4 + none);
    let r2 = decimal(r.upload_bytes as nat) + (" bytes), "@ + r3);
    let r1 = decimal(r.chunks_uploaded as nat) + (" chunk(s) shipped ("@ + r2);
    lemma_tells(line, p3, " bytes), "@, r.chunks_deduped as nat, w4, none);
    lemma_tells(line, p2, " chunk(s) shipped ("@, r.upload_bytes as nat, " bytes), "@, r3);
    lemma_tells(line, p1, " file(s), "@, r.chunks_uploaded as nat, " chunk(s) shipped ("@, r2);
    lemma_tells(line, head, " stored: "@, r.files as nat, " file(s), "@, r1);
    assert(line.take(head.len() as int) =~= head);
}

/// A number below zero has a minus sign in front of its size; any other is its
/// decimal text.
pub proof fn law_signed_numbers(n: int)
    ensures
        n >= 0 ==> signed(n) == decimal(n as nat),
        n < 0 ==> signed(n) == seq!['-'] + decimal((0 - n) as nat),
{
    reveal_strlit("-");
    assert("-"@ =~= seq!['-']);
}

/// What a scheduled backup says that failed is when it started, and why.
pub proof fn law_failed_tick_tells(started_at_ms: int, why: Seq<char>)
    ensures
        ({
            let line = failed_tick_text(started_at_ms, why);
            let head = "[t="@ + signed(started_at_ms) + "ms] "@;
            &&& line.len() >= head.len() + why.len()
            &&& line.take(head.len() as int) == head
            &&& line.skip(line.len() - why.len()) == why
        }),
{
    reveal_strlit("ms] ");
    reveal_strlit("ms] backup attempt failed: ");
    let line = failed_tick_text(started_at_ms, why);
    let head = "[t="@ + signed(started_at_ms) + "ms] "@;
    assert("ms] backup attempt failed: "@.take(4) =~= "ms] "@);
    assert(line.skip(line.len() - why.len()) =~= why);
    assert(line.take(head.len() as int) =~= head) by {
        let w = "ms] backup attempt failed: "@;
        assert(w[0] == 'm' && w[1] == 's' && w[2] == ']' && w[3] == ' ');
        assert("ms] "@.len() == 4);
        let n = "[t="@.len() + signed(started_at_ms).len();
        assert forall|i: int| 0 <= i < head.len() implies line[i] == head[i] by {
            if i >= n {
                assert(head[i] == "ms] "@[i - n]);
                assert(line[i] == w[i - n]);
            }
        }
    }
}

} // verus!
