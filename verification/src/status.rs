//! What a client shows of itself.
use vstd::prelude::*;
use vstd::string::*;

use crate::backup::BackupReport;
use crate::snapshot_id::ulid_text;
use crate::snapshots::{format_utc_ms, format_utc_secs, is_utc_text, SnapshotEntry};
use crate::text::{decimal, push_decimal};

verus! {

/// File of the last backup's record.
pub const LAST_BACKUP_FILE: &'static str = "last-backup.toml";

/// What a completed backup leaves behind.
#[derive(Debug, Clone, PartialEq, Eq)]
pub struct LastBackupRecord {
    /// The snapshot, in text form.
    pub snapshot_id: String,
    /// Its creation time, whole seconds since the Unix epoch.
    pub created_at: i64,
    /// Files captured.
    pub files: u64,
    /// Sealed bytes shipped.
    pub upload_bytes: u64,
    /// How long it took, in milliseconds.
    pub duration_ms: u64,
}

impl LastBackupRecord {
    /// The record of a completed backup.
    #[must_use]
    pub fn from_report(report: &BackupReport, created_at: i64, duration_ms: u64) -> (r: Self)
        ensures
            r.snapshot_id@ == ulid_text(report.snapshot_id.value),
            r.created_at == created_at,
            r.files == report.files,
            r.upload_bytes == report.upload_bytes,
            r.duration_ms == duration_ms,
    {
        LastBackupRecord {
            snapshot_id: report.snapshot_id.to_string(),
            created_at,
            files: report.files,
            upload_bytes: report.upload_bytes,
            duration_ms,
        }
    }
}

/// What there is to show.
#[derive(Debug, Clone, PartialEq, Eq)]
pub struct ClientStatus {
    /// The state directory.
    pub state_dir: String,
    /// The enrollment name, if there is one.
    pub name: Option<String>,
    /// The certificate's fingerprint, if there is one.
    pub cert_fingerprint: Option<String>,
    /// The daemon's endpoint, if it is known.
    pub daemon_url: Option<String>,
    /// The committed chunk size, if there is one.
    pub chunk_target_size: Option<String>,
    /// The last backup, if there was one.
    pub last_backup: Option<LastBackupRecord>,
    /// Whether a configuration was given.
    pub has_config: bool,
    /// The daemon's latest snapshots, oldest first, if it answered.
    pub recent: Option<Vec<SnapshotEntry>>,
}

impl ClientStatus {
    /// Whether the client is enrolled: it has a name and a certificate.
    #[must_use]
    pub fn enrolled(&self) -> (r: bool)
        ensures
            r == (self.name is Some && self.cert_fingerprint is Some),
    {
        self.name.is_some() && self.cert_fingerprint.is_some()
    }
}

/// A label with its value, or with what is said for want of one.
pub open spec fn labelled(label: Seq<char>, value: Option<String>, missing: Seq<char>) -> Seq<
    char,
> {
    label + match value {
        Some(v) => v@,
        None => missing,
    }
}

/// The first lines: where, who, and what with.
pub open spec fn identity_lines(s: ClientStatus) -> Seq<Seq<char>> {
    let head = seq![
        "state:               "@ + s.state_dir@,
        labelled("enrolled as:         "@, s.name, "(not enrolled — run `busyncr-client enroll`)"@),
    ];
    let with_cert = match s.cert_fingerprint {
        Some(fp) => head.push("cert fingerprint:    "@ + fp@),
        None => head,
    };
    with_cert.push(
        labelled("daemon:              "@, s.daemon_url, "(unknown — pass --config)"@),
    ).push(
        labelled(
            "chunk_target_size:   "@,
            s.chunk_target_size,
            "(not committed — run `bench-chunking`)"@,
        ),
    )
}

/// Seconds since the Unix epoch, none for a time before it.
pub open spec fn since_epoch(secs: int) -> int {
    if secs < 0 {
        0
    } else {
        secs
    }
}

/// Whether lines tell of the last backup.
pub open spec fn backup_lines(lines: Seq<Seq<char>>, last: Option<LastBackupRecord>) -> bool {
    match last {
        None => lines == seq![
            "last backup:         never (this state dir has not completed a backup)"@,
        ],
        Some(r) => {
            &&& lines.len() == 6
            &&& lines[0] == "last backup:"@
            &&& lines[1] == "  snapshot:          "@ + r.snapshot_id@
            &&& exists|time: Seq<char>| #[trigger]
                is_utc_text(time, since_epoch(r.created_at as int)) && lines[2] == "  created:           "@ + time
            &&& lines[3] == "  files:             "@ + decimal(r.files as nat)
            &&& lines[4] == "  upload bytes:      "@ + decimal(r.upload_bytes as nat)
            &&& lines[5] == "  duration:          "@ + decimal(r.duration_ms as nat) + " ms"@
        },
    }
}

/// Whether a line tells of a snapshot.
pub open spec fn snapshot_line(line: Seq<char>, e: SnapshotEntry) -> bool {
    exists|time: Seq<char>| #[trigger]
        is_utc_text(time, e.timestamp_ms as int / 1000) && line == "  "@ + ulid_text(e.id.value)
            + "  "@ + time
}

/// Whether lines tell of the daemon's history, newest first.
pub open spec fn history_lines(
    lines: Seq<Seq<char>>,
    has_config: bool,
    recent: Option<Vec<SnapshotEntry>>,
) -> bool {
    if !has_config {
        lines.len() == 0
    } else {
        match recent {
            None => lines == seq!["recent snapshots:    (daemon unreachable)"@],
            Some(entries) => {
                &&& lines.len() > 0
                &&& lines[0] == "recent snapshots (daemon reachable, newest first):"@
                &&& if entries@.len() == 0 {
                    lines.len() == 2 && lines[1] == "  (none)"@
                } else {
                    &&& lines.len() == entries@.len() + 1
                    &&& forall|i: int|
                        #![trigger entries@[i]]
                        0 <= i < entries@.len() ==> snapshot_line(
                            lines[entries@.len() - i],
                            entries@[i],
                        )
                }
            },
        }
    }
}

/// The characters of each line.
pub open spec fn line_views(lines: Seq<String>) -> Seq<Seq<char>> {
    Seq::new(lines.len(), |i: int| lines[i]@)
}

fn pair(a: &str, b: &str) -> (r: String)
    ensures
        r@ == a@ + b@,
{
    let mut out: String = a.to_owned();
    out.push_str(b);
    out
}

fn number_line(label: &str, n: u64) -> (r: String)
    ensures
        r@ == label@ + decimal(n as nat),
{
    let mut out: String = label.to_owned();
    push_decimal(&mut out, n as u128);
    out
}

fn labelled_line(label: &str, value: &Option<String>, missing: &str) -> (r: String)
    ensures
        r@ == labelled(label@, *value, missing@),
{
    match value {
        Some(v) => pair(label, v.as_str()),
        None => pair(label, missing),
    }
}

fn render_identity(s: &ClientStatus) -> (r: Vec<String>)
    ensures
        line_views(r@) == identity_lines(*s),
{
    let mut out: Vec<String> = Vec::new();
    out.push(pair("state:               ", s.state_dir.as_str()));
    out.push(
        labelled_line(
            "enrolled as:         ",
            &s.name,
            "(not enrolled — run `busyncr-client enroll`)",
        ),
    );
    match &s.cert_fingerprint {
        Some(fp) => {
            out.push(pair("cert fingerprint:    ", fp.as_str()));
        },
        None => {},
    }
    out.push(
        labelled_line("daemon:              ", &s.daemon_url, "(unknown — pass --config)"),
    );
    out.push(
        labelled_line(
            "chunk_target_size:   ",
            &s.chunk_target_size,
            "(not committed — run `bench-chunking`)",
        ),
    );
    proof {
        assert(line_views(out@) =~= identity_lines(*s));
    }
    out
}

fn render_last_backup(last: &Option<LastBackupRecord>) -> (r: Vec<String>)
    ensures
        backup_lines(line_views(r@), *last),
{
    let mut out: Vec<String> = Vec::new();
    match last {
        None => {
            out.push(
                "last backup:         never (this state dir has not completed a backup)".to_owned(),
            );
            proof {
                assert(line_views(out@) =~= seq![
                    "last backup:         never (this state dir has not completed a backup)"@,
                ]);
            }
        },
        Some(r) => {
            let secs: u64 = if r.created_at < 0 {
                0
            } else {
                r.created_at as u64
            };
            let time: String = format_utc_secs(secs);
            out.push("last backup:".to_owned());
            out.push(pair("  snapshot:          ", r.snapshot_id.as_str()));
            out.push(pair("  created:           ", time.as_str()));
            out.push(number_line("  files:             ", r.files));
            out.push(number_line("  upload bytes:      ", r.upload_bytes));
            let mut duration: String = number_line("  duration:          ", r.duration_ms);
            duration.push_str(" ms");
            out.push(duration);
            proof {
                assert(is_utc_text(time@, since_epoch(r.created_at as int)));
                let v = line_views(out@);
                assert(v.len() == 6);
                assert(v[0] == out@[0]@);
                assert(v[1] == out@[1]@);
                assert(v[2] == "  created:           "@ + time@);
                assert(v[3] == out@[3]@);
                assert(v[4] == out@[4]@);
                assert(v[5] == out@[5]@);
            }
        },
    }
    out
}

pub(crate) fn render_snapshot(e: &SnapshotEntry) -> (r: String)
    ensures
        snapshot_line(r@, *e),
{
    let time: String = format_utc_ms(e.timestamp_ms);
    let id: String = e.id.to_string();
    let mut out: String = pair("  ", id.as_str());
    out.push_str("  ");
    out.push_str(time.as_str());
    proof {
        assert(is_utc_text(time@, e.timestamp_ms as int / 1000));
    }
    out
}

fn render_history(has_config: bool, recent: &Option<Vec<SnapshotEntry>>) -> (r: Vec<String>)
    ensures
        history_lines(line_views(r@), has_config, *recent),
{
    let mut out: Vec<String> = Vec::new();
    if !has_config {
        return out;
    }
    match recent {
        None => {
            out.push("recent snapshots:    (daemon unreachable)".to_owned());
            proof {
                assert(line_views(out@) =~= seq!["recent snapshots:    (daemon unreachable)"@]);
            }
        },
        Some(entries) => {
            out.push("recent snapshots (daemon reachable, newest first):".to_owned());
            let n: usize = entries.len();
            let mut i: usize = n;
            while i > 0
                invariant
                    i <= n,
                    n == entries@.len(),
                    out@.len() == 1 + n - i,
                    out@[0]@ == "recent snapshots (daemon reachable, newest first):"@,
                    forall|k: int|
                        #![trigger entries@[k]]
                        i <= k < n ==> snapshot_line(out@[n - k]@, entries@[k]),
                decreases i,
            {
                i = i - 1;
                let line: String = render_snapshot(&entries[i]);
                let ghost before = out@;
                out.push(line);
                proof {
                    assert forall|k: int|
                        #![trigger entries@[k]]
                        i <= k < n implies snapshot_line(out@[n - k]@, entries@[k]) by {
                        if k > i {
                            assert(out@[n - k] == before[n - k]);
                        }
                    }
                }
            }
            if n == 0 {
                out.push("  (none)".to_owned());
            }
            proof {
                let views = line_views(out@);
                assert(views[0] == out@[0]@);
                assert forall|k: int|
                    #![trigger entries@[k]]
                    0 <= k < entries@.len() implies snapshot_line(
                    views[entries@.len() - k],
                    entries@[k],
                ) by {
                    assert(views[n - k] == out@[n - k]@);
                }
            }
        },
    }
    out
}

/// Renders the status for people, line by line: identity, last backup, the
/// daemon's history.
#[must_use]
pub fn render_status(s: &ClientStatus) -> (r: (Vec<String>, Vec<String>, Vec<String>))
    ensures
        line_views(r.0@) == identity_lines(*s),
        backup_lines(line_views(r.1@), s.last_backup),
        history_lines(line_views(r.2@), s.has_config, s.recent),
{
    (
        render_identity(s),
        render_last_backup(&s.last_backup),
        render_history(s.has_config, &s.recent),
    )
}

/// The first lines say where the state is and who the client is; the line of
/// the certificate is there just if there is one; what is not known is said so.
pub proof fn law_identity_lines(s: ClientStatus)
    ensures
        ({
            let lines = identity_lines(s);
            let n = lines.len() as int;
            &&& n == if s.cert_fingerprint is Some {
                5int
            } else {
                4
            }
            &&& lines[0] == "state:               "@ + s.state_dir@
            &&& s.name matches Some(v) ==> lines[1] == "enrolled as:         "@ + v@
            &&& s.name is None ==> lines[1]
                == "enrolled as:         "@ + "(not enrolled — run `busyncr-client enroll`)"@
            &&& s.cert_fingerprint matches Some(v) ==> lines[2] == "cert fingerprint:    "@ + v@
            &&& s.daemon_url matches Some(v) ==> lines[n - 2] == "daemon:              "@ + v@
            &&& s.daemon_url is None ==> lines[n - 2]
                == "daemon:              "@ + "(unknown — pass --config)"@
            &&& s.chunk_target_size matches Some(v) ==> lines[n - 1]
                == "chunk_target_size:   "@ + v@
            &&& s.chunk_target_size is None ==> lines[n - 1]
                == "chunk_target_size:   "@ + "(not committed — run `bench-chunking`)"@
        }),
{
}

/// The record of the last backup is told figure by figure; its time is that of
/// its creation, or the epoch for one before it.
pub proof fn law_last_backup_is_told(lines: Seq<Seq<char>>, r: LastBackupRecord)
    requires
        backup_lines(lines, Some(r)),
    ensures
        lines.len() == 6,
        ends_with(lines[1], r.snapshot_id@),
        ends_with(lines[3], decimal(r.files as nat)),
        ends_with(lines[4], decimal(r.upload_bytes as nat)),
        ends_with(lines[5], decimal(r.duration_ms as nat) + " ms"@),
        exists|time: Seq<char>| #[trigger]
            ends_with(lines[2], time) && is_utc_text(
                time,
                if r.created_at < 0 {
                    0
                } else {
                    r.created_at as int
                },
            ),
{
    lemma_ends("  snapshot:          "@, r.snapshot_id@);
    lemma_ends("  files:             "@, decimal(r.files as nat));
    lemma_ends("  upload bytes:      "@, decimal(r.upload_bytes as nat));
    let d = decimal(r.duration_ms as nat);
    lemma_ends("  duration:          "@, d + " ms"@);
    assert("  duration:          "@ + d + " ms"@ =~= "  duration:          "@ + (d + " ms"@));
    let time = choose|time: Seq<char>| #[trigger]
        is_utc_text(time, since_epoch(r.created_at as int)) && lines[2] == "  created:           "@
            + time;
    lemma_ends("  created:           "@, time);
}

/// Whether a line ends with a text.
pub open spec fn ends_with(line: Seq<char>, tail: Seq<char>) -> bool {
    line.len() >= tail.len() && line.skip(line.len() - tail.len()) == tail
}

proof fn lemma_ends(head: Seq<char>, tail: Seq<char>)
    ensures
        ends_with(head + tail, tail),
{
    assert((head + tail).skip(head.len() as int) =~= tail);
}

/// The daemon's history is told newest first, each snapshot in its own line,
/// and not at all without a configuration.
pub proof fn law_history_is_told_newest_first(
    lines: Seq<Seq<char>>,
    has_config: bool,
    recent: Option<Vec<SnapshotEntry>>,
    k: int,
)
    requires
        history_lines(lines, has_config, recent),
    ensures
        !has_config ==> lines.len() == 0,
        has_config && recent is None ==> lines.len() == 1,
        has_config && recent is Some && recent->0@.len() == 0 ==> lines.len() == 2,
        has_config && recent is Some && recent->0@.len() > 0 ==> lines.len() == recent->0@.len()
            + 1,
        has_config && recent is Some && 1 <= k <= recent->0@.len() ==> snapshot_line(
            lines[k],
            recent->0@[recent->0@.len() - k],
        ),
{
    if has_config && recent is Some && 1 <= k <= recent->0@.len() {
        let e = recent->0@[recent->0@.len() - k];
    }
}

/// A snapshot's line holds its identity's text and ends with its creation time
/// in whole seconds.
pub proof fn law_snapshot_line_tells(line: Seq<char>, e: SnapshotEntry)
    requires
        snapshot_line(line, e),
    ensures
        line.subrange(2, 2 + ulid_text(e.id.value).len() as int) == ulid_text(e.id.value),
        exists|time: Seq<char>| #[trigger]
            ends_with(line, time) && is_utc_text(time, e.timestamp_ms as int / 1000),
{
    reveal_strlit("  ");
    let time = choose|time: Seq<char>| #[trigger]
        is_utc_text(time, e.timestamp_ms as int / 1000) && line == "  "@ + ulid_text(e.id.value)
            + "  "@ + time;
    lemma_ends("  "@ + ulid_text(e.id.value) + "  "@, time);
    assert(line.subrange(2, 2 + ulid_text(e.id.value).len() as int) =~= ulid_text(e.id.value));
}

} // verus!
