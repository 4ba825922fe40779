//! Chunk framing, the two codecs and the compression policy.
//!
//! A chunk's plaintext is framed before it is encrypted: one codec byte, then
//! the payload, which is the chunk itself or its zstd form. Which of the two
//! is decided per chunk by [`choose_codec`] under a [`PolicyConfig`]. A
//! chunk's identity is taken from its plaintext, so no choice made here
//! changes it.
use std::borrow::Cow;
use vstd::endian::{endianness, Endian};
use vstd::prelude::*;

use crate::bytes::{copy_range, push_bytes};
use crate::ratio::Ratio;

verus! {

/// How a stored payload is coded.
#[derive(Debug, Clone, Copy, PartialEq, Eq, Hash, Structural)]
pub enum CodecId {
    /// The chunk as it is.
    Raw,
    /// A zstd frame of the chunk.
    Zstd,
}

/// The wire byte of a codec.
pub open spec fn codec_byte(codec: CodecId) -> u8 {
    match codec {
        CodecId::Raw => 0,
        CodecId::Zstd => 1,
    }
}

impl CodecId {
    /// The wire byte of this codec.
    #[must_use]
    pub fn to_byte(self) -> (r: u8)
        ensures
            r == codec_byte(self),
    {
        match self {
            CodecId::Raw => 0,
            CodecId::Zstd => 1,
        }
    }

    /// Parses a wire byte. Every value but the two known ones is reserved and
    /// refused.
    pub fn from_byte(byte: u8) -> (r: Result<Self, CompressionError>)
        ensures
            match r {
                Ok(codec) => byte == codec_byte(codec),
                Err(e) => byte > 1 && e == CompressionError::UnknownCodec(byte),
            },
    {
        if byte == 0 {
            Ok(CodecId::Raw)
        } else if byte == 1 {
            Ok(CodecId::Zstd)
        } else {
            Err(CompressionError::UnknownCodec(byte))
        }
    }
}

/// Errors of framing and of the codecs.
#[derive(Debug, Clone, PartialEq, Eq)]
pub enum CompressionError {
    /// There is no codec byte.
    Empty,
    /// The codec byte is reserved.
    UnknownCodec(u8),
    /// zstd could not compress.
    Compress(String),
    /// zstd could not decompress: the frame is corrupt or incomplete.
    Decompress(String),
}

/// What `zstd::stream::encode_all` gives for the data at a level, `None` where
/// it reports an error.
pub uninterp spec fn zstd_encoded(data: Seq<u8>, level: i32) -> Option<Seq<u8>>;

/// What `zstd::stream::decode_all` gives for the data, `None` where it
/// reports an error.
pub uninterp spec fn zstd_decoded(data: Seq<u8>) -> Option<Seq<u8>>;

/// Calls `zstd::stream::encode_all`. What it gives is a zstd frame that
/// decodes to the data. The C library can refuse, and it is not said when; the
/// text of an error is not described. Memory that the machine cannot give is
/// left aside.
#[verifier::external_body]
fn zstd_encode(data: &[u8], level: i32) -> (r: Result<Vec<u8>, String>)
    ensures
        match r {
            Ok(v) => zstd_encoded(data@, level) == Some(v@) && zstd_decoded(v@) == Some(data@),
            Err(_) => zstd_encoded(data@, level) is None,
        },
{
    zstd::stream::encode_all(data, level).map_err(|e| e.to_string())
}

/// Calls `zstd::stream::decode_all`. An error says that the bytes are no whole
/// zstd frames, or ask for a larger window than the decoder grants; its text is
/// not described. Memory that the machine cannot give is left aside.
#[verifier::external_body]
fn zstd_decode(data: &[u8]) -> (r: Result<Vec<u8>, String>)
    ensures
        match r {
            Ok(v) => zstd_decoded(data@) == Some(v@),
            Err(_) => zstd_decoded(data@) is None,
        },
{
    zstd::stream::decode_all(data).map_err(|e| e.to_string())
}

/// What `lz4_flex::compress` gives for the data on a machine with words of so
/// many bits, little-endian or not. Its match finder hashes whole words as they
/// lie in memory, so both have a part in which matches it finds.
pub uninterp spec fn lz4_form(data: Seq<u8>, word_bits: u32, little_endian: bool) -> Seq<u8>;

/// Calls `lz4_flex::compress`. The output is never empty and fits the buffer
/// that the crate allots; data too short to be searched for matches comes out
/// as its bytes behind one token. Longer data than `probe_fits` admits would
/// overflow the crate's own size computation.
#[verifier::external_body]
fn lz4_compress(data: &[u8]) -> (r: Vec<u8>)
    requires
        probe_fits(data@.len() as int),
    ensures
        r@ == lz4_form(data@, usize::BITS, endianness() == Endian::Little),
        1 <= r@.len() <= 20 + data@.len() * 110 / 100,
        data@.len() < 13 ==> r@.len() == data@.len() + 1,
{
    lz4_flex::compress(data)
}

/// The length of the lz4 form of bytes, on the machine at hand.
pub open spec fn probe_len_of(chunk: Seq<u8>) -> int {
    lz4_form(chunk, usize::BITS, endianness() == Endian::Little).len() as int
}

/// Whether bytes of this length can be probed: the length of their longest lz4
/// form, which takes 110 times the length to compute, fits the machine.
pub open spec fn probe_fits(len: int) -> bool {
    len * 110 <= usize::MAX
}

/// The framed form of a payload: the codec byte, then the payload.
pub open spec fn framed(codec: CodecId, payload: Seq<u8>) -> Seq<u8> {
    seq![codec_byte(codec)] + payload
}

/// The plaintext that a framed chunk holds, if it holds one.
pub open spec fn decoded_plaintext(framed: Seq<u8>) -> Option<Seq<u8>> {
    if framed.len() == 0 {
        None
    } else if framed[0] == 0 {
        Some(framed.skip(1))
    } else if framed[0] == 1 {
        zstd_decoded(framed.skip(1))
    } else {
        None
    }
}

/// Whether an error is the one that decoding a framed chunk reports.
pub open spec fn decode_error(framed: Seq<u8>, e: CompressionError) -> bool {
    match e {
        CompressionError::Empty => framed.len() == 0,
        CompressionError::UnknownCodec(b) => framed.len() > 0 && framed[0] == b && b > 1,
        CompressionError::Decompress(_) => {
            framed.len() > 0 && framed[0] == 1 && zstd_decoded(framed.skip(1)) is None
        },
        CompressionError::Compress(_) => false,
    }
}

/// Prepends the codec byte to a payload.
#[must_use]
pub fn frame(codec: CodecId, payload: &[u8]) -> (r: Vec<u8>)
    ensures
        r@ == framed(codec, payload@),
{
    let mut out: Vec<u8> = Vec::new();
    out.push(codec.to_byte());
    push_bytes(&mut out, payload);
    proof {
        assert(out@ =~= framed(codec, payload@));
    }
    out
}

/// Splits framed bytes into codec and payload.
pub fn unframe(framed_bytes: &[u8]) -> (r: Result<(CodecId, &[u8]), CompressionError>)
    ensures
        match r {
            Ok((codec, payload)) => framed_bytes@ == framed(codec, payload@),
            Err(CompressionError::Empty) => framed_bytes@.len() == 0,
            Err(CompressionError::UnknownCodec(b)) => {
                framed_bytes@.len() > 0 && b == framed_bytes@[0] && b > 1
            },
            Err(_) => false,
        },
{
    if framed_bytes.len() == 0 {
        return Err(CompressionError::Empty);
    }
    let byte: u8 = framed_bytes[0];
    match CodecId::from_byte(byte) {
        Err(e) => Err(e),
        Ok(codec) => {
            let payload = vstd::slice::slice_subrange(framed_bytes, 1, framed_bytes.len());
            proof {
                assert(framed_bytes@ =~= framed(codec, payload@));
            }
            Ok((codec, payload))
        },
    }
}

/// Compresses with zstd at a level.
pub fn compress_zstd(data: &[u8], level: i32) -> (r: Result<Vec<u8>, CompressionError>)
    ensures
        match r {
            Ok(v) => zstd_encoded(data@, level) == Some(v@) && zstd_decoded(v@) == Some(data@),
            Err(e) => zstd_encoded(data@, level) is None && e is Compress,
        },
{
    match zstd_encode(data, level) {
        Ok(v) => Ok(v),
        Err(m) => Err(CompressionError::Compress(m)),
    }
}

/// Decompresses a zstd frame.
pub fn decompress_zstd(data: &[u8]) -> (r: Result<Vec<u8>, CompressionError>)
    ensures
        match r {
            Ok(v) => zstd_decoded(data@) == Some(v@),
            Err(e) => zstd_decoded(data@) is None && e is Decompress,
        },
{
    match zstd_decode(data) {
        Ok(v) => Ok(v),
        Err(m) => Err(CompressionError::Decompress(m)),
    }
}

/// Decodes a framed chunk to its plaintext.
pub fn decode_chunk(framed_bytes: &[u8]) -> (r: Result<Vec<u8>, CompressionError>)
    ensures
        match r {
            Ok(v) => decoded_plaintext(framed_bytes@) == Some(v@),
            Err(e) => decoded_plaintext(framed_bytes@) is None && decode_error(framed_bytes@, e),
        },
{
    match unframe(framed_bytes) {
        Err(e) => Err(e),
        Ok((codec, payload)) => {
            proof {
                assert(framed_bytes@.skip(1) =~= payload@);
            }
            match codec {
                CodecId::Raw => {
                    let out: Vec<u8> = copy_range(payload, 0, payload.len());
                    proof {
                        assert(out@ =~= payload@);
                    }
                    Ok(out)
                },
                CodecId::Zstd => decompress_zstd(payload),
            }
        },
    }
}

/// Which kind of backup runs: a set's first snapshot, or a later one.
#[derive(Debug, Clone, Copy, PartialEq, Eq, Structural)]
pub enum Phase {
    /// The set's first completed snapshot is still running. Escalation is off
    /// whatever the configuration says.
    InitialFull,
    /// Any later snapshot.
    Incremental,
}

/// Default zstd level.
pub const DEFAULT_ZSTD_LEVEL: i32 = 3;

/// Default zstd level of the escalation retry.
pub const DEFAULT_ESCALATE_LEVEL: i32 = 9;

/// Default keep threshold, in hundredths.
pub const DEFAULT_KEEP_THRESHOLD: u64 = 95;

/// Default probe threshold, in hundredths.
pub const DEFAULT_PROBE_THRESHOLD: u64 = 102;

/// Default escalation ratio, in hundredths.
pub const DEFAULT_ESCALATE_RATIO: u64 = 200;

/// Compression policy.
#[derive(Debug, Clone, Copy, PartialEq, Eq, Structural)]
pub struct PolicyConfig {
    /// Whether a quick lz4 probe decides if zstd is tried at all.
    pub use_probe: bool,
    /// Whether a chunk that compresses well is retried at a higher level.
    pub escalate: bool,
    /// zstd level of the first attempt.
    pub zstd_level: i32,
    /// zstd level of the retry.
    pub escalate_level: i32,
    /// The compressed form is kept if it is at most this share of the chunk.
    pub keep_threshold: Ratio,
    /// The chunk goes on to zstd if it is at least this many times as long as
    /// its lz4 form.
    pub probe_threshold: Ratio,
    /// The retry is made if the chunk is at least this many times as long as
    /// its first compressed form.
    pub escalate_ratio: Ratio,
}

impl Default for PolicyConfig {
    fn default() -> (r: Self)
        ensures
            r == (PolicyConfig {
                use_probe: false,
                escalate: false,
                zstd_level: DEFAULT_ZSTD_LEVEL,
                escalate_level: DEFAULT_ESCALATE_LEVEL,
                keep_threshold: Ratio { num: DEFAULT_KEEP_THRESHOLD, den: 100 },
                probe_threshold: Ratio { num: DEFAULT_PROBE_THRESHOLD, den: 100 },
                escalate_ratio: Ratio { num: DEFAULT_ESCALATE_RATIO, den: 100 },
            }),
    {
        PolicyConfig {
            use_probe: false,
            escalate: false,
            zstd_level: DEFAULT_ZSTD_LEVEL,
            escalate_level: DEFAULT_ESCALATE_LEVEL,
            keep_threshold: Ratio { num: DEFAULT_KEEP_THRESHOLD, den: 100 },
            probe_threshold: Ratio { num: DEFAULT_PROBE_THRESHOLD, den: 100 },
            escalate_ratio: Ratio { num: DEFAULT_ESCALATE_RATIO, den: 100 },
        }
    }
}

/// Per-run statistics of the policy. Every chunk counts in exactly one of
/// `raw`, `zstd3` and `escalated`, by what is stored of it. The counts stop at
/// the largest `u64` rather than wrap.
#[derive(Debug, Clone, Copy, PartialEq, Eq, Structural)]
pub struct PolicyCounters {
    /// Chunks stored raw.
    pub raw: u64,
    /// Chunks stored as the first zstd attempt.
    pub zstd3: u64,
    /// Chunks stored as the retry's output.
    pub escalated: u64,
    /// Retries made, kept or not.
    pub escalation_attempts: u64,
    /// Sum of the chunk lengths.
    pub bytes_in: u64,
    /// Sum of the payload lengths, without the codec byte.
    pub bytes_out: u64,
}

impl Default for PolicyCounters {
    fn default() -> (r: Self)
        ensures
            r == zero_counters(),
    {
        PolicyCounters {
            raw: 0,
            zstd3: 0,
            escalated: 0,
            escalation_attempts: 0,
            bytes_in: 0,
            bytes_out: 0,
        }
    }
}

/// Counters of a run that has seen nothing.
pub open spec fn zero_counters() -> PolicyCounters {
    PolicyCounters {
        raw: 0,
        zstd3: 0,
        escalated: 0,
        escalation_attempts: 0,
        bytes_in: 0,
        bytes_out: 0,
    }
}

/// A sum, stopping at the largest `u64`.
pub open spec fn capped(n: int) -> u64 {
    if n > u64::MAX {
        u64::MAX
    } else {
        n as u64
    }
}

impl PolicyCounters {
    /// Bytes that compression saved; none where it cost some.
    pub open spec fn saved(self) -> int {
        if self.bytes_in >= self.bytes_out {
            self.bytes_in - self.bytes_out
        } else {
            0
        }
    }

    /// Chunks seen.
    pub open spec fn chunks(self) -> int {
        self.raw + self.zstd3 + self.escalated
    }

    /// Chunks seen.
    #[must_use]
    pub fn total(&self) -> (r: u64)
        requires
            self.chunks() <= u64::MAX,
        ensures
            r == self.chunks(),
    {
        self.raw + self.zstd3 + self.escalated
    }

    /// Bytes that compression saved; none where it cost some.
    #[must_use]
    pub fn bytes_saved(&self) -> (r: u64)
        ensures
            r == self.saved(),
    {
        if self.bytes_in >= self.bytes_out {
            self.bytes_in - self.bytes_out
        } else {
            0
        }
    }
}

/// Which form of a chunk is stored.
#[derive(Debug, Clone, Copy, PartialEq, Eq, Structural)]
pub enum Stored {
    /// The chunk itself.
    Raw,
    /// The first zstd attempt.
    Base,
    /// The retry at the higher level.
    Escalated,
}

/// What the policy decides for a chunk: which form is stored, and whether the
/// retry was made.
#[derive(Debug, Clone, Copy, PartialEq, Eq, Structural)]
pub struct Decision {
    /// The form that is stored.
    pub stored: Stored,
    /// Whether the retry was made.
    pub attempted: bool,
}

/// Whether the probe sends a chunk on to zstd.
pub open spec fn probe_passes(raw_len: int, probe_len: int, cfg: PolicyConfig) -> bool {
    cfg.use_probe ==> cfg.probe_threshold.reached_by(
        raw_len,
        if probe_len < 1 {
            1
        } else {
            probe_len
        },
    )
}

/// Whether the retry is made once the first attempt is to be kept.
pub open spec fn retry_wanted(
    raw_len: int,
    base_len: int,
    phase: Phase,
    cfg: PolicyConfig,
) -> bool {
    cfg.escalate && phase == Phase::Incremental && cfg.escalate_ratio.reached_by(raw_len, base_len)
}

/// The policy, as a function of the lengths involved: the chunk's, its lz4
/// form's, and those of the two zstd attempts (`None` where zstd fails).
pub open spec fn policy_decision(
    raw_len: int,
    probe_len: int,
    base_len: Option<int>,
    retry_len: Option<int>,
    phase: Phase,
    cfg: PolicyConfig,
) -> Decision {
    let raw = Decision { stored: Stored::Raw, attempted: false };
    if raw_len == 0 || !probe_passes(raw_len, probe_len, cfg) {
        raw
    } else {
        match base_len {
            None => raw,
            Some(base) => if !cfg.keep_threshold.covers(base, raw_len) {
                raw
            } else if !retry_wanted(raw_len, base, phase, cfg) {
                Decision { stored: Stored::Base, attempted: false }
            } else {
                match retry_len {
                    Some(retry) if retry < base => Decision {
                        stored: Stored::Escalated,
                        attempted: true,
                    },
                    _ => Decision { stored: Stored::Base, attempted: true },
                }
            },
        }
    }
}

/// The counters after one more chunk.
pub open spec fn counted(
    c: PolicyCounters,
    d: Decision,
    raw_len: int,
    stored_len: int,
) -> PolicyCounters {
    PolicyCounters {
        raw: capped(
            c.raw + if d.stored == Stored::Raw {
                1int
            } else {
                0
            },
        ),
        zstd3: capped(
            c.zstd3 + if d.stored == Stored::Base {
                1int
            } else {
                0
            },
        ),
        escalated: capped(
            c.escalated + if d.stored == Stored::Escalated {
                1int
            } else {
                0
            },
        ),
        escalation_attempts: capped(
            c.escalation_attempts + if d.attempted {
                1int
            } else {
                0
            },
        ),
        bytes_in: capped(c.bytes_in + raw_len),
        bytes_out: capped(c.bytes_out + stored_len),
    }
}

/// The codec of a stored form.
pub open spec fn stored_codec(s: Stored) -> CodecId {
    match s {
        Stored::Raw => CodecId::Raw,
        _ => CodecId::Zstd,
    }
}

/// The length of an attempt's output.
pub open spec fn attempt_len(a: Option<Seq<u8>>) -> Option<int> {
    match a {
        None => None,
        Some(s) => Some(s.len() as int),
    }
}

/// The payload of a stored form.
pub open spec fn stored_payload(chunk: Seq<u8>, s: Stored, cfg: PolicyConfig) -> Seq<u8> {
    match s {
        Stored::Raw => chunk,
        Stored::Base => zstd_encoded(chunk, cfg.zstd_level).unwrap_or(chunk),
        Stored::Escalated => zstd_encoded(chunk, cfg.escalate_level).unwrap_or(chunk),
    }
}

/// The policy's decision for a chunk.
pub open spec fn decision_for(chunk: Seq<u8>, phase: Phase, cfg: PolicyConfig) -> Decision {
    policy_decision(
        chunk.len() as int,
        probe_len_of(chunk),
        attempt_len(zstd_encoded(chunk, cfg.zstd_level)),
        attempt_len(zstd_encoded(chunk, cfg.escalate_level)),
        phase,
        cfg,
    )
}

/// Whether codec, payload and counters are what the policy makes of a chunk.
pub open spec fn chosen(
    chunk: Seq<u8>,
    phase: Phase,
    cfg: PolicyConfig,
    before: PolicyCounters,
    codec: CodecId,
    payload: Seq<u8>,
    after: PolicyCounters,
) -> bool {
    let d = decision_for(chunk, phase, cfg);
    &&& codec == stored_codec(d.stored)
    &&& payload == stored_payload(chunk, d.stored, cfg)
    &&& after == counted(before, d, chunk.len() as int, payload.len() as int)
}

/// The length of the chunk's lz4 form, the compressibility signal of the
/// probe. Nothing of the lz4 form itself is kept.
#[must_use]
pub fn lz4_probe_len(chunk: &[u8]) -> (r: usize)
    requires
        probe_fits(chunk@.len() as int),
    ensures
        r == probe_len_of(chunk@),
        1 <= r <= 20 + chunk@.len() * 110 / 100,
        chunk@.len() < 13 ==> r == chunk@.len() + 1,
{
    lz4_compress(chunk).len()
}

/// The policy on given lengths: which form of a chunk is stored, and whether
/// the retry is made.
#[must_use]
pub fn decide(
    raw_len: u64,
    probe_len: u64,
    base_len: Option<u64>,
    retry_len: Option<u64>,
    phase: Phase,
    cfg: &PolicyConfig,
) -> (r: Decision)
    ensures
        r == policy_decision(
            raw_len as int,
            probe_len as int,
            match base_len {
                None => None,
                Some(n) => Some(n as int),
            },
            match retry_len {
                None => None,
                Some(n) => Some(n as int),
            },
            phase,
            *cfg,
        ),
{
    let raw: Decision = Decision { stored: Stored::Raw, attempted: false };
    if raw_len == 0 || !passes_probe(raw_len, probe_len, cfg) {
        return raw;
    }
    match base_len {
        None => raw,
        Some(base) => {
            if !cfg.keep_threshold.is_covered(base, raw_len) {
                return raw;
            }
            if !wants_retry(raw_len, base, phase, cfg) {
                return Decision { stored: Stored::Base, attempted: false };
            }
            match retry_len {
                Some(retry) => {
                    if retry < base {
                        Decision { stored: Stored::Escalated, attempted: true }
                    } else {
                        Decision { stored: Stored::Base, attempted: true }
                    }
                },
                None => Decision { stored: Stored::Base, attempted: true },
            }
        },
    }
}

fn passes_probe(raw_len: u64, probe_len: u64, cfg: &PolicyConfig) -> (r: bool)
    ensures
        r == probe_passes(raw_len as int, probe_len as int, *cfg),
{
    if !cfg.use_probe {
        return true;
    }
    let len: u64 = if probe_len < 1 {
        1
    } else {
        probe_len
    };
    cfg.probe_threshold.is_reached(raw_len, len)
}

fn wants_retry(raw_len: u64, base_len: u64, phase: Phase, cfg: &PolicyConfig) -> (r: bool)
    ensures
        r == retry_wanted(raw_len as int, base_len as int, phase, *cfg),
{
    cfg.escalate && phase == Phase::Incremental && cfg.escalate_ratio.is_reached(raw_len, base_len)
}

fn count(counters: &mut PolicyCounters, d: Decision, raw_len: u64, stored_len: u64)
    ensures
        *final(counters) == counted(*old(counters), d, raw_len as int, stored_len as int),
{
    match d.stored {
        Stored::Raw => {
            counters.raw = counters.raw.saturating_add(1);
        },
        Stored::Base => {
            counters.zstd3 = counters.zstd3.saturating_add(1);
        },
        Stored::Escalated => {
            counters.escalated = counters.escalated.saturating_add(1);
        },
    }
    if d.attempted {
        counters.escalation_attempts = counters.escalation_attempts.saturating_add(1);
    }
    counters.bytes_in = counters.bytes_in.saturating_add(raw_len);
    counters.bytes_out = counters.bytes_out.saturating_add(stored_len);
}

/// Chooses codec and payload for a chunk. The payload is the chunk itself,
/// not copied, under the raw codec. The compressors are called only as far as
/// the decision needs them; a compressor that fails leaves the chunk raw, or
/// with the first attempt.
#[must_use]
pub fn choose_codec<'a>(
    chunk: &'a [u8],
    phase: Phase,
    cfg: &PolicyConfig,
    counters: &mut PolicyCounters,
) -> (r: (CodecId, Cow<'a, [u8]>))
    requires
        cfg.use_probe ==> probe_fits(chunk@.len() as int),
    ensures
        chosen(chunk@, phase, *cfg, *old(counters), r.0, r.1@, *final(counters)),
        decoded_plaintext(framed(r.0, r.1@)) == Some(chunk@),
        r.0 == CodecId::Raw ==> r.1 is Borrowed && r.1@ == chunk@,
        chunk@.len() == 0 ==> r.0 == CodecId::Raw,
{
    let ghost before = *counters;
    let raw_len: u64 = chunk.len() as u64;
    let raw: Decision = Decision { stored: Stored::Raw, attempted: false };
    proof {
        assert(framed(CodecId::Raw, chunk@).skip(1) =~= chunk@);
    }
    if chunk.len() == 0 {
        count(counters, raw, raw_len, raw_len);
        let r: (CodecId, Cow<'a, [u8]>) = (CodecId::Raw, Cow::Borrowed(chunk));
        proof {
            assert(chosen(chunk@, phase, *cfg, before, r.0, r.1@, *counters));
        }
        return r;
    }
    let probe_len: u64 = if cfg.use_probe {
        lz4_probe_len(chunk) as u64
    } else {
        1
    };
    if !passes_probe(raw_len, probe_len, cfg) {
        count(counters, raw, raw_len, raw_len);
        let r: (CodecId, Cow<'a, [u8]>) = (CodecId::Raw, Cow::Borrowed(chunk));
        proof {
            assert(chosen(chunk@, phase, *cfg, before, r.0, r.1@, *counters));
        }
        return r;
    }
    let base: Vec<u8> = match compress_zstd(chunk, cfg.zstd_level) {
        Ok(v) => v,
        Err(_) => {
            count(counters, raw, raw_len, raw_len);
            let r: (CodecId, Cow<'a, [u8]>) = (CodecId::Raw, Cow::Borrowed(chunk));
            proof {
                assert(chosen(chunk@, phase, *cfg, before, r.0, r.1@, *counters));
            }
            return r;
        },
    };
    let ghost base_bytes = base@;
    let base_len: u64 = base.len() as u64;
    proof {
        assert(framed(CodecId::Zstd, base_bytes).skip(1) =~= base_bytes);
    }
    if !cfg.keep_threshold.is_covered(base_len, raw_len) {
        count(counters, raw, raw_len, raw_len);
        let r: (CodecId, Cow<'a, [u8]>) = (CodecId::Raw, Cow::Borrowed(chunk));
        proof {
            assert(chosen(chunk@, phase, *cfg, before, r.0, r.1@, *counters));
        }
        return r;
    }
    let mut attempted: bool = false;
    if wants_retry(raw_len, base_len, phase, cfg) {
        attempted = true;
        match compress_zstd(chunk, cfg.escalate_level) {
            Ok(retry) => {
                proof {
                    assert(framed(CodecId::Zstd, retry@).skip(1) =~= retry@);
                }
                if (retry.len() as u64) < base_len {
                    let d: Decision = Decision { stored: Stored::Escalated, attempted: true };
                    count(counters, d, raw_len, retry.len() as u64);
                    let ghost payload = retry@;
                    let r: (CodecId, Cow<'a, [u8]>) = (CodecId::Zstd, Cow::Owned(retry));
                    proof {
                        assert(r.1@ == payload);
                        assert(chosen(chunk@, phase, *cfg, before, r.0, r.1@, *counters));
                    }
                    return r;
                }
            },
            Err(_) => {},
        }
    }
    let d: Decision = Decision { stored: Stored::Base, attempted };
    count(counters, d, raw_len, base_len);
    let r: (CodecId, Cow<'a, [u8]>) = (CodecId::Zstd, Cow::Owned(base));
    proof {
        assert(r.1@ == base_bytes);
        assert(chosen(chunk@, phase, *cfg, before, r.0, r.1@, *counters));
    }
    r
}

/// The framed form that the policy gives a chunk.
pub open spec fn frame_of(chunk: Seq<u8>, phase: Phase, cfg: PolicyConfig) -> Seq<u8> {
    let d = decision_for(chunk, phase, cfg);
    framed(stored_codec(d.stored), stored_payload(chunk, d.stored, cfg))
}

/// Whether framed bytes and counters are what encoding a chunk gives.
pub open spec fn encoded(
    chunk: Seq<u8>,
    phase: Phase,
    cfg: PolicyConfig,
    before: PolicyCounters,
    out: Seq<u8>,
    after: PolicyCounters,
) -> bool {
    let d = decision_for(chunk, phase, cfg);
    &&& out == frame_of(chunk, phase, cfg)
    &&& chosen(
        chunk,
        phase,
        cfg,
        before,
        stored_codec(d.stored),
        stored_payload(chunk, d.stored, cfg),
        after,
    )
}

/// Chooses codec and payload for a chunk and frames them. Decoding gives the
/// chunk back.
#[must_use]
pub fn encode_chunk(
    chunk: &[u8],
    phase: Phase,
    cfg: &PolicyConfig,
    counters: &mut PolicyCounters,
) -> (r: Vec<u8>)
    requires
        cfg.use_probe ==> probe_fits(chunk@.len() as int),
    ensures
        encoded(chunk@, phase, *cfg, *old(counters), r@, *final(counters)),
        decoded_plaintext(r@) == Some(chunk@),
{
    let (codec, payload) = choose_codec(chunk, phase, cfg, counters);
    match payload {
        Cow::Borrowed(p) => frame(codec, p),
        Cow::Owned(p) => frame(codec, &p),
    }
}

/// Whether encoding the first `n` chunks one after the other gives the outputs,
/// and takes the counters from `start` to `after`.
pub open spec fn encoded_run(
    chunks: Seq<Seq<u8>>,
    phase: Phase,
    cfg: PolicyConfig,
    start: PolicyCounters,
    outs: Seq<Seq<u8>>,
    n: nat,
    after: PolicyCounters,
) -> bool
    decreases n,
{
    if n == 0 {
        after == start
    } else {
        exists|before: PolicyCounters|
            encoded_run(chunks, phase, cfg, start, outs, (n - 1) as nat, before)
                && #[trigger] encoded(chunks[n - 1], phase, cfg, before, outs[n - 1], after)
    }
}

/// A run stays a run when more chunks and outputs follow.
pub proof fn lemma_run_prefix(
    chunks: Seq<Seq<u8>>,
    more_chunks: Seq<Seq<u8>>,
    phase: Phase,
    cfg: PolicyConfig,
    start: PolicyCounters,
    outs: Seq<Seq<u8>>,
    more_outs: Seq<Seq<u8>>,
    n: nat,
    after: PolicyCounters,
)
    requires
        encoded_run(chunks, phase, cfg, start, outs, n, after),
        n <= chunks.len() <= more_chunks.len(),
        n <= outs.len() <= more_outs.len(),
        forall|i: int| 0 <= i < n ==> chunks[i] == more_chunks[i] && outs[i] == more_outs[i],
    ensures
        encoded_run(more_chunks, phase, cfg, start, more_outs, n, after),
    decreases n,
{
    if n > 0 {
        let before = choose|before: PolicyCounters|
            encoded_run(chunks, phase, cfg, start, outs, (n - 1) as nat, before)
                && #[trigger] encoded(chunks[n - 1], phase, cfg, before, outs[n - 1], after);
        lemma_run_prefix(
            chunks,
            more_chunks,
            phase,
            cfg,
            start,
            outs,
            more_outs,
            (n - 1) as nat,
            before,
        );
        assert(encoded(more_chunks[n - 1], phase, cfg, before, more_outs[n - 1], after));
    }
}

/// One more chunk makes a longer run.
pub proof fn lemma_run_step(
    chunks: Seq<Seq<u8>>,
    phase: Phase,
    cfg: PolicyConfig,
    start: PolicyCounters,
    outs: Seq<Seq<u8>>,
    before: PolicyCounters,
    chunk: Seq<u8>,
    out: Seq<u8>,
    after: PolicyCounters,
)
    requires
        chunks.len() == outs.len(),
        encoded_run(chunks, phase, cfg, start, outs, chunks.len(), before),
        encoded(chunk, phase, cfg, before, out, after),
    ensures
        encoded_run(
            chunks.push(chunk),
            phase,
            cfg,
            start,
            outs.push(out),
            chunks.len() + 1,
            after,
        ),
{
    let n: nat = chunks.len() + 1;
    lemma_run_prefix(
        chunks,
        chunks.push(chunk),
        phase,
        cfg,
        start,
        outs,
        outs.push(out),
        chunks.len(),
        before,
    );
    assert(encoded(chunks.push(chunk)[n - 1], phase, cfg, before, outs.push(out)[n - 1], after));
}

/// The total length of outputs.
pub open spec fn total_len(outs: Seq<Seq<u8>>) -> int
    decreases outs.len(),
{
    if outs.len() == 0 {
        0
    } else {
        total_len(outs.drop_last()) + outs.last().len()
    }
}

/// A run counts each chunk once, and its outputs are the payloads with one
/// codec byte each.
pub proof fn law_run_counts(
    chunks: Seq<Seq<u8>>,
    phase: Phase,
    cfg: PolicyConfig,
    start: PolicyCounters,
    outs: Seq<Seq<u8>>,
    after: PolicyCounters,
)
    requires
        chunks.len() == outs.len(),
        encoded_run(chunks, phase, cfg, start, outs, chunks.len(), after),
        start.chunks() + chunks.len() <= u64::MAX,
    ensures
        after.chunks() == start.chunks() + chunks.len(),
        after.bytes_in == capped(start.bytes_in + total_len(chunks)),
        after.bytes_out == capped(start.bytes_out + total_len(outs) - outs.len()),
        total_len(outs) >= outs.len(),
        total_len(chunks) >= 0,
    decreases chunks.len(),
{
    if chunks.len() > 0 {
        let n: nat = chunks.len();
        let before = choose|before: PolicyCounters|
            encoded_run(chunks, phase, cfg, start, outs, (n - 1) as nat, before)
                && #[trigger] encoded(chunks[n - 1], phase, cfg, before, outs[n - 1], after);
        let fewer = chunks.drop_last();
        lemma_run_cut(chunks, phase, cfg, start, outs, (n - 1) as nat, before);
        law_run_counts(fewer, phase, cfg, start, outs.drop_last(), before);
        let d = decision_for(chunks[n - 1], phase, cfg);
        let codec = stored_codec(d.stored);
        let payload = stored_payload(chunks[n - 1], d.stored, cfg);
        law_counting(
            chunks[n - 1],
            phase,
            cfg,
            before,
            codec,
            payload,
            after,
        );
        assert(outs.last().len() == payload.len() + 1);
    }
}

proof fn lemma_run_cut(
    chunks: Seq<Seq<u8>>,
    phase: Phase,
    cfg: PolicyConfig,
    start: PolicyCounters,
    outs: Seq<Seq<u8>>,
    n: nat,
    after: PolicyCounters,
)
    requires
        encoded_run(chunks, phase, cfg, start, outs, n, after),
        n <= chunks.len(),
        n <= outs.len(),
    ensures
        encoded_run(chunks.take(n as int), phase, cfg, start, outs.take(n as int), n, after),
        n == chunks.len() - 1 && n == outs.len() - 1 ==> encoded_run(
            chunks.drop_last(),
            phase,
            cfg,
            start,
            outs.drop_last(),
            n,
            after,
        ),
    decreases n,
{
    if n > 0 {
        let before = choose|before: PolicyCounters|
            encoded_run(chunks, phase, cfg, start, outs, (n - 1) as nat, before)
                && #[trigger] encoded(chunks[n - 1], phase, cfg, before, outs[n - 1], after);
        lemma_run_cut(chunks, phase, cfg, start, outs, (n - 1) as nat, before);
        lemma_run_prefix(
            chunks.take(n - 1),
            chunks.take(n as int),
            phase,
            cfg,
            start,
            outs.take(n - 1),
            outs.take(n as int),
            (n - 1) as nat,
            before,
        );
        assert(encoded(
            chunks.take(n as int)[n - 1],
            phase,
            cfg,
            before,
            outs.take(n as int)[n - 1],
            after,
        ));
    }
    if n == chunks.len() - 1 && n == outs.len() - 1 {
        assert(chunks.take(n as int) =~= chunks.drop_last());
        assert(outs.take(n as int) =~= outs.drop_last());
    }
}

/// Decoding a framed raw payload gives the payload, decoding a framed zstd
/// form gives what the form decodes to, and no other first byte decodes.
pub proof fn law_framing(codec: CodecId, payload: Seq<u8>, byte: u8)
    ensures
        decoded_plaintext(framed(CodecId::Raw, payload)) == Some(payload),
        decoded_plaintext(framed(CodecId::Zstd, payload)) == zstd_decoded(payload),
        framed(codec, payload).len() == payload.len() + 1,
        byte > 1 ==> decoded_plaintext(seq![byte] + payload) is None,
        decoded_plaintext(Seq::empty()) is None,
{
    assert(framed(CodecId::Raw, payload).skip(1) =~= payload);
    assert(framed(CodecId::Zstd, payload).skip(1) =~= payload);
}

/// The retry never happens during a set's first snapshot, nor where the
/// configuration has it off.
pub proof fn law_escalation_gate(
    raw_len: int,
    probe_len: int,
    base_len: Option<int>,
    retry_len: Option<int>,
    phase: Phase,
    cfg: PolicyConfig,
)
    ensures
        phase == Phase::InitialFull || !cfg.escalate ==> {
            let d = policy_decision(raw_len, probe_len, base_len, retry_len, phase, cfg);
            !d.attempted && d.stored != Stored::Escalated
        },
{
}

/// During a set's first snapshot the policy does what it does with the retry
/// off: the same codec, payload and counters.
pub proof fn law_first_snapshot_ignores_escalation(
    chunk: Seq<u8>,
    cfg: PolicyConfig,
    before: PolicyCounters,
    codec: CodecId,
    payload: Seq<u8>,
    after: PolicyCounters,
)
    ensures
        chosen(chunk, Phase::InitialFull, cfg, before, codec, payload, after) <==> chosen(
            chunk,
            Phase::InitialFull,
            PolicyConfig { escalate: false, ..cfg },
            before,
            codec,
            payload,
            after,
        ),
        chosen(chunk, Phase::InitialFull, cfg, before, codec, payload, after) ==> {
            &&& after.escalation_attempts == before.escalation_attempts
            &&& after.escalated == before.escalated
        },
{
}

/// No retry is counted over a whole run of a set's first snapshot, nor over one
/// with the retry off.
pub proof fn law_gated_run_counts_no_retry(
    chunks: Seq<Seq<u8>>,
    phase: Phase,
    cfg: PolicyConfig,
    start: PolicyCounters,
    outs: Seq<Seq<u8>>,
    n: nat,
    after: PolicyCounters,
)
    requires
        encoded_run(chunks, phase, cfg, start, outs, n, after),
        phase == Phase::InitialFull || !cfg.escalate,
    ensures
        after.escalation_attempts == start.escalation_attempts,
        after.escalated == start.escalated,
    decreases n,
{
    if n > 0 {
        let before = choose|before: PolicyCounters|
            encoded_run(chunks, phase, cfg, start, outs, (n - 1) as nat, before)
                && #[trigger] encoded(chunks[n - 1], phase, cfg, before, outs[n - 1], after);
        law_gated_run_counts_no_retry(chunks, phase, cfg, start, outs, (n - 1) as nat, before);
    }
}

/// The policy is a function of the chunks: two runs over the same chunks give
/// the same outputs, whatever was counted before, and from the same counters
/// they come to the same counters.
pub proof fn law_runs_agree(
    chunks: Seq<Seq<u8>>,
    phase: Phase,
    cfg: PolicyConfig,
    start_a: PolicyCounters,
    start_b: PolicyCounters,
    outs_a: Seq<Seq<u8>>,
    outs_b: Seq<Seq<u8>>,
    n: nat,
    a: PolicyCounters,
    b: PolicyCounters,
)
    requires
        encoded_run(chunks, phase, cfg, start_a, outs_a, n, a),
        encoded_run(chunks, phase, cfg, start_b, outs_b, n, b),
    ensures
        start_a == start_b ==> a == b,
        forall|i: int| #![trigger outs_a[i]] 0 <= i < n ==> outs_a[i] == outs_b[i],
    decreases n,
{
    if n > 0 {
        let before_a = choose|before: PolicyCounters|
            encoded_run(chunks, phase, cfg, start_a, outs_a, (n - 1) as nat, before)
                && #[trigger] encoded(chunks[n - 1], phase, cfg, before, outs_a[n - 1], a);
        let before_b = choose|before: PolicyCounters|
            encoded_run(chunks, phase, cfg, start_b, outs_b, (n - 1) as nat, before)
                && #[trigger] encoded(chunks[n - 1], phase, cfg, before, outs_b[n - 1], b);
        law_runs_agree(
            chunks,
            phase,
            cfg,
            start_a,
            start_b,
            outs_a,
            outs_b,
            (n - 1) as nat,
            before_a,
            before_b,
        );
    }
}

/// With a keep threshold of at most one no payload is longer than its chunk.
pub proof fn lemma_payload_fits(chunk: Seq<u8>, phase: Phase, cfg: PolicyConfig)
    requires
        cfg.keep_threshold.at_most_one(),
    ensures
        stored_payload(chunk, decision_for(chunk, phase, cfg).stored, cfg).len() <= chunk.len(),
{
    let k = cfg.keep_threshold;
    let base = zstd_encoded(chunk, cfg.zstd_level);
    if base is Some && k.covers(base->0.len() as int, chunk.len() as int) {
        let b = base->0.len() as int;
        let n = chunk.len() as int;
        assert(b <= n) by (nonlinear_arith)
            requires
                b * k.den <= n * k.num,
                0 <= k.num <= k.den,
                0 < k.den,
                0 <= n,
                0 <= b,
        ;
    }
}

/// Each chunk counts once, and with a keep threshold of at most one storing
/// never takes more payload bytes than the chunk has.
pub proof fn law_counting(
    chunk: Seq<u8>,
    phase: Phase,
    cfg: PolicyConfig,
    before: PolicyCounters,
    codec: CodecId,
    payload: Seq<u8>,
    after: PolicyCounters,
)
    requires
        chosen(chunk, phase, cfg, before, codec, payload, after),
        before.chunks() < u64::MAX,
    ensures
        after.chunks() == before.chunks() + 1,
        after.bytes_in == capped(before.bytes_in + chunk.len()),
        after.bytes_out == capped(before.bytes_out + payload.len()),
        after.escalated - before.escalated <= after.escalation_attempts
            - before.escalation_attempts || after.escalation_attempts == u64::MAX,
        cfg.keep_threshold.at_most_one() ==> payload.len() <= chunk.len(),
{
    if cfg.keep_threshold.at_most_one() {
        lemma_payload_fits(chunk, phase, cfg);
    }
}

/// A keep threshold of zero stores every chunk raw, whatever the compressors
/// give, and one without bound keeps every first attempt that succeeds.
pub proof fn law_keep_extremes(
    raw_len: int,
    probe_len: int,
    base_len: int,
    retry_len: Option<int>,
    phase: Phase,
    cfg: PolicyConfig,
)
    requires
        raw_len > 0,
        base_len > 0,
    ensures
        cfg.keep_threshold.num == 0 && cfg.keep_threshold.den > 0 ==> policy_decision(
            raw_len,
            probe_len,
            Some(base_len),
            retry_len,
            phase,
            cfg,
        ).stored == Stored::Raw,
        cfg.keep_threshold.den == 0 && !cfg.use_probe ==> policy_decision(
            raw_len,
            probe_len,
            Some(base_len),
            retry_len,
            phase,
            cfg,
        ).stored != Stored::Raw,
{
    let k = cfg.keep_threshold;
    if k.num == 0 && k.den > 0 {
        let den = k.den as int;
        assert(base_len * den > 0) by (nonlinear_arith)
            requires
                base_len > 0,
                den > 0,
        ;
        assert(raw_len * (k.num as int) == 0) by (nonlinear_arith)
            requires
                k.num == 0,
        ;
    }
    if k.den == 0 {
        let num = k.num as int;
        assert(base_len * (k.den as int) == 0) by (nonlinear_arith)
            requires
                k.den == 0,
        ;
        assert(raw_len * num >= 0) by (nonlinear_arith)
            requires
                raw_len > 0,
                num >= 0,
        ;
    }
}

/// Whether calls of the policy were made one after the other, each with its own
/// configuration and phase: the counters between them, and what each gave.
pub open spec fn calls_made(
    chunks: Seq<Seq<u8>>,
    phases: Seq<Phase>,
    cfgs: Seq<PolicyConfig>,
    counters: Seq<PolicyCounters>,
    codecs: Seq<CodecId>,
    payloads: Seq<Seq<u8>>,
) -> bool {
    &&& phases.len() == chunks.len()
    &&& cfgs.len() == chunks.len()
    &&& codecs.len() == chunks.len()
    &&& payloads.len() == chunks.len()
    &&& counters.len() == chunks.len() + 1
    &&& counters[0] == zero_counters()
    &&& forall|i: int|
        #![trigger chunks[i]]
        0 <= i < chunks.len() ==> chosen(
            chunks[i],
            phases[i],
            cfgs[i],
            counters[i],
            codecs[i],
            payloads[i],
            counters[i + 1],
        )
}

/// How often a codec occurs.
pub open spec fn times_chosen(codecs: Seq<CodecId>, codec: CodecId) -> int
    decreases codecs.len(),
{
    if codecs.len() == 0 {
        0
    } else {
        times_chosen(codecs.drop_last(), codec) + if codecs.last() == codec {
            1int
        } else {
            0
        }
    }
}

proof fn lemma_fewer_calls(
    chunks: Seq<Seq<u8>>,
    phases: Seq<Phase>,
    cfgs: Seq<PolicyConfig>,
    counters: Seq<PolicyCounters>,
    codecs: Seq<CodecId>,
    payloads: Seq<Seq<u8>>,
)
    requires
        calls_made(chunks, phases, cfgs, counters, codecs, payloads),
        chunks.len() > 0,
    ensures
        calls_made(
            chunks.drop_last(),
            phases.drop_last(),
            cfgs.drop_last(),
            counters.drop_last(),
            codecs.drop_last(),
            payloads.drop_last(),
        ),
        chosen(
            chunks.last(),
            phases.last(),
            cfgs.last(),
            counters.drop_last().last(),
            codecs.last(),
            payloads.last(),
            counters.last(),
        ),
{
    let fewer = chunks.drop_last();
    assert forall|i: int| #![trigger fewer[i]] 0 <= i < fewer.len() implies chosen(
        fewer[i],
        phases.drop_last()[i],
        cfgs.drop_last()[i],
        counters.drop_last()[i],
        codecs.drop_last()[i],
        payloads.drop_last()[i],
        counters.drop_last()[i + 1],
    ) by {
        assert(fewer[i] == chunks[i]);
    }
    assert(chunks[chunks.len() - 1] == chunks.last());
}

/// The counters add up over any calls, whatever configuration and phase each
/// has: every chunk once, under the codec that it got, with its bytes and those
/// of its payload.
pub proof fn law_calls_add_up(
    chunks: Seq<Seq<u8>>,
    phases: Seq<Phase>,
    cfgs: Seq<PolicyConfig>,
    counters: Seq<PolicyCounters>,
    codecs: Seq<CodecId>,
    payloads: Seq<Seq<u8>>,
)
    requires
        calls_made(chunks, phases, cfgs, counters, codecs, payloads),
        chunks.len() <= u64::MAX,
        total_len(chunks) <= u64::MAX,
        total_len(payloads) <= u64::MAX,
    ensures
        counters.last().chunks() == chunks.len(),
        counters.last().bytes_in == total_len(chunks),
        counters.last().bytes_out == total_len(payloads),
        counters.last().raw == times_chosen(codecs, CodecId::Raw),
        counters.last().zstd3 + counters.last().escalated == times_chosen(codecs, CodecId::Zstd),
        counters.last().escalated <= counters.last().escalation_attempts <= chunks.len(),
        total_len(chunks) >= 0,
        total_len(payloads) >= 0,
    decreases chunks.len(),
{
    if chunks.len() > 0 {
        lemma_fewer_calls(chunks, phases, cfgs, counters, codecs, payloads);
        law_calls_add_up(
            chunks.drop_last(),
            phases.drop_last(),
            cfgs.drop_last(),
            counters.drop_last(),
            codecs.drop_last(),
            payloads.drop_last(),
        );
    }
}

/// Over any calls whose keep thresholds are at most one, storing never takes
/// more payload bytes than the chunks have, so what was saved is the
/// difference; where every chunk was stored raw, it is nothing.
pub proof fn law_nothing_is_lost_over_calls(
    chunks: Seq<Seq<u8>>,
    phases: Seq<Phase>,
    cfgs: Seq<PolicyConfig>,
    counters: Seq<PolicyCounters>,
    codecs: Seq<CodecId>,
    payloads: Seq<Seq<u8>>,
)
    requires
        calls_made(chunks, phases, cfgs, counters, codecs, payloads),
        forall|i: int|
            #![trigger cfgs[i]]
            0 <= i < cfgs.len() ==> cfgs[i].keep_threshold.at_most_one(),
    ensures
        counters.last().bytes_out <= counters.last().bytes_in,
        counters.last().saved() == counters.last().bytes_in - counters.last().bytes_out,
        (forall|i: int| #![trigger codecs[i]] 0 <= i < codecs.len() ==> codecs[i] == CodecId::Raw)
            ==> counters.last().saved() == 0,
    decreases chunks.len(),
{
    if chunks.len() > 0 {
        lemma_fewer_calls(chunks, phases, cfgs, counters, codecs, payloads);
        assert(cfgs[cfgs.len() - 1] == cfgs.last());
        assert forall|i: int|
            #![trigger cfgs.drop_last()[i]]
            0 <= i < cfgs.len() - 1 implies cfgs.drop_last()[i].keep_threshold.at_most_one() by {
            assert(cfgs.drop_last()[i] == cfgs[i]);
        }
        law_nothing_is_lost_over_calls(
            chunks.drop_last(),
            phases.drop_last(),
            cfgs.drop_last(),
            counters.drop_last(),
            codecs.drop_last(),
            payloads.drop_last(),
        );
        lemma_payload_fits(chunks.last(), phases.last(), cfgs.last());
        if forall|i: int| #![trigger codecs[i]] 0 <= i < codecs.len() ==> codecs[i] == CodecId::Raw {
            assert(codecs[codecs.len() - 1] == codecs.last());
            assert forall|i: int|
                #![trigger codecs.drop_last()[i]]
                0 <= i < codecs.len() - 1 implies codecs.drop_last()[i] == CodecId::Raw by {
                assert(codecs.drop_last()[i] == codecs[i]);
            }
        }
    }
}

/// A chunk is stored raw just if it is empty, the probe finds it too little
/// compressible, zstd fails on it, or its zstd form is above the kept share.
pub proof fn law_stored_raw_just_if(
    raw_len: int,
    probe_len: int,
    base_len: Option<int>,
    retry_len: Option<int>,
    phase: Phase,
    cfg: PolicyConfig,
)
    requires
        raw_len >= 0,
        probe_len >= 1,
    ensures
        policy_decision(raw_len, probe_len, base_len, retry_len, phase, cfg).stored == Stored::Raw
            <==> {
            ||| raw_len == 0
            ||| cfg.use_probe && raw_len * cfg.probe_threshold.den < probe_len
                * cfg.probe_threshold.num
            ||| base_len is None
            ||| base_len->0 * cfg.keep_threshold.den > raw_len * cfg.keep_threshold.num
        },
        policy_decision(raw_len, probe_len, base_len, retry_len, phase, cfg).stored == Stored::Raw
            ==> !policy_decision(raw_len, probe_len, base_len, retry_len, phase, cfg).attempted,
{
}

/// The retry is made just for a chunk whose zstd form is kept, in a later
/// snapshot, with the retry on, and where the chunk is so many times as long as
/// that form; its output is stored just if it is shorter.
pub proof fn law_retry_just_if(
    raw_len: int,
    probe_len: int,
    base_len: Option<int>,
    retry_len: Option<int>,
    phase: Phase,
    cfg: PolicyConfig,
)
    ensures
        ({
            let d = policy_decision(raw_len, probe_len, base_len, retry_len, phase, cfg);
            &&& d.attempted <==> d.stored != Stored::Raw && cfg.escalate && phase
                == Phase::Incremental && raw_len * cfg.escalate_ratio.den >= base_len->0
                * cfg.escalate_ratio.num
            &&& d.stored == Stored::Escalated <==> d.attempted && retry_len is Some && retry_len->0
                < base_len->0
        }),
{
}

/// The codec says what the payload is: raw, the chunk itself; zstd, a zstd form
/// of it at one of the policy's two levels.
pub proof fn law_codec_tells_the_payload(
    chunk: Seq<u8>,
    phase: Phase,
    cfg: PolicyConfig,
    before: PolicyCounters,
    codec: CodecId,
    payload: Seq<u8>,
    after: PolicyCounters,
)
    requires
        chosen(chunk, phase, cfg, before, codec, payload, after),
    ensures
        codec == CodecId::Raw ==> payload == chunk,
        codec == CodecId::Zstd ==> zstd_encoded(chunk, cfg.zstd_level) == Some(payload)
            || zstd_encoded(chunk, cfg.escalate_level) == Some(payload),
        codec == CodecId::Raw <==> decision_for(chunk, phase, cfg).stored == Stored::Raw,
{
}

/// Below the largest count, one chunk moves one of the three counts by one, the
/// one that its stored form belongs to, and the retries by one just if one was
/// made.
pub proof fn law_chunk_counts_by_its_form(
    c: PolicyCounters,
    d: Decision,
    raw_len: int,
    stored_len: int,
)
    requires
        0 <= raw_len,
        0 <= stored_len,
        c.raw < u64::MAX,
        c.zstd3 < u64::MAX,
        c.escalated < u64::MAX,
        c.escalation_attempts < u64::MAX,
        c.bytes_in + raw_len <= u64::MAX,
        c.bytes_out + stored_len <= u64::MAX,
    ensures
        ({
            let n = counted(c, d, raw_len, stored_len);
            &&& n.raw == c.raw + 1 <==> d.stored == Stored::Raw
            &&& n.zstd3 == c.zstd3 + 1 <==> d.stored == Stored::Base
            &&& n.escalated == c.escalated + 1 <==> d.stored == Stored::Escalated
            &&& n.escalation_attempts == c.escalation_attempts + 1 <==> d.attempted
            &&& n.raw == c.raw || n.raw == c.raw + 1
            &&& n.zstd3 == c.zstd3 || n.zstd3 == c.zstd3 + 1
            &&& n.escalated == c.escalated || n.escalated == c.escalated + 1
            &&& n.escalation_attempts == c.escalation_attempts || n.escalation_attempts
                == c.escalation_attempts + 1
            &&& n.bytes_in == c.bytes_in + raw_len
            &&& n.bytes_out == c.bytes_out + stored_len
        }),
{
}

/// A capped sum is the sum, or the largest number where the sum is above it.
pub proof fn law_capped(n: int)
    requires
        0 <= n,
    ensures
        n <= u64::MAX ==> capped(n) == n,
        n > u64::MAX ==> capped(n) == u64::MAX,
{
}

/// What is saved is what went in beyond what came out, and nothing where more
/// came out; what was seen is what was stored in any form.
pub proof fn law_saved_bytes(c: PolicyCounters)
    ensures
        c.saved() >= 0,
        c.bytes_in >= c.bytes_out ==> c.saved() + c.bytes_out == c.bytes_in,
        c.bytes_in <= c.bytes_out ==> c.saved() == 0,
        c.chunks() - c.raw == c.zstd3 + c.escalated,
        zero_counters().chunks() == 0,
        zero_counters().escalation_attempts == 0,
        zero_counters().bytes_in == 0,
        zero_counters().bytes_out == 0,
{
}

/// Lengths of outputs add up.
pub proof fn law_lengths_add_up(outs: Seq<Seq<u8>>, out: Seq<u8>)
    ensures
        total_len(outs.push(out)) == total_len(outs) + out.len(),
        total_len(Seq::empty()) == 0,
{
    assert(outs.push(out).drop_last() =~= outs);
}

/// A frame is the payload behind one byte: zero for raw, one for zstd.
pub proof fn law_frames(payload: Seq<u8>)
    ensures
        framed(CodecId::Raw, payload) == seq![0u8] + payload,
        framed(CodecId::Zstd, payload) == seq![1u8] + payload,
{
}

/// What encoding gives is the frame of what the policy stores.
pub proof fn law_encoding_frames_the_choice(
    chunk: Seq<u8>,
    phase: Phase,
    cfg: PolicyConfig,
    before: PolicyCounters,
    out: Seq<u8>,
    after: PolicyCounters,
)
    requires
        encoded(chunk, phase, cfg, before, out, after),
    ensures
        exists|codec: CodecId, payload: Seq<u8>|
            out == #[trigger] framed(codec, payload) && chosen(
                chunk,
                phase,
                cfg,
                before,
                codec,
                payload,
                after,
            ),
        out.len() > 0,
        out[0] == 0 ==> out.skip(1) == chunk,
{
    let d = decision_for(chunk, phase, cfg);
    let payload = stored_payload(chunk, d.stored, cfg);
    let codec = stored_codec(d.stored);
    assert(out == framed(codec, payload));
    assert(out.skip(1) =~= payload);
    law_codec_tells_the_payload(chunk, phase, cfg, before, codec, payload, after);
}

/// The decision for a chunk goes by its own length, the length of its lz4 form,
/// and those of its zstd forms at the policy's two levels; what is stored is the
/// form that it names.
pub proof fn law_decision_goes_by_the_forms(chunk: Seq<u8>, phase: Phase, cfg: PolicyConfig)
    ensures
        ({
            let base = zstd_encoded(chunk, cfg.zstd_level);
            let retry = zstd_encoded(chunk, cfg.escalate_level);
            let d = decision_for(chunk, phase, cfg);
            &&& d == policy_decision(
                chunk.len() as int,
                lz4_form(chunk, usize::BITS, endianness() == Endian::Little).len() as int,
                if base is Some {
                    Some(base->0.len() as int)
                } else {
                    None
                },
                if retry is Some {
                    Some(retry->0.len() as int)
                } else {
                    None
                },
                phase,
                cfg,
            )
            &&& d.stored == Stored::Raw ==> stored_payload(chunk, d.stored, cfg) == chunk
            &&& d.stored == Stored::Base ==> base == Some(stored_payload(chunk, d.stored, cfg))
            &&& d.stored == Stored::Escalated ==> retry == Some(
                stored_payload(chunk, d.stored, cfg),
            )
            &&& d.stored == Stored::Raw <==> stored_codec(d.stored) == CodecId::Raw
        }),
{
}

/// Decoding fails for want of a codec byte, for a codec byte above one, which is
/// told, or for a zstd form that does not decode.
pub proof fn law_decoding_fails_for_a_cause(framed_bytes: Seq<u8>, e: CompressionError)
    requires
        decode_error(framed_bytes, e),
    ensures
        decoded_plaintext(framed_bytes) is None,
        e is Empty <==> framed_bytes.len() == 0,
        e is UnknownCodec <==> framed_bytes.len() > 0 && framed_bytes[0] > 1,
        e matches CompressionError::UnknownCodec(b) ==> b == framed_bytes[0],
        e is Decompress <==> framed_bytes.len() > 0 && framed_bytes[0] == 1,
{
}

} // verus!
