//! Client configuration: what is backed up, where to, and how it is cut and
//! compressed.
use vstd::prelude::*;

use crate::chunking::{
    max_for_target, sizes_message, sizes_valid, ChunkerConfig, ChunkingError,
};
use crate::compression::PolicyConfig;
use crate::policy_bench::default_policy;
use crate::ratio::Ratio;
use crate::units::{parse_size_text, size_in_text, UnitFault};

verus! {

/// Why a configuration cannot be used.
#[derive(Debug, Clone, PartialEq, Eq)]
pub enum ConfigError {
    /// There is no folder to back up.
    NoFolders,
    /// No chunk size is committed, and the default was not accepted.
    ChunkSizeUnset,
    /// The chunk size is not a size.
    BadChunkSize {
        /// The text.
        value: String,
        /// What is wrong with it.
        reason: &'static str,
    },
    /// The chunk size is not a usable one.
    Chunking(ChunkingError),
}

/// What the operator is told while no chunk size is committed.
pub const CHUNK_SIZE_UNSET: &'static str =
    "no chunk_target_size committed in config: run `busyncr-client bench-chunking <folder>` to pick a size empirically and set chunk_target_size, or pass --default-chunking to accept the 1 MiB default (changing the size later resets dedup continuity)";

/// Client configuration.
#[derive(Debug, Clone, PartialEq, Eq)]
pub struct ClientConfig {
    /// The daemon's endpoint.
    pub daemon: String,
    /// Folders to back up.
    pub folders: Vec<String>,
    /// The committed target chunk size, such as `256K` or `1M`.
    pub chunk_target_size: Option<String>,
    /// The compression policy.
    pub compression: PolicyConfig,
}

/// Whether a chunker has the sizes that go with a target.
pub open spec fn has_target(c: ChunkerConfig, target: int) -> bool {
    &&& sizes_valid(target / 4, target, max_for_target(target))
    &&& c.min() == target / 4
    &&& c.target() == target
    &&& c.max() == max_for_target(target)
}

/// Whether a failure is that of a target that no chunker can have.
pub open spec fn target_refused(e: ChunkingError, target: int) -> bool {
    &&& !sizes_valid(target / 4, target, max_for_target(target))
    &&& e matches ChunkingError::InvalidConfig(m) && m@ == sizes_message(
        target / 4,
        target,
        max_for_target(target),
    )
}

/// What is said of a text that is not a size.
pub open spec fn size_reason(f: UnitFault) -> Seq<char> {
    match f {
        UnitFault::Empty => "empty size"@,
        UnitFault::NotANumber => "not a number"@,
        UnitFault::Overflow => "overflows"@,
    }
}

/// Parses a size such as `256K`, `1M` or `4096` into bytes.
pub fn parse_size(s: &str) -> (r: Result<usize, ConfigError>)
    ensures
        match r {
            Ok(v) => size_in_text(s@) == Ok::<int, UnitFault>(v as int),
            Err(e) => {
                &&& e matches ConfigError::BadChunkSize { value, reason } && value@ == s@ && (
                size_in_text(s@) matches Err(f) && reason@ == size_reason(f))
            },
        },
{
    match parse_size_text(s) {
        Ok(v) => Ok(v),
        Err(f) => {
            let reason: &'static str = match f {
                UnitFault::Empty => "empty size",
                UnitFault::NotANumber => "not a number",
                UnitFault::Overflow => "overflows",
            };
            Err(ConfigError::BadChunkSize { value: s.to_owned(), reason })
        },
    }
}

impl ClientConfig {
    /// Checks that there is something to back up.
    pub fn validate(&self) -> (r: Result<(), ConfigError>)
        ensures
            match r {
                Ok(()) => self.folders@.len() > 0,
                Err(e) => self.folders@.len() == 0 && e is NoFolders,
            },
    {
        if self.folders.len() == 0 {
            return Err(ConfigError::NoFolders);
        }
        Ok(())
    }

    /// The chunker for the committed size. Without one it is refused, unless
    /// the default is accepted.
    pub fn chunker(&self, allow_default: bool) -> (r: Result<ChunkerConfig, ConfigError>)
        ensures
            match self.chunk_target_size {
                None => if allow_default {
                    r matches Ok(c) && has_target(c, ChunkerConfig::DEFAULT_TARGET_SIZE as int)
                } else {
                    r matches Err(e) && e is ChunkSizeUnset
                },
                Some(text) => match size_in_text(text@) {
                    Err(f) => r matches Err(ConfigError::BadChunkSize { value, reason }) && value@
                        == text@ && reason@ == size_reason(f),
                    Ok(target) => match r {
                        Ok(c) => has_target(c, target),
                        Err(e) => e matches ConfigError::Chunking(c) && target_refused(c, target),
                    },
                },
            },
    {
        match &self.chunk_target_size {
            Some(text) => match parse_size(text.as_str()) {
                Err(e) => Err(e),
                Ok(target) => match ChunkerConfig::with_target(target) {
                    Ok(c) => Ok(c),
                    Err(e) => Err(ConfigError::Chunking(e)),
                },
            },
            None => {
                if allow_default {
                    match ChunkerConfig::with_target(ChunkerConfig::DEFAULT_TARGET_SIZE) {
                        Ok(c) => Ok(c),
                        Err(e) => Err(ConfigError::Chunking(e)),
                    }
                } else {
                    Err(ConfigError::ChunkSizeUnset)
                }
            },
        }
    }
}

/// The compression settings of a configuration file; what is not set keeps its
/// default.
#[derive(Debug, Clone, Copy, PartialEq, Eq, Structural)]
pub struct CompressionSettings {
    /// Whether an lz4 probe comes first.
    pub use_probe: Option<bool>,
    /// Whether well-compressing chunks are retried.
    pub escalate: Option<bool>,
    /// zstd level.
    pub zstd_level: Option<i32>,
    /// zstd level of the retry.
    pub escalate_level: Option<i32>,
    /// Keep threshold.
    pub keep_threshold: Option<Ratio>,
    /// Probe threshold.
    pub probe_threshold: Option<Ratio>,
    /// Escalation ratio.
    pub escalate_ratio: Option<Ratio>,
}

/// A ratio that is to be reached: what is no number is never reached.
pub open spec fn reachable(r: Ratio) -> Ratio {
    if r.num == 0 && r.den == 0 {
        Ratio { num: 1, den: 0 }
    } else {
        r
    }
}

fn never_reached_if_nan(r: Ratio) -> (out: Ratio)
    ensures
        out == reachable(r),
{
    if r.num == 0 && r.den == 0 {
        Ratio { num: 1, den: 0 }
    } else {
        r
    }
}

/// The policy of compression settings: the default one, but for what is set.
#[must_use]
pub fn policy_from(s: &CompressionSettings) -> (r: PolicyConfig)
    ensures
        r.use_probe == s.use_probe.unwrap_or(default_policy().use_probe),
        r.escalate == s.escalate.unwrap_or(default_policy().escalate),
        r.zstd_level == s.zstd_level.unwrap_or(default_policy().zstd_level),
        r.escalate_level == s.escalate_level.unwrap_or(default_policy().escalate_level),
        r.keep_threshold == s.keep_threshold.unwrap_or(default_policy().keep_threshold),
        r.probe_threshold == s.probe_threshold.unwrap_or(default_policy().probe_threshold),
        r.escalate_ratio == reachable(s.escalate_ratio.unwrap_or(default_policy().escalate_ratio)),
{
    let d: PolicyConfig = PolicyConfig::default();
    PolicyConfig {
        use_probe: s.use_probe.unwrap_or(d.use_probe),
        escalate: s.escalate.unwrap_or(d.escalate),
        zstd_level: s.zstd_level.unwrap_or(d.zstd_level),
        escalate_level: s.escalate_level.unwrap_or(d.escalate_level),
        keep_threshold: s.keep_threshold.unwrap_or(d.keep_threshold),
        probe_threshold: s.probe_threshold.unwrap_or(d.probe_threshold),
        escalate_ratio: never_reached_if_nan(s.escalate_ratio.unwrap_or(d.escalate_ratio)),
    }
}

/// A chunker for a target has a quarter of it as minimum and four times it as
/// maximum; there is one just from 256 bytes to four mebibytes.
pub proof fn law_chunker_sizes(c: ChunkerConfig, target: int)
    requires
        has_target(c, target),
    ensures
        256 <= target <= 4_194_304,
        c.target() == target,
        4 * c.min() <= target < 4 * c.min() + 4,
        c.max() == target + target + target + target,
{
}

/// A target is refused just where no chunker has it.
pub proof fn law_refused_targets(e: ChunkingError, target: int)
    requires
        0 <= target,
        target_refused(e, target),
    ensures
        target < 256 || target > 4_194_304,
        e is InvalidConfig,
{
}

/// Without settings a chunk is tried once, without a probe, and its compressed
/// form is kept if it is at most 95 hundredths of the chunk; a retry, where it
/// is on, is for chunks of at least twice their compressed length.
pub proof fn law_default_policy()
    ensures
        !default_policy().use_probe,
        !default_policy().escalate,
        default_policy().zstd_level == 3,
        default_policy().escalate_level == 9,
        forall|part: int, whole: int| #[trigger]
            default_policy().keep_threshold.covers(part, whole) <==> 100 * part <= 95 * whole,
        forall|part: int, whole: int| #[trigger]
            default_policy().probe_threshold.reached_by(whole, part) <==> 100 * whole >= 102 * part,
        forall|part: int, whole: int| #[trigger]
            default_policy().escalate_ratio.reached_by(whole, part) <==> whole >= 2 * part,
{
}

/// A ratio that is a number, or above all numbers, stays; one that is none is
/// reached by nothing.
pub proof fn law_reachable(r: Ratio, whole: int, part: int)
    requires
        whole > 0,
        part > 0,
    ensures
        r.num != 0 || r.den != 0 ==> reachable(r) == r,
        r.num == 0 && r.den == 0 ==> !reachable(r).reached_by(whole, part),
{
}

/// What is said of a text that is not a size is what is wrong with it.
pub proof fn law_size_reasons()
    ensures
        size_reason(UnitFault::Empty) == "empty size"@,
        size_reason(UnitFault::NotANumber) == "not a number"@,
        size_reason(UnitFault::Overflow) == "overflows"@,
{
}

} // verus!
