//! Content-defined chunking and chunk identity.
//!
//! Chunk boundaries come from FastCDC (2020) under a validated
//! [`ChunkerConfig`]. Every chunk is identified by a [`ChunkId`], a BLAKE3
//! hash of its plaintext taken before any encryption: plain for offline
//! measurements, keyed by the backup set's [`ChunkIdKey`] for everything that
//! is stored. Equal content under one key has one identity, across files,
//! snapshots and time.
use vstd::prelude::*;

use crate::bytes::copy_range;
use crate::text::{chars_of, decimal, push_decimal};

verus! {

/// Smallest permitted minimum size.
pub const MIN_SIZE_FLOOR: usize = 64;

/// Largest permitted minimum size.
pub const MIN_SIZE_CEILING: usize = 1_048_576;

/// Smallest permitted target size.
pub const TARGET_SIZE_FLOOR: usize = 256;

/// Largest permitted target size.
pub const TARGET_SIZE_CEILING: usize = 4_194_304;

/// Smallest permitted maximum size.
pub const MAX_SIZE_FLOOR: usize = 1024;

/// Largest permitted maximum size.
pub const MAX_SIZE_CEILING: usize = 16_777_216;

/// Errors of the chunking engine.
#[derive(Debug, Clone, PartialEq, Eq)]
pub enum ChunkingError {
    /// The requested sizes are out of range or not ordered.
    InvalidConfig(String),
    /// The underlying reader failed while streaming.
    Io(String),
    /// The chunker reported an unexpected internal error.
    Internal(String),
}

/// Error of parsing a [`ChunkId`] from hex.
#[derive(Debug, Clone, Copy, PartialEq, Eq, Structural)]
pub enum ChunkIdParseError {
    /// The string did not have exactly 64 characters.
    BadLength(usize),
    /// The string held a character that is not a hex digit.
    BadChar(char),
}

/// What `blake3::hash` gives for the given content.
pub uninterp spec fn blake3_hash(content: Seq<u8>) -> Seq<u8>;

/// What `blake3::keyed_hash` gives for the given key and content.
pub uninterp spec fn blake3_keyed_hash(key: Seq<u8>, content: Seq<u8>) -> Seq<u8>;

/// The cut points that `fastcdc::v2020::FastCDC` finds: the offset and the
/// length of each chunk, in order.
pub uninterp spec fn fastcdc_cuts(data: Seq<u8>, min: usize, target: usize, max: usize) -> Seq<
    (usize, usize),
>;

/// Calls `blake3::hash`, the 32-byte digest of the content.
#[verifier::external_body]
fn plain_digest(content: &[u8]) -> (r: [u8; 32])
    ensures
        r@ == blake3_hash(content@),
{
    *blake3::hash(content).as_bytes()
}

/// Calls `blake3::keyed_hash`, the 32-byte digest of the content under a
/// 32-byte key.
#[verifier::external_body]
fn keyed_digest(key: &[u8; 32], content: &[u8]) -> (r: [u8; 32])
    ensures
        r@ == blake3_keyed_hash(key@, content@),
{
    *blake3::keyed_hash(key, content).as_bytes()
}

/// Iterates `fastcdc::v2020::FastCDC` over the data and hands out each
/// chunk's offset and length. The chunks follow one another without gaps from
/// the start of the data to its end; none is empty or longer than the
/// maximum; all but the last reach the minimum; and data no longer than the
/// minimum is a single chunk. The chunker looks at the bytes in pairs from half
/// the minimum on, so an odd minimum below the maximum could be missed by one
/// byte: it is left out.
#[verifier::external_body]
fn cut_points(data: &[u8], min: usize, target: usize, max: usize) -> (r: Vec<(usize, usize)>)
    requires
        MIN_SIZE_FLOOR <= min <= MIN_SIZE_CEILING,
        TARGET_SIZE_FLOOR <= target <= TARGET_SIZE_CEILING,
        MAX_SIZE_FLOOR <= max <= MAX_SIZE_CEILING,
        min <= max,
        target <= max,
        min % 2 == 0 || min == max,
    ensures
        r@ == fastcdc_cuts(data@, min, target, max),
        cuts_tile(r@, data@.len() as int, min as int, max as int),
{
    fastcdc::v2020::FastCDC::new(data, min, target, max)
        .map(|c| (c.offset, c.length))
        .collect()
}

/// Whether the cut after `i` starts where cut `i` ends.
pub open spec fn cut_joins(cuts: Seq<(usize, usize)>, i: int) -> bool {
    cuts[i + 1].0 == cuts[i].0 + cuts[i].1
}

/// Whether a list of offsets and lengths tiles `len` bytes with chunks of
/// permitted sizes.
pub open spec fn cuts_tile(cuts: Seq<(usize, usize)>, len: int, min: int, max: int) -> bool {
    &&& forall|i: int| #![trigger cuts[i]] 0 <= i < cuts.len() ==> 1 <= cuts[i].1 <= max
    &&& forall|i: int|
        #![trigger cuts[i]]
        0 <= i < cuts.len() - 1 ==> min <= cuts[i].1
    &&& cuts.len() > 0 ==> cuts[0].0 == 0
    &&& forall|i: int| 0 <= i < cuts.len() - 1 ==> #[trigger] cut_joins(cuts, i)
    &&& if cuts.len() == 0 {
        len == 0
    } else {
        cuts.last().0 + cuts.last().1 == len
    }
    &&& 0 < len <= min ==> cuts.len() == 1
}

/// Identity of a chunk: the BLAKE3 hash of its plaintext.
#[derive(Debug, Clone, Copy, PartialEq, Eq, Hash, PartialOrd, Ord)]
pub struct ChunkId {
    /// The raw hash bytes.
    pub bytes: [u8; 32],
}

impl View for ChunkId {
    type V = Seq<u8>;

    open spec fn view(&self) -> Seq<u8> {
        self.bytes@
    }
}

/// The lowercase hex digit of a value below 16.
pub open spec fn hex_char(v: int) -> char {
    if v < 10 {
        (('0' as int) + v) as char
    } else {
        (('a' as int) + v - 10) as char
    }
}

/// Whether a character is a hex digit, in either case.
pub open spec fn is_hex(c: char) -> bool {
    ('0' <= c <= '9') || ('a' <= c <= 'f') || ('A' <= c <= 'F')
}

/// The value of a hex digit.
pub open spec fn hex_value(c: char) -> int {
    if '0' <= c <= '9' {
        c as int - '0' as int
    } else if 'a' <= c <= 'f' {
        c as int - 'a' as int + 10
    } else {
        c as int - 'A' as int + 10
    }
}

/// Bytes in lowercase hex, two digits each, high digit first.
pub open spec fn hex_of(bytes: Seq<u8>) -> Seq<char> {
    Seq::new(
        2 * bytes.len(),
        |i: int|
            hex_char(
                if i % 2 == 0 {
                    bytes[i / 2] as int / 16
                } else {
                    bytes[i / 2] as int % 16
                },
            ),
    )
}

/// The bytes that hex digits stand for.
pub open spec fn bytes_of_hex(s: Seq<char>) -> Seq<u8> {
    Seq::new(s.len() / 2, |i: int| (16 * hex_value(s[2 * i]) + hex_value(s[2 * i + 1])) as u8)
}

/// What parsing a chunk identity from text gives: its bytes, or the error.
pub open spec fn parsed_id(s: Seq<char>) -> Result<Seq<u8>, ChunkIdParseError> {
    if s.len() != 64 {
        Err(ChunkIdParseError::BadLength(s.len() as usize))
    } else if forall|i: int| 0 <= i < 64 ==> is_hex(#[trigger] s[i]) {
        Ok(bytes_of_hex(s))
    } else {
        Err(ChunkIdParseError::BadChar(s[first_non_hex(s, 0)]))
    }
}

/// The index of the first character at or after `from` that is no hex digit.
pub open spec fn first_non_hex(s: Seq<char>, from: int) -> int
    decreases s.len() - from,
{
    if from >= s.len() || !is_hex(s[from]) {
        from
    } else {
        first_non_hex(s, from + 1)
    }
}

proof fn lemma_first_non_hex(s: Seq<char>, from: int, at: int)
    requires
        0 <= from <= at < s.len(),
        forall|i: int| from <= i < at ==> is_hex(#[trigger] s[i]),
        !is_hex(s[at]),
    ensures
        first_non_hex(s, from) == at,
    decreases at - from,
{
    if from < at {
        assert(is_hex(s[from]));
        lemma_first_non_hex(s, from + 1, at);
    }
}

fn hex_digit(v: u8) -> (c: char)
    requires
        v < 16,
    ensures
        c == hex_char(v as int),
{
    if v == 0 {
        '0'
    } else if v == 1 {
        '1'
    } else if v == 2 {
        '2'
    } else if v == 3 {
        '3'
    } else if v == 4 {
        '4'
    } else if v == 5 {
        '5'
    } else if v == 6 {
        '6'
    } else if v == 7 {
        '7'
    } else if v == 8 {
        '8'
    } else if v == 9 {
        '9'
    } else if v == 10 {
        'a'
    } else if v == 11 {
        'b'
    } else if v == 12 {
        'c'
    } else if v == 13 {
        'd'
    } else if v == 14 {
        'e'
    } else {
        'f'
    }
}

fn hex_digit_value(c: char) -> (r: Option<u8>)
    ensures
        r == if is_hex(c) {
            Some(hex_value(c) as u8)
        } else {
            None::<u8>
        },
        is_hex(c) ==> 0 <= hex_value(c) < 16,
{
    let code: u32 = c as u32;
    if '0' <= c && c <= '9' {
        Some((code - 48) as u8)
    } else if 'a' <= c && c <= 'f' {
        Some((code - 97 + 10) as u8)
    } else if 'A' <= c && c <= 'F' {
        Some((code - 65 + 10) as u8)
    } else {
        None
    }
}

impl ChunkId {
    /// Number of raw bytes in a chunk identity.
    pub const LEN: usize = 32;

    /// The identity of plaintext content outside any backup set: its plain
    /// BLAKE3 hash.
    #[must_use]
    pub fn of(content: &[u8]) -> (r: Self)
        ensures
            r@ == blake3_hash(content@),
    {
        ChunkId { bytes: plain_digest(content) }
    }

    /// The identity of plaintext content in a backup set: its BLAKE3 hash
    /// keyed by the set's chunk-identity key.
    #[must_use]
    pub fn keyed(key: &ChunkIdKey, content: &[u8]) -> (r: Self)
        ensures
            r@ == blake3_keyed_hash(key@, content@),
    {
        ChunkId { bytes: keyed_digest(&key.bytes, content) }
    }

    /// Wraps raw hash bytes.
    #[must_use]
    pub fn from_bytes(bytes: [u8; 32]) -> (r: Self)
        ensures
            r.bytes == bytes,
            r@ == bytes@,
    {
        ChunkId { bytes }
    }

    /// The raw hash bytes.
    #[must_use]
    pub fn as_bytes(&self) -> (r: &[u8; 32])
        ensures
            *r == self.bytes,
            r@ == self@,
    {
        &self.bytes
    }

    /// The raw hash bytes as they go over the wire.
    #[must_use]
    pub fn to_wire(&self) -> (r: Vec<u8>)
        ensures
            r@ == self@,
    {
        let r: Vec<u8> = copy_range(&self.bytes, 0, 32);
        proof {
            assert(r@ =~= self@);
        }
        r
    }

    /// Parses raw hash bytes from the wire: `Some` exactly when there are 32.
    #[must_use]
    pub fn from_wire(raw: &[u8]) -> (r: Option<Self>)
        ensures
            match r {
                Some(id) => raw@.len() == 32 && id@ == raw@,
                None => raw@.len() != 32,
            },
    {
        if raw.len() != 32 {
            return None;
        }
        let bytes: [u8; 32] = crate::bytes::array32(raw, 0);
        proof {
            assert(raw@.subrange(0, 32) =~= raw@);
        }
        Some(ChunkId { bytes })
    }

    /// Whether two identities are the same.
    #[must_use]
    pub fn same(&self, other: &ChunkId) -> (r: bool)
        ensures
            r == (self@ == other@),
            r == (*self == *other),
    {
        let r: bool = crate::bytes::same_bytes(&self.bytes, &other.bytes);
        proof {
            if self@ == other@ {
                assert(self.bytes =~= other.bytes);
            }
        }
        r
    }

    /// The identity in lowercase hex.
    #[must_use]
    pub fn to_string(&self) -> (r: String)
        ensures
            r@ == hex_of(self@),
    {
        let mut out: String = String::new();
        let mut i: usize = 0;
        while i < 32
            invariant
                i <= 32,
                out@.len() == 2 * i,
                forall|k: int| 0 <= k < 2 * i ==> #[trigger] out@[k] == hex_of(self@)[k],
            decreases 32 - i,
        {
            let b: u8 = self.bytes[i];
            out.push(hex_digit(b / 16));
            out.push(hex_digit(b % 16));
            i = i + 1;
            proof {
                assert(hex_of(self@)[2 * i - 2] == hex_char(b as int / 16));
                assert(hex_of(self@)[2 * i - 1] == hex_char(b as int % 16));
            }
        }
        proof {
            assert(out@ =~= hex_of(self@));
        }
        out
    }

    /// Parses 64 hex digits, in either case.
    pub fn parse(s: &str) -> (r: Result<Self, ChunkIdParseError>)
        ensures
            match r {
                Ok(id) => parsed_id(s@) == Ok::<Seq<u8>, ChunkIdParseError>(id@),
                Err(e) => parsed_id(s@) == Err::<Seq<u8>, ChunkIdParseError>(e),
            },
    {
        let chars: Vec<char> = chars_of(s);
        if chars.len() != 64 {
            return Err(ChunkIdParseError::BadLength(chars.len()));
        }
        let mut bytes: [u8; 32] = [0u8; 32];
        let mut i: usize = 0;
        while i < 32
            invariant
                i <= 32,
                chars@ == s@,
                s@.len() == 64,
                forall|k: int| 0 <= k < 2 * i ==> is_hex(#[trigger] s@[k]),
                forall|k: int| 0 <= k < i ==> #[trigger] bytes@[k] == bytes_of_hex(s@)[k],
            decreases 32 - i,
        {
            let hi_char: char = chars[2 * i];
            let hi: u8 = match hex_digit_value(hi_char) {
                Some(v) => v,
                None => {
                    proof {
                        assert(!is_hex(s@[2 * i as int]));
                        lemma_first_non_hex(s@, 0, 2 * i as int);
                    }
                    return Err(ChunkIdParseError::BadChar(hi_char));
                },
            };
            let lo_char: char = chars[2 * i + 1];
            let lo: u8 = match hex_digit_value(lo_char) {
                Some(v) => v,
                None => {
                    proof {
                        assert(!is_hex(s@[2 * i + 1]));
                        lemma_first_non_hex(s@, 0, 2 * i + 1);
                    }
                    return Err(ChunkIdParseError::BadChar(lo_char));
                },
            };
            bytes[i] = 16 * hi + lo;
            i = i + 1;
        }
        proof {
            assert(bytes@ =~= bytes_of_hex(s@));
        }
        Ok(ChunkId { bytes })
    }
}

impl std::str::FromStr for ChunkId {
    type Err = ChunkIdParseError;

    fn from_str(s: &str) -> (r: Result<Self, ChunkIdParseError>)
        ensures
            match r {
                Ok(id) => parsed_id(s@) == Ok::<Seq<u8>, ChunkIdParseError>(id@),
                Err(e) => parsed_id(s@) == Err::<Seq<u8>, ChunkIdParseError>(e),
            },
    {
        ChunkId::parse(s)
    }
}

/// The secret key under which a backup set's chunk identities are taken.
#[derive(Clone, PartialEq, Eq)]
pub struct ChunkIdKey {
    /// The raw key bytes.
    pub bytes: [u8; 32],
}

impl View for ChunkIdKey {
    type V = Seq<u8>;

    open spec fn view(&self) -> Seq<u8> {
        self.bytes@
    }
}

impl ChunkIdKey {
    /// Makes a key of freshly drawn random bytes.
    #[must_use]
    pub fn generate(drawn: [u8; 32]) -> (r: Self)
        ensures
            r@ == drawn@,
    {
        ChunkIdKey { bytes: drawn }
    }

    /// Wraps raw key bytes.
    #[must_use]
    pub fn from_bytes(bytes: [u8; 32]) -> (r: Self)
        ensures
            r@ == bytes@,
    {
        ChunkIdKey { bytes }
    }

    /// The raw key bytes.
    #[must_use]
    pub fn as_bytes(&self) -> (r: &[u8; 32])
        ensures
            r@ == self@,
    {
        &self.bytes
    }
}

/// Whether minimum, target and maximum are in range and ordered.
pub open spec fn sizes_valid(min: int, target: int, max: int) -> bool {
    &&& MIN_SIZE_FLOOR <= min <= MIN_SIZE_CEILING
    &&& TARGET_SIZE_FLOOR <= target <= TARGET_SIZE_CEILING
    &&& MAX_SIZE_FLOOR <= max <= MAX_SIZE_CEILING
    &&& min <= target <= max
}

/// The message for sizes that are not valid: the first range that is missed,
/// or the order.
pub open spec fn sizes_message(min: int, target: int, max: int) -> Seq<char> {
    if !(MIN_SIZE_FLOOR <= min <= MIN_SIZE_CEILING) {
        "min_size "@ + decimal(min as nat) + " outside supported range 64..=1048576"@
    } else if !(TARGET_SIZE_FLOOR <= target <= TARGET_SIZE_CEILING) {
        "target_size "@ + decimal(target as nat) + " outside supported range 256..=4194304"@
    } else if !(MAX_SIZE_FLOOR <= max <= MAX_SIZE_CEILING) {
        "max_size "@ + decimal(max as nat) + " outside supported range 1024..=16777216"@
    } else {
        "sizes must satisfy min <= target <= max, got "@ + decimal(min as nat) + " / "@ + decimal(
            target as nat,
        ) + " / "@ + decimal(max as nat)
    }
}

/// The maximum that goes with a target: four times it, as far as `usize`
/// goes.
pub open spec fn max_for_target(target: int) -> int {
    if 4 * target > usize::MAX {
        usize::MAX as int
    } else {
        4 * target
    }
}

/// The minimum that the chunker is run with: the least that it keeps to the
/// byte, which is an even one or the maximum.
pub open spec fn even_min(min: usize, max: usize) -> usize {
    if min % 2 == 1 && min < max {
        (min + 1) as usize
    } else {
        min
    }
}

/// Validated minimum, target and maximum chunk sizes.
#[derive(Debug, Clone, Copy, PartialEq, Eq, Structural)]
pub struct ChunkerConfig {
    min_size: usize,
    target_size: usize,
    max_size: usize,
}

impl ChunkerConfig {
    /// Default target chunk size: 1 MiB.
    pub const DEFAULT_TARGET_SIZE: usize = 1_048_576;

    /// The minimum size.
    pub closed spec fn min(self) -> usize {
        self.min_size
    }

    /// The target size.
    pub closed spec fn target(self) -> usize {
        self.target_size
    }

    /// The maximum size.
    pub closed spec fn max(self) -> usize {
        self.max_size
    }

    /// The minimum that the chunker is run with.
    pub open spec fn run_min(self) -> usize {
        even_min(self.min(), self.max())
    }

    /// Every configuration holds valid sizes.
    #[verifier::type_invariant]
    closed spec fn valid(self) -> bool {
        sizes_valid(self.min_size as int, self.target_size as int, self.max_size as int)
    }

    /// Builds a configuration from a target size, with a quarter of it as
    /// minimum and four times it as maximum.
    pub fn with_target(target_size: usize) -> (r: Result<Self, ChunkingError>)
        ensures
            ({
                let min = target_size as int / 4;
                let max = max_for_target(target_size as int);
                match r {
                    Ok(c) => {
                        &&& sizes_valid(min, target_size as int, max)
                        &&& c.min() == min
                        &&& c.target() == target_size
                        &&& c.max() == max
                    },
                    Err(e) => {
                        &&& !sizes_valid(min, target_size as int, max)
                        &&& e matches ChunkingError::InvalidConfig(m) && m@ == sizes_message(
                            min,
                            target_size as int,
                            max,
                        )
                    },
                }
            }),
    {
        let max_size: usize = if target_size > usize::MAX / 4 {
            usize::MAX
        } else {
            4 * target_size
        };
        Self::new(target_size / 4, target_size, max_size)
    }

    /// Builds a configuration from explicit sizes.
    pub fn new(min_size: usize, target_size: usize, max_size: usize) -> (r: Result<
        Self,
        ChunkingError,
    >)
        ensures
            match r {
                Ok(c) => {
                    &&& sizes_valid(min_size as int, target_size as int, max_size as int)
                    &&& c.min() == min_size
                    &&& c.target() == target_size
                    &&& c.max() == max_size
                },
                Err(e) => {
                    &&& !sizes_valid(min_size as int, target_size as int, max_size as int)
                    &&& e matches ChunkingError::InvalidConfig(m) && m@ == sizes_message(
                        min_size as int,
                        target_size as int,
                        max_size as int,
                    )
                },
            },
    {
        let mut m: String = String::new();
        if !(MIN_SIZE_FLOOR <= min_size && min_size <= MIN_SIZE_CEILING) {
            m.push_str("min_size ");
            push_decimal(&mut m, min_size as u128);
            m.push_str(" outside supported range 64..=1048576");
            proof {
                assert(m@ =~= sizes_message(min_size as int, target_size as int, max_size as int));
            }
            return Err(ChunkingError::InvalidConfig(m));
        }
        if !(TARGET_SIZE_FLOOR <= target_size && target_size <= TARGET_SIZE_CEILING) {
            m.push_str("target_size ");
            push_decimal(&mut m, target_size as u128);
            m.push_str(" outside supported range 256..=4194304");
            proof {
                assert(m@ =~= sizes_message(min_size as int, target_size as int, max_size as int));
            }
            return Err(ChunkingError::InvalidConfig(m));
        }
        if !(MAX_SIZE_FLOOR <= max_size && max_size <= MAX_SIZE_CEILING) {
            m.push_str("max_size ");
            push_decimal(&mut m, max_size as u128);
            m.push_str(" outside supported range 1024..=16777216");
            proof {
                assert(m@ =~= sizes_message(min_size as int, target_size as int, max_size as int));
            }
            return Err(ChunkingError::InvalidConfig(m));
        }
        if !(min_size <= target_size && target_size <= max_size) {
            m.push_str("sizes must satisfy min <= target <= max, got ");
            push_decimal(&mut m, min_size as u128);
            m.push_str(" / ");
            push_decimal(&mut m, target_size as u128);
            m.push_str(" / ");
            push_decimal(&mut m, max_size as u128);
            proof {
                assert(m@ =~= sizes_message(min_size as int, target_size as int, max_size as int));
            }
            return Err(ChunkingError::InvalidConfig(m));
        }
        Ok(ChunkerConfig { min_size, target_size, max_size })
    }

    /// Minimum chunk size.
    #[must_use]
    pub fn min_size(&self) -> (r: usize)
        ensures
            r == self.min(),
            sizes_valid(self.min() as int, self.target() as int, self.max() as int),
    {
        proof {
            use_type_invariant(self);
        }
        self.min_size
    }

    /// The minimum to run a chunker with, so that no chunk but the last falls
    /// below the minimum chunk size: an odd one goes up to the next even one.
    #[must_use]
    pub fn cut_min(&self) -> (r: usize)
        ensures
            r == self.run_min(),
            self.min() <= r <= self.max(),
            r <= MIN_SIZE_CEILING,
            r % 2 == 0 || r == self.max(),
            sizes_valid(self.min() as int, self.target() as int, self.max() as int),
    {
        proof {
            use_type_invariant(self);
        }
        if self.min_size % 2 == 1 && self.min_size < self.max_size {
            self.min_size + 1
        } else {
            self.min_size
        }
    }

    /// Target (average) chunk size.
    #[must_use]
    pub fn target_size(&self) -> (r: usize)
        ensures
            r == self.target(),
            sizes_valid(self.min() as int, self.target() as int, self.max() as int),
    {
        proof {
            use_type_invariant(self);
        }
        self.target_size
    }

    /// Maximum chunk size.
    #[must_use]
    pub fn max_size(&self) -> (r: usize)
        ensures
            r == self.max(),
            sizes_valid(self.min() as int, self.target() as int, self.max() as int),
    {
        proof {
            use_type_invariant(self);
        }
        self.max_size
    }
}

impl Default for ChunkerConfig {
    /// The 1 MiB target: minimum 256 KiB, maximum 4 MiB.
    fn default() -> (r: Self)
        ensures
            r.min() == 262_144,
            r.target() == ChunkerConfig::DEFAULT_TARGET_SIZE,
            r.max() == 4_194_304,
    {
        ChunkerConfig { min_size: 262_144, target_size: 1_048_576, max_size: 4_194_304 }
    }
}

/// A content-defined chunk: its identity, position and bytes.
#[derive(Debug, Clone, PartialEq, Eq)]
pub struct Chunk {
    /// The chunk's identity.
    pub id: ChunkId,
    /// Byte offset of the chunk within the source.
    pub offset: u64,
    /// The chunk's plaintext bytes.
    pub data: Vec<u8>,
}

impl Chunk {
    /// Length of the chunk in bytes.
    #[must_use]
    pub fn len(&self) -> (r: usize)
        ensures
            r == self.data@.len(),
    {
        self.data.len()
    }

    /// Whether the chunk holds no bytes.
    #[must_use]
    pub fn is_empty(&self) -> (r: bool)
        ensures
            r == (self.data@.len() == 0),
    {
        self.data.len() == 0
    }
}

/// The bytes of consecutive chunks, one after the other.
pub open spec fn joined(chunks: Seq<Chunk>) -> Seq<u8>
    decreases chunks.len(),
{
    if chunks.len() == 0 {
        Seq::empty()
    } else {
        joined(chunks.drop_last()) + chunks.last().data@
    }
}

/// The identity of content: plain without a key, keyed with one.
pub open spec fn identity_of(key: Option<Seq<u8>>, content: Seq<u8>) -> Seq<u8> {
    match key {
        None => blake3_hash(content),
        Some(k) => blake3_keyed_hash(k, content),
    }
}

/// The bytes that a cut covers.
pub open spec fn cut_bytes(data: Seq<u8>, cut: (usize, usize)) -> Seq<u8> {
    data.subrange(cut.0 as int, cut.0 + cut.1)
}

/// Whether `chunks` are the chunks of `data` under the given sizes, with
/// identities taken under the given key: one per cut point, in order, each
/// with the bytes that it covers.
pub open spec fn chunks_of(
    chunks: Seq<Chunk>,
    data: Seq<u8>,
    config: ChunkerConfig,
    key: Option<Seq<u8>>,
) -> bool {
    let cuts = fastcdc_cuts(data, config.run_min(), config.target(), config.max());
    &&& chunks.len() == cuts.len()
    &&& forall|i: int|
        #![trigger chunks[i]]
        0 <= i < chunks.len() ==> {
            &&& chunks[i].offset == cuts[i].0
            &&& chunks[i].data@ == cut_bytes(data, cuts[i])
            &&& chunks[i].id@ == identity_of(key, chunks[i].data@)
        }
}

/// Whether `chunks` tile `data`: joined they are the data, each starts where
/// the one before ends, none is empty or over the maximum, all but the last
/// reach the minimum, and data within the minimum is one chunk.
pub open spec fn chunks_tile(chunks: Seq<Chunk>, data: Seq<u8>, min: int, max: int) -> bool {
    &&& joined(chunks) == data
    &&& forall|i: int|
        #![trigger chunks[i]]
        0 <= i < chunks.len() ==> {
            &&& chunks[i].offset == joined(chunks.take(i)).len()
            &&& 1 <= chunks[i].data@.len() <= max
            &&& i < chunks.len() - 1 ==> min <= chunks[i].data@.len()
        }
    &&& 0 < data.len() <= min ==> chunks.len() == 1
}

proof fn lemma_cuts_end(cuts: Seq<(usize, usize)>, len: int, min: int, max: int, i: int)
    requires
        cuts_tile(cuts, len, min, max),
        0 <= i < cuts.len(),
    ensures
        cuts[i].0 + cuts[i].1 <= len,
    decreases cuts.len() - i,
{
    if i < cuts.len() - 1 {
        lemma_cuts_end(cuts, len, min, max, i + 1);
        assert(cut_joins(cuts, i));
    }
}

fn chunk_with(data: &[u8], config: &ChunkerConfig, key: Option<&ChunkIdKey>) -> (r: Vec<Chunk>)
    ensures
        chunks_of(
            r@,
            data@,
            *config,
            match key {
                None => None,
                Some(k) => Some(k@),
            },
        ),
        chunks_tile(r@, data@, config.min() as int, config.max() as int),
{
    let min: usize = config.cut_min();
    let target: usize = config.target_size();
    let max: usize = config.max_size();
    let cuts: Vec<(usize, usize)> = cut_points(data, min, target, max);
    let ghost spec_key: Option<Seq<u8>> = match key {
        None => None,
        Some(k) => Some(k@),
    };
    let mut out: Vec<Chunk> = Vec::with_capacity(cuts.len());
    let mut i: usize = 0;
    while i < cuts.len()
        invariant
            i <= cuts@.len(),
            out@.len() == i,
            cuts_tile(cuts@, data@.len() as int, min as int, max as int),
            spec_key == (match key {
                None => None::<Seq<u8>>,
                Some(k) => Some(k@),
            }),
            forall|k: int|
                #![trigger out@[k]]
                0 <= k < i ==> {
                    &&& out@[k].offset == cuts@[k].0
                    &&& out@[k].data@ == cut_bytes(data@, cuts@[k])
                    &&& out@[k].data@.len() == cuts@[k].1
                    &&& out@[k].id@ == identity_of(spec_key, out@[k].data@)
                    &&& out@[k].offset == joined(out@.take(k)).len()
                },
            joined(out@) == data@.take(
                if i == 0 {
                    0
                } else {
                    cuts@[i - 1].0 + cuts@[i - 1].1
                },
            ),
        decreases cuts@.len() - i,
    {
        let cut: (usize, usize) = cuts[i];
        proof {
            lemma_cuts_end(cuts@, data@.len() as int, min as int, max as int, i as int);
            if i > 0 {
                assert(cut_joins(cuts@, i - 1));
            }
            assert(data@.len() == data.len());
        }
        let bytes: Vec<u8> = copy_range(data, cut.0, cut.0 + cut.1);
        let id: ChunkId = match key {
            None => ChunkId::of(&bytes),
            Some(k) => ChunkId::keyed(k, &bytes),
        };
        let ghost before = out@;
        out.push(Chunk { id, offset: cut.0 as u64, data: bytes });
        proof {
            assert(out@.drop_last() =~= before);
            assert(out@.take(i as int) =~= before);
            assert(joined(out@) =~= data@.take(cut.0 + cut.1));
            assert forall|k: int| #![trigger out@[k]] 0 <= k < i implies out@[k].offset == joined(
                out@.take(k),
            ).len() by {
                assert(out@[k] == before[k]);
                assert(out@.take(k) =~= before.take(k));
            }
        }
        i = i + 1;
    }
    proof {
        assert(joined(out@) =~= data@);
    }
    out
}

/// Chunks in-memory bytes, with plain identities.
#[must_use]
pub fn chunk_bytes(data: &[u8], config: &ChunkerConfig) -> (r: Vec<Chunk>)
    ensures
        chunks_of(r@, data@, *config, None),
        chunks_tile(r@, data@, config.min() as int, config.max() as int),
{
    chunk_with(data, config, None)
}

/// Chunks in-memory bytes, with identities keyed by the backup set's key.
#[must_use]
pub fn chunk_bytes_keyed(data: &[u8], config: &ChunkerConfig, key: &ChunkIdKey) -> (r: Vec<Chunk>)
    ensures
        chunks_of(r@, data@, *config, Some(key@)),
        chunks_tile(r@, data@, config.min() as int, config.max() as int),
{
    chunk_with(data, config, Some(key))
}

/// A chunk that a streaming chunker cut out, with its identity: plain without
/// a key, keyed with one.
#[must_use]
pub fn identify_chunk(offset: u64, data: Vec<u8>, key: Option<&ChunkIdKey>) -> (r: Chunk)
    ensures
        r.offset == offset,
        r.data@ == data@,
        r.id@ == identity_of(
            match key {
                None => None,
                Some(k) => Some(k@),
            },
            data@,
        ),
{
    let id: ChunkId = match key {
        None => ChunkId::of(&data),
        Some(k) => ChunkId::keyed(k, &data),
    };
    Chunk { id, offset, data }
}

/// A configuration is its three sizes: where they agree, so do the
/// configurations.
pub proof fn law_sizes_make_the_configuration(a: ChunkerConfig, b: ChunkerConfig)
    ensures
        a == b <==> a.min() == b.min() && a.target() == b.target() && a.max() == b.max(),
{
}

/// Chunking is a function of content, sizes and key: chunking the same bytes
/// twice gives the same chunks.
pub proof fn law_chunking_is_deterministic(
    a: Seq<Chunk>,
    b: Seq<Chunk>,
    data: Seq<u8>,
    config: ChunkerConfig,
    key: Option<Seq<u8>>,
)
    requires
        chunks_of(a, data, config, key),
        chunks_of(b, data, config, key),
    ensures
        a.len() == b.len(),
        forall|i: int|
            #![trigger a[i]]
            0 <= i < a.len() ==> {
                &&& a[i].offset == b[i].offset
                &&& a[i].data@ == b[i].data@
                &&& a[i].id@ == b[i].id@
            },
{
    assert forall|i: int| #![trigger a[i]] 0 <= i < a.len() implies {
        &&& a[i].offset == b[i].offset
        &&& a[i].data@ == b[i].data@
        &&& a[i].id@ == b[i].id@
    } by {
        assert(b[i].offset == b[i].offset);
    }
}

/// A key changes identities only: under any two keys, or none, the same bytes
/// are cut at the same places.
pub proof fn law_keying_keeps_cut_points(
    a: Seq<Chunk>,
    b: Seq<Chunk>,
    data: Seq<u8>,
    config: ChunkerConfig,
    key_a: Option<Seq<u8>>,
    key_b: Option<Seq<u8>>,
)
    requires
        chunks_of(a, data, config, key_a),
        chunks_of(b, data, config, key_b),
    ensures
        a.len() == b.len(),
        forall|i: int|
            #![trigger a[i]]
            0 <= i < a.len() ==> a[i].offset == b[i].offset && a[i].data@ == b[i].data@,
{
    assert forall|i: int| #![trigger a[i]] 0 <= i < a.len() implies a[i].offset == b[i].offset
        && a[i].data@ == b[i].data@ by {
        assert(b[i].offset == b[i].offset);
    }
}

/// A chunk identity's text parses back to it, and so does the text in upper
/// case or in any mix of cases.
pub proof fn law_hex_roundtrip(bytes: Seq<u8>, s: Seq<char>)
    requires
        bytes.len() == 32,
        s.len() == 64,
        forall|i: int|
            #![trigger s[i]]
            0 <= i < 64 ==> is_hex(s[i]) && hex_value(s[i]) == hex_value(hex_of(bytes)[i]),
    ensures
        parsed_id(hex_of(bytes)) == Ok::<Seq<u8>, ChunkIdParseError>(bytes),
        parsed_id(s) == Ok::<Seq<u8>, ChunkIdParseError>(bytes),
{
    let h = hex_of(bytes);
    assert forall|i: int| 0 <= i < 64 implies is_hex(#[trigger] h[i]) by {}
    assert forall|i: int| 0 <= i < 32 implies bytes_of_hex(h)[i] == bytes[i] by {
        assert(h[2 * i] == hex_char(bytes[i] as int / 16));
        assert(h[2 * i + 1] == hex_char(bytes[i] as int % 16));
    }
    assert(bytes_of_hex(h) =~= bytes);
    assert forall|i: int| 0 <= i < 32 implies bytes_of_hex(s)[i] == bytes_of_hex(h)[i] by {
        assert(hex_value(s[2 * i]) == hex_value(h[2 * i]));
        assert(hex_value(s[2 * i + 1]) == hex_value(h[2 * i + 1]));
    }
    assert(bytes_of_hex(s) =~= bytes);
}

/// Chunks follow one another through the data: the first starts it, each next
/// one starts where the one before ends, the last ends it, and each holds the
/// bytes at its place. None is empty or above the maximum, and only the last
/// may fall below the minimum.
pub proof fn law_chunks_cover_the_data(
    chunks: Seq<Chunk>,
    data: Seq<u8>,
    min: int,
    max: int,
    i: int,
)
    requires
        chunks_tile(chunks, data, min, max),
        0 <= i < chunks.len(),
    ensures
        i == 0 ==> chunks[i].offset == 0,
        i + 1 < chunks.len() ==> chunks[i + 1].offset == chunks[i].offset + chunks[i].data@.len()
            && min <= chunks[i].data@.len(),
        i + 1 == chunks.len() ==> chunks[i].offset + chunks[i].data@.len() == data.len(),
        0 < chunks[i].data@.len() <= max,
        chunks[i].offset + chunks[i].data@.len() <= data.len(),
        chunks[i].data@ == data.subrange(
            chunks[i].offset as int,
            chunks[i].offset + chunks[i].data@.len(),
        ),
{
    let before = joined(chunks.take(i));
    let n = chunks[i].data@.len() as int;
    assert(chunks.take(0) =~= Seq::empty());
    assert(chunks.take(i + 1).drop_last() =~= chunks.take(i));
    assert(joined(chunks.take(i + 1)) == before + chunks[i].data@);
    if i + 1 < chunks.len() {
        let next = chunks[i + 1];
    } else {
        assert(chunks.take(i + 1) =~= chunks);
    }
    lemma_joined_starts(chunks, i + 1);
    let upto = joined(chunks.take(i + 1));
    assert(data.take(upto.len() as int) == upto);
    assert(chunks[i].data@ =~= data.subrange(before.len() as int, before.len() + n)) by {
        assert forall|k: int| 0 <= k < n implies chunks[i].data@[k] == data[before.len() + k] by {
            assert(upto[before.len() + k] == chunks[i].data@[k]);
            assert(data.take(upto.len() as int)[before.len() + k] == data[before.len() + k]);
        }
    }
}

proof fn lemma_joined_starts(chunks: Seq<Chunk>, n: int)
    requires
        0 <= n <= chunks.len(),
    ensures
        joined(chunks.take(n)).len() <= joined(chunks).len(),
        joined(chunks).take(joined(chunks.take(n)).len() as int) == joined(chunks.take(n)),
    decreases chunks.len(),
{
    if n == chunks.len() {
        assert(chunks.take(n) =~= chunks);
        assert(joined(chunks).take(joined(chunks).len() as int) =~= joined(chunks));
    } else {
        let fewer = chunks.drop_last();
        lemma_joined_starts(fewer, n);
        assert(fewer.take(n) =~= chunks.take(n));
        let start = joined(chunks.take(n));
        assert(joined(chunks).take(start.len() as int) =~= joined(fewer).take(start.len() as int));
    }
}

/// Chunks without a key have the plain hash of their bytes as identity, those
/// with a key the hash under that key.
pub proof fn law_identities_are_hashes(
    chunks: Seq<Chunk>,
    data: Seq<u8>,
    config: ChunkerConfig,
    key: Option<Seq<u8>>,
    i: int,
)
    requires
        chunks_of(chunks, data, config, key),
        0 <= i < chunks.len(),
    ensures
        key is None ==> chunks[i].id@ == blake3_hash(chunks[i].data@),
        key matches Some(k) ==> chunks[i].id@ == blake3_keyed_hash(k, chunks[i].data@),
{
    let c = chunks[i];
}

/// The chunker is run with the configuration's target and maximum, and with its
/// minimum or, where that is odd, the next number.
pub proof fn law_sizes_run_with(
    chunks: Seq<Chunk>,
    data: Seq<u8>,
    config: ChunkerConfig,
    key: Option<Seq<u8>>,
)
    requires
        chunks_of(chunks, data, config, key),
        config.min() <= config.max(),
    ensures
        config.min() <= config.run_min() <= config.min() + 1,
        config.run_min() <= config.max(),
        config.min() % 2 == 0 ==> config.run_min() == config.min(),
        config.min() < config.max() ==> config.run_min() % 2 == 0,
        chunks.len() == fastcdc_cuts(data, config.run_min(), config.target(), config.max()).len(),
{
}

/// Sizes can be used just if the minimum is from 64 bytes to a mebibyte, the
/// target from 256 bytes to four, the maximum from 1024 bytes to sixteen, and
/// they do not fall.
pub proof fn law_permitted_sizes(min: int, target: int, max: int)
    ensures
        sizes_valid(min, target, max) <==> {
            &&& 64 <= min <= 1024 * 1024
            &&& 256 <= target <= 4 * 1024 * 1024
            &&& 1024 <= max <= 16 * 1024 * 1024
            &&& min <= target
            &&& target <= max
        },
        0 <= target ==> max_for_target(target) <= 4 * target,
        0 <= 4 * target <= usize::MAX ==> max_for_target(target) == 4 * target,
        4 * target > usize::MAX ==> max_for_target(target) == usize::MAX,
{
}

/// The text of an identity has two lower-case hex digits per byte, the high one
/// first.
pub proof fn law_hex_digits(bytes: Seq<u8>, i: int)
    requires
        0 <= i < bytes.len(),
    ensures
        hex_of(bytes).len() == 2 * bytes.len(),
        ({
            let (hi, lo) = (hex_of(bytes)[2 * i] as int, hex_of(bytes)[2 * i + 1] as int);
            let x = if hi < 58 {
                hi - 48
            } else {
                hi - 87
            };
            let y = if lo < 58 {
                lo - 48
            } else {
                lo - 87
            };
            &&& 0 <= x < 16
            &&& 0 <= y < 16
            &&& 48 <= hi <= 57 || 97 <= hi <= 102
            &&& 48 <= lo <= 57 || 97 <= lo <= 102
            &&& bytes[i] == 16 * x + y
        }),
{
    let b = bytes[i] as int;
    assert(hex_of(bytes)[2 * i] == hex_char(b / 16));
    assert(hex_of(bytes)[2 * i + 1] == hex_char(b % 16));
}

/// Text that is no identity is refused for its length, unless it has 64
/// characters, or else for the first character that is no hex digit.
pub proof fn law_refused_identities(s: Seq<char>)
    requires
        s.len() <= usize::MAX,
    ensures
        match parsed_id(s) {
            Ok(bytes) => s.len() == 64 && bytes.len() == 32 && forall|i: int|
                #![trigger s[i]]
                0 <= i < 64 ==> '0' <= s[i] <= '9' || 'a' <= s[i] <= 'f' || 'A' <= s[i] <= 'F',
            Err(ChunkIdParseError::BadLength(n)) => n == s.len() && n != 64,
            Err(ChunkIdParseError::BadChar(c)) => s.len() == 64 && exists|at: int|
                #![trigger s[at]]
                {
                    &&& 0 <= at < 64
                    &&& s[at] == c
                    &&& !('0' <= c <= '9') && !('a' <= c <= 'f') && !('A' <= c <= 'F')
                    &&& forall|i: int|
                        #![trigger s[i]]
                        0 <= i < at ==> '0' <= s[i] <= '9' || 'a' <= s[i] <= 'f' || 'A' <= s[i]
                            <= 'F'
                },
        },
{
    if s.len() == 64 && !(forall|i: int| 0 <= i < 64 ==> is_hex(#[trigger] s[i])) {
        let w = choose|i: int| 0 <= i < 64 && !is_hex(#[trigger] s[i]);
        lemma_non_hex_found(s, 0, w);
        let at = first_non_hex(s, 0);
        assert(s[at] == s[at]);
    }
}

proof fn lemma_non_hex_found(s: Seq<char>, from: int, w: int)
    requires
        0 <= from <= w < s.len(),
        !is_hex(s[w]),
    ensures
        from <= first_non_hex(s, from) <= w,
        !is_hex(s[first_non_hex(s, from)]),
        forall|i: int| from <= i < first_non_hex(s, from) ==> is_hex(#[trigger] s[i]),
    decreases w - from,
{
    if from < w && is_hex(s[from]) {
        lemma_non_hex_found(s, from + 1, w);
    }
}

/// Sizes that are refused are refused for the first that is out of its range,
/// which is told with its number; those that are all in range, for their order.
pub proof fn law_refused_sizes_are_told(min: int, target: int, max: int)
    requires
        0 <= min,
        0 <= target,
        0 <= max,
        !sizes_valid(min, target, max),
    ensures
        ({
            let m = sizes_message(min, target, max);
            let min_ok = 64 <= min <= 1024 * 1024;
            let target_ok = 256 <= target <= 4 * 1024 * 1024;
            let max_ok = 1024 <= max <= 16 * 1024 * 1024;
            &&& !min_ok ==> m == "min_size "@ + decimal(min as nat)
                + " outside supported range 64..=1048576"@
            &&& min_ok && !target_ok ==> m == "target_size "@ + decimal(target as nat)
                + " outside supported range 256..=4194304"@
            &&& min_ok && target_ok && !max_ok ==> m == "max_size "@ + decimal(max as nat)
                + " outside supported range 1024..=16777216"@
            &&& min_ok && target_ok && max_ok ==> m
                == "sizes must satisfy min <= target <= max, got "@ + decimal(min as nat) + " / "@
                + decimal(target as nat) + " / "@ + decimal(max as nat)
        }),
{
}

} // verus!
