//! Snapshot identities: ULIDs, 48 bits of creation time over 80 bits of
//! randomness.
use vstd::prelude::*;
use vstd::string::*;

use crate::bytes::{
    be_bytes, be_value, lemma_be_roundtrip, lemma_be_value_bytes, lemma_pow256, u128_from_be,
    u128_to_be,
};

verus! {

/// Identity of a snapshot.
#[derive(Debug, Clone, Copy, PartialEq, Eq, Hash, PartialOrd, Ord, Structural)]
pub struct SnapshotId {
    /// The ULID as a number. Its order is the order of identities.
    pub value: u128,
}

/// Errors of parsing a snapshot identity from text.
#[derive(Debug, Clone, Copy, PartialEq, Eq, Structural)]
pub enum SnapshotIdError {
    /// The text does not have 26 bytes.
    InvalidLength,
    /// The text holds a character outside Crockford's base 32.
    InvalidChar,
}

/// The digit of Crockford's base 32 with the given value: the decimal digits,
/// then the capital letters but for `I`, `L`, `O` and `U`.
pub open spec fn base32_digit(v: int) -> char {
    if v < 10 {
        (48 + v) as char
    } else if v < 18 {
        (65 + v - 10) as char
    } else if v < 20 {
        (74 + v - 18) as char
    } else if v < 22 {
        (77 + v - 20) as char
    } else if v < 27 {
        (80 + v - 22) as char
    } else {
        (86 + v - 27) as char
    }
}

/// A character of Crockford's base 32 in capitals.
pub open spec fn base32_capital(c: char) -> char {
    if 'a' <= c <= 'z' {
        (c as int - 32) as char
    } else {
        c
    }
}

/// The value of a digit of Crockford's base 32 in either case, `None` for any
/// other character.
pub open spec fn base32_value(c: char) -> Option<int> {
    let u = base32_capital(c);
    let n = u as int;
    if '0' <= u <= '9' {
        Some(n - 48)
    } else if 'A' <= u <= 'H' {
        Some(n - 65 + 10)
    } else if 'J' <= u <= 'K' {
        Some(n - 74 + 18)
    } else if 'M' <= u <= 'N' {
        Some(n - 77 + 20)
    } else if 'P' <= u <= 'T' {
        Some(n - 80 + 22)
    } else if 'V' <= u <= 'Z' {
        Some(n - 86 + 27)
    } else {
        None
    }
}

/// The last `n` digits of a number in base 32.
pub open spec fn base32_text(value: nat, n: nat) -> Seq<char>
    decreases n,
{
    if n == 0 {
        Seq::empty()
    } else {
        base32_text(value / 32, (n - 1) as nat).push(base32_digit((value % 32) as int))
    }
}

/// The number that digits of base 32 stand for.
pub open spec fn base32_number(s: Seq<char>) -> int
    decreases s.len(),
{
    if s.len() == 0 {
        0
    } else {
        32 * base32_number(s.drop_last()) + base32_value(s.last()).unwrap_or(0)
    }
}

/// The text form of an identity: its number as 26 digits of base 32.
pub open spec fn ulid_text(value: u128) -> Seq<char> {
    base32_text(value as nat, 26)
}

/// The number of the identity in a text: that of its 26 digits, of which the
/// lower 128 bits count. `None` for any other text.
pub open spec fn ulid_parsed(text: Seq<char>) -> Option<u128> {
    if text.len() == 26 && forall|i: int|
        #![trigger text[i]]
        0 <= i < 26 ==> base32_value(text[i]) is Some {
        Some((base32_number(text) % (u128::MAX + 1)) as u128)
    } else {
        None
    }
}

/// Thirty-two to a power.
pub open spec fn pow32(n: nat) -> nat
    decreases n,
{
    if n == 0 {
        1
    } else {
        32 * pow32((n - 1) as nat)
    }
}

proof fn lemma_base32_roundtrip(value: nat, n: nat)
    requires
        value < pow32(n),
    ensures
        base32_text(value, n).len() == n,
        base32_number(base32_text(value, n)) == value,
        forall|i: int|
            #![trigger base32_text(value, n)[i]]
            0 <= i < n ==> base32_value(base32_text(value, n)[i]) is Some,
    decreases n,
{
    if n > 0 {
        let s = base32_text(value, n);
        let before = base32_text(value / 32, (n - 1) as nat);
        lemma_base32_roundtrip(value / 32, (n - 1) as nat);
        let v = (value % 32) as int;
        assert(base32_value(base32_digit(v)) == Some(v));
        assert(s.drop_last() =~= before);
        assert forall|i: int| #![trigger s[i]] 0 <= i < n implies base32_value(s[i]) is Some by {
            if i < n - 1 {
                assert(s[i] == before[i]);
            }
        }
    }
}

proof fn lemma_pow32()
    ensures
        pow32(26) == 4 * (u128::MAX + 1),
{
    reveal_with_fuel(pow32, 27);
}

/// Two to the 48, the number of creation times an identity can hold.
pub const TIME_RANGE: u64 = 0x1_0000_0000_0000;

/// Two to the 80, the number of random parts an identity can hold.
pub const RANDOM_RANGE: u128 = 0x1_0000_0000_0000_0000_0000;

/// Calls `ulid::Ulid::to_string`: the number as 26 digits of base 32.
#[verifier::external_body]
fn format_ulid(value: u128) -> (r: String)
    ensures
        r@ == ulid_text(value),
{
    ulid::Ulid(value).to_string()
}

/// Calls `ulid::Ulid::from_string`: the number of 26 digits of base 32, in
/// either case, without the bits above 128. A text of other than 26 bytes is a
/// length error, any other refusal a character error.
#[verifier::external_body]
fn parse_ulid(text: &str) -> (r: Result<u128, SnapshotIdError>)
    ensures
        match r {
            Ok(v) => ulid_parsed(text@) == Some(v) && text.spec_bytes().len() == 26,
            Err(SnapshotIdError::InvalidLength) => {
                ulid_parsed(text@) is None && text.spec_bytes().len() != 26
            },
            Err(SnapshotIdError::InvalidChar) => {
                ulid_parsed(text@) is None && text.spec_bytes().len() == 26
            },
        },
{
    match ulid::Ulid::from_string(text) {
        Ok(id) => Ok(id.0),
        Err(ulid::DecodeError::InvalidLength) => Err(SnapshotIdError::InvalidLength),
        Err(ulid::DecodeError::InvalidChar) => Err(SnapshotIdError::InvalidChar),
    }
}

impl SnapshotId {
    /// The creation time in milliseconds since the Unix epoch.
    pub open spec fn time(self) -> int {
        self.value as int / RANDOM_RANGE as int
    }

    /// The 16 big-endian bytes of the identity.
    pub open spec fn wire(self) -> Seq<u8> {
        be_bytes(self.value as nat, 16)
    }

    /// Makes an identity of a creation time and a random part, each cut to
    /// the bits that there is room for.
    #[must_use]
    pub fn from_parts(timestamp_ms: u64, random: u128) -> (r: Self)
        ensures
            r.value == (timestamp_ms as int % TIME_RANGE as int) * RANDOM_RANGE + random as int
                % RANDOM_RANGE as int,
            r.time() == timestamp_ms as int % TIME_RANGE as int,
    {
        let time: u128 = (timestamp_ms % TIME_RANGE) as u128;
        let low: u128 = random % RANDOM_RANGE;
        SnapshotId { value: time * RANDOM_RANGE + low }
    }

    /// The creation time in milliseconds since the Unix epoch.
    #[must_use]
    pub fn timestamp_ms(&self) -> (r: u64)
        ensures
            r == self.time(),
    {
        (self.value / RANDOM_RANGE) as u64
    }

    /// The 16 big-endian bytes of the identity.
    #[must_use]
    pub fn to_bytes(&self) -> (r: [u8; 16])
        ensures
            r@ == self.wire(),
    {
        u128_to_be(self.value)
    }

    /// The identity with the given 16 big-endian bytes.
    #[must_use]
    pub fn from_bytes(bytes: [u8; 16]) -> (r: Self)
        ensures
            r.value == be_value(bytes@),
            r.wire() == bytes@,
    {
        let value: u128 = u128_from_be(&bytes);
        proof {
            lemma_be_value_bytes(bytes@);
        }
        SnapshotId { value }
    }

    /// Parses raw bytes from the wire: `Some` exactly when there are 16.
    #[must_use]
    pub fn from_wire(raw: &[u8]) -> (r: Option<Self>)
        ensures
            match r {
                Some(id) => raw@.len() == 16 && id.wire() == raw@ && id.value == be_value(raw@),
                None => raw@.len() != 16,
            },
    {
        if raw.len() != 16 {
            return None;
        }
        let bytes: [u8; 16] = crate::bytes::array16(raw, 0);
        proof {
            assert(raw@.subrange(0, 16) =~= raw@);
        }
        Some(SnapshotId::from_bytes(bytes))
    }

    /// The identity in its usual text form.
    #[must_use]
    pub fn to_string(&self) -> (r: String)
        ensures
            r@ == ulid_text(self.value),
            r@.len() == 26,
            ulid_parsed(r@) == Some(self.value),
    {
        proof {
            lemma_pow32();
            lemma_base32_roundtrip(self.value as nat, 26);
        }
        format_ulid(self.value)
    }

    /// Parses the usual text form, in either case.
    pub fn parse(text: &str) -> (r: Result<Self, SnapshotIdError>)
        ensures
            match r {
                Ok(id) => ulid_parsed(text@) == Some(id.value),
                Err(SnapshotIdError::InvalidLength) => {
                    text.spec_bytes().len() != 26 && ulid_parsed(text@) is None
                },
                Err(SnapshotIdError::InvalidChar) => {
                    text.spec_bytes().len() == 26 && ulid_parsed(text@) is None
                },
            },
    {
        match parse_ulid(text) {
            Ok(value) => Ok(SnapshotId { value }),
            Err(e) => Err(e),
        }
    }
}

/// The bytes of an identity determine it, so does its text, and its order by
/// number is its order by creation time first.
pub proof fn law_snapshot_id(a: SnapshotId, b: SnapshotId)
    ensures
        be_value(a.wire()) == a.value,
        a.wire().len() == 16,
        a.wire() == b.wire() ==> a == b,
        ulid_parsed(ulid_text(a.value)) == Some(a.value),
        ulid_text(a.value) == ulid_text(b.value) ==> a == b,
        a.time() < b.time() ==> a.value < b.value,
        a.time() < TIME_RANGE,
{
    lemma_pow256();
    lemma_be_roundtrip(a.value as nat, 16);
    lemma_be_roundtrip(b.value as nat, 16);
    lemma_pow32();
    lemma_base32_roundtrip(a.value as nat, 26);
    lemma_base32_roundtrip(b.value as nat, 26);
}

/// An identity's creation time is the number without its lower 80 bits.
pub proof fn law_time_is_above_the_random_part(id: SnapshotId)
    ensures
        id.time() * 1_208_925_819_614_629_174_706_176 <= id.value,
        id.value < (id.time() + 1) * 1_208_925_819_614_629_174_706_176,
        0 <= id.time() < 281_474_976_710_656,
{
}

} // verus!
