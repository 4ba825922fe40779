//! Fixed-width little-endian and big-endian integers in byte sequences.
use vstd::prelude::*;

verus! {

/// The `width` low bytes of `n`, least significant first.
pub open spec fn le_bytes(n: nat, width: nat) -> Seq<u8>
    decreases width,
{
    if width == 0 {
        Seq::empty()
    } else {
        seq![(n % 256) as u8] + le_bytes(n / 256, (width - 1) as nat)
    }
}

/// The number whose bytes, least significant first, are `s`.
pub open spec fn le_value(s: Seq<u8>) -> nat
    decreases s.len(),
{
    if s.len() == 0 {
        0
    } else {
        s[0] as nat + 256 * le_value(s.subrange(1, s.len() as int))
    }
}

/// 256 to the given power: how many values that many bytes can hold.
pub open spec fn pow256(width: nat) -> nat
    decreases width,
{
    if width == 0 {
        1
    } else {
        256 * pow256((width - 1) as nat)
    }
}

/// `le_bytes` has the width asked for.
pub proof fn lemma_le_bytes_len(n: nat, width: nat)
    ensures
        le_bytes(n, width).len() == width,
    decreases width,
{
    if width > 0 {
        lemma_le_bytes_len(n / 256, (width - 1) as nat);
    }
}

/// Reading back what was written gives the number again, if it fits.
pub proof fn lemma_le_roundtrip(n: nat, width: nat)
    requires
        n < pow256(width),
    ensures
        le_value(le_bytes(n, width)) == n,
        le_bytes(n, width).len() == width,
    decreases width,
{
    lemma_le_bytes_len(n, width);
    if width > 0 {
        let w: nat = (width - 1) as nat;
        assert(n / 256 < pow256(w)) by (nonlinear_arith)
            requires
                n < 256 * pow256(w),
        ;
        lemma_le_roundtrip(n / 256, w);
        let s = le_bytes(n, width);
        assert(s.subrange(1, s.len() as int) =~= le_bytes(n / 256, w));
    }
}

/// The value of `s` fits in its width, and writing it gives `s` again.
pub proof fn lemma_le_value_bytes(s: Seq<u8>)
    ensures
        le_value(s) < pow256(s.len()),
        le_bytes(le_value(s), s.len()) == s,
    decreases s.len(),
{
    if s.len() > 0 {
        let t = s.subrange(1, s.len() as int);
        lemma_le_value_bytes(t);
        let v = le_value(s);
        assert(v == s[0] as nat + 256 * le_value(t));
        assert(v % 256 == s[0] as nat);
        assert(v / 256 == le_value(t));
        assert(le_bytes(v, s.len()) =~= s);
    } else {
        assert(le_bytes(0, 0) =~= s);
    }
}

/// The powers that bound the integer types.
pub proof fn lemma_pow256()
    ensures
        pow256(4) == 0x1_0000_0000,
        pow256(8) == 0x1_0000_0000_0000_0000,
        pow256(16) == 0x1_0000_0000_0000_0000 * 0x1_0000_0000_0000_0000,
{
    reveal_with_fuel(pow256, 17);
}

/// Appends the bytes of `n`, least significant first.
fn push_le(out: &mut Vec<u8>, n: u64, width: u64)
    ensures
        final(out)@ == old(out)@ + le_bytes(n as nat, width as nat),
    decreases width,
{
    if width > 0 {
        out.push((n % 256) as u8);
        let ghost mid = out@;
        push_le(out, n / 256, width - 1);
        proof {
            assert(out@ =~= old(out)@ + le_bytes(n as nat, width as nat));
        }
    } else {
        proof {
            assert(out@ =~= old(out)@ + le_bytes(n as nat, width as nat));
        }
    }
}

/// Appends a `u32` as 4 little-endian bytes.
pub fn push_u32(out: &mut Vec<u8>, n: u32)
    ensures
        final(out)@ == old(out)@ + le_bytes(n as nat, 4),
{
    push_le(out, n as u64, 4);
}

/// Appends a `u64` as 8 little-endian bytes.
pub fn push_u64(out: &mut Vec<u8>, n: u64)
    ensures
        final(out)@ == old(out)@ + le_bytes(n as nat, 8),
{
    push_le(out, n, 8);
}

/// The `i64` whose two's complement bit pattern is `bits`.
pub open spec fn i64_of_bits(bits: nat) -> int {
    if bits < 0x8000_0000_0000_0000 {
        bits as int
    } else {
        bits - 0x1_0000_0000_0000_0000
    }
}

/// The two's complement bit pattern of an `i64`.
pub open spec fn bits_of_i64(n: int) -> nat {
    if n >= 0 {
        n as nat
    } else {
        (n + 0x1_0000_0000_0000_0000) as nat
    }
}

/// Appends an `i64` as 8 little-endian two's complement bytes.
pub fn push_i64(out: &mut Vec<u8>, n: i64)
    ensures
        final(out)@ == old(out)@ + le_bytes(bits_of_i64(n as int), 8),
{
    let bits: u64 = if n >= 0 {
        n as u64
    } else {
        u64::MAX - ((-(n + 1)) as u64)
    };
    push_le(out, bits, 8);
}

/// Reads a little-endian number of up to 8 bytes.
fn read_le(s: &[u8], at: usize, width: usize) -> (n: u64)
    requires
        at + width <= s@.len(),
        width <= 8,
    ensures
        n == le_value(s@.subrange(at as int, at + width)),
        n < pow256(width as nat),
    decreases width,
{
    if width == 0 {
        return 0;
    }
    proof {
        assert(s@.len() == s.len());
    }
    let rest: u64 = read_le(s, at + 1, width - 1);
    proof {
        let whole = s@.subrange(at as int, at + width);
        assert(whole.subrange(1, whole.len() as int) =~= s@.subrange(at + 1, at + width));
        lemma_pow256();
        lemma_pow256_monotone(width as nat, 8);
        assert(pow256(width as nat) == 256 * pow256((width - 1) as nat));
    }
    s[at] as u64 + 256 * rest
}

proof fn lemma_pow256_monotone(a: nat, b: nat)
    requires
        a <= b,
    ensures
        pow256(a) <= pow256(b),
    decreases b,
{
    if a < b {
        lemma_pow256_monotone(a, (b - 1) as nat);
    }
}

/// Reads 4 little-endian bytes.
pub fn read_u32(s: &[u8], at: usize) -> (n: u32)
    requires
        at + 4 <= s@.len(),
    ensures
        n == le_value(s@.subrange(at as int, at + 4)),
{
    let n: u64 = read_le(s, at, 4);
    proof {
        lemma_pow256();
    }
    n as u32
}

/// Reads 8 little-endian bytes.
pub fn read_u64(s: &[u8], at: usize) -> (n: u64)
    requires
        at + 8 <= s@.len(),
    ensures
        n == le_value(s@.subrange(at as int, at + 8)),
{
    read_le(s, at, 8)
}

/// Reads 8 little-endian two's complement bytes.
pub fn read_i64(s: &[u8], at: usize) -> (n: i64)
    requires
        at + 8 <= s@.len(),
    ensures
        n == i64_of_bits(le_value(s@.subrange(at as int, at + 8))),
{
    let bits: u64 = read_le(s, at, 8);
    if bits < 0x8000_0000_0000_0000 {
        bits as i64
    } else {
        -((u64::MAX - bits) as i64) - 1
    }
}

/// The `width` low bytes of `n`, most significant first.
pub open spec fn be_bytes(n: nat, width: nat) -> Seq<u8>
    decreases width,
{
    if width == 0 {
        Seq::empty()
    } else {
        be_bytes(n / 256, (width - 1) as nat).push((n % 256) as u8)
    }
}

/// The number whose bytes, most significant first, are `s`.
pub open spec fn be_value(s: Seq<u8>) -> nat
    decreases s.len(),
{
    if s.len() == 0 {
        0
    } else {
        256 * be_value(s.drop_last()) + s.last() as nat
    }
}

/// Reading back what was written most significant first gives the number
/// again, if it fits.
pub proof fn lemma_be_roundtrip(n: nat, width: nat)
    requires
        n < pow256(width),
    ensures
        be_value(be_bytes(n, width)) == n,
        be_bytes(n, width).len() == width,
    decreases width,
{
    if width > 0 {
        let w: nat = (width - 1) as nat;
        assert(n / 256 < pow256(w)) by (nonlinear_arith)
            requires
                n < 256 * pow256(w),
        ;
        lemma_be_roundtrip(n / 256, w);
        assert(be_bytes(n, width).drop_last() =~= be_bytes(n / 256, w));
    }
}

/// The big-endian value of `s` fits in its width, and writing it gives `s`
/// again.
pub proof fn lemma_be_value_bytes(s: Seq<u8>)
    ensures
        be_value(s) < pow256(s.len()),
        be_bytes(be_value(s), s.len()) == s,
    decreases s.len(),
{
    if s.len() > 0 {
        let t = s.drop_last();
        lemma_be_value_bytes(t);
        let v = be_value(s);
        assert(v % 256 == s.last() as nat);
        assert(v / 256 == be_value(t));
        assert(be_bytes(v, s.len()) =~= s);
    } else {
        assert(be_bytes(0, 0) =~= s);
    }
}

fn push_be(out: &mut Vec<u8>, n: u128, width: u64)
    ensures
        final(out)@ == old(out)@ + be_bytes(n as nat, width as nat),
    decreases width,
{
    if width > 0 {
        push_be(out, n / 256, width - 1);
        out.push((n % 256) as u8);
    }
    proof {
        assert(out@ =~= old(out)@ + be_bytes(n as nat, width as nat));
    }
}

/// A `u128` as 16 big-endian bytes.
pub fn u128_to_be(n: u128) -> (r: [u8; 16])
    ensures
        r@ == be_bytes(n as nat, 16),
{
    let mut out: Vec<u8> = Vec::new();
    push_be(&mut out, n, 16);
    proof {
        lemma_pow256();
        lemma_be_roundtrip(n as nat, 16);
        assert(out@ =~= be_bytes(n as nat, 16));
        assert(out@.subrange(0, 16) =~= out@);
    }
    array16(out.as_slice(), 0)
}

/// The `u128` whose 16 big-endian bytes are given.
pub fn u128_from_be(bytes: &[u8; 16]) -> (n: u128)
    ensures
        n == be_value(bytes@),
{
    let mut n: u128 = 0;
    let mut i: usize = 0;
    while i < 16
        invariant
            i <= 16,
            n == be_value(bytes@.take(i as int)),
        decreases 16 - i,
    {
        proof {
            let next = bytes@.take(i + 1);
            assert(next.drop_last() =~= bytes@.take(i as int));
            lemma_be_value_bytes(next);
            lemma_pow256();
            lemma_pow256_monotone((i + 1) as nat, 16);
        }
        n = 256 * n + bytes[i] as u128;
        i = i + 1;
    }
    proof {
        assert(bytes@.take(16) =~= bytes@);
    }
    n
}

/// Appends a slice of bytes.
pub fn push_bytes(out: &mut Vec<u8>, s: &[u8])
    ensures
        final(out)@ == old(out)@ + s@,
{
    let mut i: usize = 0;
    while i < s.len()
        invariant
            i <= s@.len(),
            out@ == old(out)@ + s@.subrange(0, i as int),
        decreases s@.len() - i,
    {
        out.push(s[i]);
        i = i + 1;
        proof {
            assert(out@ =~= old(out)@ + s@.subrange(0, i as int));
        }
    }
    proof {
        assert(s@.subrange(0, i as int) =~= s@);
    }
}

/// A copy of `s[from..to]`.
pub fn copy_range(s: &[u8], from: usize, to: usize) -> (r: Vec<u8>)
    requires
        from <= to <= s@.len(),
    ensures
        r@ == s@.subrange(from as int, to as int),
{
    let mut out: Vec<u8> = Vec::with_capacity(to - from);
    let mut i: usize = from;
    while i < to
        invariant
            from <= i <= to <= s@.len(),
            out@ == s@.subrange(from as int, i as int),
        decreases to - i,
    {
        out.push(s[i]);
        i = i + 1;
        proof {
            assert(out@ =~= s@.subrange(from as int, i as int));
        }
    }
    out
}

/// Whether two byte slices hold the same bytes.
pub fn same_bytes(a: &[u8], b: &[u8]) -> (r: bool)
    ensures
        r == (a@ == b@),
{
    if a.len() != b.len() {
        return false;
    }
    let mut i: usize = 0;
    while i < a.len()
        invariant
            i <= a@.len(),
            a@.len() == b@.len(),
            forall|k: int| 0 <= k < i ==> a@[k] == b@[k],
        decreases a@.len() - i,
    {
        if a[i] != b[i] {
            return false;
        }
        i = i + 1;
    }
    proof {
        assert(a@ =~= b@);
    }
    true
}

/// The 32 bytes at `at`, as an array.
pub fn array32(s: &[u8], at: usize) -> (r: [u8; 32])
    requires
        at + 32 <= s@.len(),
    ensures
        r@ == s@.subrange(at as int, at + 32),
{
    let mut out: [u8; 32] = [0u8; 32];
    let mut i: usize = 0;
    while i < 32
        invariant
            i <= 32,
            at + 32 <= s.len(),
            s.len() == s@.len(),
            forall|k: int| 0 <= k < i ==> out@[k] == s@[at + k],
        decreases 32 - i,
    {
        out[i] = s[at + i];
        i = i + 1;
    }
    proof {
        assert(out@ =~= s@.subrange(at as int, at + 32));
    }
    out
}

/// The 16 bytes at `at`, as an array.
pub fn array16(s: &[u8], at: usize) -> (r: [u8; 16])
    requires
        at + 16 <= s@.len(),
    ensures
        r@ == s@.subrange(at as int, at + 16),
{
    let mut out: [u8; 16] = [0u8; 16];
    let mut i: usize = 0;
    while i < 16
        invariant
            i <= 16,
            at + 16 <= s.len(),
            s.len() == s@.len(),
            forall|k: int| 0 <= k < i ==> out@[k] == s@[at + k],
        decreases 16 - i,
    {
        out[i] = s[at + i];
        i = i + 1;
    }
    proof {
        assert(out@ =~= s@.subrange(at as int, at + 16));
    }
    out
}

/// The 24 bytes at `at`, as an array.
pub fn array24(s: &[u8], at: usize) -> (r: [u8; 24])
    requires
        at + 24 <= s@.len(),
    ensures
        r@ == s@.subrange(at as int, at + 24),
{
    let mut out: [u8; 24] = [0u8; 24];
    let mut i: usize = 0;
    while i < 24
        invariant
            i <= 24,
            at + 24 <= s.len(),
            s.len() == s@.len(),
            forall|k: int| 0 <= k < i ==> out@[k] == s@[at + k],
        decreases 24 - i,
    {
        out[i] = s[at + i];
        i = i + 1;
    }
    proof {
        assert(out@ =~= s@.subrange(at as int, at + 24));
    }
    out
}

/// Least significant first, a number's first byte is what is left of it by 256,
/// and the others are those of the quotient; most significant first, it is the
/// last byte.
pub proof fn law_byte_order(n: nat, width: nat)
    requires
        width > 0,
    ensures
        le_bytes(n, width).len() == width,
        le_bytes(n, width)[0] == n % 256,
        le_bytes(n, width).skip(1) == le_bytes(n / 256, (width - 1) as nat),
        be_bytes(n, width).last() == n % 256,
        be_bytes(n, width).drop_last() == be_bytes(n / 256, (width - 1) as nat),
{
    lemma_le_bytes_len(n, width);
    assert(le_bytes(n, width).skip(1) =~= le_bytes(n / 256, (width - 1) as nat));
    assert(be_bytes(n, width).drop_last() =~= be_bytes(n / 256, (width - 1) as nat));
}

/// Two's complement: the bit pattern of a number is the number, or with the
/// modulus added where it is below zero.
pub proof fn law_twos_complement(n: int)
    requires
        i64::MIN <= n <= i64::MAX,
    ensures
        bits_of_i64(n) <= u64::MAX,
        bits_of_i64(n) == n || bits_of_i64(n) - n == u64::MAX + 1,
        bits_of_i64(n) == n <==> n >= 0,
        i64_of_bits(bits_of_i64(n)) == n,
{
}

} // verus!
