//! The 32-bit FNV-1a hash.

use vstd::prelude::*;

verus! {

/// The 32-bit FNV offset basis, the state of a fresh hasher.
pub const FNV32_OFFSET_BASIS: u32 = 0x811C9DC5;

/// The 32-bit FNV prime.
pub const FNV32_PRIME: u32 = 0x01000193;

/// One FNV-1a round: the byte is folded into the state by xor, and the state
/// is then multiplied by the FNV prime modulo 2^32.
pub open spec fn fnv32_step(hash: u32, byte: u8) -> u32 {
    (((hash ^ (byte as u32)) as int * 0x01000193) % 0x1_0000_0000) as u32
}

/// The state reached from `hash` after absorbing `bytes` in order.
pub open spec fn fnv32_fold(hash: u32, bytes: Seq<u8>) -> u32
    decreases bytes.len(),
{
    if bytes.len() == 0 {
        hash
    } else {
        fnv32_step(fnv32_fold(hash, bytes.drop_last()), bytes.last())
    }
}

/// A left shift of a 32-bit value is a multiplication by a power of two
/// modulo 2^32, for the five shifts that make up the FNV prime.
proof fn lemma_shifts_are_multiples(m: u32)
    by (bit_vector)
    ensures
        m << 24u32 == ((m as u64 * 0x100_0000u64) % 0x1_0000_0000) as u32,
        m << 8u32 == ((m as u64 * 0x100u64) % 0x1_0000_0000) as u32,
        m << 7u32 == ((m as u64 * 0x80u64) % 0x1_0000_0000) as u32,
        m << 4u32 == ((m as u64 * 0x10u64) % 0x1_0000_0000) as u32,
        m << 1u32 == ((m as u64 * 0x2u64) % 0x1_0000_0000) as u32,
{
}

/// The quotient `q` by which `x` exceeds its remainder modulo 2^32.
proof fn lemma_reduce(x: int) -> (q: int)
    ensures
        x % 0x1_0000_0000 == x - q * 0x1_0000_0000,
        0 <= x % 0x1_0000_0000 < 0x1_0000_0000,
{
    x / 0x1_0000_0000
}

/// A remainder modulo 2^32 is fixed by its range and its distance from `x`.
proof fn lemma_reduced(x: int, q: int, r: int)
    requires
        0 <= r < 0x1_0000_0000,
        x == q * 0x1_0000_0000 + r,
    ensures
        r == x % 0x1_0000_0000,
{
    vstd::arithmetic::div_mod::lemma_fundamental_div_mod_converse(x, 0x1_0000_0000, q, r);
}

/// Whether `s` is the sum of `x` and `y` reduced into the 32-bit range.
spec fn wraps_to(x: int, y: int, s: int) -> bool {
    0 <= s < 0x1_0000_0000 && (s == x + y || s == x + y - 0x1_0000_0000)
}

/// Adding the five shifted copies to a value, each sum reduced modulo 2^32,
/// multiplies it by the FNV prime 2^24 + 2^8 + 2^7 + 2^4 + 2^1 + 1 modulo 2^32.
proof fn lemma_prime_multiple_by_sums(
    m: int,
    a: int,
    b: int,
    c: int,
    d: int,
    e: int,
    s1: int,
    s2: int,
    s3: int,
    s4: int,
    n: int,
)
    requires
        a == (m * 0x100_0000) % 0x1_0000_0000,
        b == (m * 0x100) % 0x1_0000_0000,
        c == (m * 0x80) % 0x1_0000_0000,
        d == (m * 0x10) % 0x1_0000_0000,
        e == (m * 0x2) % 0x1_0000_0000,
        wraps_to(m, a, s1),
        wraps_to(s1, b, s2),
        wraps_to(s2, c, s3),
        wraps_to(s3, d, s4),
        wraps_to(s4, e, n),
    ensures
        n == (m * 0x01000193) % 0x1_0000_0000,
{
    let qa = lemma_reduce(m * 0x100_0000);
    let qb = lemma_reduce(m * 0x100);
    let qc = lemma_reduce(m * 0x80);
    let qd = lemma_reduce(m * 0x10);
    let qe = lemma_reduce(m * 0x2);
    let q1 = if s1 == m + a { 0int } else { 1int };
    let q2 = if s2 == s1 + b { 0int } else { 1int };
    let q3 = if s3 == s2 + c { 0int } else { 1int };
    let q4 = if s4 == s3 + d { 0int } else { 1int };
    let q5 = if n == s4 + e { 0int } else { 1int };
    let q = qa + qb + qc + qd + qe + q1 + q2 + q3 + q4 + q5;
    lemma_reduced(m * 0x01000193, q, n);
}

/// The five wrapping shifts and additions of one round compute `fnv32_step`.
proof fn lemma_round_is_step(hash: u32, byte: u8, next: u32)
    requires
        ({
            let m = hash ^ (byte as u32);
            let s1 = m.wrapping_add(m.wrapping_shl(24));
            let s2 = s1.wrapping_add(m.wrapping_shl(8));
            let s3 = s2.wrapping_add(m.wrapping_shl(7));
            let s4 = s3.wrapping_add(m.wrapping_shl(4));
            next == s4.wrapping_add(m.wrapping_shl(1))
        }),
    ensures
        next == fnv32_step(hash, byte),
{
    let m = hash ^ (byte as u32);
    lemma_shifts_are_multiples(m);
    let a = m.wrapping_shl(24);
    let b = m.wrapping_shl(8);
    let c = m.wrapping_shl(7);
    let d = m.wrapping_shl(4);
    let e = m.wrapping_shl(1);
    let s1 = m.wrapping_add(a);
    let s2 = s1.wrapping_add(b);
    let s3 = s2.wrapping_add(c);
    let s4 = s3.wrapping_add(d);
    lemma_reduce(m * 0x100_0000);
    lemma_reduce(m * 0x100);
    lemma_reduce(m * 0x80);
    lemma_reduce(m * 0x10);
    lemma_reduce(m * 0x2);
    lemma_prime_multiple_by_sums(
        m as int,
        a as int,
        b as int,
        c as int,
        d as int,
        e as int,
        s1 as int,
        s2 as int,
        s3 as int,
        s4 as int,
        next as int,
    );
}

/// A streaming 32-bit FNV-1a hasher.
#[derive(Debug)]
pub struct FnvHasher32(u32);

impl View for FnvHasher32 {
    type V = u32;

    /// The hash of everything written so far.
    closed spec fn view(&self) -> u32 {
        self.0
    }
}

impl Default for FnvHasher32 {
    fn default() -> (h: FnvHasher32)
        ensures
            h@ == FNV32_OFFSET_BASIS,
    {
        FnvHasher32(FNV32_OFFSET_BASIS)
    }
}

/// Absorbs `bytes` into a hash state, one FNV-1a round per byte.
fn absorb(state: u32, bytes: &[u8]) -> (hash: u32)
    ensures
        hash == fnv32_fold(state, bytes@),
{
    let mut hash: u32 = state;
    let mut i: usize = 0;
    while i < bytes.len()
        invariant
            i <= bytes.len(),
            hash == fnv32_fold(state, bytes@.take(i as int)),
        decreases bytes.len() - i,
    {
        let byte: u8 = bytes[i];
        let mixed: u32 = hash ^ (byte as u32);
        let mut next: u32 = mixed;
        next = next.wrapping_add(mixed.wrapping_shl(24));
        next = next.wrapping_add(mixed.wrapping_shl(8));
        next = next.wrapping_add(mixed.wrapping_shl(7));
        next = next.wrapping_add(mixed.wrapping_shl(4));
        next = next.wrapping_add(mixed.wrapping_shl(1));
        proof {
            lemma_round_is_step(hash, byte, next);
            assert(bytes@.take(i + 1).drop_last() == bytes@.take(i as int));
            assert(bytes@.take(i + 1).last() == byte);
        }
        hash = next;
        i = i + 1;
    }
    proof {
        assert(bytes@.take(bytes.len() as int) == bytes@);
    }
    hash
}

/// The 32-bit FNV-1a hash of a byte string.
pub fn hash_bytes(bytes: &[u8]) -> (hash: u32)
    ensures
        hash == fnv32_fold(FNV32_OFFSET_BASIS, bytes@),
{
    absorb(FNV32_OFFSET_BASIS, bytes)
}

impl std::hash::Hasher for FnvHasher32 {
    fn finish(&self) -> (digest: u64)
        ensures
            digest == self@,
    {
        self.0 as u64
    }

    fn write(&mut self, bytes: &[u8])
        ensures
            final(self)@ == fnv32_fold(old(self)@, bytes@),
    {
        self.0 = absorb(self.0, bytes);
    }
}

} // verus!
