use vstd::prelude::*;
use vstd::arithmetic::div_mod::{lemma_mod_multiples_vanish, lemma_mul_mod_noop_left};
use vstd::arithmetic::mul::{lemma_mul_is_associative, lemma_mul_is_distributive_add};

verus! {

/// FNV-1a offset basis.
pub const FNV_OFFSET: u64 = 0xcbf29ce484222325;

/// FNV-1a prime.
pub const FNV_PRIME: u64 = 0x100000001b3;

/// Multiplicative inverse of the FNV-1a prime modulo 2^64.
pub const FNV_PRIME_INVERSE: u64 = 0xce965057aff6957b;

/// One FNV-1a round: fold a byte into the running hash.
pub open spec fn fnv_step(h: u64, b: u8) -> u64 {
    vstd::wrapping::u64_specs::wrapping_mul(h ^ (b as u64), FNV_PRIME)
}

/// FNV-1a hash of a byte sequence, started from the running hash `h`.
pub open spec fn fnv1a_from(h: u64, s: Seq<u8>) -> u64
    decreases s.len(),
{
    if s.len() == 0 {
        h
    } else {
        fnv1a_from(fnv_step(h, s[0]), s.drop_first())
    }
}

/// 64-bit FNV-1a hash of a byte sequence: the record checksum.
pub open spec fn fnv1a(s: Seq<u8>) -> u64 {
    fnv1a_from(FNV_OFFSET, s)
}

/// 64-bit FNV-1a checksum over the payload bytes.
pub fn fnv1a_checksum(data: &[u8]) -> (r: u64)
    ensures
        r == fnv1a(data@),
{
    let mut hash: u64 = FNV_OFFSET;
    let mut i: usize = 0;
    proof {
        assert(data@.skip(0) =~= data@);
    }
    while i < data.len()
        invariant
            i <= data.len(),
            fnv1a(data@) == fnv1a_from(hash, data@.skip(i as int)),
        decreases data.len() - i,
    {
        let ghost pre = data@.skip(i as int);
        hash = (hash ^ (data[i] as u64)).wrapping_mul(FNV_PRIME);
        i = i + 1;
        proof {
            assert(pre.drop_first() =~= data@.skip(i as int));
        }
    }
    proof {
        assert(data@.skip(data@.len() as int) =~= Seq::<u8>::empty());
    }
    hash
}

/// Multiplying by the FNV-1a prime modulo 2^64, then by its inverse, gives
/// the argument back.
proof fn lemma_prime_cancel(x: u64)
    ensures
        ((((x as int) * (FNV_PRIME as int)) % 0x10000000000000000) * (FNV_PRIME_INVERSE as int))
            % 0x10000000000000000 == x as int,
{
    let m: int = 0x10000000000000000;
    let p: int = FNV_PRIME as int;
    let q: int = FNV_PRIME_INVERSE as int;
    let xi: int = x as int;
    assert(p * q == 1 + 0xce9650590f * m);
    lemma_mul_mod_noop_left(xi * p, q, m);
    assert((((xi * p) % m) * q) % m == ((xi * p) * q) % m);
    lemma_mul_is_associative(xi, p, q);
    assert(((xi * p) * q) % m == (xi * (p * q)) % m);
    lemma_mul_is_distributive_add(xi, 1, 0xce9650590f * m);
    assert(xi * (1 + 0xce9650590f * m) == xi * 1 + xi * (0xce9650590f * m));
    lemma_mul_is_associative(xi, 0xce9650590f, m);
    assert(xi * (0xce9650590f * m) == (xi * 0xce9650590f) * m);
    assert(xi * (p * q) == xi + m * (xi * 0xce9650590f)) by {
        vstd::arithmetic::mul::lemma_mul_is_commutative(xi * 0xce9650590f, m);
    }
    lemma_mod_multiples_vanish(xi * 0xce9650590f, xi, m);
    assert((m * (xi * 0xce9650590f) + xi) % m == xi % m);
    assert(xi % m == xi);
}

/// Multiplication by the FNV-1a prime is injective modulo 2^64.
proof fn lemma_wrapping_mul_prime_injective(x: u64, y: u64)
    requires
        vstd::wrapping::u64_specs::wrapping_mul(x, FNV_PRIME) == vstd::wrapping::u64_specs::wrapping_mul(
            y,
            FNV_PRIME,
        ),
    ensures
        x == y,
{
    let m: int = 0x10000000000000000;
    assert(vstd::wrapping::u64_specs::wrapping_mul(x, FNV_PRIME) as int == ((x as int) * (
    FNV_PRIME as int)) % m);
    assert(vstd::wrapping::u64_specs::wrapping_mul(y, FNV_PRIME) as int == ((y as int) * (
    FNV_PRIME as int)) % m);
    lemma_prime_cancel(x);
    lemma_prime_cancel(y);
}

/// One FNV-1a round is injective in the running hash for a fixed byte, and
/// in the byte for a fixed running hash.
proof fn lemma_fnv_step_injective(h1: u64, h2: u64, b1: u8, b2: u8)
    requires
        fnv_step(h1, b1) == fnv_step(h2, b2),
    ensures
        h1 ^ (b1 as u64) == h2 ^ (b2 as u64),
        h1 == h2 ==> b1 == b2,
        b1 == b2 ==> h1 == h2,
{
    lemma_wrapping_mul_prime_injective(h1 ^ (b1 as u64), h2 ^ (b2 as u64));
    assert(h1 ^ (b1 as u64) == h2 ^ (b2 as u64) && h1 == h2 ==> b1 == b2) by (bit_vector);
    assert(h1 ^ (b1 as u64) == h2 ^ (b2 as u64) && b1 == b2 ==> h1 == h2) by (bit_vector);
}

/// Distinct running hashes stay distinct over any common suffix.
proof fn lemma_fnv_from_injective(h1: u64, h2: u64, s: Seq<u8>)
    requires
        h1 != h2,
    ensures
        fnv1a_from(h1, s) != fnv1a_from(h2, s),
    decreases s.len(),
{
    if s.len() > 0 {
        if fnv_step(h1, s[0]) == fnv_step(h2, s[0]) {
            lemma_fnv_step_injective(h1, h2, s[0], s[0]);
        }
        lemma_fnv_from_injective(fnv_step(h1, s[0]), fnv_step(h2, s[0]), s.drop_first());
    }
}

/// Checksum sensitivity: two payloads of one length that differ in exactly
/// one byte never share an FNV-1a hash, whatever running hash they start
/// from.
proof fn lemma_fnv_from_byte_flip(h: u64, s1: Seq<u8>, s2: Seq<u8>, j: int)
    requires
        s1.len() == s2.len(),
        0 <= j < s1.len(),
        s1[j] != s2[j],
        forall|k: int| 0 <= k < s1.len() && k != j ==> s1[k] == s2[k],
    ensures
        fnv1a_from(h, s1) != fnv1a_from(h, s2),
    decreases j,
{
    if j == 0 {
        if fnv_step(h, s1[0]) == fnv_step(h, s2[0]) {
            lemma_fnv_step_injective(h, h, s1[0], s2[0]);
        }
        assert(s1.drop_first() =~= s2.drop_first());
        lemma_fnv_from_injective(fnv_step(h, s1[0]), fnv_step(h, s2[0]), s1.drop_first());
    } else {
        assert(s1[0] == s2[0]);
        lemma_fnv_from_byte_flip(fnv_step(h, s1[0]), s1.drop_first(), s2.drop_first(), j - 1);
    }
}

/// Checksum sensitivity: flipping any single payload byte changes the
/// FNV-1a checksum, so the mismatch is always detected on the next read.
pub proof fn lemma_checksum_byte_flip(s1: Seq<u8>, s2: Seq<u8>, j: int)
    requires
        s1.len() == s2.len(),
        0 <= j < s1.len(),
        s1[j] != s2[j],
        forall|k: int| 0 <= k < s1.len() && k != j ==> s1[k] == s2[k],
    ensures
        fnv1a(s1) != fnv1a(s2),
{
    lemma_fnv_from_byte_flip(FNV_OFFSET, s1, s2, j);
}

} // verus!
