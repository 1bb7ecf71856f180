//! Big-endian integer decoding as used by the Kafka wire format.

use vstd::prelude::*;

verus! {

/// Unsigned value of a big-endian byte sequence.
pub open spec fn be_uint(b: Seq<u8>) -> nat
    decreases b.len(),
{
    if b.len() == 0 {
        0
    } else {
        be_uint(b.drop_last()) * 256 + b.last() as nat
    }
}

/// 256 to the power `n`.
pub open spec fn pow256(n: nat) -> nat
    decreases n,
{
    if n == 0 {
        1
    } else {
        pow256((n - 1) as nat) * 256
    }
}

/// Two's complement reading of a big-endian sequence of `n` bytes.
pub open spec fn be_int(b: Seq<u8>) -> int {
    let u = be_uint(b);
    if u * 2 < pow256(b.len()) {
        u as int
    } else {
        u - pow256(b.len())
    }
}

pub proof fn lemma_be_uint_bound(b: Seq<u8>)
    ensures
        be_uint(b) < pow256(b.len()),
    decreases b.len(),
{
    if b.len() > 0 {
        lemma_be_uint_bound(b.drop_last());
    }
}

pub proof fn lemma_pow256_values()
    ensures
        pow256(2) == 0x1_0000,
        pow256(4) == 0x1_0000_0000,
        pow256(8) == 0x1_0000_0000_0000_0000,
{
    reveal_with_fuel(pow256, 9);
}

pub proof fn lemma_pow256_monotone(i: nat, j: nat)
    requires
        i <= j,
    ensures
        pow256(i) <= pow256(j),
    decreases j,
{
    if i < j {
        lemma_pow256_monotone(i, (j - 1) as nat);
    }
}

/// Unsigned big-endian value of at most eight bytes.
pub fn be_u64(bytes: &[u8]) -> (r: u64)
    requires
        bytes@.len() <= 8,
    ensures
        r as nat == be_uint(bytes@),
{
    let mut acc: u64 = 0;
    let mut i: usize = 0;
    proof {
        assert(bytes@.take(0) =~= Seq::<u8>::empty());
        lemma_pow256_values();
    }
    while i < bytes.len()
        invariant
            i <= bytes@.len() <= 8,
            acc as nat == be_uint(bytes@.take(i as int)),
            acc < pow256(i as nat),
            pow256(8) == 0x1_0000_0000_0000_0000,
        decreases bytes@.len() - i,
    {
        proof {
            lemma_pow256_monotone((i + 1) as nat, 8);
            assert(bytes@.take(i + 1).drop_last() =~= bytes@.take(i as int));
        }
        acc = acc * 256 + bytes[i] as u64;
        i = i + 1;
    }
    proof {
        assert(bytes@.take(i as int) =~= bytes@);
    }
    acc
}

/// Two's complement value of two big-endian bytes.
pub fn be_i16(bytes: &[u8]) -> (r: i16)
    requires
        bytes@.len() == 2,
    ensures
        r as int == be_int(bytes@),
{
    let u = be_u64(bytes);
    proof {
        lemma_pow256_values();
        lemma_be_uint_bound(bytes@);
    }
    if u < 0x8000 {
        u as i16
    } else {
        ((u as i32) - 0x1_0000) as i16
    }
}

/// Two's complement value of four big-endian bytes.
pub fn be_i32(bytes: &[u8]) -> (r: i32)
    requires
        bytes@.len() == 4,
    ensures
        r as int == be_int(bytes@),
{
    let u = be_u64(bytes);
    proof {
        lemma_pow256_values();
        lemma_be_uint_bound(bytes@);
    }
    if u < 0x8000_0000 {
        u as i32
    } else {
        ((u as i64) - 0x1_0000_0000) as i32
    }
}

/// Two's complement value of eight big-endian bytes.
pub fn be_i64(bytes: &[u8]) -> (r: i64)
    requires
        bytes@.len() == 8,
    ensures
        r as int == be_int(bytes@),
{
    let u = be_u64(bytes);
    proof {
        lemma_pow256_values();
    }
    if u < 0x8000_0000_0000_0000 {
        u as i64
    } else {
        ((u - 0x8000_0000_0000_0000) as i64) - 0x7fff_ffff_ffff_ffff - 1
    }
}

/// The `n` low-order bytes of `u`, most significant first.
pub open spec fn be_bytes(u: nat, n: nat) -> Seq<u8>
    decreases n,
{
    if n == 0 {
        seq![]
    } else {
        be_bytes(u / 256, (n - 1) as nat).push((u % 256) as u8)
    }
}

/// The `n`-byte big-endian two's complement encoding of `v`.
pub open spec fn be_signed_bytes(v: int, n: nat) -> Seq<u8> {
    be_bytes((if v >= 0 { v } else { v + pow256(n) }) as nat, n)
}

pub proof fn lemma_be_bytes(u: nat, n: nat)
    ensures
        be_bytes(u, n).len() == n,
        be_uint(be_bytes(u, n)) == u % pow256(n),
    decreases n,
{
    if n > 0 {
        let m = (n - 1) as nat;
        lemma_be_bytes(u / 256, m);
        vstd::arithmetic::div_mod::lemma_mod_bound(u as int, 256);
        vstd::arithmetic::div_mod::lemma_div_pos_is_pos(u as int, 256);
        assert(be_bytes(u, n).drop_last() =~= be_bytes(u / 256, m));
        lemma_pow256_positive(m);
        vstd::arithmetic::div_mod::lemma_mod_breakdown(u as int, 256, pow256(m) as int);
    } else {
        assert(u % 1 == 0);
    }
}

pub proof fn lemma_pow256_positive(n: nat)
    ensures
        pow256(n) > 0,
    decreases n,
{
    if n > 0 {
        lemma_pow256_positive((n - 1) as nat);
    }
}

/// Decoding an encoded value that fits in `n` bytes gives the value back.
pub proof fn lemma_be_signed_roundtrip(v: int, n: nat)
    requires
        -pow256(n) <= 2 * v < pow256(n),
    ensures
        be_signed_bytes(v, n).len() == n,
        be_int(be_signed_bytes(v, n)) == v,
{
    let u = (if v >= 0 { v } else { v + pow256(n) }) as nat;
    lemma_be_bytes(u, n);
    vstd::arithmetic::div_mod::lemma_small_mod(u, pow256(n));
}

} // verus!
