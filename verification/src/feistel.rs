//! The 16-bit Feistel permutation that spreads identifier indices over the
//! proquint space, and its inverse.
use vstd::prelude::*;

verus! {

/// Multiplier of the round function.
pub const ROUND_MULTIPLIER: u64 = 0x517cc1b727220a95;

/// Round function of the network: a byte derived from the seed, the half
/// being fed in and the round number.
pub open spec fn mix(seed: u64, x: u8, round: u64) -> u8 {
    let h = (seed ^ (x as u64) ^ round).wrapping_mul(ROUND_MULTIPLIER);
    (h ^ (h >> 32u64)) as u8
}

/// One forward round: `(l, r)` becomes `(r, l ^ mix(r))`.
pub open spec fn round_fwd(halves: (u8, u8), seed: u64, round: u64) -> (u8, u8) {
    (halves.1, halves.0 ^ mix(seed, halves.1, round))
}

/// One backward round, undoing `round_fwd`: `(l, r)` becomes `(r ^ mix(l), l)`.
pub open spec fn round_bwd(halves: (u8, u8), seed: u64, round: u64) -> (u8, u8) {
    (halves.1 ^ mix(seed, halves.0, round), halves.0)
}

/// Rounds `0 .. n` applied forward.
pub open spec fn rounds_fwd(halves: (u8, u8), seed: u64, n: nat) -> (u8, u8)
    decreases n,
{
    if n == 0 {
        halves
    } else {
        round_fwd(rounds_fwd(halves, seed, (n - 1) as nat), seed, (n - 1) as u64)
    }
}

/// Rounds `n - 1` down to `0` applied backward.
pub open spec fn rounds_bwd(halves: (u8, u8), seed: u64, n: nat) -> (u8, u8)
    decreases n,
{
    if n == 0 {
        halves
    } else {
        rounds_bwd(round_bwd(halves, seed, (n - 1) as u64), seed, (n - 1) as nat)
    }
}

/// The high and low byte of a 16-bit value.
pub open spec fn split16(v: u16) -> (u8, u8) {
    ((v >> 8u16) as u8, (v & 0xffu16) as u8)
}

/// The 16-bit value with high byte `h.0` and low byte `h.1`.
pub open spec fn join16(h: (u8, u8)) -> u16 {
    ((h.0 as u16) << 8u16) | (h.1 as u16)
}

/// The permutation: four forward rounds.
pub open spec fn permute_spec(val: u16, seed: u64) -> u16 {
    join16(rounds_fwd(split16(val), seed, 4))
}

/// Its inverse: four backward rounds.
pub open spec fn unpermute_spec(val: u16, seed: u64) -> u16 {
    join16(rounds_bwd(split16(val), seed, 4))
}

proof fn lemma_xor_cancel(a: u8, m: u8)
    ensures
        (a ^ m) ^ m == a,
{
    assert((a ^ m) ^ m == a) by (bit_vector);
}

proof fn lemma_split_join(h: (u8, u8))
    ensures
        split16(join16(h)) == h,
{
    let a = h.0;
    let b = h.1;
    assert((((a as u16) << 8u16 | (b as u16)) >> 8u16) as u8 == a) by (bit_vector);
    assert((((a as u16) << 8u16 | (b as u16)) & 0xffu16) as u8 == b) by (bit_vector);
}

proof fn lemma_join_split(v: u16)
    ensures
        join16(split16(v)) == v,
{
    assert(((((v >> 8u16) as u8) as u16) << 8u16) | (((v & 0xffu16) as u8) as u16) == v)
        by (bit_vector);
}

proof fn lemma_bwd_fwd(halves: (u8, u8), seed: u64, n: nat)
    ensures
        rounds_bwd(rounds_fwd(halves, seed, n), seed, n) == halves,
    decreases n,
{
    if n > 0 {
        let prev = rounds_fwd(halves, seed, (n - 1) as nat);
        lemma_xor_cancel(prev.0, mix(seed, prev.1, (n - 1) as u64));
        assert(round_bwd(round_fwd(prev, seed, (n - 1) as u64), seed, (n - 1) as u64) == prev);
        lemma_bwd_fwd(halves, seed, (n - 1) as nat);
    }
}

proof fn lemma_fwd_bwd(halves: (u8, u8), seed: u64, n: nat)
    ensures
        rounds_fwd(rounds_bwd(halves, seed, n), seed, n) == halves,
    decreases n,
{
    if n > 0 {
        let once = round_bwd(halves, seed, (n - 1) as u64);
        lemma_fwd_bwd(once, seed, (n - 1) as nat);
        lemma_xor_cancel(halves.1, mix(seed, halves.0, (n - 1) as u64));
        assert(round_fwd(once, seed, (n - 1) as u64) == halves);
    }
}

/// Undoing the permutation gives back the index: `unpermute(permute(v)) == v`
/// for every value and seed.
pub proof fn lemma_unpermute_permute(val: u16, seed: u64)
    ensures
        unpermute_spec(permute_spec(val, seed), seed) == val,
{
    let h = rounds_fwd(split16(val), seed, 4);
    lemma_split_join(h);
    lemma_bwd_fwd(split16(val), seed, 4);
    lemma_join_split(val);
}

/// The permutation undoes its inverse: `permute(unpermute(v)) == v`, so the
/// permutation is a bijection of the 16-bit values for every seed.
pub proof fn lemma_permute_unpermute(val: u16, seed: u64)
    ensures
        permute_spec(unpermute_spec(val, seed), seed) == val,
{
    let h = rounds_bwd(split16(val), seed, 4);
    lemma_split_join(h);
    lemma_fwd_bwd(split16(val), seed, 4);
    lemma_join_split(val);
}

/// Distinct indices are sent to distinct values.
pub proof fn lemma_permute_injective(a: u16, b: u16, seed: u64)
    ensures
        a != b ==> permute_spec(a, seed) != permute_spec(b, seed),
{
    lemma_unpermute_permute(a, seed);
    lemma_unpermute_permute(b, seed);
}

fn mix_exec(seed: u64, x: u8, round: u64) -> (r: u8)
    ensures
        r == mix(seed, x, round),
{
    let mut h = seed ^ (x as u64) ^ round;
    h = h.wrapping_mul(ROUND_MULTIPLIER);
    h ^= h >> 32;
    h as u8
}

/// A simple 16-bit permutation based on a Feistel network.
pub fn permute(val: u16, seed: u64) -> (r: u16)
    ensures
        r == permute_spec(val, seed),
{
    let mut l = (val >> 8) as u8;
    let mut r = (val & 0xFF) as u8;
    let mut i: u64 = 0;
    while i < 4
        invariant
            i <= 4,
            (l, r) == rounds_fwd(split16(val), seed, i as nat),
        decreases 4 - i,
    {
        let tmp = l;
        l = r;
        let h = mix_exec(seed, r, i);
        r = tmp ^ h;
        i = i + 1;
    }
    ((l as u16) << 8) | (r as u16)
}

/// The inverse of `permute`.
pub fn unpermute(val: u16, seed: u64) -> (r: u16)
    ensures
        r == unpermute_spec(val, seed),
{
    let mut l = (val >> 8) as u8;
    let mut r = (val & 0xFF) as u8;
    let mut i: u64 = 4;
    while i > 0
        invariant
            i <= 4,
            rounds_bwd(split16(val), seed, 4) == rounds_bwd((l, r), seed, i as nat),
        decreases i,
    {
        let tmp = r;
        r = l;
        let h = mix_exec(seed, l, i - 1);
        l = tmp ^ h;
        i = i - 1;
    }
    ((l as u16) << 8) | (r as u16)
}

} // verus!
