//! Spreads a counter's bits about, for numbers that only have to differ and that
//! nobody is trying to predict: splitmix64, and the same idea in 32 bits, where
//! no two counters may come out alike.

use vstd::arithmetic::div_mod::{
    lemma_mod_multiples_vanish, lemma_mul_mod_noop_left, lemma_small_mod,
};
use vstd::prelude::*;

verus! {

/// What splitmix64 steps its counter by.
pub const STEP: u64 = 0x9e37_79b9_7f4a_7c15;

/// What splitmix64 makes of its counter.
pub open spec fn mixed(counter: u64) -> u64 {
    let first = (counter ^ (counter >> 30u64)).wrapping_mul(0xbf58_476d_1ce4_e5b9);
    let second = (first ^ (first >> 27u64)).wrapping_mul(0x94d0_49bb_1331_11eb);
    second ^ (second >> 31u64)
}

/// What splitmix64 makes of the counter after the one given.
pub open spec fn scrambled(counter: u64) -> u64 {
    mixed(counter.wrapping_add(STEP))
}

/// What splitmix64 makes of the counter after the one given.
pub(crate) fn scramble(counter: u64) -> (value: u64)
    ensures
        value == scrambled(counter),
{
    let counter: u64 = counter.wrapping_add(STEP);
    let first: u64 = (counter ^ (counter >> 30u64)).wrapping_mul(0xbf58_476d_1ce4_e5b9);
    let second: u64 = (first ^ (first >> 27u64)).wrapping_mul(0x94d0_49bb_1331_11eb);
    second ^ (second >> 31u64)
}

/// What the 32-bit mixing steps its counter by.
pub const HALF_STEP: u32 = 0x9e37_79b9;

/// A counter of 32 bits with its bits spread about.
pub open spec fn spread_out(counter: u32) -> u32 {
    let stepped = counter.wrapping_add(HALF_STEP);
    let first = (stepped ^ (stepped >> 16u32)).wrapping_mul(0x7feb_352d);
    let second = (first ^ (first >> 15u32)).wrapping_mul(0x846c_a68b);
    second ^ (second >> 16u32)
}

/// Spreads the bits of a counter about.
pub(crate) fn spread(counter: u32) -> (value: u32)
    ensures
        value == spread_out(counter),
{
    let stepped: u32 = counter.wrapping_add(HALF_STEP);
    let first: u32 = (stepped ^ (stepped >> 16u32)).wrapping_mul(0x7feb_352d);
    let second: u32 = (first ^ (first >> 15u32)).wrapping_mul(0x846c_a68b);
    second ^ (second >> 16u32)
}

/// Multiplying by a number that has an inverse can be undone.
proof fn lemma_inverse_undoes(a: int, factor: int, inverse: int, over: int, modulus: int)
    requires
        0 <= a < modulus,
        factor * inverse == 1 + over * modulus,
    ensures
        ((a * factor) % modulus * inverse) % modulus == a,
{
    lemma_mul_mod_noop_left(a * factor, inverse, modulus);
    assert(a * factor * inverse == modulus * (a * over) + a) by (nonlinear_arith)
        requires
            factor * inverse == 1 + over * modulus,
    ;
    lemma_mod_multiples_vanish(a * over, a, modulus);
    lemma_small_mod(a as nat, modulus as nat);
}

/// Both multiplications keep numbers apart.
proof fn lemma_products_differ(a: u32, b: u32)
    requires
        a != b,
    ensures
        a.wrapping_mul(0x7feb_352d) != b.wrapping_mul(0x7feb_352d),
        a.wrapping_mul(0x846c_a68b) != b.wrapping_mul(0x846c_a68b),
{
    let modulus: int = 0x1_0000_0000;
    lemma_inverse_undoes(a as int, 0x7feb_352d, 0x1d69_e2a5, 246_582_719, modulus);
    lemma_inverse_undoes(b as int, 0x7feb_352d, 0x1d69_e2a5, 246_582_719, modulus);
    lemma_inverse_undoes(a as int, 0x846c_a68b, 0x4302_1123, 581_534_029, modulus);
    lemma_inverse_undoes(b as int, 0x846c_a68b, 0x4302_1123, 581_534_029, modulus);
}

/// Folding a number's high bits onto its low ones can be undone.
proof fn lemma_folds_differ(a: u32, b: u32)
    requires
        a != b,
    ensures
        a ^ (a >> 16u32) != b ^ (b >> 16u32),
        a ^ (a >> 15u32) != b ^ (b >> 15u32),
{
    assert(a ^ (a >> 16u32) != b ^ (b >> 16u32) && a ^ (a >> 15u32) != b ^ (b >> 15u32))
        by (bit_vector)
        requires
            a != b,
    ;
}

/// No two counters of 32 bits come out alike.
pub proof fn law_spreading_keeps_counters_apart(a: u32, b: u32)
    requires
        a != b,
    ensures
        spread_out(a) != spread_out(b),
{
    let (p, q) = (a.wrapping_add(HALF_STEP), b.wrapping_add(HALF_STEP));
    assert(p != q);
    lemma_folds_differ(p, q);
    lemma_products_differ(p ^ (p >> 16u32), q ^ (q >> 16u32));
    let (p, q) = (
        (p ^ (p >> 16u32)).wrapping_mul(0x7feb_352d),
        (q ^ (q >> 16u32)).wrapping_mul(0x7feb_352d),
    );
    lemma_folds_differ(p, q);
    lemma_products_differ(p ^ (p >> 15u32), q ^ (q >> 15u32));
    let (p, q) = (
        (p ^ (p >> 15u32)).wrapping_mul(0x846c_a68b),
        (q ^ (q >> 15u32)).wrapping_mul(0x846c_a68b),
    );
    lemma_folds_differ(p, q);
}

/// The counter that splitmix64 made a number of: each of its steps undone, the
/// last first.
pub open spec fn unscrambled(value: u64) -> u64 {
    let second = value ^ (value >> 31u64) ^ (value >> 62u64);
    let before = second.wrapping_mul(0x3196_42b2_d24d_8ec3);
    let first = before ^ (before >> 27u64) ^ (before >> 54u64);
    let mixed = first.wrapping_mul(0x96de_1b17_3f11_9089);
    let counter = mixed ^ (mixed >> 30u64) ^ (mixed >> 60u64);
    counter.wrapping_sub(0x9e37_79b9_7f4a_7c15)
}

/// What splitmix64 does to a counter can be undone, so that no two counters come
/// out alike.
pub proof fn law_scrambling_can_be_undone(counter: u64)
    ensures
        unscrambled(scrambled(counter)) == counter,
{
    let modulus: int = 0x1_0000_0000_0000_0000;
    let stepped = counter.wrapping_add(STEP);
    let folded = stepped ^ (stepped >> 30u64);
    let first = folded.wrapping_mul(0xbf58_476d_1ce4_e5b9);
    let again = first ^ (first >> 27u64);
    let second = again.wrapping_mul(0x94d0_49bb_1331_11eb);
    let value = second ^ (second >> 31u64);
    lemma_inverse_undoes(
        folded as int,
        0xbf58_476d_1ce4_e5b9,
        0x96de_1b17_3f11_9089,
        0x70c3_bca7_8f27_f46c,
        modulus,
    );
    lemma_inverse_undoes(
        again as int,
        0x94d0_49bb_1331_11eb,
        0x3196_42b2_d24d_8ec3,
        0x1cd3_36ed_a85f_1453,
        modulus,
    );
    assert(value ^ (value >> 31u64) ^ (value >> 62u64) == second) by (bit_vector)
        requires
            value == second ^ (second >> 31u64),
    ;
    assert(again ^ (again >> 27u64) ^ (again >> 54u64) == first) by (bit_vector)
        requires
            again == first ^ (first >> 27u64),
    ;
    assert(folded ^ (folded >> 30u64) ^ (folded >> 60u64) == stepped) by (bit_vector)
        requires
            folded == stepped ^ (stepped >> 30u64),
    ;
}

/// The counter that a spread number was made of.
pub open spec fn gathered_up(value: u32) -> u32 {
    let second = value ^ (value >> 16u32);
    let before = second.wrapping_mul(0x4302_1123);
    let first = before ^ (before >> 15u32) ^ (before >> 30u32);
    let spread = first.wrapping_mul(0x1d69_e2a5);
    (spread ^ (spread >> 16u32)).wrapping_sub(0x9e37_79b9)
}

/// Spreading a counter out can be undone.
pub proof fn law_spreading_can_be_undone(counter: u32)
    ensures
        gathered_up(spread_out(counter)) == counter,
{
    let modulus: int = 0x1_0000_0000;
    let stepped = counter.wrapping_add(HALF_STEP);
    let folded = stepped ^ (stepped >> 16u32);
    let first = folded.wrapping_mul(0x7feb_352d);
    let again = first ^ (first >> 15u32);
    let second = again.wrapping_mul(0x846c_a68b);
    let value = second ^ (second >> 16u32);
    lemma_inverse_undoes(folded as int, 0x7feb_352d, 0x1d69_e2a5, 246_582_719, modulus);
    lemma_inverse_undoes(again as int, 0x846c_a68b, 0x4302_1123, 581_534_029, modulus);
    assert(value ^ (value >> 16u32) == second && again ^ (again >> 15u32) ^ (again >> 30u32)
        == first && folded ^ (folded >> 16u32) == stepped) by (bit_vector)
        requires
            value == second ^ (second >> 16u32),
            again == first ^ (first >> 15u32),
            folded == stepped ^ (stepped >> 16u32),
    ;
}

} // verus!
