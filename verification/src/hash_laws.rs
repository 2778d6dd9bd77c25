//! What the hash of bloom filters is: every step of it can be undone, and
//! undoing all of them leads back to the seed. Together with the numbers that
//! the undoing uses, this fixes the hash of every input, and it keeps short
//! inputs of one length apart.

use vstd::arithmetic::div_mod::{lemma_mod_multiples_vanish, lemma_mul_mod_noop_left};
use vstd::arithmetic::power2::{lemma2_to64, lemma2_to64_rest};
use vstd::prelude::*;

use crate::bits::{field, lemma_field_bound, lemma_field_byte, lemma_field_extract};
use crate::bloom::{
    avalanche, folded, merged, mix_byte, mix_half, mix_word, rotated, round_of, striped, tail,
    tail_bytes, word64, xxh64, Lanes, P1, P2, P3, P4, P5,
};
use crate::index::builder::i64_hash;
use crate::index::query::key_hash;
use crate::index::types::Key;
use crate::packing_laws::{law_plain_i32_reads_back, law_plain_i64_reads_back};
use crate::plain::{plain_bytes_i32, plain_bytes_i64};

verus! {

/// The five primes of the hash.
pub const PRIME_ONE: u64 = 11400714785074694791;

pub const PRIME_TWO: u64 = 14029467366897019727;

pub const PRIME_THREE: u64 = 1609587929392839161;

pub const PRIME_FOUR: u64 = 9650029242287828579;

pub const PRIME_FIVE: u64 = 2870177450012600261;

/// What undoes a product with the first, the second and the third prime.
pub const UNDO_ONE: u64 = 0x0887_4934_32ba_db37;

pub const UNDO_TWO: u64 = 0x0ba7_9078_168d_4baf;

pub const UNDO_THREE: u64 = 0xe9e9_f4c4_1d6d_f849;

/// `x` turned right by `r` bits.
pub open spec fn turned_back(x: u64, r: u64) -> u64 {
    (x >> r) | (x << ((64 - r) as u64))
}

/// What a 64-bit word brings into an accumulator.
pub open spec fn spread(w: u64) -> u64 {
    turned_back(w.wrapping_mul(PRIME_TWO), 33).wrapping_mul(PRIME_ONE)
}

/// The accumulator before a byte was mixed in.
pub open spec fn before_byte(acc: u64, b: u8) -> u64 {
    turned_back(acc.wrapping_mul(UNDO_ONE), 11) ^ (b as u64).wrapping_mul(PRIME_FIVE)
}

/// The accumulator before four bytes were mixed in.
pub open spec fn before_half(acc: u64, w: u64) -> u64 {
    turned_back(acc.wrapping_sub(PRIME_THREE).wrapping_mul(UNDO_TWO), 23) ^ w.wrapping_mul(
        PRIME_ONE,
    )
}

/// The accumulator before eight bytes were mixed in.
pub open spec fn before_word(acc: u64, w: u64) -> u64 {
    turned_back(acc.wrapping_sub(PRIME_FOUR).wrapping_mul(UNDO_ONE), 27) ^ spread(w)
}

/// The accumulator before the last mixing.
pub open spec fn before_avalanche(h: u64) -> u64 {
    let b = (h ^ (h >> 32)).wrapping_mul(UNDO_THREE);
    let a = (b ^ (b >> 29) ^ (b >> 58)).wrapping_mul(UNDO_TWO);
    a ^ (a >> 33)
}

/// The lane before a word was taken into it.
pub open spec fn before_round(lane: u64, w: u64) -> u64 {
    turned_back(lane.wrapping_mul(UNDO_ONE), 31).wrapping_sub(w.wrapping_mul(PRIME_TWO))
}

/// The accumulator before a lane was merged into it.
pub open spec fn before_merge(acc: u64, lane: u64) -> u64 {
    acc.wrapping_sub(PRIME_FOUR).wrapping_mul(UNDO_ONE) ^ spread(lane)
}

proof fn lemma_undo_product(x: u64, p: u64, q: u64, k: int)
    requires
        p * q == 1 + k * 0x1_0000_0000_0000_0000,
    ensures
        x.wrapping_mul(p).wrapping_mul(q) == x,
{
    let m: int = 0x1_0000_0000_0000_0000;
    let xi = x as int;
    let pi = p as int;
    let qi = q as int;
    lemma_mul_mod_noop_left(xi * pi, qi, m);
    assert(xi * pi * qi == m * (k * xi) + xi) by (nonlinear_arith)
        requires
            pi * qi == 1 + k * m,
    ;
    lemma_mod_multiples_vanish(k * xi, xi, m);
    assert(xi * pi >= 0) by (nonlinear_arith)
        requires
            xi >= 0,
            pi >= 0,
    ;
}

proof fn lemma_undo_one(x: u64)
    ensures
        x.wrapping_mul(PRIME_ONE).wrapping_mul(UNDO_ONE) == x,
{
    assert(PRIME_ONE * UNDO_ONE == 1 + 379806830464837242 * 0x1_0000_0000_0000_0000)
        by (nonlinear_arith);
    lemma_undo_product(x, PRIME_ONE, UNDO_ONE, 379806830464837242);
}

proof fn lemma_undo_two(x: u64)
    ensures
        x.wrapping_mul(PRIME_TWO).wrapping_mul(UNDO_TWO) == x,
{
    assert(PRIME_TWO * UNDO_TWO == 1 + 638699622168397319 * 0x1_0000_0000_0000_0000)
        by (nonlinear_arith);
    lemma_undo_product(x, PRIME_TWO, UNDO_TWO, 638699622168397319);
}

proof fn lemma_undo_three(x: u64)
    ensures
        x.wrapping_mul(PRIME_THREE).wrapping_mul(UNDO_THREE) == x,
{
    assert(PRIME_THREE * UNDO_THREE == 1 + 1470722560960728959 * 0x1_0000_0000_0000_0000)
        by (nonlinear_arith);
    lemma_undo_product(x, PRIME_THREE, UNDO_THREE, 1470722560960728959);
}

proof fn lemma_undo_sum(x: u64, y: u64)
    ensures
        x.wrapping_add(y).wrapping_sub(y) == x,
{
}

/// That a turn is one of those that the hash makes.
spec fn is_turn(r: u64) -> bool {
    r == 1 || r == 7 || r == 11 || r == 12 || r == 18 || r == 23 || r == 27 || r == 31 || r == 33
}

proof fn lemma_turn(x: u64, r: u64)
    requires
        is_turn(r),
    ensures
        turned_back(rotated(x, r), r) == x,
        rotated(x, r) == turned_back(x, (64 - r) as u64),
        rotated(turned_back(x, r), r) == x,
{
    reveal(rotated);
    let s: u64 = (64 - r) as u64;
    assert((64 - s) as u64 == r);
    assert((x << r) | (x >> s) == (x >> s) | (x << r)) by (bit_vector);
    if r == 1 {
        assert((((x << 1) | (x >> 63)) >> 1) | (((x << 1) | (x >> 63)) << 63) == x) by (bit_vector);
        assert((((x >> 1) | (x << 63)) << 1) | (((x >> 1) | (x << 63)) >> 63) == x) by (bit_vector);
    } else if r == 7 {
        assert((((x << 7) | (x >> 57)) >> 7) | (((x << 7) | (x >> 57)) << 57) == x) by (bit_vector);
        assert((((x >> 7) | (x << 57)) << 7) | (((x >> 7) | (x << 57)) >> 57) == x) by (bit_vector);
    } else if r == 11 {
        assert((((x << 11) | (x >> 53)) >> 11) | (((x << 11) | (x >> 53)) << 53) == x) by (bit_vector);
        assert((((x >> 11) | (x << 53)) << 11) | (((x >> 11) | (x << 53)) >> 53) == x) by (bit_vector);
    } else if r == 12 {
        assert((((x << 12) | (x >> 52)) >> 12) | (((x << 12) | (x >> 52)) << 52) == x) by (bit_vector);
        assert((((x >> 12) | (x << 52)) << 12) | (((x >> 12) | (x << 52)) >> 52) == x) by (bit_vector);
    } else if r == 18 {
        assert((((x << 18) | (x >> 46)) >> 18) | (((x << 18) | (x >> 46)) << 46) == x) by (bit_vector);
        assert((((x >> 18) | (x << 46)) << 18) | (((x >> 18) | (x << 46)) >> 46) == x) by (bit_vector);
    } else if r == 23 {
        assert((((x << 23) | (x >> 41)) >> 23) | (((x << 23) | (x >> 41)) << 41) == x) by (bit_vector);
        assert((((x >> 23) | (x << 41)) << 23) | (((x >> 23) | (x << 41)) >> 41) == x) by (bit_vector);
    } else if r == 27 {
        assert((((x << 27) | (x >> 37)) >> 27) | (((x << 27) | (x >> 37)) << 37) == x) by (bit_vector);
        assert((((x >> 27) | (x << 37)) << 27) | (((x >> 27) | (x << 37)) >> 37) == x) by (bit_vector);
    } else if r == 31 {
        assert((((x << 31) | (x >> 33)) >> 31) | (((x << 31) | (x >> 33)) << 33) == x) by (bit_vector);
        assert((((x >> 31) | (x << 33)) << 31) | (((x >> 31) | (x << 33)) >> 33) == x) by (bit_vector);
    } else if r == 33 {
        assert((((x << 33) | (x >> 31)) >> 33) | (((x << 33) | (x >> 31)) << 31) == x) by (bit_vector);
        assert((((x >> 33) | (x << 31)) << 33) | (((x >> 33) | (x << 31)) >> 31) == x) by (bit_vector);
    }
}

proof fn lemma_undo_xor(x: u64, y: u64)
    ensures
        (x ^ y) ^ y == x,
{
    assert((x ^ y) ^ y == x) by (bit_vector);
}

proof fn lemma_spread(w: u64)
    ensures
        round_of(0, w) == spread(w),
{
    reveal(round_of);
    let x = w.wrapping_mul(P2);
    assert(0u64.wrapping_add(x) == x);
    lemma_turn(x, 31);
}

proof fn lemma_before_byte(acc: u64, b: u8)
    ensures
        before_byte(mix_byte(acc, b), b) == acc,
{
    reveal(mix_byte);
    let k = (b as u64).wrapping_mul(P5);
    lemma_undo_one(rotated(acc ^ k, 11));
    lemma_turn(acc ^ k, 11);
    lemma_undo_xor(acc, k);
}

proof fn lemma_before_half(acc: u64, w: u64)
    ensures
        before_half(mix_half(acc, w), w) == acc,
{
    reveal(mix_half);
    let k = w.wrapping_mul(P1);
    let x = rotated(acc ^ k, 23);
    lemma_undo_sum(x.wrapping_mul(P2), P3);
    lemma_undo_two(x);
    lemma_turn(acc ^ k, 23);
    lemma_undo_xor(acc, k);
}

proof fn lemma_before_word(acc: u64, w: u64)
    ensures
        before_word(mix_word(acc, w), w) == acc,
{
    reveal(mix_word);
    lemma_spread(w);
    let k = spread(w);
    let x = rotated(acc ^ k, 27);
    lemma_undo_sum(x.wrapping_mul(P1), P4);
    lemma_undo_one(x);
    lemma_turn(acc ^ k, 27);
    lemma_undo_xor(acc, k);
}

proof fn lemma_before_avalanche(acc: u64)
    ensures
        before_avalanche(avalanche(acc)) == acc,
{
    reveal(avalanche);
    let x = acc ^ (acc >> 33);
    let a = x.wrapping_mul(P2);
    let y = a ^ (a >> 29);
    let b = y.wrapping_mul(P3);
    let h = b ^ (b >> 32);
    assert(h ^ (h >> 32) == b) by (bit_vector)
        requires
            h == b ^ (b >> 32),
    ;
    lemma_undo_three(y);
    assert(y ^ (y >> 29) ^ (y >> 58) == a) by (bit_vector)
        requires
            y == a ^ (a >> 29),
    ;
    lemma_undo_two(x);
    assert(x ^ (x >> 33) == acc) by (bit_vector)
        requires
            x == acc ^ (acc >> 33),
    ;
}

proof fn lemma_before_round(lane: u64, w: u64)
    ensures
        before_round(round_of(lane, w), w) == lane,
{
    reveal(round_of);
    let k = w.wrapping_mul(P2);
    let x = lane.wrapping_add(k);
    lemma_undo_one(rotated(x, 31));
    lemma_turn(x, 31);
    lemma_undo_sum(lane, k);
}

proof fn lemma_before_merge(acc: u64, lane: u64)
    ensures
        before_merge(merged(acc, lane), lane) == acc,
{
    reveal(merged);
    lemma_spread(lane);
    let x = acc ^ spread(lane);
    lemma_undo_sum(x.wrapping_mul(P1), P4);
    lemma_undo_one(x);
    lemma_undo_xor(acc, spread(lane));
}

// ---- The steps of an input, undone from the last to the first ----

/// The accumulator before the single bytes from `from` to `to`.
pub open spec fn before_bytes(acc: u64, input: Seq<u8>, from: nat, to: nat) -> u64
    decreases to - from,
{
    if to <= from {
        acc
    } else {
        before_bytes(before_byte(acc, input[to - 1]), input, from, (to - 1) as nat)
    }
}

/// The accumulator before the first `count` words of eight bytes from `from`
/// on.
pub open spec fn before_words(acc: u64, input: Seq<u8>, from: nat, count: nat) -> u64
    decreases count,
{
    if count == 0 {
        acc
    } else {
        let last = (count - 1) as nat;
        before_words(
            before_word(acc, field(input, 8 * (from + 8 * last), 64) as u64),
            input,
            from,
            last,
        )
    }
}

/// The accumulator before everything from `from` on: words of eight bytes,
/// then four bytes if there are as many, then single ones.
pub open spec fn before_tail(acc: u64, input: Seq<u8>, from: nat) -> u64 {
    let left = (input.len() - from) as nat;
    let words = left / 8;
    let at = from + 8 * words;
    if left % 8 >= 4 {
        before_words(
            before_half(
                before_bytes(acc, input, at + 4, input.len()),
                field(input, 8 * at, 32) as u64,
            ),
            input,
            from,
            words,
        )
    } else {
        before_words(before_bytes(acc, input, at, input.len()), input, from, words)
    }
}

/// The lane before the words that it took, one of eight bytes out of every 32
/// from byte `at` on, `count` of them.
pub open spec fn before_rounds(lane: u64, input: Seq<u8>, at: nat, count: nat) -> u64
    decreases count,
{
    if count == 0 {
        lane
    } else {
        let last = (count - 1) as nat;
        before_rounds(
            before_round(lane, field(input, 8 * (at + 32 * last), 64) as u64),
            input,
            at,
            last,
        )
    }
}

/// Mixing in a byte more, undone.
proof fn lemma_before_bytes(acc: u64, input: Seq<u8>, i: nat)
    requires
        i <= input.len(),
    ensures
        before_bytes(tail_bytes(acc, input, i), input, i, input.len()) == acc,
    decreases input.len() - i,
{
    if i < input.len() {
        let next = mix_byte(acc, input[i as int]);
        lemma_before_bytes(next, input, i + 1);
        lemma_before_byte(acc, input[i as int]);
        lemma_before_bytes_first(tail_bytes(acc, input, i), input, i, input.len());
    }
}

proof fn lemma_before_bytes_first(acc: u64, input: Seq<u8>, from: nat, to: nat)
    requires
        from < to <= input.len(),
    ensures
        before_bytes(acc, input, from, to) == before_byte(
            before_bytes(acc, input, from + 1, to),
            input[from as int],
        ),
    decreases to - from,
{
    let last = (to - 1) as nat;
    let inner = before_byte(acc, input[to - 1]);
    if from < last {
        lemma_before_bytes_first(inner, input, from, last);
    } else {
        assert(before_bytes(acc, input, from + 1, to) == acc);
        assert(before_bytes(inner, input, from, last) == inner);
    }
}

proof fn lemma_before_words_first(acc: u64, input: Seq<u8>, from: nat, count: nat)
    requires
        count > 0,
    ensures
        before_words(acc, input, from, count) == before_word(
            before_words(acc, input, from + 8, (count - 1) as nat),
            word64(input, from),
        ),
    decreases count,
{
    let last = (count - 1) as nat;
    let inner = before_word(acc, field(input, 8 * (from + 8 * last), 64) as u64);
    if last > 0 {
        lemma_before_words_first(inner, input, from, last);
        assert(from + 8 + 8 * (last - 1) as nat == from + 8 * last);
    } else {
        assert(before_words(acc, input, from + 8, 0) == acc);
        assert(before_words(inner, input, from, 0) == inner);
    }
}

proof fn lemma_before_tail(acc: u64, input: Seq<u8>, i: nat)
    requires
        i <= input.len(),
    ensures
        before_tail(tail(acc, input, i), input, i) == acc,
    decreases input.len() - i,
{
    let left = (input.len() - i) as nat;
    if left >= 8 {
        let next = mix_word(acc, word64(input, i));
        let end = tail(acc, input, i);
        let words = left / 8;
        lemma_before_tail(next, input, i + 8);
        lemma_before_word(acc, word64(input, i));
        assert((left - 8) as nat / 8 == words - 1);
        assert((left - 8) as nat % 8 == left % 8);
        assert(i + 8 + 8 * (words - 1) as nat == i + 8 * words);
        let at = i + 8 * words;
        let inner = if left % 8 >= 4 {
            before_half(
                before_bytes(end, input, at + 4, input.len()),
                field(input, 8 * at, 32) as u64,
            )
        } else {
            before_bytes(end, input, at, input.len())
        };
        lemma_before_words_first(inner, input, i, words);
    } else if left >= 4 {
        let w = field(input, 8 * i, 32) as u64;
        lemma_before_bytes(mix_half(acc, w), input, i + 4);
        lemma_before_half(acc, w);
        assert(left / 8 == 0 && left % 8 == left);
    } else {
        lemma_before_bytes(acc, input, i);
        assert(left / 8 == 0 && left % 8 == left);
    }
}

proof fn lemma_before_rounds_first(lane: u64, input: Seq<u8>, at: nat, count: nat)
    requires
        count > 0,
    ensures
        before_rounds(lane, input, at, count) == before_round(
            before_rounds(lane, input, at + 32, (count - 1) as nat),
            word64(input, at),
        ),
    decreases count,
{
    let last = (count - 1) as nat;
    let inner = before_round(lane, field(input, 8 * (at + 32 * last), 64) as u64);
    if last > 0 {
        lemma_before_rounds_first(inner, input, at, last);
        assert(at + 32 + 32 * (last - 1) as nat == at + 32 * last);
    } else {
        assert(before_rounds(lane, input, at + 32, 0) == lane);
        assert(before_rounds(inner, input, at, 0) == inner);
    }
}

proof fn lemma_before_stripes(lanes: Lanes, input: Seq<u8>, i: nat)
    requires
        i <= input.len(),
    ensures
        ({
            let l = striped(lanes, input, i);
            let count = (input.len() - i) as nat / 32;
            &&& before_rounds(l.v1, input, i, count) == lanes.v1
            &&& before_rounds(l.v2, input, i + 8, count) == lanes.v2
            &&& before_rounds(l.v3, input, i + 16, count) == lanes.v3
            &&& before_rounds(l.v4, input, i + 24, count) == lanes.v4
        }),
    decreases input.len() - i,
{
    let left = (input.len() - i) as nat;
    if left >= 32 {
        let count = left / 32;
        let next = Lanes {
            v1: round_of(lanes.v1, word64(input, i)),
            v2: round_of(lanes.v2, word64(input, i + 8)),
            v3: round_of(lanes.v3, word64(input, i + 16)),
            v4: round_of(lanes.v4, word64(input, i + 24)),
        };
        let l = striped(lanes, input, i);
        lemma_before_stripes(next, input, i + 32);
        assert((left - 32) as nat / 32 == count - 1);
        lemma_before_rounds_first(l.v1, input, i, count);
        lemma_before_rounds_first(l.v2, input, i + 8, count);
        lemma_before_rounds_first(l.v3, input, i + 16, count);
        lemma_before_rounds_first(l.v4, input, i + 24, count);
        lemma_before_round(lanes.v1, word64(input, i));
        lemma_before_round(lanes.v2, word64(input, i + 8));
        lemma_before_round(lanes.v3, word64(input, i + 16));
        lemma_before_round(lanes.v4, word64(input, i + 24));
    } else {
        assert(left / 32 == 0);
    }
}

/// The accumulator of four lanes before they were merged into it: their sum,
/// each turned by a number of its own.
pub open spec fn before_merges(acc: u64, l: Lanes) -> u64 {
    before_merge(before_merge(before_merge(before_merge(acc, l.v4), l.v3), l.v2), l.v1)
}

proof fn lemma_before_merges(l: Lanes)
    ensures
        before_merges(folded(l), l) == turned_back(l.v1, 63).wrapping_add(
            turned_back(l.v2, 57),
        ).wrapping_add(turned_back(l.v3, 52)).wrapping_add(turned_back(l.v4, 46)),
{
    reveal(folded);
    lemma_turn(l.v1, 1);
    lemma_turn(l.v2, 7);
    lemma_turn(l.v3, 12);
    lemma_turn(l.v4, 18);
    let sum = rotated(l.v1, 1).wrapping_add(rotated(l.v2, 7)).wrapping_add(
        rotated(l.v3, 12),
    ).wrapping_add(rotated(l.v4, 18));
    let m1 = merged(sum, l.v1);
    let m2 = merged(m1, l.v2);
    let m3 = merged(m2, l.v3);
    lemma_before_merge(sum, l.v1);
    lemma_before_merge(m1, l.v2);
    lemma_before_merge(m2, l.v3);
    lemma_before_merge(m3, l.v4);
    assert(before_merges(folded(l), l) == sum);
}

/// That lanes make an accumulator, and that each of them, with its own words
/// undone, is the seed and its own constant.
pub open spec fn lead_to_seed(l: Lanes, acc: u64, input: Seq<u8>, seed: u64) -> bool {
    let stripes = input.len() / 32;
    &&& before_merges(acc, l) == turned_back(l.v1, 63).wrapping_add(
        turned_back(l.v2, 57),
    ).wrapping_add(turned_back(l.v3, 52)).wrapping_add(turned_back(l.v4, 46))
    &&& before_rounds(l.v1, input, 0, stripes) == seed.wrapping_add(PRIME_ONE).wrapping_add(
        PRIME_TWO,
    )
    &&& before_rounds(l.v2, input, 8, stripes) == seed.wrapping_add(PRIME_TWO)
    &&& before_rounds(l.v3, input, 16, stripes) == seed
    &&& before_rounds(l.v4, input, 24, stripes) == seed.wrapping_sub(PRIME_ONE)
}

/// The hash of fewer than 32 bytes leads back to the seed: undo the last
/// mixing, the input from its end to its start, the length, the fifth prime.
/// As every step of the undoing is one to one, no other number does.
#[verifier::rlimit(100)]
#[verifier::spinoff_prover]
pub proof fn law_short_hash_leads_to_its_seed(input: Seq<u8>, seed: u64)
    requires
        input.len() < 32,
    ensures
        before_tail(before_avalanche(xxh64(input, seed)), input, 0).wrapping_sub(
            input.len() as u64,
        ).wrapping_sub(PRIME_FIVE) == seed,
{
    let start = seed.wrapping_add(P5).wrapping_add(input.len() as u64);
    assert(input.len() / 32 == 0);
    lemma_before_avalanche(tail(start, input, 0));
    lemma_before_tail(start, input, 0);
    lemma_undo_sum(seed.wrapping_add(P5), input.len() as u64);
    lemma_undo_sum(seed, P5);
}

/// The hash of 32 bytes or more leads back to the seed by way of four lanes:
/// with what follows the last whole 32 bytes undone, it is the merger of the
/// lanes, and each lane leads back to the seed.
#[verifier::rlimit(100)]
#[verifier::spinoff_prover]
pub proof fn law_long_hash_leads_to_its_seed(input: Seq<u8>, seed: u64)
    requires
        input.len() >= 32,
    ensures
        exists|l: Lanes| #[trigger]
            lead_to_seed(
                l,
                before_tail(
                    before_avalanche(xxh64(input, seed)),
                    input,
                    32 * (input.len() / 32),
                ).wrapping_sub(input.len() as u64),
                input,
                seed,
            ),
{
    let l = striped(seeded(seed), input, 0);
    lemma_long_hash_is_folded(input, seed);
    lemma_lanes_lead_to_seed(l, input, seed);
}

/// The lanes before any word.
spec fn seeded(seed: u64) -> Lanes {
    Lanes {
        v1: seed.wrapping_add(P1).wrapping_add(P2),
        v2: seed.wrapping_add(P2),
        v3: seed,
        v4: seed.wrapping_sub(P1),
    }
}

#[verifier::rlimit(100)]
#[verifier::spinoff_prover]
proof fn lemma_long_hash_is_folded(input: Seq<u8>, seed: u64)
    requires
        input.len() >= 32,
    ensures
        before_tail(
            before_avalanche(xxh64(input, seed)),
            input,
            32 * (input.len() / 32),
        ).wrapping_sub(input.len() as u64) == folded(striped(seeded(seed), input, 0)),
{
    let whole = folded(striped(seeded(seed), input, 0));
    let at: nat = 32 * (input.len() / 32);
    let start = whole.wrapping_add(input.len() as u64);
    assert((input.len() / 32) * 32 == at);
    assert(xxh64(input, seed) == avalanche(tail(start, input, at)));
    lemma_before_avalanche(tail(start, input, at));
    lemma_before_tail(start, input, at);
    lemma_undo_sum(whole, input.len() as u64);
}

proof fn lemma_lanes_lead_to_seed(l: Lanes, input: Seq<u8>, seed: u64)
    requires
        l == striped(seeded(seed), input, 0),
    ensures
        lead_to_seed(l, folded(l), input, seed),
{
    lemma_before_stripes(seeded(seed), input, 0);
    lemma_before_merges(l);
}

// ---- Inputs of one length are kept apart ----

proof fn lemma_product_apart(a: u64, b: u64)
    ensures
        a.wrapping_mul(PRIME_ONE) == b.wrapping_mul(PRIME_ONE) ==> a == b,
        a.wrapping_mul(PRIME_TWO) == b.wrapping_mul(PRIME_TWO) ==> a == b,
{
    lemma_undo_one(a);
    lemma_undo_one(b);
    lemma_undo_two(a);
    lemma_undo_two(b);
}

proof fn lemma_xor_apart(x: u64, a: u64, b: u64)
    requires
        x ^ a == x ^ b,
    ensures
        a == b,
{
    assert(a == b) by (bit_vector)
        requires
            x ^ a == x ^ b,
    ;
}

/// Bytes that make one number of 4 or 8 bytes are the same.
proof fn lemma_number_apart(a: Seq<u8>, b: Seq<u8>)
    requires
        a.len() == b.len(),
        field(a, 0, 8 * a.len()) == field(b, 0, 8 * a.len()),
    ensures
        a == b,
{
    assert forall|i: int| 0 <= i < a.len() implies a[i] == b[i] by {
        lemma_field_extract(a, 0, 8 * a.len(), (8 * i) as nat, 8);
        lemma_field_extract(b, 0, 8 * a.len(), (8 * i) as nat, 8);
        lemma_field_byte(a, i as nat);
        lemma_field_byte(b, i as nat);
    }
    assert(a =~= b);
}

/// Different inputs of four bytes have different hashes.
#[verifier::rlimit(100)]
#[verifier::spinoff_prover]
pub proof fn law_four_bytes_are_told_apart(a: Seq<u8>, b: Seq<u8>, seed: u64)
    requires
        a.len() == 4,
        b.len() == 4,
        xxh64(a, seed) == xxh64(b, seed),
    ensures
        a == b,
{
    lemma2_to64();
    law_short_hash_leads_to_its_seed(a, seed);
    law_short_hash_leads_to_its_seed(b, seed);
    let acc = before_avalanche(xxh64(a, seed));
    let (wa, wb) = (field(a, 0, 32), field(b, 0, 32));
    lemma_field_bound(a, 0, 32);
    lemma_field_bound(b, 0, 32);
    assert(before_bytes(acc, a, 4, 4) == acc && before_bytes(acc, b, 4, 4) == acc);
    let x = turned_back(acc.wrapping_sub(PRIME_THREE).wrapping_mul(UNDO_TWO), 23);
    let (ka, kb) = (
        (wa as u64).wrapping_mul(PRIME_ONE),
        (wb as u64).wrapping_mul(PRIME_ONE),
    );
    assert(before_tail(acc, a, 0) == x ^ ka);
    assert(before_tail(acc, b, 0) == x ^ kb);
    assert(x ^ ka == x ^ kb);
    lemma_xor_apart(x, ka, kb);
    lemma_product_apart(wa as u64, wb as u64);
    lemma_number_apart(a, b);
}

/// Different inputs of eight bytes have different hashes.
#[verifier::rlimit(100)]
#[verifier::spinoff_prover]
pub proof fn law_eight_bytes_are_told_apart(a: Seq<u8>, b: Seq<u8>, seed: u64)
    requires
        a.len() == 8,
        b.len() == 8,
        xxh64(a, seed) == xxh64(b, seed),
    ensures
        a == b,
{
    lemma2_to64();
    lemma2_to64_rest();
    law_short_hash_leads_to_its_seed(a, seed);
    law_short_hash_leads_to_its_seed(b, seed);
    let acc = before_avalanche(xxh64(a, seed));
    let (wa, wb) = (field(a, 0, 64), field(b, 0, 64));
    lemma_field_bound(a, 0, 64);
    lemma_field_bound(b, 0, 64);
    assert(before_bytes(acc, a, 8, 8) == acc && before_bytes(acc, b, 8, 8) == acc);
    let x = turned_back(acc.wrapping_sub(PRIME_FOUR).wrapping_mul(UNDO_ONE), 27);
    let (ka, kb) = (spread(wa as u64), spread(wb as u64));
    lemma_before_words_first(acc, a, 0, 1);
    lemma_before_words_first(acc, b, 0, 1);
    assert(before_words(acc, a, 8, 0) == acc && before_words(acc, b, 8, 0) == acc);
    assert(before_tail(acc, a, 0) == x ^ ka);
    assert(before_tail(acc, b, 0) == x ^ kb);
    assert(x ^ ka == x ^ kb);
    lemma_xor_apart(x, ka, kb);
    let (pa, pb) = (
        (wa as u64).wrapping_mul(PRIME_TWO),
        (wb as u64).wrapping_mul(PRIME_TWO),
    );
    lemma_product_apart(turned_back(pa, 33), turned_back(pb, 33));
    lemma_turn(pa, 33);
    lemma_turn(pb, 33);
    lemma_product_apart(wa as u64, wb as u64);
    lemma_number_apart(a, b);
}

/// A filter hashes a key by its plain bytes, and keys of one type are told
/// apart by their hashes.
#[verifier::rlimit(100)]
#[verifier::spinoff_prover]
pub proof fn law_keys_are_told_apart(a: i64, b: i64, c: i32, d: i32)
    ensures
        i64_hash(a) == xxh64(plain_bytes_i64(a), 0),
        key_hash(Key::I64(a)) == i64_hash(a),
        key_hash(Key::I32(c)) == xxh64(plain_bytes_i32(c), 0),
        i64_hash(a) == i64_hash(b) ==> a == b,
        key_hash(Key::I32(c)) == key_hash(Key::I32(d)) ==> c == d,
{
    let none = Seq::<u8>::empty();
    law_plain_i64_reads_back(a, none);
    law_plain_i64_reads_back(b, none);
    law_plain_i32_reads_back(c, none);
    law_plain_i32_reads_back(d, none);
    if i64_hash(a) == i64_hash(b) {
        law_eight_bytes_are_told_apart(plain_bytes_i64(a), plain_bytes_i64(b), 0);
    }
    if key_hash(Key::I32(c)) == key_hash(Key::I32(d)) {
        law_four_bytes_are_told_apart(plain_bytes_i32(c), plain_bytes_i32(d), 0);
    }
}

} // verus!
