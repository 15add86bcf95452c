//! Bit-level building blocks of the packed record codec: single-bit tests,
//! population count, the packed 4-bit piece-code array ("nibble array"), and
//! the decode sequence that pairs each occupied square with its piece code.

use vstd::prelude::*;
use vstd::std_specs::bits::u64_trailing_zeros;

verus! {

/// Bit `i` of `x` (bit 0 is the least significant).
pub open spec fn nth_bit(x: u64, i: int) -> bool {
    (x >> (i as u64)) & 1u64 == 1u64
}

/// Number of set bits of `x` below position `n`.
pub open spec fn popcnt_upto(x: u64, n: int) -> nat
    decreases n,
{
    if n <= 0 {
        0
    } else {
        popcnt_upto(x, n - 1) + (if nth_bit(x, n - 1) {
            1nat
        } else {
            0nat
        })
    }
}

/// Population count of a 64-bit mask.
pub open spec fn popcnt64(x: u64) -> nat {
    popcnt_upto(x, 64)
}

/// The 4-bit piece code at ordinal position `i` of a nibble array
/// (two codes per byte, low nibble first).
pub open spec fn nibble(pcs: Seq<u8>, i: int) -> u8
    recommends
        0 <= i,
        i / 2 < pcs.len(),
{
    if i % 2 == 0 {
        pcs[i / 2] & 0x0f
    } else {
        (pcs[i / 2] >> 4) & 0x0f
    }
}

/// Clearing the lowest set bit of a non-zero mask yields a smaller mask.
pub proof fn lemma_clear_lowest_lt(x: u64)
    requires
        x != 0,
    ensures
        (x & ((x - 1) as u64)) < x,
{
    assert(x != 0 ==> (x & ((x - 1) as u64)) < x) by (bit_vector);
}

/// The lazy decode sequence of a packed record: repeatedly take the lowest
/// set bit of `occ` as the next square and the next code of the nibble
/// array, starting at nibble `idx`.  Squares come out in strictly ascending
/// order.
pub open spec fn decode_feats(occ: u64, pcs: Seq<u8>, idx: int) -> Seq<(u8, u8)>
    decreases occ,
    via decode_feats_decreases
{
    if occ == 0 {
        Seq::empty()
    } else {
        seq![(nibble(pcs, idx), u64_trailing_zeros(occ) as u8)] + decode_feats(
            (occ & ((occ - 1) as u64)),
            pcs,
            idx + 1,
        )
    }
}

#[via_fn]
proof fn decode_feats_decreases(occ: u64, pcs: Seq<u8>, idx: int) {
    if occ != 0 {
        lemma_clear_lowest_lt(occ);
    }
}

/// The squares of the set bits of a mask, in ascending order.
pub open spec fn bit_squares(x: u64) -> Seq<u8>
    decreases x,
    via bit_squares_decreases
{
    if x == 0 {
        Seq::empty()
    } else {
        seq![u64_trailing_zeros(x) as u8] + bit_squares((x & ((x - 1) as u64)))
    }
}

#[via_fn]
proof fn bit_squares_decreases(x: u64) {
    if x != 0 {
        lemma_clear_lowest_lt(x);
    }
}

/// The occupancy mask of a feature list: the OR of `1 << square` over all
/// its `(piece, square)` pairs.
pub open spec fn occ_of(feats: Seq<(u8, u8)>) -> u64
    decreases feats.len(),
{
    if feats.len() == 0 {
        0u64
    } else {
        (1u64 << (feats[0].1 as u64)) | occ_of(feats.drop_first())
    }
}

/// A feature list fit for packing: strictly ascending squares on the board
/// and 4-bit piece codes.
pub open spec fn packable(feats: Seq<(u8, u8)>) -> bool {
    &&& forall|k: int| 0 <= k < feats.len() ==> (#[trigger] feats[k]).1 < 64
    &&& forall|k: int| 0 <= k < feats.len() ==> (#[trigger] feats[k]).0 < 16
    &&& forall|k: int, l: int| 0 <= k < l < feats.len() ==> feats[k].1 < feats[l].1
}

/// Bits `0..=s` of `x` are all clear.
pub open spec fn low_bits_clear(x: u64, s: u64) -> bool
    recommends
        s < 64,
{
    x & ((1u64 << s) | ((1u64 << s) - 1) as u64) == 0
}

/// A mask built from squares strictly above `s` has bits `0..=s` clear.
pub proof fn lemma_occ_of_above(feats: Seq<(u8, u8)>, s: u64)
    requires
        s < 64,
        forall|k: int| 0 <= k < feats.len() ==> (#[trigger] feats[k]).1 < 64,
        forall|k: int| 0 <= k < feats.len() ==> (#[trigger] feats[k]).1 > s,
    ensures
        low_bits_clear(occ_of(feats), s),
    decreases feats.len(),
{
    if feats.len() == 0 {
        assert(0u64 & ((1u64 << s) | ((1u64 << s) - 1) as u64) == 0) by (bit_vector);
    } else {
        let s0 = feats[0].1 as u64;
        let rest = occ_of(feats.drop_first());
        lemma_occ_of_above(feats.drop_first(), s);
        assert(s < s0 < 64 && rest & ((1u64 << s) | ((1u64 << s) - 1) as u64) == 0
            ==> ((1u64 << s0) | rest) & ((1u64 << s) | ((1u64 << s) - 1) as u64) == 0)
            by (bit_vector);
    }
}

/// Joining the bit of square `s` to a mask whose bits `0..=s` are clear:
/// `s` becomes the lowest set bit, and clearing it gives the mask back.
pub proof fn lemma_lowest_bit_join(r: u64, s: u64)
    requires
        s < 64,
        low_bits_clear(r, s),
    ensures
        ((1u64 << s) | r) != 0,
        u64_trailing_zeros((1u64 << s) | r) == s,
        (((1u64 << s) | r) & ((((1u64 << s) | r) - 1) as u64)) == r,
{
    let y = (1u64 << s) | r;
    vstd::std_specs::bits::axiom_u64_trailing_zeros(y);
    assert(s < 64 ==> ((1u64 << s) | r) >> s & 1u64 == 1u64) by (bit_vector);
    assert(((1u64 << s) | r) >> s & 1u64 == 1u64 ==> ((1u64 << s) | r) != 0) by (bit_vector);
    let t = u64_trailing_zeros(y) as u64;
    if t < s {
        assert(r & ((1u64 << s) | ((1u64 << s) - 1) as u64) == 0 && t < s < 64
            ==> ((1u64 << s) | r) >> t & 1u64 == 0u64) by (bit_vector);
    }
    if t > s {
        assert(y >> s & 1u64 == 0u64);
    }
    assert(t == s);
    assert(r & ((1u64 << s) | ((1u64 << s) - 1) as u64) == 0 && s < 64
        ==> (((1u64 << s) | r) & ((((1u64 << s) | r) - 1) as u64)) == r) by (bit_vector);
}

/// Decoding a mask and nibble array packed from a feature list with
/// strictly ascending squares gives that list back.
pub proof fn lemma_decode_of_packed(feats: Seq<(u8, u8)>, pcs: Seq<u8>, idx: int)
    requires
        packable(feats),
        0 <= idx,
        forall|k: int| 0 <= k < feats.len() ==> nibble(pcs, idx + k) == (#[trigger] feats[k]).0,
    ensures
        decode_feats(occ_of(feats), pcs, idx) == feats,
    decreases feats.len(),
{
    if feats.len() == 0 {
        assert(decode_feats(occ_of(feats), pcs, idx) =~= feats);
    } else {
        let s0 = feats[0].1 as u64;
        let rest = feats.drop_first();
        let r = occ_of(rest);
        assert(forall|k: int| 0 <= k < rest.len() ==> (#[trigger] rest[k]).1 > s0);
        lemma_occ_of_above(rest, s0);
        lemma_lowest_bit_join(r, s0);
        let occ = occ_of(feats);
        assert(occ == (1u64 << s0) | r);
        assert(forall|k: int|
            0 <= k < rest.len() ==> nibble(pcs, (idx + 1) + k) == (#[trigger] rest[k]).0);
        lemma_decode_of_packed(rest, pcs, idx + 1);
        assert(decode_feats(occ, pcs, idx) =~= feats);
    }
}

/// Clearing the lowest set bit removes exactly one set bit.
proof fn lemma_popcnt_clear_lowest_upto(x: u64, s: u64, n: int)
    requires
        x != 0,
        s == u64_trailing_zeros(x),
        s < 64,
        0 <= n <= 64,
    ensures
        popcnt_upto((x & ((x - 1) as u64)), n) == popcnt_upto(x, n) - (if s < n {
            1int
        } else {
            0int
        }),
    decreases n,
{
    vstd::std_specs::bits::axiom_u64_trailing_zeros(x);
    if n > 0 {
        lemma_popcnt_clear_lowest_upto(x, s, n - 1);
        let j = (n - 1) as u64;
        assert(j == n - 1);
        if j == s {
            assert(x << ((64 - s) as u64) == 0);
            assert(x != 0 && (x >> s) & 1u64 == 1u64 && x << ((64 - s) as u64) == 0 && s < 64
                ==> ((x & ((x - 1) as u64)) >> s) & 1u64 == 0u64) by (bit_vector);
            assert(nth_bit(x, n - 1));
            assert(!nth_bit((x & ((x - 1) as u64)), n - 1));
        } else {
            assert(x << ((64 - s) as u64) == 0);
            assert(x != 0 && j != s && (x >> s) & 1u64 == 1u64
                && x << ((64 - s) as u64) == 0 && s < 64 && j < 64
                ==> ((x & ((x - 1) as u64)) >> j) & 1u64 == (x >> j) & 1u64) by (bit_vector);
            assert(nth_bit((x & ((x - 1) as u64)), n - 1) == nth_bit(x, n - 1));
        }
    }
}

/// The standard facts about the lowest set bit of a non-zero mask: it
/// exists, it is set, and everything below it is clear.
pub proof fn lemma_tz_facts(x: u64)
    requires
        x != 0,
    ensures
        u64_trailing_zeros(x) < 64,
        (x >> (u64_trailing_zeros(x) as u64)) & 1u64 == 1u64,
        x << ((64 - u64_trailing_zeros(x)) as u64) == 0,
{
    vstd::std_specs::bits::axiom_u64_trailing_zeros(x);
}

/// Clearing the lowest set bit of a non-zero mask drops its population
/// count by exactly one.
pub proof fn lemma_popcnt_clear_lowest(x: u64)
    requires
        x != 0,
    ensures
        popcnt64((x & ((x - 1) as u64))) == popcnt64(x) - 1,
        popcnt64(x) >= 1,
{
    vstd::std_specs::bits::axiom_u64_trailing_zeros(x);
    lemma_popcnt_clear_lowest_upto(x, u64_trailing_zeros(x) as u64, 64);
}

/// The decode sequence pairs one piece code with every occupied square: its
/// length is the population count of the occupancy mask.
pub proof fn lemma_decode_len(occ: u64, pcs: Seq<u8>, idx: int)
    ensures
        decode_feats(occ, pcs, idx).len() == popcnt64(occ),
    decreases occ,
{
    if occ == 0 {
        assert forall|n: int| popcnt_upto(0u64, n) == 0 by {
            lemma_popcnt_zero(n);
        }
    } else {
        let s = u64_trailing_zeros(occ);
        vstd::std_specs::bits::axiom_u64_trailing_zeros(occ);
        lemma_clear_lowest_lt(occ);
        lemma_popcnt_clear_lowest_upto(occ, s as u64, 64);
        lemma_decode_len((occ & ((occ - 1) as u64)), pcs, idx + 1);
    }
}

pub proof fn lemma_popcnt_zero(n: int)
    ensures
        popcnt_upto(0u64, n) == 0,
    decreases n,
{
    if n > 0 {
        lemma_popcnt_zero(n - 1);
        assert(forall|j: u64| (0u64 >> j) & 1u64 == 0u64) by (bit_vector);
        assert(!nth_bit(0u64, n - 1));
    }
}

/// Population count of a mask, by clearing the lowest set bit until the
/// mask is empty.
pub fn count_bits(x: u64) -> (r: u32)
    ensures
        r == popcnt64(x),
{
    let mut y = x;
    let mut c: u32 = 0;
    while y != 0
        invariant
            c <= 64,
            c + popcnt64(y) == popcnt64(x),
        decreases y,
    {
        proof {
            lemma_popcnt_clear_lowest(y);
            lemma_clear_lowest_lt(y);
            lemma_popcnt_le_64(y);
            lemma_popcnt_le_64(x);
        }
        y = y & (y - 1);
        c += 1;
    }
    proof {
        lemma_popcnt_zero(64);
    }
    c
}

/// A 64-bit mask has at most 64 set bits.
pub proof fn lemma_popcnt_le_64(x: u64)
    ensures
        popcnt64(x) <= 64,
{
    lemma_popcnt_upto_le(x, 64);
}

proof fn lemma_popcnt_upto_le(x: u64, n: int)
    ensures
        popcnt_upto(x, n) <= (if n >= 0 {
            n
        } else {
            0
        }),
    decreases n,
{
    if n > 0 {
        lemma_popcnt_upto_le(x, n - 1);
    }
}

/// Each decoded pair takes its piece from the nibble at its own ordinal
/// position.
pub proof fn lemma_decode_index(occ: u64, pcs: Seq<u8>, idx: int, k: int)
    requires
        0 <= k < decode_feats(occ, pcs, idx).len(),
    ensures
        decode_feats(occ, pcs, idx)[k].0 == nibble(pcs, idx + k),
    decreases occ,
{
    if occ != 0 && k > 0 {
        lemma_clear_lowest_lt(occ);
        lemma_decode_index((occ & ((occ - 1) as u64)), pcs, idx + 1, k - 1);
    }
}

/// Two records with the same occupancy, the same decoded pairs and zero
/// unused nibble slots hold identical nibble arrays.
pub proof fn lemma_nibbles_determined(p1: Seq<u8>, p2: Seq<u8>)
    requires
        p1.len() == 16,
        p2.len() == 16,
        forall|k: int| 0 <= k < 32 ==> nibble(p1, k) == nibble(p2, k),
    ensures
        p1 =~= p2,
{
    assert forall|i: int| 0 <= i < 16 implies p1[i] == p2[i] by {
        let a = p1[i];
        let b = p2[i];
        assert(nibble(p1, 2 * i) == (a & 0x0f));
        assert(nibble(p1, 2 * i + 1) == ((a >> 4) & 0x0f));
        assert(nibble(p2, 2 * i) == (b & 0x0f));
        assert(nibble(p2, 2 * i + 1) == ((b >> 4) & 0x0f));
        assert((a & 0x0f) == (b & 0x0f) && ((a >> 4) & 0x0f) == ((b >> 4) & 0x0f) ==> a == b)
            by (bit_vector);
    }
}

/// Appending a square at the end of a feature list ORs its bit into the mask.
pub proof fn lemma_occ_of_push(feats: Seq<(u8, u8)>, f: (u8, u8))
    requires
        f.1 < 64,
    ensures
        occ_of(feats.push(f)) == occ_of(feats) | (1u64 << (f.1 as u64)),
    decreases feats.len(),
{
    reveal_with_fuel(occ_of, 3);
    if feats.len() == 0 {
        assert(feats.push(f).drop_first() =~= Seq::<(u8, u8)>::empty());
        assert(feats.push(f)[0] == f);
        let b = 1u64 << (f.1 as u64);
        assert(b | 0u64 == b && 0u64 | b == b) by (bit_vector);
        assert(occ_of(feats.push(f)) == b | 0u64);
        assert(occ_of(feats) == 0u64);
    } else {
        assert(feats.push(f).drop_first() =~= feats.drop_first().push(f));
        assert(feats.push(f)[0] == feats[0]);
        lemma_occ_of_push(feats.drop_first(), f);
        let b0 = 1u64 << (feats[0].1 as u64);
        let r = occ_of(feats.drop_first());
        let b = 1u64 << (f.1 as u64);
        assert(occ_of(feats.push(f)) == b0 | (r | b));
        assert(b0 | (r | b) == (b0 | r) | b) by (bit_vector);
        assert(occ_of(feats) == b0 | r);
    }
}

/// Packs a feature list with strictly ascending squares into an occupancy
/// mask and a 16-byte nibble array; decoding the pair gives the list back.
pub fn pack_feats(feats: &Vec<(u8, u8)>) -> (r: (u64, [u8; 16]))
    requires
        packable(feats@),
        feats@.len() <= 32,
    ensures
        r.0 == occ_of(feats@),
        decode_feats(r.0, r.1@, 0) == feats@,
        popcnt64(r.0) == feats@.len(),
        forall|k: int| 0 <= k < feats@.len() ==> nibble(r.1@, k) == (#[trigger] feats@[k]).0,
        forall|k: int| feats@.len() <= k < 32 ==> nibble(r.1@, k) == 0,
{
    broadcast use vstd::array::group_array_axioms;

    let mut occ: u64 = 0;
    let mut pcs: [u8; 16] = [0;16];
    assert(forall|k: int| 0 <= k < 32 ==> nibble(pcs@, k) == 0) by {
        assert(forall|b: u8| b == 0 ==> b & 0x0f == 0 && (b >> 4) & 0x0f == 0) by (bit_vector);
    }
    let mut i: usize = 0;
    proof {
        assert(feats@.take(0) =~= Seq::<(u8, u8)>::empty());
    }
    while i < feats.len()
        invariant
            i <= feats@.len() <= 32,
            packable(feats@),
            pcs@.len() == 16,
            occ == occ_of(feats@.take(i as int)),
            forall|k: int| 0 <= k < i ==> nibble(pcs@, k) == (#[trigger] feats@[k]).0,
            forall|k: int| i <= k < 32 ==> nibble(pcs@, k) == 0,
        decreases feats@.len() - i,
    {
        let (pc, sq) = feats[i];
        occ = occ | (1u64 << (sq as u64));
        let byte = pcs[i / 2];
        let ghost pcs0 = pcs@;
        let shifted = if i % 2 == 0 {
            pc
        } else {
            pc << 4u8
        };
        pcs[i / 2] = byte | shifted;
        proof {
            lemma_occ_of_push(feats@.take(i as int), feats@[i as int]);
            assert(feats@.take(i + 1) =~= feats@.take(i as int).push(feats@[i as int]));
            let b = byte;
            let p = pc;
            assert(pcs@ == pcs0.update(i as int / 2, b | shifted));
            assert(forall|k: int|
                0 <= k < 32 && k / 2 != i as int / 2 ==> #[trigger] nibble(pcs@, k) == nibble(
                    pcs0,
                    k,
                ));
            if i % 2 == 0 {
                assert(b & 0x0f == 0 && (b >> 4) & 0x0f == 0 && p < 16 ==> (b | p) & 0x0f == p
                    && ((b | p) >> 4) & 0x0f == 0) by (bit_vector);
                assert(nibble(pcs0, i as int) == b & 0x0f);
                assert(nibble(pcs0, i + 1) == (b >> 4) & 0x0f);
                assert(nibble(pcs@, i as int) == p);
                assert(nibble(pcs@, i + 1) == 0);
            } else {
                assert((b >> 4) & 0x0f == 0 && p < 16 ==> ((b | (p << 4u8)) >> 4) & 0x0f == p
                    && (b | (p << 4u8)) & 0x0f == b & 0x0f) by (bit_vector);
                assert(nibble(pcs0, i as int) == (b >> 4) & 0x0f);
                assert(nibble(pcs@, i as int) == p);
                assert(nibble(pcs@, i - 1) == nibble(pcs0, i - 1));
            }
        }
        i += 1;
    }
    proof {
        assert(feats@.take(feats@.len() as int) =~= feats@);
        lemma_decode_of_packed(feats@, pcs@, 0);
        lemma_decode_len(occ, pcs@, 0);
    }
    (occ, pcs)
}

/// The two's-complement 16-bit pattern of a signed score.
pub open spec fn u16_of_i16(x: i16) -> u16 {
    if x >= 0 {
        x as u16
    } else {
        (x + 0x10000) as u16
    }
}

/// The signed score denoted by a 16-bit pattern.
pub open spec fn i16_of_u16(x: u16) -> i16 {
    if x < 0x8000 {
        x as i16
    } else {
        (x - 0x10000) as i16
    }
}

pub fn i16_to_u16(x: i16) -> (r: u16)
    ensures
        r == u16_of_i16(x),
{
    if x >= 0 {
        x as u16
    } else {
        ((x as i32) + 0x10000) as u16
    }
}

pub fn u16_to_i16(x: u16) -> (r: i16)
    ensures
        r == i16_of_u16(x),
{
    if x < 0x8000 {
        x as i16
    } else {
        ((x as i32) - 0x10000) as i16
    }
}

/// Signed and unsigned 16-bit patterns are in bijection.
pub proof fn lemma_i16_u16_round_trip(x: i16, y: u16)
    ensures
        i16_of_u16(u16_of_i16(x)) == x,
        u16_of_i16(i16_of_u16(y)) == y,
{
}

/// The two's-complement byte of a signed outcome in a legacy record.
pub open spec fn u8_of_i8(x: i8) -> u8 {
    if x >= 0 {
        x as u8
    } else {
        (x + 0x100) as u8
    }
}

/// The signed outcome denoted by a byte.
pub open spec fn i8_of_u8(x: u8) -> i8 {
    if x < 0x80 {
        x as i8
    } else {
        (x - 0x100) as i8
    }
}

pub fn i8_to_u8(x: i8) -> (r: u8)
    ensures
        r == u8_of_i8(x),
{
    if x >= 0 {
        x as u8
    } else {
        ((x as i16) + 0x100) as u8
    }
}

pub fn u8_to_i8(x: u8) -> (r: i8)
    ensures
        r == i8_of_u8(x),
{
    if x < 0x80 {
        x as i8
    } else {
        ((x as i16) - 0x100) as i8
    }
}

/// Signed and unsigned 8-bit patterns are in bijection.
pub proof fn lemma_i8_u8_round_trip(x: i8, y: u8)
    ensures
        i8_of_u8(u8_of_i8(x)) == x,
        u8_of_i8(i8_of_u8(y)) == y,
{
}

/// A chess bitboard flipped rank-wise: bit `i` moves to bit `i ^ 56`.
/// Equivalent to reversing the byte order of the mask.
pub open spec fn bb_mirror(x: u64) -> u64 {
    ((x >> 56) & 0xff) | (((x >> 48) & 0xff) << 8) | (((x >> 40) & 0xff) << 16) | (((x >> 32)
        & 0xff) << 24) | (((x >> 24) & 0xff) << 32) | (((x >> 16) & 0xff) << 40) | (((x >> 8)
        & 0xff) << 48) | ((x & 0xff) << 56)
}

/// Flipping ranks twice restores the board.
pub proof fn lemma_bb_mirror_involution(x: u64)
    ensures
        bb_mirror(bb_mirror(x)) == x,
{
    let y = bb_mirror(x);
    assert(y == ((x >> 56) & 0xff) | (((x >> 48) & 0xff) << 8) | (((x >> 40) & 0xff) << 16) | ((
    (x >> 32) & 0xff) << 24) | (((x >> 24) & 0xff) << 32) | (((x >> 16) & 0xff) << 40) | (((x >> 8)
        & 0xff) << 48) | ((x & 0xff) << 56) ==> ((y >> 56) & 0xff) | (((y >> 48) & 0xff) << 8) | ((
    (y >> 40) & 0xff) << 16) | (((y >> 32) & 0xff) << 24) | (((y >> 24) & 0xff) << 32) | (((y >> 16)
        & 0xff) << 40) | (((y >> 8) & 0xff) << 48) | ((y & 0xff) << 56) == x) by (bit_vector);
}

/// Mirroring a bitboard permutes its bits by `i ^ 56`, so occupancy counts
/// are preserved square for square.
pub proof fn lemma_bb_mirror_bit(x: u64, i: u64)
    requires
        i < 64,
    ensures
        nth_bit(bb_mirror(x), i as int) == nth_bit(x, (i ^ 56) as int),
{
    let y = bb_mirror(x);
    assert(i < 64 && y == ((x >> 56) & 0xff) | (((x >> 48) & 0xff) << 8) | (((x >> 40) & 0xff)
        << 16) | (((x >> 32) & 0xff) << 24) | (((x >> 24) & 0xff) << 32) | (((x >> 16) & 0xff)
        << 40) | (((x >> 8) & 0xff) << 48) | ((x & 0xff) << 56) ==> ((y >> i) & 1u64 == 1u64) == ((
    x >> (i ^ 56)) & 1u64 == 1u64)) by (bit_vector);
}

pub fn mirror_bitboard(x: u64) -> (r: u64)
    ensures
        r == bb_mirror(x),
{
    ((x >> 56u64) & 0xff) | (((x >> 48u64) & 0xff) << 8u64) | (((x >> 40u64) & 0xff) << 16u64) | ((
    (x >> 32u64) & 0xff) << 24u64) | (((x >> 24u64) & 0xff) << 32u64) | (((x >> 16u64) & 0xff)
        << 40u64) | (((x >> 8u64) & 0xff) << 48u64) | ((x & 0xff) << 56u64)
}

} // verus!
