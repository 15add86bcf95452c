//! Legacy-to-canonical conversion: the shared feature re-derivation that
//! maps a legacy record's occupancy and nibble array into canonical order,
//! and the batch drivers that convert many records, sequentially or in
//! contiguous chunks whose concatenation preserves record order.

use vstd::prelude::*;

use crate::bits::{
    bb_mirror, bit_squares, count_bits, decode_feats, lemma_bb_mirror_bit, lemma_clear_lowest_lt,
    lemma_occ_of_push, lemma_popcnt_clear_lowest, lemma_tz_facts, low_bits_clear, mirror_bitboard,
    nibble, nth_bit, occ_of, packable, popcnt64, popcnt_upto,
};
use crate::chess::ChessBoard;
use crate::chess::cudad::CudADFormat;
use crate::chess::marlin::MarlinFormat;
use crate::ConvError;

verus! {

broadcast use vstd::array::group_array_axioms;

/// The occupancy of a legacy record as the mover sees it: rank-flipped
/// when the second player is to move.
pub open spec fn conv_occ(occ: u64, black: bool) -> u64 {
    if black {
        bb_mirror(occ)
    } else {
        occ
    }
}

/// A piece code with its colour bit flipped when the second player is to
/// move.
pub open spec fn flip_piece(p: u8, black: bool) -> u8 {
    if black {
        if p < 8 {
            (p + 8) as u8
        } else {
            (p - 8) as u8
        }
    } else {
        p
    }
}

/// The legacy shapes overload one type code per colour as a
/// promoted-piece alias riding beside the six piece types; conversion
/// normalises it back to its base piece type, the rook.
pub open spec fn normalize_piece(p: u8) -> u8 {
    if p == 6 {
        3u8
    } else if p == 14 {
        11u8
    } else {
        p
    }
}

/// A type code no legacy record may carry: not one of the six piece
/// types of either colour and not the overloaded alias.
pub open spec fn bad_piece_code(p: u8) -> bool {
    p == 7 || p == 15
}

/// Every piece code the conversion reads off the legacy record is
/// recognised: one of the six piece types of either colour, or the
/// alias.  A violation is fatal data corruption.
pub open spec fn codes_ok(occ: u64, pcs: Seq<u8>, black: bool) -> bool {
    forall|j: int|
        0 <= j < conv_feats(occ, pcs, black).len() ==> !bad_piece_code(
            (#[trigger] conv_feats(occ, pcs, black)[j]).0,
        )
}

/// The piece code the converted record holds on square `sq`: the legacy
/// nibble of the corresponding legacy square, alias-normalised and
/// colour-flipped.  The legacy nibble index of a square is the number of
/// occupied squares below it.
pub open spec fn conv_piece(occ: u64, pcs: Seq<u8>, black: bool, sq: u8) -> u8 {
    let lsq = if black {
        (sq ^ 56) as u8
    } else {
        sq
    };
    flip_piece(normalize_piece(nibble(pcs, popcnt_upto(occ, lsq as int) as int)), black)
}

/// The canonical feature list a legacy record denotes: each square of the
/// mover-relative occupancy, ascending, paired with its converted piece.
pub open spec fn conv_feats(occ: u64, pcs: Seq<u8>, black: bool) -> Seq<(u8, u8)> {
    bit_squares(conv_occ(occ, black)).map_values(
        |sq: u8| (conv_piece(occ, pcs, black, sq), sq),
    )
}

/// The part of the feature list a cleared occupancy suffix still denotes.
spec fn conv_rem(occ: u64, pcs: Seq<u8>, black: bool, x: u64) -> Seq<(u8, u8)> {
    bit_squares(x).map_values(|sq: u8| (conv_piece(occ, pcs, black, sq), sq))
}

/// The square of the last `(p, ·)` pair of a feature list, or 0 when
/// there is none: legacy conversion records the king squares in the
/// order the pieces are met, the later winning.
pub open spec fn last_sq_of(feats: Seq<(u8, u8)>, p: u8) -> u8
    decreases feats.len(),
{
    if feats.len() == 0 {
        0
    } else if feats.last().0 == p {
        feats.last().1
    } else {
        last_sq_of(feats.drop_last(), p)
    }
}

/// The stored form of the opponent king square: the square of the last
/// opponent king, pre-mirrored, or 0 when there is none.
pub open spec fn last_opp_of(feats: Seq<(u8, u8)>) -> u8
    decreases feats.len(),
{
    if feats.len() == 0 {
        0
    } else if feats.last().0 == 13 {
        (feats.last().1 ^ 56) as u8
    } else {
        last_opp_of(feats.drop_last())
    }
}

/// King squares recorded off a packable feature list lie on the board.
proof fn lemma_last_sq_bounds(feats: Seq<(u8, u8)>, p: u8)
    requires
        forall|k: int| 0 <= k < feats.len() ==> (#[trigger] feats[k]).1 < 64,
    ensures
        last_sq_of(feats, p) < 64,
        last_opp_of(feats) < 64,
    decreases feats.len(),
{
    if feats.len() > 0 {
        let s = feats.last().1;
        assert(s < 64 ==> (s ^ 56) < 64) by (bit_vector);
        lemma_last_sq_bounds(feats.drop_last(), p);
    }
}

proof fn lemma_popcnt_upto_mono(x: u64, a: int, b: int)
    requires
        a <= b,
    ensures
        popcnt_upto(x, a) <= popcnt_upto(x, b),
    decreases b - a,
{
    if a < b {
        lemma_popcnt_upto_mono(x, a, b - 1);
    }
}

/// The nibble index of an occupied square lies strictly below the piece
/// count.
proof fn lemma_rank_lt(x: u64, s: int)
    requires
        0 <= s < 64,
        nth_bit(x, s),
    ensures
        popcnt_upto(x, s) < popcnt64(x),
{
    assert(popcnt_upto(x, s + 1) == popcnt_upto(x, s) + 1);
    lemma_popcnt_upto_mono(x, s + 1, 64);
}

/// Counts the set bits of `x` strictly below position `s`.
fn popcnt_below(x: u64, s: u8) -> (r: u32)
    requires
        s <= 64,
    ensures
        r == popcnt_upto(x, s as int),
{
    let mut j: u8 = 0;
    let mut c: u32 = 0;
    while j < s
        invariant
            j <= s <= 64,
            c == popcnt_upto(x, j as int),
            c <= j,
        decreases s - j,
    {
        if (x >> (j as u64)) & 1 == 1 {
            c += 1;
        }
        j += 1;
    }
    c
}

/// Re-derives the canonical feature list of a legacy record from its
/// occupancy and nibble array, together with the king squares seen, in
/// ascending canonical square order.
#[verifier::loop_isolation(false)]
#[verifier::rlimit(100)]
pub(crate) fn conv_features(occ: u64, pcs: &[u8; 16], black: bool) -> (r: Result<
    (Vec<(u8, u8)>, u8, u8),
    ConvError,
>)
    ensures
        ({
            let cf = conv_feats(occ, pcs@, black);
            match r {
                Ok(t) => {
                    &&& popcnt64(occ) <= 32
                    &&& popcnt64(conv_occ(occ, black)) <= 32
                    &&& codes_ok(occ, pcs@, black)
                    &&& t.0@ == cf
                    &&& packable(t.0@)
                    &&& occ_of(t.0@) == conv_occ(occ, black)
                    &&& t.0@.len() == popcnt64(conv_occ(occ, black))
                    &&& t.1 == last_sq_of(cf, 5)
                    &&& t.2 == last_opp_of(cf)
                    &&& t.1 < 64
                    &&& t.2 < 64
                },
                Err(e) => {
                    &&& e == ConvError::MalformedRecord
                    &&& (popcnt64(occ) > 32 || popcnt64(conv_occ(occ, black)) > 32 || !codes_ok(
                        occ,
                        pcs@,
                        black,
                    ))
                },
            }
        }),
{
    if count_bits(occ) > 32 {
        return Err(ConvError::MalformedRecord);
    }
    let occ_m = if black {
        mirror_bitboard(occ)
    } else {
        occ
    };
    if count_bits(occ_m) > 32 {
        return Err(ConvError::MalformedRecord);
    }
    let mut feats: Vec<(u8, u8)> = Vec::new();
    let mut ksq: u8 = 0;
    let mut opp: u8 = 0;
    let mut occ2 = occ_m;
    proof {
        assert(occ_m & occ_m == occ_m) by (bit_vector);
        assert(0u64 | occ_m == occ_m) by (bit_vector);
        assert(conv_feats(occ, pcs@, black) =~= Seq::<(u8, u8)>::empty() + conv_rem(
            occ,
            pcs@,
            black,
            occ2,
        ));
    }
    while occ2 != 0
        invariant
            occ2 & occ_m == occ2,
            occ_of(feats@) | occ2 == occ_m,
            feats@.len() + popcnt64(occ2) == popcnt64(occ_m),
            packable(feats@),
            feats@.len() > 0 ==> (feats@.last().1 < 64 && low_bits_clear(
                occ2,
                feats@.last().1 as u64,
            )),
            conv_feats(occ, pcs@, black) == feats@ + conv_rem(occ, pcs@, black, occ2),
            forall|j: int| 0 <= j < feats@.len() ==> !bad_piece_code((#[trigger] feats@[j]).0),
            ksq == last_sq_of(feats@, 5),
            opp == last_opp_of(feats@),
        decreases occ2,
    {
        proof {
            lemma_tz_facts(occ2);
            lemma_clear_lowest_lt(occ2);
            lemma_popcnt_clear_lowest(occ2);
        }
        let sq = occ2.trailing_zeros() as u8;
        proof {
            let x = occ2;
            let s = sq as u64;
            assert(x & occ_m == x && (x >> s) & 1u64 == 1u64 ==> (occ_m >> s) & 1u64 == 1u64)
                by (bit_vector);
            assert(nth_bit(occ_m, sq as int));
            if black {
                lemma_bb_mirror_bit(occ, s);
            }
        }
        let lsq = if black {
            sq ^ 56
        } else {
            sq
        };
        proof {
            if black {
                assert((sq as u64) < 64 ==> ((sq as u64) ^ 56) < 64 && (sq ^ 56) as u64 == (
                sq as u64) ^ 56) by (bit_vector);
            }
            assert(nth_bit(occ, lsq as int));
            lemma_rank_lt(occ, lsq as int);
        }
        let rank = popcnt_below(occ, lsq) as usize;
        let p0 = if rank % 2 == 0 {
            pcs[rank / 2] & 0x0f
        } else {
            (pcs[rank / 2] >> 4u8) & 0x0f
        };
        let pn = if p0 == 6 {
            3
        } else if p0 == 14 {
            11
        } else {
            p0
        };
        let piece = if black {
            if pn < 8 {
                pn + 8
            } else {
                pn - 8
            }
        } else {
            pn
        };
        proof {
            let b = pcs@[rank as int / 2];
            assert((b & 0x0f) < 16 && ((b >> 4u8) & 0x0f) < 16) by (bit_vector);
            assert(piece == conv_piece(occ, pcs@, black, sq));
            assert(piece < 16);
        }
        if piece == 7 || piece == 15 {
            proof {
                let cf = conv_feats(occ, pcs@, black);
                let j = feats@.len() as int;
                assert(cf[j] == (conv_piece(occ, pcs@, black, sq), sq));
                assert(bad_piece_code(cf[j].0));
                assert(!codes_ok(occ, pcs@, black));
            }
            return Err(ConvError::MalformedRecord);
        }
        if piece == 5 {
            ksq = sq;
        }
        if piece == 13 {
            opp = sq ^ 56;
        }
        let ghost feats0 = feats@;
        feats.push((piece, sq));
        let ghost old2 = occ2;
        occ2 = occ2 & (occ2 - 1);
        proof {
            let x = old2;
            let s = sq as u64;
            let y = occ2;
            assert(bit_squares(x) =~= seq![sq] + bit_squares(y));
            assert(conv_rem(occ, pcs@, black, x) =~= seq![
                (conv_piece(occ, pcs@, black, sq), sq),
            ] + conv_rem(occ, pcs@, black, y));
            assert(forall|j: int| 0 <= j < feats0.len() ==> feats@[j] == feats0[j]);
            assert(feats@[feats@.len() - 1] == (piece, sq));
            assert(feats@.drop_last() =~= feats0);
            assert(feats@.last() == (piece, sq));
            assert(conv_feats(occ, pcs@, black) =~= feats@ + conv_rem(occ, pcs@, black, y));
            lemma_occ_of_push(feats0, (piece, sq));
            assert(x != 0 && (x >> s) & 1u64 == 1u64 && x << ((64 - s) as u64) == 0 && s < 64
                ==> ((x & ((x - 1) as u64)) & ((1u64 << s) | ((1u64 << s) - 1) as u64)) == 0)
                by (bit_vector);
            assert(low_bits_clear(y, s));
            if feats0.len() > 0 {
                let s0 = feats0.last().1 as u64;
                assert(low_bits_clear(x, s0) && (x >> s) & 1u64 == 1u64 && s0 < 64 && s < 64
                    ==> s0 < s) by (bit_vector);
            }
            assert forall|a: int, b2: int| 0 <= a < b2 < feats@.len() implies feats@[a].1
                < feats@[b2].1 by {
                if b2 == feats@.len() - 1 && a < feats0.len() - 1 {
                    assert(feats0[a].1 < feats0[feats0.len() - 1].1);
                }
            }
            assert(packable(feats@));
            let a = occ_of(feats0);
            assert((a | x) == occ_m && (x >> s) & 1u64 == 1u64 && x << ((64 - s) as u64) == 0
                && s < 64 ==> ((a | (1u64 << s)) | (x & ((x - 1) as u64))) == occ_m)
                by (bit_vector);
            assert(x & occ_m == x ==> (x & ((x - 1) as u64)) & occ_m == (x & ((x - 1) as u64)))
                by (bit_vector);
        }
    }
    proof {
        assert(bit_squares(0u64) =~= Seq::<u8>::empty());
        assert(conv_rem(occ, pcs@, black, 0u64) =~= Seq::<(u8, u8)>::empty());
        assert(conv_feats(occ, pcs@, black) =~= feats@);
        let a = occ_of(feats@);
        assert(a | 0u64 == a) by (bit_vector);
        crate::bits::lemma_popcnt_zero(64);
        let cf = conv_feats(occ, pcs@, black);
        assert(popcnt64(occ) <= 32);
        assert(popcnt64(conv_occ(occ, black)) <= 32);
        assert(occ_of(feats@) == conv_occ(occ, black));
        assert(feats@.len() == popcnt64(conv_occ(occ, black)));
        assert(ksq == last_sq_of(cf, 5));
        assert(opp == last_opp_of(cf));
        lemma_last_sq_bounds(feats@, 5);
        assert forall|j: int| 0 <= j < cf.len() implies !bad_piece_code(
            (#[trigger] cf[j]).0,
        ) by {
            assert(cf[j] == feats@[j]);
        }
        assert(codes_ok(occ, pcs@, black));
    }
    Ok((feats, ksq, opp))
}

/// `v` is the in-order conversion of the whole legacy batch.
pub open spec fn marlin_converted(batch: Seq<MarlinFormat>, v: Seq<ChessBoard>) -> bool {
    &&& v.len() == batch.len()
    &&& forall|k: int|
        0 <= k < batch.len() ==> (#[trigger] batch[k]).conv_ok() && batch[k].conv_rel(v[k])
}

/// `v` is the in-order conversion of the whole legacy batch.
pub open spec fn cudad_converted(batch: Seq<CudADFormat>, v: Seq<ChessBoard>) -> bool {
    &&& v.len() == batch.len()
    &&& forall|k: int|
        0 <= k < batch.len() ==> (#[trigger] batch[k]).conv_ok() && batch[k].conv_rel(v[k])
}

/// Converts a batch of legacy records, in order; the first malformed
/// record aborts the whole batch.
#[verifier::loop_isolation(false)]
pub fn convert_marlin_batch(batch: &[MarlinFormat]) -> (r: Result<Vec<ChessBoard>, ConvError>)
    ensures
        match r {
            Ok(v) => marlin_converted(batch@, v@),
            Err(e) => {
                &&& exists|k: int| 0 <= k < batch@.len() && !(#[trigger] batch@[k]).conv_ok()
                &&& e == ConvError::MalformedRecord
            },
        },
{
    let mut out: Vec<ChessBoard> = Vec::new();
    let mut i: usize = 0;
    while i < batch.len()
        invariant
            i <= batch@.len(),
            out@.len() == i,
            forall|k: int|
                0 <= k < i ==> (#[trigger] batch@[k]).conv_ok() && batch@[k].conv_rel(out@[k]),
        decreases batch@.len() - i,
    {
        match batch[i].to_canonical() {
            Ok(b) => {
                out.push(b);
            },
            Err(e) => {
                return Err(e);
            },
        }
        i += 1;
    }
    Ok(out)
}

/// Converts a batch of legacy records, in order.
#[verifier::loop_isolation(false)]
pub fn convert_cudad_batch(batch: &[CudADFormat]) -> (r: Result<Vec<ChessBoard>, ConvError>)
    ensures
        match r {
            Ok(v) => cudad_converted(batch@, v@),
            Err(e) => {
                &&& exists|k: int| 0 <= k < batch@.len() && !(#[trigger] batch@[k]).conv_ok()
                &&& e == ConvError::MalformedRecord
            },
        },
{
    let mut out: Vec<ChessBoard> = Vec::new();
    let mut i: usize = 0;
    while i < batch.len()
        invariant
            i <= batch@.len(),
            out@.len() == i,
            forall|k: int|
                0 <= k < i ==> (#[trigger] batch@[k]).conv_ok() && batch@[k].conv_rel(out@[k]),
        decreases batch@.len() - i,
    {
        match batch[i].to_canonical() {
            Ok(b) => {
                out.push(b);
            },
            Err(e) => {
                return Err(e);
            },
        }
        i += 1;
    }
    Ok(out)
}

/// Converts a batch in `threads` contiguous, near-equal chunks and
/// concatenates the chunk outputs in original chunk order.  The result
/// meets the same contract as the plain batch conversion, whatever the
/// chunk count: record order never depends on it.
#[verifier::loop_isolation(false)]
pub fn convert_marlin_chunked(batch: &[MarlinFormat], threads: usize) -> (r: Result<
    Vec<ChessBoard>,
    ConvError,
>)
    requires
        1 <= threads,
        batch@.len() + threads <= usize::MAX,
    ensures
        match r {
            Ok(v) => marlin_converted(batch@, v@),
            Err(e) => {
                &&& exists|k: int| 0 <= k < batch@.len() && !(#[trigger] batch@[k]).conv_ok()
                &&& e == ConvError::MalformedRecord
            },
        },
{
    let chunk_size = batch.len() / threads + 1;
    let mut out: Vec<ChessBoard> = Vec::new();
    let mut start: usize = 0;
    while start < batch.len()
        invariant
            start <= batch@.len(),
            out@.len() == start,
            chunk_size >= 1,
            forall|k: int|
                0 <= k < start ==> (#[trigger] batch@[k]).conv_ok() && batch@[k].conv_rel(out@[k]),
        decreases batch@.len() - start,
    {
        let end = if batch.len() - start < chunk_size {
            batch.len()
        } else {
            start + chunk_size
        };
        let chunk = vstd::slice::slice_subrange(batch, start, end);
        match convert_marlin_batch(chunk) {
            Ok(mut part) => {
                let ghost part0 = part@;
                let ghost out0 = out@;
                out.append(&mut part);
                proof {
                    assert forall|k: int|
                        0 <= k < end implies (#[trigger] batch@[k]).conv_ok()
                        && batch@[k].conv_rel(out@[k]) by {
                        if k >= start {
                            assert(chunk@[k - start] == batch@[k]);
                            assert(chunk@[k - start].conv_ok() && chunk@[k - start].conv_rel(
                                part0[k - start],
                            ));
                            assert(out@[k] == part0[k - start]);
                        } else {
                            assert(out@[k] == out0[k]);
                        }
                    }
                }
            },
            Err(e) => {
                proof {
                    let k = choose|k: int|
                        0 <= k < chunk@.len() && !(#[trigger] chunk@[k]).conv_ok();
                    assert(batch@[start + k] == chunk@[k]);
                    assert(!batch@[start + k].conv_ok());
                }
                return Err(e);
            },
        }
        start = end;
    }
    Ok(out)
}

/// Conversion output is a function of the input batch alone: any two
/// vectors that convert the same batch are identical, record for
/// record.  In particular the chunked and the sequential drivers, with
/// any chunk counts, produce the same output.
pub proof fn lemma_conversion_deterministic(
    batch: Seq<MarlinFormat>,
    v1: Seq<ChessBoard>,
    v2: Seq<ChessBoard>,
)
    requires
        marlin_converted(batch, v1),
        marlin_converted(batch, v2),
    ensures
        v1 == v2,
{
    broadcast use vstd::array::group_array_axioms;

    assert forall|k: int| 0 <= k < v1.len() implies v1[k] == v2[k] by {
        let m = batch[k];
        let b1 = v1[k];
        let b2 = v2[k];
        let cf = conv_feats(m.occ, m.pcs@, m.is_black_spec());
        assert(decode_feats(b1.occ, b1.pcs@, 0) == cf);
        assert(decode_feats(b2.occ, b2.pcs@, 0) == cf);
        assert forall|j: int| 0 <= j < 32 implies nibble(b1.pcs@, j) == nibble(b2.pcs@, j) by {
            if j < cf.len() {
                crate::bits::lemma_decode_index(b1.occ, b1.pcs@, 0, j);
                crate::bits::lemma_decode_index(b2.occ, b2.pcs@, 0, j);
            }
        }
        crate::bits::lemma_nibbles_determined(b1.pcs@, b2.pcs@);
        assert(b1.pcs == b2.pcs);
        assert(b1.score == b2.score);
        assert(b1.result == b2.result);
    }
    assert(v1 =~= v2);
}

/// The same determinism holds for the second legacy shape.
pub proof fn lemma_cudad_conversion_deterministic(
    batch: Seq<CudADFormat>,
    v1: Seq<ChessBoard>,
    v2: Seq<ChessBoard>,
)
    requires
        cudad_converted(batch, v1),
        cudad_converted(batch, v2),
    ensures
        v1 == v2,
{
    broadcast use vstd::array::group_array_axioms;

    assert forall|k: int| 0 <= k < v1.len() implies v1[k] == v2[k] by {
        let m = batch[k];
        let b1 = v1[k];
        let b2 = v2[k];
        let cf = conv_feats(m.occ, m.pcs@, m.is_black_spec());
        assert(decode_feats(b1.occ, b1.pcs@, 0) == cf);
        assert(decode_feats(b2.occ, b2.pcs@, 0) == cf);
        assert forall|j: int| 0 <= j < 32 implies nibble(b1.pcs@, j) == nibble(b2.pcs@, j) by {
            if j < cf.len() {
                crate::bits::lemma_decode_index(b1.occ, b1.pcs@, 0, j);
                crate::bits::lemma_decode_index(b2.occ, b2.pcs@, 0, j);
            }
        }
        crate::bits::lemma_nibbles_determined(b1.pcs@, b2.pcs@);
        assert(b1.pcs == b2.pcs);
        assert(b1.score == b2.score);
        assert(b1.result == b2.result);
    }
    assert(v1 =~= v2);
}

} // verus!
