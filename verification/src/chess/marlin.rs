//! A legacy 32-byte chess record: same occupancy and nibble-array core as
//! the canonical record, but stored from the first player's perspective,
//! with side to move and en-passant file packed into one byte (top bit =
//! side to move) and the move counters it tracks discarded on conversion.

use vstd::prelude::*;
use vstd::bytes::*;

use crate::bits::{
    decode_feats, i16_of_u16, i16_to_u16, lemma_i16_u16_round_trip, lemma_popcnt_clear_lowest,
    nibble, pack_feats, popcnt64, u16_of_i16, u16_to_i16,
};
use crate::convert::{codes_ok, conv_feats, conv_features, conv_occ, last_opp_of, last_sq_of};
use crate::chess::ChessBoard;
use crate::{BulletFormat, ConvError};

verus! {

broadcast use vstd::array::group_array_axioms;

#[derive(Clone, Copy, Debug, PartialEq, Eq)]
pub struct MarlinFormat {
    pub occ: u64,
    pub pcs: [u8; 16],
    pub stm_enp: u8,
    pub hfm: u8,
    pub fmc: u16,
    pub score: i16,
    pub result: u8,
    pub extra: u8,
}

impl MarlinFormat {
    /// The top bit of the packed side-to-move / en-passant byte.
    pub open spec fn is_black_spec(self) -> bool {
        (self.stm_enp >> 7u8) > 0
    }

    /// Structural well-formedness: no more pieces than nibble slots, an
    /// outcome code in range, and a score that survives negation.
    pub open spec fn wf_spec(self) -> bool {
        &&& popcnt64(self.occ) <= 32
        &&& self.result <= 2
        &&& self.is_black_spec() ==> self.score != i16::MIN
    }

    /// Everything conversion to the canonical record needs: the record
    /// is well-formed, its mover-relative occupancy stays packable, and
    /// every piece code it carries is recognised.
    pub open spec fn conv_ok(self) -> bool {
        &&& self.wf_spec()
        &&& popcnt64(conv_occ(self.occ, self.is_black_spec())) <= 32
        &&& codes_ok(self.occ, self.pcs@, self.is_black_spec())
    }

    /// How a canonical record relates to this legacy record: occupancy
    /// mirrored to the mover, features re-sorted square-ascending with
    /// colours flipped and the alias code normalised, score and outcome
    /// flipped, king squares taken from the last king met of each side.
    pub open spec fn conv_rel(self, b: ChessBoard) -> bool {
        let black = self.is_black_spec();
        let cf = conv_feats(self.occ, self.pcs@, black);
        &&& b.occ == conv_occ(self.occ, black)
        &&& decode_feats(b.occ, b.pcs@, 0) == cf
        &&& forall|k: int| cf.len() <= k < 32 ==> nibble(b.pcs@, k) == 0
        &&& b.score as int == (if black {
            -(self.score as int)
        } else {
            self.score as int
        })
        &&& b.result as int == (if black {
            2 - self.result
        } else {
            self.result as int
        })
        &&& b.ksq == last_sq_of(cf, 5)
        &&& b.opp_ksq == last_opp_of(cf)
        &&& b.wf_spec()
    }

    pub fn occ(&self) -> (r: u64)
        ensures
            r == self.occ,
    {
        self.occ
    }

    pub fn is_black_to_move(&self) -> (r: bool)
        ensures
            r == self.is_black_spec(),
    {
        self.stm_enp >> 7u8 > 0
    }

    /// The outcome code seen from the side to move.
    pub fn res_stm(&self) -> (r: u8)
        requires
            self.wf_spec(),
        ensures
            r == self.result_code(),
            r <= 2,
    {
        if self.is_black_to_move() {
            2 - self.result
        } else {
            self.result
        }
    }

    /// Converts this legacy record into the canonical one, re-deriving
    /// every field the legacy shape stores in first-player perspective.
    pub fn to_canonical(&self) -> (r: Result<ChessBoard, ConvError>)
        ensures
            match r {
                Ok(b) => self.conv_ok() && self.conv_rel(b),
                Err(e) => !self.conv_ok() && e == ConvError::MalformedRecord,
            },
    {
        let black = self.is_black_to_move();
        if self.result > 2 {
            return Err(ConvError::MalformedRecord);
        }
        if black && self.score == i16::MIN {
            return Err(ConvError::MalformedRecord);
        }
        let t = match conv_features(self.occ, &self.pcs, black) {
            Ok(t) => t,
            Err(e) => {
                return Err(e);
            },
        };
        let (occ_p, pcs) = pack_feats(&t.0);
        Ok(
            ChessBoard {
                occ: occ_p,
                pcs,
                score: if black {
                    -self.score
                } else {
                    self.score
                },
                result: if black {
                    2 - self.result
                } else {
                    self.result
                },
                ksq: t.1,
                opp_ksq: t.2,
            },
        )
    }

    /// Overwrites the stored first-player outcome code.
    pub fn set_result(&mut self, result: u8)
        requires
            result <= 2,
        ensures
            *final(self) == (MarlinFormat { result, ..*old(self) }),
    {
        self.result = result;
    }

    /// Starts the one-shot decode of the record's `(piece, square)`
    /// pairs, in the legacy first-player perspective.
    pub fn into_iter(self) -> (r: MarlinFormatIter)
        requires
            self.wf_spec(),
        ensures
            r.occ == self.occ,
            r.pcs == self.pcs,
            r.idx == 0,
            marlin_iter_wf(r),
            marlin_iter_remaining(r) == decode_feats(self.occ, self.pcs@, 0),
    {
        MarlinFormatIter { occ: self.occ, pcs: self.pcs, idx: 0 }
    }
}

/// One-shot decoding iterator over a legacy record.
pub struct MarlinFormatIter {
    pub occ: u64,
    pub pcs: [u8; 16],
    pub idx: usize,
}

pub open spec fn marlin_iter_remaining(it: MarlinFormatIter) -> Seq<(u8, u8)> {
    decode_feats(it.occ, it.pcs@, it.idx as int)
}

pub open spec fn marlin_iter_wf(it: MarlinFormatIter) -> bool {
    it.idx + popcnt64(it.occ) <= 32
}

impl MarlinFormatIter {
    pub fn next(&mut self) -> (r: Option<(u8, u8)>)
        requires
            marlin_iter_wf(*old(self)),
        ensures
            marlin_iter_wf(*final(self)),
            match r {
                Some(f) => {
                    &&& marlin_iter_remaining(*old(self)).len() > 0
                    &&& f == marlin_iter_remaining(*old(self))[0]
                    &&& marlin_iter_remaining(*final(self)) == marlin_iter_remaining(
                        *old(self),
                    ).drop_first()
                },
                None => {
                    &&& marlin_iter_remaining(*old(self)).len() == 0
                    &&& marlin_iter_remaining(*final(self)).len() == 0
                },
            },
    {
        if self.occ == 0 {
            return None;
        }
        proof {
            vstd::std_specs::bits::axiom_u64_trailing_zeros(self.occ);
            lemma_popcnt_clear_lowest(self.occ);
        }
        let square = self.occ.trailing_zeros() as u8;
        let piece = if self.idx % 2 == 0 {
            self.pcs[self.idx / 2] & 0x0f
        } else {
            (self.pcs[self.idx / 2] >> 4u8) & 0x0f
        };
        self.occ = self.occ & (self.occ - 1);
        self.idx += 1;
        Some((piece, square))
    }
}

/// The exact 32-byte little-endian layout of a legacy record: occupancy,
/// nibble array, the packed side/en-passant byte, the half-move clock,
/// the full-move counter, score, outcome code and one reserved byte.
pub open spec fn marlin_bytes(m: MarlinFormat) -> Seq<u8> {
    spec_u64_to_le_bytes(m.occ) + m.pcs@ + seq![m.stm_enp, m.hfm] + spec_u16_to_le_bytes(m.fmc)
        + spec_u16_to_le_bytes(u16_of_i16(m.score)) + seq![m.result, m.extra]
}

/// The legacy record denoted by a 32-byte buffer.
pub open spec fn marlin_of_bytes(s: Seq<u8>) -> MarlinFormat {
    MarlinFormat {
        occ: spec_u64_from_le_bytes(s.subrange(0, 8)),
        pcs: [
            s[8],
            s[9],
            s[10],
            s[11],
            s[12],
            s[13],
            s[14],
            s[15],
            s[16],
            s[17],
            s[18],
            s[19],
            s[20],
            s[21],
            s[22],
            s[23],
        ],
        stm_enp: s[24],
        hfm: s[25],
        fmc: spec_u16_from_le_bytes(s.subrange(26, 28)),
        score: i16_of_u16(spec_u16_from_le_bytes(s.subrange(28, 30))),
        result: s[30],
        extra: s[31],
    }
}

/// Serialising a record and reading the bytes back yields the record.
pub proof fn lemma_marlin_bytes_round_trip(m: MarlinFormat)
    ensures
        marlin_of_bytes(marlin_bytes(m)) == m,
{
    lemma_auto_spec_u64_to_from_le_bytes();
    lemma_auto_spec_u16_to_from_le_bytes();
    lemma_i16_u16_round_trip(m.score, 0);
    let s = marlin_bytes(m);
    assert(s.subrange(0, 8) =~= spec_u64_to_le_bytes(m.occ));
    assert(s.subrange(26, 28) =~= spec_u16_to_le_bytes(m.fmc));
    assert(s.subrange(28, 30) =~= spec_u16_to_le_bytes(u16_of_i16(m.score)));
    let r = marlin_of_bytes(s);
    assert(r.pcs@ =~= m.pcs@);
    assert(r.pcs == m.pcs);
}

impl BulletFormat for MarlinFormat {
    const INPUTS: usize = 768;

    const MAX_FEATURES: usize = 32;

    open spec fn wf(self) -> bool {
        self.wf_spec()
    }

    open spec fn score_spec(self) -> i16 {
        if self.is_black_spec() {
            (-(self.score as int)) as i16
        } else {
            self.score
        }
    }

    open spec fn result_code(self) -> u8 {
        if self.is_black_spec() {
            (2 - self.result) as u8
        } else {
            self.result
        }
    }

    open spec fn record_bytes(self) -> Seq<u8> {
        marlin_bytes(self)
    }

    open spec fn from_bytes_spec(s: Seq<u8>) -> Self {
        marlin_of_bytes(s)
    }

    fn score(&self) -> (r: i16) {
        if self.is_black_to_move() {
            -self.score
        } else {
            self.score
        }
    }

    fn result_idx(&self) -> (r: usize) {
        self.res_stm() as usize
    }

    fn to_bytes(&self) -> (r: Vec<u8>) {
        let mut v = u64_to_le_bytes(self.occ);
        let mut i: usize = 0;
        while i < 16
            invariant
                i <= 16,
                v@ =~= spec_u64_to_le_bytes(self.occ) + self.pcs@.take(i as int),
            decreases 16 - i,
        {
            v.push(self.pcs[i]);
            proof {
                assert(self.pcs@.take(i + 1) =~= self.pcs@.take(i as int).push(self.pcs@[i as int]));
                assert(v@ =~= spec_u64_to_le_bytes(self.occ) + self.pcs@.take(i + 1));
            }
            i += 1;
        }
        v.push(self.stm_enp);
        v.push(self.hfm);
        let mut t = u16_to_le_bytes(self.fmc);
        v.append(&mut t);
        let mut t = u16_to_le_bytes(i16_to_u16(self.score));
        v.append(&mut t);
        v.push(self.result);
        v.push(self.extra);
        proof {
            lemma_auto_spec_u64_to_from_le_bytes();
            lemma_auto_spec_u16_to_from_le_bytes();
            assert(self.pcs@.take(16) =~= self.pcs@);
            assert(v@ =~= marlin_bytes(*self));
        }
        v
    }

    fn from_bytes(b: &[u8]) -> (r: Self) {
        let r = MarlinFormat {
            occ: u64_from_le_bytes(vstd::slice::slice_subrange(b, 0, 8)),
            pcs: [
                *vstd::slice::slice_index_get(b, 8),
                *vstd::slice::slice_index_get(b, 9),
                *vstd::slice::slice_index_get(b, 10),
                *vstd::slice::slice_index_get(b, 11),
                *vstd::slice::slice_index_get(b, 12),
                *vstd::slice::slice_index_get(b, 13),
                *vstd::slice::slice_index_get(b, 14),
                *vstd::slice::slice_index_get(b, 15),
                *vstd::slice::slice_index_get(b, 16),
                *vstd::slice::slice_index_get(b, 17),
                *vstd::slice::slice_index_get(b, 18),
                *vstd::slice::slice_index_get(b, 19),
                *vstd::slice::slice_index_get(b, 20),
                *vstd::slice::slice_index_get(b, 21),
                *vstd::slice::slice_index_get(b, 22),
                *vstd::slice::slice_index_get(b, 23),
            ],
            stm_enp: *vstd::slice::slice_index_get(b, 24),
            hfm: *vstd::slice::slice_index_get(b, 25),
            fmc: u16_from_le_bytes(vstd::slice::slice_subrange(b, 26, 28)),
            score: u16_to_i16(u16_from_le_bytes(vstd::slice::slice_subrange(b, 28, 30))),
            result: *vstd::slice::slice_index_get(b, 30),
            extra: *vstd::slice::slice_index_get(b, 31),
        };
        proof {
            assert(r.pcs@ =~= marlin_of_bytes(b@).pcs@);
            assert(r.pcs == marlin_of_bytes(b@).pcs);
        }
        r
    }

    fn check_wf(&self) -> (r: bool) {
        crate::bits::count_bits(self.occ) <= 32 && self.result <= 2 && (!self.is_black_to_move()
            || self.score != i16::MIN)
    }
}

} // verus!
