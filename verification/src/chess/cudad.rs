//! The second legacy 32-byte chess record shape: nibble array first, then
//! occupancy, move counters, a side-to-move byte (top bit), the score,
//! and an outcome stored as a signed value in `{-1, 0, 1}` that must be
//! remapped to the unsigned `{0, 1, 2}` scale on conversion.

use vstd::prelude::*;
use vstd::bytes::*;

use crate::bits::{
    decode_feats, i16_of_u16, i16_to_u16, i8_of_u8, i8_to_u8, lemma_i16_u16_round_trip,
    lemma_popcnt_clear_lowest, nibble, pack_feats, popcnt64, u16_of_i16, u16_to_i16, u8_of_i8,
    u8_to_i8,
};
use crate::convert::{codes_ok, conv_feats, conv_features, conv_occ, last_opp_of, last_sq_of};
use crate::chess::ChessBoard;
use crate::{BulletFormat, ConvError};

verus! {

broadcast use vstd::array::group_array_axioms;

#[derive(Clone, Copy, Debug, PartialEq, Eq)]
pub struct CudADFormat {
    pub pcs: [u8; 16],
    pub occ: u64,
    pub mvcnt: u8,
    pub fmr: u8,
    pub stmr: u8,
    pub enp: u8,
    pub score: i16,
    pub wdl: i8,
}

impl CudADFormat {
    /// The top bit of the side-to-move byte.
    pub open spec fn is_black_spec(self) -> bool {
        (self.stmr >> 7u8) > 0
    }

    /// Structural well-formedness: no more pieces than nibble slots, a
    /// signed outcome in `{-1, 0, 1}`, and a score that survives
    /// negation.
    pub open spec fn wf_spec(self) -> bool {
        &&& popcnt64(self.occ) <= 32
        &&& -1 <= self.wdl <= 1
        &&& self.is_black_spec() ==> self.score != i16::MIN
    }

    /// Everything conversion to the canonical record needs: the record
    /// is well-formed, its mover-relative occupancy stays packable, and
    /// every piece code it carries is recognised.
    pub open spec fn conv_ok(self) -> bool {
        &&& self.wf_spec()
        &&& popcnt64(conv_occ(self.occ, self.is_black_spec())) <= 32
        &&& codes_ok(self.occ, self.pcs@, self.is_black_spec())
    }

    /// How a canonical record relates to this legacy record.  The signed
    /// outcome becomes `wdl + 1` on the unsigned scale before the
    /// side-to-move flip.
    pub open spec fn conv_rel(self, b: ChessBoard) -> bool {
        let black = self.is_black_spec();
        let cf = conv_feats(self.occ, self.pcs@, black);
        &&& b.occ == conv_occ(self.occ, black)
        &&& decode_feats(b.occ, b.pcs@, 0) == cf
        &&& forall|k: int| cf.len() <= k < 32 ==> nibble(b.pcs@, k) == 0
        &&& b.score as int == (if black {
            -(self.score as int)
        } else {
            self.score as int
        })
        &&& b.result as int == (if black {
            1 - self.wdl
        } else {
            1 + self.wdl as int
        })
        &&& b.ksq == last_sq_of(cf, 5)
        &&& b.opp_ksq == last_opp_of(cf)
        &&& b.wf_spec()
    }

    pub fn occ(&self) -> (r: u64)
        ensures
            r == self.occ,
    {
        self.occ
    }

    pub fn is_black_to_move(&self) -> (r: bool)
        ensures
            r == self.is_black_spec(),
    {
        self.stmr >> 7u8 > 0
    }

    /// The outcome code seen from the side to move, on the unsigned
    /// scale.
    pub fn res_stm(&self) -> (r: u8)
        requires
            self.wf_spec(),
        ensures
            r == self.result_code(),
            r <= 2,
    {
        let v: i8 = if self.is_black_to_move() {
            1 - self.wdl
        } else {
            1 + self.wdl
        };
        v as u8
    }

    /// Converts this legacy record into the canonical one.
    pub fn to_canonical(&self) -> (r: Result<ChessBoard, ConvError>)
        ensures
            match r {
                Ok(b) => self.conv_ok() && self.conv_rel(b),
                Err(e) => !self.conv_ok() && e == ConvError::MalformedRecord,
            },
    {
        let black = self.is_black_to_move();
        if self.wdl < -1 || self.wdl > 1 {
            return Err(ConvError::MalformedRecord);
        }
        if black && self.score == i16::MIN {
            return Err(ConvError::MalformedRecord);
        }
        let t = match conv_features(self.occ, &self.pcs, black) {
            Ok(t) => t,
            Err(e) => {
                return Err(e);
            },
        };
        let (occ_p, pcs) = pack_feats(&t.0);
        let rc: i8 = if black {
            1 - self.wdl
        } else {
            1 + self.wdl
        };
        Ok(
            ChessBoard {
                occ: occ_p,
                pcs,
                score: if black {
                    -self.score
                } else {
                    self.score
                },
                result: rc as u8,
                ksq: t.1,
                opp_ksq: t.2,
            },
        )
    }

    /// Overwrites the stored signed first-player outcome.
    pub fn set_result(&mut self, wdl: i8)
        requires
            -1 <= wdl <= 1,
        ensures
            *final(self) == (CudADFormat { wdl, ..*old(self) }),
    {
        self.wdl = wdl;
    }

    /// Starts the one-shot decode of the record's `(piece, square)`
    /// pairs, in the legacy first-player perspective.
    pub fn into_iter(self) -> (r: CudADFormatIter)
        requires
            self.wf_spec(),
        ensures
            r.occ == self.occ,
            r.pcs == self.pcs,
            r.idx == 0,
            cudad_iter_wf(r),
            cudad_iter_remaining(r) == decode_feats(self.occ, self.pcs@, 0),
    {
        CudADFormatIter { occ: self.occ, pcs: self.pcs, idx: 0 }
    }
}

/// One-shot decoding iterator over a legacy record.
pub struct CudADFormatIter {
    pub occ: u64,
    pub pcs: [u8; 16],
    pub idx: usize,
}

pub open spec fn cudad_iter_remaining(it: CudADFormatIter) -> Seq<(u8, u8)> {
    decode_feats(it.occ, it.pcs@, it.idx as int)
}

pub open spec fn cudad_iter_wf(it: CudADFormatIter) -> bool {
    it.idx + popcnt64(it.occ) <= 32
}

impl CudADFormatIter {
    pub fn next(&mut self) -> (r: Option<(u8, u8)>)
        requires
            cudad_iter_wf(*old(self)),
        ensures
            cudad_iter_wf(*final(self)),
            match r {
                Some(f) => {
                    &&& cudad_iter_remaining(*old(self)).len() > 0
                    &&& f == cudad_iter_remaining(*old(self))[0]
                    &&& cudad_iter_remaining(*final(self)) == cudad_iter_remaining(
                        *old(self),
                    ).drop_first()
                },
                None => {
                    &&& cudad_iter_remaining(*old(self)).len() == 0
                    &&& cudad_iter_remaining(*final(self)).len() == 0
                },
            },
    {
        if self.occ == 0 {
            return None;
        }
        proof {
            vstd::std_specs::bits::axiom_u64_trailing_zeros(self.occ);
            lemma_popcnt_clear_lowest(self.occ);
        }
        let square = self.occ.trailing_zeros() as u8;
        let piece = if self.idx % 2 == 0 {
            self.pcs[self.idx / 2] & 0x0f
        } else {
            (self.pcs[self.idx / 2] >> 4u8) & 0x0f
        };
        self.occ = self.occ & (self.occ - 1);
        self.idx += 1;
        Some((piece, square))
    }
}

/// The exact 32-byte little-endian layout of this legacy shape: nibble
/// array, occupancy, move count, fifty-move counter, side byte,
/// en-passant byte, score, signed outcome and one reserved byte.
pub open spec fn cudad_bytes(m: CudADFormat) -> Seq<u8> {
    m.pcs@ + spec_u64_to_le_bytes(m.occ) + seq![m.mvcnt, m.fmr, m.stmr, m.enp]
        + spec_u16_to_le_bytes(u16_of_i16(m.score)) + seq![u8_of_i8(m.wdl), 0u8]
}

/// The legacy record denoted by a 32-byte buffer.
pub open spec fn cudad_of_bytes(s: Seq<u8>) -> CudADFormat {
    CudADFormat {
        pcs: [
            s[0],
            s[1],
            s[2],
            s[3],
            s[4],
            s[5],
            s[6],
            s[7],
            s[8],
            s[9],
            s[10],
            s[11],
            s[12],
            s[13],
            s[14],
            s[15],
        ],
        occ: spec_u64_from_le_bytes(s.subrange(16, 24)),
        mvcnt: s[24],
        fmr: s[25],
        stmr: s[26],
        enp: s[27],
        score: i16_of_u16(spec_u16_from_le_bytes(s.subrange(28, 30))),
        wdl: i8_of_u8(s[30]),
    }
}

/// Serialising a record and reading the bytes back yields the record.
pub proof fn lemma_cudad_bytes_round_trip(m: CudADFormat)
    ensures
        cudad_of_bytes(cudad_bytes(m)) == m,
{
    lemma_auto_spec_u64_to_from_le_bytes();
    lemma_auto_spec_u16_to_from_le_bytes();
    lemma_i16_u16_round_trip(m.score, 0);
    crate::bits::lemma_i8_u8_round_trip(m.wdl, 0);
    let s = cudad_bytes(m);
    assert(s.subrange(16, 24) =~= spec_u64_to_le_bytes(m.occ));
    assert(s.subrange(28, 30) =~= spec_u16_to_le_bytes(u16_of_i16(m.score)));
    let r = cudad_of_bytes(s);
    assert(r.pcs@ =~= m.pcs@);
    assert(r.pcs == m.pcs);
}

impl BulletFormat for CudADFormat {
    const INPUTS: usize = 768;

    const MAX_FEATURES: usize = 32;

    open spec fn wf(self) -> bool {
        self.wf_spec()
    }

    open spec fn score_spec(self) -> i16 {
        if self.is_black_spec() {
            (-(self.score as int)) as i16
        } else {
            self.score
        }
    }

    open spec fn result_code(self) -> u8 {
        if self.is_black_spec() {
            (1 - self.wdl) as u8
        } else {
            (1 + self.wdl) as u8
        }
    }

    open spec fn record_bytes(self) -> Seq<u8> {
        cudad_bytes(self)
    }

    open spec fn from_bytes_spec(s: Seq<u8>) -> Self {
        cudad_of_bytes(s)
    }

    fn score(&self) -> (r: i16) {
        if self.is_black_to_move() {
            -self.score
        } else {
            self.score
        }
    }

    fn result_idx(&self) -> (r: usize) {
        self.res_stm() as usize
    }

    fn to_bytes(&self) -> (r: Vec<u8>) {
        let mut v: Vec<u8> = Vec::new();
        let mut i: usize = 0;
        while i < 16
            invariant
                i <= 16,
                v@ =~= self.pcs@.take(i as int),
            decreases 16 - i,
        {
            v.push(self.pcs[i]);
            proof {
                assert(self.pcs@.take(i + 1) =~= self.pcs@.take(i as int).push(self.pcs@[i as int]));
                assert(v@ =~= self.pcs@.take(i + 1));
            }
            i += 1;
        }
        let mut t = u64_to_le_bytes(self.occ);
        v.append(&mut t);
        v.push(self.mvcnt);
        v.push(self.fmr);
        v.push(self.stmr);
        v.push(self.enp);
        let mut t = u16_to_le_bytes(i16_to_u16(self.score));
        v.append(&mut t);
        v.push(i8_to_u8(self.wdl));
        v.push(0);
        proof {
            lemma_auto_spec_u64_to_from_le_bytes();
            lemma_auto_spec_u16_to_from_le_bytes();
            assert(self.pcs@.take(16) =~= self.pcs@);
            assert(v@ =~= cudad_bytes(*self));
        }
        v
    }

    fn from_bytes(b: &[u8]) -> (r: Self) {
        let r = CudADFormat {
            pcs: [
                *vstd::slice::slice_index_get(b, 0),
                *vstd::slice::slice_index_get(b, 1),
                *vstd::slice::slice_index_get(b, 2),
                *vstd::slice::slice_index_get(b, 3),
                *vstd::slice::slice_index_get(b, 4),
                *vstd::slice::slice_index_get(b, 5),
                *vstd::slice::slice_index_get(b, 6),
                *vstd::slice::slice_index_get(b, 7),
                *vstd::slice::slice_index_get(b, 8),
                *vstd::slice::slice_index_get(b, 9),
                *vstd::slice::slice_index_get(b, 10),
                *vstd::slice::slice_index_get(b, 11),
                *vstd::slice::slice_index_get(b, 12),
                *vstd::slice::slice_index_get(b, 13),
                *vstd::slice::slice_index_get(b, 14),
                *vstd::slice::slice_index_get(b, 15),
            ],
            occ: u64_from_le_bytes(vstd::slice::slice_subrange(b, 16, 24)),
            mvcnt: *vstd::slice::slice_index_get(b, 24),
            fmr: *vstd::slice::slice_index_get(b, 25),
            stmr: *vstd::slice::slice_index_get(b, 26),
            enp: *vstd::slice::slice_index_get(b, 27),
            score: u16_to_i16(u16_from_le_bytes(vstd::slice::slice_subrange(b, 28, 30))),
            wdl: u8_to_i8(*vstd::slice::slice_index_get(b, 30)),
        };
        proof {
            assert(r.pcs@ =~= cudad_of_bytes(b@).pcs@);
            assert(r.pcs == cudad_of_bytes(b@).pcs);
        }
        r
    }

    fn check_wf(&self) -> (r: bool) {
        crate::bits::count_bits(self.occ) <= 32 && self.wdl >= -1 && self.wdl <= 1
            && (!self.is_black_to_move() || self.score != i16::MIN)
    }
}

} // verus!
