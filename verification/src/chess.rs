//! The canonical 32-byte chess record: a 64-bit occupancy mask, sixteen
//! bytes of packed 4-bit piece codes (one per occupied square, ascending),
//! a mover-relative score and outcome code, and the two king squares.

pub mod cudad;
pub mod marlin;

use vstd::prelude::*;
use vstd::bytes::*;
use vstd::std_specs::bits::u64_trailing_zeros;
use vstd::string::StringSliceAdditionalSpecFns;

use crate::bits::{
    bb_mirror, bit_squares, count_bits, decode_feats, i16_of_u16, i16_to_u16,
    lemma_i16_u16_round_trip, lemma_occ_of_push, lemma_popcnt_clear_lowest, low_bits_clear,
    mirror_bitboard, nibble, nth_bit, occ_of, pack_feats, packable, popcnt64, u16_of_i16,
    u16_to_i16,
};
use crate::text::{
    bytes_eq, collect_rows, find_byte, lead_nonspaces, lead_spaces, lead_until, outcome_code,
    outcome_of, parse_i16_spec, parse_i16_token, rows_of, scan_token, skip_spaces, split_slash,
    trim, trim_slice, ParseError,
};
use crate::convert::{last_opp_of, last_sq_of};
use crate::{BulletFormat, ConvError};

verus! {

broadcast use vstd::array::group_array_axioms;

#[derive(Clone, Copy, Debug, PartialEq, Eq)]
pub struct ChessBoard {
    pub occ: u64,
    pub pcs: [u8; 16],
    pub score: i16,
    pub result: u8,
    pub ksq: u8,
    pub opp_ksq: u8,
}

/// The decoded feature sequence of a chess record: one `(piece, square)`
/// pair per occupied square, squares strictly ascending.
pub open spec fn chess_feats(b: ChessBoard) -> Seq<(u8, u8)> {
    decode_feats(b.occ, b.pcs@, 0)
}

impl ChessBoard {
    /// Structural well-formedness: the outcome code is one of loss, draw,
    /// win, the occupancy holds no more pieces than the nibble array has
    /// slots, and the two king squares lie on the board.
    pub open spec fn wf_spec(self) -> bool {
        &&& self.result <= 2
        &&& popcnt64(self.occ) <= 32
        &&& self.ksq < 64
        &&& self.opp_ksq < 64
    }

    pub fn occ(&self) -> (r: u64)
        ensures
            r == self.occ,
    {
        self.occ
    }

    /// The mover's king square.
    pub fn our_ksq(&self) -> (r: u8)
        ensures
            r == self.ksq,
    {
        self.ksq
    }

    /// The opponent's king square, stored pre-mirrored.
    pub fn opp_ksq(&self) -> (r: u8)
        ensures
            r == self.opp_ksq,
    {
        self.opp_ksq
    }

    /// Starts the one-shot decode of the record's `(piece, square)` pairs.
    pub fn into_iter(self) -> (r: BoardIter)
        requires
            self.wf_spec(),
        ensures
            r.board == self,
            r.idx == 0,
            board_iter_wf(r),
            board_iter_remaining(r) == chess_feats(self),
    {
        BoardIter { board: self, idx: 0 }
    }
}

/// The first piece bitboard among slots 2 to 7 holding `sq`, or 8 when
/// none does.
pub open spec fn piece_slot(bs: Seq<u64>, sq: int, k: int) -> int
    decreases 8 - k,
{
    if k >= 8 {
        8
    } else if nth_bit(bs[k], sq) {
        k
    } else {
        piece_slot(bs, sq, k + 1)
    }
}

/// The 4-bit piece code of the piece on `sq`: the colour bit from the
/// second occupancy board, joined with the piece-type index.
pub open spec fn piece_of(bs: Seq<u64>, sq: int) -> u8 {
    (if nth_bit(bs[1], sq) {
        8u8
    } else {
        0u8
    }) | ((piece_slot(bs, sq, 2) - 2) as u8)
}

/// Eight raw bitboards adjusted to the side to move: for the second
/// player every board is rank-flipped and the two colour boards swap.
pub open spec fn adj_bbs(bbs: Seq<u64>, black: bool) -> Seq<u64> {
    if black {
        Seq::new(
            8,
            |i: int|
                bb_mirror(
                    bbs[if i == 0 {
                        1int
                    } else if i == 1 {
                        0int
                    } else {
                        i
                    }],
                ),
        )
    } else {
        bbs
    }
}

/// Every occupied square lies on some piece bitboard.
pub open spec fn all_covered(bs: Seq<u64>) -> bool {
    forall|sq: int| 0 <= sq < 64 && nth_bit(bs[0] | bs[1], sq) ==> piece_slot(bs, sq, 2) < 8
}

/// The feature list a set of raw bitboards denotes: each occupied square,
/// ascending, paired with its piece code.
pub open spec fn raw_feats(bs: Seq<u64>) -> Seq<(u8, u8)> {
    bit_squares(bs[0] | bs[1]).map_values(|sq: u8| (piece_of(bs, sq as int), sq))
}

/// The features a cleared suffix of the occupancy still denotes.
pub open spec fn rem_feats(bs: Seq<u64>, x: u64) -> Seq<(u8, u8)> {
    bit_squares(x).map_values(|sq: u8| (piece_of(bs, sq as int), sq))
}

/// Finds the piece bitboard holding `sq`, searching slots 2 to 7.
#[verifier::loop_isolation(false)]
fn find_slot(bs: &[u64; 8], sq: u8) -> (p: usize)
    requires
        sq < 64,
    ensures
        p == piece_slot(bs@, sq as int, 2),
        2 <= p <= 8,
{
    let mut p: usize = 2;
    while p < 8
        invariant
            2 <= p <= 8,
            piece_slot(bs@, sq as int, 2) == piece_slot(bs@, sq as int, p as int),
        decreases 8 - p,
    {
        if (bs[p] >> (sq as u64)) & 1 == 1 {
            return p;
        }
        p += 1;
    }
    p
}

impl ChessBoard {
    /// Builds a canonical record from raw position data and
    /// canonicalises it to the side to move.
    ///
    /// - Bitboards are in order first player, second player, pawn,
    ///   knight, bishop, rook, queen, king.
    /// - `stm` is 0 for the first player, 1 for the second.
    /// - `score` is first-player relative, in centipawns.
    /// - `result` is the outcome code for the first player: 0 loss,
    ///   1 draw, 2 win.
    #[verifier::loop_isolation(false)]
    #[verifier::rlimit(60)]
    pub fn from_raw(bbs: [u64; 8], stm: usize, score: i16, result: u8) -> (r: Result<
        ChessBoard,
        ConvError,
    >)
        requires
            result <= 2,
            stm == 1 ==> score != i16::MIN,
        ensures
            ({
                let bs = adj_bbs(bbs@, stm == 1);
                let occ = bs[0] | bs[1];
                match r {
                    Ok(b) => {
                        &&& popcnt64(occ) <= 32
                        &&& all_covered(bs)
                        &&& bs[0] & bs[7] != 0
                        &&& bs[1] & bs[7] != 0
                        &&& b.occ == occ
                        &&& decode_feats(b.occ, b.pcs@, 0) == raw_feats(bs)
                        &&& forall|k: int|
                            raw_feats(bs).len() <= k < 32 ==> nibble(b.pcs@, k) == 0
                        &&& b.score as int == (if stm == 1 {
                            -(score as int)
                        } else {
                            score as int
                        })
                        &&& b.result as int == (if stm == 1 {
                            2 - result
                        } else {
                            result as int
                        })
                        &&& b.ksq == vstd::std_specs::bits::u64_trailing_zeros(bs[0] & bs[7]) as u8
                        &&& b.opp_ksq == (vstd::std_specs::bits::u64_trailing_zeros(bs[1] & bs[7])
                            as u8) ^ 56
                        &&& b.wf_spec()
                    },
                    Err(ConvError::MalformedRecord) => popcnt64(occ) > 32 || bs[0] & bs[7] == 0
                        || bs[1] & bs[7] == 0,
                    Err(ConvError::NoPieceFound) => popcnt64(occ) <= 32 && bs[0] & bs[7] != 0
                        && bs[1] & bs[7] != 0 && !all_covered(bs),
                }
            }),
    {
        let black = stm == 1;
        let mut bs: [u64; 8] = bbs;
        if black {
            let mut i: usize = 0;
            while i < 8
                invariant
                    i <= 8,
                    forall|k: int| 0 <= k < i ==> bs@[k] == bb_mirror(bbs@[k]),
                    forall|k: int| i <= k < 8 ==> bs@[k] == bbs@[k],
                decreases 8 - i,
            {
                bs[i] = mirror_bitboard(bs[i]);
                i += 1;
            }
            let t = bs[0];
            bs[0] = bs[1];
            bs[1] = t;
            proof {
                assert(bs@ =~= adj_bbs(bbs@, true));
            }
        }
        proof {
            assert(bs@ == adj_bbs(bbs@, black));
        }
        let occ = bs[0] | bs[1];
        if count_bits(occ) > 32 {
            return Err(ConvError::MalformedRecord);
        }
        if bs[0] & bs[7] == 0 || bs[1] & bs[7] == 0 {
            return Err(ConvError::MalformedRecord);
        }
        let mut feats: Vec<(u8, u8)> = Vec::new();
        let mut occ2 = occ;
        proof {
            assert(occ & occ == occ) by (bit_vector);
            assert(0u64 | occ == occ) by (bit_vector);
            assert(raw_feats(bs@) =~= Seq::<(u8, u8)>::empty() + rem_feats(bs@, occ2));
        }
        while occ2 != 0
            invariant
                occ2 & occ == occ2,
                occ_of(feats@) | occ2 == occ,
                feats@.len() + popcnt64(occ2) == popcnt64(occ),
                packable(feats@),
                feats@.len() > 0 ==> (feats@.last().1 < 64 && low_bits_clear(
                    occ2,
                    feats@.last().1 as u64,
                )),
                raw_feats(bs@) == feats@ + rem_feats(bs@, occ2),
                forall|s: int|
                    0 <= s < 64 && nth_bit(occ, s) && !nth_bit(occ2, s) ==> piece_slot(
                        bs@,
                        s,
                        2,
                    ) < 8,
            decreases occ2,
        {
            proof {
                crate::bits::lemma_tz_facts(occ2);
                crate::bits::lemma_clear_lowest_lt(occ2);
                lemma_popcnt_clear_lowest(occ2);
            }
            let sq = occ2.trailing_zeros() as u8;
            let colour: u8 = if (bs[1] >> (sq as u64)) & 1 == 1 {
                8
            } else {
                0
            };
            let p = find_slot(&bs, sq);
            if p == 8 {
                proof {
                    let x = occ2;
                    let s = sq as u64;
                    assert(x & occ == x && (x >> s) & 1u64 == 1u64 ==> (occ >> s) & 1u64 == 1u64)
                        by (bit_vector);
                    assert(nth_bit(occ, sq as int));
                }
                return Err(ConvError::NoPieceFound);
            }
            let piece = colour | ((p - 2) as u8);
            let ghost feats0 = feats@;
            feats.push((piece, sq));
            let ghost old2 = occ2;
            occ2 = occ2 & (occ2 - 1);
            proof {
                let x = old2;
                let s = sq as u64;
                let y = occ2;
                assert(piece == piece_of(bs@, sq as int));
                let cl = colour;
                let pq = (p - 2) as u8;
                assert((cl == 0 || cl == 8) && pq <= 5 ==> (cl | pq) < 16) by (bit_vector);
                assert(piece < 16);
                assert(bit_squares(x) =~= seq![sq] + bit_squares(y));
                assert(rem_feats(bs@, x) =~= seq![(piece_of(bs@, sq as int), sq)] + rem_feats(
                    bs@,
                    y,
                ));
                assert(raw_feats(bs@) =~= feats@ + rem_feats(bs@, y));
                lemma_occ_of_push(feats0, (piece, sq));
                assert(x != 0 && (x >> s) & 1u64 == 1u64 && x << ((64 - s) as u64) == 0 && s < 64
                    ==> ((x & ((x - 1) as u64)) & ((1u64 << s) | ((1u64 << s) - 1) as u64)) == 0)
                    by (bit_vector);
                assert(low_bits_clear(y, s));
                if feats0.len() > 0 {
                    let s0 = feats0.last().1 as u64;
                    assert(low_bits_clear(x, s0) && (x >> s) & 1u64 == 1u64 && s0 < 64 && s < 64
                        ==> s0 < s) by (bit_vector);
                }
                assert forall|a: int, b: int| 0 <= a < b < feats@.len() implies feats@[a].1
                    < feats@[b].1 by {
                    if b == feats@.len() - 1 && a < feats0.len() - 1 {
                        assert(feats0[a].1 < feats0[feats0.len() - 1].1);
                    }
                }
                assert(packable(feats@));
                let a = occ_of(feats0);
                assert((a | x) == occ && (x >> s) & 1u64 == 1u64 && x << ((64 - s) as u64) == 0
                    && s < 64 ==> ((a | (1u64 << s)) | (x & ((x - 1) as u64))) == occ)
                    by (bit_vector);
                assert(x & occ == x ==> (x & ((x - 1) as u64)) & occ == (x & ((x - 1) as u64)))
                    by (bit_vector);
                assert(forall|t: u64|
                    t < 64 && x != 0 && !((#[trigger] (y >> t)) & 1u64 == 1u64) && (x >> t) & 1u64
                        == 1u64 && x << ((64 - s) as u64) == 0 && (x >> s) & 1u64 == 1u64 && s < 64
                        && y == x & ((x - 1) as u64) ==> t == s) by (bit_vector);
                assert(forall|t: int|
                    0 <= t < 64 && nth_bit(occ, t) && !nth_bit(occ2, t) ==> piece_slot(
                        bs@,
                        t,
                        2,
                    ) < 8) by {
                    assert forall|t: int|
                        0 <= t < 64 && nth_bit(occ, t) && !nth_bit(occ2, t) implies piece_slot(
                        bs@,
                        t,
                        2,
                    ) < 8 by {
                        if nth_bit(old2, t) {
                            assert(t == sq as int);
                        }
                    }
                }
            }
        }
        proof {
            assert(bit_squares(0u64) =~= Seq::<u8>::empty());
            assert(rem_feats(bs@, 0u64) =~= Seq::<(u8, u8)>::empty());
            assert(raw_feats(bs@) =~= feats@);
            let a = occ_of(feats@);
            assert(a | 0u64 == a) by (bit_vector);
            assert(forall|s: int| 0 <= s < 64 ==> !nth_bit(0u64, s)) by {
                assert(forall|s: u64| (0u64 >> s) & 1u64 == 0u64) by (bit_vector);
            }
            assert(all_covered(bs@));
        }
        let (occ_p, pcs) = pack_feats(&feats);
        proof {
            vstd::std_specs::bits::axiom_u64_trailing_zeros(bs[0] & bs[7]);
            vstd::std_specs::bits::axiom_u64_trailing_zeros(bs[1] & bs[7]);
        }
        let ksq = (bs[0] & bs[7]).trailing_zeros() as u8;
        let opp_ksq = ((bs[1] & bs[7]).trailing_zeros() as u8) ^ 56;
        proof {
            let k2 = (vstd::std_specs::bits::u64_trailing_zeros(bs@[1] & bs@[7]) as u8);
            assert(k2 < 64 ==> (k2 ^ 56) < 64) by (bit_vector);
        }
        let sc = if black {
            -score
        } else {
            score
        };
        let rc = if black {
            2 - result
        } else {
            result
        };
        Ok(ChessBoard { occ: occ_p, pcs, score: sc, result: rc, ksq, opp_ksq })
    }
}

/// One-shot decoding iterator over a chess record.
pub struct BoardIter {
    pub board: ChessBoard,
    pub idx: usize,
}

/// The pairs this iterator has still to yield.
pub open spec fn board_iter_remaining(it: BoardIter) -> Seq<(u8, u8)> {
    decode_feats(it.board.occ, it.board.pcs@, it.idx as int)
}

/// The nibble cursor never runs past the array: pieces already consumed
/// plus pieces still occupied fit in the 32 slots.
pub open spec fn board_iter_wf(it: BoardIter) -> bool {
    it.idx + popcnt64(it.board.occ) <= 32
}

impl BoardIter {
    pub fn next(&mut self) -> (r: Option<(u8, u8)>)
        requires
            board_iter_wf(*old(self)),
        ensures
            board_iter_wf(*final(self)),
            match r {
                Some(f) => {
                    &&& board_iter_remaining(*old(self)).len() > 0
                    &&& f == board_iter_remaining(*old(self))[0]
                    &&& board_iter_remaining(*final(self)) == board_iter_remaining(
                        *old(self),
                    ).drop_first()
                },
                None => {
                    &&& board_iter_remaining(*old(self)).len() == 0
                    &&& board_iter_remaining(*final(self)).len() == 0
                },
            },
    {
        if self.board.occ == 0 {
            return None;
        }
        proof {
            vstd::std_specs::bits::axiom_u64_trailing_zeros(self.board.occ);
            lemma_popcnt_clear_lowest(self.board.occ);
        }
        let square = self.board.occ.trailing_zeros() as u8;
        let piece = if self.idx % 2 == 0 {
            self.board.pcs[self.idx / 2] & 0x0f
        } else {
            (self.board.pcs[self.idx / 2] >> 4u8) & 0x0f
        };
        self.board.occ = self.board.occ & (self.board.occ - 1);
        self.idx += 1;
        Some((piece, square))
    }
}

/// Running state of the chess board-field scan: the features gathered so
/// far (squares strictly ascending), the file cursor within the current
/// rank, the king squares seen, and whether the field is malformed.
pub struct ChessFold {
    pub feats: Seq<(u8, u8)>,
    pub col: int,
    pub ksq: u8,
    pub opp_ksq: u8,
    pub bad: bool,
}

pub open spec fn chess_init() -> ChessFold {
    ChessFold { feats: Seq::empty(), col: 0, ksq: 0, opp_ksq: 0, bad: false }
}

/// The 4-bit piece code of a piece letter, with colours swapped when the
/// second player is to move.
pub open spec fn piece_char(c: u8, black: bool) -> Option<u8> {
    let base: Option<u8> = if c == 80 {
        Some(0u8)
    } else if c == 78 {
        Some(1u8)
    } else if c == 66 {
        Some(2u8)
    } else if c == 82 {
        Some(3u8)
    } else if c == 81 {
        Some(4u8)
    } else if c == 75 {
        Some(5u8)
    } else if c == 112 {
        Some(8u8)
    } else if c == 110 {
        Some(9u8)
    } else if c == 98 {
        Some(10u8)
    } else if c == 114 {
        Some(11u8)
    } else if c == 113 {
        Some(12u8)
    } else if c == 107 {
        Some(13u8)
    } else {
        None
    };
    match base {
        None => None,
        Some(p) => Some(
            if black {
                if p < 8 {
                    (p + 8) as u8
                } else {
                    (p - 8) as u8
                }
            } else {
                p
            },
        ),
    }
}

/// One character of a rank field, scanning rank `k` of the canonical
/// board: digits skip files, piece letters place a piece, and any other
/// character is an unrecognised board character.  A rank that runs past
/// eight files, a ninth rank, or a thirty-third piece is also malformed.
pub open spec fn chess_apply(st: ChessFold, k: int, c: u8, black: bool) -> ChessFold {
    if st.bad {
        st
    } else if 49 <= c <= 56 {
        if st.col + (c - 48) > 8 {
            ChessFold { bad: true, ..st }
        } else {
            ChessFold { col: st.col + (c - 48), ..st }
        }
    } else {
        match piece_char(c, black) {
            None => ChessFold { bad: true, ..st },
            Some(p) => {
                if k > 7 || st.col > 7 || st.feats.len() >= 32 {
                    ChessFold { bad: true, ..st }
                } else {
                    let sq = (8 * k + st.col) as u8;
                    ChessFold {
                        feats: st.feats.push((p, sq)),
                        col: st.col + 1,
                        ksq: if p == 5 {
                            sq
                        } else {
                            st.ksq
                        },
                        opp_ksq: if p == 13 {
                            (sq ^ 56) as u8
                        } else {
                            st.opp_ksq
                        },
                        bad: false,
                    }
                }
            },
        }
    }
}

pub open spec fn chess_row(row: Seq<u8>, k: int, black: bool, st: ChessFold) -> ChessFold
    decreases row.len(),
{
    if row.len() == 0 {
        st
    } else {
        chess_row(row.drop_first(), k, black, chess_apply(st, k, row[0], black))
    }
}

/// The rank fields in the order they are scanned: rank 0 of the
/// canonical board first.  The file cursor resets at each rank.
pub open spec fn chess_rows(rows: Seq<Seq<u8>>, k: int, black: bool, st: ChessFold) -> ChessFold
    decreases rows.len(),
{
    if rows.len() == 0 {
        ChessFold { col: 0, ..st }
    } else {
        chess_rows(
            rows.drop_first(),
            k + 1,
            black,
            chess_row(rows.first(), k, black, ChessFold { col: 0, ..st }),
        )
    }
}

/// The scan of a whole board token.  The text gives the top rank first,
/// so for the first player the ranks are scanned in reverse; for the
/// second player the board is mirrored, which makes the written order
/// the canonical one.
pub open spec fn chess_board_fold(bt: Seq<u8>, black: bool) -> ChessFold {
    chess_rows(
        if black {
            split_slash(bt)
        } else {
            split_slash(bt).reverse()
        },
        0,
        black,
        chess_init(),
    )
}

proof fn lemma_chess_row_bad(row: Seq<u8>, k: int, black: bool, st: ChessFold)
    requires
        st.bad,
    ensures
        chess_row(row, k, black, st) == st,
    decreases row.len(),
{
    if row.len() > 0 {
        lemma_chess_row_bad(row.drop_first(), k, black, st);
    }
}

proof fn lemma_chess_rows_bad(rows: Seq<Seq<u8>>, k: int, black: bool, st: ChessFold)
    requires
        st.bad,
    ensures
        chess_rows(rows, k, black, st).bad,
    decreases rows.len(),
{
    if rows.len() > 0 {
        lemma_chess_row_bad(rows.first(), k, black, (ChessFold { col: 0, ..st }));
        lemma_chess_rows_bad(rows.drop_first(), k + 1, black, (ChessFold { col: 0, ..st }));
    }
}

/// Structural facts every reachable scan state satisfies within rank
/// `k`: the features pack, and their squares stay below the cursor.
pub open spec fn chess_st_inv(st: ChessFold, k: int, col: int) -> bool {
    &&& packable(st.feats)
    &&& st.feats.len() <= 32
    &&& 0 <= col <= 8
    &&& st.feats.len() > 0 ==> (st.feats.last().1 as int) < 8 * k + col
}

proof fn lemma_chess_row_inv(row: Seq<u8>, k: int, black: bool, st: ChessFold)
    requires
        0 <= k,
        chess_st_inv(st, k, st.col),
    ensures
        ({
            let r = chess_row(row, k, black, st);
            !r.bad ==> (chess_st_inv(r, k, r.col) && r.col >= st.col)
        }),
    decreases row.len(),
{
    if row.len() > 0 {
        let st2 = chess_apply(st, k, row[0], black);
        if !st2.bad {
            assert forall|a: int, b: int| 0 <= a < b < st2.feats.len() implies st2.feats[a].1
                < st2.feats[b].1 by {
                if b == st2.feats.len() - 1 && st2.feats.len() > st.feats.len() && a
                    < st.feats.len() - 1 {
                    assert(st.feats[a].1 < st.feats[st.feats.len() - 1].1);
                }
            }
            lemma_chess_row_inv(row.drop_first(), k, black, st2);
        } else {
            lemma_chess_row_bad(row.drop_first(), k, black, st2);
        }
    }
}

proof fn lemma_chess_rows_inv(rows: Seq<Seq<u8>>, k: int, black: bool, st: ChessFold)
    requires
        0 <= k,
        chess_st_inv(st, k, 0),
    ensures
        ({
            let r = chess_rows(rows, k, black, st);
            !r.bad ==> (packable(r.feats) && r.feats.len() <= 32)
        }),
    decreases rows.len(),
{
    if rows.len() > 0 {
        let st0 = ChessFold { col: 0, ..st };
        let st2 = chess_row(rows.first(), k, black, st0);
        lemma_chess_row_inv(rows.first(), k, black, st0);
        if !st2.bad {
            assert(chess_st_inv(st2, k + 1, 0));
            lemma_chess_rows_inv(rows.drop_first(), k + 1, black, st2);
        } else {
            lemma_chess_rows_bad(rows.drop_first(), k + 1, black, st2);
        }
    }
}

proof fn lemma_chess_row_kings(row: Seq<u8>, k: int, black: bool, st: ChessFold)
    requires
        st.ksq == last_sq_of(st.feats, 5),
        st.opp_ksq == last_opp_of(st.feats),
    ensures
        ({
            let r = chess_row(row, k, black, st);
            r.ksq == last_sq_of(r.feats, 5) && r.opp_ksq == last_opp_of(r.feats)
        }),
    decreases row.len(),
{
    if row.len() > 0 {
        let st2 = chess_apply(st, k, row[0], black);
        if st2.feats.len() > st.feats.len() {
            assert(st2.feats.drop_last() =~= st.feats);
        }
        lemma_chess_row_kings(row.drop_first(), k, black, st2);
    }
}

proof fn lemma_chess_rows_kings(rows: Seq<Seq<u8>>, k: int, black: bool, st: ChessFold)
    requires
        st.ksq == last_sq_of(st.feats, 5),
        st.opp_ksq == last_opp_of(st.feats),
    ensures
        ({
            let r = chess_rows(rows, k, black, st);
            r.ksq == last_sq_of(r.feats, 5) && r.opp_ksq == last_opp_of(r.feats)
        }),
    decreases rows.len(),
{
    if rows.len() > 0 {
        let st0 = ChessFold { col: 0, ..st };
        lemma_chess_row_kings(rows.first(), k, black, st0);
        lemma_chess_rows_kings(rows.drop_first(), k + 1, black, chess_row(
            rows.first(),
            k,
            black,
            st0,
        ));
    }
}

/// The king-square fields of a parsed record match its decoded pairs:
/// the stored mover king square is the square of the last mover-king
/// pair (so of the king itself when the position holds exactly one),
/// and likewise, pre-mirrored, for the opponent.
pub proof fn lemma_parse_chess_kings(s: Seq<u8>)
    ensures
        parse_chess(s) is Ok ==> {
            let o = parse_chess(s)->Ok_0;
            o.ksq == last_sq_of(o.feats, 5) && o.opp_ksq == last_opp_of(o.feats)
        },
{
    if parse_chess(s) is Ok {
        let i1 = lead_until(s, 124);
        let fen = s.take(i1);
        let t0 = lead_spaces(fen);
        let b_end = t0 + lead_nonspaces(fen.skip(t0));
        let board_tok = fen.subrange(t0, b_end);
        let t1 = b_end + lead_spaces(fen.skip(b_end));
        let s_end = t1 + lead_nonspaces(fen.skip(t1));
        let stm_tok = fen.subrange(t1, s_end);
        let black = stm_tok == seq![98u8];
        lemma_chess_rows_kings(
            if black {
                split_slash(board_tok)
            } else {
                split_slash(board_tok).reverse()
            },
            0,
            black,
            chess_init(),
        );
    }
}

/// What a successfully parsed chess text line denotes: the feature list
/// in canonical order and the canonicalised scalar fields.
pub struct ChessParseOut {
    pub feats: Seq<(u8, u8)>,
    pub score: i16,
    pub result: u8,
    pub ksq: u8,
    pub opp_ksq: u8,
}

/// The record denoted by one chess text line, or the first way in which
/// the line is malformed.  The line is `<board> <side> ... | <score> |
/// <outcome>`; tokens after the side to move are ignored.  A score of
/// the smallest representable value cannot be negated and is treated as
/// unparseable.
pub open spec fn parse_chess(s: Seq<u8>) -> Result<ChessParseOut, ParseError> {
    let i1 = lead_until(s, 124);
    if i1 == s.len() {
        Err(ParseError::MissingFields)
    } else {
        let fen = s.take(i1);
        let rest1 = s.skip(i1 + 1);
        let i2 = lead_until(rest1, 124);
        if i2 == rest1.len() {
            Err(ParseError::MissingFields)
        } else {
            let score_tok = trim(rest1.take(i2));
            let rest2 = rest1.skip(i2 + 1);
            let wdl_tok = trim(rest2.take(lead_until(rest2, 124)));
            let t0 = lead_spaces(fen);
            if t0 == fen.len() {
                Err(ParseError::MissingFields)
            } else {
                let b_end = t0 + lead_nonspaces(fen.skip(t0));
                let board_tok = fen.subrange(t0, b_end);
                let t1 = b_end + lead_spaces(fen.skip(b_end));
                if t1 == fen.len() {
                    Err(ParseError::MissingFields)
                } else {
                    let s_end = t1 + lead_nonspaces(fen.skip(t1));
                    let stm_tok = fen.subrange(t1, s_end);
                    let black = stm_tok == seq![98u8];
                    let st = chess_board_fold(board_tok, black);
                    if st.bad {
                        Err(ParseError::BadBoard)
                    } else {
                        match parse_i16_spec(score_tok) {
                            None => Err(ParseError::BadScore),
                            Some(sc) => match outcome_code(wdl_tok) {
                                None => Err(ParseError::BadOutcome),
                                Some(code) => if black && sc == i16::MIN {
                                    Err(ParseError::BadScore)
                                } else {
                                    Ok(
                                        ChessParseOut {
                                            feats: st.feats,
                                            score: (
                                            if black {
                                                (-(sc as int)) as i16
                                            } else {
                                                sc
                                            }),
                                            result: (
                                            if black {
                                                (2 - code) as u8
                                            } else {
                                                code
                                            }),
                                            ksq: st.ksq,
                                            opp_ksq: st.opp_ksq,
                                        },
                                    )
                                },
                            },
                        }
                    }
                }
            }
        }
    }
}

/// A scan state that is still on track: no malformation seen so far.
pub open spec fn mk_fold(feats: Seq<(u8, u8)>, col: int, ksq: u8, opp: u8) -> ChessFold {
    ChessFold { feats, col, ksq, opp_ksq: opp, bad: false }
}

fn piece_char_exec(c: u8, black: bool) -> (r: Option<u8>)
    ensures
        r == piece_char(c, black),
{
    let base: Option<u8> = if c == 80 {
        Some(0)
    } else if c == 78 {
        Some(1)
    } else if c == 66 {
        Some(2)
    } else if c == 82 {
        Some(3)
    } else if c == 81 {
        Some(4)
    } else if c == 75 {
        Some(5)
    } else if c == 112 {
        Some(8)
    } else if c == 110 {
        Some(9)
    } else if c == 98 {
        Some(10)
    } else if c == 114 {
        Some(11)
    } else if c == 113 {
        Some(12)
    } else if c == 107 {
        Some(13)
    } else {
        None
    };
    match base {
        None => None,
        Some(p) => Some(
            if black {
                if p < 8 {
                    p + 8
                } else {
                    p - 8
                }
            } else {
                p
            },
        ),
    }
}

/// Scans a board token into its feature list and king squares; errors
/// exactly when the token is structurally malformed.
#[verifier::loop_isolation(false)]
#[verifier::rlimit(60)]
fn chess_fold_exec(bt: &[u8], black: bool) -> (r: Result<(Vec<(u8, u8)>, u8, u8), ParseError>)
    ensures
        match r {
            Ok(t) => {
                let st = chess_board_fold(bt@, black);
                &&& !st.bad
                &&& st.feats == t.0@
                &&& st.ksq == t.1
                &&& st.opp_ksq == t.2
                &&& t.1 < 64
                &&& t.2 < 64
            },
            Err(e) => chess_board_fold(bt@, black).bad && e == ParseError::BadBoard,
        },
{
    let spans = collect_rows(bt);
    let ghost rows = split_slash(bt@);
    let ghost proc = if black {
        rows
    } else {
        rows.reverse()
    };
    proof {
        assert(proc.len() == rows.len());
    }
    let mut feats: Vec<(u8, u8)> = Vec::new();
    let mut ksq: u8 = 0;
    let mut opp: u8 = 0;
    let mut m: usize = 0;
    proof {
        assert(proc.skip(0) =~= proc);
        assert(mk_fold(feats@, 0, ksq, opp) == chess_init());
    }
    while m < spans.len()
        invariant
            m <= spans@.len(),
            ksq < 64,
            opp < 64,
            chess_board_fold(bt@, black) == chess_rows(
                proc.skip(m as int),
                m as int,
                black,
                mk_fold(feats@, 0, ksq, opp),
            ),
        decreases spans@.len() - m,
    {
        let si = if black {
            m
        } else {
            spans.len() - 1 - m
        };
        let (a, b) = spans[si];
        let row = vstd::slice::slice_subrange(bt, a, b);
        proof {
            assert(row@ == rows_of(spans@, bt@)[si as int]);
            assert(row@ == proc[m as int]);
            assert(proc.skip(m as int).first() == proc[m as int]);
            assert(proc.skip(m as int).drop_first() =~= proc.skip(m + 1));
        }
        let ghost st_row0 = mk_fold(feats@, 0, ksq, opp);
        let mut col: u8 = 0;
        let mut j: usize = 0;
        proof {
            assert(row@.skip(0) =~= row@);
            assert((ChessFold { col: 0, ..st_row0 }) == st_row0);
        }
        while j < row.len()
            invariant
                j <= row@.len(),
                col <= 8,
                ksq < 64,
                opp < 64,
                chess_row(row@, m as int, black, st_row0) == chess_row(
                    row@.skip(j as int),
                    m as int,
                    black,
                    mk_fold(feats@, col as int, ksq, opp),
                ),
            decreases row@.len() - j,
        {
            let c = row[j];
            let ghost stj = mk_fold(feats@, col as int, ksq, opp);
            proof {
                assert(row@.skip(j as int)[0] == c);
                assert(row@.skip(j as int).drop_first() =~= row@.skip(j + 1));
            }
            if c >= 49 && c <= 56 {
                let d = c - 48;
                if col + d > 8 {
                    proof {
                        lemma_chess_row_bad(
                            row@.skip(j + 1),
                            m as int,
                            black,
                            chess_apply(stj, m as int, c, black),
                        );
                        lemma_chess_rows_bad(
                            proc.skip(m + 1),
                            m + 1,
                            black,
                            chess_row(row@, m as int, black, st_row0),
                        );
                    }
                    return Err(ParseError::BadBoard);
                }
                col = col + d;
            } else {
                match piece_char_exec(c, black) {
                    None => {
                        proof {
                            lemma_chess_row_bad(
                                row@.skip(j + 1),
                                m as int,
                                black,
                                chess_apply(stj, m as int, c, black),
                            );
                            lemma_chess_rows_bad(
                                proc.skip(m + 1),
                                m + 1,
                                black,
                                chess_row(row@, m as int, black, st_row0),
                            );
                        }
                        return Err(ParseError::BadBoard);
                    },
                    Some(p) => {
                        if m > 7 || col > 7 || feats.len() >= 32 {
                            proof {
                                lemma_chess_row_bad(
                                    row@.skip(j + 1),
                                    m as int,
                                    black,
                                    chess_apply(stj, m as int, c, black),
                                );
                                lemma_chess_rows_bad(
                                    proc.skip(m + 1),
                                    m + 1,
                                    black,
                                    chess_row(row@, m as int, black, st_row0),
                                );
                            }
                            return Err(ParseError::BadBoard);
                        }
                        let sq = 8 * (m as u8) + col;
                        proof {
                            assert(sq < 64 ==> (sq ^ 56) < 64) by (bit_vector);
                        }
                        if p == 5 {
                            ksq = sq;
                        }
                        if p == 13 {
                            opp = sq ^ 56;
                        }
                        feats.push((p, sq));
                        col = col + 1;
                    },
                }
            }
            proof {
                assert(mk_fold(feats@, col as int, ksq, opp) == chess_apply(
                    stj,
                    m as int,
                    c,
                    black,
                ));
            }
            j += 1;
        }
        proof {
            assert(row@.skip(row@.len() as int) =~= Seq::<u8>::empty());
            assert(chess_row(row@, m as int, black, st_row0) == mk_fold(
                feats@,
                col as int,
                ksq,
                opp,
            ));
            assert(chess_rows(proc.skip(m as int), m as int, black, st_row0) == chess_rows(
                proc.skip(m + 1),
                m + 1,
                black,
                mk_fold(feats@, col as int, ksq, opp),
            ));
            if proc.skip(m + 1).len() == 0 {
                assert(chess_rows(proc.skip(m + 1), m + 1, black, mk_fold(feats@, col as int, ksq, opp))
                    == mk_fold(feats@, 0, ksq, opp));
            } else {
                assert((ChessFold { col: 0, ..mk_fold(feats@, col as int, ksq, opp) }) == mk_fold(
                    feats@,
                    0,
                    ksq,
                    opp,
                ));
                assert(chess_rows(proc.skip(m + 1), m + 1, black, mk_fold(feats@, col as int, ksq, opp))
                    == chess_rows(proc.skip(m + 1), m + 1, black, mk_fold(feats@, 0, ksq, opp)));
            }
        }
        m += 1;
    }
    proof {
        assert(proc.skip(spans@.len() as int) =~= Seq::<Seq<u8>>::empty());
    }
    Ok((feats, ksq, opp))
}

impl ChessBoard {
    /// Parses one text record given as raw bytes.
    #[verifier::rlimit(100)]
    pub fn from_text_bytes(b: &[u8]) -> (r: Result<ChessBoard, ParseError>)
        ensures
            match r {
                Ok(bd) => {
                    &&& parse_chess(b@) is Ok
                    &&& bd.occ == occ_of(parse_chess(b@)->Ok_0.feats)
                    &&& decode_feats(bd.occ, bd.pcs@, 0) == parse_chess(b@)->Ok_0.feats
                    &&& forall|k: int|
                        parse_chess(b@)->Ok_0.feats.len() <= k < 32 ==> nibble(bd.pcs@, k) == 0
                    &&& bd.score == parse_chess(b@)->Ok_0.score
                    &&& bd.result == parse_chess(b@)->Ok_0.result
                    &&& bd.ksq == parse_chess(b@)->Ok_0.ksq
                    &&& bd.opp_ksq == parse_chess(b@)->Ok_0.opp_ksq
                    &&& bd.wf_spec()
                },
                Err(e) => parse_chess(b@) == Err::<ChessParseOut, ParseError>(e),
            },
    {
        proof {
            assert(b@.skip(0) =~= b@);
        }
        let i1 = find_byte(b, 0, 124);
        if i1 == b.len() {
            return Err(ParseError::MissingFields);
        }
        let fen = vstd::slice::slice_subrange(b, 0, i1);
        proof {
            assert(fen@ =~= b@.take(i1 as int));
        }
        let ghost rest1 = b@.skip(i1 + 1);
        let i2 = find_byte(b, i1 + 1, 124);
        proof {
            assert(rest1.len() == b@.len() - i1 - 1);
        }
        if i2 == b.len() {
            return Err(ParseError::MissingFields);
        }
        let score_seg = vstd::slice::slice_subrange(b, i1 + 1, i2);
        proof {
            assert(score_seg@ =~= rest1.take(i2 - (i1 + 1)));
        }
        let score_tok = trim_slice(score_seg);
        let ghost rest2 = rest1.skip(i2 - (i1 + 1) + 1);
        let i3 = find_byte(b, i2 + 1, 124);
        proof {
            assert(rest2 =~= b@.skip(i2 + 1));
            assert(rest2.len() == b@.len() - i2 - 1);
            assert(lead_until(rest2, 124) == i3 - (i2 + 1));
        }
        let wdl_seg = vstd::slice::slice_subrange(b, i2 + 1, i3);
        proof {
            assert(wdl_seg@ =~= rest2.take(lead_until(rest2, 124)));
        }
        let wdl_tok = trim_slice(wdl_seg);
        proof {
            assert(fen@.skip(0) =~= fen@);
        }
        let t0 = skip_spaces(fen, 0);
        if t0 == fen.len() {
            return Err(ParseError::MissingFields);
        }
        let b_end = scan_token(fen, t0);
        let board_tok = vstd::slice::slice_subrange(fen, t0, b_end);
        let t1 = skip_spaces(fen, b_end);
        if t1 == fen.len() {
            return Err(ParseError::MissingFields);
        }
        let s_end = scan_token(fen, t1);
        let stm_tok = vstd::slice::slice_subrange(fen, t1, s_end);
        let lit_b: [u8; 1] = [98];
        proof {
            assert(lit_b@ =~= seq![98u8]);
        }
        let black = bytes_eq(stm_tok, lit_b.as_slice());
        let fold = match chess_fold_exec(board_tok, black) {
            Ok(t) => t,
            Err(e) => {
                return Err(e);
            },
        };
        let sc = match parse_i16_token(score_tok) {
            Some(v) => v,
            None => {
                return Err(ParseError::BadScore);
            },
        };
        let code = match outcome_of(wdl_tok) {
            Some(c) => c,
            None => {
                return Err(ParseError::BadOutcome);
            },
        };
        if black && sc == i16::MIN {
            return Err(ParseError::BadScore);
        }
        let feats = fold.0;
        proof {
            lemma_chess_rows_inv(
                if black {
                    split_slash(board_tok@)
                } else {
                    split_slash(board_tok@).reverse()
                },
                0,
                black,
                chess_init(),
            );
        }
        let (occ_p, pcs) = pack_feats(&feats);
        let score = if black {
            -sc
        } else {
            sc
        };
        let result = if black {
            2 - code
        } else {
            code
        };
        Ok(ChessBoard { occ: occ_p, pcs, score, result, ksq: fold.1, opp_ksq: fold.2 })
    }

    /// Parses one text record: board placement, side to move, then score
    /// and outcome behind `|` separators.
    pub fn from_text(s: &str) -> (r: Result<ChessBoard, ParseError>)
        ensures
            match r {
                Ok(bd) => {
                    &&& parse_chess(s.spec_bytes()) is Ok
                    &&& bd.occ == occ_of(parse_chess(s.spec_bytes())->Ok_0.feats)
                    &&& decode_feats(bd.occ, bd.pcs@, 0) == parse_chess(s.spec_bytes())->Ok_0.feats
                    &&& forall|k: int|
                        parse_chess(s.spec_bytes())->Ok_0.feats.len() <= k < 32 ==> nibble(
                            bd.pcs@,
                            k,
                        ) == 0
                    &&& bd.score == parse_chess(s.spec_bytes())->Ok_0.score
                    &&& bd.result == parse_chess(s.spec_bytes())->Ok_0.result
                    &&& bd.ksq == parse_chess(s.spec_bytes())->Ok_0.ksq
                    &&& bd.opp_ksq == parse_chess(s.spec_bytes())->Ok_0.opp_ksq
                    &&& bd.wf_spec()
                },
                Err(e) => parse_chess(s.spec_bytes()) == Err::<ChessParseOut, ParseError>(e),
            },
    {
        ChessBoard::from_text_bytes(s.as_bytes())
    }
}

/// The exact 32-byte little-endian layout of a chess record: occupancy,
/// nibble array, score, outcome code, the two king squares and three
/// reserved bytes.
pub open spec fn chess_bytes(b: ChessBoard) -> Seq<u8> {
    spec_u64_to_le_bytes(b.occ) + b.pcs@ + spec_u16_to_le_bytes(u16_of_i16(b.score)) + seq![
        b.result,
        b.ksq,
        b.opp_ksq,
        0u8,
        0u8,
        0u8,
    ]
}

/// The chess record denoted by a 32-byte buffer.
pub open spec fn chess_of_bytes(s: Seq<u8>) -> ChessBoard {
    ChessBoard {
        occ: spec_u64_from_le_bytes(s.subrange(0, 8)),
        pcs: [
            s[8],
            s[9],
            s[10],
            s[11],
            s[12],
            s[13],
            s[14],
            s[15],
            s[16],
            s[17],
            s[18],
            s[19],
            s[20],
            s[21],
            s[22],
            s[23],
        ],
        score: i16_of_u16(spec_u16_from_le_bytes(s.subrange(24, 26))),
        result: s[26],
        ksq: s[27],
        opp_ksq: s[28],
    }
}

/// Serialising a record and reading the bytes back yields the record.
pub proof fn lemma_chess_bytes_round_trip(b: ChessBoard)
    ensures
        chess_of_bytes(chess_bytes(b)) == b,
{
    lemma_auto_spec_u64_to_from_le_bytes();
    lemma_auto_spec_u16_to_from_le_bytes();
    lemma_i16_u16_round_trip(b.score, 0);
    let s = chess_bytes(b);
    assert(s.subrange(0, 8) =~= spec_u64_to_le_bytes(b.occ));
    assert(s.subrange(24, 26) =~= spec_u16_to_le_bytes(u16_of_i16(b.score)));
    let r = chess_of_bytes(s);
    assert(r.pcs@ =~= b.pcs@);
    assert(r.pcs == b.pcs);
}

impl BulletFormat for ChessBoard {
    const INPUTS: usize = 768;

    const MAX_FEATURES: usize = 32;

    open spec fn wf(self) -> bool {
        self.wf_spec()
    }

    open spec fn score_spec(self) -> i16 {
        self.score
    }

    open spec fn result_code(self) -> u8 {
        self.result
    }

    open spec fn record_bytes(self) -> Seq<u8> {
        chess_bytes(self)
    }

    open spec fn from_bytes_spec(s: Seq<u8>) -> Self {
        chess_of_bytes(s)
    }

    fn score(&self) -> (r: i16) {
        self.score
    }

    fn result_idx(&self) -> (r: usize) {
        self.result as usize
    }

    fn to_bytes(&self) -> (r: Vec<u8>) {
        let mut v = u64_to_le_bytes(self.occ);
        let mut i: usize = 0;
        while i < 16
            invariant
                i <= 16,
                v@ =~= spec_u64_to_le_bytes(self.occ) + self.pcs@.take(i as int),
            decreases 16 - i,
        {
            v.push(self.pcs[i]);
            proof {
                assert(self.pcs@.take(i + 1) =~= self.pcs@.take(i as int).push(self.pcs@[i as int]));
                assert(v@ =~= spec_u64_to_le_bytes(self.occ) + self.pcs@.take(i + 1));
            }
            i += 1;
        }
        let mut t = u16_to_le_bytes(i16_to_u16(self.score));
        v.append(&mut t);
        v.push(self.result);
        v.push(self.ksq);
        v.push(self.opp_ksq);
        v.push(0);
        v.push(0);
        v.push(0);
        proof {
            lemma_auto_spec_u64_to_from_le_bytes();
            lemma_auto_spec_u16_to_from_le_bytes();
            assert(self.pcs@.take(16) =~= self.pcs@);
            assert(v@ =~= chess_bytes(*self));
        }
        v
    }

    fn from_bytes(b: &[u8]) -> (r: Self) {
        let r = ChessBoard {
            occ: u64_from_le_bytes(vstd::slice::slice_subrange(b, 0, 8)),
            pcs: [
                *vstd::slice::slice_index_get(b, 8),
                *vstd::slice::slice_index_get(b, 9),
                *vstd::slice::slice_index_get(b, 10),
                *vstd::slice::slice_index_get(b, 11),
                *vstd::slice::slice_index_get(b, 12),
                *vstd::slice::slice_index_get(b, 13),
                *vstd::slice::slice_index_get(b, 14),
                *vstd::slice::slice_index_get(b, 15),
                *vstd::slice::slice_index_get(b, 16),
                *vstd::slice::slice_index_get(b, 17),
                *vstd::slice::slice_index_get(b, 18),
                *vstd::slice::slice_index_get(b, 19),
                *vstd::slice::slice_index_get(b, 20),
                *vstd::slice::slice_index_get(b, 21),
                *vstd::slice::slice_index_get(b, 22),
                *vstd::slice::slice_index_get(b, 23),
            ],
            score: u16_to_i16(u16_from_le_bytes(vstd::slice::slice_subrange(b, 24, 26))),
            result: *vstd::slice::slice_index_get(b, 26),
            ksq: *vstd::slice::slice_index_get(b, 27),
            opp_ksq: *vstd::slice::slice_index_get(b, 28),
        };
        proof {
            assert(r.pcs@ =~= chess_of_bytes(b@).pcs@);
            assert(r.pcs == chess_of_bytes(b@).pcs);
        }
        r
    }

    fn check_wf(&self) -> (r: bool) {
        self.result <= 2 && crate::bits::count_bits(self.occ) <= 32 && self.ksq < 64
            && self.opp_ksq < 64
    }
}

} // verus!
