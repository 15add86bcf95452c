//! The canonical 32-byte Ataxx record: three 64-bit bitmasks (mover-owned,
//! opponent-owned and blocked squares of the 7x7 board), a mover-relative
//! score and outcome code, the side-to-move flag and move counters.

use vstd::prelude::*;
use vstd::bytes::*;
use vstd::std_specs::bits::u64_trailing_zeros;
use vstd::string::StringSliceAdditionalSpecFns;

use crate::bits::{
    bit_squares, i16_of_u16, i16_to_u16, nth_bit, u16_of_i16, u16_to_i16,
    lemma_i16_u16_round_trip,
};
use crate::text::{
    ascii_seq, bytes_eq, bytes_to_string, collect_rows, dec_digits, dec_i16, find_byte,
    lemma_ascii_concat, lead_nonspaces,
    lead_spaces, lead_until, outcome_code, outcome_of, parse_i16_spec, parse_i16_token,
    parse_unsigned, parse_unsigned_token, push_dec, push_dec_i16, rows_of, scan_token,
    skip_spaces, split_slash, trim, trim_slice, ParseError,
};
use crate::BulletFormat;

verus! {

broadcast use vstd::array::group_array_axioms;

#[derive(Clone, Copy, Debug, PartialEq, Eq)]
pub struct AtaxxBoard {
    pub bbs: [u64; 3],
    pub score: i16,
    pub result: u8,
    pub stm: bool,
    pub fullm: u16,
    pub halfm: u8,
    pub extra: u8,
}

/// The `(owner, square)` pairs of one bitmask slot.
pub open spec fn ataxx_stage_feats(x: u64, st: u8) -> Seq<(u8, u8)> {
    bit_squares(x).map_values(|sq: u8| (st, sq))
}

/// The full decoded feature sequence of an Ataxx record: mover pieces,
/// then opponent pieces, then blocked squares, each slot in ascending
/// square order.
pub open spec fn ataxx_feats(b: AtaxxBoard) -> Seq<(u8, u8)> {
    ataxx_stage_feats(b.bbs@[0], 0) + ataxx_stage_feats(b.bbs@[1], 1) + ataxx_stage_feats(
        b.bbs@[2],
        2,
    )
}

/// The side-to-move mirror image of `b`: owner slots swapped, score
/// negated, outcome code flipped, everything else untouched.
pub open spec fn mirror_spec(b: AtaxxBoard) -> AtaxxBoard {
    AtaxxBoard {
        bbs: [b.bbs@[1], b.bbs@[0], b.bbs@[2]],
        score: (-(b.score as int)) as i16,
        result: (2 - b.result as int) as u8,
        stm: b.stm,
        fullm: b.fullm,
        halfm: b.halfm,
        extra: b.extra,
    }
}

impl AtaxxBoard {
    /// Structural well-formedness: the outcome code is one of loss, draw,
    /// win; a record still to be mirrored has a score that survives
    /// negation; and the three masks are mutually exclusive and confined
    /// to the 49 squares of the board.
    pub open spec fn wf_spec(self) -> bool {
        &&& self.result <= 2
        &&& self.stm ==> self.score != i16::MIN
        &&& self.bbs@[0] & self.bbs@[1] == 0
        &&& self.bbs@[0] & self.bbs@[2] == 0
        &&& self.bbs@[1] & self.bbs@[2] == 0
        &&& (self.bbs@[0] | self.bbs@[1] | self.bbs@[2]) >> 49u64 == 0
    }

    /// Side to move: 0 for the first player, 1 for the second.
    pub fn stm(&self) -> (r: usize)
        ensures
            r == (if self.stm {
                1int
            } else {
                0int
            }),
    {
        if self.stm {
            1
        } else {
            0
        }
    }

    pub fn halfm(&self) -> (r: u8)
        ensures
            r == self.halfm,
    {
        self.halfm
    }

    pub fn fullm(&self) -> (r: u16)
        ensures
            r == self.fullm,
    {
        self.fullm
    }

    /// Builds a record from first-player-relative raw data and canonicalises
    /// it to the side to move.
    ///
    /// - Bitmask slots are in order first player, second player, gaps;
    ///   they must be mutually exclusive and confined to the board.
    /// - `stm` is false for the first player, true for the second.
    /// - `score` is first-player relative.
    /// - `result` is the outcome code for the first player: 0 loss, 1 draw,
    ///   2 win.
    pub fn from_raw(bbs: [u64; 3], score: i16, result: u8, stm: bool, fullm: u16, halfm: u8) -> (r:
        Self)
        requires
            result <= 2,
            stm ==> score != i16::MIN,
            bbs@[0] & bbs@[1] == 0,
            bbs@[0] & bbs@[2] == 0,
            bbs@[1] & bbs@[2] == 0,
            (bbs@[0] | bbs@[1] | bbs@[2]) >> 49u64 == 0,
        ensures
            r.wf_spec(),
            stm ==> r == mirror_spec(
                (AtaxxBoard { bbs, score, result, stm, fullm, halfm, extra: 0u8 }),
            ),
            !stm ==> r == (AtaxxBoard { bbs, score, result, stm, fullm, halfm, extra: 0u8 }),
    {
        let base = AtaxxBoard { bbs, score, result, stm, fullm, halfm, extra: 0 };
        if stm {
            let r = base.mirrored();
            proof {
                let a = bbs@[0];
                let b = bbs@[1];
                let c = bbs@[2];
                assert(a & b == 0 && a & c == 0 && b & c == 0 && (a | b | c) >> 49u64 == 0 ==> (b
                    & a == 0 && b & c == 0 && a & c == 0 && (b | a | c) >> 49u64 == 0))
                    by (bit_vector);
            }
            r
        } else {
            base
        }
    }

    /// The side-to-move mirror transform of this record.
    pub fn mirrored(&self) -> (r: Self)
        requires
            self.result <= 2,
            self.score != i16::MIN,
        ensures
            r == mirror_spec(*self),
            r.result <= 2,
            r.score != i16::MIN,
    {
        let r = AtaxxBoard {
            bbs: [self.bbs[1], self.bbs[0], self.bbs[2]],
            score: -self.score,
            result: 2 - self.result,
            stm: self.stm,
            fullm: self.fullm,
            halfm: self.halfm,
            extra: self.extra,
        };
        proof {
            assert(r.bbs@ =~= mirror_spec(*self).bbs@);
            assert(r.bbs == mirror_spec(*self).bbs);
        }
        r
    }

    /// Starts the one-shot decode of the record's `(owner, square)` pairs.
    pub fn into_iter(self) -> (r: AtaxxBoardIter)
        ensures
            r.board == self,
            r.stage == 0,
            iter_remaining(r) == ataxx_feats(self),
    {
        AtaxxBoardIter { board: self, stage: 0 }
    }
}

/// Applying the side-to-move mirror transform twice to any well-formed
/// record reproduces the original bit pattern exactly.
pub proof fn lemma_mirror_involution(b: AtaxxBoard)
    requires
        b.result <= 2,
        b.score != i16::MIN,
    ensures
        mirror_spec(mirror_spec(b)) == b,
{
    let mm = mirror_spec(mirror_spec(b));
    assert(mm.bbs@ =~= b.bbs@);
    assert(mm.bbs == b.bbs);
}

/// One-shot decoding iterator over an Ataxx record: yields each occupied
/// square paired with its owner slot, slot by slot, squares ascending.
pub struct AtaxxBoardIter {
    pub board: AtaxxBoard,
    pub stage: usize,
}

/// The pairs this iterator has still to yield.
pub open spec fn iter_remaining(it: AtaxxBoardIter) -> Seq<(u8, u8)> {
    if it.stage == 0 {
        ataxx_feats(it.board)
    } else if it.stage == 1 {
        ataxx_stage_feats(it.board.bbs@[1], 1) + ataxx_stage_feats(it.board.bbs@[2], 2)
    } else if it.stage == 2 {
        ataxx_stage_feats(it.board.bbs@[2], 2)
    } else {
        Seq::empty()
    }
}

impl AtaxxBoardIter {
    pub fn next(&mut self) -> (r: Option<(u8, u8)>)
        requires
            old(self).stage <= 3,
        ensures
            final(self).stage <= 3,
            match r {
                Some(f) => {
                    &&& iter_remaining(*old(self)).len() > 0
                    &&& f == iter_remaining(*old(self))[0]
                    &&& iter_remaining(*final(self)) == iter_remaining(*old(self)).drop_first()
                },
                None => {
                    &&& iter_remaining(*old(self)).len() == 0
                    &&& iter_remaining(*final(self)).len() == 0
                },
            },
    {
        while self.stage <= 2 && self.board.bbs[self.stage] == 0
            invariant
                self.stage <= 3,
                self.board == old(self).board,
                iter_remaining(*self) == iter_remaining(*old(self)),
            decreases 3 - self.stage,
        {
            proof {
                let st = self.stage as int;
                assert(bit_squares(0u64) =~= Seq::<u8>::empty());
                assert(ataxx_stage_feats(0u64, st as u8) =~= Seq::<(u8, u8)>::empty());
                let it2 = AtaxxBoardIter { board: self.board, stage: (self.stage + 1) as usize };
                assert(iter_remaining(it2) =~= iter_remaining(*self));
            }
            self.stage = self.stage + 1;
        }
        if self.stage > 2 {
            return None;
        }
        let x = self.board.bbs[self.stage];
        let sq = x.trailing_zeros() as u8;
        proof {
            vstd::std_specs::bits::axiom_u64_trailing_zeros(x);
        }
        let ghost pre = *self;
        self.board.bbs[self.stage] = x & (x - 1);
        proof {
            let st = self.stage as int;
            let x2 = (x & ((x - 1) as u64)) as u64;
            assert(bit_squares(x) =~= seq![u64_trailing_zeros(x) as u8] + bit_squares(x2));
            assert(ataxx_stage_feats(x, st as u8) =~= seq![
                (st as u8, u64_trailing_zeros(x) as u8),
            ] + ataxx_stage_feats(x2, st as u8));
            assert(iter_remaining(pre)[0] == (st as u8, u64_trailing_zeros(x) as u8));
            assert(iter_remaining(*self) =~= iter_remaining(pre).drop_first());
        }
        Some((self.stage as u8, sq))
    }
}

/// Running state of the board-field scan: the three masks built so far,
/// the next square index, and whether the field has turned out malformed.
pub struct AtaxxFold {
    pub b0: u64,
    pub b1: u64,
    pub b2: u64,
    pub idx: int,
    pub bad: bool,
}

pub open spec fn atx_init() -> AtaxxFold {
    AtaxxFold { b0: 0, b1: 0, b2: 0, idx: 0, bad: false }
}

/// One character of a rank field: `x`/`r` and `o`/`b` place a piece for
/// the two owners, `-` a blocked square, a digit skips empty squares, and
/// anything else (or a board running past the 49th square) is malformed.
pub open spec fn atx_apply(st: AtaxxFold, c: u8) -> AtaxxFold {
    if st.bad {
        st
    } else if c == 120 || c == 114 {
        if st.idx > 48 {
            AtaxxFold { bad: true, ..st }
        } else {
            AtaxxFold { b0: st.b0 | (1u64 << st.idx as u64), idx: st.idx + 1, ..st }
        }
    } else if c == 111 || c == 98 {
        if st.idx > 48 {
            AtaxxFold { bad: true, ..st }
        } else {
            AtaxxFold { b1: st.b1 | (1u64 << st.idx as u64), idx: st.idx + 1, ..st }
        }
    } else if c == 45 {
        if st.idx > 48 {
            AtaxxFold { bad: true, ..st }
        } else {
            AtaxxFold { b2: st.b2 | (1u64 << st.idx as u64), idx: st.idx + 1, ..st }
        }
    } else if 49 <= c <= 55 {
        if st.idx + (c - 48) > 49 {
            AtaxxFold { bad: true, ..st }
        } else {
            AtaxxFold { idx: st.idx + (c - 48), ..st }
        }
    } else {
        AtaxxFold { bad: true, ..st }
    }
}

pub open spec fn atx_row(row: Seq<u8>, st: AtaxxFold) -> AtaxxFold
    decreases row.len(),
{
    if row.len() == 0 {
        st
    } else {
        atx_row(row.drop_first(), atx_apply(st, row[0]))
    }
}

/// The rank fields are given top rank first, so they are applied in
/// reverse: square 0 is the first square of the rank written last.
pub open spec fn atx_rows(rows: Seq<Seq<u8>>, st: AtaxxFold) -> AtaxxFold
    decreases rows.len(),
{
    if rows.len() == 0 {
        st
    } else {
        atx_rows(rows.drop_last(), atx_row(rows.last(), st))
    }
}

/// The mask state denoted by a whole board token.
pub open spec fn atx_board(s: Seq<u8>) -> AtaxxFold {
    atx_rows(split_slash(s), atx_init())
}

proof fn lemma_atx_row_bad(row: Seq<u8>, st: AtaxxFold)
    requires
        st.bad,
    ensures
        atx_row(row, st) == st,
    decreases row.len(),
{
    if row.len() > 0 {
        lemma_atx_row_bad(row.drop_first(), st);
    }
}

/// Masks a reachable scan state can hold: pairwise disjoint bits, all
/// below the square cursor, which never leaves the board.
pub open spec fn atx_fold_inv(st: AtaxxFold) -> bool {
    &&& 0 <= st.idx <= 49
    &&& st.b0 & st.b1 == 0
    &&& st.b0 & st.b2 == 0
    &&& st.b1 & st.b2 == 0
    &&& (st.b0 | st.b1 | st.b2) >> (st.idx as u64) == 0
}

/// Placing a fresh bit at the cursor into any of the three masks keeps
/// them disjoint and below the advanced cursor.
proof fn lemma_mask_place(b0: u64, b1: u64, b2: u64, i: u64, j: u64)
    by (bit_vector)
    requires
        i <= 48,
        j == i + 1,
        b0 & b1 == 0,
        b0 & b2 == 0,
        b1 & b2 == 0,
        (b0 | b1 | b2) >> i == 0,
    ensures
        (b0 | (1u64 << i)) & b1 == 0,
        (b0 | (1u64 << i)) & b2 == 0,
        ((b0 | (1u64 << i)) | b1 | b2) >> j == 0,
        b0 & (b1 | (1u64 << i)) == 0,
        (b1 | (1u64 << i)) & b2 == 0,
        (b0 | (b1 | (1u64 << i)) | b2) >> j == 0,
        b0 & (b2 | (1u64 << i)) == 0,
        b1 & (b2 | (1u64 << i)) == 0,
        (b0 | b1 | (b2 | (1u64 << i))) >> j == 0,
{
}

/// Bits below a cursor stay below any later cursor.
proof fn lemma_mask_widen(u: u64, i: u64, j: u64)
    by (bit_vector)
    requires
        i <= j < 64,
        u >> i == 0,
    ensures
        u >> j == 0,
{
}

proof fn lemma_atx_apply_inv(st: AtaxxFold, c: u8)
    requires
        atx_fold_inv(st),
    ensures
        !atx_apply(st, c).bad ==> atx_fold_inv(atx_apply(st, c)),
{
    let st2 = atx_apply(st, c);
    if !st2.bad && !st.bad {
        let a0 = st.b0;
        let a1 = st.b1;
        let a2 = st.b2;
        let i = st.idx as u64;
        if 49 <= c <= 55 {
            lemma_mask_widen(a0 | a1 | a2, i, st2.idx as u64);
        } else if st.idx <= 48 {
            lemma_mask_place(a0, a1, a2, i, (st.idx + 1) as u64);
        }
    }
}

proof fn lemma_atx_row_inv(row: Seq<u8>, st: AtaxxFold)
    requires
        atx_fold_inv(st),
    ensures
        !atx_row(row, st).bad ==> atx_fold_inv(atx_row(row, st)),
    decreases row.len(),
{
    if row.len() > 0 {
        let st2 = atx_apply(st, row[0]);
        lemma_atx_apply_inv(st, row[0]);
        if st2.bad {
            lemma_atx_row_bad(row.drop_first(), st2);
        } else {
            lemma_atx_row_inv(row.drop_first(), st2);
        }
    }
}

proof fn lemma_atx_rows_inv(rows: Seq<Seq<u8>>, st: AtaxxFold)
    requires
        atx_fold_inv(st),
    ensures
        !atx_rows(rows, st).bad ==> atx_fold_inv(atx_rows(rows, st)),
    decreases rows.len(),
{
    if rows.len() > 0 {
        let st2 = atx_row(rows.last(), st);
        lemma_atx_row_inv(rows.last(), st);
        if st2.bad {
            lemma_atx_rows_bad(rows.drop_last(), st2);
        } else {
            lemma_atx_rows_inv(rows.drop_last(), st2);
        }
    }
}

/// Whatever board token the scanner accepts denotes three mutually
/// exclusive masks confined to the board.
pub proof fn lemma_atx_board_inv(s: Seq<u8>)
    ensures
        !atx_board(s).bad ==> {
            let bd = atx_board(s);
            &&& bd.b0 & bd.b1 == 0
            &&& bd.b0 & bd.b2 == 0
            &&& bd.b1 & bd.b2 == 0
            &&& (bd.b0 | bd.b1 | bd.b2) >> 49u64 == 0
        },
{
    assert(0u64 & 0u64 == 0u64 && (0u64 | 0u64 | 0u64) >> 0u64 == 0u64) by (bit_vector);
    lemma_atx_rows_inv(split_slash(s), atx_init());
    if !atx_board(s).bad {
        let bd = atx_board(s);
        lemma_mask_widen(bd.b0 | bd.b1 | bd.b2, bd.idx as u64, 49u64);
    }
}

proof fn lemma_atx_rows_bad(rows: Seq<Seq<u8>>, st: AtaxxFold)
    requires
        st.bad,
    ensures
        atx_rows(rows, st) == st,
    decreases rows.len(),
{
    if rows.len() > 0 {
        lemma_atx_row_bad(rows.last(), st);
        lemma_atx_rows_bad(rows.drop_last(), st);
    }
}

/// The record denoted by the parsed fields of a text line, after
/// canonicalising to the side to move.  A score of the smallest
/// representable value cannot be negated and is treated as unparseable.
pub open spec fn parse_ataxx_fields(
    board_tok: Seq<u8>,
    stm_tok: Seq<u8>,
    halfm_tok: Seq<u8>,
    fullm_tok: Seq<u8>,
    score_tok: Seq<u8>,
    wdl_tok: Seq<u8>,
) -> Result<AtaxxBoard, ParseError> {
    let stm = stm_tok == seq![111u8] || stm_tok == seq![98u8];
    let halfm = match parse_unsigned(halfm_tok, 255) {
        Some(v) => v as u8,
        None => 0u8,
    };
    let fullm = match parse_unsigned(fullm_tok, 65535) {
        Some(v) => v as u16,
        None => 1u16,
    };
    let bd = atx_board(board_tok);
    if bd.bad {
        Err(ParseError::BadBoard)
    } else {
        match parse_i16_spec(score_tok) {
            None => Err(ParseError::BadScore),
            Some(score) => match outcome_code(wdl_tok) {
                None => Err(ParseError::BadOutcome),
                Some(code) => if stm && score == i16::MIN {
                    Err(ParseError::BadScore)
                } else {
                    let base = AtaxxBoard {
                        bbs: [bd.b0, bd.b1, bd.b2],
                        score,
                        result: code,
                        stm,
                        fullm,
                        halfm,
                        extra: 0u8,
                    };
                    Ok(
                        if stm {
                            mirror_spec(base)
                        } else {
                            base
                        },
                    )
                },
            },
        }
    }
}

/// The record denoted by one text line, or the first way in which the
/// line is malformed.  The line is `<board> <side> [<halfmove>
/// [<fullmove>]] | <score> | <outcome>`; a missing or unparseable
/// half-move count defaults to 0 and full-move count to 1.
pub open spec fn parse_ataxx(s: Seq<u8>) -> Result<AtaxxBoard, ParseError> {
    let i1 = lead_until(s, 124);
    if i1 == s.len() {
        Err(ParseError::MissingFields)
    } else {
        let fen = s.take(i1);
        let rest1 = s.skip(i1 + 1);
        let i2 = lead_until(rest1, 124);
        if i2 == rest1.len() {
            Err(ParseError::MissingFields)
        } else {
            let score_tok = trim(rest1.take(i2));
            let rest2 = rest1.skip(i2 + 1);
            let wdl_tok = trim(rest2.take(lead_until(rest2, 124)));
            let t0 = lead_spaces(fen);
            if t0 == fen.len() {
                Err(ParseError::MissingFields)
            } else {
                let b_end = t0 + lead_nonspaces(fen.skip(t0));
                let board_tok = fen.subrange(t0, b_end);
                let t1 = b_end + lead_spaces(fen.skip(b_end));
                if t1 == fen.len() {
                    Err(ParseError::MissingFields)
                } else {
                    let s_end = t1 + lead_nonspaces(fen.skip(t1));
                    let stm_tok = fen.subrange(t1, s_end);
                    let t2 = s_end + lead_spaces(fen.skip(s_end));
                    let h_end = t2 + lead_nonspaces(fen.skip(t2));
                    let halfm_tok = fen.subrange(t2, h_end);
                    let t3 = h_end + lead_spaces(fen.skip(h_end));
                    let f_end = t3 + lead_nonspaces(fen.skip(t3));
                    let fullm_tok = fen.subrange(t3, f_end);
                    parse_ataxx_fields(board_tok, stm_tok, halfm_tok, fullm_tok, score_tok, wdl_tok)
                }
            }
        }
    }
}

/// Every record the parser accepts is well-formed: its outcome code is
/// in range; when the second player is to move, its score survives
/// negation; and its masks are mutually exclusive on the board — so
/// every parsed record can be re-serialised.
pub proof fn lemma_parse_ataxx_wf(s: Seq<u8>)
    ensures
        parse_ataxx(s) is Ok ==> parse_ataxx(s)->Ok_0.wf_spec(),
{
    if parse_ataxx(s) is Ok {
        let i1 = lead_until(s, 124);
        let fen = s.take(i1);
        let t0 = lead_spaces(fen);
        let b_end = t0 + lead_nonspaces(fen.skip(t0));
        let board_tok = fen.subrange(t0, b_end);
        lemma_atx_board_inv(board_tok);
        let bd = atx_board(board_tok);
        let r = parse_ataxx(s)->Ok_0;
        assert(!bd.bad);
        let b0 = bd.b0;
        let b1 = bd.b1;
        let b2 = bd.b2;
        if r.bbs@[0] == b1 && r.bbs@[1] == b0 {
            assert(b0 & b1 == 0 && b0 & b2 == 0 && b1 & b2 == 0 && (b0 | b1 | b2) >> 49u64 == 0
                ==> (b1 & b0 == 0 && b1 & b2 == 0 && b0 & b2 == 0 && (b1 | b0 | b2) >> 49u64
                == 0)) by (bit_vector);
        }
    }
}

/// Scans a board token into its three masks; errors exactly when the
/// token has an unrecognised character or runs past the last square.
#[verifier::loop_isolation(false)]
#[verifier::rlimit(60)]
fn fold_board(bt: &[u8]) -> (r: Result<(u64, u64, u64), ParseError>)
    ensures
        match r {
            Ok(t) => !atx_board(bt@).bad && atx_board(bt@).b0 == t.0 && atx_board(bt@).b1 == t.1
                && atx_board(bt@).b2 == t.2,
            Err(e) => atx_board(bt@).bad && e == ParseError::BadBoard,
        },
{
    let spans = collect_rows(bt);
    let ghost rows = split_slash(bt@);
    let mut b0: u64 = 0;
    let mut b1: u64 = 0;
    let mut b2: u64 = 0;
    let mut idx: usize = 0;
    let mut k = spans.len();
    proof {
        assert(rows.take(spans@.len() as int) =~= rows);
    }
    while k > 0
        invariant
            k <= spans@.len(),
            spans@.len() == rows.len(),
            rows == split_slash(bt@),
            rows_of(spans@, bt@) == rows,
            forall|q: int| 0 <= q < spans@.len() ==> (#[trigger] spans@[q]).0 <= spans@[q].1
                <= bt@.len(),
            idx <= 49,
            atx_board(bt@) == atx_rows(
                rows.take(k as int),
                (AtaxxFold { b0, b1, b2, idx: idx as int, bad: false }),
            ),
        decreases k,
    {
        k -= 1;
        let (a, b) = spans[k];
        let row = vstd::slice::slice_subrange(bt, a, b);
        proof {
            assert(row@ == rows_of(spans@, bt@)[k as int]);
            assert(rows.take(k + 1).drop_last() =~= rows.take(k as int));
            assert(rows.take(k + 1).last() == rows[k as int]);
        }
        let ghost st_start = AtaxxFold { b0, b1, b2, idx: idx as int, bad: false };
        let mut j: usize = 0;
        proof {
            assert(row@.skip(0) =~= row@);
        }
        while j < row.len()
            invariant
                j <= row@.len(),
                idx <= 49,
                atx_row(row@, st_start) == atx_row(
                    row@.skip(j as int),
                    (AtaxxFold { b0, b1, b2, idx: idx as int, bad: false }),
                ),
            decreases row@.len() - j,
        {
            let c = row[j];
            let ghost stj = AtaxxFold { b0, b1, b2, idx: idx as int, bad: false };
            proof {
                assert(row@.skip(j as int)[0] == c);
                assert(row@.skip(j as int).drop_first() =~= row@.skip(j + 1));
            }
            if c == 120 || c == 114 {
                if idx > 48 {
                    proof {
                        lemma_atx_row_bad(row@.skip(j + 1), atx_apply(stj, c));
                        lemma_atx_rows_bad(rows.take(k as int), atx_row(row@, st_start));
                    }
                    return Err(ParseError::BadBoard);
                }
                b0 = b0 | (1u64 << (idx as u64));
                idx += 1;
            } else if c == 111 || c == 98 {
                if idx > 48 {
                    proof {
                        lemma_atx_row_bad(row@.skip(j + 1), atx_apply(stj, c));
                        lemma_atx_rows_bad(rows.take(k as int), atx_row(row@, st_start));
                    }
                    return Err(ParseError::BadBoard);
                }
                b1 = b1 | (1u64 << (idx as u64));
                idx += 1;
            } else if c == 45 {
                if idx > 48 {
                    proof {
                        lemma_atx_row_bad(row@.skip(j + 1), atx_apply(stj, c));
                        lemma_atx_rows_bad(rows.take(k as int), atx_row(row@, st_start));
                    }
                    return Err(ParseError::BadBoard);
                }
                b2 = b2 | (1u64 << (idx as u64));
                idx += 1;
            } else if 49 <= c && c <= 55 {
                let d = (c - 48) as usize;
                if idx + d > 49 {
                    proof {
                        lemma_atx_row_bad(row@.skip(j + 1), atx_apply(stj, c));
                        lemma_atx_rows_bad(rows.take(k as int), atx_row(row@, st_start));
                    }
                    return Err(ParseError::BadBoard);
                }
                idx += d;
            } else {
                proof {
                    let x = atx_apply(stj, c);
                    assert(x.bad);
                    assert(atx_row(row@.skip(j as int), stj) == atx_row(row@.skip(j + 1), x));
                    lemma_atx_row_bad(row@.skip(j + 1), x);
                    assert(atx_row(row@, st_start) == x);
                    lemma_atx_rows_bad(rows.take(k as int), atx_row(row@, st_start));
                }
                return Err(ParseError::BadBoard);
            }
            proof {
                assert(AtaxxFold { b0, b1, b2, idx: idx as int, bad: false } == atx_apply(stj, c));
            }
            j += 1;
        }
        proof {
            assert(row@.skip(row@.len() as int) =~= Seq::<u8>::empty());
        }
    }
    proof {
        assert(rows.take(0) =~= Seq::<Seq<u8>>::empty());
    }
    Ok((b0, b1, b2))
}

impl AtaxxBoard {
    /// Parses one text record given as raw bytes.
    #[verifier::rlimit(60)]
    pub fn from_text_bytes(b: &[u8]) -> (r: Result<AtaxxBoard, ParseError>)
        ensures
            r == parse_ataxx(b@),
    {
        proof {
            assert(b@.skip(0) =~= b@);
        }
        let i1 = find_byte(b, 0, 124);
        if i1 == b.len() {
            return Err(ParseError::MissingFields);
        }
        let fen = vstd::slice::slice_subrange(b, 0, i1);
        proof {
            assert(fen@ =~= b@.take(i1 as int));
        }
        let ghost rest1 = b@.skip(i1 + 1);
        let i2 = find_byte(b, i1 + 1, 124);
        proof {
            assert(rest1.len() == b@.len() - i1 - 1);
        }
        if i2 == b.len() {
            return Err(ParseError::MissingFields);
        }
        let score_seg = vstd::slice::slice_subrange(b, i1 + 1, i2);
        proof {
            assert(score_seg@ =~= rest1.take(i2 - (i1 + 1)));
        }
        let score_tok = trim_slice(score_seg);
        let ghost rest2 = rest1.skip(i2 - (i1 + 1) + 1);
        let i3 = find_byte(b, i2 + 1, 124);
        proof {
            assert(rest2 =~= b@.skip(i2 + 1));
            assert(rest2.len() == b@.len() - i2 - 1);
            assert(lead_until(rest2, 124) == i3 - (i2 + 1));
        }
        let wdl_seg = vstd::slice::slice_subrange(b, i2 + 1, i3);
        proof {
            assert(wdl_seg@ =~= rest2.take(lead_until(rest2, 124)));
        }
        let wdl_tok = trim_slice(wdl_seg);
        proof {
            assert(fen@.skip(0) =~= fen@);
        }
        let t0 = skip_spaces(fen, 0);
        if t0 == fen.len() {
            return Err(ParseError::MissingFields);
        }
        let b_end = scan_token(fen, t0);
        let board_tok = vstd::slice::slice_subrange(fen, t0, b_end);
        let t1 = skip_spaces(fen, b_end);
        if t1 == fen.len() {
            return Err(ParseError::MissingFields);
        }
        let s_end = scan_token(fen, t1);
        let stm_tok = vstd::slice::slice_subrange(fen, t1, s_end);
        let t2 = skip_spaces(fen, s_end);
        let h_end = scan_token(fen, t2);
        let halfm_tok = vstd::slice::slice_subrange(fen, t2, h_end);
        let t3 = skip_spaces(fen, h_end);
        let f_end = scan_token(fen, t3);
        let fullm_tok = vstd::slice::slice_subrange(fen, t3, f_end);
        let lit_o: [u8; 1] = [111];
        let lit_b: [u8; 1] = [98];
        proof {
            assert(lit_o@ =~= seq![111u8]);
            assert(lit_b@ =~= seq![98u8]);
        }
        let stm = bytes_eq(stm_tok, lit_o.as_slice()) || bytes_eq(stm_tok, lit_b.as_slice());
        let halfm: u8 = match parse_unsigned_token(halfm_tok, 255) {
            Some(v) => v as u8,
            None => 0,
        };
        let fullm: u16 = match parse_unsigned_token(fullm_tok, 65535) {
            Some(v) => v as u16,
            None => 1,
        };
        let bd = match fold_board(board_tok) {
            Ok(t) => t,
            Err(e) => {
                return Err(e);
            },
        };
        let score = match parse_i16_token(score_tok) {
            Some(v) => v,
            None => {
                return Err(ParseError::BadScore);
            },
        };
        let code = match outcome_of(wdl_tok) {
            Some(c) => c,
            None => {
                return Err(ParseError::BadOutcome);
            },
        };
        if stm && score == i16::MIN {
            return Err(ParseError::BadScore);
        }
        let base = AtaxxBoard {
            bbs: [bd.0, bd.1, bd.2],
            score,
            result: code,
            stm,
            fullm,
            halfm,
            extra: 0,
        };
        proof {
            let sbase = (AtaxxBoard {
                bbs: [atx_board(board_tok@).b0, atx_board(board_tok@).b1, atx_board(
                    board_tok@,
                ).b2],
                score,
                result: code,
                stm,
                fullm,
                halfm,
                extra: 0u8,
            });
            assert(base.bbs@ =~= sbase.bbs@);
            assert(base.bbs == sbase.bbs);
        }
        if stm {
            Ok(base.mirrored())
        } else {
            Ok(base)
        }
    }

    /// Parses one text record: board placement, side to move, move
    /// counters, then score and outcome behind `|` separators.
    pub fn from_text(s: &str) -> (r: Result<AtaxxBoard, ParseError>)
        ensures
            r == parse_ataxx(s.spec_bytes()),
    {
        AtaxxBoard::from_text_bytes(s.as_bytes())
    }
}

/// The printed form of an outcome code: `0.0` loss, `0.5` draw, `1.0` win.
pub open spec fn outcome_text(c: u8) -> Seq<u8> {
    if c == 2 {
        seq![49u8, 46u8, 48u8]
    } else if c == 1 {
        seq![48u8, 46u8, 53u8]
    } else {
        seq![48u8, 46u8, 48u8]
    }
}

/// The remaining text of rank `i` from file `j` on, carrying a pending
/// count of empty squares: pieces print their letter, runs of empty
/// squares print their length.
pub open spec fn atx_row_step(m0: u64, m1: u64, m2: u64, i: int, j: int, empty: int) -> Seq<u8>
    decreases 7 - j,
{
    if j < 0 || j >= 7 {
        if empty > 0 {
            seq![(48 + empty) as u8]
        } else {
            Seq::empty()
        }
    } else {
        let sq = 7 * i + j;
        let pc: u8 = if nth_bit(m0, sq) {
            120
        } else if nth_bit(m1, sq) {
            111
        } else if nth_bit(m2, sq) {
            45
        } else {
            0
        };
        if pc == 0 {
            atx_row_step(m0, m1, m2, i, j + 1, empty + 1)
        } else {
            (if empty > 0 {
                seq![(48 + empty) as u8]
            } else {
                Seq::empty()
            }) + seq![pc] + atx_row_step(m0, m1, m2, i, j + 1, 0)
        }
    }
}

/// The text of ranks `i` down to rank 0, top rank first, `/`-separated.
pub open spec fn atx_rows_text(m0: u64, m1: u64, m2: u64, i: int) -> Seq<u8>
    decreases i,
{
    if i <= 0 {
        atx_row_step(m0, m1, m2, 0, 0, 0)
    } else {
        atx_row_step(m0, m1, m2, i, 0, 0) + seq![47u8] + atx_rows_text(m0, m1, m2, i - 1)
    }
}

/// The normalised text form of a record: the board as seen by the first
/// player, the side to move, the move counters, then score and outcome in
/// the first player's perspective.
pub open spec fn ataxx_tail(stm: bool, halfm: u8, fullm: u16, score: i16, result: u8) -> Seq<
    u8,
> {
    seq![32u8] + (if stm {
        seq![111u8]
    } else {
        seq![120u8]
    }) + seq![32u8] + dec_digits(halfm as nat) + seq![32u8] + dec_digits(fullm as nat) + seq![
        32u8,
        124u8,
        32u8,
    ] + dec_i16(score) + seq![32u8, 124u8, 32u8] + outcome_text(result)
}

pub open spec fn ataxx_text(b: AtaxxBoard) -> Seq<u8> {
    let m = if b.stm {
        mirror_spec(b)
    } else {
        b
    };
    atx_rows_text(m.bbs@[0], m.bbs@[1], m.bbs@[2], 6) + ataxx_tail(
        b.stm,
        b.halfm,
        b.fullm,
        m.score,
        m.result,
    )
}

/// Appends the board field of a canonicalised record to `v`.
#[verifier::loop_isolation(false)]
#[verifier::rlimit(60)]
fn push_board(v: &mut Vec<u8>, m0: u64, m1: u64, m2: u64)
    ensures
        final(v)@ == old(v)@ + atx_rows_text(m0, m1, m2, 6),
{
    let ghost v0 = old(v)@;
    let mut r: usize = 0;
    {
        while r < 7
            invariant
                r <= 7,
                v0.len() <= v@.len(),
                v0 =~= v@.take(v0.len() as int),
                r < 7 ==> atx_rows_text(m0, m1, m2, 6) == v@.skip(v0.len() as int) + (if r == 0 {
                    Seq::<u8>::empty()
                } else {
                    seq![47u8]
                }) + atx_rows_text(m0, m1, m2, 6 - r),
                r == 7 ==> v@.skip(v0.len() as int) == atx_rows_text(m0, m1, m2, 6),
            decreases 7 - r,
        {
            let ghost v_sep = v@;
            if r > 0 {
                v.push(47);
            }
            let i = 6 - r;
            let ghost v_row = v@;
            let mut j: usize = 0;
            let mut empty: u8 = 0;
            while j < 7
                invariant
                    j <= 7,
                    empty <= j,
                    v_row.len() <= v@.len(),
                    v_row =~= v@.take(v_row.len() as int),
                    atx_row_step(m0, m1, m2, i as int, 0, 0) == v@.skip(v_row.len() as int)
                        + atx_row_step(m0, m1, m2, i as int, j as int, empty as int),
                decreases 7 - j,
            {
                let ghost v_pre = v@;
                let ghost e0 = empty as int;
                let sq = (7 * i + j) as u64;
                let pc: u8 = if (m0 >> sq) & 1 == 1 {
                    120
                } else if (m1 >> sq) & 1 == 1 {
                    111
                } else if (m2 >> sq) & 1 == 1 {
                    45
                } else {
                    0
                };
                if pc == 0 {
                    empty += 1;
                } else {
                    if empty > 0 {
                        v.push(48 + empty);
                    }
                    v.push(pc);
                    empty = 0;
                }
                proof {
                    assert(v@.take(v_row.len() as int) =~= v_pre.take(v_row.len() as int));
                    if pc != 0 {
                        assert(v@.skip(v_row.len() as int) =~= v_pre.skip(v_row.len() as int)
                            + (if e0 > 0 {
                            seq![(48 + e0) as u8]
                        } else {
                            Seq::<u8>::empty()
                        }) + seq![pc]);
                    }
                }
                j += 1;
            }
            if empty > 0 {
                v.push(48 + empty);
            }
            proof {
                assert(atx_row_step(m0, m1, m2, i as int, 0, 0) =~= v@.skip(v_row.len() as int));
                assert(v@.take(v_row.len() as int) =~= v_row);
                assert(v_row.skip(v0.len() as int) =~= v_sep.skip(v0.len() as int) + (if r == 0 {
                    Seq::<u8>::empty()
                } else {
                    seq![47u8]
                }));
                assert(v@.skip(v0.len() as int) =~= v_sep.skip(v0.len() as int) + (if r == 0 {
                    Seq::<u8>::empty()
                } else {
                    seq![47u8]
                }) + atx_row_step(m0, m1, m2, i as int, 0, 0));
                assert(v0 =~= v@.take(v0.len() as int));
                if i > 0 {
                    assert(atx_rows_text(m0, m1, m2, 6) =~= v@.skip(v0.len() as int) + seq![47u8]
                        + atx_rows_text(m0, m1, m2, i - 1));
                } else {
                    assert(atx_rows_text(m0, m1, m2, 6) =~= v@.skip(v0.len() as int));
                }
            }
            r += 1;
        }
    }
    proof {
        assert(v@ =~= v0 + atx_rows_text(m0, m1, m2, 6));
    }
}

proof fn lemma_row_step_ascii(m0: u64, m1: u64, m2: u64, i: int, j: int, empty: int)
    requires
        0 <= empty <= j <= 7,
    ensures
        ascii_seq(atx_row_step(m0, m1, m2, i, j, empty)),
    decreases 7 - j,
{
    if !(j < 0 || j >= 7) {
        let sq = 7 * i + j;
        let pc: u8 = if nth_bit(m0, sq) {
            120
        } else if nth_bit(m1, sq) {
            111
        } else if nth_bit(m2, sq) {
            45
        } else {
            0
        };
        if pc == 0 {
            lemma_row_step_ascii(m0, m1, m2, i, j + 1, empty + 1);
        } else {
            lemma_row_step_ascii(m0, m1, m2, i, j + 1, 0);
            lemma_ascii_concat(
                if empty > 0 {
                    seq![(48 + empty) as u8]
                } else {
                    Seq::<u8>::empty()
                },
                seq![pc],
            );
            lemma_ascii_concat(
                (if empty > 0 {
                    seq![(48 + empty) as u8]
                } else {
                    Seq::<u8>::empty()
                }) + seq![pc],
                atx_row_step(m0, m1, m2, i, j + 1, 0),
            );
        }
    }
}

proof fn lemma_rows_text_ascii(m0: u64, m1: u64, m2: u64, i: int)
    ensures
        ascii_seq(atx_rows_text(m0, m1, m2, i)),
    decreases i,
{
    lemma_row_step_ascii(m0, m1, m2, if i <= 0 {
        0
    } else {
        i
    }, 0, 0);
    if i > 0 {
        lemma_rows_text_ascii(m0, m1, m2, i - 1);
        lemma_ascii_concat(atx_row_step(m0, m1, m2, i, 0, 0), seq![47u8]);
        lemma_ascii_concat(
            atx_row_step(m0, m1, m2, i, 0, 0) + seq![47u8],
            atx_rows_text(m0, m1, m2, i - 1),
        );
    }
}

/// Every byte of a record's text form is an ASCII code point, so the
/// `String` rendering carries it character for character.
pub proof fn lemma_ataxx_text_ascii(b: AtaxxBoard)
    ensures
        ascii_seq(ataxx_text(b)),
{
    let m = if b.stm {
        mirror_spec(b)
    } else {
        b
    };
    lemma_rows_text_ascii(m.bbs@[0], m.bbs@[1], m.bbs@[2], 6);
    crate::text::lemma_dec_digits_ascii(b.halfm as nat);
    crate::text::lemma_dec_digits_ascii(b.fullm as nat);
    crate::text::lemma_dec_i16_ascii(m.score);
    let s1 = atx_rows_text(m.bbs@[0], m.bbs@[1], m.bbs@[2], 6);
    let s2 = seq![32u8];
    let s3 = if b.stm {
        seq![111u8]
    } else {
        seq![120u8]
    };
    let s5 = dec_digits(b.halfm as nat);
    let s7 = dec_digits(b.fullm as nat);
    let s8 = seq![32u8, 124u8, 32u8];
    let s9 = dec_i16(m.score);
    let s11 = outcome_text(m.result);
    lemma_ascii_concat(s2, s3);
    lemma_ascii_concat(s2 + s3, s2);
    lemma_ascii_concat(s2 + s3 + s2, s5);
    lemma_ascii_concat(s2 + s3 + s2 + s5, s2);
    lemma_ascii_concat(s2 + s3 + s2 + s5 + s2, s7);
    lemma_ascii_concat(s2 + s3 + s2 + s5 + s2 + s7, s8);
    lemma_ascii_concat(s2 + s3 + s2 + s5 + s2 + s7 + s8, s9);
    lemma_ascii_concat(s2 + s3 + s2 + s5 + s2 + s7 + s8 + s9, s8);
    lemma_ascii_concat(s2 + s3 + s2 + s5 + s2 + s7 + s8 + s9 + s8, s11);
    lemma_ascii_concat(s1, ataxx_tail(b.stm, b.halfm, b.fullm, m.score, m.result));
}

/// Appends the scalar fields of a record to its text form: side token,
/// move counters, score and outcome, with their separators.
#[verifier::rlimit(100)]
fn push_ataxx_tail(v: &mut Vec<u8>, stm: bool, halfm: u8, fullm: u16, score: i16, result: u8)
    ensures
        final(v)@ == old(v)@ + ataxx_tail(stm, halfm, fullm, score, result),
{
    v.push(32);
    v.push(if stm {
        111
    } else {
        120
    });
    v.push(32);
    push_dec(v, halfm as u32);
    v.push(32);
    push_dec(v, fullm as u32);
    v.push(32);
    v.push(124);
    v.push(32);
    push_dec_i16(v, score);
    v.push(32);
    v.push(124);
    v.push(32);
    if result == 2 {
        v.push(49);
        v.push(46);
        v.push(48);
    } else if result == 1 {
        v.push(48);
        v.push(46);
        v.push(53);
    } else {
        v.push(48);
        v.push(46);
        v.push(48);
    }
    proof {
        assert(v@ =~= old(v)@ + ataxx_tail(stm, halfm, fullm, score, result));
    }
}

impl AtaxxBoard {
    /// Serialises the record back to its normalised text form, as bytes.
    #[verifier::rlimit(100)]
    pub fn to_text_bytes(&self) -> (r: Vec<u8>)
        requires
            self.wf_spec(),
        ensures
            r@ == ataxx_text(*self),
    {
        let m = if self.stm {
            self.mirrored()
        } else {
            *self
        };
        let mut v: Vec<u8> = Vec::new();
        push_board(&mut v, m.bbs[0], m.bbs[1], m.bbs[2]);
        push_ataxx_tail(&mut v, self.stm, self.halfm, self.fullm, m.score, m.result);
        proof {
            assert(v@ =~= ataxx_text(*self));
        }
        v
    }

    /// Serialises the record back to its normalised text form.
    pub fn to_text(&self) -> (r: String)
        requires
            self.wf_spec(),
        ensures
            r@.len() == ataxx_text(*self).len(),
            forall|i: int|
                0 <= i < r@.len() ==> r@[i] == (#[trigger] ataxx_text(*self)[i]) as char,
    {
        let v = self.to_text_bytes();
        proof {
            lemma_ataxx_text_ascii(*self);
        }
        bytes_to_string(&v)
    }
}

/// The exact 32-byte little-endian layout of an Ataxx record: the three
/// bitmasks, the score, the outcome code, the side flag, the full-move
/// counter, the half-move counter and one reserved byte.
pub open spec fn ataxx_bytes(b: AtaxxBoard) -> Seq<u8> {
    spec_u64_to_le_bytes(b.bbs@[0]) + spec_u64_to_le_bytes(b.bbs@[1]) + spec_u64_to_le_bytes(
        b.bbs@[2],
    ) + spec_u16_to_le_bytes(u16_of_i16(b.score)) + seq![
        b.result,
        (if b.stm {
            1u8
        } else {
            0u8
        }),
    ] + spec_u16_to_le_bytes(b.fullm) + seq![b.halfm, b.extra]
}

/// The Ataxx record denoted by a 32-byte buffer.
pub open spec fn ataxx_of_bytes(s: Seq<u8>) -> AtaxxBoard {
    AtaxxBoard {
        bbs: [
            spec_u64_from_le_bytes(s.subrange(0, 8)),
            spec_u64_from_le_bytes(s.subrange(8, 16)),
            spec_u64_from_le_bytes(s.subrange(16, 24)),
        ],
        score: i16_of_u16(spec_u16_from_le_bytes(s.subrange(24, 26))),
        result: s[26],
        stm: s[27] == 1,
        fullm: spec_u16_from_le_bytes(s.subrange(28, 30)),
        halfm: s[30],
        extra: s[31],
    }
}

/// Serialising a record and reading the bytes back yields the record.
pub proof fn lemma_ataxx_bytes_round_trip(b: AtaxxBoard)
    ensures
        ataxx_of_bytes(ataxx_bytes(b)) == b,
{
    lemma_auto_spec_u64_to_from_le_bytes();
    lemma_auto_spec_u16_to_from_le_bytes();
    lemma_i16_u16_round_trip(b.score, 0);
    let s = ataxx_bytes(b);
    assert(s.subrange(0, 8) =~= spec_u64_to_le_bytes(b.bbs@[0]));
    assert(s.subrange(8, 16) =~= spec_u64_to_le_bytes(b.bbs@[1]));
    assert(s.subrange(16, 24) =~= spec_u64_to_le_bytes(b.bbs@[2]));
    assert(s.subrange(24, 26) =~= spec_u16_to_le_bytes(u16_of_i16(b.score)));
    assert(s.subrange(28, 30) =~= spec_u16_to_le_bytes(b.fullm));
    let r = ataxx_of_bytes(s);
    assert(r.bbs@ =~= b.bbs@);
    assert(r.bbs == b.bbs);
}

impl BulletFormat for AtaxxBoard {
    const INPUTS: usize = 147;

    const MAX_FEATURES: usize = 49;

    open spec fn wf(self) -> bool {
        self.wf_spec()
    }

    open spec fn score_spec(self) -> i16 {
        self.score
    }

    open spec fn result_code(self) -> u8 {
        self.result
    }

    open spec fn record_bytes(self) -> Seq<u8> {
        ataxx_bytes(self)
    }

    open spec fn from_bytes_spec(s: Seq<u8>) -> Self {
        ataxx_of_bytes(s)
    }

    fn score(&self) -> (r: i16) {
        self.score
    }

    fn result_idx(&self) -> (r: usize) {
        self.result as usize
    }

    fn to_bytes(&self) -> (r: Vec<u8>) {
        let mut v = u64_to_le_bytes(self.bbs[0]);
        let mut t = u64_to_le_bytes(self.bbs[1]);
        v.append(&mut t);
        let mut t = u64_to_le_bytes(self.bbs[2]);
        v.append(&mut t);
        let mut t = u16_to_le_bytes(i16_to_u16(self.score));
        v.append(&mut t);
        v.push(self.result);
        v.push(if self.stm {
            1
        } else {
            0
        });
        let mut t = u16_to_le_bytes(self.fullm);
        v.append(&mut t);
        v.push(self.halfm);
        v.push(self.extra);
        proof {
            lemma_auto_spec_u64_to_from_le_bytes();
            lemma_auto_spec_u16_to_from_le_bytes();
            assert(v@ =~= ataxx_bytes(*self));
        }
        v
    }

    fn from_bytes(b: &[u8]) -> (r: Self) {
        let r = AtaxxBoard {
            bbs: [
                u64_from_le_bytes(vstd::slice::slice_subrange(b, 0, 8)),
                u64_from_le_bytes(vstd::slice::slice_subrange(b, 8, 16)),
                u64_from_le_bytes(vstd::slice::slice_subrange(b, 16, 24)),
            ],
            score: u16_to_i16(u16_from_le_bytes(vstd::slice::slice_subrange(b, 24, 26))),
            result: *vstd::slice::slice_index_get(b, 26),
            stm: *vstd::slice::slice_index_get(b, 27) == 1,
            fullm: u16_from_le_bytes(vstd::slice::slice_subrange(b, 28, 30)),
            halfm: *vstd::slice::slice_index_get(b, 30),
            extra: *vstd::slice::slice_index_get(b, 31),
        };
        proof {
            assert(r.bbs@ =~= ataxx_of_bytes(b@).bbs@);
            assert(r.bbs == ataxx_of_bytes(b@).bbs);
        }
        r
    }

    fn check_wf(&self) -> (r: bool) {
        self.result <= 2 && (!self.stm || self.score != i16::MIN) && self.bbs[0] & self.bbs[1]
            == 0 && self.bbs[0] & self.bbs[2] == 0 && self.bbs[1] & self.bbs[2] == 0 && (
        self.bbs[0] | self.bbs[1] | self.bbs[2]) >> 49u64 == 0
    }
}

} // verus!
