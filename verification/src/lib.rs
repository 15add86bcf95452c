//! Compact, fixed-size binary encodings for board-game positions (chess and
//! Ataxx) used to train position-evaluation models.
//!
//! Every supported record shape occupies exactly 32 bytes, so a data file is
//! an unframed array of records.  Records are stored from the perspective of
//! the side to move: when the second player is to move, board occupancy,
//! score sign, outcome code and square indices are all flipped before
//! storage.

use vstd::prelude::*;

mod ataxx;
mod bits;
mod chess;
mod convert;
mod loader;
mod text;

pub use ataxx::{
    ataxx_bytes, ataxx_feats, ataxx_of_bytes, ataxx_text, atx_board, atx_fold_inv, iter_remaining,
    lemma_ataxx_bytes_round_trip, lemma_ataxx_text_ascii, lemma_atx_board_inv,
    lemma_mirror_involution, lemma_parse_ataxx_wf, mirror_spec, parse_ataxx, AtaxxBoard,
    AtaxxBoardIter, AtaxxFold,
};
pub use bits::{
    bb_mirror, bit_squares, decode_feats, lemma_bb_mirror_involution, lemma_decode_index,
    lemma_decode_len, lemma_nibbles_determined, nibble, popcnt64,
};
pub use chess::{
    adj_bbs, all_covered, board_iter_remaining, board_iter_wf, chess_bytes, chess_feats,
    chess_of_bytes, lemma_chess_bytes_round_trip, lemma_parse_chess_kings, parse_chess,
    piece_of, piece_slot, raw_feats, BoardIter, ChessBoard, ChessParseOut,
};
pub use chess::cudad::{
    cudad_iter_remaining, cudad_iter_wf, lemma_cudad_bytes_round_trip, CudADFormat,
    CudADFormatIter,
};
pub use chess::marlin::{
    lemma_marlin_bytes_round_trip, marlin_iter_remaining, marlin_iter_wf, MarlinFormat,
    MarlinFormatIter,
};
pub use convert::{
    bad_piece_code, codes_ok, conv_feats, conv_occ, conv_piece, convert_cudad_batch,
    convert_marlin_batch, convert_marlin_chunked, cudad_converted, flip_piece, last_opp_of,
    last_sq_of, lemma_conversion_deterministic, lemma_cudad_conversion_deterministic,
    marlin_converted, normalize_piece,
};
pub use loader::{
    batch_bounds, data_len, max_batch_size, records_from_bytes, refill_capacity, RECORD_SIZE,
};
pub use text::{
    lemma_outcome_round_trip, lemma_parse_i16_round_trip, lemma_parse_unsigned_round_trip,
    ParseError,
};

verus! {

/// The fatal ways binary data can fail to convert: an occupied square
/// with no piece on any piece bitboard, or a record whose fields are out
/// of range (too many pieces, an unknown outcome code, a score that
/// cannot be negated).  A malformed binary dataset cannot be repaired by
/// guessing, so conversion of the batch stops here.
#[derive(Clone, Copy, Debug, PartialEq, Eq, Structural)]
pub enum ConvError {
    NoPieceFound,
    MalformedRecord,
}

/// Shared behavioural interface of every 32-byte record shape: a
/// side-to-move relative score, an outcome code in `{0, 1, 2}` meaning
/// loss / draw / win for the mover, and a fixed 32-byte serialisation.
pub trait BulletFormat: Sized {
    /// Size of the input layer a record of this type feeds, for the
    /// training consumer.
    const INPUTS: usize;

    /// The most `(piece, square)` pairs a record of this type can hold.
    const MAX_FEATURES: usize;

    /// Structural well-formedness: field ranges that every record produced
    /// by parsing or conversion satisfies.
    spec fn wf(self) -> bool;

    /// The mover-relative centipawn score this record denotes.
    spec fn score_spec(self) -> i16;

    /// The mover-relative outcome code this record denotes.
    spec fn result_code(self) -> u8;

    /// The exact 32-byte little-endian serialisation of this record.
    spec fn record_bytes(self) -> Seq<u8>;

    /// The record denoted by a 32-byte buffer.
    spec fn from_bytes_spec(s: Seq<u8>) -> Self;

    fn score(&self) -> (r: i16)
        requires
            self.wf(),
        ensures
            r == self.score_spec(),
    ;

    fn result_idx(&self) -> (r: usize)
        requires
            self.wf(),
        ensures
            r == self.result_code(),
            r <= 2,
    ;

    /// Every record serialises to exactly 32 bytes.
    fn to_bytes(&self) -> (r: Vec<u8>)
        ensures
            r@ == self.record_bytes(),
            r@.len() == 32,
    ;

    fn from_bytes(b: &[u8]) -> (r: Self)
        requires
            b@.len() == 32,
        ensures
            r == Self::from_bytes_spec(b@),
    ;

    fn check_wf(&self) -> (r: bool)
        ensures
            r == self.wf(),
    ;
}

} // verus!
