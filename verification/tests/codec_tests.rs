use bulletformat::{AtaxxBoard, BulletFormat, ChessBoard, CudADFormat, MarlinFormat};

fn sample_ataxx() -> AtaxxBoard {
    AtaxxBoard::from_text("6o/2x4/1xx4/1xo2oo/2oo3/7/5oo x 3 11 | -570 | 0.0").unwrap()
}

fn sample_chess() -> ChessBoard {
    ChessBoard::from_text("rnbqkbnr/pppppppp/8/8/8/8/PPPPPPPP/RNBQKBNR w 0 1 | 25 | 0.5")
        .unwrap()
}

#[test]
fn fixed_size_is_32_bytes() {
    // Every supported record type serialises to exactly 32 bytes.
    assert_eq!(sample_ataxx().to_bytes().len(), 32);
    assert_eq!(sample_chess().to_bytes().len(), 32);
    let m = MarlinFormat::from_bytes(&sample_chess().to_bytes());
    assert_eq!(m.to_bytes().len(), 32);
    let c = CudADFormat::from_bytes(&sample_chess().to_bytes());
    assert_eq!(c.to_bytes().len(), 32);
}

#[test]
fn byte_round_trips() {
    let a = sample_ataxx();
    assert_eq!(AtaxxBoard::from_bytes(&a.to_bytes()), a);
    let b = sample_chess();
    assert_eq!(ChessBoard::from_bytes(&b.to_bytes()), b);
    let bytes: Vec<u8> = (0u8..32).collect();
    let m = MarlinFormat::from_bytes(&bytes);
    assert_eq!(m.to_bytes(), bytes);
    // The last byte of this legacy shape is reserved padding, written
    // back as zero.
    let mut cud_bytes = bytes.clone();
    cud_bytes[31] = 0;
    let c = CudADFormat::from_bytes(&cud_bytes);
    assert_eq!(c.to_bytes(), cud_bytes);
}

#[test]
fn mirror_involution() {
    // Applying the side-to-move mirror transform twice reproduces the
    // original bit pattern exactly.
    let a = sample_ataxx();
    assert_eq!(a.mirrored().mirrored(), a);
    let flipped = a.mirrored();
    assert_eq!(flipped.score, 570);
    assert_eq!(flipped.result, 2);
    assert_eq!(flipped.bbs[0], a.bbs[1]);
    assert_eq!(flipped.bbs[1], a.bbs[0]);
    assert_eq!(flipped.bbs[2], a.bbs[2]);
}

#[test]
fn feature_count_matches_popcount() {
    // The number of decoded (piece, square) pairs equals the population
    // count of the occupancy mask, and exactly one pair per side is a
    // king, matching the stored king squares.
    let b = sample_chess();
    let mut it = b.into_iter();
    let mut feats = Vec::new();
    while let Some(f) = it.next() {
        feats.push(f);
    }
    assert_eq!(feats.len(), b.occ().count_ones() as usize);
    let kings: Vec<_> = feats.iter().filter(|f| f.0 == 5).collect();
    let opp_kings: Vec<_> = feats.iter().filter(|f| f.0 == 13).collect();
    assert_eq!(kings.len(), 1);
    assert_eq!(opp_kings.len(), 1);
    assert_eq!(kings[0].1, b.our_ksq());
    assert_eq!(opp_kings[0].1 ^ 56, b.opp_ksq());
}

#[test]
fn chess_parse_canonicalises_black() {
    // Same position from both perspectives gives the same record up to
    // score/result perspective.
    let w = ChessBoard::from_text("rnbqkbnr/pppppppp/8/8/8/8/PPPPPPPP/RNBQKBNR w 0 1 | 25 | 1.0")
        .unwrap();
    let b = ChessBoard::from_text("rnbqkbnr/pppppppp/8/8/8/8/PPPPPPPP/RNBQKBNR b 0 1 | -25 | 0.0")
        .unwrap();
    assert_eq!(w, b);
    assert_eq!(w.score, 25);
    assert_eq!(w.result, 2);
    assert_eq!(w.our_ksq(), 4);
    assert_eq!(w.opp_ksq(), 4);
}

#[test]
fn ataxx_from_raw_mirrors() {
    let bbs = [0b11u64, 0b100u64, 0u64];
    let white = AtaxxBoard::from_raw(bbs, 120, 2, false, 14, 1);
    assert_eq!(white.score, 120);
    assert_eq!(white.result, 2);
    assert_eq!(white.bbs[0], 0b11);
    let black = AtaxxBoard::from_raw(bbs, 120, 2, true, 14, 1);
    assert_eq!(black.score, -120);
    assert_eq!(black.result, 0);
    assert_eq!(black.bbs[0], 0b100);
    assert_eq!(black.bbs[1], 0b11);
}

#[test]
fn chess_from_raw_start_position() {
    let wocc: u64 = 0xffff;
    let bocc: u64 = 0xffff_0000_0000_0000;
    let pawns: u64 = 0x00ff_0000_0000_ff00;
    let knights: u64 = 0x4200_0000_0000_0042;
    let bishops: u64 = 0x2400_0000_0000_0024;
    let rooks: u64 = 0x8100_0000_0000_0081;
    let queens: u64 = 0x0800_0000_0000_0008;
    let kings: u64 = 0x1000_0000_0000_0010;
    let bbs = [wocc, bocc, pawns, knights, bishops, rooks, queens, kings];
    let b = ChessBoard::from_raw(bbs, 0, 25, 1).unwrap();
    assert_eq!(b, sample_chess());
    // From the second player's view the mirrored start position is the
    // same record: the first-player score -25 becomes +25 for the mover.
    let b2 = ChessBoard::from_raw(bbs, 1, -25, 1).unwrap();
    assert_eq!(b2, b);
    assert_eq!(b2.score, 25);
}

#[test]
fn chess_from_raw_missing_piece() {
    // An occupied square with no piece on any piece bitboard is a fatal
    // conversion error, even when both kings are present.
    let kings = (1u64 << 4) | (1u64 << 60);
    let bbs = [(1u64 << 4) | 1, 1u64 << 60, 0, 0, 0, 0, 0, kings];
    assert!(ChessBoard::from_raw(bbs, 0, 0, 1).is_err());
}

#[test]
fn chess_from_raw_missing_king() {
    // A position without a king for each side cannot form a canonical
    // record: the king-square fields would be meaningless.
    let bbs = [1u64, 0, 1u64, 0, 0, 0, 0, 0];
    assert!(ChessBoard::from_raw(bbs, 0, 0, 1).is_err());
}
