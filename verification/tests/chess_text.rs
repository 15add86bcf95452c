use bulletformat::{BulletFormat, ChessBoard, ParseError};

#[test]
fn chess_parse_start_position() {
    let b = ChessBoard::from_text("rnbqkbnr/pppppppp/8/8/8/8/PPPPPPPP/RNBQKBNR w 0 1 | 31 | 1.0")
        .unwrap();
    assert_eq!(b.occ(), 0xffff_0000_0000_ffff);
    assert_eq!(b.score, 31);
    assert_eq!(b.result, 2);
    assert_eq!(b.result_idx(), 2);
    assert_eq!(b.score(), 31);
    assert_eq!(b.our_ksq(), 4);
    assert_eq!(b.opp_ksq(), 4);
}

#[test]
fn chess_decode_order_is_square_ascending() {
    // A sparse position: white king e1 (4), black king e8 (60), white
    // pawn a2 (8).
    let b = ChessBoard::from_text("4k3/8/8/8/8/8/P7/4K3 w 0 1 | 0 | 0.5").unwrap();
    let mut it = b.into_iter();
    assert_eq!(it.next(), Some((5, 4)));
    assert_eq!(it.next(), Some((0, 8)));
    assert_eq!(it.next(), Some((13, 60)));
    assert_eq!(it.next(), None);
}

#[test]
fn chess_black_perspective_flips_squares() {
    // Black to move: squares flip rank-wise and colours swap, so the
    // black king on e8 becomes the mover's king on e1.
    let b = ChessBoard::from_text("4k3/8/8/8/8/8/P7/4K3 b 0 1 | -40 | 1.0").unwrap();
    assert_eq!(b.score, 40);
    assert_eq!(b.result, 0);
    assert_eq!(b.our_ksq(), 4);
    assert_eq!(b.opp_ksq(), 4);
    let mut it = b.into_iter();
    assert_eq!(it.next(), Some((5, 4)));
    // The former white pawn is now an opponent pawn on a7 (48).
    assert_eq!(it.next(), Some((8, 48)));
    assert_eq!(it.next(), Some((13, 60)));
    assert_eq!(it.next(), None);
}

#[test]
fn chess_parse_errors() {
    assert_eq!(
        ChessBoard::from_text("4k3/8/8/8/8/8/P7/4K3 w 0 1"),
        Err(ParseError::MissingFields)
    );
    // A rank running past the eighth file is structurally malformed.
    assert_eq!(
        ChessBoard::from_text("ppppppppp/8/8/8/8/8/8/4K3 w 0 1 | 0 | 0.5"),
        Err(ParseError::BadBoard)
    );
    // An unrecognised board character is a reported failure, not a
    // silent skip.
    assert_eq!(
        ChessBoard::from_text("4k3/8/8/8/8/8/P?/4K3 w 0 1 | 0 | 0.5"),
        Err(ParseError::BadBoard)
    );
    assert_eq!(
        ChessBoard::from_text("4k3/8/8/8/8/8/P7/4K3 w 0 1 | x | 0.5"),
        Err(ParseError::BadScore)
    );
    assert_eq!(
        ChessBoard::from_text("4k3/8/8/8/8/8/P7/4K3 w 0 1 | 0 | 2.0"),
        Err(ParseError::BadOutcome)
    );
}

#[test]
fn chess_byte_round_trip() {
    let b = ChessBoard::from_text("4k3/8/8/8/8/8/P7/4K3 w 0 1 | -1 | 0.0").unwrap();
    let bytes = b.to_bytes();
    assert_eq!(bytes.len(), 32);
    assert_eq!(ChessBoard::from_bytes(&bytes), b);
}
