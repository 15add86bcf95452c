use bulletformat::{AtaxxBoard, ParseError};

#[test]
fn parse() {
    let fens = [
        "6o/2x4/1xx4/1xo2oo/2oo3/7/5oo x 3 11 | -570 | 0.0",
        "6o/7/5x1/3xxxx/4oxx/4ooo/3x1oo o 1 14 | 120 | 0.0",
        "x1xx3/1x1x3/2-o-x1/x1ooxxx/2-o-xx/1oooooo/1oooxoo o 1 30 | -840 | 0.0",
    ];

    for fen in fens {
        let board = AtaxxBoard::from_text(fen).unwrap();
        assert_eq!(board.to_text(), fen);
    }
}

#[test]
fn alternate() {
    let fens = [
        (
            "6b/2r4/1rr4/1rb2bb/2bb3/7/5bb r 3 11 | -570 | 0.0",
            "6o/2x4/1xx4/1xo2oo/2oo3/7/5oo x 3 11 | -570 | 0.0",
        ),
        (
            "6b/7/5r1/3rrrr/4brr/4bbb/3r1bb b 1 14 | 120 | 0.0",
            "6o/7/5x1/3xxxx/4oxx/4ooo/3x1oo o 1 14 | 120 | 0.0",
        ),
        (
            "r1rr3/1r1r3/2-b-r1/r1bbrrr/2-b-rr/1bbbbbb/1bbbrbb b 1 30 | -840 | 0.0",
            "x1xx3/1x1x3/2-o-x1/x1ooxxx/2-o-xx/1oooooo/1oooxoo o 1 30 | -840 | 0.0",
        ),
    ];

    for (alternate, fen) in fens {
        let board = AtaxxBoard::from_text(alternate).unwrap();
        assert_eq!(board.to_text(), fen);
    }
}

#[test]
fn parse_fields() {
    let board = AtaxxBoard::from_text("6o/2x4/1xx4/1xo2oo/2oo3/7/5oo x 3 11 | -570 | 0.0")
        .unwrap();
    assert_eq!(board.stm(), 0);
    assert_eq!(board.halfm(), 3);
    assert_eq!(board.fullm(), 11);
    assert_eq!(board.score, -570);
    assert_eq!(board.result, 0);
}

#[test]
fn parse_mirrors_for_second_player() {
    // Side to move "o": board slots swap, score negates, outcome flips.
    let board = AtaxxBoard::from_text("x5o/7/7/7/7/7/o5x o 12 34 | 75 | 1.0").unwrap();
    assert_eq!(board.stm(), 1);
    assert_eq!(board.score, -75);
    assert_eq!(board.result, 0);
    // Mover slot now holds the "o" squares: bits 0 and 48.
    assert_eq!(board.bbs[0], (1u64 << 0) | (1u64 << 48));
    assert_eq!(board.bbs[1], (1u64 << 6) | (1u64 << 42));
}

#[test]
fn parse_default_counters() {
    let board = AtaxxBoard::from_text("7/7/7/7/7/7/7 x | 0 | 0.5").unwrap();
    assert_eq!(board.halfm(), 0);
    assert_eq!(board.fullm(), 1);
    assert_eq!(board.result, 1);
}

#[test]
fn outcome_spellings() {
    for (tok, code) in [("1.0", 2u8), ("[1.0]", 2), ("1", 2), ("0.5", 1), ("[0.5]", 1),
        ("1/2", 1), ("0.0", 0), ("[0.0]", 0), ("0", 0)]
    {
        let line = format!("7/7/7/7/7/7/7 x 0 1 | 10 | {tok}");
        let board = AtaxxBoard::from_text(&line).unwrap();
        assert_eq!(board.result, code, "token {tok}");
    }
}

#[test]
fn parse_errors() {
    assert_eq!(
        AtaxxBoard::from_text("7/7/7/7/7/7/7 x 0 1"),
        Err(ParseError::MissingFields)
    );
    assert_eq!(
        AtaxxBoard::from_text("7/7/7/7/7/7/7 x 0 1 | 10"),
        Err(ParseError::MissingFields)
    );
    assert_eq!(
        AtaxxBoard::from_text(" | 10 | 0.0"),
        Err(ParseError::MissingFields)
    );
    assert_eq!(
        AtaxxBoard::from_text("7/7/7/7/7/7/7q x 0 1 | 10 | 0.0"),
        Err(ParseError::BadBoard)
    );
    assert_eq!(
        AtaxxBoard::from_text("7/7/7/7/7/7/7 x 0 1 | ten | 0.0"),
        Err(ParseError::BadScore)
    );
    assert_eq!(
        AtaxxBoard::from_text("7/7/7/7/7/7/7 x 0 1 | 10 | 0.7"),
        Err(ParseError::BadOutcome)
    );
}

#[test]
fn boundary_scores() {
    // The most negative score is storable as long as no mirror is due.
    let b = AtaxxBoard::from_text("7/7/7/7/7/7/7 x | -32768 | 0").unwrap();
    assert_eq!(b.score, i16::MIN);
    let b = AtaxxBoard::from_text("7/7/7/7/7/7/7 x | 32767 | 0").unwrap();
    assert_eq!(b.score, i16::MAX);
    // For the second player it cannot be negated: rejected as a score error.
    assert_eq!(
        AtaxxBoard::from_text("7/7/7/7/7/7/7 o | -32768 | 0"),
        Err(ParseError::BadScore)
    );
    assert_eq!(
        AtaxxBoard::from_text("7/7/7/7/7/7/7 x | 32768 | 0"),
        Err(ParseError::BadScore)
    );
}

#[test]
fn out_of_range_counters_default() {
    // A counter that does not fit its field falls back to the default,
    // as the original unwrap-or semantics had it.
    let b = AtaxxBoard::from_text("7/7/7/7/7/7/7 x 999 99999 | 5 | 0.5").unwrap();
    assert_eq!(b.halfm(), 0);
    assert_eq!(b.fullm(), 1);
}

#[test]
fn round_trip_twice_is_stable() {
    // A second parse of the normalised text reproduces the same record
    // and the same text.
    let fen = "x1xx3/1x1x3/2-o-x1/x1ooxxx/2-o-xx/1oooooo/1oooxoo o 1 30 | -840 | 0.0";
    let b1 = AtaxxBoard::from_text(fen).unwrap();
    let t1 = b1.to_text();
    let b2 = AtaxxBoard::from_text(&t1).unwrap();
    assert_eq!(b1, b2);
    assert_eq!(b2.to_text(), t1);
}
