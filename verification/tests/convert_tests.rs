use bulletformat::{
    convert_cudad_batch, convert_marlin_batch, convert_marlin_chunked, BulletFormat,
    CudADFormat, MarlinFormat,
};

/// A legacy record holding only the two kings (e1, e8), with the given
/// packed side byte, score and first-player outcome code.
fn marlin_kings(stm_enp: u8, score: i16, result: u8) -> MarlinFormat {
    let mut bytes = [0u8; 32];
    let occ: u64 = (1 << 4) | (1 << 60);
    bytes[..8].copy_from_slice(&occ.to_le_bytes());
    bytes[8] = 5 | (13 << 4); // white king nibble, then black king nibble
    bytes[24] = stm_enp;
    bytes[28..30].copy_from_slice(&score.to_le_bytes());
    bytes[30] = result;
    MarlinFormat::from_bytes(&bytes)
}

#[test]
fn legacy_second_player_flips_score_and_result() {
    // A legacy record with side-to-move = second player and score +120
    // converts to a canonical record with score -120 and outcome code
    // 2 - original_code.
    let m = marlin_kings(0x80, 120, 0);
    let b = m.to_canonical().unwrap();
    assert_eq!(b.score, -120);
    assert_eq!(b.result, 2);
    // Squares flip rank-wise, colours swap: the mover king lands on e1.
    assert_eq!(b.our_ksq(), 4);
    assert_eq!(b.opp_ksq(), 4);
    assert_eq!(b.occ(), (1 << 4) | (1 << 60));
}

#[test]
fn legacy_first_player_copies_fields() {
    let m = marlin_kings(0, 120, 2);
    let b = m.to_canonical().unwrap();
    assert_eq!(b.score, 120);
    assert_eq!(b.result, 2);
    assert_eq!(b.our_ksq(), 4);
    assert_eq!(b.opp_ksq(), 4);
}

#[test]
fn legacy_bad_outcome_aborts() {
    let m = marlin_kings(0, 0, 7);
    assert!(m.to_canonical().is_err());
}

/// A record whose only piece carries the overloaded alias code, for
/// either side to move.
fn marlin_alias(stm_enp: u8, code: u8) -> MarlinFormat {
    let mut bytes = [0u8; 32];
    bytes[0] = 1; // occupancy: square 0 only
    bytes[8] = code;
    bytes[24] = stm_enp;
    MarlinFormat::from_bytes(&bytes)
}

#[test]
fn alias_code_normalises_to_base_piece() {
    // The overloaded promoted-piece alias (code 6, and 14 for the other
    // colour) converts to its base piece type, the rook.
    let b = marlin_alias(0, 6).to_canonical().unwrap();
    let mut it = b.into_iter();
    assert_eq!(it.next(), Some((3, 0)));
    assert_eq!(it.next(), None);

    let b = marlin_alias(0, 14).to_canonical().unwrap();
    let mut it = b.into_iter();
    assert_eq!(it.next(), Some((11, 0)));

    // Second player to move: the alias also swaps colour, and the
    // square mirrors.
    let b = marlin_alias(0x80, 14).to_canonical().unwrap();
    let mut it = b.into_iter();
    assert_eq!(it.next(), Some((3, 56)));
}

#[test]
fn unrecognised_piece_code_aborts() {
    // Type codes outside the twelve piece codes and the alias are fatal
    // data corruption.
    assert!(marlin_alias(0, 7).to_canonical().is_err());
    assert!(marlin_alias(0, 15).to_canonical().is_err());
    assert!(convert_marlin_batch(&[marlin_alias(0, 7)]).is_err());
}

#[test]
fn order_preserved_under_chunking() {
    // Converting the same batch with chunk counts 1, 2 and 8 produces
    // byte-identical output, in original record order.
    let mut batch = Vec::new();
    for i in 0..100i16 {
        batch.push(marlin_kings(if i % 2 == 0 { 0 } else { 0x80 }, i * 3 - 50, (i % 3) as u8));
    }
    let flat = convert_marlin_batch(&batch).unwrap();
    assert_eq!(flat.len(), batch.len());
    for threads in [1usize, 2, 8] {
        let chunked = convert_marlin_chunked(&batch, threads).unwrap();
        assert_eq!(chunked, flat);
        let bytes_flat: Vec<u8> = flat.iter().flat_map(|b| b.to_bytes()).collect();
        let bytes_chunked: Vec<u8> = chunked.iter().flat_map(|b| b.to_bytes()).collect();
        assert_eq!(bytes_chunked, bytes_flat);
    }
}

#[test]
fn cudad_signed_outcome_remaps() {
    // The signed {-1, 0, 1} outcome becomes {0, 1, 2} (plus the
    // side-to-move flip) on conversion.
    let mut bytes = [0u8; 32];
    let occ: u64 = (1 << 4) | (1 << 60);
    bytes[0] = 5 | (13 << 4);
    bytes[16..24].copy_from_slice(&occ.to_le_bytes());
    bytes[26] = 0x80; // second player to move
    bytes[28..30].copy_from_slice(&200i16.to_le_bytes());
    bytes[30] = 1; // wdl = +1
    let c = CudADFormat::from_bytes(&bytes);
    assert_eq!(c.result_idx(), 0); // 1 - wdl
    let b = c.to_canonical().unwrap();
    assert_eq!(b.score, -200);
    assert_eq!(b.result, 0);

    bytes[30] = 0xff; // wdl = -1
    let c = CudADFormat::from_bytes(&bytes);
    let b = c.to_canonical().unwrap();
    assert_eq!(b.result, 2);

    bytes[30] = 5; // out of range: fatal corruption
    let c = CudADFormat::from_bytes(&bytes);
    assert!(c.to_canonical().is_err());
    assert!(convert_cudad_batch(&[c]).is_err());
}

#[test]
fn legacy_iterator_walks_ascending() {
    let m = marlin_kings(0x80, 0, 1);
    let mut it = m.into_iter();
    assert_eq!(it.next(), Some((5, 4)));
    assert_eq!(it.next(), Some((13, 60)));
    assert_eq!(it.next(), None);
}
