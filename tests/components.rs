use chess_movegen::magic::{
    bishop_magics, bishop_occ_bitcount, compute_occ_bb, magic_index, rook_magics,
    rook_occ_bitcount, slider_mask, SliderTable,
};
use chess_movegen::{
    cp_index, get_b_pawn_attack, get_bishop_attack, get_king_attack, get_knight_attack,
    get_pawn_attack, get_queen_attack, get_rook_attack, get_w_pawn_attack, is_same_adiag,
    is_same_col, is_same_ddiag, is_same_diag, is_same_row, sym_index, AttackTables, BitBoard,
    ChessMove, MoveType, PieceType, Side, Square,
};

fn bits(squares: &[usize]) -> u64 {
    squares.iter().fold(0u64, |acc, s| acc | (1u64 << s))
}

#[test]
fn square_wraps_to_board() {
    assert_eq!(Square::new(70).to_index(), 6);
    assert_eq!(Square::new(63).to_u8(), 63);
    let all = Square::iterator();
    assert_eq!(all.len(), 64);
    assert_eq!(all[17].to_index(), 17);
}

#[test]
fn square_geometry() {
    let (a, b) = (Square::new(0), Square::new(9));
    assert!(is_same_ddiag(a, b));
    assert!(is_same_diag(a, b));
    assert!(!is_same_adiag(a, b));
    assert!(is_same_adiag(Square::new(7), Square::new(14)));
    assert!(is_same_row(Square::new(0), Square::new(7)));
    assert!(!is_same_row(Square::new(7), Square::new(8)));
    assert!(is_same_col(Square::new(3), Square::new(59)));
    assert!(!is_same_col(Square::new(3), Square::new(60)));
}

#[test]
fn bitboard_operations() {
    let a = BitBoard::new(0b1011_0000);
    let b = BitBoard::new(0b0110_0000);
    assert_eq!(a.bit_and(&b), BitBoard::new(0b0010_0000));
    assert_eq!(a.bit_or(&b), BitBoard::new(0b1111_0000));
    assert_eq!(a.bit_xor(&b), BitBoard::new(0b1101_0000));
    assert_eq!(a.bit_not(), BitBoard::new(!0b1011_0000u64));
    assert_eq!(a.minus(&b), BitBoard::new(0b1001_0000));
    assert_eq!(a.lsb_index(), Some(4));
    assert_eq!(a.lsb_square().map(|s| s.to_index()), Some(4));
    assert_eq!(BitBoard::new(0).lsb_index(), None);
    assert!(BitBoard::new(0).lsb_square().is_none());
    assert_eq!(a.count_ones(), 3);
    assert_eq!(BitBoard::new(u64::MAX).count_ones(), 64);
    assert!(a.nth_is_not_zero(Square::new(5)));
    assert!(a.nth_is_zero(Square::new(6)));
    assert_eq!(a.pop_bit(Square::new(5)), BitBoard::new(0b1001_0000));
    assert_eq!(a.pop_bit(Square::new(6)), a);
    assert_eq!(a.get_bit(7), BitBoard::new(0b1000_0000));
    assert_eq!(a.get_bit_data(6), 0);
    assert_eq!(a.pop_bit_data(4), 0b1010_0000);
    assert_eq!(BitBoard::nth(Square::new(63)), BitBoard::new(1u64 << 63));
    let mut c = BitBoard::empty();
    assert!(c.is_zero());
    c.set_bit(40);
    assert!(c.is_not_zero());
    assert!(c.contains(40));
    assert_eq!(c.remove(40), BitBoard::empty());
}

#[test]
fn piece_indices() {
    assert_eq!(cp_index((Side::White, PieceType::King)), 0);
    assert_eq!(cp_index((Side::White, PieceType::Pawn)), 5);
    assert_eq!(cp_index((Side::Black, PieceType::Queen)), 7);
    assert_eq!(cp_index((Side::Black, PieceType::Pawn)), 11);
    assert_eq!(sym_index('K'), 0);
    assert_eq!(sym_index('R'), 4);
    assert_eq!(sym_index('n'), 8);
    assert_eq!(sym_index('p'), 11);
    assert_eq!(Side::White.update(), Side::Black);
    assert_eq!(PieceType::iterator().len(), 6);
}

#[test]
fn leaper_attacks() {
    // h1 = 0: knight to f2 (10) and g3 (17); king to g1, h2, g2
    assert_eq!(get_knight_attack(Square::new(0)), BitBoard::new(bits(&[10, 17])));
    assert_eq!(get_king_attack(Square::new(0)), BitBoard::new(bits(&[1, 8, 9])));
    assert_eq!(get_knight_attack(Square::new(27)).count_ones(), 8);
    assert_eq!(get_king_attack(Square::new(27)).count_ones(), 8);
    // e2 = 11: white pawn attacks d3 (20) and f3 (18)
    assert_eq!(get_w_pawn_attack(Square::new(11)), BitBoard::new(bits(&[18, 20])));
    assert_eq!(get_pawn_attack(Square::new(11), Side::White), BitBoard::new(bits(&[18, 20])));
    // e7 = 51: black pawn attacks d6 (44) and f6 (42)
    assert_eq!(get_b_pawn_attack(Square::new(51)), BitBoard::new(bits(&[42, 44])));
    // a pawn on the h-file attacks one square
    assert_eq!(get_w_pawn_attack(Square::new(8)), BitBoard::new(bits(&[17])));
}

#[test]
fn slider_attacks() {
    let empty = BitBoard::new(0);
    assert_eq!(get_rook_attack(Square::new(0), empty), BitBoard::new(0x0101_0101_0101_01FE));
    assert_eq!(get_bishop_attack(Square::new(0), empty), BitBoard::new(0x8040_2010_0804_0200));
    // a blocker on h4 (24) and one on d1 (4) stop the rook on h1
    let blockers = BitBoard::new(bits(&[24, 4, 40]));
    assert_eq!(get_rook_attack(Square::new(0), blockers), BitBoard::new(bits(&[1, 2, 3, 4, 8, 16, 24])));
    let q = get_queen_attack(Square::new(0), blockers);
    assert_eq!(q, get_rook_attack(Square::new(0), blockers).bit_or(&get_bishop_attack(Square::new(0), blockers)));
    assert_eq!(get_rook_attack(Square::new(27), empty).count_ones(), 14);
    assert_eq!(get_bishop_attack(Square::new(27), empty).count_ones(), 13);
}

#[test]
fn magic_tables_match_ray_walks() {
    let tables = AttackTables::new().unwrap();
    let mut occ: u64 = 0x9E37_79B9_7F4A_7C15;
    for s in 0..64usize {
        for _ in 0..20 {
            occ ^= occ << 13;
            occ ^= occ >> 7;
            occ ^= occ << 17;
            let b = BitBoard::new(occ & (occ >> 3));
            let sq = Square::new(s as u8);
            assert_eq!(tables.rook(s, &b), get_rook_attack(sq, b));
            assert_eq!(tables.bishop(s, &b), get_bishop_attack(sq, b));
            assert_eq!(tables.queen(s, &b), get_queen_attack(sq, b));
        }
        assert_eq!(tables.knight(s), get_knight_attack(Square::new(s as u8)));
        assert_eq!(tables.king(s), get_king_attack(Square::new(s as u8)));
        assert_eq!(tables.pawn(Side::Black, s), get_b_pawn_attack(Square::new(s as u8)));
    }
}

#[test]
fn rays_between_squares() {
    let tables = AttackTables::new().unwrap();
    // h1 (0) to h8 (56): h2..h7
    assert_eq!(tables.ray(0, 56), BitBoard::new(bits(&[8, 16, 24, 32, 40, 48])));
    assert_eq!(tables.ray(56, 0), tables.ray(0, 56));
    // h1 to a8 along the long diagonal
    assert_eq!(tables.ray(0, 63), BitBoard::new(bits(&[9, 18, 27, 36, 45, 54])));
    // neighbours and unaligned squares have nothing between them
    assert_eq!(tables.ray(0, 1), BitBoard::new(0));
    assert_eq!(tables.ray(0, 17), BitBoard::new(0));
}

#[test]
fn move_encoding() {
    let m = ChessMove::new(12, 28, MoveType::Normal);
    assert_eq!(m.to_u16(), 12 | (28 << 6));
    assert_eq!(m.source(), 12);
    assert_eq!(m.target(), 28);
    assert_eq!(m.move_type(), MoveType::Normal);
    let c = ChessMove::new(3, 1, MoveType::Castle);
    assert_eq!(c.to_u16(), 3 | (1 << 6) | (0b01 << 14));
    let e = ChessMove::new(35, 44, MoveType::EnPassant);
    assert_eq!(e.to_u16() >> 14, 0b10);
    assert_eq!(e.move_type(), MoveType::EnPassant);
    let q = ChessMove::new(52, 60, MoveType::Promotion(PieceType::Queen));
    assert_eq!(q.to_u16(), 52 | (60 << 6) | (0b1111 << 12));
    let n = ChessMove::new(52, 60, MoveType::Promotion(PieceType::Knight));
    assert_eq!(n.to_u16(), 52 | (60 << 6) | (0b1100 << 12));
    assert_eq!(n.move_type(), MoveType::Promotion(PieceType::Knight));
    let mut r = ChessMove::new(52, 61, MoveType::Promotion(PieceType::Rook));
    assert_eq!(r.move_type(), MoveType::Promotion(PieceType::Rook));
    r.set_source(53);
    r.set_target(62);
    assert_eq!((r.source(), r.target()), (53, 62));
    assert_eq!(r.move_type(), MoveType::Promotion(PieceType::Rook));
    let b = ChessMove::new(9, 1, MoveType::Promotion(PieceType::Bishop));
    assert_eq!(b.move_type(), MoveType::Promotion(PieceType::Bishop));
}

#[test]
fn relevant_masks_leave_out_the_edges() {
    // rook on h1: g1..b1 and h2..h7
    assert_eq!(slider_mask(false, 0), BitBoard::new(bits(&[1, 2, 3, 4, 5, 6, 8, 16, 24, 32, 40, 48])));
    // bishop on d4 (28): its diagonals without the edge squares
    assert_eq!(slider_mask(true, 28).count_ones(), 9);
    let (bb, rb) = (bishop_occ_bitcount(), rook_occ_bitcount());
    for s in 0..64usize {
        assert_eq!(slider_mask(true, s).count_ones() as u64, bb[s]);
        assert_eq!(slider_mask(false, s).count_ones() as u64, rb[s]);
        let m = slider_mask(false, s);
        assert!(!m.contains(s));
    }
}

#[test]
fn occupancies_by_index() {
    let mask = BitBoard::new(bits(&[3, 9, 20, 41]));
    assert_eq!(compute_occ_bb(0, 4, mask), BitBoard::new(0));
    assert_eq!(compute_occ_bb(0b1111, 4, mask), mask);
    assert_eq!(compute_occ_bb(0b0101, 4, mask), BitBoard::new(bits(&[3, 20])));
    assert_eq!(compute_occ_bb(0b1010, 4, mask), BitBoard::new(bits(&[9, 41])));
    // only the lowest `mask_bitcount` squares can be chosen
    assert_eq!(compute_occ_bb(0b1111, 2, mask), BitBoard::new(bits(&[3, 9])));
}

#[test]
fn magic_slots_are_consistent() {
    let magic = rook_magics()[0];
    let mask = slider_mask(false, 0);
    let b = rook_occ_bitcount()[0];
    let mut seen = std::collections::HashMap::new();
    for j in 0..(1usize << b) {
        let occ = compute_occ_bb(j, b, mask);
        let slot = magic_index(magic, occ, b);
        assert!(slot < (1u64 << b));
        let a = get_rook_attack(Square::new(0), occ);
        if let Some(prev) = seen.insert(slot, a) {
            assert_eq!(prev, a);
        }
    }
    assert_eq!(magic_index(1, BitBoard::new(u64::MAX), 64), u64::MAX);
    assert_eq!(magic_index(1, BitBoard::new(1u64 << 63), 1), 1);
    assert!(SliderTable::new(true).is_some());
    assert!(SliderTable::new(false).is_some());
    assert_eq!(bishop_magics().len(), 64);
}

#[test]
fn move_code_layout() {
    let m = ChessMove::new(63, 0, MoveType::Promotion(PieceType::Bishop));
    assert_eq!(m.to_u16(), 63 | (0b1101 << 12));
    let c = ChessMove::new(59, 57, MoveType::Castle);
    assert_eq!(c.to_u16(), 59 + 64 * 57 + 4096 * 4);
}

#[test]
fn default_values() {
    assert_eq!(Square::default().to_index(), 0);
}
