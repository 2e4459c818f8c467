use chess_movegen::{
    generate_moves, AttackTables, BitBoard, ChessBoard, ChessMove, ChessPiece, MoveType, PieceType,
    PositionError, Side, Square, cp_index, sym_index,
};

fn piece_of_char(c: char) -> ChessPiece {
    let side = if c.is_ascii_uppercase() { Side::White } else { Side::Black };
    let t = match c.to_ascii_lowercase() {
        'k' => PieceType::King,
        'q' => PieceType::Queen,
        'n' => PieceType::Knight,
        'b' => PieceType::Bishop,
        'r' => PieceType::Rook,
        _ => PieceType::Pawn,
    };
    (side, t)
}

/// Square index of a square name such as "e4": h1 = 0, a1 = 7, a8 = 63.
fn sq(name: &str) -> usize {
    let b = name.as_bytes();
    let file = (b[0] - b'a') as usize;
    let rank = (b[1] - b'1') as usize;
    rank * 8 + (7 - file)
}

fn try_from_parts(
    tables: &AttackTables,
    mailbox: [Option<ChessPiece>; 64],
    castle: [bool; 4],
    ep: Option<usize>,
    side: Side,
    clock: u16,
) -> Result<ChessBoard, PositionError> {
    let mut bbs = [BitBoard::new(0); 12];
    for s in 0..64 {
        if let Some(p) = mailbox[s] {
            bbs[cp_index(p)].set_bit(s);
        }
    }
    let ep_bb = match ep {
        Some(e) => BitBoard::new(1u64 << e),
        None => BitBoard::new(0),
    };
    ChessBoard::from_parts(tables, bbs, mailbox, castle, ep_bb, side, clock)
}

fn try_fen(tables: &AttackTables, fen: &str) -> Result<ChessBoard, PositionError> {
    let fields: Vec<&str> = fen.split_whitespace().collect();
    let mut mailbox: [Option<ChessPiece>; 64] = [None; 64];
    for (i, rank_text) in fields[0].split('/').enumerate() {
        let rank = 7 - i;
        let mut file = 0usize;
        for c in rank_text.chars() {
            if let Some(d) = c.to_digit(10) {
                file += d as usize;
            } else {
                let _ = sym_index(c);
                mailbox[rank * 8 + (7 - file)] = Some(piece_of_char(c));
                file += 1;
            }
        }
    }
    let side = if fields[1] == "w" { Side::White } else { Side::Black };
    let castle = [
        fields[2].contains('K'),
        fields[2].contains('Q'),
        fields[2].contains('k'),
        fields[2].contains('q'),
    ];
    let ep = if fields[3] == "-" { None } else { Some(sq(fields[3])) };
    let clock: u16 = fields.get(4).map(|x| x.parse().unwrap()).unwrap_or(0);
    try_from_parts(tables, mailbox, castle, ep, side, clock)
}

fn from_fen(tables: &AttackTables, fen: &str) -> ChessBoard {
    try_fen(tables, fen).unwrap()
}

fn play(tables: &AttackTables, b: &ChessBoard, m: ChessMove) -> ChessBoard {
    let side = b.side_to_move();
    let (o, t) = (m.source(), m.target());
    let mut mb: [Option<ChessPiece>; 64] = [None; 64];
    for s in 0..64 {
        mb[s] = b.piece_on(s);
    }
    let moving = mb[o].unwrap();
    let base = if side == Side::White { 0 } else { 56 };
    mb[o] = None;
    let mut ep = None;
    match m.move_type() {
        MoveType::Normal => {
            mb[t] = Some(moving);
            if moving.1 == PieceType::Pawn && (o as i32 - t as i32).abs() == 16 {
                ep = Some((o + t) / 2);
            }
        }
        MoveType::Promotion(q) => mb[t] = Some((side, q)),
        MoveType::EnPassant => {
            mb[t] = Some(moving);
            let v = if side == Side::White { t - 8 } else { t + 8 };
            mb[v] = None;
        }
        MoveType::Castle => {
            mb[t] = Some(moving);
            let (rf, rt) = if t == base + 1 { (base, base + 2) } else { (base + 7, base + 4) };
            mb[rt] = mb[rf];
            mb[rf] = None;
        }
    }
    let mut castle = b.castle_rights();
    if moving.1 == PieceType::King {
        let i = if side == Side::White { 0 } else { 2 };
        castle[i] = false;
        castle[i + 1] = false;
    }
    for (corner, i) in [(0usize, 0usize), (7, 1), (56, 2), (63, 3)] {
        if o == corner || t == corner {
            castle[i] = false;
        }
    }
    let next_side = if side == Side::White { Side::Black } else { Side::White };
    let mut bbs = [BitBoard::new(0); 12];
    for s in 0..64 {
        if let Some(p) = mb[s] {
            bbs[cp_index(p)].set_bit(s);
        }
    }
    let ep_bb = match ep {
        Some(e) => BitBoard::new(1u64 << e),
        None => BitBoard::new(0),
    };
    ChessBoard::from_parts(tables, bbs, mb, castle, ep_bb, next_side, 0).unwrap()
}



fn moves_of(tables: &AttackTables, fen: &str) -> (ChessBoard, Vec<ChessMove>) {
    let b = from_fen(tables, fen);
    let moves = generate_moves(tables, &b);
    (b, moves)
}

fn has_move(moves: &[ChessMove], o: &str, t: &str, k: MoveType) -> bool {
    moves.iter().any(|m| m.source() == sq(o) && m.target() == sq(t) && m.move_type() == k)
}

/// Checks, on every generated move, the laws that hold of all positions.
fn check_laws(tables: &AttackTables, b: &ChessBoard, moves: &[ChessMove]) {
    let side = b.side_to_move();
    let checkers = b.count_checking_pieces();
    assert!(checkers <= 2);
    for m in moves {
        let piece = b.piece_on(m.source()).unwrap();
        assert_eq!(piece.0, side);
        match m.move_type() {
            MoveType::EnPassant => assert!(b.en_passant().contains(m.target())),
            _ => {
                if let Some(p) = b.piece_on(m.target()) {
                    assert_ne!(p.0, side);
                }
            }
        }
        let next = play(tables, b, *m);
        assert!(!next.is_king_in_check(tables, side));
        if checkers >= 2 {
            assert_eq!(piece.1, PieceType::King);
        }
        let (_, mask) = b.calculate_pin_data(tables, Square::new(m.source() as u8));
        if mask.is_not_zero() {
            assert!(mask.contains(m.target()));
        }
    }
    for i in 0..moves.len() {
        for j in i + 1..moves.len() {
            assert_ne!(moves[i], moves[j]);
        }
    }
}

#[test]
fn startpos_twenty_moves() {
    let tables = AttackTables::new().unwrap();
    let b = ChessBoard::start_pos();
    let moves = generate_moves(&tables, &b);
    assert_eq!(moves.len(), 20);
    let pawn_moves: Vec<&ChessMove> =
        moves.iter().filter(|m| b.piece_on(m.source()).unwrap().1 == PieceType::Pawn).collect();
    let knight_moves =
        moves.iter().filter(|m| b.piece_on(m.source()).unwrap().1 == PieceType::Knight).count();
    assert_eq!(pawn_moves.len(), 16);
    assert_eq!(knight_moves, 4);
    let singles = pawn_moves.iter().filter(|m| m.target() == m.source() + 8).count();
    let doubles = pawn_moves.iter().filter(|m| m.target() == m.source() + 16).count();
    assert_eq!(singles, 8);
    assert_eq!(doubles, 8);
    check_laws(&tables, &b, &moves);
}

#[test]
fn en_passant_discovered_check_refused() {
    let tables = AttackTables::new().unwrap();
    // the black king stands on h1, out of the way
    let (b, moves) = moves_of(&tables, "8/8/8/KPp4r/8/8/8/7k w - c6 0 1");
    assert!(!has_move(&moves, "b5", "c6", MoveType::EnPassant));
    assert!(has_move(&moves, "b5", "b6", MoveType::Normal));
    check_laws(&tables, &b, &moves);
}

#[test]
fn en_passant_allowed_without_pin() {
    let tables = AttackTables::new().unwrap();
    let (b, moves) = moves_of(&tables, "8/8/8/1Pp4r/8/8/K7/7k w - c6 0 1");
    assert!(has_move(&moves, "b5", "c6", MoveType::EnPassant));
    check_laws(&tables, &b, &moves);
}

#[test]
fn queen_check_only_king_moves() {
    let tables = AttackTables::new().unwrap();
    let (b, moves) = moves_of(&tables, "4k3/8/4Q3/8/4B3/8/8/4K3 b - - 0 1");
    assert!(!moves.is_empty());
    for m in &moves {
        assert_eq!(m.source(), sq("e8"));
    }
    check_laws(&tables, &b, &moves);
}

#[test]
fn double_check_forces_king_move() {
    let tables = AttackTables::new().unwrap();
    // knight on d6 and rook on e1 both check the king on e8; the rook on a8 could take the knight
    let (b, moves) = moves_of(&tables, "r3k3/8/3N4/8/8/8/8/4R1K1 b - - 0 1");
    assert_eq!(b.count_checking_pieces(), 2);
    assert!(!moves.is_empty());
    for m in &moves {
        assert_eq!(m.source(), sq("e8"));
    }
    assert!(!has_move(&moves, "a8", "a6", MoveType::Normal));
    check_laws(&tables, &b, &moves);
}

#[test]
fn castling_kingside_allowed() {
    let tables = AttackTables::new().unwrap();
    let (b, moves) = moves_of(&tables, "r3k2r/8/8/8/8/8/8/4K2R w K - 0 1");
    assert!(has_move(&moves, "e1", "g1", MoveType::Castle));
    assert!(b.is_able_kingside_castle(&tables, Side::White));
    check_laws(&tables, &b, &moves);
}

#[test]
fn castling_through_check_blocked() {
    let tables = AttackTables::new().unwrap();
    let (b, moves) = moves_of(&tables, "r3k1r1/8/8/8/8/8/8/4K2R w K - 0 1");
    assert!(!has_move(&moves, "e1", "g1", MoveType::Castle));
    assert!(!b.is_able_kingside_castle(&tables, Side::White));
    let (b2, moves2) = moves_of(&tables, "r3kr2/8/8/8/8/8/8/4K2R w K - 0 1");
    assert!(!has_move(&moves2, "e1", "g1", MoveType::Castle));
    check_laws(&tables, &b, &moves);
    check_laws(&tables, &b2, &moves2);
}

#[test]
fn castling_queenside_ignores_b_file_attack() {
    let tables = AttackTables::new().unwrap();
    // the rook on b8 attacks b1, which the king does not cross
    let (b, moves) = moves_of(&tables, "1r2k3/8/8/8/8/8/8/R3K3 w Q - 0 1");
    assert!(has_move(&moves, "e1", "c1", MoveType::Castle));
    assert!(b.is_able_queenside_castle(&tables, Side::White));
    // but a piece standing on b1 blocks it
    let (_, moves2) = moves_of(&tables, "4k3/8/8/8/8/8/8/RN2K3 w Q - 0 1");
    assert!(!has_move(&moves2, "e1", "c1", MoveType::Castle));
}

#[test]
fn castling_out_of_check_refused() {
    let tables = AttackTables::new().unwrap();
    let (b, moves) = moves_of(&tables, "4k3/4r3/8/8/8/8/8/4K2R w K - 0 1");
    assert!(b.in_check());
    assert!(!has_move(&moves, "e1", "g1", MoveType::Castle));
    check_laws(&tables, &b, &moves);
}

#[test]
fn promotion_set() {
    let tables = AttackTables::new().unwrap();
    let (b, moves) = moves_of(&tables, "8/P7/8/8/8/8/8/k6K w - - 0 1");
    let promos: Vec<&ChessMove> =
        moves.iter().filter(|m| m.source() == sq("a7") && m.target() == sq("a8")).collect();
    assert_eq!(promos.len(), 4);
    for p in [PieceType::Queen, PieceType::Rook, PieceType::Bishop, PieceType::Knight] {
        assert!(has_move(&moves, "a7", "a8", MoveType::Promotion(p)));
    }
    assert!(!has_move(&moves, "a7", "a8", MoveType::Normal));
    check_laws(&tables, &b, &moves);
}

#[test]
fn pinned_knight_has_no_moves() {
    let tables = AttackTables::new().unwrap();
    // the knight on e3 stands between the black king on e8 and the white rook on e1
    let (b, moves) = moves_of(&tables, "4k3/8/8/8/8/4n3/8/4R1K1 b - - 0 1");
    assert!(moves.iter().all(|m| m.source() != sq("e3")));
    assert!(b.is_piece_pinned(&tables, Square::new(sq("e3") as u8)));
    let (pinners, mask) = b.calculate_pin_data(&tables, Square::new(sq("e3") as u8));
    assert_eq!(pinners, BitBoard::new(1u64 << sq("e1")));
    let mut expected = 0u64;
    for name in ["e1", "e2", "e3", "e4", "e5", "e6", "e7"] {
        expected |= 1u64 << sq(name);
    }
    assert_eq!(mask, BitBoard::new(expected));
    check_laws(&tables, &b, &moves);
}

#[test]
fn knight_before_own_king_moves_freely() {
    let tables = AttackTables::new().unwrap();
    let (b, moves) = moves_of(&tables, "4k3/8/8/8/8/4n3/8/4K2R b - - 0 1");
    assert!(!b.is_piece_pinned(&tables, Square::new(sq("e3") as u8)));
    assert_eq!(moves.iter().filter(|m| m.source() == sq("e3")).count(), 8);
    check_laws(&tables, &b, &moves);
}

#[test]
fn pinned_rook_moves_along_the_pin() {
    let tables = AttackTables::new().unwrap();
    let (b, moves) = moves_of(&tables, "4k3/8/8/8/8/4r3/8/4R1K1 b - - 0 1");
    let rook: Vec<&ChessMove> = moves.iter().filter(|m| m.source() == sq("e3")).collect();
    // e7, e6, e5, e4, e2 and the capture on e1
    assert_eq!(rook.len(), 6);
    for m in rook {
        assert_eq!(m.target() % 8, sq("e3") % 8);
    }
    check_laws(&tables, &b, &moves);
}

#[test]
fn check_mask_of_slider_and_knight() {
    let tables = AttackTables::new().unwrap();
    let b = from_fen(&tables, "4k3/8/8/8/8/8/8/r3K3 w - - 0 1");
    let mut expected = 0u64;
    for name in ["a1", "b1", "c1", "d1"] {
        expected |= 1u64 << sq(name);
    }
    assert_eq!(b.check_mask(&tables), BitBoard::new(expected));
    let b2 = from_fen(&tables, "4k3/8/8/8/8/3n4/8/4K3 w - - 0 1");
    assert_eq!(b2.check_mask(&tables), BitBoard::new(1u64 << sq("d3")));
    let b3 = ChessBoard::start_pos();
    assert_eq!(b3.check_mask(&tables), BitBoard::new(0));
}

#[test]
fn single_check_answers() {
    let tables = AttackTables::new().unwrap();
    // the rook on a1 checks; the bishop on f4 can block on c1
    let (b, moves) = moves_of(&tables, "4k3/8/8/8/5B2/8/8/r3K3 w - - 0 1");
    assert_eq!(b.count_checking_pieces(), 1);
    assert!(has_move(&moves, "f4", "c1", MoveType::Normal));
    assert!(!has_move(&moves, "f4", "g5", MoveType::Normal));
    assert!(!has_move(&moves, "e1", "f1", MoveType::Normal));
    assert!(has_move(&moves, "e1", "e2", MoveType::Normal));
    check_laws(&tables, &b, &moves);
}

#[test]
fn king_cannot_step_back_along_checking_ray() {
    let tables = AttackTables::new().unwrap();
    let (b, moves) = moves_of(&tables, "4k3/8/8/8/8/8/8/r3K3 w - - 0 1");
    assert!(!has_move(&moves, "e1", "f1", MoveType::Normal));
    assert!(b.is_square_attacked_removed_piece(
        &tables,
        Square::new(sq("f1") as u8),
        Side::White,
        Square::new(sq("e1") as u8)
    ));
    assert!(!b.is_square_attacked(&tables, Square::new(sq("f1") as u8), Side::Black));
}

#[test]
fn en_passant_resolves_pawn_check() {
    let tables = AttackTables::new().unwrap();
    // the black pawn on d5 has just stepped twice and checks the king on e4
    let (b, moves) = moves_of(&tables, "4k3/8/8/3pP3/4K3/8/8/8 w - d6 0 1");
    assert_eq!(b.count_checking_pieces(), 1);
    assert!(has_move(&moves, "e5", "d6", MoveType::EnPassant));
    check_laws(&tables, &b, &moves);
}

#[test]
fn position_errors() {
    let tables = AttackTables::new().unwrap();
    assert!(matches!(try_fen(&tables, "8/8/8/8/8/8/8/4K3 w - - 0 1"), Err(PositionError::KingCount)));
    assert!(matches!(try_fen(&tables, "k3K3/8/8/8/8/8/8/3K4 w - - 0 1"), Err(PositionError::KingCount)));
    assert!(matches!(try_fen(&tables, "k3K2P/8/8/8/8/8/8/8 w - - 0 1"), Err(PositionError::PawnOnBackRank)));
    assert!(matches!(try_fen(&tables, "k3K3/8/8/8/8/8/8/8 w - e6 0 1"), Err(PositionError::BadEnPassant)));
    assert!(matches!(try_fen(&tables, "k3K3/8/8/4p3/8/8/8/8 w - e3 0 1"), Err(PositionError::BadEnPassant)));
    assert!(try_fen(&tables, "k3K3/8/8/4p3/8/8/8/8 w - e6 0 1").is_ok());
    assert!(matches!(
        try_fen(&tables, "k3r3/8/8/8/7b/3n4/8/4K3 w - - 0 1"),
        Err(PositionError::TooManyCheckers)
    ));
    // bitboards that disagree with the mailbox
    let mut mailbox: [Option<ChessPiece>; 64] = [None; 64];
    mailbox[sq("e1")] = Some((Side::White, PieceType::King));
    mailbox[sq("e8")] = Some((Side::Black, PieceType::King));
    let mut bbs = [BitBoard::new(0); 12];
    bbs[cp_index((Side::White, PieceType::King))].set_bit(sq("e1"));
    bbs[cp_index((Side::Black, PieceType::King))].set_bit(sq("e8"));
    bbs[cp_index((Side::White, PieceType::Queen))].set_bit(sq("e8"));
    let r = ChessBoard::from_parts(&tables, bbs, mailbox, [false; 4], BitBoard::new(0), Side::White, 0);
    assert!(matches!(r, Err(PositionError::Inconsistent)));
}

#[test]
fn constructed_position_keeps_its_fields() {
    let tables = AttackTables::new().unwrap();
    let b = from_fen(&tables, "r3k2r/8/8/8/8/8/8/R3K2R b Kq - 37 1");
    assert_eq!(b.side_to_move(), Side::Black);
    assert_eq!(b.castle_rights(), [true, false, false, true]);
    assert_eq!(b.half_move_clock(), 37);
    assert_eq!(b.piece_on(sq("a8")), Some((Side::Black, PieceType::Rook)));
    assert_eq!(b.piece_bb((Side::White, PieceType::Rook)), BitBoard::new((1u64 << sq("a1")) | (1u64 << sq("h1"))));
    assert_eq!(b.white_blockers().count_ones(), 3);
    assert_eq!(b.black_blockers().count_ones(), 3);
    assert_eq!(b.blockers().count_ones(), 6);
    assert_eq!(b.king_square().to_index(), sq("e8"));
    assert!(!b.in_check());
    assert_eq!(b.checkers(), BitBoard::new(0));
    let d = b.duplicate();
    assert_eq!(d.side_to_move(), Side::Black);
}

#[test]
fn laws_hold_across_many_positions() {
    let tables = AttackTables::new().unwrap();
    for fen in [
        "r3k2r/p1ppqpb1/bn2pnp1/3PN3/1p2P3/2N2Q1p/PPPBBPPP/R3K2R w KQkq - 0 1",
        "8/2p5/3p4/KP5r/1R3p1k/8/4P1P1/8 w - - 0 1",
        "r3k2r/Pppp1ppp/1b3nbN/nP6/BBP1P3/q4N2/Pp1P2PP/R2Q1RK1 w kq - 0 1",
    ] {
        let b = from_fen(&tables, fen);
        let moves = generate_moves(&tables, &b);
        check_laws(&tables, &b, &moves);
        for m in moves {
            let next = play(&tables, &b, m);
            let replies = generate_moves(&tables, &next);
            check_laws(&tables, &next, &replies);
        }
    }
}

#[test]
fn kings_are_never_pinned() {
    let tables = AttackTables::new().unwrap();
    // the black rook on e8 would reach e1 through the black king on e4
    let b = from_fen(&tables, "4r3/8/8/8/4k3/8/8/4K3 w - - 0 1");
    for name in ["e4", "e1"] {
        let (pinners, mask) = b.calculate_pin_data(&tables, Square::new(sq(name) as u8));
        assert_eq!(pinners, BitBoard::new(0));
        assert_eq!(mask, BitBoard::new(0));
        assert!(!b.is_piece_pinned(&tables, Square::new(sq(name) as u8)));
    }
}

#[test]
fn default_board_is_start_position() {
    let tables = AttackTables::new().unwrap();
    let b = ChessBoard::default();
    assert_eq!(generate_moves(&tables, &b).len(), 20);
    assert_eq!(b.piece_on(sq("e1")), Some((Side::White, PieceType::King)));
}
