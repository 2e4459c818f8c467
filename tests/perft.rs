use chess_movegen::{
    generate_moves, AttackTables, BitBoard, ChessBoard, ChessMove, ChessPiece, MoveType, PieceType,
    Side, cp_index, sym_index,
};

fn piece_of_char(c: char) -> ChessPiece {
    let side = if c.is_ascii_uppercase() { Side::White } else { Side::Black };
    let t = match c.to_ascii_lowercase() {
        'k' => PieceType::King,
        'q' => PieceType::Queen,
        'n' => PieceType::Knight,
        'b' => PieceType::Bishop,
        'r' => PieceType::Rook,
        _ => PieceType::Pawn,
    };
    (side, t)
}

/// Square index of a square name such as "e4": h1 = 0, a1 = 7, a8 = 63.
fn sq(name: &str) -> usize {
    let b = name.as_bytes();
    let file = (b[0] - b'a') as usize;
    let rank = (b[1] - b'1') as usize;
    rank * 8 + (7 - file)
}

fn board_from_parts(
    tables: &AttackTables,
    mailbox: [Option<ChessPiece>; 64],
    castle: [bool; 4],
    ep: Option<usize>,
    side: Side,
    clock: u16,
) -> ChessBoard {
    let mut bbs = [BitBoard::new(0); 12];
    for s in 0..64 {
        if let Some(p) = mailbox[s] {
            bbs[cp_index(p)].set_bit(s);
        }
    }
    let ep_bb = match ep {
        Some(e) => BitBoard::new(1u64 << e),
        None => BitBoard::new(0),
    };
    ChessBoard::from_parts(tables, bbs, mailbox, castle, ep_bb, side, clock).unwrap()
}

fn from_fen(tables: &AttackTables, fen: &str) -> ChessBoard {
    let fields: Vec<&str> = fen.split_whitespace().collect();
    let mut mailbox: [Option<ChessPiece>; 64] = [None; 64];
    for (i, rank_text) in fields[0].split('/').enumerate() {
        let rank = 7 - i;
        let mut file = 0usize;
        for c in rank_text.chars() {
            if let Some(d) = c.to_digit(10) {
                file += d as usize;
            } else {
                let _ = sym_index(c);
                mailbox[rank * 8 + (7 - file)] = Some(piece_of_char(c));
                file += 1;
            }
        }
    }
    let side = if fields[1] == "w" { Side::White } else { Side::Black };
    let castle = [
        fields[2].contains('K'),
        fields[2].contains('Q'),
        fields[2].contains('k'),
        fields[2].contains('q'),
    ];
    let ep = if fields[3] == "-" { None } else { Some(sq(fields[3])) };
    let clock: u16 = fields.get(4).map(|x| x.parse().unwrap()).unwrap_or(0);
    board_from_parts(tables, mailbox, castle, ep, side, clock)
}

fn play(tables: &AttackTables, b: &ChessBoard, m: ChessMove) -> ChessBoard {
    let side = b.side_to_move();
    let (o, t) = (m.source(), m.target());
    let mut mb: [Option<ChessPiece>; 64] = [None; 64];
    for s in 0..64 {
        mb[s] = b.piece_on(s);
    }
    let moving = mb[o].unwrap();
    let base = if side == Side::White { 0 } else { 56 };
    mb[o] = None;
    let mut ep = None;
    match m.move_type() {
        MoveType::Normal => {
            mb[t] = Some(moving);
            if moving.1 == PieceType::Pawn && (o as i32 - t as i32).abs() == 16 {
                ep = Some((o + t) / 2);
            }
        }
        MoveType::Promotion(q) => mb[t] = Some((side, q)),
        MoveType::EnPassant => {
            mb[t] = Some(moving);
            let v = if side == Side::White { t - 8 } else { t + 8 };
            mb[v] = None;
        }
        MoveType::Castle => {
            mb[t] = Some(moving);
            let (rf, rt) = if t == base + 1 { (base, base + 2) } else { (base + 7, base + 4) };
            mb[rt] = mb[rf];
            mb[rf] = None;
        }
    }
    let mut castle = b.castle_rights();
    if moving.1 == PieceType::King {
        let i = if side == Side::White { 0 } else { 2 };
        castle[i] = false;
        castle[i + 1] = false;
    }
    for (corner, i) in [(0usize, 0usize), (7, 1), (56, 2), (63, 3)] {
        if o == corner || t == corner {
            castle[i] = false;
        }
    }
    let next_side = if side == Side::White { Side::Black } else { Side::White };
    let mut bbs = [BitBoard::new(0); 12];
    for s in 0..64 {
        if let Some(p) = mb[s] {
            bbs[cp_index(p)].set_bit(s);
        }
    }
    let ep_bb = match ep {
        Some(e) => BitBoard::new(1u64 << e),
        None => BitBoard::new(0),
    };
    ChessBoard::from_parts(tables, bbs, mb, castle, ep_bb, next_side, 0).unwrap()
}

fn perft(tables: &AttackTables, b: &ChessBoard, depth: u32) -> u64 {
    let moves = generate_moves(tables, b);
    if depth == 1 {
        return moves.len() as u64;
    }
    let mut n = 0;
    for m in moves {
        n += perft(tables, &play(tables, b, m), depth - 1);
    }
    n
}

#[test]
fn perft_startpos() {
    let tables = AttackTables::new().unwrap();
    let b = ChessBoard::start_pos();
    assert_eq!(perft(&tables, &b, 1), 20);
    assert_eq!(perft(&tables, &b, 2), 400);
    assert_eq!(perft(&tables, &b, 3), 8902);
    assert_eq!(perft(&tables, &b, 4), 197281);
}

#[test]
fn perft_kiwipete() {
    let tables = AttackTables::new().unwrap();
    let b = from_fen(&tables, "r3k2r/p1ppqpb1/bn2pnp1/3PN3/1p2P3/2N2Q1p/PPPBBPPP/R3K2R w KQkq - 0 1");
    assert_eq!(perft(&tables, &b, 1), 48);
    assert_eq!(perft(&tables, &b, 2), 2039);
    assert_eq!(perft(&tables, &b, 3), 97862);
}

#[test]
fn perft_position_three() {
    let tables = AttackTables::new().unwrap();
    let b = from_fen(&tables, "8/2p5/3p4/KP5r/1R3p1k/8/4P1P1/8 w - - 0 1");
    assert_eq!(perft(&tables, &b, 1), 14);
    assert_eq!(perft(&tables, &b, 2), 191);
    assert_eq!(perft(&tables, &b, 3), 2812);
    assert_eq!(perft(&tables, &b, 4), 43238);
}

#[test]
fn perft_position_four() {
    let tables = AttackTables::new().unwrap();
    let b = from_fen(&tables, "r3k2r/Pppp1ppp/1b3nbN/nP6/BBP1P3/q4N2/Pp1P2PP/R2Q1RK1 w kq - 0 1");
    assert_eq!(perft(&tables, &b, 1), 6);
    assert_eq!(perft(&tables, &b, 2), 264);
    assert_eq!(perft(&tables, &b, 3), 9467);
}

#[test]
fn magic_constants_are_sound() {
    assert!(AttackTables::new().is_some());
}
