use vstd::prelude::*;
use crate::bitboard::{BitBoard, Side, PieceType, ChessPiece, lemma_view_injective};
use crate::square::{is_square, row, col, sq_at, lemma_square_coords, lemma_row_col};
use crate::attacks::{
    pawn_hits, knight_step, king_step, bishop_sees, rook_sees, queen_sees, forward,
};
use crate::chessmove::{ChessMove, MoveType, promotable};
use crate::board::{
    ChessBoard, Placement, occupied, attacked, in_check, ep_victim, ep_target_ok,
};
use crate::tables::AttackTables;
use crate::square::square_of;
use crate::bitboard::all_squares;
use crate::pins::{pin_mask_of, check_mask_of};
use crate::laws::{
    lemma_king_step_safety, lemma_pin_mask_holds, lemma_check_mask_holds, lemma_masked_move_safe,
};

verus! {

/// The row on which a pawn of `side` promotes.
pub open spec fn last_row(side: Side) -> int {
    if side == Side::White {
        7
    } else {
        0
    }
}

/// The row from which a pawn of `side` may step twice.
pub open spec fn start_row(side: Side) -> int {
    if side == Side::White {
        1
    } else {
        6
    }
}

/// Square 0 of the home row of `side`: h1 for White, h8 for Black.
pub open spec fn home_base(side: Side) -> int {
    if side == Side::White {
        0
    } else {
        56
    }
}

/// The square of the king of `side` before it castles: e1 or e8.
pub open spec fn king_home(side: Side) -> int {
    home_base(side) + 3
}

/// Where the king lands when castling: g1/g8 on the king side, c1/c8 on the queen side.
pub open spec fn castle_target(side: Side, king_side: bool) -> int {
    home_base(side) + if king_side {
        1int
    } else {
        5int
    }
}

/// Index of the castling right: white kingside, white queenside, black kingside, black queenside.
pub open spec fn castle_index(side: Side, king_side: bool) -> int {
    (if side == Side::White {
        0int
    } else {
        2int
    }) + if king_side {
        0int
    } else {
        1int
    }
}

/// `u` lies between the king and the rook that castle: f1, g1 on the king side; d1, c1, b1 on
/// the queen side (rows 8 for Black).
pub open spec fn castle_between(side: Side, king_side: bool, u: int) -> bool {
    if king_side {
        u == home_base(side) + 1 || u == home_base(side) + 2
    } else {
        home_base(side) + 4 <= u <= home_base(side) + 6
    }
}

/// `u` is a square that the castling king crosses or lands on.
pub open spec fn castle_path(side: Side, king_side: bool, u: int) -> bool {
    if king_side {
        u == home_base(side) + 1 || u == home_base(side) + 2
    } else {
        u == home_base(side) + 4 || u == home_base(side) + 5
    }
}

pub open spec fn castle_rook_from(side: Side, king_side: bool) -> int {
    home_base(side) + if king_side {
        0int
    } else {
        7int
    }
}

pub open spec fn castle_rook_to(side: Side, king_side: bool) -> int {
    home_base(side) + if king_side {
        2int
    } else {
        4int
    }
}

/// `side` holds the right to castle on that wing, and the squares between king and
/// rook are empty.
pub open spec fn castle_open(b: ChessBoard, side: Side, king_side: bool) -> bool {
    &&& b.rights()[castle_index(side, king_side)]
    &&& forall|u: int| #[trigger] castle_between(side, king_side, u) ==> b.squares()[u] is None
}

/// No square that the castling king crosses or lands on is attacked.
pub open spec fn castle_safe(b: ChessBoard, side: Side, king_side: bool) -> bool {
    forall|u: int| #[trigger] castle_path(side, king_side, u) ==> !attacked(b.squares(), u, side.opp())
}

pub open spec fn holds_side(sqs: Placement, s: int, side: Side) -> bool {
    sqs[s] matches Some(p) && p.0 == side
}

pub open spec fn pawn_push(sqs: Placement, side: Side, o: int, t: int) -> bool {
    &&& is_square(o)
    &&& is_square(t)
    &&& row(t) == row(o) + forward(side)
    &&& col(t) == col(o)
    &&& sqs[t] is None
}

pub open spec fn pawn_double(sqs: Placement, side: Side, o: int, t: int) -> bool {
    &&& is_square(o)
    &&& is_square(t)
    &&& row(o) == start_row(side)
    &&& row(t) == row(o) + 2 * forward(side)
    &&& col(t) == col(o)
    &&& sqs[t] is None
    &&& sqs[sq_at(row(o) + forward(side), col(o))] is None
}

pub open spec fn pawn_capture(sqs: Placement, side: Side, o: int, t: int) -> bool {
    pawn_hits(side, o, t) && holds_side(sqs, t, side.opp())
}

/// The piece `p` on `o` can move to `t` by its ordinary movement: pawns push, step twice from
/// their row or capture diagonally; the other pieces move by their attacks onto a square not
/// held by their own side.
pub open spec fn reaches(sqs: Placement, p: ChessPiece, o: int, t: int) -> bool {
    match p.1 {
        PieceType::Pawn => pawn_push(sqs, p.0, o, t) || pawn_double(sqs, p.0, o, t) || pawn_capture(
            sqs,
            p.0,
            o,
            t,
        ),
        PieceType::Knight => knight_step(o, t) && !holds_side(sqs, t, p.0),
        PieceType::Bishop => bishop_sees(occupied(sqs), o, t) && !holds_side(sqs, t, p.0),
        PieceType::Rook => rook_sees(occupied(sqs), o, t) && !holds_side(sqs, t, p.0),
        PieceType::Queen => queen_sees(occupied(sqs), o, t) && !holds_side(sqs, t, p.0),
        PieceType::King => king_step(o, t) && !holds_side(sqs, t, p.0),
    }
}

/// The move `(o, t, k)` respects how the piece on `o`, one of the side to move, moves; castling
/// needs the right and empty squares between king and rook.
pub open spec fn pseudo_legal(b: ChessBoard, o: int, t: int, k: MoveType) -> bool {
    let sqs = b.squares();
    let side = b.side();
    &&& is_square(o)
    &&& is_square(t)
    &&& sqs[o] matches Some(p) && p.0 == side && match k {
        MoveType::Normal => reaches(sqs, p, o, t) && !(p.1 == PieceType::Pawn && row(t)
            == last_row(side)),
        MoveType::Promotion(q) => p.1 == PieceType::Pawn && promotable(q) && row(t) == last_row(
            side,
        ) && reaches(sqs, p, o, t),
        MoveType::EnPassant => p.1 == PieceType::Pawn && b.ep().contains(t) && pawn_hits(
            side,
            o,
            t,
        ),
        MoveType::Castle => p.1 == PieceType::King && o == king_home(side) && (
        (t == castle_target(side, true) && castle_open(b, side, true)) || (t == castle_target(
            side,
            false,
        ) && castle_open(b, side, false))),
    }
}

/// The placement after the move `(o, t, k)`: the piece leaves `o` for `t`, a promoted pawn
/// becomes the chosen piece, en passant removes the pawn passed by, and castling also carries
/// the rook.
pub open spec fn after(b: ChessBoard, o: int, t: int, k: MoveType) -> Placement {
    let sqs = b.squares();
    let side = b.side();
    match k {
        MoveType::Normal => sqs.update(o, None).update(t, sqs[o]),
        MoveType::Promotion(q) => sqs.update(o, None).update(t, Some((side, q))),
        MoveType::EnPassant => sqs.update(o, None).update(t, sqs[o]).update(
            ep_victim(side, t),
            None,
        ),
        MoveType::Castle => {
            let ks = t == castle_target(side, true);
            let rf = castle_rook_from(side, ks);
            let rt = castle_rook_to(side, ks);
            sqs.update(o, None).update(t, sqs[o]).update(rt, sqs[rf]).update(rf, None)
        },
    }
}

/// The move `(o, t, k)` is generated: it is pseudo-legal; in double check only the king moves;
/// castling needs no check and no attacked square on the king's path; en passant while in check
/// must take the checking pawn; and the mover's king is not attacked afterwards.
#[verifier::opaque]
pub open spec fn legal(b: ChessBoard, o: int, t: int, k: MoveType) -> bool {
    &&& pseudo_legal(b, o, t, k)
    &&& (b.check_set().len() >= 2 ==> (b.squares()[o] matches Some(p) && p.1 == PieceType::King))
    &&& (k == MoveType::Castle ==> b.check_set() == Set::<int>::empty() && castle_safe(
        b,
        b.side(),
        t == castle_target(b.side(), true),
    ))
    &&& (k == MoveType::EnPassant && b.check_set() != Set::<int>::empty() ==> b.check_set()
        == set![ep_victim(b.side(), t)])
    &&& !in_check(after(b, o, t, k), b.side())
}

/// The move `m` is generated in `b`.
pub open spec fn legal_move(b: ChessBoard, m: ChessMove) -> bool {
    legal(b, m.from_sq(), m.to_sq(), m.kind())
}

/// Rows and columns fix a square: moving `d` rows along a column adds `8 * d`.
proof fn lemma_vertical(o: int, t: int, d: int)
    requires
        is_square(o),
        is_square(t),
    ensures
        (row(t) == row(o) + d && col(t) == col(o)) <==> t == o + 8 * d,
{
    lemma_square_coords(o);
    lemma_square_coords(t);
    if t == o + 8 * d {
        assert(row(t) == row(o) + d && col(t) == col(o)) by (nonlinear_arith)
            requires
                t == o + 8 * d,
                0 <= o < 64,
                0 <= t < 64,
        ;
    }
}

fn last_row_exec(side: Side) -> (r: usize)
    ensures
        r == last_row(side),
{
    match side {
        Side::White => 7,
        Side::Black => 0,
    }
}

/// The squares that the pawn of `side` on `o` can push to, step twice to, or capture on.
pub fn pawn_targets(b: &ChessBoard, tables: &AttackTables, o: usize, side: Side) -> (r: BitBoard)
    requires
        b.wf(),
        tables.wf(),
        o < 64,
    ensures
        r@ == Set::new(
            |t: int|
                pawn_push(b.squares(), side, o as int, t) || pawn_double(b.squares(), side, o as int, t)
                    || pawn_capture(b.squares(), side, o as int, t),
        ),
{
    let ghost sqs = b.squares();
    let ghost oi = o as int;
    let ghost fw = forward(side);
    let enemies = b.side_blockers(side.update());
    let captures = tables.pawn(side, o).bit_and(&enemies);
    let mut r = captures;
    proof {
        assert forall|t: int| #[trigger] r@.contains(t) == pawn_capture(sqs, side, oi, t) by {}
    }
    let white = match side {
        Side::White => true,
        Side::Black => false,
    };
    let has_next = if white { o < 56 } else { o >= 8 };
    if has_next {
        let next: usize = if white { o + 8 } else { o - 8 };
        assert(next == oi + 8 * fw);
        if b.piece_on(next).is_none() {
            r.set_bit(next);
            let start: usize = if white { 1 } else { 6 };
            let has_two = if white { o < 48 } else { o >= 16 };
            if o / 8 == start && has_two {
                let two: usize = if white { o + 16 } else { o - 16 };
                assert(two == oi + 8 * (2 * fw));
                if b.piece_on(two).is_none() {
                    r.set_bit(two);
                }
            }
        }
        proof {
            lemma_square_coords(oi);
            lemma_row_col(row(oi) + fw, col(oi));
            assert(sq_at(row(oi) + fw, col(oi)) == next) by {
                lemma_vertical(oi, next as int, fw);
            }
            assert forall|t: int| #[trigger] r@.contains(t) == (pawn_push(sqs, side, oi, t)
                || pawn_double(sqs, side, oi, t) || pawn_capture(sqs, side, oi, t)) by {
                if is_square(t) {
                    lemma_vertical(oi, t, fw);
                    lemma_vertical(oi, t, 2 * fw);
                }
            }
        }
    } else {
        proof {
            assert forall|t: int| #[trigger] r@.contains(t) == (pawn_push(sqs, side, oi, t)
                || pawn_double(sqs, side, oi, t) || pawn_capture(sqs, side, oi, t)) by {
                if is_square(t) {
                    lemma_square_coords(oi);
                    lemma_square_coords(t);
                }
            }
        }
    }
    proof {
        assert(r@ =~= Set::new(
            |t: int|
                pawn_push(sqs, side, oi, t) || pawn_double(sqs, side, oi, t) || pawn_capture(
                    sqs,
                    side,
                    oi,
                    t,
                ),
        ));
    }
    r
}

/// The squares that the piece `p` on `o` reaches by its ordinary movement.
pub fn normal_targets(b: &ChessBoard, tables: &AttackTables, o: usize, p: ChessPiece) -> (r: BitBoard)
    requires
        b.wf(),
        tables.wf(),
        o < 64,
    ensures
        r@ == Set::new(|t: int| reaches(b.squares(), p, o as int, t)),
{
    let ghost sqs = b.squares();
    let friends = b.side_blockers(p.0);
    let occ = b.blockers();
    let r = match p.1 {
        PieceType::Pawn => pawn_targets(b, tables, o, p.0),
        PieceType::Knight => tables.knight(o).minus(&friends),
        PieceType::Bishop => tables.bishop(o, &occ).minus(&friends),
        PieceType::Rook => tables.rook(o, &occ).minus(&friends),
        PieceType::Queen => tables.queen(o, &occ).minus(&friends),
        PieceType::King => tables.king(o).minus(&friends),
    };
    proof {
        assert(r@ =~= Set::new(|t: int| reaches(sqs, p, o as int, t)));
    }
    r
}

/// The position after the move `(o, t, k)`, with the other fields left as they were; it serves
/// to ask whether the mover's king is then attacked.
fn after_move(b: &ChessBoard, o: usize, t: usize, k: MoveType) -> (r: ChessBoard)
    requires
        b.wf(),
        pseudo_legal(*b, o as int, t as int, k),
    ensures
        r.consistent(),
        r.squares() == after(*b, o as int, t as int, k),
{
    let ghost sqs = b.squares();
    proof {
        b.lemma_squares_len();
    }
    let side = b.side_to_move();
    let pc = b.piece_on(o);
    let mut r = b.duplicate();
    match k {
        MoveType::Normal => {
            r.put(o, None);
            r.put(t, pc);
        },
        MoveType::Promotion(q) => {
            r.put(o, None);
            r.put(t, Some((side, q)));
        },
        MoveType::EnPassant => {
            proof {
                let e = choose|e: int| #[trigger] ep_target_ok(sqs, side, e) && b.ep() == set![e];
                assert(b.ep().contains(t as int));
            }
            let v: usize = match side {
                Side::White => t - 8,
                Side::Black => t + 8,
            };
            r.put(o, None);
            r.put(t, pc);
            r.put(v, None);
        },
        MoveType::Castle => {
            let base: usize = match side {
                Side::White => 0,
                Side::Black => 56,
            };
            assert(o == base + 3);
            assert(t == base + 1 || t == base + 5);
            let ks = t == base + 1;
            let rf: usize = if ks { base } else { base + 7 };
            let rt: usize = if ks { base + 2 } else { base + 4 };
            r.put(o, None);
            r.put(t, pc);
            let rook = r.piece_on(rf);
            r.put(rt, rook);
            r.put(rf, None);
        },
    }
    r
}

/// Whether `side` may castle on that wing: the right is held, the squares between king and rook
/// are empty, and no square the king crosses or lands on is attacked.
fn can_castle(b: &ChessBoard, tables: &AttackTables, side: Side, king_side: bool) -> (r: bool)
    requires
        b.wf(),
        tables.wf(),
    ensures
        r == (castle_open(*b, side, king_side) && castle_safe(*b, side, king_side)),
{
    let ghost sqs = b.squares();
    let base: usize = match side {
        Side::White => 0,
        Side::Black => 56,
    };
    let rights = b.castle_rights();
    let idx: usize = match side {
        Side::White => 0,
        Side::Black => 2,
    } + if king_side { 0 } else { 1 };
    if !rights[idx] {
        return false;
    }
    let occ = b.blockers();
    let enemy = side.update();
    let occ_ok = if king_side {
        !occ.contains(base + 1) && !occ.contains(base + 2)
    } else {
        !occ.contains(base + 4) && !occ.contains(base + 5) && !occ.contains(base + 6)
    };
    proof {
        if occ_ok {
            assert forall|u: int| #[trigger] castle_between(side, king_side, u) implies sqs[u] is None by {
                assert(!occ@.contains(u));
            }
        } else {
            if king_side {
                if occ@.contains(base + 1) {
                    assert(castle_between(side, king_side, base + 1));
                } else {
                    assert(castle_between(side, king_side, base + 2));
                }
            } else {
                if occ@.contains(base + 4) {
                    assert(castle_between(side, king_side, base + 4));
                } else if occ@.contains(base + 5) {
                    assert(castle_between(side, king_side, base + 5));
                } else {
                    assert(castle_between(side, king_side, base + 6));
                }
            }
        }
    }
    if !occ_ok {
        return false;
    }
    let (a, c) = if king_side { (base + 1, base + 2) } else { (base + 4, base + 5) };
    let hit_a = b.attacked_by(tables, a, enemy, &occ);
    let hit_c = b.attacked_by(tables, c, enemy, &occ);
    proof {
        assert(castle_path(side, king_side, a as int));
        assert(castle_path(side, king_side, c as int));
    }
    !hit_a && !hit_c
}

impl ChessBoard {
    /// Whether `side` may castle on the king side now: right held, f- and g-squares empty, and
    /// neither attacked.
    pub fn is_able_kingside_castle(&self, tables: &AttackTables, side: Side) -> (r: bool)
        requires
            self.wf(),
            tables.wf(),
        ensures
            r == (castle_open(*self, side, true) && castle_safe(*self, side, true)),
    {
        can_castle(self, tables, side, true)
    }

    /// Whether `side` may castle on the queen side now: right held, b-, c- and d-squares empty,
    /// and neither the c- nor the d-square attacked.
    pub fn is_able_queenside_castle(&self, tables: &AttackTables, side: Side) -> (r: bool)
        requires
            self.wf(),
            tables.wf(),
        ensures
            r == (castle_open(*self, side, false) && castle_safe(*self, side, false)),
    {
        can_castle(self, tables, side, false)
    }
}

fn is_promotable(q: PieceType) -> (r: bool)
    ensures
        r == promotable(q),
{
    match q {
        PieceType::Knight | PieceType::Bishop | PieceType::Rook | PieceType::Queen => true,
        _ => false,
    }
}

/// Decides whether `(o, t, k)` is generated, for `o` holding the piece `p` of the side to move
/// whose ordinary targets are `normal`; `masked` tells that `t` lies in the piece's pin mask when
/// it is pinned and in the check mask when in check. A king step is kept when its target is not
/// attacked with the king lifted; a masked move of another piece needs no further test; en
/// passant and castling are played on a copy of the position to see that the king stays safe.
fn is_legal(
    b: &ChessBoard,
    tables: &AttackTables,
    o: usize,
    t: usize,
    k: MoveType,
    p: ChessPiece,
    normal: &BitBoard,
    masked: bool,
) -> (r: bool)
    requires
        b.wf(),
        tables.wf(),
        o < 64,
        t < 64,
        b.squares()[o as int] == Some(p),
        p.0 == b.side(),
        normal@ == Set::new(|u: int| reaches(b.squares(), p, o as int, u)),
        masked && p.1 != PieceType::King ==> (pin_mask_of(b.squares(), b.side(), o as int)
            != Set::<int>::empty() ==> pin_mask_of(b.squares(), b.side(), o as int).contains(t as int))
            && (b.check_set() != Set::<int>::empty() ==> check_mask_of(b.squares(), b.side()).contains(
            t as int,
        )),
    ensures
        r == legal(*b, o as int, t as int, k),
{
    reveal(legal);
    let ghost sqs = b.squares();
    let side = b.side_to_move();
    let checkers = b.checkers();
    let n_checkers = b.count_checking_pieces();
    if n_checkers >= 2 && p.1 != PieceType::King {
        return false;
    }
    let last = last_row_exec(side);
    let base: usize = match side {
        Side::White => 0,
        Side::Black => 56,
    };
    let is_pawn = match p.1 {
        PieceType::Pawn => true,
        _ => false,
    };
    let is_king = match p.1 {
        PieceType::King => true,
        _ => false,
    };
    let rule_ok = match k {
        MoveType::Normal => normal.contains(t) && !(is_pawn && t / 8 == last),
        MoveType::Promotion(q) => is_pawn && is_promotable(q) && t / 8 == last && normal.contains(t),
        MoveType::EnPassant => {
            if is_pawn && b.en_passant().contains(t) && tables.pawn(side, o).contains(t) {
                proof {
                    let e = choose|e: int| #[trigger] ep_target_ok(sqs, side, e) && b.ep() == set![e];
                    assert(b.ep().contains(t as int));
                }
                let v: usize = match side {
                    Side::White => t - 8,
                    Side::Black => t + 8,
                };
                    let only_v = BitBoard::single(v);
                proof {
                    if checkers@ == only_v@ {
                        lemma_view_injective(checkers, only_v);
                    }
                }
                checkers.is_zero() || checkers.data == only_v.data
            } else {
                false
            }
        },
        MoveType::Castle => {
            if is_king && o == base + 3 && checkers.is_zero() {
                if t == base + 1 {
                    can_castle(b, tables, side, true)
                } else if t == base + 5 {
                    can_castle(b, tables, side, false)
                } else {
                    false
                }
            } else {
                false
            }
        },
    };
    if !rule_ok {
        return false;
    }
    assert(pseudo_legal(*b, o as int, t as int, k));
    let plain = match k {
        MoveType::Normal => true,
        _ => false,
    };
    if is_king && plain {
        proof {
            lemma_king_step_safety(*b, o as int, t as int);
        }
        return !b.is_square_attacked_removed_piece(tables, square_of(t), side, square_of(o));
    }
    let promotion = match k {
        MoveType::Promotion(_) => true,
        _ => false,
    };
    if !is_king && masked && (plain || promotion) {
        proof {
            lemma_masked_move_safe(*b, o as int, t as int, k);
        }
        return true;
    }
    let next = after_move(b, o, t, k);
    !next.is_king_in_check(tables, side)
}

/// A number for each kind of move: normal 0, castle 1, en passant 2, then promotions to queen,
/// rook, bishop and knight 3 to 6.
pub open spec fn kind_code(k: MoveType) -> int {
    match k {
        MoveType::Normal => 0,
        MoveType::Castle => 1,
        MoveType::EnPassant => 2,
        MoveType::Promotion(PieceType::Queen) => 3,
        MoveType::Promotion(PieceType::Rook) => 4,
        MoveType::Promotion(PieceType::Bishop) => 5,
        MoveType::Promotion(PieceType::Knight) => 6,
        MoveType::Promotion(_) => 7,
    }
}

pub open spec fn code_kind(c: int) -> MoveType {
    if c == 0 {
        MoveType::Normal
    } else if c == 1 {
        MoveType::Castle
    } else if c == 2 {
        MoveType::EnPassant
    } else if c == 3 {
        MoveType::Promotion(PieceType::Queen)
    } else if c == 4 {
        MoveType::Promotion(PieceType::Rook)
    } else if c == 5 {
        MoveType::Promotion(PieceType::Bishop)
    } else {
        MoveType::Promotion(PieceType::Knight)
    }
}

fn kind_of_code(c: usize) -> (r: MoveType)
    requires
        c < 7,
    ensures
        r == code_kind(c as int),
        kind_code(r) == c,
{
    if c == 0 {
        MoveType::Normal
    } else if c == 1 {
        MoveType::Castle
    } else if c == 2 {
        MoveType::EnPassant
    } else if c == 3 {
        MoveType::Promotion(PieceType::Queen)
    } else if c == 4 {
        MoveType::Promotion(PieceType::Rook)
    } else if c == 5 {
        MoveType::Promotion(PieceType::Bishop)
    } else {
        MoveType::Promotion(PieceType::Knight)
    }
}

/// The generated moves from `o` to `t`, each kind once.
fn moves_at(
    b: &ChessBoard,
    tables: &AttackTables,
    o: usize,
    t: usize,
    p: ChessPiece,
    normal: &BitBoard,
    masked: bool,
) -> (r: Vec<ChessMove>)
    requires
        b.wf(),
        tables.wf(),
        o < 64,
        t < 64,
        b.squares()[o as int] == Some(p),
        p.0 == b.side(),
        normal@ == Set::new(|u: int| reaches(b.squares(), p, o as int, u)),
        masked && p.1 != PieceType::King ==> (pin_mask_of(b.squares(), b.side(), o as int)
            != Set::<int>::empty() ==> pin_mask_of(b.squares(), b.side(), o as int).contains(t as int))
            && (b.check_set() != Set::<int>::empty() ==> check_mask_of(b.squares(), b.side()).contains(
            t as int,
        )),
    ensures
        forall|i: int|
            0 <= i < r@.len() ==> (#[trigger] r@[i]).from_sq() == o && r@[i].to_sq() == t
                && legal_move(*b, r@[i]),
        forall|k: MoveType|
            #[trigger] legal(*b, o as int, t as int, k) ==> exists|i: int|
                0 <= i < r@.len() && (#[trigger] r@[i]).kind() == k,
        forall|i: int, j: int|
            0 <= i < j < r@.len() ==> kind_code(r@[i].kind()) < kind_code(r@[j].kind()),
        forall|i: int| 0 <= i < r@.len() ==> 0 <= #[trigger] kind_code(r@[i].kind()) < 7,
{
    let mut r: Vec<ChessMove> = Vec::new();
    let ghost mut place: Seq<int> = Seq::new(7, |c: int| -1);
    let mut c: usize = 0;
    while c < 7
        invariant
            b.wf(),
            tables.wf(),
            o < 64,
            t < 64,
            b.squares()[o as int] == Some(p),
            p.0 == b.side(),
            normal@ == Set::new(|u: int| reaches(b.squares(), p, o as int, u)),
            masked && p.1 != PieceType::King ==> (pin_mask_of(b.squares(), b.side(), o as int)
                != Set::<int>::empty() ==> pin_mask_of(b.squares(), b.side(), o as int).contains(t as int))
                && (b.check_set() != Set::<int>::empty() ==> check_mask_of(b.squares(), b.side()).contains(
                t as int,
            )),
            c <= 7,
            place.len() == 7,
            forall|i: int|
                0 <= i < r@.len() ==> (#[trigger] r@[i]).from_sq() == o && r@[i].to_sq() == t
                    && legal_move(*b, r@[i]) && 0 <= kind_code(r@[i].kind()) < c,
            forall|i: int, j: int|
                0 <= i < j < r@.len() ==> kind_code(r@[i].kind()) < kind_code(r@[j].kind()),
            forall|d: int|
                0 <= d < c && #[trigger] legal(*b, o as int, t as int, code_kind(d)) ==> 0 <= place[d]
                    < r@.len() && r@[place[d]].kind() == code_kind(d),
        decreases 7 - c,
    {
        let k = kind_of_code(c);
        if is_legal(b, tables, o, t, k, p, normal, masked) {
            let m = ChessMove::new(o, t, k);
            let ghost before = r@;
            r.push(m);
            proof {
                place = place.update(c as int, r@.len() - 1);
                assert forall|i: int| 0 <= i < before.len() implies r@[i] == before[i] by {}
            }
        }
        c = c + 1;
    }
    proof {
        assert forall|k: MoveType| #[trigger] legal(*b, o as int, t as int, k) implies exists|i: int|
            0 <= i < r@.len() && (#[trigger] r@[i]).kind() == k by {
            reveal(legal);
            let d = kind_code(k);
            assert(code_kind(d) == k);
            assert(legal(*b, o as int, t as int, code_kind(d)));
            let i = place[d];
            assert(r@[i].kind() == k);
        }
    }
    r
}

/// A number that orders moves by origin, then target, then kind.
pub open spec fn move_key(o: int, t: int, k: MoveType) -> int {
    o * 512 + t * 8 + kind_code(k)
}

pub open spec fn key_of(m: ChessMove) -> int {
    move_key(m.from_sq(), m.to_sq(), m.kind())
}

/// A generated move names a square for its origin and its target, and a valid kind.
pub proof fn lemma_legal_shape(b: ChessBoard, o: int, t: int, k: MoveType)
    requires
        legal(b, o, t, k),
    ensures
        is_square(o),
        is_square(t),
        0 <= kind_code(k) < 7,
        code_kind(kind_code(k)) == k,
        b.squares()[o] matches Some(p) && p.0 == b.side(),
{
    reveal(legal);
}

/// Every legal move from `o` goes to a square of `cands`, when `cands` holds the ordinary targets
/// allowed by the pin mask (`pin`) and, for a piece other than the king in check, by the check
/// mask (`chk`); the en-passant targets allowed by the pin mask; and the castling targets.
proof fn lemma_candidates(
    b: ChessBoard,
    o: int,
    p: ChessPiece,
    normal: Set<int>,
    pin: Set<int>,
    chk: Set<int>,
    pawn_caps: Set<int>,
    cands: Set<int>,
)
    requires
        b.wf(),
        is_square(o),
        b.squares()[o] == Some(p),
        p.0 == b.side(),
        normal == Set::new(|u: int| reaches(b.squares(), p, o, u)),
        forall|t: int|
            is_square(t) && (pin_mask_of(b.squares(), b.side(), o) != Set::<int>::empty()
                ==> pin_mask_of(b.squares(), b.side(), o).contains(t)) ==> #[trigger] pin.contains(t),
        forall|t: int|
            is_square(t) && (p.1 != PieceType::King && b.check_set() != Set::<int>::empty()
                ==> check_mask_of(b.squares(), b.side()).contains(t)) ==> #[trigger] chk.contains(t),
        normal.intersect(pin).intersect(chk).subset_of(cands),
        p.1 == PieceType::Pawn ==> pawn_caps.intersect(b.ep()).intersect(pin).subset_of(cands),
        p.1 == PieceType::Pawn ==> pawn_caps == Set::new(|u: int| pawn_hits(p.0, o, u)),
        p.1 == PieceType::King ==> cands.contains(home_base(p.0) + 1) && cands.contains(home_base(p.0) + 5),
    ensures
        forall|t: int, k: MoveType| #[trigger] legal(b, o, t, k) ==> cands.contains(t),
{
    assert forall|t: int, k: MoveType| #[trigger] legal(b, o, t, k) implies cands.contains(t) by {
        lemma_pin_mask_holds(b, o, t, k);
        if k != MoveType::EnPassant && p.1 != PieceType::King && b.check_set() != Set::<int>::empty() {
            lemma_check_mask_holds(b, o, t, k);
        }
        reveal(legal);
        assert(pin.contains(t));
        if k == MoveType::EnPassant {
            assert(pawn_caps.intersect(b.ep()).intersect(pin).contains(t));
        } else if k == MoveType::Castle {
        } else {
            assert(chk.contains(t));
            assert(normal.intersect(pin).intersect(chk).contains(t));
        }
    }
}

/// Every legal move of the position, each once. In double check only the king moves. The
/// targets of each other piece are its ordinary targets cut down to its pin mask when it is
/// pinned and to the check mask when in check; a pawn adds its en-passant captures and the king
/// its castling squares. Each target is then decided for each kind of move.
pub fn generate_moves(tables: &AttackTables, chessboard: &ChessBoard) -> (moves: Vec<ChessMove>)
    requires
        tables.wf(),
        chessboard.wf(),
    ensures
        forall|i: int| 0 <= i < moves@.len() ==> legal_move(*chessboard, #[trigger] moves@[i]),
        forall|o: int, t: int, k: MoveType|
            #[trigger] legal(*chessboard, o, t, k) ==> exists|i: int|
                0 <= i < moves@.len() && (#[trigger] moves@[i]).from_sq() == o && moves@[i].to_sq()
                    == t && moves@[i].kind() == k,
        forall|i: int, j: int|
            0 <= i < j < moves@.len() ==> key_of(moves@[i]) < key_of(moves@[j]),
{
    let b = chessboard;
    let ghost sqs = b.squares();
    let side = b.side_to_move();
    let double = b.count_checking_pieces() >= 2;
    let ep = b.en_passant();
    let checked = b.checkers().is_not_zero();
    let check_mask = b.check_mask(tables);
    let all = BitBoard::empty().bit_not();
    let base: usize = match side {
        Side::White => 0,
        Side::Black => 56,
    };
    let mut moves: Vec<ChessMove> = Vec::new();
    let ghost mut place: Seq<int> = Seq::new(32768, |x: int| -1);
    let mut o: usize = 0;
    while o < 64
        invariant
            b.wf(),
            tables.wf(),
            sqs == b.squares(),
            side == b.side(),
            double == (b.check_set().len() >= 2),
            ep@ == b.ep(),
            base == home_base(side),
            checked == (b.check_set() != Set::<int>::empty()),
            check_mask@ == check_mask_of(sqs, side),
            all@ == all_squares(),
            o <= 64,
            place.len() == 32768,
            forall|i: int|
                0 <= i < moves@.len() ==> legal_move(*b, #[trigger] moves@[i]) && key_of(moves@[i]) < o
                    * 512,
            forall|i: int, j: int|
                0 <= i < j < moves@.len() ==> key_of(moves@[i]) < key_of(moves@[j]),
            forall|o2: int, t2: int, k2: MoveType|
                0 <= o2 < o && #[trigger] legal(*b, o2, t2, k2) ==> 0 <= place[move_key(o2, t2, k2)]
                    < moves@.len() && moves@[place[move_key(o2, t2, k2)]].from_sq() == o2
                    && moves@[place[move_key(o2, t2, k2)]].to_sq() == t2
                    && moves@[place[move_key(o2, t2, k2)]].kind() == k2,
        decreases 64 - o,
    {
        let own = match b.piece_on(o) {
            Some(p) => p.0 == side && !(double && p.1 != PieceType::King),
            None => false,
        };
        if own {
            let p = b.piece_on(o).unwrap();
            let normal = normal_targets(b, tables, o, p);
            let pawn_caps = tables.pawn(side, o);
            let is_king = match p.1 {
                PieceType::King => true,
                _ => false,
            };
            let pin = if is_king {
                all
            } else {
                let (_, mask) = b.calculate_pin_data(tables, square_of(o));
                if mask.is_not_zero() {
                    mask
                } else {
                    all
                }
            };
            let chk = if !is_king && checked {
                check_mask
            } else {
                all
            };
            let filtered = normal.bit_and(&pin).bit_and(&chk);
            let mut cands = filtered;
            match p.1 {
                PieceType::Pawn => {
                    cands = cands.bit_or(&pawn_caps.bit_and(&ep).bit_and(&pin));
                },
                PieceType::King => {
                    cands.set_bit(base + 1);
                    cands.set_bit(base + 5);
                },
                _ => {},
            }
            proof {
                lemma_candidates(*b, o as int, p, normal@, pin@, chk@, pawn_caps@, cands@);
            }
            let mut t: usize = 0;
            while t < 64
                invariant
                    b.wf(),
                    tables.wf(),
                    sqs == b.squares(),
                    side == b.side(),
                    o < 64,
                    t <= 64,
                    sqs[o as int] == Some(p),
                    p.0 == side,
                    normal@ == Set::new(|u: int| reaches(sqs, p, o as int, u)),
                    forall|t2: int, k2: MoveType| #[trigger] legal(*b, o as int, t2, k2) ==> cands@.contains(t2),
                    filtered@ == normal@.intersect(pin@).intersect(chk@),
                    p.1 != PieceType::King && pin_mask_of(sqs, side, o as int) != Set::<int>::empty() ==> pin@
                        == pin_mask_of(sqs, side, o as int),
                    p.1 != PieceType::King && b.check_set() != Set::<int>::empty() ==> chk@ == check_mask_of(
                        sqs,
                        side,
                    ),
                    place.len() == 32768,
                    forall|i: int|
                        0 <= i < moves@.len() ==> legal_move(*b, #[trigger] moves@[i]) && key_of(moves@[i])
                            < o * 512 + t * 8,
                    forall|i: int, j: int|
                        0 <= i < j < moves@.len() ==> key_of(moves@[i]) < key_of(moves@[j]),
                    forall|o2: int, t2: int, k2: MoveType|
                        (0 <= o2 < o || (o2 == o && t2 < t)) && #[trigger] legal(*b, o2, t2, k2) ==> 0
                            <= place[move_key(o2, t2, k2)] < moves@.len() && moves@[place[move_key(o2, t2, k2)]].from_sq()
                            == o2 && moves@[place[move_key(o2, t2, k2)]].to_sq() == t2
                            && moves@[place[move_key(o2, t2, k2)]].kind() == k2,
                decreases 64 - t,
            {
                if cands.contains(t) {
                    let at = moves_at(b, tables, o, t, p, &normal, filtered.contains(t));
                    let ghost start = moves@.len();
                    let mut i: usize = 0;
                    while i < at.len()
                        invariant
                            b.wf(),
                            o < 64,
                            t < 64,
                            i <= at@.len(),
                            start <= moves@.len(),
                            moves@.len() == start + i,
                            place.len() == 32768,
                            forall|n: int|
                                0 <= n < at@.len() ==> (#[trigger] at@[n]).from_sq() == o && at@[n].to_sq() == t
                                    && legal_move(*b, at@[n]),
                            forall|n: int, m: int|
                                0 <= n < m < at@.len() ==> kind_code(at@[n].kind()) < kind_code(at@[m].kind()),
                            forall|n: int| 0 <= n < at@.len() ==> 0 <= #[trigger] kind_code(at@[n].kind()) < 7,
                            forall|n: int|
                                0 <= n < moves@.len() ==> legal_move(*b, #[trigger] moves@[n]),
                            forall|n: int|
                                0 <= n < start ==> key_of(#[trigger] moves@[n]) < o * 512 + t * 8,
                            forall|n: int|
                                0 <= n < i ==> moves@[start + n] == #[trigger] at@[n],
                            forall|n: int, m: int|
                                0 <= n < m < moves@.len() ==> key_of(moves@[n]) < key_of(moves@[m]),
                            forall|n: int|
                                0 <= n < i ==> place[move_key(o as int, t as int, #[trigger] at@[n].kind())] == start + n,
                            forall|o2: int, t2: int, k2: MoveType|
                                (0 <= o2 < o || (o2 == o && t2 < t)) && #[trigger] legal(*b, o2, t2, k2) ==> 0
                                    <= place[move_key(o2, t2, k2)] < start && moves@[place[move_key(o2, t2, k2)]].from_sq()
                                    == o2 && moves@[place[move_key(o2, t2, k2)]].to_sq() == t2
                                    && moves@[place[move_key(o2, t2, k2)]].kind() == k2,
                        decreases at@.len() - i,
                    {
                        let m = at[i];
                        let ghost before = moves@;
                        moves.push(m);
                        proof {
                            m.lemma_bounds();
                            let key = move_key(o as int, t as int, m.kind());
                            place = place.update(key, start + i);
                            assert forall|n: int| 0 <= n < before.len() implies moves@[n] == before[n] by {}
                            assert forall|o2: int, t2: int, k2: MoveType|
                                (0 <= o2 < o || (o2 == o && t2 < t)) && #[trigger] legal(*b, o2, t2, k2) implies 0
                                    <= place[move_key(o2, t2, k2)] < start && moves@[place[move_key(o2, t2, k2)]].from_sq()
                                    == o2 && moves@[place[move_key(o2, t2, k2)]].to_sq() == t2
                                    && moves@[place[move_key(o2, t2, k2)]].kind() == k2 by {
                                lemma_legal_shape(*b, o2, t2, k2);
                                assert(move_key(o2, t2, k2) != key);
                            }
                            assert forall|n: int| 0 <= n < i implies place[move_key(o as int, t as int, #[trigger] at@[n].kind())] == start + n by {
                                assert(kind_code(at@[n].kind()) < kind_code(at@[i as int].kind()));
                            }
                            assert forall|n: int, q: int| 0 <= n < q < moves@.len() implies key_of(moves@[n]) < key_of(moves@[q]) by {
                                if q == moves@.len() - 1 {
                                    if n < start {
                                        assert(key_of(moves@[n]) < o * 512 + t * 8);
                                    } else {
                                        assert(moves@[n] == at@[n - start]);
                                        assert(kind_code(at@[n - start].kind()) < kind_code(at@[i as int].kind()));
                                    }
                                }
                            }
                        }
                        i = i + 1;
                    }
                    proof {
                        assert forall|o2: int, t2: int, k2: MoveType|
                            (0 <= o2 < o || (o2 == o && t2 < t + 1)) && #[trigger] legal(*b, o2, t2, k2) implies 0
                                <= place[move_key(o2, t2, k2)] < moves@.len() && moves@[place[move_key(o2, t2, k2)]].from_sq()
                                == o2 && moves@[place[move_key(o2, t2, k2)]].to_sq() == t2
                                && moves@[place[move_key(o2, t2, k2)]].kind() == k2 by {
                            if o2 == o && t2 == t {
                                let n = choose|n: int| 0 <= n < at@.len() && (#[trigger] at@[n]).kind() == k2;
                                assert(moves@[start + n] == at@[n]);
                            }
                        }
                        assert forall|n: int| 0 <= n < moves@.len() implies key_of(#[trigger] moves@[n]) < o * 512 + (t + 1) * 8 by {
                            if n >= start {
                                assert(moves@[n] == at@[n - start]);
                            }
                        }
                    }
                } else {
                    proof {
                        assert forall|k2: MoveType| !legal(*b, o as int, t as int, k2) by {}
                    }
                }
                t = t + 1;
            }
        } else {
            proof {
                assert forall|t2: int, k2: MoveType| !#[trigger] legal(*b, o as int, t2, k2) by {
                    if legal(*b, o as int, t2, k2) {
                        reveal(legal);
                    }
                }
            }
        }
        o = o + 1;
    }
    proof {
        assert forall|o2: int, t2: int, k2: MoveType| #[trigger] legal(*b, o2, t2, k2) implies exists|i: int|
            0 <= i < moves@.len() && (#[trigger] moves@[i]).from_sq() == o2 && moves@[i].to_sq() == t2
                && moves@[i].kind() == k2 by {
            lemma_legal_shape(*b, o2, t2, k2);
            let i = place[move_key(o2, t2, k2)];
            assert(moves@[i].from_sq() == o2);
        }
    }
    moves
}

} // verus!
