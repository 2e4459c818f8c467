use vstd::prelude::*;
use crate::bitboard::{
    BitBoard, Side, PieceType, ChessPiece, piece_index, piece_of_index, lemma_piece_index,
    lemma_piece_of_index, cp_index,
};
use crate::square::{Square, is_square, row, col};
use crate::bitboard::{lemma_member, lemma_count_is_len};
use crate::attacks::{
    pawn_hits, knight_step, king_step, bishop_sees, rook_sees, queen_sees, lemma_rook_sym,
    lemma_bishop_sym, forward,
};
use crate::tables::AttackTables;

verus! {

/// What stands on each square.
pub type Placement = Seq<Option<ChessPiece>>;

/// The occupied squares of a placement.
pub open spec fn occupied(sqs: Placement) -> Set<int> {
    Set::new(|s: int| is_square(s) && sqs[s] is Some)
}

/// The squares holding a piece of `side`.
pub open spec fn side_squares(sqs: Placement, side: Side) -> Set<int> {
    Set::new(|s: int| is_square(s) && (sqs[s] matches Some(p) && p.0 == side))
}

/// The squares holding the piece `p`.
pub open spec fn squares_of(sqs: Placement, p: ChessPiece) -> Set<int> {
    Set::new(|s: int| is_square(s) && sqs[s] == Some(p))
}

/// A piece `p` on `q` attacks `s`, the occupied squares being `occ`.
pub open spec fn piece_attacks(p: ChessPiece, occ: Set<int>, q: int, s: int) -> bool {
    match p.1 {
        PieceType::Pawn => pawn_hits(p.0, q, s),
        PieceType::Knight => knight_step(q, s),
        PieceType::Bishop => bishop_sees(occ, q, s),
        PieceType::Rook => rook_sees(occ, q, s),
        PieceType::Queen => queen_sees(occ, q, s),
        PieceType::King => king_step(q, s),
    }
}

/// The piece on `q` belongs to `by` and attacks `s`, the occupied squares being `occ`.
pub open spec fn attacker(sqs: Placement, occ: Set<int>, by: Side, q: int, s: int) -> bool {
    is_square(q) && (sqs[q] matches Some(p) && p.0 == by && piece_attacks(p, occ, q, s))
}

/// Some piece of `by` attacks `s`, the occupied squares being `occ`.
pub open spec fn attacked_with(sqs: Placement, occ: Set<int>, s: int, by: Side) -> bool {
    exists|q: int| #[trigger] attacker(sqs, occ, by, q, s)
}

/// Some piece of `by` attacks `s`.
pub open spec fn attacked(sqs: Placement, s: int, by: Side) -> bool {
    attacked_with(sqs, occupied(sqs), s, by)
}

/// The king of `side` stands on `k`.
pub open spec fn is_king_of(sqs: Placement, side: Side, k: int) -> bool {
    is_square(k) && sqs[k] == Some((side, PieceType::King))
}

/// The king of `side` is attacked by the other side.
pub open spec fn in_check(sqs: Placement, side: Side) -> bool {
    exists|k: int| #[trigger] is_king_of(sqs, side, k) && attacked(sqs, k, side.opp())
}

/// The squares of the pieces of the other side that attack the king of `side`.
pub open spec fn checkers_of(sqs: Placement, side: Side) -> Set<int> {
    Set::new(
        |q: int|
            exists|k: int| #[trigger]
                is_king_of(sqs, side, k) && attacker(sqs, occupied(sqs), side.opp(), q, k),
    )
}

/// Exactly one king of `side` is on the board.
pub open spec fn one_king(sqs: Placement, side: Side) -> bool {
    exists|k: int| #[trigger] is_king_of(sqs, side, k) && forall|a: int| #[trigger] is_king_of(sqs, side, a) ==> a == k
}

/// No pawn stands on the first or the last row.
pub open spec fn pawns_ok(sqs: Placement) -> bool {
    forall|s: int| is_square(s) && (#[trigger] sqs[s] matches Some(p) && p.1 == PieceType::Pawn) ==> 1 <= row(s) <= 6
}

/// The square a pawn of `side` captures en passant when it lands on `t`.
pub open spec fn ep_victim(side: Side, t: int) -> int {
    t - 8 * forward(side)
}

/// `e` can be the en-passant target with `side` to move: it is empty, on the row that the other
/// side's pawns skip on a double step, and such a pawn stands just beyond it.
pub open spec fn ep_target_ok(sqs: Placement, side: Side, e: int) -> bool {
    &&& is_square(e)
    &&& sqs[e] is None
    &&& row(e) == if side == Side::White { 5int } else { 2int }
    &&& sqs[ep_victim(side, e)] == Some((side.opp(), PieceType::Pawn))
}

pub open spec fn ep_ok(sqs: Placement, side: Side, ep: Set<int>) -> bool {
    ep == Set::<int>::empty() || exists|e: int| #[trigger] ep_target_ok(sqs, side, e) && ep == set![e]
}

/// The twelve bitboards agree with the mailbox: bit `s` of bitboard `i` is set exactly when the
/// piece of index `i` stands on `s`. This also keeps two pieces off one square.
pub open spec fn parts_agree(bbs: Seq<BitBoard>, sqs: Placement) -> bool {
    forall|i: int, s: int|
        0 <= i < 12 && 0 <= s < 64 ==> (#[trigger] bbs[i]@.contains(s) <==> sqs[s] == Some(
            piece_of_index(i),
        ))
}

/// Why a position was refused.
#[derive(Debug, Copy, Clone, PartialEq, Eq, Structural)]
pub enum PositionError {
    /// The bitboards and the mailbox disagree, or two pieces share a square.
    Inconsistent,
    /// A side has no king, or more than one.
    KingCount,
    /// A pawn stands on the first or the last row.
    PawnOnBackRank,
    /// The en-passant target is not a single empty square behind a pawn that just stepped twice.
    BadEnPassant,
    /// Three or more pieces give check, which no game can reach.
    TooManyCheckers,
}

/// The piece that starts on square `s`.
pub open spec fn start_piece(s: int) -> Option<ChessPiece> {
    let t = if col(s) == 0 || col(s) == 7 {
        PieceType::Rook
    } else if col(s) == 1 || col(s) == 6 {
        PieceType::Knight
    } else if col(s) == 2 || col(s) == 5 {
        PieceType::Bishop
    } else if col(s) == 3 {
        PieceType::King
    } else {
        PieceType::Queen
    };
    if row(s) == 0 {
        Some((Side::White, t))
    } else if row(s) == 1 {
        Some((Side::White, PieceType::Pawn))
    } else if row(s) == 6 {
        Some((Side::Black, PieceType::Pawn))
    } else if row(s) == 7 {
        Some((Side::Black, t))
    } else {
        None
    }
}

/// The starting placement.
pub open spec fn start_squares() -> Placement {
    Seq::new(64, |s: int| start_piece(s))
}

proof fn lemma_start()
    ensures
        one_king(start_squares(), Side::White),
        one_king(start_squares(), Side::Black),
        pawns_ok(start_squares()),
        checkers_of(start_squares(), Side::White) == Set::<int>::empty(),
{
    let sqs = start_squares();
    assert(is_king_of(sqs, Side::White, 3));
    assert(is_king_of(sqs, Side::Black, 59));
    assert forall|q: int| !(#[trigger] attacker(sqs, occupied(sqs), Side::Black, q, 3)) by {
        if is_square(q) {
            assert(sqs[q] == start_piece(q));
            if let Some(p) = sqs[q] {
                if p.0 == Side::Black {
                    assert(row(q) >= 6);
                }
            }
        }
    }
    assert(checkers_of(sqs, Side::White) =~= Set::<int>::empty());
}

fn start_piece_exec(s: usize) -> (r: Option<ChessPiece>)
    requires
        s < 64,
    ensures
        r == start_piece(s as int),
{
    let c = s % 8;
    let t = if c == 0 || c == 7 {
        PieceType::Rook
    } else if c == 1 || c == 6 {
        PieceType::Knight
    } else if c == 2 || c == 5 {
        PieceType::Bishop
    } else if c == 3 {
        PieceType::King
    } else {
        PieceType::Queen
    };
    let rw = s / 8;
    if rw == 0 {
        Some((Side::White, t))
    } else if rw == 1 {
        Some((Side::White, PieceType::Pawn))
    } else if rw == 6 {
        Some((Side::Black, PieceType::Pawn))
    } else if rw == 7 {
        Some((Side::Black, t))
    } else {
        None
    }
}

/// A position: twelve piece bitboards and a parallel mailbox, castling rights (white kingside,
/// white queenside, black kingside, black queenside), the en-passant target, the pieces giving
/// check, the side to move and the half-move clock.
#[derive(Debug, Copy, Clone)]
pub struct ChessBoard {
    piece_bbs: [BitBoard; 12],
    mailbox: [Option<ChessPiece>; 64],
    castle_bools: [bool; 4],
    enpassant_bb: BitBoard,
    check_bb: BitBoard,
    side_to_move: Side,
    half_move_clock: u16,
}

impl ChessBoard {
    /// What stands on each square.
    pub closed spec fn squares(self) -> Placement {
        self.mailbox@
    }

    pub closed spec fn side(self) -> Side {
        self.side_to_move
    }

    /// Castling rights: white kingside, white queenside, black kingside, black queenside.
    pub closed spec fn rights(self) -> Seq<bool> {
        self.castle_bools@
    }

    /// The en-passant target, empty or one square.
    pub closed spec fn ep(self) -> Set<int> {
        self.enpassant_bb@
    }

    /// The recorded squares of the pieces giving check to the side to move.
    pub closed spec fn check_set(self) -> Set<int> {
        self.check_bb@
    }

    /// How many pieces give check to the side to move.
    pub closed spec fn check_count(self) -> nat {
        self.check_bb.count()
    }

    pub closed spec fn clock(self) -> u16 {
        self.half_move_clock
    }

    /// The piece bitboards agree with the mailbox.
    pub closed spec fn consistent(self) -> bool {
        forall|i: int, s: int|
            0 <= i < 12 && 0 <= s < 64 ==> (#[trigger] self.piece_bbs[i]@.contains(s) <==> self.mailbox[s]
                == Some(piece_of_index(i)))
    }

    pub proof fn lemma_squares_len(self)
        ensures
            self.squares().len() == 64,
    {
    }

    proof fn lemma_bb(self, p: ChessPiece, s: int)
        requires
            self.consistent(),
            is_square(s),
        ensures
            self.piece_bbs[piece_index(p)]@.contains(s) <==> self.squares()[s] == Some(p),
    {
        lemma_piece_index(p);
    }

    /// The piece on square `s`.
    pub fn piece_on(&self, s: usize) -> (r: Option<ChessPiece>)
        requires
            s < 64,
        ensures
            r == self.squares()[s as int],
    {
        self.mailbox[s]
    }

    /// Puts `v` on square `s`, keeping the bitboards in step with the mailbox.
    pub(crate) fn put(&mut self, s: usize, v: Option<ChessPiece>)
        requires
            old(self).consistent(),
            s < 64,
        ensures
            final(self).consistent(),
            final(self).squares() == old(self).squares().update(s as int, v),
            final(self).side() == old(self).side(),
            final(self).rights() == old(self).rights(),
            final(self).ep() == old(self).ep(),
            final(self).check_set() == old(self).check_set(),
            final(self).check_count() == old(self).check_count(),
            final(self).clock() == old(self).clock(),
    {
        let ghost before = *self;
        match self.mailbox[s] {
            Some(p) => {
                let i = cp_index(p);
                self.piece_bbs[i] = self.piece_bbs[i].remove(s);
            },
            None => {},
        }
        match v {
            Some(p) => {
                let i = cp_index(p);
                self.piece_bbs[i].set_bit(s);
            },
            None => {},
        }
        self.mailbox[s] = v;
        proof {
            assert forall|i: int, u: int| 0 <= i < 12 && 0 <= u < 64 implies (
            #[trigger] self.piece_bbs[i]@.contains(u) <==> self.mailbox[u] == Some(piece_of_index(i))) by {
                lemma_piece_of_index(i);
                assert(before.piece_bbs[i]@.contains(u) <==> before.mailbox[u] == Some(piece_of_index(i)));
                if let Some(p) = before.mailbox[s as int] {
                    lemma_piece_index(p);
                }
                if let Some(p) = v {
                    lemma_piece_index(p);
                }
            }
            assert(self.squares() =~= before.squares().update(s as int, v));
        }
    }

    /// The squares of piece `p`.
    pub fn piece_bb(&self, p: ChessPiece) -> (r: BitBoard)
        requires
            self.consistent(),
        ensures
            r@ == squares_of(self.squares(), p),
    {
        let r = self.piece_bbs[cp_index(p)];
        proof {
            assert forall|s: int| r@.contains(s) <==> squares_of(self.squares(), p).contains(s) by {
                if is_square(s) {
                    self.lemma_bb(p, s);
                }
            }
            assert(r@ =~= squares_of(self.squares(), p));
        }
        r
    }

    /// The union of the piece bitboards of indices `lo..hi`.
    fn union_of(&self, lo: usize, hi: usize) -> (r: BitBoard)
        requires
            self.consistent(),
            lo <= hi <= 12,
        ensures
            r@ == Set::new(
                |s: int|
                    is_square(s) && (self.squares()[s] matches Some(p) && lo <= piece_index(p) < hi),
            ),
    {
        let mut r = BitBoard::empty();
        let mut i = lo;
        while i < hi
            invariant
                self.consistent(),
                lo <= i <= hi <= 12,
                r@ == Set::new(
                    |s: int|
                        is_square(s) && (self.squares()[s] matches Some(p) && lo <= piece_index(p) < i),
                ),
            decreases hi - i,
        {
            r = r.bit_or(&self.piece_bbs[i]);
            proof {
                assert forall|s: int| #[trigger] r@.contains(s) <==> (is_square(s)
                    && (self.squares()[s] matches Some(p) && lo <= piece_index(p) < i + 1)) by {
                    if is_square(s) {
                        if let Some(p) = self.squares()[s] {
                            lemma_piece_index(p);
                            self.lemma_bb(p, s);
                        }
                        lemma_piece_of_index(i as int);
                        self.lemma_bb(piece_of_index(i as int), s);
                    }
                }
                assert(r@ =~= Set::new(
                    |s: int|
                        is_square(s) && (self.squares()[s] matches Some(p) && lo <= piece_index(p)
                            < i + 1),
                ));
            }
            i = i + 1;
        }
        r
    }

    /// All occupied squares.
    pub fn blockers(&self) -> (r: BitBoard)
        requires
            self.consistent(),
        ensures
            r@ == occupied(self.squares()),
    {
        let r = self.union_of(0, 12);
        proof {
            assert forall|s: int| r@.contains(s) <==> occupied(self.squares()).contains(s) by {
                if let Some(p) = self.squares()[s] {
                    lemma_piece_index(p);
                }
            }
            assert(r@ =~= occupied(self.squares()));
        }
        r
    }

    /// The squares of the white pieces.
    pub fn white_blockers(&self) -> (r: BitBoard)
        requires
            self.consistent(),
        ensures
            r@ == side_squares(self.squares(), Side::White),
    {
        let r = self.union_of(0, 6);
        proof {
            assert forall|s: int| r@.contains(s) <==> side_squares(self.squares(), Side::White).contains(s) by {
                if let Some(p) = self.squares()[s] {
                    lemma_piece_index(p);
                }
            }
            assert(r@ =~= side_squares(self.squares(), Side::White));
        }
        r
    }

    /// The squares of the black pieces.
    pub fn black_blockers(&self) -> (r: BitBoard)
        requires
            self.consistent(),
        ensures
            r@ == side_squares(self.squares(), Side::Black),
    {
        let r = self.union_of(6, 12);
        proof {
            assert forall|s: int| r@.contains(s) <==> side_squares(self.squares(), Side::Black).contains(s) by {
                if let Some(p) = self.squares()[s] {
                    lemma_piece_index(p);
                }
            }
            assert(r@ =~= side_squares(self.squares(), Side::Black));
        }
        r
    }

    /// The squares of the pieces of `side`.
    pub fn side_blockers(&self, side: Side) -> (r: BitBoard)
        requires
            self.consistent(),
        ensures
            r@ == side_squares(self.squares(), side),
    {
        match side {
            Side::White => self.white_blockers(),
            Side::Black => self.black_blockers(),
        }
    }

    /// Whether a piece of `by` attacks square `s`, the occupied squares being `occ`.
    pub fn attacked_by(&self, tables: &AttackTables, s: usize, by: Side, occ: &BitBoard) -> (r: bool)
        requires
            self.consistent(),
            tables.wf(),
            s < 64,
        ensures
            r == attacked_with(self.squares(), occ@, s as int, by),
    {
        let a = self.attackers_of(tables, s, by, occ);
        let r = a.is_not_zero();
        proof {
            if r {
                lemma_member(a@);
                let q = choose|q: int| a@.contains(q);
                assert(attacker(self.squares(), occ@, by, q, s as int));
            }
            if attacked_with(self.squares(), occ@, s as int, by) {
                let q = choose|q: int| #[trigger] attacker(self.squares(), occ@, by, q, s as int);
                assert(a@.contains(q));
            }
        }
        r
    }

    /// Whether a piece of `attacker_side` attacks `square`.
    pub fn is_square_attacked(&self, tables: &AttackTables, square: Square, attacker_side: Side) -> (r: bool)
        requires
            self.consistent(),
            tables.wf(),
        ensures
            r == attacked(self.squares(), square.idx(), attacker_side),
    {
        let occ = self.blockers();
        self.attacked_by(tables, square.to_index(), attacker_side, &occ)
    }

    /// Whether the opponent of `side` attacks `square` once the piece on `removed_square` is
    /// taken out of the occupancy: a slider attacking the king then also bars the squares behind
    /// it on the same line.
    pub fn is_square_attacked_removed_piece(
        &self,
        tables: &AttackTables,
        square: Square,
        side: Side,
        removed_square: Square,
    ) -> (r: bool)
        requires
            self.consistent(),
            tables.wf(),
        ensures
            r == attacked_with(
                self.squares(),
                occupied(self.squares()).remove(removed_square.idx()),
                square.idx(),
                side.opp(),
            ),
    {
        let occ = self.blockers().pop_bit(removed_square);
        self.attacked_by(tables, square.to_index(), side.update(), &occ)
    }

    /// The position satisfies the invariants: bitboards and mailbox agree, one king per side, no
    /// pawn on a back row, a sound en-passant target, and the recorded checkers are the pieces
    /// attacking the king of the side to move, at most two of them.
    pub open spec fn wf(self) -> bool {
        &&& self.consistent()
        &&& one_king(self.squares(), Side::White)
        &&& one_king(self.squares(), Side::Black)
        &&& pawns_ok(self.squares())
        &&& ep_ok(self.squares(), self.side(), self.ep())
        &&& self.check_set() == checkers_of(self.squares(), self.side())
        &&& self.check_set().finite()
        &&& self.check_set().len() <= 2
        &&& self.check_count() == self.check_set().len()
    }

    /// The squares of the pieces of `by` that attack `s`, the occupied squares being `occ`: a
    /// piece of each type placed on `s` is asked whether it sees an attacker of that type.
    pub fn attackers_of(&self, tables: &AttackTables, s: usize, by: Side, occ: &BitBoard) -> (r: BitBoard)
        requires
            self.consistent(),
            tables.wf(),
            s < 64,
        ensures
            r@ == Set::new(|q: int| attacker(self.squares(), occ@, by, q, s as int)),
    {
        let ghost sqs = self.squares();
        let ghost si = s as int;
        let pawns = self.piece_bb((by, PieceType::Pawn));
        let knights = self.piece_bb((by, PieceType::Knight));
        let kings = self.piece_bb((by, PieceType::King));
        let queens = self.piece_bb((by, PieceType::Queen));
        let diag = self.piece_bb((by, PieceType::Bishop)).bit_or(&queens);
        let lat = self.piece_bb((by, PieceType::Rook)).bit_or(&queens);
        let p = tables.pawn(by.update(), s).bit_and(&pawns);
        let n = tables.knight(s).bit_and(&knights);
        let k = tables.king(s).bit_and(&kings);
        let b = tables.bishop(s, occ).bit_and(&diag);
        let l = tables.rook(s, occ).bit_and(&lat);
        let r = p.bit_or(&n).bit_or(&k).bit_or(&b).bit_or(&l);
        proof {
            assert forall|q: int| #[trigger] r@.contains(q) == attacker(sqs, occ@, by, q, si) by {
                lemma_bishop_sym(occ@, si, q);
                lemma_rook_sym(occ@, si, q);
            }
            assert(r@ =~= Set::new(|q: int| attacker(sqs, occ@, by, q, si)));
        }
        r
    }

    /// Whether the king of `king_side` is attacked by the other side.
    pub fn is_king_in_check(&self, tables: &AttackTables, king_side: Side) -> (r: bool)
        requires
            self.consistent(),
            tables.wf(),
        ensures
            r == in_check(self.squares(), king_side),
    {
        let ghost sqs = self.squares();
        let kings = self.piece_bb((king_side, PieceType::King));
        let occ = self.blockers();
        let enemy = king_side.update();
        let mut k: usize = 0;
        while k < 64
            invariant
                self.consistent(),
                tables.wf(),
                k <= 64,
                sqs == self.squares(),
                kings@ == squares_of(sqs, (king_side, PieceType::King)),
                occ@ == occupied(sqs),
                enemy == king_side.opp(),
                forall|j: int| 0 <= j < k && #[trigger] is_king_of(sqs, king_side, j) ==> !attacked(sqs, j, enemy),
            decreases 64 - k,
        {
            if kings.contains(k) && self.attacked_by(tables, k, enemy, &occ) {
                assert(is_king_of(sqs, king_side, k as int));
                return true;
            }
            k = k + 1;
        }
        false
    }

    /// The square of the king of the side to move.
    pub fn king_square(&self) -> (r: Square)
        requires
            self.wf(),
        ensures
            is_king_of(self.squares(), self.side(), r.idx()),
    {
        let kings = self.piece_bb((self.side_to_move, PieceType::King));
        proof {
            let k = choose|k: int| #[trigger] is_king_of(self.squares(), self.side(), k) && forall|a: int|
                #[trigger] is_king_of(self.squares(), self.side(), a) ==> a == k;
            assert(kings@.contains(k));
        }
        kings.lsb_square().unwrap()
    }

    /// The pieces of the other side attacking the king of the side to move.
    fn compute_checkers(&self, tables: &AttackTables) -> (r: BitBoard)
        requires
            self.consistent(),
            tables.wf(),
            one_king(self.squares(), self.side()),
        ensures
            r@ == checkers_of(self.squares(), self.side()),
    {
        let ghost sqs = self.squares();
        let kings = self.piece_bb((self.side_to_move, PieceType::King));
        let ghost kk = choose|k: int| #[trigger] is_king_of(sqs, self.side(), k) && forall|a: int|
            #[trigger] is_king_of(sqs, self.side(), a) ==> a == k;
        assert(kings@.contains(kk));
        let k = kings.lsb_index().unwrap();
        assert(is_king_of(sqs, self.side(), k as int));
        let occ = self.blockers();
        let r = self.attackers_of(tables, k, self.side_to_move.update(), &occ);
        proof {
            assert(r@ =~= checkers_of(sqs, self.side()));
        }
        r
    }

    /// Whether exactly one king of `side` stands on the board.
    fn one_king_exec(&self, side: Side) -> (r: bool)
        requires
            self.consistent(),
        ensures
            r == one_king(self.squares(), side),
    {
        let ghost sqs = self.squares();
        let kings = self.piece_bb((side, PieceType::King));
        match kings.lsb_index() {
            None => {
                proof {
                    if one_king(sqs, side) {
                        let k = choose|k: int| #[trigger] is_king_of(sqs, side, k) && forall|a: int|
                            #[trigger] is_king_of(sqs, side, a) ==> a == k;
                        assert(kings@.contains(k));
                    }
                }
                false
            },
            Some(k) => {
                let rest = kings.remove(k);
                let r = rest.is_zero();
                proof {
                    assert(is_king_of(sqs, side, k as int));
                    if r {
                        assert forall|a: int| #[trigger] is_king_of(sqs, side, a) implies a == k by {
                            assert(kings@.contains(a));
                            if a != k {
                                assert(rest@.contains(a));
                            }
                        }
                    } else {
                        lemma_member(rest@);
                        let a = choose|a: int| rest@.contains(a);
                        assert(is_king_of(sqs, side, a));
                    }
                }
                r
            },
        }
    }

    /// Whether the en-passant target is empty or a sound single square.
    fn ep_ok_exec(&self) -> (r: bool)
        requires
            self.consistent(),
        ensures
            r == ep_ok(self.squares(), self.side(), self.ep()),
    {
        let ghost sqs = self.squares();
        let ghost ep = self.ep();
        let side = self.side_to_move;
        match self.enpassant_bb.lsb_index() {
            None => true,
            Some(e) => {
                let rest = self.enpassant_bb.remove(e);
                if !rest.is_zero() {
                    proof {
                        if ep_ok(sqs, side, ep) {
                            let e2 = choose|e2: int| #[trigger] ep_target_ok(sqs, side, e2) && ep == set![e2];
                            assert(ep.contains(e as int));
                            assert(rest@ =~= Set::<int>::empty());
                        }
                    }
                    return false;
                }
                assert(ep =~= set![e as int]) by {
                    assert forall|u: int| ep.contains(u) implies u == e by {
                        if u != e {
                            assert(rest@.contains(u));
                        }
                    }
                }
                let want: usize = match side {
                    Side::White => 5,
                    Side::Black => 2,
                };
                if self.mailbox[e].is_some() || e / 8 != want {
                    return false;
                }
                let v: usize = match side {
                    Side::White => e - 8,
                    Side::Black => e + 8,
                };
                assert(v == ep_victim(side, e as int));
                let r = match self.mailbox[v] {
                    Some(p) => p.0 != side && p.1 == PieceType::Pawn,
                    None => false,
                };
                proof {
                    if r {
                        assert(ep_target_ok(sqs, side, e as int));
                    }
                    if ep_ok(sqs, side, ep) {
                        let e2 = choose|e2: int| #[trigger] ep_target_ok(sqs, side, e2) && ep == set![e2];
                        assert(ep.contains(e2));
                    }
                }
                r
            },
        }
    }

    /// Checks the invariants that the position's parts must satisfy and builds the position:
    /// `piece_bbs` in the order K, Q, N, B, R, P, k, q, n, b, r, p, and `castle_bools` in the
    /// order white kingside, white queenside, black kingside, black queenside.
    pub fn from_parts(
        tables: &AttackTables,
        piece_bbs: [BitBoard; 12],
        mailbox: [Option<ChessPiece>; 64],
        castle_bools: [bool; 4],
        enpassant_bb: BitBoard,
        side_to_move: Side,
        half_move_clock: u16,
    ) -> (r: Result<ChessBoard, PositionError>)
        requires
            tables.wf(),
        ensures
            (r is Ok) <==> (parts_agree(piece_bbs@, mailbox@) && one_king(mailbox@, Side::White)
                && one_king(mailbox@, Side::Black) && pawns_ok(mailbox@) && ep_ok(
                mailbox@,
                side_to_move,
                enpassant_bb@,
            ) && checkers_of(mailbox@, side_to_move).len() <= 2),
            r == Err::<ChessBoard, PositionError>(PositionError::Inconsistent) <==> !parts_agree(piece_bbs@, mailbox@),
            r == Err::<ChessBoard, PositionError>(PositionError::KingCount) <==> parts_agree(piece_bbs@, mailbox@) && !(
            one_king(mailbox@, Side::White) && one_king(mailbox@, Side::Black)),
            r == Err::<ChessBoard, PositionError>(PositionError::PawnOnBackRank) <==> parts_agree(piece_bbs@, mailbox@)
                && one_king(mailbox@, Side::White) && one_king(mailbox@, Side::Black) && !pawns_ok(
                mailbox@,
            ),
            r == Err::<ChessBoard, PositionError>(PositionError::BadEnPassant) <==> parts_agree(piece_bbs@, mailbox@)
                && one_king(mailbox@, Side::White) && one_king(mailbox@, Side::Black) && pawns_ok(
                mailbox@,
            ) && !ep_ok(mailbox@, side_to_move, enpassant_bb@),
            r matches Ok(b) ==> {
                &&& b.wf()
                &&& b.squares() == mailbox@
                &&& b.side() == side_to_move
                &&& b.rights() == castle_bools@
                &&& b.ep() == enpassant_bb@
                &&& b.clock() == half_move_clock
            },
    {
        let mut b = ChessBoard {
            piece_bbs,
            mailbox,
            castle_bools,
            enpassant_bb,
            check_bb: BitBoard::empty(),
            side_to_move,
            half_move_clock,
        };
        let mut i: usize = 0;
        while i < 12
            invariant
                i <= 12,
                b.piece_bbs == piece_bbs,
                b.mailbox == mailbox,
                forall|j: int, s: int|
                    0 <= j < i && 0 <= s < 64 ==> (#[trigger] piece_bbs@[j]@.contains(s) <==> mailbox@[s]
                        == Some(piece_of_index(j))),
            decreases 12 - i,
        {
            let mut s: usize = 0;
            while s < 64
                invariant
                    i < 12,
                    s <= 64,
                    b.piece_bbs == piece_bbs,
                    b.mailbox == mailbox,
                    forall|j: int, u: int|
                        0 <= j < i && 0 <= u < 64 ==> (#[trigger] piece_bbs@[j]@.contains(u) <==> mailbox@[u]
                            == Some(piece_of_index(j))),
                    forall|u: int|
                        0 <= u < s ==> (#[trigger] piece_bbs@[i as int]@.contains(u) <==> mailbox@[u]
                            == Some(piece_of_index(i as int))),
                decreases 64 - s,
            {
                let here = match mailbox[s] {
                    Some(p) => cp_index(p) == i,
                    None => false,
                };
                proof {
                    lemma_piece_of_index(i as int);
                    if let Some(p) = mailbox@[s as int] {
                        lemma_piece_index(p);
                    }
                }
                if piece_bbs[i].contains(s) != here {
                    return Err(PositionError::Inconsistent);
                }
                s = s + 1;
            }
            i = i + 1;
        }
        assert(b.consistent());
        assert(parts_agree(piece_bbs@, mailbox@));
        if !(b.one_king_exec(Side::White) && b.one_king_exec(Side::Black)) {
            return Err(PositionError::KingCount);
        }
        let mut s: usize = 0;
        while s < 64
            invariant
                s <= 64,
                b.mailbox == mailbox,
                parts_agree(piece_bbs@, mailbox@),
                one_king(mailbox@, Side::White),
                one_king(mailbox@, Side::Black),
                forall|u: int| 0 <= u < s && is_square(u) && (#[trigger] mailbox@[u] matches Some(p) && p.1 == PieceType::Pawn) ==> 1 <= row(u) <= 6,
            decreases 64 - s,
        {
            match mailbox[s] {
                Some(p) => {
                    if p.1 == PieceType::Pawn && (s < 8 || s >= 56) {
                        return Err(PositionError::PawnOnBackRank);
                    }
                },
                None => {},
            }
            s = s + 1;
        }
        assert(pawns_ok(mailbox@));
        if !b.ep_ok_exec() {
            return Err(PositionError::BadEnPassant);
        }
        let checkers = b.compute_checkers(tables);
        if checkers.count_ones() > 2 {
            return Err(PositionError::TooManyCheckers);
        }
        b.check_bb = checkers;
        proof {
            lemma_count_is_len(checkers);
        }
        Ok(b)
    }

    /// The starting position, White to move, all castling rights, no en-passant target.
    pub fn start_pos() -> (r: ChessBoard)
        ensures
            r.wf(),
            r.squares() == start_squares(),
            r.side() == Side::White,
            r.rights() == seq![true, true, true, true],
            r.ep() == Set::<int>::empty(),
            r.clock() == 0,
    {
        let e = BitBoard::empty();
        let mut b = ChessBoard {
            piece_bbs: [e, e, e, e, e, e, e, e, e, e, e, e],
            mailbox: [None; 64],
            castle_bools: [true, true, true, true],
            enpassant_bb: e,
            check_bb: e,
            side_to_move: Side::White,
            half_move_clock: 0,
        };
        assert(b.consistent());
        proof {
            lemma_count_is_len(e);
        }
        let mut s: usize = 0;
        while s < 64
            invariant
                s <= 64,
                b.consistent(),
                b.squares() == Seq::new(64, |u: int| if u < s { start_piece(u) } else { None }),
                b.side() == Side::White,
                b.rights() == seq![true, true, true, true],
                b.ep() == Set::<int>::empty(),
                b.check_set() == Set::<int>::empty(),
                b.check_count() == 0,
                b.clock() == 0,
            decreases 64 - s,
        {
            b.put(s, start_piece_exec(s));
            proof {
                assert(b.squares() =~= Seq::new(64, |u: int| if u < s + 1 { start_piece(u) } else { None }));
            }
            s = s + 1;
        }
        proof {
            assert(b.squares() =~= start_squares());
            lemma_start();
            assert(b.check_set() =~= checkers_of(b.squares(), b.side()));
        }
        b
    }

    /// A copy of the position.
    pub fn duplicate(&self) -> (r: ChessBoard)
        ensures
            r == *self,
    {
        *self
    }

    pub fn side_to_move(&self) -> (r: Side)
        ensures
            r == self.side(),
    {
        self.side_to_move
    }

    pub fn castle_rights(&self) -> (r: [bool; 4])
        ensures
            r@ == self.rights(),
    {
        self.castle_bools
    }

    pub fn en_passant(&self) -> (r: BitBoard)
        ensures
            r@ == self.ep(),
    {
        self.enpassant_bb
    }

    pub fn half_move_clock(&self) -> (r: u16)
        ensures
            r == self.clock(),
    {
        self.half_move_clock
    }

    /// The pieces giving check to the side to move.
    pub fn checkers(&self) -> (r: BitBoard)
        requires
            self.wf(),
        ensures
            r@ == checkers_of(self.squares(), self.side()),
            r@.len() <= 2,
    {
        self.check_bb
    }

    /// How many pieces give check to the side to move.
    pub fn count_checking_pieces(&self) -> (r: u32)
        requires
            self.wf(),
        ensures
            r == checkers_of(self.squares(), self.side()).len(),
            r <= 2,
    {
        self.check_bb.count_ones()
    }

    /// Whether the side to move is in check.
    pub fn in_check(&self) -> (r: bool)
        requires
            self.wf(),
        ensures
            r == in_check(self.squares(), self.side()),
    {
        let ghost sqs = self.squares();
        let r = self.check_bb.is_not_zero();
        proof {
            if r {
                lemma_member(self.check_bb@);
                let q = choose|q: int| self.check_bb@.contains(q);
                let k = choose|k: int| #[trigger] is_king_of(sqs, self.side(), k) && attacker(
                    sqs,
                    occupied(sqs),
                    self.side().opp(),
                    q,
                    k,
                );
                assert(attacked(sqs, k, self.side().opp()));
            }
            if in_check(sqs, self.side()) {
                let k = choose|k: int| #[trigger] is_king_of(sqs, self.side(), k) && attacked(sqs, k, self.side().opp());
                let q = choose|q: int| #[trigger] attacker(sqs, occupied(sqs), self.side().opp(), q, k);
                assert(self.check_bb@.contains(q));
            }
        }
        r
    }
}

/// The default position is the starting position.
impl Default for ChessBoard {
    fn default() -> (r: ChessBoard)
        ensures
            r.wf(),
            r.squares() == start_squares(),
            r.side() == Side::White,
            r.rights() == seq![true, true, true, true],
            r.ep() == Set::<int>::empty(),
            r.clock() == 0,
    {
        ChessBoard::start_pos()
    }
}

} // verus!
