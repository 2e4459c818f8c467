use vstd::prelude::*;
use crate::bitboard::{BitBoard, Side, PieceType};
use crate::square::Square;
use crate::attacks::{
    between, between_along, dist, lemma_between_dir, lemma_dir_unique, lemma_between_strict,
    lemma_ray_sq, lemma_between_sym, lemma_blocked,
};
use crate::board::{ChessBoard, Placement, occupied, attacker, is_king_of, checkers_of, one_king};
use crate::tables::AttackTables;

verus! {

/// A king of either side stands on `s`.
pub open spec fn holds_king(sqs: Placement, s: int) -> bool {
    sqs[s] matches Some(p) && p.1 == PieceType::King
}

pub open spec fn is_slider(t: PieceType) -> bool {
    t == PieceType::Bishop || t == PieceType::Rook || t == PieceType::Queen
}

/// The square of the king of `side`.
pub open spec fn king_sq(sqs: Placement, side: Side) -> int {
    choose|k: int| #[trigger] is_king_of(sqs, side, k)
}

pub proof fn lemma_king_sq(sqs: Placement, side: Side)
    requires
        one_king(sqs, side),
    ensures
        is_king_of(sqs, side, king_sq(sqs, side)),
        forall|a: int| #[trigger] is_king_of(sqs, side, a) ==> a == king_sq(sqs, side),
{
}

/// The slider of the other side on `q` would give check to the king of `side` if the piece on
/// `s`, which stands between them, were removed.
pub open spec fn pins(sqs: Placement, side: Side, s: int, q: int) -> bool {
    let k = king_sq(sqs, side);
    &&& sqs[q] matches Some(p) && is_slider(p.1)
    &&& between(k, q, s)
    &&& attacker(sqs, occupied(sqs).remove(s), side.opp(), q, k)
}

/// The pieces that pin the piece on `s` to the king of `side`.
pub open spec fn pinners_of(sqs: Placement, side: Side, s: int) -> Set<int> {
    Set::new(|q: int| pins(sqs, side, s, q))
}

/// `u` is a pinner of the piece on `s`, or lies between that pinner and the king.
pub open spec fn in_pin_mask(sqs: Placement, side: Side, s: int, u: int) -> bool {
    exists|q: int| #[trigger] pins(sqs, side, s, q) && (u == q || between(king_sq(sqs, side), q, u))
}

/// The squares the pinned piece on `s` may occupy and stay on its pinning lines.
pub open spec fn pin_mask_of(sqs: Placement, side: Side, s: int) -> Set<int> {
    Set::new(|u: int| in_pin_mask(sqs, side, s, u))
}

/// `u` is the checker on `c`, or lies between the sliding checker and the king.
pub open spec fn blocks_or_takes(sqs: Placement, side: Side, c: int, u: int) -> bool {
    u == c || (sqs[c] matches Some(p) && is_slider(p.1) && between(king_sq(sqs, side), c, u))
}

/// The squares where a piece other than the king may move to answer a single check; empty when
/// there is no check.
pub open spec fn check_mask_of(sqs: Placement, side: Side) -> Set<int> {
    Set::new(
        |u: int|
            exists|c: int| #[trigger] checkers_of(sqs, side).contains(c) && blocks_or_takes(sqs, side, c, u),
    )
}

impl ChessBoard {
    /// The squares a piece other than the king may move to against the check: the checker's
    /// square, and for a sliding checker the squares between it and the king. Empty when the
    /// side to move is not in check.
    pub fn check_mask(&self, tables: &AttackTables) -> (r: BitBoard)
        requires
            self.wf(),
            tables.wf(),
        ensures
            r@ == check_mask_of(self.squares(), self.side()),
    {
        let ghost sqs = self.squares();
        let ghost side = self.side();
        let king = self.king_square().to_index();
        proof {
            lemma_king_sq(sqs, side);
        }
        let checkers = self.checkers();
        let mut mask = BitBoard::empty();
        let mut c: usize = 0;
        while c < 64
            invariant
                self.wf(),
                tables.wf(),
                sqs == self.squares(),
                side == self.side(),
                king < 64,
                king == king_sq(sqs, side),
                checkers@ == checkers_of(sqs, side),
                c <= 64,
                mask@ == Set::new(
                    |u: int|
                        exists|c2: int| 0 <= c2 < c && #[trigger] checkers@.contains(c2) && blocks_or_takes(sqs, side, c2, u),
                ),
            decreases 64 - c,
        {
            let ghost old_mask = mask@;
            if checkers.contains(c) {
                mask.set_bit(c);
                let slider = match self.piece_on(c) {
                    Some(p) => match p.1 {
                        PieceType::Bishop | PieceType::Rook | PieceType::Queen => true,
                        _ => false,
                    },
                    None => false,
                };
                if slider {
                    mask = mask.bit_or(&tables.ray(king, c));
                }
                proof {
                    assert forall|u: int| mask@.contains(u) <==> exists|c2: int| 0 <= c2 < c + 1 && #[trigger] checkers@.contains(c2) && blocks_or_takes(sqs, side, c2, u) by {
                        if mask@.contains(u) && !old_mask.contains(u) {
                            assert(blocks_or_takes(sqs, side, c as int, u));
                        }
                    }
                }
            } else {
                proof {
                    assert forall|u: int| mask@.contains(u) <==> exists|c2: int| 0 <= c2 < c + 1 && #[trigger] checkers@.contains(c2) && blocks_or_takes(sqs, side, c2, u) by {
                    }
                }
            }
            proof {
                assert(mask@ =~= Set::new(
                    |u: int|
                        exists|c2: int| 0 <= c2 < c + 1 && #[trigger] checkers@.contains(c2) && blocks_or_takes(sqs, side, c2, u),
                ));
            }
            c = c + 1;
        }
        proof {
            assert forall|u: int| mask@.contains(u) <==> check_mask_of(sqs, side).contains(u) by {
                if check_mask_of(sqs, side).contains(u) {
                    let c2 = choose|c2: int| #[trigger] checkers_of(sqs, side).contains(c2) && blocks_or_takes(sqs, side, c2, u);
                    assert(checkers@.contains(c2));
                }
            }
            assert(mask@ =~= check_mask_of(sqs, side));
        }
        mask
    }

    /// The pinners of the piece on `square` and its pin mask: the enemy sliders that would give
    /// check if the piece were removed, and the union over them of the squares between the king
    /// and the pinner, pinner included. Both are empty for a piece that is not pinned, and for a
    /// king of either side, which is never pinned.
    pub fn calculate_pin_data(&self, tables: &AttackTables, square: Square) -> (r: (BitBoard, BitBoard))
        requires
            self.wf(),
            tables.wf(),
        ensures
            holds_king(self.squares(), square.idx()) ==> r.0@ == Set::<int>::empty() && r.1@
                == Set::<int>::empty(),
            !holds_king(self.squares(), square.idx()) ==> r.0@ == pinners_of(
                self.squares(),
                self.side(),
                square.idx(),
            ) && r.1@ == pin_mask_of(self.squares(), self.side(), square.idx()),
    {
        let ghost sqs = self.squares();
        let ghost side = self.side();
        let s = square.to_index();
        let is_king = match self.piece_on(s) {
            Some(p) => match p.1 {
                PieceType::King => true,
                _ => false,
            },
            None => false,
        };
        if is_king {
            return (BitBoard::empty(), BitBoard::empty());
        }
        let king = self.king_square().to_index();
        proof {
            lemma_king_sq(sqs, side);
        }
        let enemy = self.side_to_move().update();
        let occ = self.blockers().remove(s);
        let attackers = self.attackers_of(tables, king, enemy, &occ);
        let mut pinners = BitBoard::empty();
        let mut mask = BitBoard::empty();
        let mut q: usize = 0;
        while q < 64
            invariant
                self.wf(),
                tables.wf(),
                sqs == self.squares(),
                side == self.side(),
                enemy == side.opp(),
                s < 64,
                s == square.idx(),
                king < 64,
                king == king_sq(sqs, side),
                occ@ == occupied(sqs).remove(s as int),
                attackers@ == Set::new(|a: int| attacker(sqs, occ@, enemy, a, king as int)),
                q <= 64,
                pinners@ == Set::new(|a: int| 0 <= a < q && pins(sqs, side, s as int, a)),
                mask@ == Set::new(
                    |u: int| exists|a: int| 0 <= a < q && #[trigger] pins(sqs, side, s as int, a) && (u == a || between(king as int, a, u)),
                ),
            decreases 64 - q,
        {
            let ghost old_mask = mask@;
            let slider = match self.piece_on(q) {
                Some(p) => match p.1 {
                    PieceType::Bishop | PieceType::Rook | PieceType::Queen => true,
                    _ => false,
                },
                None => false,
            };
            let ray = tables.ray(king, q);
            let is_pinner = slider && attackers.contains(q) && ray.contains(s);
            assert(is_pinner == pins(sqs, side, s as int, q as int));
            if is_pinner {
                pinners.set_bit(q);
                mask.set_bit(q);
                mask = mask.bit_or(&ray);
            }
            proof {
                assert forall|u: int| mask@.contains(u) <==> exists|a: int| 0 <= a < q + 1 && #[trigger] pins(sqs, side, s as int, a) && (u == a || between(king as int, a, u)) by {
                    if mask@.contains(u) && !old_mask.contains(u) {
                        assert(pins(sqs, side, s as int, q as int));
                    }
                }
                assert(mask@ =~= Set::new(
                    |u: int| exists|a: int| 0 <= a < q + 1 && #[trigger] pins(sqs, side, s as int, a) && (u == a || between(king as int, a, u)),
                ));
                assert(pinners@ =~= Set::new(|a: int| 0 <= a < q + 1 && pins(sqs, side, s as int, a)));
            }
            q = q + 1;
        }
        proof {
            assert forall|a: int| pins(sqs, side, s as int, a) implies 0 <= a < 64 by {}
            assert(pinners@ =~= pinners_of(sqs, side, s as int));
            assert forall|u: int| mask@.contains(u) <==> pin_mask_of(sqs, side, s as int).contains(u) by {
                if pin_mask_of(sqs, side, s as int).contains(u) {
                    let a = choose|a: int| #[trigger] pins(sqs, side, s as int, a) && (u == a || between(king_sq(sqs, side), a, u));
                    assert(0 <= a < 64);
                }
            }
            assert(mask@ =~= pin_mask_of(sqs, side, s as int));
        }
        (pinners, mask)
    }

    /// Whether the piece on `square` is pinned to its king; a king never is.
    pub fn is_piece_pinned(&self, tables: &AttackTables, square: Square) -> (r: bool)
        requires
            self.wf(),
            tables.wf(),
        ensures
            r == (!holds_king(self.squares(), square.idx()) && pinners_of(
                self.squares(),
                self.side(),
                square.idx(),
            ) != Set::<int>::empty()),
    {
        let (pinners, _) = self.calculate_pin_data(tables, square);
        pinners.is_not_zero()
    }
}

/// A piece is pinned by one piece at most: two pinners would stand on the same line beyond it,
/// and the nearer one would shield the king from the other.
pub proof fn lemma_one_pinner(sqs: Placement, side: Side, o: int, q1: int, q2: int)
    requires
        pins(sqs, side, o, q1),
        pins(sqs, side, o, q2),
    ensures
        q1 == q2,
{
    let k = king_sq(sqs, side);
    let occ = occupied(sqs).remove(o);
    let d1 = lemma_between_dir(k, q1, o);
    let d2 = lemma_between_dir(k, q2, o);
    lemma_dir_unique(k, o, d1.0, d1.1, d2.0, d2.1);
    lemma_between_strict(k, q1, o);
    lemma_between_strict(k, q2, o);
    if q1 != q2 {
        let (dr, dc) = d1;
        if dist(k, q1, dr, dc) == dist(k, q2, dr, dc) {
            lemma_ray_sq(k, dr, dc, dist(k, q1, dr, dc), q1);
            lemma_ray_sq(k, dr, dc, dist(k, q1, dr, dc), q2);
        } else if dist(k, q1, dr, dc) < dist(k, q2, dr, dc) {
            assert(between_along(k, q2, q1, dr, dc));
            lemma_between_sym(k, q2, q1);
            assert(occ.contains(q1));
            lemma_blocked(occ, q2, k, q1);
        } else {
            assert(between_along(k, q1, q2, dr, dc));
            lemma_between_sym(k, q1, q2);
            assert(occ.contains(q2));
            lemma_blocked(occ, q1, k, q2);
        }
    }
}

} // verus!
