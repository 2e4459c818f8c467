use vstd::prelude::*;
use crate::bitboard::PieceType;
use crate::square::is_square;
use crate::chessmove::{ChessMove, MoveType, promotable};
use crate::board::{
    ChessBoard, in_check, checkers_of, ep_victim, occupied, attacker, attacked, attacked_with,
    is_king_of, ep_target_ok,
};
use crate::pins::{
    pin_mask_of, pins, in_pin_mask, king_sq, lemma_king_sq, is_slider, check_mask_of, blocks_or_takes,
};
use crate::attacks::{
    between, lemma_between_sym, lemma_slider_keeps, lemma_between_strict, lemma_blocked,
};
use crate::movegen::{
    legal, legal_move, pseudo_legal, after, holds_side, castle_safe, castle_target,
};

verus! {

/// A generated move starts on a square holding a piece of the side to move, and lands on an
/// empty square or on a piece of the other side; an en-passant capture lands on the en-passant
/// target.
pub proof fn lemma_generated_squares(b: ChessBoard, m: ChessMove)
    requires
        b.wf(),
        legal_move(b, m),
    ensures
        b.squares()[m.from_sq()] matches Some(p) && p.0 == b.side(),
        m.kind() == MoveType::EnPassant ==> b.ep().contains(m.to_sq()),
        m.kind() != MoveType::EnPassant ==> (b.squares()[m.to_sq()] is None || holds_side(
            b.squares(),
            m.to_sq(),
            b.side().opp(),
        )),
{
    reveal(legal);
    let sqs = b.squares();
    let t = m.to_sq();
    if m.kind() == MoveType::Castle {
        assert(crate::movegen::castle_between(b.side(), t == castle_target(b.side(), true), t));
    }
}

/// Playing a generated move never leaves the mover's king attacked.
pub proof fn lemma_generated_keeps_king_safe(b: ChessBoard, m: ChessMove)
    requires
        b.wf(),
        legal_move(b, m),
    ensures
        !in_check(after(b, m.from_sq(), m.to_sq(), m.kind()), b.side()),
{
    reveal(legal);
}

/// A move that respects how its piece moves but is not generated either leaves the mover's king
/// attacked or breaks another rule: a non-king move in double check, castling out of or through
/// check, or an en-passant capture that leaves a check standing.
pub proof fn lemma_rejected_moves(b: ChessBoard, o: int, t: int, k: MoveType)
    requires
        b.wf(),
        pseudo_legal(b, o, t, k),
        !legal(b, o, t, k),
    ensures
        in_check(after(b, o, t, k), b.side()) || (b.check_set().len() >= 2 && !(b.squares()[o] matches Some(p)
            && p.1 == PieceType::King)) || (k == MoveType::Castle && (b.check_set() != Set::<int>::empty()
            || !castle_safe(b, b.side(), t == castle_target(b.side(), true)))) || (k
            == MoveType::EnPassant && b.check_set() != Set::<int>::empty() && b.check_set() != set![
            ep_victim(b.side(), t),
        ]),
{
    reveal(legal);
}

/// At most two pieces give check in a well-formed position.
pub proof fn lemma_checkers_at_most_two(b: ChessBoard)
    requires
        b.wf(),
    ensures
        checkers_of(b.squares(), b.side()).finite(),
        checkers_of(b.squares(), b.side()).len() <= 2,
{
}

/// In double check every generated move is a king move.
pub proof fn lemma_double_check_king_moves(b: ChessBoard, m: ChessMove)
    requires
        b.wf(),
        legal_move(b, m),
        checkers_of(b.squares(), b.side()).len() >= 2,
    ensures
        b.squares()[m.from_sq()] matches Some(p) && p.1 == PieceType::King,
{
    reveal(legal);
}

/// What a pseudo-legal move other than castling touches: it moves between two different
/// squares, from a piece of the mover to a square without one, and en passant takes a pawn of
/// the other side standing on a third square.
proof fn lemma_pseudo_facts(b: ChessBoard, o: int, t: int, k: MoveType)
    requires
        b.wf(),
        pseudo_legal(b, o, t, k),
    ensures
        t != o,
        holds_side(b.squares(), o, b.side()),
        !holds_side(b.squares(), t, b.side()),
        k == MoveType::EnPassant ==> {
            let v = ep_victim(b.side(), t);
            &&& is_square(v)
            &&& v != o
            &&& v != t
            &&& b.squares()[v] == Some((b.side().opp(), PieceType::Pawn))
        },
{
    let sqs = b.squares();
    let side = b.side();
    if k == MoveType::EnPassant {
        let e = choose|e: int| #[trigger] ep_target_ok(sqs, side, e) && b.ep() == set![e];
        assert(b.ep().contains(t));
        assert(e == t);
    }
    if k == MoveType::Castle {
        assert(crate::movegen::castle_between(side, t == castle_target(side, true), t));
    }
}

/// Outside the squares a move touches, the placement after it is the one before.
proof fn lemma_after_frame(b: ChessBoard, o: int, t: int, k: MoveType, x: int)
    requires
        b.wf(),
        pseudo_legal(b, o, t, k),
        k != MoveType::Castle,
        is_square(x),
        x != o,
        x != t,
        k == MoveType::EnPassant ==> x != ep_victim(b.side(), t),
    ensures
        after(b, o, t, k)[x] == b.squares()[x],
{
    b.lemma_squares_len();
}

/// After a move other than castling, a square other than its origin and target is occupied only
/// if it was before.
proof fn lemma_after_occupied(b: ChessBoard, o: int, t: int, k: MoveType, u: int)
    requires
        b.wf(),
        pseudo_legal(b, o, t, k),
        k != MoveType::Castle,
        u != o,
        u != t,
        occupied(after(b, o, t, k)).contains(u),
    ensures
        occupied(b.squares()).remove(o).contains(u),
{
    b.lemma_squares_len();
    lemma_pseudo_facts(b, o, t, k);
}

/// When the piece on a move's origin is pinned (its pin mask is not empty), every generated move
/// from there lands inside the pin mask.
pub proof fn lemma_pinned_piece_stays_on_line(b: ChessBoard, m: ChessMove)
    requires
        b.wf(),
        legal_move(b, m),
        pin_mask_of(b.squares(), b.side(), m.from_sq()) != Set::<int>::empty(),
    ensures
        pin_mask_of(b.squares(), b.side(), m.from_sq()).contains(m.to_sq()),
{
    lemma_pin_mask_holds(b, m.from_sq(), m.to_sq(), m.kind());
}

pub proof fn lemma_pin_mask_holds(b: ChessBoard, o: int, t: int, k: MoveType)
    requires
        b.wf(),
        legal(b, o, t, k),
    ensures
        pin_mask_of(b.squares(), b.side(), o) != Set::<int>::empty() ==> pin_mask_of(
            b.squares(),
            b.side(),
            o,
        ).contains(t),
{
    reveal(legal);
    let sqs = b.squares();
    let side = b.side();
    let mask = pin_mask_of(sqs, side, o);
    if mask != Set::<int>::empty() {
        crate::bitboard::lemma_member(mask);
        let u0 = choose|u0: int| mask.contains(u0);
        let q = choose|q: int| #[trigger] pins(sqs, side, o, q) && (u0 == q || between(king_sq(sqs, side), q, u0));
        if !mask.contains(t) {
            pinned_move_checks(b, o, t, k, q);
        }
    }
}

/// In single check, a generated move of a piece other than the king, other than an en-passant
/// capture, lands on the checker or, for a sliding checker, between it and the king.
pub proof fn lemma_check_mask_holds(b: ChessBoard, o: int, t: int, k: MoveType)
    requires
        b.wf(),
        legal(b, o, t, k),
        k != MoveType::EnPassant,
        !(b.squares()[o] matches Some(p) && p.1 == PieceType::King),
        b.check_set() != Set::<int>::empty(),
    ensures
        check_mask_of(b.squares(), b.side()).contains(t),
{
    reveal(legal);
    let sqs = b.squares();
    let side = b.side();
    crate::bitboard::lemma_member(b.check_set());
    let c = choose|c: int| b.check_set().contains(c);
    if !check_mask_of(sqs, side).contains(t) {
        assert(!blocks_or_takes(sqs, side, c, t));
        checker_stays(b, o, t, k, c);
    }
}

/// A move of a piece other than the king that neither takes the checker on `c` nor blocks it
/// leaves the king attacked.
proof fn checker_stays(b: ChessBoard, o: int, t: int, k: MoveType, c: int)
    requires
        b.wf(),
        pseudo_legal(b, o, t, k),
        k != MoveType::EnPassant,
        !(b.squares()[o] matches Some(p) && p.1 == PieceType::King),
        checkers_of(b.squares(), b.side()).contains(c),
        !blocks_or_takes(b.squares(), b.side(), c, t),
    ensures
        in_check(after(b, o, t, k), b.side()),
{
    let sqs = b.squares();
    let side = b.side();
    let kk = king_sq(sqs, side);
    lemma_king_sq(sqs, side);
    let kc = choose|kc: int| #[trigger] is_king_of(sqs, side, kc) && attacker(sqs, occupied(sqs), side.opp(), c, kc);
    assert(kc == kk);
    lemma_pseudo_facts(b, o, t, k);
    assert(k != MoveType::Castle);
    assert(o != kk);
    let occ1 = occupied(sqs);
    let aft = after(b, o, t, k);
    let occ2 = occupied(aft);
    lemma_after_frame(b, o, t, k, c);
    lemma_after_frame(b, o, t, k, kk);
    let p = sqs[c].unwrap();
    if is_slider(p.1) {
        assert forall|u: int| between(c, kk, u) && occ2.contains(u) implies occ1.contains(u) by {
            lemma_between_sym(c, kk, u);
            lemma_between_strict(c, kk, u);
            if u == o {
                b.lemma_squares_len();
            } else {
                lemma_after_occupied(b, o, t, k, u);
            }
        }
        lemma_slider_keeps(occ1, occ2, c, kk);
    }
    assert(attacker(aft, occ2, side.opp(), c, kk));
    assert(is_king_of(aft, side, kk));
    assert(attacked(aft, kk, side.opp()));
}

/// A move of the piece on `o`, pinned by the slider on `q`, to a square `t` off the pin line
/// leaves the king attacked by that slider.
proof fn pinned_move_checks(b: ChessBoard, o: int, t: int, k: MoveType, q: int)
    requires
        b.wf(),
        pseudo_legal(b, o, t, k),
        pins(b.squares(), b.side(), o, q),
        !in_pin_mask(b.squares(), b.side(), o, t),
    ensures
        in_check(after(b, o, t, k), b.side()),
{
    let sqs = b.squares();
    let side = b.side();
    let kk = king_sq(sqs, side);
    lemma_king_sq(sqs, side);
    assert(t != q);
    assert(!between(kk, q, t));
    lemma_between_strict(kk, q, o);
    lemma_pseudo_facts(b, o, t, k);
    let p = sqs[q].unwrap();
    assert(is_slider(p.1));
    let occ1 = occupied(sqs).remove(o);
    assert(attacker(sqs, occ1, side.opp(), q, kk));
    assert(k != MoveType::Castle) by {
        if k == MoveType::Castle {
            assert(is_king_of(sqs, side, o));
        }
    }
    let aft = after(b, o, t, k);
    let occ2 = occupied(aft);
    lemma_after_frame(b, o, t, k, q);
    lemma_after_frame(b, o, t, k, kk);
    assert forall|u: int| between(q, kk, u) && occ2.contains(u) implies occ1.contains(u) by {
        lemma_between_sym(q, kk, u);
        lemma_between_strict(q, kk, u);
        if u == o {
            b.lemma_squares_len();
        } else {
            lemma_after_occupied(b, o, t, k, u);
        }
    }
    lemma_slider_keeps(occ1, occ2, q, kk);
    assert(attacker(aft, occ2, side.opp(), q, kk));
    assert(is_king_of(aft, side, kk));
    assert(attacked(aft, kk, side.opp()));
}

/// For a plain king move, the king is attacked afterwards exactly when its target is attacked
/// once the king is lifted from its square: a slider checking the king along a line also bars
/// the square behind the king on that line.
pub proof fn lemma_king_step_safety(b: ChessBoard, o: int, t: int)
    requires
        b.wf(),
        pseudo_legal(b, o, t, MoveType::Normal),
        b.squares()[o] matches Some(p) && p.1 == PieceType::King,
    ensures
        in_check(after(b, o, t, MoveType::Normal), b.side()) == attacked_with(
            b.squares(),
            occupied(b.squares()).remove(o),
            t,
            b.side().opp(),
        ),
{
    let sqs = b.squares();
    let side = b.side();
    let opp = side.opp();
    b.lemma_squares_len();
    lemma_pseudo_facts(b, o, t, MoveType::Normal);
    let aft = after(b, o, t, MoveType::Normal);
    let occ1 = occupied(sqs).remove(o);
    let occ2 = occupied(aft);
    lemma_king_sq(sqs, side);
    assert(is_king_of(sqs, side, o));
    assert(is_king_of(aft, side, t));
    if in_check(aft, side) {
        let kk = choose|kk: int| #[trigger] is_king_of(aft, side, kk) && attacked(aft, kk, opp);
        if kk != t {
            assert(aft[kk] == sqs[kk]);
            assert(is_king_of(sqs, side, kk));
        }
        let q = choose|q: int| #[trigger] attacker(aft, occ2, opp, q, t);
        assert(aft[q] == sqs[q]);
        assert forall|u: int| between(q, t, u) && occ1.contains(u) implies occ2.contains(u) by {
            lemma_between_strict(q, t, u);
        }
        lemma_slider_keeps(occ2, occ1, q, t);
        assert(attacker(sqs, occ1, opp, q, t));
    }
    if attacked_with(sqs, occ1, t, opp) {
        let q = choose|q: int| #[trigger] attacker(sqs, occ1, opp, q, t);
        assert(q != t);
        assert(aft[q] == sqs[q]);
        assert forall|u: int| between(q, t, u) && occ2.contains(u) implies occ1.contains(u) by {
            lemma_between_strict(q, t, u);
        }
        lemma_slider_keeps(occ1, occ2, q, t);
        assert(attacker(aft, occ2, opp, q, t));
        assert(attacked(aft, t, opp));
    }
}

/// A move of a piece other than the king, other than en passant, that lands inside its pin mask
/// when it is pinned and inside the check mask when in check, leaves the king unattacked: an
/// attacker afterwards would either be the checker, which the move takes or blocks, or a slider
/// uncovered by the move, which then pins the piece and is again taken or blocked.
pub proof fn lemma_masked_move_safe(b: ChessBoard, o: int, t: int, k: MoveType)
    requires
        b.wf(),
        pseudo_legal(b, o, t, k),
        k == MoveType::Normal || k is Promotion,
        !(b.squares()[o] matches Some(p) && p.1 == PieceType::King),
        b.check_set().len() < 2,
        pin_mask_of(b.squares(), b.side(), o) != Set::<int>::empty() ==> pin_mask_of(
            b.squares(),
            b.side(),
            o,
        ).contains(t),
        b.check_set() != Set::<int>::empty() ==> check_mask_of(b.squares(), b.side()).contains(t),
    ensures
        !in_check(after(b, o, t, k), b.side()),
{
    let sqs = b.squares();
    let side = b.side();
    let opp = side.opp();
    let kk = king_sq(sqs, side);
    lemma_king_sq(sqs, side);
    lemma_pseudo_facts(b, o, t, k);
    b.lemma_squares_len();
    let aft = after(b, o, t, k);
    let occ1 = occupied(sqs);
    let occ2 = occupied(aft);
    if in_check(aft, side) {
        let k2 = choose|k2: int| #[trigger] is_king_of(aft, side, k2) && attacked(aft, k2, opp);
        assert(aft[o] is None);
        assert(k2 != t) by {
            if k2 == t {
                assert(aft[t] == Some((side, PieceType::King)));
                if let MoveType::Promotion(pq) = k {
                    assert(promotable(pq));
                } else {
                    assert(aft[t] == sqs[o]);
                }
            }
        }
        lemma_after_frame(b, o, t, k, k2);
        assert(is_king_of(sqs, side, k2));
        assert(k2 == kk);
        let q = choose|q: int| #[trigger] attacker(aft, occ2, opp, q, kk);
        lemma_after_frame(b, o, t, k, q);
        let pc = sqs[q].unwrap();
        assert(occ2.contains(t));
        if attacker(sqs, occ1, opp, q, kk) {
            assert(checkers_of(sqs, side).contains(q));
            let c = choose|c: int| #[trigger] checkers_of(sqs, side).contains(c) && blocks_or_takes(sqs, side, c, t);
            if c != q {
                vstd::set_lib::lemma_len_subset(set![c, q], b.check_set());
                assert(set![c, q].len() == 2) by {
                    assert(set![c, q] =~= set![c].insert(q));
                }
            }
            lemma_between_sym(kk, q, t);
            lemma_blocked(occ2, q, kk, t);
        } else {
            let occ0 = occ1.remove(o);
            assert forall|u: int| between(q, kk, u) && occ0.contains(u) implies occ2.contains(u) by {
                lemma_between_strict(q, kk, u);
                if u != t {
                    lemma_after_frame(b, o, t, k, u);
                }
            }
            lemma_slider_keeps(occ2, occ0, q, kk);
            assert(is_slider(pc.1));
            assert(attacker(sqs, occ0, opp, q, kk));
            if !between(q, kk, o) {
                lemma_slider_keeps(occ0, occ1, q, kk);
            }
            lemma_between_sym(q, kk, o);
            assert(pins(sqs, side, o, q));
            assert(in_pin_mask(sqs, side, o, q));
            assert(pin_mask_of(sqs, side, o).contains(q));
            assert(pin_mask_of(sqs, side, o).contains(t));
            let q2 = choose|q2: int| #[trigger] pins(sqs, side, o, q2) && (t == q2 || between(kk, q2, t));
            crate::pins::lemma_one_pinner(sqs, side, o, q, q2);
            lemma_between_sym(kk, q, t);
            lemma_blocked(occ2, q, kk, t);
        }
    }
}

} // verus!
