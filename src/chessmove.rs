use vstd::prelude::*;
use crate::bitboard::PieceType;

verus! {

/// What a move does besides carrying a piece from its origin to its target.
#[derive(Debug, Copy, Clone, PartialEq, Eq, Structural)]
pub enum MoveType {
    Normal,
    Castle,
    EnPassant,
    /// A pawn reaching the last row, turned into the given piece.
    Promotion(PieceType),
}

/// A pawn may be turned into a knight, a bishop, a rook or a queen.
pub open spec fn promotable(p: PieceType) -> bool {
    p == PieceType::Knight || p == PieceType::Bishop || p == PieceType::Rook || p
        == PieceType::Queen
}

pub open spec fn valid_kind(m: MoveType) -> bool {
    m matches MoveType::Promotion(p) ==> promotable(p)
}

/// The promoted piece coded by two bits: 0 knight, 1 bishop, 2 rook, 3 queen.
pub open spec fn promo_of_code(c: u16) -> PieceType {
    if c == 0 {
        PieceType::Knight
    } else if c == 1 {
        PieceType::Bishop
    } else if c == 2 {
        PieceType::Rook
    } else {
        PieceType::Queen
    }
}

/// The top four bits of a move's code: kind (0 normal, 1 castle, 2 en passant, 3 promotion)
/// times four, plus the promoted piece (0 knight, 1 bishop, 2 rook, 3 queen).
pub open spec fn kind_bits(m: MoveType) -> int {
    match m {
        MoveType::Normal => 0,
        MoveType::Castle => 4,
        MoveType::EnPassant => 8,
        MoveType::Promotion(PieceType::Knight) => 12,
        MoveType::Promotion(PieceType::Bishop) => 13,
        MoveType::Promotion(PieceType::Rook) => 14,
        MoveType::Promotion(_) => 15,
    }
}

/// The 16-bit code `[kind:2 | promo:2 | target:6 | origin:6]` of a move.
pub open spec fn encode(s: int, t: int, m: MoveType) -> int {
    s + 64 * t + 4096 * kind_bits(m)
}

/// The kind that a 16-bit code holds.
pub open spec fn decode_kind(c: int) -> MoveType {
    let k = c / 16384;
    if k == 0 {
        MoveType::Normal
    } else if k == 1 {
        MoveType::Castle
    } else if k == 2 {
        MoveType::EnPassant
    } else {
        MoveType::Promotion(promo_of_code(((c / 4096) % 4) as u16))
    }
}

/// A move packed in 16 bits: `[kind:2 | promo:2 | target:6 | origin:6]`, kind 0 normal, 1 castle,
/// 2 en passant, 3 promotion; promo 0 knight, 1 bishop, 2 rook, 3 queen.
#[derive(Debug, Copy, Clone, PartialEq, Eq, Structural)]
pub struct ChessMove {
    data: u16,
}

proof fn lemma_pack(s: u16, t: u16, c: u16)
    requires
        s < 64,
        t < 64,
        c < 16,
    ensures
        ((s | (t << 6u16) | (c << 12u16)) & 63) == s,
        (((s | (t << 6u16) | (c << 12u16)) >> 6u16) & 63) == t,
        ((s | (t << 6u16) | (c << 12u16)) >> 14u16) == c >> 2u16,
        (((s | (t << 6u16) | (c << 12u16)) >> 12u16) & 3) == c & 3,
{
    assert(((s | (t << 6u16) | (c << 12u16)) & 63) == s) by (bit_vector)
        requires
            s < 64,
            t < 64,
            c < 16,
    ;
    assert((((s | (t << 6u16) | (c << 12u16)) >> 6u16) & 63) == t) by (bit_vector)
        requires
            s < 64,
            t < 64,
            c < 16,
    ;
    assert(((s | (t << 6u16) | (c << 12u16)) >> 14u16) == c >> 2u16) by (bit_vector)
        requires
            s < 64,
            t < 64,
            c < 16,
    ;
    assert((((s | (t << 6u16) | (c << 12u16)) >> 12u16) & 3) == c & 3) by (bit_vector)
        requires
            s < 64,
            t < 64,
            c < 16,
    ;
}

impl ChessMove {
    /// The origin square.
    pub closed spec fn from_sq(self) -> int {
        (self.data & 63) as int
    }

    /// The target square.
    pub closed spec fn to_sq(self) -> int {
        ((self.data >> 6u16) & 63) as int
    }

    pub closed spec fn kind(self) -> MoveType {
        let k = self.data >> 14u16;
        if k == 0 {
            MoveType::Normal
        } else if k == 1 {
            MoveType::Castle
        } else if k == 2 {
            MoveType::EnPassant
        } else {
            MoveType::Promotion(promo_of_code((self.data >> 12u16) & 3))
        }
    }

    /// The 16-bit code of the move.
    pub closed spec fn code(self) -> u16 {
        self.data
    }

    pub proof fn lemma_bounds(self)
        ensures
            0 <= self.from_sq() < 64,
            0 <= self.to_sq() < 64,
            valid_kind(self.kind()),
    {
        let d = self.data;
        assert(d & 63 < 64 && (d >> 6u16) & 63 < 64) by (bit_vector);
    }

    pub fn source(&self) -> (r: usize)
        ensures
            r == self.from_sq(),
            r < 64,
    {
        let d = self.data;
        assert(d & 63 < 64) by (bit_vector);
        (self.data & 63) as usize
    }

    pub fn target(&self) -> (r: usize)
        ensures
            r == self.to_sq(),
            r < 64,
    {
        let d = self.data;
        assert((d >> 6u16) & 63 < 64) by (bit_vector);
        ((self.data >> 6) & 63) as usize
    }

    pub fn move_type(&self) -> (r: MoveType)
        ensures
            r == self.kind(),
    {
        let k = self.data >> 14u16;
        let p = (self.data >> 12u16) & 3;
        if k == 0 {
            MoveType::Normal
        } else if k == 1 {
            MoveType::Castle
        } else if k == 2 {
            MoveType::EnPassant
        } else {
            let piece = if p == 0 {
                PieceType::Knight
            } else if p == 1 {
                PieceType::Bishop
            } else if p == 2 {
                PieceType::Rook
            } else {
                PieceType::Queen
            };
            MoveType::Promotion(piece)
        }
    }

    /// The 16-bit encoding `[kind:2 | promo:2 | target:6 | origin:6]`.
    pub fn to_u16(&self) -> (r: u16)
        ensures
            r == self.code(),
            r % 64 == self.from_sq(),
            (r / 64) % 64 == self.to_sq(),
            decode_kind(r as int) == self.kind(),
    {
        let d = self.data;
        assert(d & 63 == d % 64 && (d >> 6u16) & 63 == (d / 64) % 64 && d >> 14u16 == d / 16384
            && (d >> 12u16) & 3 == (d / 4096) % 4) by (bit_vector);
        self.data
    }

    /// Replaces the origin square, keeping the target and the kind.
    pub fn set_source(&mut self, index: usize)
        requires
            index < 64,
        ensures
            final(self).from_sq() == index,
            final(self).to_sq() == old(self).to_sq(),
            final(self).kind() == old(self).kind(),
    {
        let t = self.target();
        let m = self.move_type();
        proof {
            old(self).lemma_bounds();
        }
        *self = ChessMove::new(index, t, m);
    }

    /// Replaces the target square, keeping the origin and the kind.
    pub fn set_target(&mut self, index: usize)
        requires
            index < 64,
        ensures
            final(self).from_sq() == old(self).from_sq(),
            final(self).to_sq() == index,
            final(self).kind() == old(self).kind(),
    {
        let s = self.source();
        let m = self.move_type();
        proof {
            old(self).lemma_bounds();
        }
        *self = ChessMove::new(s, index, m);
    }

    /// The move from `s` to `t` of kind `m`.
    pub fn new(s: usize, t: usize, m: MoveType) -> (r: ChessMove)
        requires
            s < 64,
            t < 64,
            valid_kind(m),
        ensures
            r.from_sq() == s,
            r.to_sq() == t,
            r.kind() == m,
            r.code() == encode(s as int, t as int, m),
    {
        let code: u16 = match m {
            MoveType::Normal => 0b00_00,
            MoveType::Castle => 0b01_00,
            MoveType::EnPassant => 0b10_00,
            MoveType::Promotion(PieceType::Knight) => 0b11_00,
            MoveType::Promotion(PieceType::Bishop) => 0b11_01,
            MoveType::Promotion(PieceType::Rook) => 0b11_10,
            MoveType::Promotion(_) => 0b11_11,
        };
        let (s16, t16) = (s as u16, t as u16);
        let data: u16 = s16 | (t16 << 6u16) | (code << 12u16);
        proof {
            lemma_pack(s16, t16, code);
            assert((s16 | (t16 << 6u16) | (code << 12u16)) == s16 + 64 * t16 + 4096 * code) by (bit_vector)
                requires
                    s16 < 64,
                    t16 < 64,
                    code < 16,
            ;
            assert(code == 0 ==> code >> 2u16 == 0) by (bit_vector);
            assert(code == 12 ==> code >> 2u16 == 3 && code & 3 == 0) by (bit_vector);
            assert(code == 13 ==> code >> 2u16 == 3 && code & 3 == 1) by (bit_vector);
            assert(code == 14 ==> code >> 2u16 == 3 && code & 3 == 2) by (bit_vector);
            assert(code == 15 ==> code >> 2u16 == 3 && code & 3 == 3) by (bit_vector);
            assert(code == 4 ==> code >> 2u16 == 1) by (bit_vector);
            assert(code == 8 ==> code >> 2u16 == 2) by (bit_vector);
        }
        ChessMove { data }
    }
}

} // verus!
