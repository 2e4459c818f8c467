use vstd::prelude::*;
use vstd::std_specs::bits::axiom_u64_trailing_zeros;
use crate::square::{Square, is_square};

verus! {

/// Whether bit `i` of `x` is set.
pub open spec fn bit_on(x: u64, i: int) -> bool {
    0 <= i < 64 && (x >> (i as u64)) & 1 == 1
}

/// Number of set bits of `x` below position `n`.
pub open spec fn count_below(x: u64, n: nat) -> nat
    decreases n,
{
    if n == 0 {
        0
    } else {
        count_below(x, (n - 1) as nat) + if bit_on(x, n - 1) {
            1nat
        } else {
            0nat
        }
    }
}

/// The set of the squares `0..64`.
pub open spec fn all_squares() -> Set<int> {
    Set::new(|i: int| is_square(i))
}

pub proof fn lemma_and(a: u64, b: u64, i: u64)
    requires
        i < 64,
    ensures
        ((a & b) >> i) & 1 == 1 <==> ((a >> i) & 1 == 1 && (b >> i) & 1 == 1),
{
    assert(((a & b) >> i) & 1 == 1 <==> ((a >> i) & 1 == 1 && (b >> i) & 1 == 1)) by (bit_vector);
}

pub proof fn lemma_or(a: u64, b: u64, i: u64)
    requires
        i < 64,
    ensures
        ((a | b) >> i) & 1 == 1 <==> ((a >> i) & 1 == 1 || (b >> i) & 1 == 1),
{
    assert(((a | b) >> i) & 1 == 1 <==> ((a >> i) & 1 == 1 || (b >> i) & 1 == 1)) by (bit_vector);
}

pub proof fn lemma_xor(a: u64, b: u64, i: u64)
    requires
        i < 64,
    ensures
        ((a ^ b) >> i) & 1 == 1 <==> ((a >> i) & 1 == 1) != ((b >> i) & 1 == 1),
{
    assert(((a ^ b) >> i) & 1 == 1 <==> ((a >> i) & 1 == 1) != ((b >> i) & 1 == 1))
        by (bit_vector);
}

pub proof fn lemma_not(a: u64, i: u64)
    requires
        i < 64,
    ensures
        ((!a) >> i) & 1 == 1 <==> !((a >> i) & 1 == 1),
{
    assert(((!a) >> i) & 1 == 1 <==> !((a >> i) & 1 == 1)) by (bit_vector)
        requires
            i < 64,
    ;
}

pub proof fn lemma_single(i: u64, j: u64)
    requires
        i < 64,
        j < 64,
    ensures
        ((1u64 << i) >> j) & 1 == 1 <==> i == j,
{
    assert(((1u64 << i) >> j) & 1 == 1 <==> i == j) by (bit_vector)
        requires
            i < 64,
            j < 64,
    ;
}

pub proof fn lemma_zero(x: u64)
    ensures
        x == 0 <==> (forall|i: int| !bit_on(x, i)),
{
    if x == 0 {
        assert forall|i: int| !bit_on(x, i) by {
            if 0 <= i < 64 {
                let j = i as u64;
                assert((0u64 >> j) & 1 == 0) by (bit_vector);
            }
        }
    } else {
        axiom_u64_trailing_zeros(x);
        let t = x.trailing_zeros();
        assert(bit_on(x, t as int));
    }
}

/// Bitboards with the same squares are the same.
pub proof fn lemma_view_injective(a: BitBoard, b: BitBoard)
    requires
        a@ == b@,
    ensures
        a == b,
{
    let x = a.data ^ b.data;
    assert forall|i: int| !bit_on(x, i) by {
        if 0 <= i < 64 {
            lemma_xor(a.data, b.data, i as u64);
            assert(a@.contains(i) == b@.contains(i));
            assert(a@.contains(i) == bit_on(a.data, i));
            assert(b@.contains(i) == bit_on(b.data, i));
        }
    }
    lemma_zero(x);
    let (p, q) = (a.data, b.data);
    assert(p ^ q == 0 ==> p == q) by (bit_vector);
}

/// A set of squares, bit `i` standing for square `i`.
#[derive(Debug, Copy, Clone, PartialEq, Eq, Structural)]
pub struct BitBoard {
    pub data: u64,
}

impl View for BitBoard {
    type V = Set<int>;

    open spec fn view(&self) -> Set<int> {
        Set::new(|i: int| bit_on(self.data, i))
    }
}

impl BitBoard {
    pub open spec fn count(self) -> nat {
        count_below(self.data, 64)
    }

    pub fn new(data: u64) -> (r: BitBoard)
        ensures
            r.data == data,
    {
        BitBoard { data }
    }

    pub fn empty() -> (r: BitBoard)
        ensures
            r@ == Set::<int>::empty(),
            r.data == 0,
    {
        let r = BitBoard { data: 0 };
        proof {
            lemma_zero(0);
            assert(r@ =~= Set::<int>::empty());
        }
        r
    }

    /// The bitboard holding `sq` alone.
    pub fn nth(sq: Square) -> (r: BitBoard)
        ensures
            r@ == set![sq.idx()],
    {
        BitBoard::single(sq.to_index())
    }

    pub fn single(i: usize) -> (r: BitBoard)
        requires
            i < 64,
        ensures
            r@ == set![i as int],
    {
        let r = BitBoard { data: 1u64 << (i as u64) };
        proof {
            assert forall|j: int| r@.contains(j) <==> j == i as int by {
                if 0 <= j < 64 {
                    lemma_single(i as u64, j as u64);
                }
            }
            assert(r@ =~= set![i as int]);
        }
        r
    }

    pub fn nth_is_zero(&self, sq: Square) -> (r: bool)
        ensures
            r == !self@.contains(sq.idx()),
    {
        !self.contains(sq.to_index())
    }

    pub fn nth_is_not_zero(&self, sq: Square) -> (r: bool)
        ensures
            r == self@.contains(sq.idx()),
    {
        self.contains(sq.to_index())
    }

    /// Whether square `i` is in the set.
    pub fn contains(&self, i: usize) -> (r: bool)
        requires
            i < 64,
        ensures
            r == self@.contains(i as int),
    {
        (self.data >> (i as u64)) & 1 == 1
    }

    pub fn is_zero(&self) -> (r: bool)
        ensures
            r == (self@ == Set::<int>::empty()),
    {
        proof {
            lemma_zero(self.data);
            if self.data != 0 {
                let i = choose|i: int| bit_on(self.data, i);
                assert(self@.contains(i));
            } else {
                assert(self@ =~= Set::<int>::empty());
            }
        }
        self.data == 0
    }

    pub fn is_not_zero(&self) -> (r: bool)
        ensures
            r == (self@ != Set::<int>::empty()),
    {
        !self.is_zero()
    }

    pub fn set_bit(&mut self, i: usize)
        requires
            i < 64,
        ensures
            final(self)@ == old(self)@.insert(i as int),
    {
        let b = BitBoard::single(i);
        *self = self.bit_or(&b);
        proof {
            assert(final(self)@ =~= old(self)@.insert(i as int));
        }
    }

    /// The set restricted to square `i`.
    pub fn get_bit(&self, i: usize) -> (r: BitBoard)
        requires
            i < 64,
        ensures
            r@ == self@.intersect(set![i as int]),
    {
        self.bit_and(&BitBoard::single(i))
    }

    /// The set without `square`.
    pub fn pop_bit(&self, square: Square) -> (r: BitBoard)
        ensures
            r@ == self@.remove(square.idx()),
    {
        self.remove(square.to_index())
    }

    pub fn remove(&self, i: usize) -> (r: BitBoard)
        requires
            i < 64,
        ensures
            r@ == self@.remove(i as int),
    {
        let r = self.bit_and(&BitBoard::single(i).bit_not());
        proof {
            assert(r@ =~= self@.remove(i as int));
        }
        r
    }

    pub fn get_bit_data(&self, i: usize) -> (r: u64)
        requires
            i < 64,
        ensures
            (BitBoard { data: r })@ == self@.intersect(set![i as int]),
    {
        self.get_bit(i).data
    }

    pub fn pop_bit_data(&self, i: usize) -> (r: u64)
        requires
            i < 64,
        ensures
            (BitBoard { data: r })@ == self@.remove(i as int),
    {
        self.remove(i).data
    }

    /// The lowest square of the set, if any.
    pub fn lsb_index(&self) -> (r: Option<usize>)
        ensures
            r is None <==> self@ == Set::<int>::empty(),
            r matches Some(i) ==> i < 64 && self@.contains(i as int) && forall|j: int|
                0 <= j < i ==> !self@.contains(j),
    {
        proof {
            axiom_u64_trailing_zeros(self.data);
            lemma_zero(self.data);
        }
        if self.data == 0 {
            proof {
                assert(self@ =~= Set::<int>::empty());
            }
            None
        } else {
            let t = self.data.trailing_zeros();
            proof {
                assert(self@.contains(t as int));
                assert forall|j: int| 0 <= j < t implies !self@.contains(j) by {
                    assert((self.data >> (j as u64)) & 1 == 0);
                }
            }
            Some(t as usize)
        }
    }

    /// The square of the lowest index in the set, if any.
    pub fn lsb_square(&self) -> (r: Option<Square>)
        ensures
            r is None <==> self@ == Set::<int>::empty(),
            r matches Some(s) ==> self@.contains(s.idx()) && forall|j: int|
                0 <= j < s.idx() ==> !self@.contains(j),
    {
        match self.lsb_index() {
            None => None,
            Some(i) => Some(crate::square::square_of(i)),
        }
    }

    /// Number of squares in the set.
    pub fn count_ones(&self) -> (r: u32)
        ensures
            r == self.count(),
            r == self@.len(),
            self@.finite(),
    {
        proof {
            lemma_count_is_len(*self);
        }
        let mut n: u32 = 0;
        let mut i: u64 = 0;
        while i < 64
            invariant
                i <= 64,
                n == count_below(self.data, i as nat),
                n <= i,
            decreases 64 - i,
        {
            if (self.data >> i) & 1 == 1 {
                n = n + 1;
            }
            i = i + 1;
        }
        n
    }

    pub fn bit_and(&self, other: &BitBoard) -> (r: BitBoard)
        ensures
            r@ == self@.intersect(other@),
    {
        let r = BitBoard { data: self.data & other.data };
        proof {
            assert forall|i: int| r@.contains(i) <==> self@.contains(i) && other@.contains(i) by {
                if 0 <= i < 64 {
                    lemma_and(self.data, other.data, i as u64);
                }
            }
            assert(r@ =~= self@.intersect(other@));
        }
        r
    }

    pub fn bit_or(&self, other: &BitBoard) -> (r: BitBoard)
        ensures
            r@ == self@.union(other@),
    {
        let r = BitBoard { data: self.data | other.data };
        proof {
            assert forall|i: int| r@.contains(i) <==> self@.contains(i) || other@.contains(i) by {
                if 0 <= i < 64 {
                    lemma_or(self.data, other.data, i as u64);
                }
            }
            assert(r@ =~= self@.union(other@));
        }
        r
    }

    /// The squares in exactly one of the two sets.
    pub fn bit_xor(&self, other: &BitBoard) -> (r: BitBoard)
        ensures
            r@ == self@.union(other@).difference(self@.intersect(other@)),
    {
        let r = BitBoard { data: self.data ^ other.data };
        proof {
            assert forall|i: int| r@.contains(i) <==> self@.contains(i) != other@.contains(i) by {
                if 0 <= i < 64 {
                    lemma_xor(self.data, other.data, i as u64);
                }
            }
            assert(r@ =~= self@.union(other@).difference(self@.intersect(other@)));
        }
        r
    }

    /// The squares of the board outside the set.
    pub fn bit_not(&self) -> (r: BitBoard)
        ensures
            r@ == all_squares().difference(self@),
    {
        let r = BitBoard { data: !self.data };
        proof {
            assert forall|i: int| r@.contains(i) <==> is_square(i) && !self@.contains(i) by {
                if 0 <= i < 64 {
                    lemma_not(self.data, i as u64);
                }
            }
            assert(r@ =~= all_squares().difference(self@));
        }
        r
    }

    /// The set without the squares of `other`.
    pub fn minus(&self, other: &BitBoard) -> (r: BitBoard)
        ensures
            r@ == self@.difference(other@),
    {
        let r = self.bit_and(&other.bit_not());
        proof {
            assert(r@ =~= self@.difference(other@));
        }
        r
    }
}

/// The two players.
#[derive(Debug, Copy, Clone, PartialEq, Eq, Structural)]
pub enum Side {
    White,
    Black,
}

impl Side {
    pub open spec fn opp(self) -> Side {
        match self {
            Side::White => Side::Black,
            Side::Black => Side::White,
        }
    }

    /// The other side.
    pub fn update(&self) -> (r: Side)
        ensures
            r == self.opp(),
    {
        match self {
            Side::White => Side::Black,
            Side::Black => Side::White,
        }
    }
}

#[derive(Debug, Copy, Clone, PartialEq, Eq, Structural)]
pub enum PieceType {
    Pawn,
    Knight,
    Bishop,
    Rook,
    Queen,
    King,
}

impl PieceType {
    /// The six piece types: pawn, knight, bishop, rook, queen, king.
    pub fn iterator() -> (r: Vec<PieceType>)
        ensures
            r@ == seq![
                PieceType::Pawn,
                PieceType::Knight,
                PieceType::Bishop,
                PieceType::Rook,
                PieceType::Queen,
                PieceType::King,
            ],
    {
        vec![
            PieceType::Pawn,
            PieceType::Knight,
            PieceType::Bishop,
            PieceType::Rook,
            PieceType::Queen,
            PieceType::King,
        ]
    }
}

/// A piece: its side and its type.
pub type ChessPiece = (Side, PieceType);

/// Position of a piece type in the order king, queen, knight, bishop, rook, pawn.
pub open spec fn type_rank(t: PieceType) -> int {
    match t {
        PieceType::King => 0,
        PieceType::Queen => 1,
        PieceType::Knight => 2,
        PieceType::Bishop => 3,
        PieceType::Rook => 4,
        PieceType::Pawn => 5,
    }
}

/// The index of a piece: K=0, Q=1, N=2, B=3, R=4, P=5, then the black pieces 6..11 in the same order.
pub open spec fn piece_index(p: ChessPiece) -> int {
    (if p.0 == Side::White {
        0int
    } else {
        6int
    }) + type_rank(p.1)
}

/// The piece of index `i`, inverse of `piece_index`.
pub open spec fn piece_of_index(i: int) -> ChessPiece {
    let side = if i < 6 {
        Side::White
    } else {
        Side::Black
    };
    let m = i % 6;
    let t = if m == 0 {
        PieceType::King
    } else if m == 1 {
        PieceType::Queen
    } else if m == 2 {
        PieceType::Knight
    } else if m == 3 {
        PieceType::Bishop
    } else if m == 4 {
        PieceType::Rook
    } else {
        PieceType::Pawn
    };
    (side, t)
}

pub proof fn lemma_piece_index(p: ChessPiece)
    ensures
        0 <= piece_index(p) < 12,
        piece_of_index(piece_index(p)) == p,
{
}

pub proof fn lemma_piece_of_index(i: int)
    requires
        0 <= i < 12,
    ensures
        piece_index(piece_of_index(i)) == i,
{
}

/// The index of a piece in the order K, Q, N, B, R, P, k, q, n, b, r, p.
pub fn cp_index(data: ChessPiece) -> (r: usize)
    ensures
        r == piece_index(data),
        r < 12,
{
    let base: usize = match data.0 {
        Side::White => 0,
        Side::Black => 6,
    };
    let t: usize = match data.1 {
        PieceType::King => 0,
        PieceType::Queen => 1,
        PieceType::Knight => 2,
        PieceType::Bishop => 3,
        PieceType::Rook => 4,
        PieceType::Pawn => 5,
    };
    base + t
}

/// The letter of a piece: upper case for White, lower case for Black.
pub open spec fn piece_symbol(i: int) -> char {
    seq!['K', 'Q', 'N', 'B', 'R', 'P', 'k', 'q', 'n', 'b', 'r', 'p'][i]
}

pub open spec fn is_piece_symbol(c: char) -> bool {
    exists|i: int| 0 <= i < 12 && piece_symbol(i) == c
}

/// The piece index of a piece letter.
pub fn sym_index(c: char) -> (r: usize)
    requires
        is_piece_symbol(c),
    ensures
        r < 12,
        piece_symbol(r as int) == c,
{
    match c {
        'K' => 0,
        'Q' => 1,
        'N' => 2,
        'B' => 3,
        'R' => 4,
        'P' => 5,
        'k' => 6,
        'q' => 7,
        'n' => 8,
        'b' => 9,
        'r' => 10,
        _ => 11,
    }
}

/// A set that is not empty has a member.
pub proof fn lemma_member(s: Set<int>)
    requires
        s != Set::<int>::empty(),
    ensures
        exists|x: int| s.contains(x),
{
    if !(exists|x: int| s.contains(x)) {
        assert(s =~= Set::<int>::empty());
    }
}

/// The set bits below `n`.
pub open spec fn bits_below(x: u64, n: int) -> Set<int> {
    Set::new(|i: int| 0 <= i < n && bit_on(x, i))
}

/// `count_below` is the size of the set of bits it counts.
pub proof fn lemma_count_len(x: u64, n: nat)
    ensures
        bits_below(x, n as int).finite(),
        count_below(x, n) == bits_below(x, n as int).len(),
    decreases n,
{
    if n == 0 {
        assert(bits_below(x, 0) =~= Set::<int>::empty());
    } else {
        let m = (n - 1) as nat;
        lemma_count_len(x, m);
        if bit_on(x, m as int) {
            assert(bits_below(x, n as int) =~= bits_below(x, m as int).insert(m as int));
        } else {
            assert(bits_below(x, n as int) =~= bits_below(x, m as int));
        }
    }
}

/// The number of squares of a bitboard is the size of its set.
pub proof fn lemma_count_is_len(b: BitBoard)
    ensures
        b@.finite(),
        b.count() == b@.len(),
{
    lemma_count_len(b.data, 64);
    assert(bits_below(b.data, 64) =~= b@);
}

} // verus!
