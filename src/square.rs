use vstd::prelude::*;

verus! {

/// Rank of a square, 0 for the first rank.
pub open spec fn row(s: int) -> int {
    s / 8
}

/// Column of a square, 0 for the h-file and 7 for the a-file.
pub open spec fn col(s: int) -> int {
    s % 8
}

/// Index of the square at a given row and column.
pub open spec fn sq_at(r: int, c: int) -> int {
    r * 8 + c
}

pub open spec fn on_board(r: int, c: int) -> bool {
    0 <= r < 8 && 0 <= c < 8
}

pub open spec fn is_square(s: int) -> bool {
    0 <= s < 64
}

/// Squares on one falling diagonal have the same `row - col`.
pub open spec fn ddiag(s: int) -> int {
    row(s) - col(s)
}

/// Squares on one rising diagonal have the same `row + col`.
pub open spec fn adiag(s: int) -> int {
    row(s) + col(s)
}

pub proof fn lemma_row_col(r: int, c: int)
    requires
        on_board(r, c),
    ensures
        row(sq_at(r, c)) == r,
        col(sq_at(r, c)) == c,
        is_square(sq_at(r, c)),
{
    assert((r * 8 + c) / 8 == r && (r * 8 + c) % 8 == c) by (nonlinear_arith)
        requires
            0 <= r < 8,
            0 <= c < 8,
    ;
}

pub proof fn lemma_square_coords(s: int)
    requires
        is_square(s),
    ensures
        on_board(row(s), col(s)),
        sq_at(row(s), col(s)) == s,
{
}

/// A board square, numbered 0..63 with h1 = 0, g1 = 1, ..., a1 = 7, h2 = 8, ..., a8 = 63.
#[derive(Debug, Copy, Clone, PartialEq, Eq, Structural)]
pub struct Square {
    data: u8,
}

impl Square {
    #[verifier::type_invariant]
    spec fn inv(self) -> bool {
        self.data < 64
    }

    /// The square's number.
    pub closed spec fn idx(self) -> int {
        self.data as int
    }

    /// Builds the square numbered `data`, keeping the low six bits.
    pub fn new(data: u8) -> (r: Square)
        ensures
            r.idx() == data % 64,
    {
        assert(data & 63 == data % 64) by (bit_vector);
        Square { data: data & 63 }
    }

    pub fn to_u8(&self) -> (r: u8)
        ensures
            r == self.idx(),
            r < 64,
    {
        proof {
            use_type_invariant(self);
        }
        self.data
    }

    pub fn to_index(&self) -> (r: usize)
        ensures
            r == self.idx(),
            r < 64,
    {
        proof {
            use_type_invariant(self);
        }
        self.data as usize
    }

    /// All 64 squares, in increasing order.
    pub fn iterator() -> (r: Vec<Square>)
        ensures
            r@.len() == 64,
            forall|i: int| 0 <= i < 64 ==> (#[trigger] r@[i]).idx() == i,
    {
        let mut r: Vec<Square> = Vec::new();
        let mut i: u8 = 0;
        while i < 64
            invariant
                i <= 64,
                r@.len() == i,
                forall|j: int| 0 <= j < i ==> (#[trigger] r@[j]).idx() == j,
            decreases 64 - i,
        {
            r.push(Square { data: i });
            i = i + 1;
        }
        r
    }
}

/// Builds a square from an index known to be on the board.
pub fn square_of(i: usize) -> (r: Square)
    requires
        i < 64,
    ensures
        r.idx() == i,
{
    assert((i as u8) % 64 == i as u8);
    Square::new(i as u8)
}

/// Whether two squares share a falling or a rising diagonal.
pub fn is_same_diag(source: Square, target: Square) -> (r: bool)
    ensures
        r == (ddiag(source.idx()) == ddiag(target.idx()) || adiag(source.idx()) == adiag(
            target.idx(),
        )),
{
    is_same_ddiag(source, target) || is_same_adiag(source, target)
}

/// Whether two squares share a rising diagonal.
pub fn is_same_adiag(source: Square, target: Square) -> (r: bool)
    ensures
        r == (adiag(source.idx()) == adiag(target.idx())),
{
    let s = source.to_index();
    let t = target.to_index();
    s / 8 + s % 8 == t / 8 + t % 8
}

/// Whether two squares share a falling diagonal.
pub fn is_same_ddiag(source: Square, target: Square) -> (r: bool)
    ensures
        r == (ddiag(source.idx()) == ddiag(target.idx())),
{
    let s = source.to_index();
    let t = target.to_index();
    s / 8 + t % 8 == t / 8 + s % 8
}

/// Whether two squares share a column.
pub fn is_same_col(source: Square, target: Square) -> (r: bool)
    ensures
        r == (col(source.idx()) == col(target.idx())),
{
    source.to_index() % 8 == target.to_index() % 8
}

/// Whether two squares share a row.
pub fn is_same_row(source: Square, target: Square) -> (r: bool)
    ensures
        r == (row(source.idx()) == row(target.idx())),
{
    source.to_index() / 8 == target.to_index() / 8
}

/// The default square is square 0, h1.
impl Default for Square {
    fn default() -> (r: Square)
        ensures
            r.idx() == 0,
    {
        Square { data: 0 }
    }
}

} // verus!
