use vstd::prelude::*;
use crate::bitboard::{BitBoard, Side};
use crate::square::Square;
use crate::attacks::{
    Leaper, leaper_attack, leaper_hits, knight_set, king_set, pawn_set, rook_set, bishop_set,
    queen_set, between_set, ray_between, naive_rook_attack, naive_bishop_attack,
};
use crate::magic::{SliderTable, magics_sound};

verus! {

/// The attack set of each square for one leaper kind.
fn leaper_table(kind: Leaper) -> (r: Vec<BitBoard>)
    ensures
        r@.len() == 64,
        forall|s: int| 0 <= s < 64 ==> (#[trigger] r@[s])@ == Set::new(|t: int| leaper_hits(kind, s, t)),
{
    let mut r: Vec<BitBoard> = Vec::new();
    let mut s: usize = 0;
    while s < 64
        invariant
            s <= 64,
            r@.len() == s,
            forall|i: int| 0 <= i < s ==> (#[trigger] r@[i])@ == Set::new(|t: int| leaper_hits(kind, i, t)),
        decreases 64 - s,
    {
        r.push(leaper_attack(&kind, s));
        s = s + 1;
    }
    r
}

/// The pawn capture targets of `side` from each square.
pub fn pawn_attack(side: Side) -> (r: Vec<BitBoard>)
    ensures
        r@.len() == 64,
        forall|s: int| 0 <= s < 64 ==> (#[trigger] r@[s])@ == pawn_set(side, s),
{
    let r = leaper_table(Leaper::Pawn(side));
    assert forall|s: int| 0 <= s < 64 implies (#[trigger] r@[s])@ == pawn_set(side, s) by {
        assert(r@[s]@ =~= pawn_set(side, s));
    }
    r
}

/// The knight targets from each square.
pub fn knight_attack() -> (r: Vec<BitBoard>)
    ensures
        r@.len() == 64,
        forall|s: int| 0 <= s < 64 ==> (#[trigger] r@[s])@ == knight_set(s),
{
    let r = leaper_table(Leaper::Knight);
    assert forall|s: int| 0 <= s < 64 implies (#[trigger] r@[s])@ == knight_set(s) by {
        assert(r@[s]@ =~= knight_set(s));
    }
    r
}

/// The king targets from each square.
pub fn king_attack() -> (r: Vec<BitBoard>)
    ensures
        r@.len() == 64,
        forall|s: int| 0 <= s < 64 ==> (#[trigger] r@[s])@ == king_set(s),
{
    let r = leaper_table(Leaper::King);
    assert forall|s: int| 0 <= s < 64 implies (#[trigger] r@[s])@ == king_set(s) by {
        assert(r@[s]@ =~= king_set(s));
    }
    r
}

/// For every pair of squares, the squares strictly between them.
pub fn rays() -> (r: Vec<Vec<BitBoard>>)
    ensures
        r@.len() == 64,
        forall|a: int| 0 <= a < 64 ==> (#[trigger] r@[a])@.len() == 64,
        forall|a: int, b: int| 0 <= a < 64 && 0 <= b < 64 ==> (#[trigger] r@[a]@[b])@ == between_set(a, b),
{
    let mut r: Vec<Vec<BitBoard>> = Vec::new();
    let mut a: usize = 0;
    while a < 64
        invariant
            a <= 64,
            r@.len() == a,
            forall|i: int| 0 <= i < a ==> (#[trigger] r@[i])@.len() == 64,
            forall|i: int, b: int| 0 <= i < a && 0 <= b < 64 ==> (#[trigger] r@[i]@[b])@ == between_set(i, b),
        decreases 64 - a,
    {
        let mut row: Vec<BitBoard> = Vec::new();
        let mut b: usize = 0;
        while b < 64
            invariant
                a < 64,
                b <= 64,
                row@.len() == b,
                forall|j: int| 0 <= j < b ==> (#[trigger] row@[j])@ == between_set(a as int, j),
            decreases 64 - b,
        {
            row.push(ray_between(a, b));
            b = b + 1;
        }
        r.push(row);
        a = a + 1;
    }
    r
}

/// The precomputed attack tables: leapers, magic-indexed sliders and the squares between any two
/// squares. Built once and then only read.
pub struct AttackTables {
    w_pawn: Vec<BitBoard>,
    b_pawn: Vec<BitBoard>,
    knight: Vec<BitBoard>,
    king: Vec<BitBoard>,
    bishop: SliderTable,
    rook: SliderTable,
    rays: Vec<Vec<BitBoard>>,
}

impl AttackTables {
    pub closed spec fn wf(&self) -> bool {
        &&& self.w_pawn@.len() == 64
        &&& self.b_pawn@.len() == 64
        &&& self.knight@.len() == 64
        &&& self.king@.len() == 64
        &&& self.rays@.len() == 64
        &&& forall|s: int| 0 <= s < 64 ==> (#[trigger] self.w_pawn@[s])@ == pawn_set(Side::White, s)
        &&& forall|s: int| 0 <= s < 64 ==> (#[trigger] self.b_pawn@[s])@ == pawn_set(Side::Black, s)
        &&& forall|s: int| 0 <= s < 64 ==> (#[trigger] self.knight@[s])@ == knight_set(s)
        &&& forall|s: int| 0 <= s < 64 ==> (#[trigger] self.king@[s])@ == king_set(s)
        &&& forall|a: int| 0 <= a < 64 ==> (#[trigger] self.rays@[a])@.len() == 64
        &&& forall|a: int, b: int| 0 <= a < 64 && 0 <= b < 64 ==> (#[trigger] self.rays@[a]@[b])@ == between_set(a, b)
        &&& self.bishop.wf()
        &&& self.bishop.is_diag()
        &&& self.rook.wf()
        &&& !self.rook.is_diag()
    }

    /// Builds every table; `None` when the magic constants of a slider kind do not fit (see
    /// `SliderTable::new`).
    pub fn new() -> (r: Option<AttackTables>)
        ensures
            r is Some <==> magics_sound(true) && magics_sound(false),
            r matches Some(t) ==> t.wf(),
    {
        let bishop = match SliderTable::new(true) {
            Some(t) => t,
            None => {
                return None;
            },
        };
        let rook = match SliderTable::new(false) {
            Some(t) => t,
            None => {
                return None;
            },
        };
        Some(
            AttackTables {
                w_pawn: pawn_attack(Side::White),
                b_pawn: pawn_attack(Side::Black),
                knight: knight_attack(),
                king: king_attack(),
                bishop,
                rook,
                rays: rays(),
            },
        )
    }

    pub fn pawn(&self, side: Side, s: usize) -> (r: BitBoard)
        requires
            self.wf(),
            s < 64,
        ensures
            r@ == pawn_set(side, s as int),
    {
        match side {
            Side::White => self.w_pawn[s],
            Side::Black => self.b_pawn[s],
        }
    }

    pub fn knight(&self, s: usize) -> (r: BitBoard)
        requires
            self.wf(),
            s < 64,
        ensures
            r@ == knight_set(s as int),
    {
        self.knight[s]
    }

    pub fn king(&self, s: usize) -> (r: BitBoard)
        requires
            self.wf(),
            s < 64,
        ensures
            r@ == king_set(s as int),
    {
        self.king[s]
    }

    pub fn bishop(&self, s: usize, occ: &BitBoard) -> (r: BitBoard)
        requires
            self.wf(),
            s < 64,
        ensures
            r@ == bishop_set(occ@, s as int),
    {
        self.bishop.attack(s, occ)
    }

    pub fn rook(&self, s: usize, occ: &BitBoard) -> (r: BitBoard)
        requires
            self.wf(),
            s < 64,
        ensures
            r@ == rook_set(occ@, s as int),
    {
        self.rook.attack(s, occ)
    }

    pub fn queen(&self, s: usize, occ: &BitBoard) -> (r: BitBoard)
        requires
            self.wf(),
            s < 64,
        ensures
            r@ == queen_set(occ@, s as int),
    {
        let r = self.bishop(s, occ).bit_or(&self.rook(s, occ));
        proof {
            assert(r@ =~= queen_set(occ@, s as int));
        }
        r
    }

    /// The squares strictly between `a` and `b`.
    pub fn ray(&self, a: usize, b: usize) -> (r: BitBoard)
        requires
            self.wf(),
            a < 64,
            b < 64,
        ensures
            r@ == between_set(a as int, b as int),
    {
        self.rays[a][b]
    }
}

/// The capture targets of a pawn of `side` on `square`.
pub fn get_pawn_attack(square: Square, side: Side) -> (r: BitBoard)
    ensures
        r@ == pawn_set(side, square.idx()),
{
    let r = leaper_attack(&Leaper::Pawn(side), square.to_index());
    assert(r@ =~= pawn_set(side, square.idx()));
    r
}

pub fn get_w_pawn_attack(square: Square) -> (r: BitBoard)
    ensures
        r@ == pawn_set(Side::White, square.idx()),
{
    get_pawn_attack(square, Side::White)
}

pub fn get_b_pawn_attack(square: Square) -> (r: BitBoard)
    ensures
        r@ == pawn_set(Side::Black, square.idx()),
{
    get_pawn_attack(square, Side::Black)
}

pub fn get_knight_attack(square: Square) -> (r: BitBoard)
    ensures
        r@ == knight_set(square.idx()),
{
    let r = leaper_attack(&Leaper::Knight, square.to_index());
    assert(r@ =~= knight_set(square.idx()));
    r
}

pub fn get_king_attack(square: Square) -> (r: BitBoard)
    ensures
        r@ == king_set(square.idx()),
{
    let r = leaper_attack(&Leaper::King, square.to_index());
    assert(r@ =~= king_set(square.idx()));
    r
}

/// The squares a bishop on `square` attacks past `blockers`.
pub fn get_bishop_attack(square: Square, blockers: BitBoard) -> (r: BitBoard)
    ensures
        r@ == bishop_set(blockers@, square.idx()),
{
    naive_bishop_attack(square.to_index(), &blockers)
}

/// The squares a rook on `square` attacks past `blockers`.
pub fn get_rook_attack(square: Square, blockers: BitBoard) -> (r: BitBoard)
    ensures
        r@ == rook_set(blockers@, square.idx()),
{
    naive_rook_attack(square.to_index(), &blockers)
}

/// The squares a queen on `square` attacks past `blockers`: bishop and rook attacks together.
pub fn get_queen_attack(square: Square, blockers: BitBoard) -> (r: BitBoard)
    ensures
        r@ == queen_set(blockers@, square.idx()),
{
    let r = get_bishop_attack(square, blockers).bit_or(&get_rook_attack(square, blockers));
    assert(r@ =~= queen_set(blockers@, square.idx()));
    r
}

} // verus!
