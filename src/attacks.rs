use vstd::prelude::*;
use crate::bitboard::{BitBoard, Side};
use crate::square::{row, col, sq_at, on_board, is_square, lemma_row_col, lemma_square_coords};

verus! {

pub open spec fn absd(x: int) -> int {
    if x < 0 {
        -x
    } else {
        x
    }
}

/// A knight on `a` attacks `b`.
pub open spec fn knight_step(a: int, b: int) -> bool {
    &&& is_square(a)
    &&& is_square(b)
    &&& {
        let dr = absd(row(a) - row(b));
        let dc = absd(col(a) - col(b));
        (dr == 1 && dc == 2) || (dr == 2 && dc == 1)
    }
}

/// A king on `a` attacks `b`.
pub open spec fn king_step(a: int, b: int) -> bool {
    &&& is_square(a)
    &&& is_square(b)
    &&& a != b
    &&& absd(row(a) - row(b)) <= 1
    &&& absd(col(a) - col(b)) <= 1
}

/// The row a pawn of `side` moves towards: +1 for White, -1 for Black.
pub open spec fn forward(side: Side) -> int {
    match side {
        Side::White => 1,
        Side::Black => -1,
    }
}

/// A pawn of `side` on `a` attacks `b` (diagonally, one row forward).
pub open spec fn pawn_hits(side: Side, a: int, b: int) -> bool {
    &&& is_square(a)
    &&& is_square(b)
    &&& row(b) == row(a) + forward(side)
    &&& absd(col(a) - col(b)) == 1
}

/// `k` signed by the direction `d`.
pub open spec fn off(d: int, k: int) -> int {
    if d > 0 {
        k
    } else if d < 0 {
        -k
    } else {
        0
    }
}

pub open spec fn is_dir(dr: int, dc: int) -> bool {
    -1 <= dr <= 1 && -1 <= dc <= 1 && (dr != 0 || dc != 0)
}

/// The square `k` steps from `s` in direction `(dr, dc)`, meaningful when on the board.
pub open spec fn ray_sq(s: int, dr: int, dc: int, k: int) -> int {
    sq_at(row(s) + off(dr, k), col(s) + off(dc, k))
}

pub open spec fn ray_ok(s: int, dr: int, dc: int, k: int) -> bool {
    on_board(row(s) + off(dr, k), col(s) + off(dc, k))
}

/// How many steps in direction `(dr, dc)` lead from `s` to `t`, if any do.
pub open spec fn dist(s: int, t: int, dr: int, dc: int) -> int {
    if dr != 0 {
        off(dr, row(t) - row(s))
    } else {
        off(dc, col(t) - col(s))
    }
}

/// `t` lies one or more steps from `s` in direction `(dr, dc)`.
pub open spec fn on_ray(s: int, t: int, dr: int, dc: int) -> bool {
    &&& is_square(s)
    &&& is_square(t)
    &&& dist(s, t, dr, dc) >= 1
    &&& row(t) == row(s) + off(dr, dist(s, t, dr, dc))
    &&& col(t) == col(s) + off(dc, dist(s, t, dr, dc))
}

/// The first `k - 1` squares from `s` in direction `(dr, dc)` are empty.
pub open spec fn path_clear(occ: Set<int>, s: int, dr: int, dc: int, k: int) -> bool {
    forall|j: int| 1 <= j < k ==> !occ.contains(#[trigger] ray_sq(s, dr, dc, j))
}

/// A slider on `s` moving in direction `(dr, dc)` attacks `t` past the occupied squares `occ`.
pub open spec fn sees_along(occ: Set<int>, s: int, t: int, dr: int, dc: int) -> bool {
    on_ray(s, t, dr, dc) && path_clear(occ, s, dr, dc, dist(s, t, dr, dc))
}

pub open spec fn rook_sees(occ: Set<int>, s: int, t: int) -> bool {
    ||| sees_along(occ, s, t, 1, 0)
    ||| sees_along(occ, s, t, -1, 0)
    ||| sees_along(occ, s, t, 0, 1)
    ||| sees_along(occ, s, t, 0, -1)
}

pub open spec fn bishop_sees(occ: Set<int>, s: int, t: int) -> bool {
    ||| sees_along(occ, s, t, 1, 1)
    ||| sees_along(occ, s, t, 1, -1)
    ||| sees_along(occ, s, t, -1, 1)
    ||| sees_along(occ, s, t, -1, -1)
}

pub open spec fn queen_sees(occ: Set<int>, s: int, t: int) -> bool {
    rook_sees(occ, s, t) || bishop_sees(occ, s, t)
}

/// `u` lies strictly between `a` and `b` on the line from `a` in direction `(dr, dc)`.
pub open spec fn between_along(a: int, b: int, u: int, dr: int, dc: int) -> bool {
    on_ray(a, b, dr, dc) && on_ray(a, u, dr, dc) && dist(a, u, dr, dc) < dist(a, b, dr, dc)
}

/// `u` lies strictly between `a` and `b`, which share a row, a column or a diagonal.
pub open spec fn between(a: int, b: int, u: int) -> bool {
    ||| between_along(a, b, u, 1, 0)
    ||| between_along(a, b, u, -1, 0)
    ||| between_along(a, b, u, 0, 1)
    ||| between_along(a, b, u, 0, -1)
    ||| between_along(a, b, u, 1, 1)
    ||| between_along(a, b, u, 1, -1)
    ||| between_along(a, b, u, -1, 1)
    ||| between_along(a, b, u, -1, -1)
}

pub open spec fn knight_set(s: int) -> Set<int> {
    Set::new(|t: int| knight_step(s, t))
}

pub open spec fn king_set(s: int) -> Set<int> {
    Set::new(|t: int| king_step(s, t))
}

pub open spec fn pawn_set(side: Side, s: int) -> Set<int> {
    Set::new(|t: int| pawn_hits(side, s, t))
}

pub open spec fn rook_set(occ: Set<int>, s: int) -> Set<int> {
    Set::new(|t: int| rook_sees(occ, s, t))
}

pub open spec fn bishop_set(occ: Set<int>, s: int) -> Set<int> {
    Set::new(|t: int| bishop_sees(occ, s, t))
}

pub open spec fn queen_set(occ: Set<int>, s: int) -> Set<int> {
    Set::new(|t: int| queen_sees(occ, s, t))
}

pub open spec fn between_set(a: int, b: int) -> Set<int> {
    Set::new(|u: int| between(a, b, u))
}

/// The square `k` steps along a direction is the one square of the ray at that distance.
pub proof fn lemma_ray_sq(s: int, dr: int, dc: int, k: int, t: int)
    requires
        is_square(s),
        is_dir(dr, dc),
        k >= 1,
        ray_ok(s, dr, dc, k),
    ensures
        is_square(ray_sq(s, dr, dc, k)),
        on_ray(s, ray_sq(s, dr, dc, k), dr, dc),
        dist(s, ray_sq(s, dr, dc, k), dr, dc) == k,
        (on_ray(s, t, dr, dc) && dist(s, t, dr, dc) == k) ==> t == ray_sq(s, dr, dc, k),
{
    lemma_row_col(row(s) + off(dr, k), col(s) + off(dc, k));
    if is_square(t) {
        lemma_square_coords(t);
    }
}

/// Coordinates of a square.
fn coords(s: usize) -> (r: (i32, i32))
    requires
        s < 64,
    ensures
        r.0 == row(s as int),
        r.1 == col(s as int),
        0 <= r.0 < 8,
        0 <= r.1 < 8,
{
    ((s / 8) as i32, (s % 8) as i32)
}

fn abs_i32(x: i32) -> (r: i32)
    requires
        -100 < x < 100,
    ensures
        r == absd(x as int),
{
    if x < 0 {
        -x
    } else {
        x
    }
}

/// Which kind of leaper a table describes.
pub enum Leaper {
    Knight,
    King,
    Pawn(Side),
}

pub open spec fn leaper_hits(kind: Leaper, s: int, t: int) -> bool {
    match kind {
        Leaper::Knight => knight_step(s, t),
        Leaper::King => king_step(s, t),
        Leaper::Pawn(side) => pawn_hits(side, s, t),
    }
}

fn leaper_hits_exec(kind: &Leaper, s: usize, t: usize) -> (r: bool)
    requires
        s < 64,
        t < 64,
    ensures
        r == leaper_hits(*kind, s as int, t as int),
{
    let (rs, cs) = coords(s);
    let (rt, ct) = coords(t);
    let dr = abs_i32(rs - rt);
    let dc = abs_i32(cs - ct);
    match kind {
        Leaper::Knight => (dr == 1 && dc == 2) || (dr == 2 && dc == 1),
        Leaper::King => s != t && dr <= 1 && dc <= 1,
        Leaper::Pawn(side) => {
            let f: i32 = match side {
                Side::White => 1,
                Side::Black => -1,
            };
            rt == rs + f && dc == 1
        },
    }
}

/// The squares that a leaper of the given kind on `s` attacks.
pub fn leaper_attack(kind: &Leaper, s: usize) -> (r: BitBoard)
    requires
        s < 64,
    ensures
        r@ == Set::new(|t: int| leaper_hits(*kind, s as int, t)),
{
    let mut b = BitBoard::empty();
    let mut t: usize = 0;
    while t < 64
        invariant
            s < 64,
            t <= 64,
            b@ == Set::new(|u: int| 0 <= u < t && leaper_hits(*kind, s as int, u)),
        decreases 64 - t,
    {
        if leaper_hits_exec(kind, s, t) {
            b.set_bit(t);
        }
        proof {
            assert(b@ =~= Set::new(|u: int| 0 <= u < t + 1 && leaper_hits(*kind, s as int, u)));
        }
        t = t + 1;
    }
    proof {
        assert(b@ =~= Set::new(|u: int| leaper_hits(*kind, s as int, u)));
    }
    b
}

/// The squares that a slider on `s`, moving in direction `(dr, dc)`, attacks past `occ`.
pub fn ray_attack(s: usize, occ: &BitBoard, dr: i32, dc: i32) -> (r: BitBoard)
    requires
        s < 64,
        is_dir(dr as int, dc as int),
    ensures
        r@ == Set::new(|t: int| sees_along(occ@, s as int, t, dr as int, dc as int)),
{
    let ghost si = s as int;
    let ghost (gr, gc) = (dr as int, dc as int);
    let (r0, c0) = coords(s);
    let mut r = r0 + dr;
    let mut c = c0 + dc;
    let mut k: i32 = 1;
    let mut b = BitBoard::empty();
    while 0 <= r && r < 8 && 0 <= c && c < 8
        invariant_except_break
            1 <= k <= 8,
            r == row(si) + off(gr, k as int),
            c == col(si) + off(gc, k as int),
            path_clear(occ@, si, gr, gc, k as int),
            b@ == Set::new(
                |t: int| sees_along(occ@, si, t, gr, gc) && dist(si, t, gr, gc) < k,
            ),
        invariant
            s < 64,
            si == s,
            is_dir(gr, gc),
            gr == dr,
            gc == dc,
            0 <= r0 < 8,
            0 <= c0 < 8,
            r0 == row(si),
            c0 == col(si),
        ensures
            b@ == Set::new(|t: int| sees_along(occ@, si, t, gr, gc)),
        decreases 8 - k,
    {
        let t = (r * 8 + c) as usize;
        proof {
            assert(ray_ok(si, gr, gc, k as int));
            assert(t == ray_sq(si, gr, gc, k as int));
            assert forall|u: int| #[trigger] on_ray(si, u, gr, gc) && dist(si, u, gr, gc) == k
                implies u == t by {
                lemma_ray_sq(si, gr, gc, k as int, u);
            }
            lemma_ray_sq(si, gr, gc, k as int, t as int);
        }
        b.set_bit(t);
        if occ.contains(t) {
            proof {
                assert forall|u: int| #[trigger]
                    b@.contains(u) == sees_along(occ@, si, u, gr, gc) by {
                    if on_ray(si, u, gr, gc) && dist(si, u, gr, gc) > k {
                        assert(!path_clear(occ@, si, gr, gc, dist(si, u, gr, gc)));
                    }
                }
                assert(b@ =~= Set::new(|u: int| sees_along(occ@, si, u, gr, gc)));
            }
            break;
        }
        proof {
            assert(path_clear(occ@, si, gr, gc, k + 1));
            assert(b@ =~= Set::new(
                |u: int| sees_along(occ@, si, u, gr, gc) && dist(si, u, gr, gc) < k + 1,
            ));
        }
        r = r + dr;
        c = c + dc;
        k = k + 1;
    }
    proof {
        assert forall|u: int| #[trigger]
            b@.contains(u) == sees_along(occ@, si, u, gr, gc) by {
            if on_ray(si, u, gr, gc) && dist(si, u, gr, gc) >= k {
                lemma_square_coords(u);
            }
        }
        assert(b@ =~= Set::new(|u: int| sees_along(occ@, si, u, gr, gc)));
    }
    b
}

/// The squares that a rook on `s` attacks past the occupied squares `occ`, by walking each ray.
pub fn naive_rook_attack(s: usize, occ: &BitBoard) -> (r: BitBoard)
    requires
        s < 64,
    ensures
        r@ == rook_set(occ@, s as int),
{
    let a = ray_attack(s, occ, 1, 0);
    let b = ray_attack(s, occ, -1, 0);
    let c = ray_attack(s, occ, 0, 1);
    let d = ray_attack(s, occ, 0, -1);
    let r = a.bit_or(&b).bit_or(&c).bit_or(&d);
    proof {
        assert(r@ =~= rook_set(occ@, s as int));
    }
    r
}

/// The squares that a bishop on `s` attacks past the occupied squares `occ`, by walking each ray.
pub fn naive_bishop_attack(s: usize, occ: &BitBoard) -> (r: BitBoard)
    requires
        s < 64,
    ensures
        r@ == bishop_set(occ@, s as int),
{
    let a = ray_attack(s, occ, 1, 1);
    let b = ray_attack(s, occ, 1, -1);
    let c = ray_attack(s, occ, -1, 1);
    let d = ray_attack(s, occ, -1, -1);
    let r = a.bit_or(&b).bit_or(&c).bit_or(&d);
    proof {
        assert(r@ =~= bishop_set(occ@, s as int));
    }
    r
}

/// The `j`-th square along a ray that reaches `u` is on the board and `j` steps away.
pub proof fn lemma_ray_prefix(s: int, u: int, dr: int, dc: int, j: int)
    requires
        is_dir(dr, dc),
        on_ray(s, u, dr, dc),
        1 <= j <= dist(s, u, dr, dc),
    ensures
        ray_ok(s, dr, dc, j),
        is_square(ray_sq(s, dr, dc, j)),
        on_ray(s, ray_sq(s, dr, dc, j), dr, dc),
        dist(s, ray_sq(s, dr, dc, j), dr, dc) == j,
{
    lemma_ray_sq(s, dr, dc, j, u);
}

/// The squares strictly between `a` and `b` along direction `(dr, dc)`.
pub fn between_dir(a: usize, b: usize, dr: i32, dc: i32) -> (r: BitBoard)
    requires
        a < 64,
        b < 64,
        is_dir(dr as int, dc as int),
    ensures
        r@ == Set::new(|u: int| between_along(a as int, b as int, u, dr as int, dc as int)),
{
    let ghost (ai, bi, gr, gc) = (a as int, b as int, dr as int, dc as int);
    let only_b = BitBoard::single(b);
    let w = ray_attack(a, &only_b, dr, dc);
    if w.contains(b) {
        let r = w.remove(b);
        proof {
            let k = dist(ai, bi, gr, gc);
            lemma_ray_sq(ai, gr, gc, k, bi);
            assert forall|u: int| #[trigger] r@.contains(u) == between_along(ai, bi, u, gr, gc) by {
                if r@.contains(u) {
                    assert(sees_along(only_b@, ai, u, gr, gc));
                    if dist(ai, u, gr, gc) > k {
                        lemma_ray_prefix(ai, u, gr, gc, k);
                        assert(only_b@.contains(ray_sq(ai, gr, gc, k)));
                    }
                    if dist(ai, u, gr, gc) == k {
                        lemma_ray_sq(ai, gr, gc, k, u);
                    }
                }
                if between_along(ai, bi, u, gr, gc) {
                    assert forall|j: int| 1 <= j < dist(ai, u, gr, gc) implies !only_b@.contains(
                        #[trigger] ray_sq(ai, gr, gc, j),
                    ) by {
                        lemma_ray_prefix(ai, u, gr, gc, j);
                    }
                    assert(sees_along(only_b@, ai, u, gr, gc));
                }
            }
            assert(r@ =~= Set::new(|u: int| between_along(ai, bi, u, gr, gc)));
        }
        r
    } else {
        proof {
            if on_ray(ai, bi, gr, gc) {
                assert forall|j: int| 1 <= j < dist(ai, bi, gr, gc) implies !only_b@.contains(
                    #[trigger] ray_sq(ai, gr, gc, j),
                ) by {
                    lemma_ray_prefix(ai, bi, gr, gc, j);
                }
                assert(w@.contains(bi));
            }
            assert(Set::new(|u: int| between_along(ai, bi, u, gr, gc)) =~= Set::<int>::empty());
        }
        BitBoard::empty()
    }
}

/// The squares strictly between `a` and `b`; empty unless they share a row, a column or a diagonal.
pub fn ray_between(a: usize, b: usize) -> (r: BitBoard)
    requires
        a < 64,
        b < 64,
    ensures
        r@ == between_set(a as int, b as int),
{
    let r = between_dir(a, b, 1, 0).bit_or(&between_dir(a, b, -1, 0)).bit_or(
        &between_dir(a, b, 0, 1),
    ).bit_or(&between_dir(a, b, 0, -1)).bit_or(&between_dir(a, b, 1, 1)).bit_or(
        &between_dir(a, b, 1, -1),
    ).bit_or(&between_dir(a, b, -1, 1)).bit_or(&between_dir(a, b, -1, -1));
    proof {
        assert(r@ =~= between_set(a as int, b as int));
    }
    r
}

/// Walking a ray backwards from its end meets the same squares.
pub proof fn lemma_sees_sym(occ: Set<int>, a: int, b: int, dr: int, dc: int)
    requires
        is_dir(dr, dc),
        sees_along(occ, a, b, dr, dc),
    ensures
        is_dir(-dr, -dc),
        sees_along(occ, b, a, -dr, -dc),
        dist(b, a, -dr, -dc) == dist(a, b, dr, dc),
{
    let k = dist(a, b, dr, dc);
    assert(dist(b, a, -dr, -dc) == k);
    assert forall|j: int| 1 <= j < k implies !occ.contains(#[trigger] ray_sq(b, -dr, -dc, j)) by {
        assert(ray_sq(b, -dr, -dc, j) == ray_sq(a, dr, dc, k - j));
    }
}

pub proof fn lemma_rook_sym(occ: Set<int>, a: int, b: int)
    ensures
        rook_sees(occ, a, b) == rook_sees(occ, b, a),
{
    if sees_along(occ, a, b, 1, 0) { lemma_sees_sym(occ, a, b, 1, 0); }
    if sees_along(occ, a, b, -1, 0) { lemma_sees_sym(occ, a, b, -1, 0); }
    if sees_along(occ, a, b, 0, 1) { lemma_sees_sym(occ, a, b, 0, 1); }
    if sees_along(occ, a, b, 0, -1) { lemma_sees_sym(occ, a, b, 0, -1); }
    if sees_along(occ, b, a, 1, 0) { lemma_sees_sym(occ, b, a, 1, 0); }
    if sees_along(occ, b, a, -1, 0) { lemma_sees_sym(occ, b, a, -1, 0); }
    if sees_along(occ, b, a, 0, 1) { lemma_sees_sym(occ, b, a, 0, 1); }
    if sees_along(occ, b, a, 0, -1) { lemma_sees_sym(occ, b, a, 0, -1); }
}

pub proof fn lemma_bishop_sym(occ: Set<int>, a: int, b: int)
    ensures
        bishop_sees(occ, a, b) == bishop_sees(occ, b, a),
{
    if sees_along(occ, a, b, 1, 1) { lemma_sees_sym(occ, a, b, 1, 1); }
    if sees_along(occ, a, b, -1, 1) { lemma_sees_sym(occ, a, b, -1, 1); }
    if sees_along(occ, a, b, 1, -1) { lemma_sees_sym(occ, a, b, 1, -1); }
    if sees_along(occ, a, b, -1, -1) { lemma_sees_sym(occ, a, b, -1, -1); }
    if sees_along(occ, b, a, 1, 1) { lemma_sees_sym(occ, b, a, 1, 1); }
    if sees_along(occ, b, a, -1, 1) { lemma_sees_sym(occ, b, a, -1, 1); }
    if sees_along(occ, b, a, 1, -1) { lemma_sees_sym(occ, b, a, 1, -1); }
    if sees_along(occ, b, a, -1, -1) { lemma_sees_sym(occ, b, a, -1, -1); }
}

proof fn lemma_between_along_sym(a: int, b: int, u: int, dr: int, dc: int)
    requires
        is_dir(dr, dc),
        between_along(a, b, u, dr, dc),
    ensures
        between_along(b, a, u, -dr, -dc),
{
}

/// The squares between two squares do not depend on which end is named first.
pub proof fn lemma_between_sym(a: int, b: int, u: int)
    ensures
        between(a, b, u) == between(b, a, u),
{
    if between_along(a, b, u, 1, 0) { lemma_between_along_sym(a, b, u, 1, 0); }
    if between_along(a, b, u, -1, 0) { lemma_between_along_sym(a, b, u, -1, 0); }
    if between_along(a, b, u, 0, 1) { lemma_between_along_sym(a, b, u, 0, 1); }
    if between_along(a, b, u, 0, -1) { lemma_between_along_sym(a, b, u, 0, -1); }
    if between_along(a, b, u, 1, 1) { lemma_between_along_sym(a, b, u, 1, 1); }
    if between_along(a, b, u, 1, -1) { lemma_between_along_sym(a, b, u, 1, -1); }
    if between_along(a, b, u, -1, 1) { lemma_between_along_sym(a, b, u, -1, 1); }
    if between_along(a, b, u, -1, -1) { lemma_between_along_sym(a, b, u, -1, -1); }
    if between_along(b, a, u, 1, 0) { lemma_between_along_sym(b, a, u, 1, 0); }
    if between_along(b, a, u, -1, 0) { lemma_between_along_sym(b, a, u, -1, 0); }
    if between_along(b, a, u, 0, 1) { lemma_between_along_sym(b, a, u, 0, 1); }
    if between_along(b, a, u, 0, -1) { lemma_between_along_sym(b, a, u, 0, -1); }
    if between_along(b, a, u, 1, 1) { lemma_between_along_sym(b, a, u, 1, 1); }
    if between_along(b, a, u, 1, -1) { lemma_between_along_sym(b, a, u, 1, -1); }
    if between_along(b, a, u, -1, 1) { lemma_between_along_sym(b, a, u, -1, 1); }
    if between_along(b, a, u, -1, -1) { lemma_between_along_sym(b, a, u, -1, -1); }
}

proof fn lemma_sees_keeps(occ1: Set<int>, occ2: Set<int>, q: int, s: int, dr: int, dc: int)
    requires
        is_dir(dr, dc),
        sees_along(occ1, q, s, dr, dc),
        forall|u: int| between(q, s, u) && occ2.contains(u) ==> occ1.contains(u),
    ensures
        sees_along(occ2, q, s, dr, dc),
{
    assert forall|j: int| 1 <= j < dist(q, s, dr, dc) implies !occ2.contains(#[trigger] ray_sq(q, dr, dc, j)) by {
        lemma_ray_prefix(q, s, dr, dc, j);
        assert(between_along(q, s, ray_sq(q, dr, dc, j), dr, dc));
        assert(!occ1.contains(ray_sq(q, dr, dc, j)));
    }
}

/// A slider keeps attacking `s` when no square between it and `s` becomes occupied.
pub proof fn lemma_slider_keeps(occ1: Set<int>, occ2: Set<int>, q: int, s: int)
    requires
        forall|u: int| between(q, s, u) && occ2.contains(u) ==> occ1.contains(u),
    ensures
        rook_sees(occ1, q, s) ==> rook_sees(occ2, q, s),
        bishop_sees(occ1, q, s) ==> bishop_sees(occ2, q, s),
{
    if sees_along(occ1, q, s, 1, 0) { lemma_sees_keeps(occ1, occ2, q, s, 1, 0); }
    if sees_along(occ1, q, s, -1, 0) { lemma_sees_keeps(occ1, occ2, q, s, -1, 0); }
    if sees_along(occ1, q, s, 0, 1) { lemma_sees_keeps(occ1, occ2, q, s, 0, 1); }
    if sees_along(occ1, q, s, 0, -1) { lemma_sees_keeps(occ1, occ2, q, s, 0, -1); }
    if sees_along(occ1, q, s, 1, 1) { lemma_sees_keeps(occ1, occ2, q, s, 1, 1); }
    if sees_along(occ1, q, s, 1, -1) { lemma_sees_keeps(occ1, occ2, q, s, 1, -1); }
    if sees_along(occ1, q, s, -1, 1) { lemma_sees_keeps(occ1, occ2, q, s, -1, 1); }
    if sees_along(occ1, q, s, -1, -1) { lemma_sees_keeps(occ1, occ2, q, s, -1, -1); }
}

/// A square strictly between two others differs from both.
pub proof fn lemma_between_strict(a: int, b: int, u: int)
    requires
        between(a, b, u),
    ensures
        u != a,
        u != b,
        is_square(u),
{
}

/// One direction at most leads from a square to another.
pub proof fn lemma_dir_unique(s: int, t: int, ar: int, ac: int, br: int, bc: int)
    requires
        is_dir(ar, ac),
        is_dir(br, bc),
        on_ray(s, t, ar, ac),
        on_ray(s, t, br, bc),
    ensures
        ar == br,
        ac == bc,
{
}

/// A square between two others lies on one of the eight directions.
pub proof fn lemma_between_dir(a: int, b: int, u: int) -> (d: (int, int))
    requires
        between(a, b, u),
    ensures
        is_dir(d.0, d.1),
        between_along(a, b, u, d.0, d.1),
{
    if between_along(a, b, u, 1, 0) {
        (1, 0)
    } else if between_along(a, b, u, -1, 0) {
        (-1, 0)
    } else if between_along(a, b, u, 0, 1) {
        (0, 1)
    } else if between_along(a, b, u, 0, -1) {
        (0, -1)
    } else if between_along(a, b, u, 1, 1) {
        (1, 1)
    } else if between_along(a, b, u, 1, -1) {
        (1, -1)
    } else if between_along(a, b, u, -1, 1) {
        (-1, 1)
    } else {
        (-1, -1)
    }
}

proof fn lemma_blocked_dir(occ: Set<int>, q: int, k: int, t: int, dr: int, dc: int)
    requires
        between(q, k, t),
        occ.contains(t),
        is_dir(dr, dc),
    ensures
        !sees_along(occ, q, k, dr, dc),
{
    if sees_along(occ, q, k, dr, dc) {
        let d = lemma_between_dir(q, k, t);
        lemma_dir_unique(q, k, dr, dc, d.0, d.1);
        let j = dist(q, t, dr, dc);
        lemma_ray_prefix(q, t, dr, dc, j);
        lemma_ray_sq(q, dr, dc, j, t);
        assert(!occ.contains(ray_sq(q, dr, dc, j)));
    }
}

/// A slider does not attack past an occupied square standing between it and its target.
pub proof fn lemma_blocked(occ: Set<int>, q: int, k: int, t: int)
    requires
        between(q, k, t),
        occ.contains(t),
    ensures
        !rook_sees(occ, q, k),
        !bishop_sees(occ, q, k),
{
    lemma_blocked_dir(occ, q, k, t, 1, 0);
    lemma_blocked_dir(occ, q, k, t, -1, 0);
    lemma_blocked_dir(occ, q, k, t, 0, 1);
    lemma_blocked_dir(occ, q, k, t, 0, -1);
    lemma_blocked_dir(occ, q, k, t, 1, 1);
    lemma_blocked_dir(occ, q, k, t, 1, -1);
    lemma_blocked_dir(occ, q, k, t, -1, 1);
    lemma_blocked_dir(occ, q, k, t, -1, -1);
}

} // verus!
