use vstd::prelude::*;
use crate::bitboard::{BitBoard, bit_on, count_below};
use crate::attacks::{
    between_along, bishop_set, rook_set, sees_along, on_ray, dist, ray_sq, is_dir,
    lemma_ray_prefix, naive_bishop_attack, naive_rook_attack, between_dir,
};

verus! {

/// `u` lies strictly between `s` and `t` on a line that the slider (a bishop when `diag`, else a
/// rook) moves along.
pub open spec fn slider_between(diag: bool, s: int, t: int, u: int) -> bool {
    if diag {
        ||| between_along(s, t, u, 1, 1)
        ||| between_along(s, t, u, 1, -1)
        ||| between_along(s, t, u, -1, 1)
        ||| between_along(s, t, u, -1, -1)
    } else {
        ||| between_along(s, t, u, 1, 0)
        ||| between_along(s, t, u, -1, 0)
        ||| between_along(s, t, u, 0, 1)
        ||| between_along(s, t, u, 0, -1)
    }
}

/// The squares that a slider on `s` attacks past the occupied squares `occ`.
pub open spec fn slider_set(diag: bool, occ: Set<int>, s: int) -> Set<int> {
    if diag {
        bishop_set(occ, s)
    } else {
        rook_set(occ, s)
    }
}

/// Covers every square that can stand between `s` and a square it attacks.
pub open spec fn covers_interior(diag: bool, s: int, mask: Set<int>) -> bool {
    forall|t: int, u: int| #[trigger] slider_between(diag, s, t, u) ==> mask.contains(u)
}

proof fn lemma_mask_dir(occ: Set<int>, mask: Set<int>, s: int, t: int, dr: int, dc: int)
    requires
        is_dir(dr, dc),
        forall|u: int| between_along(s, t, u, dr, dc) ==> mask.contains(u),
    ensures
        sees_along(occ.intersect(mask), s, t, dr, dc) == sees_along(occ, s, t, dr, dc),
{
    if on_ray(s, t, dr, dc) {
        assert forall|j: int| 1 <= j < dist(s, t, dr, dc) implies mask.contains(
            #[trigger] ray_sq(s, dr, dc, j),
        ) by {
            lemma_ray_prefix(s, t, dr, dc, j);
            assert(between_along(s, t, ray_sq(s, dr, dc, j), dr, dc));
        }
    }
}

/// Only the occupancy of the interior squares decides what a slider attacks.
pub proof fn lemma_mask_suffices(diag: bool, occ: Set<int>, mask: Set<int>, s: int)
    requires
        covers_interior(diag, s, mask),
    ensures
        slider_set(diag, occ.intersect(mask), s) == slider_set(diag, occ, s),
{
    assert forall|t: int| #[trigger] slider_set(diag, occ.intersect(mask), s).contains(t)
        == slider_set(diag, occ, s).contains(t) by {
        if diag {
            assert forall|u: int| between_along(s, t, u, 1, 1) implies mask.contains(u) by {
                assert(slider_between(diag, s, t, u));
            }
            assert forall|u: int| between_along(s, t, u, 1, -1) implies mask.contains(u) by {
                assert(slider_between(diag, s, t, u));
            }
            assert forall|u: int| between_along(s, t, u, -1, 1) implies mask.contains(u) by {
                assert(slider_between(diag, s, t, u));
            }
            assert forall|u: int| between_along(s, t, u, -1, -1) implies mask.contains(u) by {
                assert(slider_between(diag, s, t, u));
            }
            lemma_mask_dir(occ, mask, s, t, 1, 1);
            lemma_mask_dir(occ, mask, s, t, 1, -1);
            lemma_mask_dir(occ, mask, s, t, -1, 1);
            lemma_mask_dir(occ, mask, s, t, -1, -1);
        } else {
            assert forall|u: int| between_along(s, t, u, 1, 0) implies mask.contains(u) by {
                assert(slider_between(diag, s, t, u));
            }
            assert forall|u: int| between_along(s, t, u, -1, 0) implies mask.contains(u) by {
                assert(slider_between(diag, s, t, u));
            }
            assert forall|u: int| between_along(s, t, u, 0, 1) implies mask.contains(u) by {
                assert(slider_between(diag, s, t, u));
            }
            assert forall|u: int| between_along(s, t, u, 0, -1) implies mask.contains(u) by {
                assert(slider_between(diag, s, t, u));
            }
            lemma_mask_dir(occ, mask, s, t, 1, 0);
            lemma_mask_dir(occ, mask, s, t, -1, 0);
            lemma_mask_dir(occ, mask, s, t, 0, 1);
            lemma_mask_dir(occ, mask, s, t, 0, -1);
        }
    }
    assert(slider_set(diag, occ.intersect(mask), s) =~= slider_set(diag, occ, s));
}

/// Pre-searched magic multipliers for bishops, one per square.
pub open spec fn bishop_magic_seq() -> Seq<u64> {
    seq![
        0x0140C80810488022u64, 0x0020021C01142000u64, 0x00308C2080200102u64, 0x0004040880000A09u64,
        0x0824042080000001u64, 0x00C1010840807080u64, 0x810C010403200000u64, 0x49CE404044202081u64,
        0x4405048410020200u64, 0x0000042104440080u64, 0x0801C12112008003u64, 0x0100080A43014001u64,
        0x0000020210010000u64, 0x0110020110080990u64, 0x0800004804042000u64, 0x0000002434020800u64,
        0x00C108E014890204u64, 0x0004040210440100u64, 0x4808001000801012u64, 0x0008004620801080u64,
        0x0481000290400A01u64, 0x0001000180A00921u64, 0x1204010900A80492u64, 0x0A88400024041C00u64,
        0x1002100088501014u64, 0x005045040818008Cu64, 0x0002080081004408u64, 0x0208280005820002u64,
        0x0509010040104008u64, 0x8010004000241000u64, 0x8908108440540400u64, 0x0142060800404240u64,
        0x0231101010402410u64, 0x0002011140241020u64, 0x100A002A00101180u64, 0x2001010800110041u64,
        0x8118022401224100u64, 0x4420092A40020800u64, 0x22D000C880031400u64, 0x000102108002A420u64,
        0x4008044404102020u64, 0x8000842402002000u64, 0x000200242400080Eu64, 0x0030004202208802u64,
        0x0000011214000601u64, 0x10C0008099011081u64, 0x10080104608A0C00u64, 0x0002285D00202700u64,
        0x009A182414050000u64, 0x020100A210223022u64, 0x0000002C02080102u64, 0x0000000020884010u64,
        0x0280029002022040u64, 0x8250102490342010u64, 0x0040020464048080u64, 0x4120040102042200u64,
        0x280A010401018800u64, 0x8010008084104200u64, 0x009009002484501Au64, 0x1A08830080420208u64,
        0x2000064022604100u64, 0x0012400420044101u64, 0x0040042818810C00u64, 0x1024211464008200u64,
    ]
}

/// Pre-searched magic multipliers for rooks, one per square.
pub open spec fn rook_magic_seq() -> Seq<u64> {
    seq![
        0x818001C000802018u64, 0xA240100020004000u64, 0x0100081041002000u64, 0x1080048010000800u64,
        0x8600020020040810u64, 0x0580018002004400u64, 0x1080020000800100u64, 0x020000204A088401u64,
        0x4000800080204000u64, 0x0040804000200080u64, 0x0000801000200080u64, 0x0222000C10204200u64,
        0x0042000600081020u64, 0x00A2001004080200u64, 0x1000800100800200u64, 0x0082000092010044u64,
        0x0800848000400420u64, 0x0030044040002001u64, 0x8000110041002004u64, 0x00004200200A0010u64,
        0x0810808004000800u64, 0xC028808002000400u64, 0x0280040090080201u64, 0x0804020000508104u64,
        0x0080400480088024u64, 0x0400200440100241u64, 0x0401001100200040u64, 0x0000100080800800u64,
        0x0008010100041008u64, 0x8000020080800400u64, 0x1000012400024830u64, 0x0004008200210054u64,
        0x08084A0082002100u64, 0x4080201000404000u64, 0xC000102001004100u64, 0x0004082101001002u64,
        0x0009820800800400u64, 0x900C800400800200u64, 0x9040080204008150u64, 0x80B0140446000493u64,
        0x6040244000828000u64, 0x0210002000504000u64, 0x0015002002110040u64, 0x0041001000210008u64,
        0x0001004800050010u64, 0x0002000804010100u64, 0x5008081002040081u64, 0x00220040A1020004u64,
        0x0101400120800180u64, 0x2040002000C08180u64, 0x1120001000480040u64, 0x18001020400A0200u64,
        0x0004050010080100u64, 0x1023020080040080u64, 0x0001080102100400u64, 0x0001000282004300u64,
        0x0190401100800021u64, 0x0805854001021021u64, 0x600010400C200101u64, 0x0010210009100005u64,
        0x1001001002080005u64, 0x9801000C00080A29u64, 0x2006080A45029014u64, 0x0008804581022C02u64,
    ]
}

/// Index width of the bishop table of each square.
pub open spec fn bishop_bits_seq() -> Seq<u64> {
    seq![
        6u64, 5u64, 5u64, 5u64, 5u64, 5u64, 5u64, 6u64,
        5u64, 5u64, 5u64, 5u64, 5u64, 5u64, 5u64, 5u64,
        5u64, 5u64, 7u64, 7u64, 7u64, 7u64, 5u64, 5u64,
        5u64, 5u64, 7u64, 9u64, 9u64, 7u64, 5u64, 5u64,
        5u64, 5u64, 7u64, 9u64, 9u64, 7u64, 5u64, 5u64,
        5u64, 5u64, 7u64, 7u64, 7u64, 7u64, 5u64, 5u64,
        5u64, 5u64, 5u64, 5u64, 5u64, 5u64, 5u64, 5u64,
        6u64, 5u64, 5u64, 5u64, 5u64, 5u64, 5u64, 6u64,
    ]
}

/// Index width of the rook table of each square.
pub open spec fn rook_bits_seq() -> Seq<u64> {
    seq![
        12u64, 11u64, 11u64, 11u64, 11u64, 11u64, 11u64, 12u64,
        11u64, 10u64, 10u64, 10u64, 10u64, 10u64, 10u64, 11u64,
        11u64, 10u64, 10u64, 10u64, 10u64, 10u64, 10u64, 11u64,
        11u64, 10u64, 10u64, 10u64, 10u64, 10u64, 10u64, 11u64,
        11u64, 10u64, 10u64, 10u64, 10u64, 10u64, 10u64, 11u64,
        11u64, 10u64, 10u64, 10u64, 10u64, 10u64, 10u64, 11u64,
        11u64, 10u64, 10u64, 10u64, 10u64, 10u64, 10u64, 11u64,
        12u64, 11u64, 11u64, 11u64, 11u64, 11u64, 11u64, 12u64,
    ]
}

pub open spec fn magic_of(diag: bool, s: int) -> u64 {
    if diag {
        bishop_magic_seq()[s]
    } else {
        rook_magic_seq()[s]
    }
}

pub open spec fn bits_of(diag: bool, s: int) -> u64 {
    if diag {
        bishop_bits_seq()[s]
    } else {
        rook_bits_seq()[s]
    }
}

/// The slot of the occupancy `occ`: the top `bits` bits of its wrapped product with `magic`.
pub open spec fn slot_of(magic: u64, occ: u64, bits: u64) -> u64 {
    occ.wrapping_mul(magic) >> ((64 - bits) as u64)
}

pub fn bishop_magics() -> (r: Vec<u64>)
    ensures
        r@ == bishop_magic_seq(),
{
    vec![
        0x0140C80810488022, 0x0020021C01142000, 0x00308C2080200102, 0x0004040880000A09,
        0x0824042080000001, 0x00C1010840807080, 0x810C010403200000, 0x49CE404044202081,
        0x4405048410020200, 0x0000042104440080, 0x0801C12112008003, 0x0100080A43014001,
        0x0000020210010000, 0x0110020110080990, 0x0800004804042000, 0x0000002434020800,
        0x00C108E014890204, 0x0004040210440100, 0x4808001000801012, 0x0008004620801080,
        0x0481000290400A01, 0x0001000180A00921, 0x1204010900A80492, 0x0A88400024041C00,
        0x1002100088501014, 0x005045040818008C, 0x0002080081004408, 0x0208280005820002,
        0x0509010040104008, 0x8010004000241000, 0x8908108440540400, 0x0142060800404240,
        0x0231101010402410, 0x0002011140241020, 0x100A002A00101180, 0x2001010800110041,
        0x8118022401224100, 0x4420092A40020800, 0x22D000C880031400, 0x000102108002A420,
        0x4008044404102020, 0x8000842402002000, 0x000200242400080E, 0x0030004202208802,
        0x0000011214000601, 0x10C0008099011081, 0x10080104608A0C00, 0x0002285D00202700,
        0x009A182414050000, 0x020100A210223022, 0x0000002C02080102, 0x0000000020884010,
        0x0280029002022040, 0x8250102490342010, 0x0040020464048080, 0x4120040102042200,
        0x280A010401018800, 0x8010008084104200, 0x009009002484501A, 0x1A08830080420208,
        0x2000064022604100, 0x0012400420044101, 0x0040042818810C00, 0x1024211464008200,
    ]
}

pub fn rook_magics() -> (r: Vec<u64>)
    ensures
        r@ == rook_magic_seq(),
{
    vec![
        0x818001C000802018, 0xA240100020004000, 0x0100081041002000, 0x1080048010000800,
        0x8600020020040810, 0x0580018002004400, 0x1080020000800100, 0x020000204A088401,
        0x4000800080204000, 0x0040804000200080, 0x0000801000200080, 0x0222000C10204200,
        0x0042000600081020, 0x00A2001004080200, 0x1000800100800200, 0x0082000092010044,
        0x0800848000400420, 0x0030044040002001, 0x8000110041002004, 0x00004200200A0010,
        0x0810808004000800, 0xC028808002000400, 0x0280040090080201, 0x0804020000508104,
        0x0080400480088024, 0x0400200440100241, 0x0401001100200040, 0x0000100080800800,
        0x0008010100041008, 0x8000020080800400, 0x1000012400024830, 0x0004008200210054,
        0x08084A0082002100, 0x4080201000404000, 0xC000102001004100, 0x0004082101001002,
        0x0009820800800400, 0x900C800400800200, 0x9040080204008150, 0x80B0140446000493,
        0x6040244000828000, 0x0210002000504000, 0x0015002002110040, 0x0041001000210008,
        0x0001004800050010, 0x0002000804010100, 0x5008081002040081, 0x00220040A1020004,
        0x0101400120800180, 0x2040002000C08180, 0x1120001000480040, 0x18001020400A0200,
        0x0004050010080100, 0x1023020080040080, 0x0001080102100400, 0x0001000282004300,
        0x0190401100800021, 0x0805854001021021, 0x600010400C200101, 0x0010210009100005,
        0x1001001002080005, 0x9801000C00080A29, 0x2006080A45029014, 0x0008804581022C02,
    ]
}

pub fn bishop_occ_bitcount() -> (r: Vec<u64>)
    ensures
        r@ == bishop_bits_seq(),
        forall|i: int| 0 <= i < 64 ==> 1 <= #[trigger] r@[i] <= 12,
{
    let r: Vec<u64> = vec![
        6, 5, 5, 5, 5, 5, 5, 6,
        5, 5, 5, 5, 5, 5, 5, 5,
        5, 5, 7, 7, 7, 7, 5, 5,
        5, 5, 7, 9, 9, 7, 5, 5,
        5, 5, 7, 9, 9, 7, 5, 5,
        5, 5, 7, 7, 7, 7, 5, 5,
        5, 5, 5, 5, 5, 5, 5, 5,
        6, 5, 5, 5, 5, 5, 5, 6,
    ];
    assert(forall|i: int| 0 <= i < 64 ==> 1 <= #[trigger] r@[i] <= 12);
    r
}

pub fn rook_occ_bitcount() -> (r: Vec<u64>)
    ensures
        r@ == rook_bits_seq(),
        forall|i: int| 0 <= i < 64 ==> 1 <= #[trigger] r@[i] <= 12,
{
    let r: Vec<u64> = vec![
        12, 11, 11, 11, 11, 11, 11, 12,
        11, 10, 10, 10, 10, 10, 10, 11,
        11, 10, 10, 10, 10, 10, 10, 11,
        11, 10, 10, 10, 10, 10, 10, 11,
        11, 10, 10, 10, 10, 10, 10, 11,
        11, 10, 10, 10, 10, 10, 10, 11,
        11, 10, 10, 10, 10, 10, 10, 11,
        12, 11, 11, 11, 11, 11, 11, 12,
    ];
    assert(forall|i: int| 0 <= i < 64 ==> 1 <= #[trigger] r@[i] <= 12);
    r
}

/// The slot of an occupancy: the top `bitcount` bits of the wrapped product with the magic.
pub fn magic_index(magic_num: u64, blockers: BitBoard, bitcount: u64) -> (r: u64)
    requires
        1 <= bitcount <= 64,
    ensures
        r == slot_of(magic_num, blockers.data, bitcount),
        bitcount < 64 ==> r < (1u64 << bitcount),
{
    let p = blockers.data.wrapping_mul(magic_num);
    let x = p >> (64 - bitcount);
    assert(bitcount < 64 ==> x < (1u64 << bitcount)) by (bit_vector)
        requires
            x == p >> ((64 - bitcount) as u64),
            1 <= bitcount <= 64,
    ;
    x
}

/// The interior squares of a slider's lines from `s`: those that can stand between `s` and some
/// other square.
pub open spec fn interior_mask(diag: bool, s: int) -> Set<int> {
    Set::new(|u: int| exists|t: int| #[trigger] slider_between(diag, s, t, u))
}

pub proof fn lemma_interior_covers(diag: bool, s: int)
    ensures
        covers_interior(diag, s, interior_mask(diag, s)),
{
    assert forall|t: int, u: int| #[trigger] slider_between(diag, s, t, u) implies interior_mask(
        diag,
        s,
    ).contains(u) by {}
}

/// The relevant-occupancy mask of a slider on `s`: the interior squares of its lines, the edge
/// square of each line left out.
pub fn slider_mask(diag: bool, s: usize) -> (r: BitBoard)
    requires
        s < 64,
    ensures
        r@ == interior_mask(diag, s as int),
{
    let mut m = BitBoard::empty();
    let mut t: usize = 0;
    while t < 64
        invariant
            s < 64,
            t <= 64,
            m@ == Set::new(|u: int| exists|t2: int| 0 <= t2 < t && #[trigger] slider_between(diag, s as int, t2, u)),
        decreases 64 - t,
    {
        let add = if diag {
            between_dir(s, t, 1, 1).bit_or(&between_dir(s, t, 1, -1)).bit_or(
                &between_dir(s, t, -1, 1),
            ).bit_or(&between_dir(s, t, -1, -1))
        } else {
            between_dir(s, t, 1, 0).bit_or(&between_dir(s, t, -1, 0)).bit_or(
                &between_dir(s, t, 0, 1),
            ).bit_or(&between_dir(s, t, 0, -1))
        };
        assert(forall|u: int| add@.contains(u) <==> slider_between(diag, s as int, t as int, u));
        m = m.bit_or(&add);
        proof {
            assert forall|u: int| m@.contains(u) <==> exists|t2: int| 0 <= t2 < t + 1 && #[trigger] slider_between(diag, s as int, t2, u) by {
                if exists|t2: int| 0 <= t2 < t + 1 && #[trigger] slider_between(diag, s as int, t2, u) {
                    let t2 = choose|t2: int| 0 <= t2 < t + 1 && #[trigger] slider_between(diag, s as int, t2, u);
                    if t2 < t {
                        assert(exists|t3: int| 0 <= t3 < t && #[trigger] slider_between(diag, s as int, t3, u));
                    }
                }
            }
            assert(m@ =~= Set::new(|u: int| exists|t2: int| 0 <= t2 < t + 1 && #[trigger] slider_between(diag, s as int, t2, u)));
        }
        t = t + 1;
    }
    proof {
        assert forall|u: int| m@.contains(u) <==> interior_mask(diag, s as int).contains(u) by {
            if interior_mask(diag, s as int).contains(u) {
                let t2 = choose|t2: int| #[trigger] slider_between(diag, s as int, t2, u);
                assert(0 <= t2 < 64);
            }
        }
        assert(m@ =~= interior_mask(diag, s as int));
    }
    m
}

/// The occupancy of the squares of `mask` chosen by `index`: the square of rank `k` in the mask
/// (the `k`-th lowest, from 0) is occupied when `k < bits` and bit `k` of `index` is set.
pub open spec fn occ_of_index(index: u64, bits: int, mask: u64) -> Set<int> {
    Set::new(
        |u: int|
            bit_on(mask, u) && count_below(mask, u as nat) < bits && bit_on(
                index,
                count_below(mask, u as nat) as int,
            ),
    )
}

/// The occupancy of `attack_mask` chosen by `index`, as `occ_of_index` describes.
pub fn compute_occ_bb(index: usize, mask_bitcount: u64, attack_mask: BitBoard) -> (r: BitBoard)
    ensures
        r@ == occ_of_index(index as u64, mask_bitcount as int, attack_mask.data),
{
    let ghost md = attack_mask.data;
    let idx = index as u64;
    let mut occ = BitBoard::empty();
    let mut k: u64 = 0;
    let mut u: usize = 0;
    while u < 64
        invariant
            u <= 64,
            idx == index as u64,
            md == attack_mask.data,
            k == count_below(md, u as nat),
            k <= u,
            occ@ == Set::new(
                |v: int|
                    v < u && bit_on(md, v) && count_below(md, v as nat) < mask_bitcount && bit_on(
                        idx,
                        count_below(md, v as nat) as int,
                    ),
            ),
        decreases 64 - u,
    {
        if attack_mask.contains(u) {
            if k < mask_bitcount && k < 64 && (idx >> k) & 1 == 1 {
                occ.set_bit(u);
            }
            k = k + 1;
        }
        proof {
            assert(occ@ =~= Set::new(
                |v: int|
                    v < u + 1 && bit_on(md, v) && count_below(md, v as nat) < mask_bitcount && bit_on(
                        idx,
                        count_below(md, v as nat) as int,
                    ),
            ));
        }
        u = u + 1;
    }
    proof {
        assert(occ@ =~= occ_of_index(idx, mask_bitcount as int, md));
    }
    occ
}

/// Counting set bits is monotone, and strictly so past a set bit.
pub proof fn lemma_count_mono(x: u64, a: nat, b: nat)
    requires
        a <= b,
    ensures
        count_below(x, a) <= count_below(x, b),
        a < b && bit_on(x, a as int) ==> count_below(x, a) < count_below(x, b),
    decreases b,
{
    if a < b {
        lemma_count_mono(x, a, (b - 1) as nat);
    }
}

/// An index whose bit `k` copies the occupancy of the square of rank `k` among the first `n`
/// squares of the mask `md`.
proof fn lemma_index_prefix(md: u64, occ: u64, n: nat) -> (j: u64)
    requires
        n <= 64,
        count_below(md, n) <= 12,
    ensures
        j < (1u64 << (count_below(md, n) as u64)),
        forall|u: int|
            0 <= u < n && bit_on(md, u) ==> (bit_on(j, count_below(md, u as nat) as int) <==> bit_on(occ, u)),
        forall|k: int| bit_on(j, k) ==> k < count_below(md, n),
    decreases n,
{
    if n == 0 {
        crate::bitboard::lemma_zero(0);
        assert(0u64 < (1u64 << 0u64)) by (bit_vector);
        0
    } else {
        let m = (n - 1) as nat;
        let j0 = lemma_index_prefix(md, occ, m);
        let c = count_below(md, m);
        let cu = c as u64;
        let cu1 = (c + 1) as u64;
        assert forall|u: int| 0 <= u < m && bit_on(md, u) implies count_below(md, u as nat) < c by {
            lemma_count_mono(md, u as nat, m);
        }
        if bit_on(md, m as int) && bit_on(occ, m as int) {
            let j = j0 | (1u64 << cu);
            assert(j0 < (1u64 << cu) ==> (j0 | (1u64 << cu)) < (1u64 << cu1)) by (bit_vector)
                requires
                    cu < 12,
                    cu1 == cu + 1,
            ;
            assert forall|k: int| bit_on(j, k) <==> (bit_on(j0, k) || k == c) by {
                if 0 <= k < 64 {
                    crate::bitboard::lemma_or(j0, 1u64 << cu, k as u64);
                    crate::bitboard::lemma_single(cu, k as u64);
                }
            }
            j
        } else {
            assert((1u64 << cu) <= (1u64 << cu1)) by (bit_vector)
                requires
                    cu <= 12,
                    cu1 == cu + 1,
            ;
            j0
        }
    }
}

/// Every occupancy of the squares of a mask of at most `bits` squares is chosen by some index
/// below `2^bits`.
pub proof fn lemma_every_occupancy_indexed(md: u64, occ: u64, bits: u64) -> (j: u64)
    requires
        (BitBoard { data: occ })@.subset_of((BitBoard { data: md })@),
        count_below(md, 64) <= bits <= 12,
    ensures
        j < (1u64 << bits),
        occ_of_index(j, bits as int, md) == (BitBoard { data: occ })@,
{
    let j = lemma_index_prefix(md, occ, 64);
    let c = count_below(md, 64) as u64;
    assert((1u64 << c) <= (1u64 << bits)) by (bit_vector)
        requires
            c <= bits <= 12,
    ;
    assert forall|u: int| #[trigger] occ_of_index(j, bits as int, md).contains(u) <==> (BitBoard {
        data: occ,
    })@.contains(u) by {
        if bit_on(md, u) {
            lemma_count_mono(md, u as nat, 64);
        }
        if (BitBoard { data: occ })@.contains(u) {
            assert((BitBoard { data: md })@.contains(u));
        }
    }
    assert(occ_of_index(j, bits as int, md) =~= (BitBoard { data: occ })@);
    j
}

/// `occ` occupies only interior squares of the slider's lines from `s`.
pub open spec fn on_mask(diag: bool, s: int, occ: u64) -> bool {
    (BitBoard { data: occ })@.subset_of(interior_mask(diag, s))
}

/// The interior squares of `s` fit in the index width of its table.
pub open spec fn mask_fits(diag: bool, s: int) -> bool {
    interior_mask(diag, s).len() <= bits_of(diag, s)
}

/// No two occupancies of the interior squares of `s` share a slot unless they give the same
/// attack set.
pub open spec fn no_collision(diag: bool, s: int) -> bool {
    forall|o1: u64, o2: u64|
        on_mask(diag, s, o1) && on_mask(diag, s, o2) && #[trigger] slot_of(magic_of(diag, s), o1, bits_of(diag, s))
            == #[trigger] slot_of(magic_of(diag, s), o2, bits_of(diag, s)) ==> slider_set(
            diag,
            (BitBoard { data: o1 })@,
            s,
        ) == slider_set(diag, (BitBoard { data: o2 })@, s)
}

/// The magic constants of the slider on `s` work: its mask fits its table and no two of its
/// occupancies with different attack sets share a slot.
pub open spec fn square_sound(diag: bool, s: int) -> bool {
    mask_fits(diag, s) && no_collision(diag, s)
}

/// The magic constants of the slider kind work on every square.
pub open spec fn magics_sound(diag: bool) -> bool {
    forall|s: int| 0 <= s < 64 ==> #[trigger] square_sound(diag, s)
}

/// `occ` is the occupancy chosen by index `j` of the mask `md`.
pub open spec fn enumerates(j: u64, bits: u64, md: u64, occ: u64) -> bool {
    (BitBoard { data: occ })@ == occ_of_index(j, bits as int, md)
}

/// Magic-indexed attack tables of one slider kind (bishop when `diag`, else rook).
pub struct SliderTable {
    diag: bool,
    masks: Vec<BitBoard>,
    magics: Vec<u64>,
    bits: Vec<u64>,
    attacks: Vec<Vec<BitBoard>>,
}

impl SliderTable {
    pub closed spec fn is_diag(&self) -> bool {
        self.diag
    }

    /// The tables hold, for every square and every occupancy of its interior squares, the attack
    /// set at the occupancy's magic slot.
    pub closed spec fn wf(&self) -> bool {
        &&& self.masks@.len() == 64
        &&& self.attacks@.len() == 64
        &&& self.magics@ == if self.diag { bishop_magic_seq() } else { rook_magic_seq() }
        &&& self.bits@ == if self.diag { bishop_bits_seq() } else { rook_bits_seq() }
        &&& forall|s: int| 0 <= s < 64 ==> #[trigger] self.slot_ok(s)
    }

    pub closed spec fn slot_ok(&self, s: int) -> bool {
        &&& 1 <= self.bits@[s] <= 12
        &&& self.attacks@[s]@.len() == (1u64 << self.bits@[s])
        &&& self.masks@[s]@ == interior_mask(self.diag, s)
        &&& forall|occ: u64|
            #[trigger] on_mask(self.diag, s, occ) ==> {
                let m = slot_of(self.magics@[s], occ, self.bits@[s]);
                &&& m < self.attacks@[s]@.len()
                &&& self.attacks@[s]@[m as int]@ == slider_set(self.diag, (BitBoard { data: occ })@, s)
            }
    }

    /// The attack sets stored for the slider on `s`, and whether every occupancy of its mask
    /// found its slot free or holding the same attack set; `None` when the mask is larger than
    /// the table or two occupancies with different attack sets share a slot.
    fn fill_square(diag: bool, s: usize, mask: &BitBoard, magic: u64, bitcount: u64) -> (r: Option<Vec<BitBoard>>)
        requires
            s < 64,
            1 <= bitcount <= 12,
            mask@ == interior_mask(diag, s as int),
            magic == magic_of(diag, s as int),
            bitcount == bits_of(diag, s as int),
        ensures
            r is Some <==> square_sound(diag, s as int),
            r matches Some(a) ==> a@.len() == (1u64 << bitcount) && forall|occ: u64|
                #[trigger] on_mask(diag, s as int, occ) ==> {
                    let m = slot_of(magic, occ, bitcount);
                    &&& m < a@.len()
                    &&& a@[m as int]@ == slider_set(diag, (BitBoard { data: occ })@, s as int)
                },
    {
        let ghost md = mask.data;
        let ghost si = s as int;
        if mask.count_ones() as u64 > bitcount {
            return None;
        }
        proof {
            crate::bitboard::lemma_count_is_len(*mask);
        }
        let size: usize = 1usize << bitcount;
        assert(size == (1u64 << bitcount) && size <= 4096) by (bit_vector)
            requires
                size == (1usize << bitcount),
                1 <= bitcount <= 12,
        ;
        let mut attacks: Vec<BitBoard> = Vec::new();
        let mut filled: Vec<bool> = Vec::new();
        let mut i: usize = 0;
        while i < size
            invariant
                i <= size,
                attacks@.len() == i,
                filled@.len() == i,
                forall|m: int| 0 <= m < i ==> !#[trigger] filled@[m],
            decreases size - i,
        {
            attacks.push(BitBoard::empty());
            filled.push(false);
            i = i + 1;
        }
        let ghost mut keys: Seq<u64> = Seq::new(size as nat, |m: int| 0u64);
        let mut j: usize = 0;
        while j < size
            invariant
                s < 64,
                si == s,
                md == mask.data,
                mask@ == interior_mask(diag, si),
                magic == magic_of(diag, si),
                bitcount == bits_of(diag, si),
                1 <= bitcount <= 12,
                size == (1u64 << bitcount),
                size <= 4096,
                j <= size,
                attacks@.len() == size,
                filled@.len() == size,
                keys.len() == size,
                forall|m: int|
                    0 <= m < size && #[trigger] filled@[m] ==> on_mask(diag, si, keys[m]) && slot_of(
                        magic,
                        keys[m],
                        bitcount,
                    ) == m && attacks@[m]@ == slider_set(diag, (BitBoard { data: keys[m] })@, si),
                forall|j2: u64, o: u64|
                    j2 < j && #[trigger] enumerates(j2, bitcount, md, o) ==> slot_of(magic, o, bitcount)
                        < size && filled@[slot_of(magic, o, bitcount) as int] && attacks@[slot_of(
                        magic,
                        o,
                        bitcount,
                    ) as int]@ == slider_set(diag, (BitBoard { data: o })@, si),
            decreases size - j,
        {
            let occ = compute_occ_bb(j, bitcount, *mask);
            let m = magic_index(magic, occ, bitcount) as usize;
            let a = if diag {
                naive_bishop_attack(s, &occ)
            } else {
                naive_rook_attack(s, &occ)
            };
            proof {
                assert(occ@.subset_of(interior_mask(diag, si)));
                assert(on_mask(diag, si, occ.data));
            }
            if !filled[m] {
                attacks.set(m, a);
                filled.set(m, true);
                proof {
                    keys = keys.update(m as int, occ.data);
                }
            } else if attacks[m].data != a.data {
                proof {
                    let k = keys[m as int];
                    if attacks@[m as int]@ == a@ {
                        crate::bitboard::lemma_view_injective(attacks@[m as int], a);
                    }
                    assert(slot_of(magic_of(diag, si), k, bits_of(diag, si)) == slot_of(
                        magic_of(diag, si),
                        occ.data,
                        bits_of(diag, si),
                    ));
                    assert(on_mask(diag, si, k) && on_mask(diag, si, occ.data));
                    assert(slider_set(diag, (BitBoard { data: k })@, si) != slider_set(
                        diag,
                        (BitBoard { data: occ.data })@,
                        si,
                    ));
                    assert(!no_collision(diag, si));
                }
                return None;
            }
            proof {
                assert forall|j2: u64, o: u64|
                    j2 < j + 1 && #[trigger] enumerates(j2, bitcount, md, o) implies slot_of(magic, o, bitcount)
                        < size && filled@[slot_of(magic, o, bitcount) as int] && attacks@[slot_of(
                        magic,
                        o,
                        bitcount,
                    ) as int]@ == slider_set(diag, (BitBoard { data: o })@, si) by {
                    if j2 == j as u64 {
                        crate::bitboard::lemma_view_injective(BitBoard { data: o }, occ);
                    }
                }
            }
            j = j + 1;
        }
        proof {
            assert forall|occ: u64| #[trigger] on_mask(diag, si, occ) implies ({
                let m = slot_of(magic, occ, bitcount);
                &&& m < attacks@.len()
                &&& attacks@[m as int]@ == slider_set(diag, (BitBoard { data: occ })@, si)
            }) by {
                let j2 = lemma_every_occupancy_indexed(md, occ, bitcount);
                assert(enumerates(j2, bitcount, md, occ));
            }
            assert forall|o1: u64, o2: u64|
                on_mask(diag, si, o1) && on_mask(diag, si, o2) && #[trigger] slot_of(magic_of(diag, si), o1, bits_of(diag, si))
                    == #[trigger] slot_of(magic_of(diag, si), o2, bits_of(diag, si)) implies slider_set(
                    diag,
                    (BitBoard { data: o1 })@,
                    si,
                ) == slider_set(diag, (BitBoard { data: o2 })@, si) by {
                let j1 = lemma_every_occupancy_indexed(md, o1, bitcount);
                let j2 = lemma_every_occupancy_indexed(md, o2, bitcount);
                assert(enumerates(j1, bitcount, md, o1));
                assert(enumerates(j2, bitcount, md, o2));
            }
        }
        Some(attacks)
    }

    /// Builds the tables of every square: each occupancy of the interior squares is walked
    /// naively and stored at its magic slot. Fails when the magic constants do not fit: a mask
    /// larger than its table, or two occupancies with different attack sets on one slot.
    pub fn new(diag: bool) -> (r: Option<SliderTable>)
        ensures
            r is Some <==> magics_sound(diag),
            r matches Some(t) ==> t.wf() && t.is_diag() == diag,
    {
        let magics = if diag {
            bishop_magics()
        } else {
            rook_magics()
        };
        let bits = if diag {
            bishop_occ_bitcount()
        } else {
            rook_occ_bitcount()
        };
        let mut t = SliderTable { diag, masks: Vec::new(), magics, bits, attacks: Vec::new() };
        let mut s: usize = 0;
        while s < 64
            invariant
                s <= 64,
                t.diag == diag,
                t.magics@ == if diag { bishop_magic_seq() } else { rook_magic_seq() },
                t.bits@ == if diag { bishop_bits_seq() } else { rook_bits_seq() },
                forall|i: int| 0 <= i < 64 ==> 1 <= #[trigger] t.bits@[i] <= 12,
                t.masks@.len() == s,
                t.attacks@.len() == s,
                forall|i: int| 0 <= i < s ==> #[trigger] t.slot_ok(i),
                forall|i: int| 0 <= i < s ==> #[trigger] square_sound(diag, i),
            decreases 64 - s,
        {
            let mask = slider_mask(diag, s);
            let bitcount = t.bits[s];
            let magic = t.magics[s];
            match SliderTable::fill_square(diag, s, &mask, magic, bitcount) {
                None => {
                    proof {
                        assert(!square_sound(diag, s as int));
                    }
                    return None;
                },
                Some(a) => {
                    let ghost prev = t;
                    t.masks.push(mask);
                    t.attacks.push(a);
                    proof {
                        assert(square_sound(diag, s as int));
                        assert forall|i: int| 0 <= i < s + 1 implies #[trigger] t.slot_ok(i) by {
                            if i < s {
                                assert(prev.slot_ok(i));
                                assert(t.attacks@[i] == prev.attacks@[i]);
                                assert(t.masks@[i] == prev.masks@[i]);
                            }
                        }
                    }
                },
            }
            s = s + 1;
        }
        Some(t)
    }

    /// The squares that the slider on `s` attacks past the occupied squares `occ`.
    pub fn attack(&self, s: usize, occ: &BitBoard) -> (r: BitBoard)
        requires
            self.wf(),
            s < 64,
        ensures
            r@ == slider_set(self.is_diag(), occ@, s as int),
    {
        proof {
            assert(self.slot_ok(s as int));
        }
        let key = occ.bit_and(&self.masks[s]);
        proof {
            assert(on_mask(self.diag, s as int, key.data));
            lemma_interior_covers(self.diag, s as int);
            lemma_mask_suffices(self.diag, occ@, self.masks@[s as int]@, s as int);
        }
        let bits = self.bits[s];
        let slot = magic_index(self.magics[s], key, bits);
        assert((1u64 << bits) <= 4096) by (bit_vector)
            requires
                1 <= bits <= 12,
        ;
        let m = slot as usize;
        self.attacks[s][m]
    }
}

} // verus!
