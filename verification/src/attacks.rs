use vstd::prelude::*;
use crate::bits::{bit, lemma_bit_or_single, lemma_bit_ops};
use crate::square::{Sq64, Sq88};

verus! {

/// Knight jumps in 0x88 offsets.
pub const KNIGHT_OFFSETS: [i8; 8] = [31, 33, 18, 14, -31, -33, -18, -14];
/// Bishop directions in 0x88 offsets.
pub const BISHOP_OFFSETS: [i8; 4] = [15, 17, -15, -17];
/// Rook directions in 0x88 offsets.
pub const ROOK_OFFSETS: [i8; 4] = [1, -1, 16, -16];
/// King steps in 0x88 offsets.
pub const KING_OFFSETS: [i8; 8] = [1, -1, 16, -16, 15, 17, -15, -17];
/// Captures of a White pawn in 0x88 offsets.
pub const WHITE_PAWN_OFFSETS: [i8; 2] = [15, 17];
/// Captures of a Black pawn in 0x88 offsets.
pub const BLACK_PAWN_OFFSETS: [i8; 2] = [-15, -17];

/// The rank step of an 0x88 offset whose file step lies in -7..=7.
pub open spec fn off_dr(off: int) -> int {
    if off >= 0 {
        (off + 7) / 16
    } else {
        -((-off + 7) / 16)
    }
}

/// The file step of an 0x88 offset.
pub open spec fn off_df(off: int) -> int {
    off - 16 * off_dr(off)
}

/// The square reached from `sq` by moving `dr` ranks and `df` files, if on the board.
pub open spec fn shift(sq: int, dr: int, df: int) -> Option<int> {
    let r = sq / 8 + dr;
    let f = sq % 8 + df;
    if 0 <= r < 8 && 0 <= f < 8 {
        Some(8 * r + f)
    } else {
        None
    }
}

/// The square reached from `sq` by the 0x88 offset `off`, if on the board.
pub open spec fn offset_target(sq: int, off: int) -> Option<int> {
    shift(sq, off_dr(off), off_df(off))
}

/// Offsets whose file step stays within -2..=2 and rank step within -2..=2: every
/// knight, king, slider and pawn-capture offset is one.
pub open spec fn short_offset(off: int) -> bool {
    -2 <= off_dr(off) <= 2 && -2 <= off_df(off) <= 2
}

/// One 0x88 step: from an on-board square, adding a short offset lands on the board
/// exactly when the rank and file shift does, and on the matching square.
pub proof fn lemma_step88(s: u8, off: i8)
    requires
        s < 64,
        short_offset(off as int),
    ensures
        ({
            let s88 = (s + (s & !7u8)) as u8;
            let t = vstd::wrapping::u8_specs::wrapping_add_signed(s88, off);
            &&& (t & 0x88u8 == 0) == (offset_target(s as int, off as int) is Some)
            &&& t & 0x88u8 == 0 ==> t + (t & 7u8) <= 255 && ((t + (t & 7u8)) / 2) as int
                == offset_target(s as int, off as int).unwrap()
        }),
{
    let dr = off_dr(off as int);
    let df = off_df(off as int);
    let r = s / 8;
    let f = s % 8;
    crate::square::lemma_rank_file(s);
    let s88 = (s + (s & !7u8)) as u8;
    assert(s88 == 16 * r + f);
    let t = vstd::wrapping::u8_specs::wrapping_add_signed(s88, off);
    let v = 16 * r + f + off;
    assert(v == 16 * (r + dr) + (f + df));
    assert(t as int == (if v < 0 { v + 256 } else if v > 255 { v - 256 } else { v }));
    let tt = t;
    let rr = r as u8;
    let ff = f as u8;
    let rdr = (r + dr + 2) as u8;
    let fdf = (f + df + 2) as u8;
    assert(rr < 8 && ff < 8 && rdr <= 11 && fdf <= 11 && (tt as int) == (if v < 0 { v + 256 } else { v }));
    assert(v >= -34 && v <= 153);
    if 0 <= r + dr < 8 && 0 <= f + df < 8 {
        let a = (r + dr) as u8;
        let b = (f + df) as u8;
        assert(tt == 16 * a + b);
        assert(a < 8 && b < 8 ==> ((16 * a + b) as u8 & 0x88u8) == 0 && ((16 * a + b) as u8 + (((16 * a + b) as u8) & 7u8)) <= 255 && ((((16 * a + b) as u8 + (((16 * a + b) as u8) & 7u8)) / 2) == 8 * a + b)) by (bit_vector);
    } else {
        // off the board: some rank or file bit of 0x88 is set
        if v < 0 || v >= 128 {
            assert(tt >= 128);
            assert(tt >= 128 ==> tt & 0x88u8 != 0) by (bit_vector);
        } else {
            assert(tt as int == v);
            if f + df >= 8 {
                assert(tt % 16 == f + df - 8 + 8) by {
                    assert(tt as int == 16 * (r + dr) + (f + df));
                }
            } else {
                assert(f + df < 0 || !(0 <= r + dr < 8));
                if f + df < 0 {
                    assert(tt as int == 16 * (r + dr - 1) + (16 + f + df));
                    assert(tt % 16 == 16 + f + df);
                } else {
                    assert(false);
                }
            }
            assert(tt % 16 >= 8);
            assert(tt % 16 >= 8 ==> tt & 0x88u8 != 0) by (bit_vector);
        }
    }
}

/// Every offset of the list is short.
pub open spec fn short_offsets(offsets: Seq<i8>) -> bool {
    forall|k: int| 0 <= k < offsets.len() ==> short_offset(#[trigger] offsets[k] as int)
}

/// Whether one of the offsets leads from `sq` to `t`.
pub open spec fn leaps_to(sq: int, offsets: Seq<i8>, t: int) -> bool {
    exists|k: int| 0 <= k < offsets.len() && #[trigger] offset_target(sq, offsets[k] as int) == Some(t)
}

/// The square one 0x88 offset away from `sq`, if it is on the board.
pub fn step_target(sq: Sq64, off: i8) -> (r: Option<Sq64>)
    requires
        sq.valid(),
        short_offset(off as int),
    ensures
        match offset_target(sq.0 as int, off as int) {
            Some(t) => r == Some(Sq64(t as u8)) && t < 64,
            None => r is None,
        },
{
    proof {
        lemma_step88(sq.0, off);
        crate::square::lemma_rank_file(sq.0);
    }
    let t = sq.to_sq88().step(off);
    if t.is_on_board() {
        Some(t.to_sq64())
    } else {
        None
    }
}

/// The squares that the given offsets lead to from `sq` (a knight's, king's or pawn's
/// attacks for the matching offset lists).
pub fn leaper_attacks(sq: Sq64, offsets: &[i8]) -> (r: u64)
    requires
        sq.valid(),
        short_offsets(offsets@),
    ensures
        forall|t: u64| t < 64 ==> (#[trigger] bit(r, t) <==> leaps_to(sq.0 as int, offsets@, t as int)),
{
    let mut bb: u64 = 0;
    let mut i: usize = 0;
    proof {
        assert forall|t: u64| t < 64 implies (#[trigger] bit(bb, t) <==> leaps_to(sq.0 as int, offsets@.take(0), t as int)) by {
            lemma_bit_ops(0u64, 0u64, t);
        }
    }
    while i < offsets.len()
        invariant
            sq.valid(),
            short_offsets(offsets@),
            i <= offsets.len(),
            forall|t: u64| t < 64 ==> (#[trigger] bit(bb, t) <==> leaps_to(sq.0 as int, offsets@.take(i as int), t as int)),
        decreases offsets.len() - i,
    {
        let off = offsets[i];
        proof {
            assert(short_offset(offsets@[i as int] as int));
        }
        let target = step_target(sq, off);
        let ghost old_bb = bb;
        match target {
            Some(t) => {
                bb = bb | (1u64 << t.0);
            },
            None => {},
        }
        proof {
            assert forall|t: u64| t < 64 implies (#[trigger] bit(bb, t) <==> leaps_to(sq.0 as int, offsets@.take(i + 1), t as int)) by {
                let pre = offsets@.take(i as int);
                let post = offsets@.take(i + 1);
                if let Some(tt) = target {
                    lemma_bit_or_single(old_bb, tt.0 as u64, t);
                }
                if leaps_to(sq.0 as int, post, t as int) {
                    let k = choose|k: int| 0 <= k < post.len() && #[trigger] offset_target(sq.0 as int, post[k] as int) == Some(t as int);
                    if k < i {
                        assert(pre[k] == post[k]);
                    }
                }
                if leaps_to(sq.0 as int, pre, t as int) {
                    let k = choose|k: int| 0 <= k < pre.len() && #[trigger] offset_target(sq.0 as int, pre[k] as int) == Some(t as int);
                    assert(post[k] == pre[k]);
                }
                if offset_target(sq.0 as int, off as int) == Some(t as int) {
                    assert(post[i as int] == off);
                }
            }
        }
        i += 1;
    }
    proof {
        assert(offsets@.take(i as int) =~= offsets@);
    }
    bb
}

/// For every square, the squares that the offsets lead to from it.
pub fn compute_attacks(offsets: &[i8]) -> (table: [u64; 64])
    requires
        short_offsets(offsets@),
    ensures
        forall|sq: int, t: u64|
            0 <= sq < 64 && t < 64 ==> (#[trigger] bit(table@[sq], t) <==> leaps_to(sq, offsets@, t as int)),
{
    let mut table = [0u64; 64];
    let mut sq: usize = 0;
    while sq < 64
        invariant
            sq <= 64,
            short_offsets(offsets@),
            forall|s: int, t: u64|
                0 <= s < sq && t < 64 ==> (#[trigger] bit(table@[s], t) <==> leaps_to(s, offsets@, t as int)),
        decreases 64 - sq,
    {
        table[sq] = leaper_attacks(Sq64(sq as u8), offsets);
        sq += 1;
    }
    table
}

/// The squares a knight on `sq` attacks.
pub fn knight_attacks(sq: Sq64) -> (r: u64)
    requires
        sq.valid(),
    ensures
        forall|t: u64| t < 64 ==> (#[trigger] bit(r, t) <==> leaps_to(sq.0 as int, KNIGHT_OFFSETS@, t as int)),
{
    let offsets = KNIGHT_OFFSETS;
    proof {
        assert(short_offsets(offsets@)) by {
            assert forall|k: int| 0 <= k < offsets@.len() implies short_offset(#[trigger] offsets@[k] as int) by {
                assert(offsets@[k] == KNIGHT_OFFSETS[k]);
            }
        }
    }
    leaper_attacks(sq, &offsets)
}

/// The squares a king on `sq` attacks.
pub fn king_attacks(sq: Sq64) -> (r: u64)
    requires
        sq.valid(),
    ensures
        forall|t: u64| t < 64 ==> (#[trigger] bit(r, t) <==> leaps_to(sq.0 as int, KING_OFFSETS@, t as int)),
{
    let offsets = KING_OFFSETS;
    proof {
        assert(short_offsets(offsets@)) by {
            assert forall|k: int| 0 <= k < offsets@.len() implies short_offset(#[trigger] offsets@[k] as int) by {
                assert(offsets@[k] == KING_OFFSETS[k]);
            }
        }
    }
    leaper_attacks(sq, &offsets)
}

/// The offsets of the captures of a pawn of colour `c`.
pub open spec fn pawn_offsets(c: crate::piece::Color) -> Seq<i8> {
    match c {
        crate::piece::Color::White => WHITE_PAWN_OFFSETS@,
        crate::piece::Color::Black => BLACK_PAWN_OFFSETS@,
    }
}

/// The squares a pawn of colour `c` on `sq` attacks.
pub fn pawn_attacks(c: crate::piece::Color, sq: Sq64) -> (r: u64)
    requires
        sq.valid(),
    ensures
        forall|t: u64| t < 64 ==> (#[trigger] bit(r, t) <==> leaps_to(sq.0 as int, pawn_offsets(c), t as int)),
{
    match c {
        crate::piece::Color::White => {
            let offsets = WHITE_PAWN_OFFSETS;
            proof {
                assert(short_offsets(offsets@)) by {
                    assert forall|k: int| 0 <= k < offsets@.len() implies short_offset(#[trigger] offsets@[k] as int) by {
                        assert(offsets@[k] == WHITE_PAWN_OFFSETS[k]);
                    }
                }
            }
            leaper_attacks(sq, &offsets)
        },
        crate::piece::Color::Black => {
            let offsets = BLACK_PAWN_OFFSETS;
            proof {
                assert(short_offsets(offsets@)) by {
                    assert forall|k: int| 0 <= k < offsets@.len() implies short_offset(#[trigger] offsets@[k] as int) by {
                        assert(offsets@[k] == BLACK_PAWN_OFFSETS[k]);
                    }
                }
            }
            leaper_attacks(sq, &offsets)
        },
    }
}

/// One of the eight sliding directions (rank, file and diagonal steps).
pub open spec fn slider_offset(off: int) -> bool {
    off == 1 || off == -1 || off == 16 || off == -16 || off == 15 || off == 17 || off == -15 || off
        == -17
}

pub open spec fn slider_offsets(offsets: Seq<i8>) -> bool {
    forall|k: int| 0 <= k < offsets.len() ==> slider_offset(#[trigger] offsets[k] as int)
}

/// The square `n` steps from `sq` in the direction of `off`, if still on the board.
pub open spec fn ray_sq(sq: int, off: int, n: nat) -> Option<int>
    decreases n,
{
    if n == 0 {
        Some(sq)
    } else {
        match ray_sq(sq, off, (n - 1) as nat) {
            None => None,
            Some(s) => offset_target(s, off),
        }
    }
}

/// The squares 1 .. n-1 steps along the ray are on the board and not in `occ`.
pub open spec fn clear_before(sq: int, off: int, occ: u64, n: nat) -> bool {
    forall|j: nat|
        1 <= j < n ==> (#[trigger] ray_sq(sq, off, j) is Some && !bit(occ, ray_sq(sq, off, j).unwrap() as u64))
}

/// A slider on `sq` moving in the direction of `off` reaches `t`: `t` lies on the ray
/// and no square of `occ` stands before it.
pub open spec fn slide_attack(sq: int, occ: u64, off: int, t: int) -> bool {
    exists|n: nat| 1 <= n && #[trigger] ray_sq(sq, off, n) == Some(t) && clear_before(sq, off, occ, n)
}

/// A slider on `sq` with the given directions reaches `t`.
pub open spec fn slides_to(sq: int, occ: u64, offsets: Seq<i8>, t: int) -> bool {
    exists|k: int| 0 <= k < offsets.len() && #[trigger] slide_attack(sq, occ, offsets[k] as int, t)
}

pub open spec fn lin(d: int, n: int) -> int {
    if d == 1 {
        n
    } else if d == -1 {
        -n
    } else {
        0
    }
}

pub proof fn lemma_div8(a: int, b: int)
    requires
        0 <= b < 8,
    ensures
        (8 * a + b) / 8 == a,
        (8 * a + b) % 8 == b,
{
    assert((8 * a + b) / 8 == a && (8 * a + b) % 8 == b) by (nonlinear_arith)
        requires 0 <= b < 8;
}

pub proof fn lemma_ray_shape(sq: int, off: int, n: nat)
    requires
        0 <= sq < 64,
        slider_offset(off),
    ensures
        ray_sq(sq, off, n) == shift(sq, lin(off_dr(off), n as int), lin(off_df(off), n as int)),
        ray_sq(sq, off, n) is Some ==> n <= 7,
        ray_sq(sq, off, n) matches Some(t) ==> 0 <= t < 64,
    decreases n,
{
    let dr = off_dr(off);
    let df = off_df(off);
    assert(-1 <= dr <= 1 && -1 <= df <= 1 && (dr != 0 || df != 0));
    let r = sq / 8;
    let f = sq % 8;
    if n > 0 {
        lemma_ray_shape(sq, off, (n - 1) as nat);
        let a = r + lin(dr, n - 1);
        let b = f + lin(df, n - 1);
        if 0 <= a < 8 && 0 <= b < 8 {
            lemma_div8(a, b);
            assert(ray_sq(sq, off, (n - 1) as nat) == Some(8 * a + b));
            assert(lin(dr, n as int) == lin(dr, n - 1) + dr);
            assert(lin(df, n as int) == lin(df, n - 1) + df);
        } else {
            assert(ray_sq(sq, off, (n - 1) as nat) is None);
        }
    } else {
        lemma_div8(r, f);
    }
}

pub proof fn lemma_ray_some_before(sq: int, off: int, j: nat, m: nat)
    requires
        j <= m,
        ray_sq(sq, off, m) is Some,
    ensures
        ray_sq(sq, off, j) is Some,
    decreases m - j,
{
    if j < m {
        lemma_ray_some_before(sq, off, j, (m - 1) as nat);
    }
}

/// The squares a slider on `sq` reaches in the direction of `off`, stopping at (and
/// including) the first square of `blockers`.
pub fn slide_dir(sq: Sq64, blockers: u64, off: i8) -> (r: u64)
    requires
        sq.valid(),
        slider_offset(off as int),
    ensures
        forall|t: u64| t < 64 ==> (#[trigger] bit(r, t) <==> slide_attack(sq.0 as int, blockers, off as int, t as int)),
{
    let ghost s = sq.0 as int;
    let ghost o = off as int;
    proof {
        crate::square::lemma_rank_file(sq.0);
        lemma_step88(sq.0, off);
        lemma_ray_shape(s, o, 1);
    }
    let mut bb: u64 = 0;
    let sq_88 = sq.to_sq88();
    let mut to_sq = sq_88.step(off);
    let ghost mut n: nat = 1;
    let mut blocked = false;
    proof {
        assert(ray_sq(s, o, 1) == offset_target(s, o));
        assert forall|t: u64| t < 64 implies (#[trigger] bit(bb, t) <==> exists|j: nat| 1 <= j < n && ray_sq(s, o, j) == Some(t as int)) by {
            lemma_bit_ops(0u64, 0u64, t);
        }
        if let Some(t) = ray_sq(s, o, 1) {
            let tt = t as u8;
            crate::square::lemma_rank_file(tt);
            assert(to_sq.0 == (to_sq.0 + (to_sq.0 & 7u8)) / 2 + (((to_sq.0 + (to_sq.0 & 7u8)) / 2) as u8 & !7u8)) by {
                let x = to_sq.0;
                assert(x & 0x88u8 == 0 ==> x == ((x + (x & 7u8)) / 2) as u8 + ((((x + (x & 7u8)) / 2) as u8) & !7u8)) by (bit_vector);
            }
        }
    }
    while !blocked && to_sq.is_on_board()
        invariant
            sq.valid(),
            s == sq.0,
            o == off,
            slider_offset(o),
            1 <= n <= 8,
            !blocked ==> ((ray_sq(s, o, n) is Some) == to_sq.is_on()),
            !blocked ==> (ray_sq(s, o, n) matches Some(t) ==> to_sq.0 == t + ((t as u8) & !7u8) && t < 64),
            !blocked ==> forall|t: u64| t < 64 ==> (#[trigger] bit(bb, t) <==> exists|j: nat| 1 <= j < n && ray_sq(s, o, j) == Some(t as int)),
            blocked ==> forall|t: u64| t < 64 ==> (#[trigger] bit(bb, t) <==> exists|j: nat| 1 <= j <= n && ray_sq(s, o, j) == Some(t as int)),
            blocked ==> ray_sq(s, o, n) is Some && bit(blockers, ray_sq(s, o, n).unwrap() as u64),
            clear_before(s, o, blockers, n),
        decreases (8 - n) * 2 + (if blocked { 0int } else { 1int }),
    {
        let ghost t = ray_sq(s, o, n).unwrap();
        proof {
            lemma_ray_shape(s, o, n);
            crate::square::lemma_rank_file(t as u8);
        }
        proof {
            let tt = t as u8;
            assert(tt < 64 ==> (tt + (tt & !7u8)) + (((tt + (tt & !7u8)) as u8) & 7u8) <= 255) by (bit_vector);
        }
        let to_sq_64 = to_sq.to_sq64();
        proof {
            let x = to_sq.0;
            let tt = t as u8;
            assert(x == tt + (tt & !7u8));
            assert(tt < 64 ==> ((tt + (tt & !7u8)) as u8 + (((tt + (tt & !7u8)) as u8) & 7u8)) / 2 == tt) by (bit_vector);
            assert(to_sq_64.0 == tt);
        }
        let mask: u64 = 1u64 << to_sq_64.0;
        let ghost old_bb = bb;
        bb = bb | mask;
        proof {
            assert forall|u: u64| u < 64 implies (#[trigger] bit(bb, u) <==> exists|j: nat| 1 <= j <= n && ray_sq(s, o, j) == Some(u as int)) by {
                lemma_bit_or_single(old_bb, t as u64, u);
                if exists|j: nat| 1 <= j <= n && ray_sq(s, o, j) == Some(u as int) {
                    let j = choose|j: nat| 1 <= j <= n && ray_sq(s, o, j) == Some(u as int);
                    if j < n {
                        assert(exists|j2: nat| 1 <= j2 < n && ray_sq(s, o, j2) == Some(u as int));
                    }
                }
                if u == t {
                    assert(ray_sq(s, o, n) == Some(u as int));
                }
            }
        }
        proof {
            assert((0u64 | mask) == mask) by (bit_vector);
        }
        if blockers & mask != 0 {
            blocked = true;
            proof {
                lemma_bit_ops(blockers, mask, t as u64);
                lemma_bit_or_single(0u64, t as u64, t as u64);
                crate::bits::lemma_and_nonzero(blockers, mask);
                let w = choose|i: u64| i < 64 && #[trigger] bit(blockers & mask, i);
                lemma_bit_ops(blockers, mask, w);
                lemma_bit_or_single(0u64, t as u64, w);
            }
        } else {
            proof {
                lemma_bit_ops(blockers, mask, t as u64);
                lemma_bit_or_single(0u64, t as u64, t as u64);
                assert(!bit(blockers, t as u64));
                lemma_step88(t as u8, off);
                lemma_ray_shape(s, o, n + 1);
                assert(ray_sq(s, o, n + 1) == offset_target(t, o));
                assert forall|j: nat| 1 <= j < n + 1 implies (#[trigger] ray_sq(s, o, j) is Some && !bit(blockers, ray_sq(s, o, j).unwrap() as u64)) by {
                    if j < n {
                        assert(ray_sq(s, o, j) is Some);
                    }
                }
                if let Some(t2) = ray_sq(s, o, n + 1) {
                    let x = vstd::wrapping::u8_specs::wrapping_add_signed(to_sq.0, off);
                    assert(x & 0x88u8 == 0 ==> x == ((x + (x & 7u8)) / 2) as u8 + ((((x + (x & 7u8)) / 2) as u8) & !7u8)) by (bit_vector);
                }
            }
            to_sq = to_sq.step(off);
            proof {
                n = n + 1;
            }
        }
    }
    proof {
        assert forall|u: u64| u < 64 implies (#[trigger] bit(bb, u) <==> slide_attack(s, blockers, o, u as int)) by {
            if slide_attack(s, blockers, o, u as int) {
                let m = choose|m: nat| 1 <= m && #[trigger] ray_sq(s, o, m) == Some(u as int) && clear_before(s, o, blockers, m);
                if blocked {
                    if m > n {
                        assert(ray_sq(s, o, n) is Some && !bit(blockers, ray_sq(s, o, n).unwrap() as u64));
                    }
                } else {
                    if m >= n {
                        lemma_ray_some_before(s, o, n, m);
                    }
                }
            }
            if bit(bb, u) {
                let j = choose|j: nat| 1 <= j <= n && ray_sq(s, o, j) == Some(u as int);
                assert(clear_before(s, o, blockers, j));
            }
        }
    }
    bb
}

/// The squares a slider on `sq` with the given directions reaches, each ray stopping
/// at (and including) the first square of `blockers`.
pub fn compute_sliding_attacks(sq: u8, blockers: u64, offsets: &[i8]) -> (r: u64)
    requires
        sq < 64,
        slider_offsets(offsets@),
    ensures
        forall|t: u64| t < 64 ==> (#[trigger] bit(r, t) <==> slides_to(sq as int, blockers, offsets@, t as int)),
{
    let mut bb: u64 = 0;
    let mut i: usize = 0;
    proof {
        assert forall|t: u64| t < 64 implies (#[trigger] bit(bb, t) <==> slides_to(sq as int, blockers, offsets@.take(0), t as int)) by {
            lemma_bit_ops(0u64, 0u64, t);
        }
    }
    while i < offsets.len()
        invariant
            sq < 64,
            slider_offsets(offsets@),
            i <= offsets.len(),
            forall|t: u64| t < 64 ==> (#[trigger] bit(bb, t) <==> slides_to(sq as int, blockers, offsets@.take(i as int), t as int)),
        decreases offsets.len() - i,
    {
        let off = offsets[i];
        proof {
            assert(slider_offset(offsets@[i as int] as int));
        }
        let d = slide_dir(Sq64(sq), blockers, off);
        let ghost old_bb = bb;
        bb = bb | d;
        proof {
            assert forall|t: u64| t < 64 implies (#[trigger] bit(bb, t) <==> slides_to(sq as int, blockers, offsets@.take(i + 1), t as int)) by {
                let pre = offsets@.take(i as int);
                let post = offsets@.take(i + 1);
                lemma_bit_ops(old_bb, d, t);
                if slides_to(sq as int, blockers, post, t as int) {
                    let k = choose|k: int| 0 <= k < post.len() && #[trigger] slide_attack(sq as int, blockers, post[k] as int, t as int);
                    if k < i {
                        assert(pre[k] == post[k]);
                    }
                }
                if slides_to(sq as int, blockers, pre, t as int) {
                    let k = choose|k: int| 0 <= k < pre.len() && #[trigger] slide_attack(sq as int, blockers, pre[k] as int, t as int);
                    assert(post[k] == pre[k]);
                }
                if slide_attack(sq as int, blockers, off as int, t as int) {
                    assert(post[i as int] == off);
                }
            }
        }
        i += 1;
    }
    proof {
        assert(offsets@.take(i as int) =~= offsets@);
    }
    bb
}

/// The squares a bishop on `sq` attacks when the pieces stand on `occ`.
pub fn get_bishop_moves(sq: Sq64, occ: u64) -> (r: u64)
    requires
        sq.valid(),
    ensures
        forall|t: u64| t < 64 ==> (#[trigger] bit(r, t) <==> slides_to(sq.0 as int, occ, BISHOP_OFFSETS@, t as int)),
{
    let offsets = BISHOP_OFFSETS;
    proof {
        assert forall|k: int| 0 <= k < offsets@.len() implies slider_offset(#[trigger] offsets@[k] as int) by {
            assert(offsets@[k] == BISHOP_OFFSETS[k]);
        }
    }
    compute_sliding_attacks(sq.0, occ, &offsets)
}

/// The squares a rook on `sq` attacks when the pieces stand on `occ`.
pub fn get_rook_moves(sq: Sq64, occ: u64) -> (r: u64)
    requires
        sq.valid(),
    ensures
        forall|t: u64| t < 64 ==> (#[trigger] bit(r, t) <==> slides_to(sq.0 as int, occ, ROOK_OFFSETS@, t as int)),
{
    let offsets = ROOK_OFFSETS;
    proof {
        assert forall|k: int| 0 <= k < offsets@.len() implies slider_offset(#[trigger] offsets@[k] as int) by {
            assert(offsets@[k] == ROOK_OFFSETS[k]);
        }
    }
    compute_sliding_attacks(sq.0, occ, &offsets)
}

pub open spec fn sign(x: int) -> int {
    if x > 0 {
        1
    } else if x < 0 {
        -1
    } else {
        0
    }
}

pub open spec fn abs(x: int) -> int {
    if x < 0 {
        -x
    } else {
        x
    }
}

/// `t` lies strictly between the distinct squares `a` and `b`, which share a rank, a
/// file or a diagonal.
pub open spec fn between_spec(a: int, b: int, t: int) -> bool {
    let dr = b / 8 - a / 8;
    let df = b % 8 - a % 8;
    let n = if abs(dr) > abs(df) {
        abs(dr)
    } else {
        abs(df)
    };
    &&& a != b
    &&& (dr == 0 || df == 0 || abs(dr) == abs(df))
    &&& exists|k: int|
        1 <= k < n && t == #[trigger] (8 * (a / 8 + lin(sign(dr), k)) + a % 8 + lin(sign(df), k))
}

/// The squares strictly between `a` and `b` when they share a rank, file or diagonal;
/// no squares otherwise.
pub fn between(a: u8, b: u8) -> (r: u64)
    requires
        a < 64,
        b < 64,
    ensures
        forall|t: u64| t < 64 ==> (#[trigger] bit(r, t) <==> between_spec(a as int, b as int, t as int)),
{
    let fa = (a % 8) as i8;
    let ra = (a / 8) as i8;
    let fb = (b % 8) as i8;
    let rb = (b / 8) as i8;
    let dr = rb - ra;
    let df = fb - fa;
    let adr: i8 = if dr < 0 { -dr } else { dr };
    let adf: i8 = if df < 0 { -df } else { df };
    let ghost n: int = if adr > adf { adr as int } else { adf as int };
    let mut mask: u64 = 0;
    if (adr == adf || dr == 0 || df == 0) && a != b {
        let sr: i8 = if dr > 0 { 1 } else if dr < 0 { -1 } else { 0 };
        let sf: i8 = if df > 0 { 1 } else if df < 0 { -1 } else { 0 };
        let mut current_f: i8 = fa + sf;
        let mut current_r: i8 = ra + sr;
        let ghost mut k: int = 1;
        proof {
            assert forall|t: u64| t < 64 implies (#[trigger] bit(mask, t) <==> exists|j: int| 1 <= j < k && t == 8 * (ra + lin(sr as int, j)) + fa + lin(sf as int, j)) by {
                lemma_bit_ops(0u64, 0u64, t);
            }
        }
        while current_f != fb || current_r != rb
            invariant
                0 <= fa < 8 && 0 <= ra < 8 && 0 <= fb < 8 && 0 <= rb < 8,
                dr == rb - ra,
                df == fb - fa,
                sr as int == sign(dr as int),
                sf as int == sign(df as int),
                adr as int == abs(dr as int),
                adf as int == abs(df as int),
                adr == adf || dr == 0 || df == 0,
                a != b,
                a == 8 * ra + fa,
                b == 8 * rb + fb,
                n == (if adr > adf { adr as int } else { adf as int }),
                1 <= k <= n,
                current_f == fa + lin(sf as int, k),
                current_r == ra + lin(sr as int, k),
                forall|t: u64| t < 64 ==> (#[trigger] bit(mask, t) <==> exists|j: int| 1 <= j < k && t == 8 * (ra + lin(sr as int, j)) + fa + lin(sf as int, j)),
            decreases n - k,
        {
            assert(k < n);
            let sq = (current_r * 8 + current_f) as u8;
            let ghost old_mask = mask;
            mask = mask | (1u64 << sq);
            proof {
                assert forall|t: u64| t < 64 implies (#[trigger] bit(mask, t) <==> exists|j: int| 1 <= j < k + 1 && t == 8 * (ra + lin(sr as int, j)) + fa + lin(sf as int, j)) by {
                    lemma_bit_or_single(old_mask, sq as u64, t);
                    if t == sq {
                        assert(1 <= k < k + 1 && t == 8 * (ra + lin(sr as int, k)) + fa + lin(sf as int, k));
                    }
                    if exists|j: int| 1 <= j < k + 1 && t == 8 * (ra + lin(sr as int, j)) + fa + lin(sf as int, j) {
                        let j = choose|j: int| 1 <= j < k + 1 && t == 8 * (ra + lin(sr as int, j)) + fa + lin(sf as int, j);
                        if j < k {
                            assert(exists|j2: int| 1 <= j2 < k && t == 8 * (ra + lin(sr as int, j2)) + fa + lin(sf as int, j2));
                        }
                    }
                }
            }
            current_f += sf;
            current_r += sr;
            proof {
                k = k + 1;
            }
        }
        proof {
            lemma_div8(ra as int, fa as int);
            lemma_div8(rb as int, fb as int);
            assert forall|t: u64| t < 64 implies (#[trigger] bit(mask, t) <==> between_spec(a as int, b as int, t as int)) by {
                if bit(mask, t) {
                    let j = choose|j: int| 1 <= j < k && t == 8 * (ra + lin(sr as int, j)) + fa + lin(sf as int, j);
                    assert(t == #[trigger] (8 * (a / 8 + lin(sign(dr as int), j)) + a % 8 + lin(sign(df as int), j)));
                }
                if between_spec(a as int, b as int, t as int) {
                    let j = choose|j: int| 1 <= j < n && t == #[trigger] (8 * (a / 8 + lin(sign(dr as int), j)) + a % 8 + lin(sign(df as int), j));
                    assert(exists|j2: int| 1 <= j2 < k && t == 8 * (ra + lin(sr as int, j2)) + fa + lin(sf as int, j2));
                }
            }
        }
    } else {
        proof {
            lemma_div8(ra as int, fa as int);
            lemma_div8(rb as int, fb as int);
            assert forall|t: u64| t < 64 implies (#[trigger] bit(mask, t) <==> between_spec(a as int, b as int, t as int)) by {
                lemma_bit_ops(0u64, 0u64, t);
            }
        }
    }
    mask
}

/// For every pair of squares, the squares strictly between them (see `between`).
pub fn compute_between() -> (table: [[u64; 64]; 64])
    ensures
        forall|a: int, b: int, t: u64|
            0 <= a < 64 && 0 <= b < 64 && t < 64 ==> (#[trigger] bit(table@[a]@[b], t)
                <==> between_spec(a, b, t as int)),
        forall|a: int, b: int| 0 <= a < 64 && 0 <= b < 64 ==> #[trigger] table@[a]@[b] == table@[b]@[a],
{
    let mut table = [[0u64; 64]; 64];
    let mut a: usize = 0;
    while a < 64
        invariant
            a <= 64,
            forall|x: int, y: int, t: u64|
                0 <= x < a && 0 <= y < 64 && t < 64 ==> (#[trigger] bit(table@[x]@[y], t)
                    <==> between_spec(x, y, t as int)),
        decreases 64 - a,
    {
        let mut row = [0u64; 64];
        let mut b: usize = 0;
        while b < 64
            invariant
                a < 64,
                b <= 64,
                forall|y: int, t: u64|
                    0 <= y < b && t < 64 ==> (#[trigger] bit(row@[y], t) <==> between_spec(a as int, y, t as int)),
            decreases 64 - b,
        {
            row[b] = between(a as u8, b as u8);
            b += 1;
        }
        table[a] = row;
        a += 1;
    }
    proof {
        assert forall|x: int, y: int| 0 <= x < 64 && 0 <= y < 64 implies #[trigger] table@[x]@[y] == table@[y]@[x] by {
            assert forall|t: u64| t < 64 implies #[trigger] bit(table@[x]@[y], t) == bit(table@[y]@[x], t) by {
                crate::geometry::lemma_between_symmetric(x, y, t as int);
            }
            crate::bits::lemma_bit_ext(table@[x]@[y], table@[y]@[x]);
        }
    }
    table
}

/// The squares of the rays from `sq` in the given directions, leaving out the last
/// square of each ray (the squares whose occupancy can change a slider's attacks).
pub open spec fn blocker_sq(sq: int, offsets: Seq<i8>, t: int) -> bool {
    exists|k: int, n: nat|
        0 <= k < offsets.len() && 1 <= n && #[trigger] ray_sq(sq, offsets[k] as int, n) == Some(t)
            && ray_sq(sq, offsets[k] as int, n + 1) is Some
}

/// The relevant blocker squares of a slider on `sq`: every ray square but the last.
pub fn blockers_for(sq: Sq64, offsets: &[i8]) -> (r: u64)
    requires
        sq.valid(),
        slider_offsets(offsets@),
    ensures
        forall|t: u64| t < 64 ==> (#[trigger] bit(r, t) <==> blocker_sq(sq.0 as int, offsets@, t as int)),
{
    // a ray square is a blocker square exactly when the ray goes on past it: the ray
    // with no blockers, minus its last square, is the ray reached with every square blocked
    // but looked at one step earlier. We walk each ray directly.
    let mut bb: u64 = 0;
    let mut i: usize = 0;
    let ghost s = sq.0 as int;
    proof {
        assert forall|t: u64| t < 64 implies (#[trigger] bit(bb, t) <==> blocker_sq(s, offsets@.take(0), t as int)) by {
            lemma_bit_ops(0u64, 0u64, t);
        }
    }
    while i < offsets.len()
        invariant
            sq.valid(),
            s == sq.0,
            slider_offsets(offsets@),
            i <= offsets.len(),
            forall|t: u64| t < 64 ==> (#[trigger] bit(bb, t) <==> blocker_sq(s, offsets@.take(i as int), t as int)),
        decreases offsets.len() - i,
    {
        let off = offsets[i];
        let ghost o = off as int;
        proof {
            assert(slider_offset(offsets@[i as int] as int));
        }
        // walk the ray, remembering the previous square
        let mut prev: Option<Sq64> = None;
        let mut cur = step_target(sq, off);
        let ghost mut n: nat = 1;
        let mut dir_bb: u64 = 0;
        proof {
            lemma_ray_shape(s, o, 1);
            assert(ray_sq(s, o, 1) == offset_target(s, o));
            assert forall|t: u64| t < 64 implies (#[trigger] bit(dir_bb, t) <==> exists|j: nat| 1 <= j && j + 1 < n + 0 && ray_sq(s, o, j) == Some(t as int)) by {
                lemma_bit_ops(0u64, 0u64, t);
            }
        }
        while cur.is_some()
            invariant
                sq.valid(),
                s == sq.0,
                o == off,
                slider_offset(o),
                1 <= n <= 8,
                match cur {
                    Some(c) => ray_sq(s, o, n) == Some(c.0 as int) && c.0 < 64,
                    None => ray_sq(s, o, n) is None,
                },
                n == 1 ==> prev is None,
                n > 1 ==> (prev matches Some(p) && ray_sq(s, o, (n - 1) as nat) == Some(p.0 as int) && p.0 < 64),
                forall|t: u64| t < 64 ==> (#[trigger] bit(dir_bb, t) <==> exists|j: nat| 1 <= j && j + 1 < n && ray_sq(s, o, j) == Some(t as int)),
            decreases 8 - n,
        {
            let c = cur.unwrap();
            proof {
                lemma_ray_shape(s, o, n);
                lemma_ray_shape(s, o, n + 1);
            }
            let ghost old_dir = dir_bb;
            match prev {
                Some(p) => {
                    dir_bb = dir_bb | (1u64 << p.0);
                },
                None => {},
            }
            proof {
                assert forall|t: u64| t < 64 implies (#[trigger] bit(dir_bb, t) <==> exists|j: nat| 1 <= j && j + 1 < n + 1 && ray_sq(s, o, j) == Some(t as int)) by {
                    if let Some(p) = prev {
                        lemma_bit_or_single(old_dir, p.0 as u64, t);
                        if t == p.0 {
                            assert(ray_sq(s, o, (n - 1) as nat) == Some(t as int));
                        }
                    }
                    if exists|j: nat| 1 <= j && j + 1 < n + 1 && ray_sq(s, o, j) == Some(t as int) {
                        let j = choose|j: nat| 1 <= j && j + 1 < n + 1 && ray_sq(s, o, j) == Some(t as int);
                        if j + 1 < n {
                            assert(exists|j2: nat| 1 <= j2 && j2 + 1 < n && ray_sq(s, o, j2) == Some(t as int));
                        }
                    }
                }
            }
            prev = Some(c);
            cur = step_target(c, off);
            proof {
                assert(ray_sq(s, o, n + 1) == offset_target(c.0 as int, o));
                n = n + 1;
            }
        }
        let ghost old_bb = bb;
        bb = bb | dir_bb;
        proof {
            // the walk stopped at the first off-board step n: dir_bb holds ray squares j with j + 1 < n
            assert forall|t: u64| t < 64 implies (#[trigger] bit(bb, t) <==> blocker_sq(s, offsets@.take(i + 1), t as int)) by {
                let pre = offsets@.take(i as int);
                let post = offsets@.take(i + 1);
                lemma_bit_ops(old_bb, dir_bb, t);
                if blocker_sq(s, post, t as int) {
                    let (k, m) = choose|k: int, m: nat| 0 <= k < post.len() && 1 <= m && #[trigger] ray_sq(s, post[k] as int, m) == Some(t as int)
                        && ray_sq(s, post[k] as int, m + 1) is Some;
                    if k < i {
                        assert(pre[k] == post[k]);
                        assert(blocker_sq(s, pre, t as int));
                    } else {
                        assert(post[k] == off);
                        if m + 1 >= n {
                            lemma_ray_some_before(s, o, n, m + 1);
                        }
                        assert(exists|j: nat| 1 <= j && j + 1 < n && ray_sq(s, o, j) == Some(t as int));
                    }
                }
                if blocker_sq(s, pre, t as int) {
                    let (k, m) = choose|k: int, m: nat| 0 <= k < pre.len() && 1 <= m && #[trigger] ray_sq(s, pre[k] as int, m) == Some(t as int)
                        && ray_sq(s, pre[k] as int, m + 1) is Some;
                    assert(post[k] == pre[k]);
                }
                if bit(dir_bb, t) {
                    let j = choose|j: nat| 1 <= j && j + 1 < n && ray_sq(s, o, j) == Some(t as int);
                    lemma_ray_some_before(s, o, j + 1, (n - 1) as nat);
                    assert(post[i as int] == off);
                    assert(ray_sq(s, post[i as int] as int, j) == Some(t as int));
                }
            }
        }
        i += 1;
    }
    proof {
        assert(offsets@.take(i as int) =~= offsets@);
    }
    bb
}

/// For every square, its relevant blocker squares for the four given directions.
pub fn compute_blockers(offsets: [i8; 4]) -> (table: [u64; 64])
    requires
        slider_offsets(offsets@),
    ensures
        forall|sq: int, t: u64|
            0 <= sq < 64 && t < 64 ==> (#[trigger] bit(table@[sq], t) <==> blocker_sq(sq, offsets@, t as int)),
{
    let mut table = [0u64; 64];
    let mut sq: usize = 0;
    while sq < 64
        invariant
            sq <= 64,
            slider_offsets(offsets@),
            forall|s: int, t: u64|
                0 <= s < sq && t < 64 ==> (#[trigger] bit(table@[s], t) <==> blocker_sq(s, offsets@, t as int)),
        decreases 64 - sq,
    {
        table[sq] = blockers_for(Sq64(sq as u8), &offsets);
        sq += 1;
    }
    table
}

} // verus!
