use vstd::prelude::*;
use crate::bits::bit;
use crate::attacks::{
    abs, between_spec, clear_before, lemma_div8, lemma_ray_shape, lemma_ray_some_before, lin,
    off_df, off_dr, ray_sq, sign, slide_attack, slider_offset, slides_to, BISHOP_OFFSETS,
    ROOK_OFFSETS, KNIGHT_OFFSETS, KING_OFFSETS, leaps_to, offset_target, shift, pawn_offsets,
    WHITE_PAWN_OFFSETS, BLACK_PAWN_OFFSETS,
};
use crate::piece::Color;

verus! {

/// `a` and `b` are distinct squares on one rank or one file.
pub open spec fn rook_line(a: int, b: int) -> bool {
    a != b && (a / 8 == b / 8 || a % 8 == b % 8)
}

/// `a` and `b` are distinct squares on one diagonal.
pub open spec fn bishop_line(a: int, b: int) -> bool {
    a != b && abs(b / 8 - a / 8) == abs(b % 8 - a % 8)
}

/// No square strictly between `a` and `b` is in `occ`.
pub open spec fn path_clear(occ: u64, a: int, b: int) -> bool {
    forall|u: int| 0 <= u < 64 && #[trigger] between_spec(a, b, u) ==> !bit(occ, u as u64)
}

/// A square strictly between `a` and `b` lies `j` steps from `a` towards `b`, with rank
/// and file moving by the signs of the rank and file differences; `b` lies `dist` steps
/// along.
pub proof fn lemma_between_steps(a: int, b: int, t: int) -> (j: int)
    requires
        0 <= a < 64,
        0 <= b < 64,
        between_spec(a, b, t),
    ensures
        ({
            let dr = b / 8 - a / 8;
            let df = b % 8 - a % 8;
            &&& 1 <= j < dist(a, b)
            &&& 0 <= t < 64
            &&& t / 8 == a / 8 + lin(sign(dr), j)
            &&& t % 8 == a % 8 + lin(sign(df), j)
            &&& b / 8 == a / 8 + lin(sign(dr), dist(a, b))
            &&& b % 8 == a % 8 + lin(sign(df), dist(a, b))
        }),
{
    lemma_sq_decompose(a);
    lemma_sq_decompose(b);
    let dr = b / 8 - a / 8;
    let df = b % 8 - a % 8;
    let n = dist(a, b);
    let j = choose|j: int| 1 <= j < n && t == #[trigger] (8 * (a / 8 + lin(sign(dr), j)) + a % 8 + lin(sign(df), j));
    let r = a / 8 + lin(sign(dr), j);
    let f = a % 8 + lin(sign(df), j);
    assert(0 <= f < 8);
    assert(0 <= r < 8);
    lemma_div8(r, f);
    j
}

/// The square `j` steps from `a` towards `b`, short of `b`, lies between them.
pub proof fn lemma_step_between(a: int, b: int, j: int)
    requires
        0 <= a < 64,
        0 <= b < 64,
        a != b,
        rook_line(a, b) || bishop_line(a, b),
        1 <= j < dist(a, b),
    ensures
        between_spec(a, b, 8 * (a / 8 + lin(sign(b / 8 - a / 8), j)) + a % 8 + lin(sign(b % 8 - a % 8), j)),
{
}

/// `t` lies from `sq` in the direction of the slider offset `off`.
pub open spec fn on_dir(sq: int, off: int, t: int) -> bool {
    let dr = t / 8 - sq / 8;
    let df = t % 8 - sq % 8;
    &&& t != sq
    &&& sign(dr) == off_dr(off)
    &&& sign(df) == off_df(off)
    &&& (dr == 0 || df == 0 || abs(dr) == abs(df))
}

pub open spec fn dist(a: int, b: int) -> int {
    let dr = abs(b / 8 - a / 8);
    let df = abs(b % 8 - a % 8);
    if dr > df {
        dr
    } else {
        df
    }
}

pub proof fn lemma_sq_decompose(s: int)
    requires
        0 <= s < 64,
    ensures
        s == 8 * (s / 8) + s % 8,
        0 <= s / 8 < 8,
        0 <= s % 8 < 8,
{
}

/// Squares along a ray: the ray from `sq` in direction `off` reaches `t` exactly when
/// `t` lies in that direction, after `dist(sq, t)` steps, passing the squares between.
pub proof fn lemma_ray_hits(sq: int, off: int, t: int)
    requires
        0 <= sq < 64,
        0 <= t < 64,
        slider_offset(off),
    ensures
        (exists|n: nat| 1 <= n && #[trigger] ray_sq(sq, off, n) == Some(t)) <==> on_dir(sq, off, t),
        on_dir(sq, off, t) ==> ray_sq(sq, off, dist(sq, t) as nat) == Some(t) && dist(sq, t) >= 1,
        forall|n: nat| 1 <= n && #[trigger] ray_sq(sq, off, n) == Some(t) ==> n == dist(sq, t),
        on_dir(sq, off, t) ==> forall|u: int|
            0 <= u < 64 ==> (#[trigger] between_spec(sq, t, u) <==> exists|j: nat| 1 <= j < dist(sq, t) && #[trigger] ray_sq(sq, off, j) == Some(u)),
{
    let dr = off_dr(off);
    let df = off_df(off);
    let r = sq / 8;
    let f = sq % 8;
    lemma_sq_decompose(sq);
    lemma_sq_decompose(t);
    assert forall|n: nat| 1 <= n && #[trigger] ray_sq(sq, off, n) == Some(t) implies n == dist(sq, t) && on_dir(sq, off, t) by {
        lemma_ray_shape(sq, off, n);
        lemma_div8(r + lin(dr, n as int), f + lin(df, n as int));
    }
    if on_dir(sq, off, t) {
        let n = dist(sq, t);
        lemma_ray_shape(sq, off, n as nat);
        assert(t / 8 - r == lin(dr, n));
        assert(t % 8 - f == lin(df, n));
        assert(ray_sq(sq, off, n as nat) == Some(t));
        assert forall|u: int| 0 <= u < 64 implies (#[trigger] between_spec(sq, t, u) <==> exists|j: nat| 1 <= j < dist(sq, t) && #[trigger] ray_sq(sq, off, j) == Some(u)) by {
            if between_spec(sq, t, u) {
                let k = choose|k: int| 1 <= k < n && u == #[trigger] (8 * (sq / 8 + lin(sign(t / 8 - sq / 8), k)) + sq % 8 + lin(sign(t % 8 - sq % 8), k));
                lemma_ray_shape(sq, off, k as nat);
                assert(ray_sq(sq, off, k as nat) == Some(u));
            }
            if exists|j: nat| 1 <= j < dist(sq, t) && #[trigger] ray_sq(sq, off, j) == Some(u) {
                let j = choose|j: nat| 1 <= j < dist(sq, t) && #[trigger] ray_sq(sq, off, j) == Some(u);
                lemma_ray_shape(sq, off, j);
                assert(u == #[trigger] (8 * (sq / 8 + lin(sign(t / 8 - sq / 8), j as int)) + sq % 8 + lin(sign(t % 8 - sq % 8), j as int)));
            }
        }
    }
}

/// A slider attack along one direction is a square in that direction with nothing in
/// between.
pub proof fn lemma_slide_attack_iff(sq: int, occ: u64, off: int, t: int)
    requires
        0 <= sq < 64,
        0 <= t < 64,
        slider_offset(off),
    ensures
        slide_attack(sq, occ, off, t) <==> (on_dir(sq, off, t) && path_clear(occ, sq, t)),
{
    lemma_ray_hits(sq, off, t);
    if slide_attack(sq, occ, off, t) {
        let n = choose|n: nat| 1 <= n && #[trigger] ray_sq(sq, off, n) == Some(t) && clear_before(sq, off, occ, n);
        assert forall|u: int| 0 <= u < 64 && #[trigger] between_spec(sq, t, u) implies !bit(occ, u as u64) by {
            let j = choose|j: nat| 1 <= j < dist(sq, t) && #[trigger] ray_sq(sq, off, j) == Some(u);
            assert(ray_sq(sq, off, j) is Some && !bit(occ, ray_sq(sq, off, j).unwrap() as u64));
        }
    }
    if on_dir(sq, off, t) && path_clear(occ, sq, t) {
        let n = dist(sq, t) as nat;
        assert forall|j: nat| 1 <= j < n implies (#[trigger] ray_sq(sq, off, j) is Some && !bit(occ, ray_sq(sq, off, j).unwrap() as u64)) by {
            lemma_ray_some_before(sq, off, j, n);
            lemma_ray_shape(sq, off, j);
            let u = ray_sq(sq, off, j).unwrap();
            assert(between_spec(sq, t, u));
        }
        assert(ray_sq(sq, off, n) == Some(t));
    }
}

/// Rook attacks: a square on the same rank or file with nothing in between.
pub proof fn lemma_rook_slides(sq: int, occ: u64, t: int)
    requires
        0 <= sq < 64,
        0 <= t < 64,
    ensures
        slides_to(sq, occ, ROOK_OFFSETS@, t) <==> (rook_line(sq, t) && path_clear(occ, sq, t)),
{
    lemma_sq_decompose(sq);
    lemma_sq_decompose(t);
    assert forall|k: int| 0 <= k < 4 implies slider_offset(#[trigger] ROOK_OFFSETS@[k] as int) by {}
    assert forall|k: int| 0 <= k < 4 implies (#[trigger] slide_attack(sq, occ, ROOK_OFFSETS@[k] as int, t) <==> (on_dir(sq, ROOK_OFFSETS@[k] as int, t) && path_clear(occ, sq, t))) by {
        lemma_slide_attack_iff(sq, occ, ROOK_OFFSETS@[k] as int, t);
    }
    if rook_line(sq, t) && path_clear(occ, sq, t) {
        let dr = t / 8 - sq / 8;
        let df = t % 8 - sq % 8;
        let k: int = if dr == 0 {
            if df > 0 { 0 } else { 1 }
        } else {
            if dr > 0 { 2 } else { 3 }
        };
        assert(slide_attack(sq, occ, ROOK_OFFSETS@[k] as int, t));
    }
}

/// Bishop attacks: a square on the same diagonal with nothing in between.
pub proof fn lemma_bishop_slides(sq: int, occ: u64, t: int)
    requires
        0 <= sq < 64,
        0 <= t < 64,
    ensures
        slides_to(sq, occ, BISHOP_OFFSETS@, t) <==> (bishop_line(sq, t) && path_clear(occ, sq, t)),
{
    lemma_sq_decompose(sq);
    lemma_sq_decompose(t);
    assert forall|k: int| 0 <= k < 4 implies slider_offset(#[trigger] BISHOP_OFFSETS@[k] as int) by {}
    assert forall|k: int| 0 <= k < 4 implies (#[trigger] slide_attack(sq, occ, BISHOP_OFFSETS@[k] as int, t) <==> (on_dir(sq, BISHOP_OFFSETS@[k] as int, t) && path_clear(occ, sq, t))) by {
        lemma_slide_attack_iff(sq, occ, BISHOP_OFFSETS@[k] as int, t);
    }
    if bishop_line(sq, t) && path_clear(occ, sq, t) {
        let dr = t / 8 - sq / 8;
        let df = t % 8 - sq % 8;
        let k: int = if dr > 0 {
            if df < 0 { 0 } else { 1 }
        } else {
            if df > 0 { 2 } else { 3 }
        };
        assert(slide_attack(sq, occ, BISHOP_OFFSETS@[k] as int, t));
    }
}

/// A knight on `a` attacks `b`.
pub open spec fn knight_rel(a: int, b: int) -> bool {
    let dr = abs(b / 8 - a / 8);
    let df = abs(b % 8 - a % 8);
    (dr == 1 && df == 2) || (dr == 2 && df == 1)
}

/// A king on `a` attacks `b`.
pub open spec fn king_rel(a: int, b: int) -> bool {
    a != b && abs(b / 8 - a / 8) <= 1 && abs(b % 8 - a % 8) <= 1
}

/// The rank direction in which pawns of colour `c` move.
pub open spec fn pawn_dir(c: Color) -> int {
    match c {
        Color::White => 1,
        Color::Black => -1,
    }
}

/// A pawn of colour `c` on `a` attacks `b`.
pub open spec fn pawn_rel(c: Color, a: int, b: int) -> bool {
    b / 8 - a / 8 == pawn_dir(c) && abs(b % 8 - a % 8) == 1
}

proof fn lemma_offset_target_at(a: int, off: int, b: int)
    requires
        0 <= a < 64,
        0 <= b < 64,
    ensures
        offset_target(a, off) == Some(b) <==> (b / 8 - a / 8 == crate::attacks::off_dr(off) && b % 8 - a % 8
            == crate::attacks::off_df(off)),
{
    lemma_sq_decompose(a);
    lemma_sq_decompose(b);
    let r = a / 8 + crate::attacks::off_dr(off);
    let f = a % 8 + crate::attacks::off_df(off);
    if 0 <= r < 8 && 0 <= f < 8 {
        lemma_div8(r, f);
    }
}

pub proof fn lemma_knight_rel(a: int, b: int)
    requires
        0 <= a < 64,
        0 <= b < 64,
    ensures
        leaps_to(a, KNIGHT_OFFSETS@, b) <==> knight_rel(a, b),
        knight_rel(a, b) == knight_rel(b, a),
{
    assert forall|k: int| 0 <= k < 8 implies (#[trigger] offset_target(a, KNIGHT_OFFSETS@[k] as int) == Some(b) <==> (b / 8 - a / 8 == crate::attacks::off_dr(KNIGHT_OFFSETS@[k] as int) && b % 8 - a % 8 == crate::attacks::off_df(KNIGHT_OFFSETS@[k] as int))) by {
        lemma_offset_target_at(a, KNIGHT_OFFSETS@[k] as int, b);
    }
    if knight_rel(a, b) {
        let dr = b / 8 - a / 8;
        let df = b % 8 - a % 8;
        let k: int = if dr == 2 && df == -1 { 0 } else if dr == 2 && df == 1 { 1 } else if dr == 1 && df == 2 { 2 } else if dr == 1 && df == -2 { 3 } else if dr == -2 && df == 1 { 4 } else if dr == -2 && df == -1 { 5 } else if dr == -1 && df == -2 { 6 } else { 7 };
        assert(offset_target(a, KNIGHT_OFFSETS@[k] as int) == Some(b));
    }
}

pub proof fn lemma_king_rel(a: int, b: int)
    requires
        0 <= a < 64,
        0 <= b < 64,
    ensures
        leaps_to(a, KING_OFFSETS@, b) <==> king_rel(a, b),
        king_rel(a, b) == king_rel(b, a),
{
    lemma_sq_decompose(a);
    lemma_sq_decompose(b);
    assert forall|k: int| 0 <= k < 8 implies (#[trigger] offset_target(a, KING_OFFSETS@[k] as int) == Some(b) <==> (b / 8 - a / 8 == crate::attacks::off_dr(KING_OFFSETS@[k] as int) && b % 8 - a % 8 == crate::attacks::off_df(KING_OFFSETS@[k] as int))) by {
        lemma_offset_target_at(a, KING_OFFSETS@[k] as int, b);
    }
    if king_rel(a, b) {
        let dr = b / 8 - a / 8;
        let df = b % 8 - a % 8;
        let k: int = if dr == 0 && df == 1 { 0 } else if dr == 0 && df == -1 { 1 } else if dr == 1 && df == 0 { 2 } else if dr == -1 && df == 0 { 3 } else if dr == 1 && df == -1 { 4 } else if dr == 1 && df == 1 { 5 } else if dr == -1 && df == 1 { 6 } else { 7 };
        assert(offset_target(a, KING_OFFSETS@[k] as int) == Some(b));
    }
}

pub proof fn lemma_pawn_rel(c: Color, a: int, b: int)
    requires
        0 <= a < 64,
        0 <= b < 64,
    ensures
        leaps_to(a, pawn_offsets(c), b) <==> pawn_rel(c, a, b),
        pawn_rel(c, a, b) == pawn_rel(c.opposite(), b, a),
{
    lemma_sq_decompose(a);
    lemma_sq_decompose(b);
    let offs = pawn_offsets(c);
    assert forall|k: int| 0 <= k < 2 implies (#[trigger] offset_target(a, offs[k] as int) == Some(b) <==> (b / 8 - a / 8 == crate::attacks::off_dr(offs[k] as int) && b % 8 - a % 8 == crate::attacks::off_df(offs[k] as int))) by {
        lemma_offset_target_at(a, offs[k] as int, b);
    }
    if pawn_rel(c, a, b) {
        let df = b % 8 - a % 8;
        let k: int = match c {
            Color::White => if df == -1 { 0 } else { 1 },
            Color::Black => if df == 1 { 0 } else { 1 },
        };
        assert(offset_target(a, offs[k] as int) == Some(b));
    }
}

/// The squares between two squares do not depend on the order of the two.
pub proof fn lemma_between_symmetric(a: int, b: int, u: int)
    requires
        0 <= a < 64,
        0 <= b < 64,
    ensures
        between_spec(a, b, u) == between_spec(b, a, u),
{
    lemma_sq_decompose(a);
    lemma_sq_decompose(b);
    let dr = b / 8 - a / 8;
    let df = b % 8 - a % 8;
    let n = if abs(dr) > abs(df) { abs(dr) } else { abs(df) };
    if between_spec(a, b, u) {
        let k = choose|k: int| 1 <= k < n && u == #[trigger] (8 * (a / 8 + lin(sign(dr), k)) + a % 8 + lin(sign(df), k));
        let k2 = n - k;
        assert(u == #[trigger] (8 * (b / 8 + lin(sign(-dr), k2)) + b % 8 + lin(sign(-df), k2)));
    }
    if between_spec(b, a, u) {
        let k = choose|k: int| 1 <= k < n && u == #[trigger] (8 * (b / 8 + lin(sign(-dr), k)) + b % 8 + lin(sign(-df), k));
        let k2 = n - k;
        assert(u == #[trigger] (8 * (a / 8 + lin(sign(dr), k2)) + a % 8 + lin(sign(df), k2)));
    }
}

} // verus!
