use vstd::prelude::*;

verus! {

/// Whether bit `i` of the bitboard `bb` is set (meaningful for `i < 64`).
pub open spec fn bit(bb: u64, i: u64) -> bool {
    (bb >> i) & 1u64 == 1u64
}

pub proof fn lemma_bit_xor_single(x: u64, s: u64, i: u64)
    requires
        s < 64,
        i < 64,
    ensures
        bit(x ^ (1u64 << s), i) == (if i == s { !bit(x, i) } else { bit(x, i) }),
{
    assert(((x ^ (1u64 << s)) >> i) & 1u64 == 1u64 <==> (if i == s { !((x >> i) & 1u64 == 1u64) } else { (x >> i) & 1u64 == 1u64 })) by (bit_vector)
        requires s < 64, i < 64;
}

proof fn lemma_shift_step(a: u64, b: u64, j: u64, k: u64)
    requires
        j < 64,
        k == j + 1,
        a >> k == b >> k,
        (a >> j) & 1u64 == (b >> j) & 1u64,
    ensures
        a >> j == b >> j,
{
    assert(a >> j == b >> j) by (bit_vector)
        requires
            j < 64,
            k == j + 1,
            a >> k == b >> k,
            (a >> j) & 1u64 == (b >> j) & 1u64;
}

proof fn lemma_bit_ext_from(a: u64, b: u64, k: u64)
    requires
        k <= 64,
        a >> k == b >> k,
        forall|i: u64| i < 64 ==> #[trigger] bit(a, i) == bit(b, i),
    ensures
        a == b,
    decreases k,
{
    if k == 0 {
        assert(a >> 0u64 == a && b >> 0u64 == b) by (bit_vector);
    } else {
        let j = (k - 1) as u64;
        assert(bit(a, j) == bit(b, j));
        assert(((a >> j) & 1u64 == 0u64 || (a >> j) & 1u64 == 1u64) && ((b >> j) & 1u64 == 0u64 || (b >> j) & 1u64 == 1u64)) by (bit_vector);
        lemma_shift_step(a, b, j, k);
        lemma_bit_ext_from(a, b, (k - 1) as u64);
    }
}

/// Two bitboards with the same 64 bits are equal.
pub proof fn lemma_bit_ext(a: u64, b: u64)
    requires
        forall|i: u64| i < 64 ==> #[trigger] bit(a, i) == bit(b, i),
    ensures
        a == b,
{
    assert(a >> 64u64 == 0u64 && b >> 64u64 == 0u64) by (bit_vector);
    lemma_bit_ext_from(a, b, 64);
}

pub proof fn lemma_bit_or_single(x: u64, s: u64, i: u64)
    requires
        s < 64,
        i < 64,
    ensures
        bit(x | (1u64 << s), i) == (bit(x, i) || i == s),
        bit(1u64 << s, i) == (i == s),
{
    assert(((((x | (1u64 << s)) >> i) & 1u64 == 1u64) <==> (((x >> i) & 1u64 == 1u64) || i == s))
        && ((((1u64 << s) >> i) & 1u64 == 1u64) <==> i == s)) by (bit_vector)
        requires
            s < 64,
            i < 64,
    ;
}

pub proof fn lemma_bit_ops(x: u64, y: u64, i: u64)
    requires
        i < 64,
    ensures
        bit(x | y, i) == (bit(x, i) || bit(y, i)),
        bit(x & y, i) == (bit(x, i) && bit(y, i)),
        bit(!x, i) == !bit(x, i),
        bit(x ^ y, i) == (bit(x, i) != bit(y, i)),
        !bit(0u64, i),
        bit(0xFFFF_FFFF_FFFF_FFFFu64, i),
{
    assert(((((x | y) >> i) & 1u64 == 1u64) <==> (((x >> i) & 1u64 == 1u64) || ((y >> i) & 1u64 == 1u64)))
        && ((((x & y) >> i) & 1u64 == 1u64) <==> (((x >> i) & 1u64 == 1u64) && ((y >> i) & 1u64 == 1u64)))
        && ((((!x) >> i) & 1u64 == 1u64) <==> !((x >> i) & 1u64 == 1u64))
        && ((((x ^ y) >> i) & 1u64 == 1u64) <==> (((x >> i) & 1u64 == 1u64) != ((y >> i) & 1u64 == 1u64)))
        && (0u64 >> i) & 1u64 != 1u64
        && (0xFFFF_FFFF_FFFF_FFFFu64 >> i) & 1u64 == 1u64) by (bit_vector)
        requires
            i < 64,
    ;
}

/// `x & mask != 0` exactly when some square is on both.
pub proof fn lemma_and_nonzero(x: u64, y: u64)
    ensures
        (x & y != 0) <==> exists|i: u64| i < 64 && #[trigger] bit(x & y, i),
{
    if x & y != 0 {
        if forall|i: u64| i < 64 ==> !#[trigger] bit(x & y, i) {
            assert forall|i: u64| i < 64 implies #[trigger] bit(x & y, i) == bit(0u64, i) by {
                lemma_bit_ops(x, y, i);
            }
            lemma_bit_ext(x & y, 0u64);
        }
    } else {
        assert forall|i: u64| i < 64 implies !#[trigger] bit(x & y, i) by {
            lemma_bit_ops(x, y, i);
        }
    }
}

/// The lowest set bit of a nonzero bitboard: `trailing_zeros` names it, and clearing
/// it with `x & (x - 1)` keeps every other bit.
pub proof fn lemma_pop_lsb(x: u64)
    requires
        x != 0,
    ensures
        ({
            let tz = vstd::std_specs::bits::u64_trailing_zeros(x) as u64;
            &&& tz < 64
            &&& bit(x, tz)
            &&& forall|j: u64| j < tz ==> !#[trigger] bit(x, j)
            &&& forall|i: u64| i < 64 ==> #[trigger] bit(x & ((x - 1) as u64), i) == (bit(x, i) && i != tz)
            &&& x & ((x - 1) as u64) < x
        }),
{
    vstd::std_specs::bits::axiom_u64_trailing_zeros(x);
    let tz = vstd::std_specs::bits::u64_trailing_zeros(x) as u64;
    assert(x << ((64 - tz) as u64) == 0);
    assert forall|i: u64| i < 64 implies #[trigger] bit(x & ((x - 1) as u64), i) == (bit(x, i) && i != tz) by {
        assert((((x & ((x - 1) as u64)) >> i) & 1u64 == 1u64) == (((x >> i) & 1u64 == 1u64) && i != tz))
            by (bit_vector)
            requires
                x != 0,
                tz < 64,
                (x >> tz) & 1u64 == 1u64,
                x << ((64 - tz) as u64) == 0,
                i < 64;
    }
    assert(x != 0 ==> x & ((x - 1) as u64) < x) by (bit_vector);
}

/// The bitboard of the squares below `n` on which `p` holds.
pub open spec fn mask_of(p: spec_fn(int) -> bool, n: nat) -> u64
    decreases n,
{
    if n == 0 {
        0u64
    } else {
        mask_of(p, (n - 1) as nat) | (if p(n - 1) {
            1u64 << ((n - 1) as u64)
        } else {
            0u64
        })
    }
}

/// Square `i` is on `mask_of(p, n)` exactly when `i < n` and `p` holds of it.
pub proof fn lemma_mask_of(p: spec_fn(int) -> bool, n: nat)
    requires
        n <= 64,
    ensures
        forall|i: u64| i < 64 ==> (#[trigger] bit(mask_of(p, n), i) <==> (i < n && p(i as int))),
    decreases n,
{
    if n == 0 {
        assert forall|i: u64| i < 64 implies (#[trigger] bit(mask_of(p, n), i) <==> (i < n && p(i as int))) by {
            lemma_bit_ops(0u64, 0u64, i);
        }
    } else {
        lemma_mask_of(p, (n - 1) as nat);
        let prev = mask_of(p, (n - 1) as nat);
        let add = if p(n - 1) { 1u64 << ((n - 1) as u64) } else { 0u64 };
        assert forall|i: u64| i < 64 implies (#[trigger] bit(mask_of(p, n), i) <==> (i < n && p(i as int))) by {
            lemma_bit_ops(prev, add, i);
            lemma_bit_or_single(0u64, (n - 1) as u64, i);
            lemma_bit_ops(0u64, 0u64, i);
        }
    }
}

/// The sum of `w` over the squares below `n` set in `bb`.
pub open spec fn bb_sum(bb: u64, w: spec_fn(int) -> int, n: nat) -> int
    decreases n,
{
    if n == 0 {
        0
    } else {
        bb_sum(bb, w, (n - 1) as nat) + if bit(bb, (n - 1) as u64) {
            w(n - 1)
        } else {
            0
        }
    }
}

/// Weight 1 on every square.
pub open spec fn unit_weight() -> spec_fn(int) -> int {
    |i: int| 1int
}

/// The number of squares set in `bb`.
pub open spec fn popcount(bb: u64) -> int {
    bb_sum(bb, unit_weight(), 64)
}

/// Two bitboards with the same squares below `n`, but for square `s` which only `x`
/// has, differ in their sums by the weight of `s`.
proof fn lemma_bb_sum_drop(x: u64, y: u64, s: u64, w: spec_fn(int) -> int, n: nat)
    requires
        n <= 64,
        s < 64,
        bit(x, s),
        forall|i: u64| i < 64 ==> #[trigger] bit(y, i) == (bit(x, i) && i != s),
    ensures
        bb_sum(x, w, n) == bb_sum(y, w, n) + if s < n { w(s as int) } else { 0 },
    decreases n,
{
    if n > 0 {
        lemma_bb_sum_drop(x, y, s, w, (n - 1) as nat);
    }
}

/// Removing the lowest square of a nonzero bitboard takes its weight off the sum.
pub proof fn lemma_bb_sum_pop(x: u64, w: spec_fn(int) -> int)
    requires
        x != 0,
    ensures
        bb_sum(x, w, 64) == bb_sum(x & ((x - 1) as u64), w, 64) + w(vstd::std_specs::bits::u64_trailing_zeros(x) as int),
{
    lemma_pop_lsb(x);
    let tz = vstd::std_specs::bits::u64_trailing_zeros(x) as u64;
    lemma_bb_sum_drop(x, x & ((x - 1) as u64), tz, w, 64);
}

/// The sum over the empty bitboard is 0.
pub proof fn lemma_bb_sum_zero(w: spec_fn(int) -> int, n: nat)
    requires
        n <= 64,
    ensures
        bb_sum(0u64, w, n) == 0,
    decreases n,
{
    if n > 0 {
        lemma_bit_ops(0u64, 0u64, (n - 1) as u64);
        lemma_bb_sum_zero(w, (n - 1) as nat);
    }
}

/// With weights between `lo` and `hi` (`lo <= 0 <= hi`), the sum lies between `lo`
/// and `hi` times the number of squares considered.
pub proof fn lemma_bb_sum_bounds(bb: u64, w: spec_fn(int) -> int, n: nat, lo: int, hi: int)
    requires
        lo <= 0 <= hi,
        forall|i: int| 0 <= i < n ==> lo <= #[trigger] w(i) <= hi,
    ensures
        lo * n <= bb_sum(bb, w, n) <= hi * n,
    decreases n,
{
    if n > 0 {
        lemma_bb_sum_bounds(bb, w, (n - 1) as nat, lo, hi);
        assert(w((n - 1) as int) <= hi);
        assert(hi * n == hi * (n - 1) + hi && lo * n == lo * (n - 1) + lo) by (nonlinear_arith);
    } else {
        assert(lo * n == 0 && hi * n == 0) by (nonlinear_arith)
            requires
                n == 0,
        ;
    }
}

/// The number of squares set in `x`, counted by clearing the lowest one at a time.
pub fn count_ones(x: u64) -> (r: u32)
    ensures
        r == popcount(x),
        r <= 64,
{
    let mut rest = x;
    let mut count: u32 = 0;
    proof {
        assert forall|i: int| 0 <= i < 64 implies 0 <= #[trigger] unit_weight()(i) <= 1 by {}
        lemma_bb_sum_bounds(x, unit_weight(), 64, 0, 1);
    }
    while rest != 0
        invariant
            count + popcount(rest) == popcount(x),
            popcount(x) <= 64,
            forall|i: int| 0 <= i < 64 ==> 0 <= #[trigger] unit_weight()(i) <= 1,
        decreases rest,
    {
        proof {
            lemma_bb_sum_pop(rest, unit_weight());
            lemma_pop_lsb(rest);
            lemma_bb_sum_bounds(rest & ((rest - 1) as u64), unit_weight(), 64, 0, 1);
            assert(unit_weight()(vstd::std_specs::bits::u64_trailing_zeros(rest) as int) == 1);
        }
        rest = rest & (rest - 1);
        count = count + 1;
    }
    proof {
        lemma_bb_sum_zero(unit_weight(), 64);
    }
    count
}

/// Shifting moves squares up (left shift) or down (right shift) by `k`, losing those
/// pushed off the board.
pub proof fn lemma_shift_bits(x: u64, k: u64, t: u64)
    requires
        k < 64,
        t < 64,
    ensures
        bit(x << k, t) == (t >= k && bit(x, (t - k) as u64)),
        bit(x >> k, t) == (t + k < 64 && bit(x, (t + k) as u64)),
{
    assert((((x << k) >> t) & 1u64 == 1u64) == (t >= k && ((x >> ((t - k) as u64)) & 1u64 == 1u64))
        && (((x >> k) >> t) & 1u64 == 1u64) == (t + k < 64 && ((x >> ((t + k) as u64)) & 1u64 == 1u64))) by (bit_vector)
        requires
            k < 64,
            t < 64,
    ;
}

/// Rotates a bitboard right by `n` places: square `i` of the result is square
/// `(i + n) mod 64` of `x`.
pub fn rotate_right(x: u64, n: u32) -> (r: u64)
    ensures
        forall|i: u64| i < 64 ==> #[trigger] bit(r, i) == bit(x, ((i + n) % 64) as u64),
{
    let k = n % 64;
    let r = if k == 0 {
        x
    } else {
        (x >> (k as u64)) | (x << ((64 - k) as u64))
    };
    proof {
        let kk = k as u64;
        assert forall|i: u64| i < 64 implies #[trigger] bit(r, i) == bit(x, ((i + n) % 64) as u64) by {
            assert(((i + n) % 64) as u64 == ((i + kk) % 64) as u64);
            if kk == 0 {
                assert(((i + 0u64) % 64) as u64 == i);
            } else {
                assert((((x >> kk) | (x << ((64 - kk) as u64))) >> i) & 1u64 == (x >> (((i + kk) % 64) as u64)) & 1u64) by (bit_vector)
                    requires 0 < kk < 64, i < 64;
            }
        }
    }
    r
}

/// Rotates a bitboard left by `n` places: square `i` of the result is square
/// `(i - n) mod 64` of `x`.
pub fn rotate_left(x: u64, n: u32) -> (r: u64)
    ensures
        forall|i: u64| i < 64 ==> #[trigger] bit(r, i) == bit(x, ((i + 64 - (n % 64)) % 64) as u64),
{
    let k = n % 64;
    let r = if k == 0 {
        x
    } else {
        (x << (k as u64)) | (x >> ((64 - k) as u64))
    };
    proof {
        let kk = k as u64;
        assert forall|i: u64| i < 64 implies #[trigger] bit(r, i) == bit(x, ((i + 64 - (n % 64)) % 64) as u64) by {
            assert(((i + 64 - (n % 64)) % 64) as u64 == ((i + 64 - kk) % 64) as u64);
            if kk == 0 {
                assert(((i + 64 - 0u64) % 64) as u64 == i);
            } else {
                assert((((x << kk) | (x >> ((64 - kk) as u64))) >> i) & 1u64 == (x >> (((i + 64 - kk) % 64) as u64)) & 1u64) by (bit_vector)
                    requires 0 < kk < 64, i < 64;
            }
        }
    }
    r
}

} // verus!
