use vstd::prelude::*;
use vstd::arithmetic::power2::{lemma2_to64, lemma_pow2_pos, lemma_pow2_unfold, pow2};
use crate::attacks::{compute_sliding_attacks, slider_offsets, slides_to};
use crate::bits::{bb_sum, bit, lemma_bit_ext, lemma_bit_ops, lemma_mask_of, mask_of, popcount, unit_weight};

verus! {

/// The bits of `x` on the squares of `mask` below `n`, packed together from bit 0 up
/// (what the parallel bit extract instruction computes, for `n` = 64).
pub open spec fn pext_upto(x: u64, mask: u64, n: nat) -> int
    decreases n,
{
    if n == 0 {
        0
    } else {
        pext_upto(x, mask, (n - 1) as nat) + if bit(mask, (n - 1) as u64) && bit(x, (n - 1) as u64) {
            pow2(bb_sum(mask, unit_weight(), (n - 1) as nat) as nat) as int
        } else {
            0
        }
    }
}

/// The bits of `x` on the squares of `mask`, packed together from bit 0 up.
pub open spec fn pext(x: u64, mask: u64) -> int {
    pext_upto(x, mask, 64)
}

/// The squares a slider on `sq` with the given directions reaches when the pieces
/// stand on `occ` (see `slides_to`).
pub open spec fn slide_mask(sq: int, occ: u64, offsets: Seq<i8>) -> u64 {
    mask_of(|t: int| slides_to(sq, occ, offsets, t), 64)
}

/// The packed bits number fewer than `2^k`, `k` the squares of `mask` below `n`.
proof fn lemma_pext_bound(x: u64, mask: u64, n: nat)
    requires
        n <= 64,
    ensures
        0 <= bb_sum(mask, unit_weight(), n) <= n,
        0 <= pext_upto(x, mask, n) < pow2(bb_sum(mask, unit_weight(), n) as nat),
    decreases n,
{
    if n == 0 {
        lemma2_to64();
    } else {
        lemma_pext_bound(x, mask, (n - 1) as nat);
        let p = bb_sum(mask, unit_weight(), (n - 1) as nat) as nat;
        lemma_pow2_pos(p);
        lemma_pow2_unfold(p + 1);
    }
}

/// Equal packed bits come from equal bits on the squares of `mask`.
proof fn lemma_pext_bits(x: u64, y: u64, mask: u64, n: nat)
    requires
        n <= 64,
        pext_upto(x, mask, n) == pext_upto(y, mask, n),
    ensures
        forall|i: u64| i < n && bit(mask, i) ==> #[trigger] bit(x, i) == bit(y, i),
    decreases n,
{
    if n > 0 {
        lemma_pext_bound(x, mask, (n - 1) as nat);
        lemma_pext_bound(y, mask, (n - 1) as nat);
        lemma_pext_bits(x, y, mask, (n - 1) as nat);
    }
}

/// Packing the bits of two bitboards within `mask` gives equal values only for equal
/// bitboards.
pub proof fn lemma_pext_injective(x: u64, y: u64, mask: u64)
    requires
        x & !mask == 0,
        y & !mask == 0,
        pext(x, mask) == pext(y, mask),
    ensures
        x == y,
{
    lemma_pext_bits(x, y, mask, 64);
    assert forall|i: u64| i < 64 implies #[trigger] bit(x, i) == bit(y, i) by {
        lemma_bit_ops(x, !mask, i);
        lemma_bit_ops(y, !mask, i);
        lemma_bit_ops(mask, mask, i);
        lemma_bit_ops(0u64, 0u64, i);
    }
    lemma_bit_ext(x, y);
}

/// The packed bits of the empty bitboard are 0.
proof fn lemma_pext_zero(mask: u64, n: nat)
    requires
        n <= 64,
    ensures
        pext_upto(0u64, mask, n) == 0,
    decreases n,
{
    if n > 0 {
        lemma_pext_zero(mask, (n - 1) as nat);
        lemma_bit_ops(0u64, 0u64, (n - 1) as u64);
    }
}

/// The next smaller bitboard within `mask` after `c` is `(c - 1) & mask`; no bitboard
/// within `mask` lies between them, and none lies above `mask`.
pub proof fn lemma_next_subset(c: u64, mask: u64)
    by (bit_vector)
    requires
        c != 0,
        c & !mask == 0,
    ensures
        ((c - 1) as u64 & mask) < c,
        ((c - 1) as u64 & mask) & !mask == 0,
        forall|y: u64| (y & !mask == 0 && y < c) ==> y <= ((c - 1) as u64 & mask),
        forall|y: u64| y & !mask == 0 ==> y <= mask,
{
}

/// The bits of `bb` on the squares of `mask`, packed together from bit 0 up.
pub fn pext_index(bb: u64, mask: u64) -> (r: u128)
    ensures
        r == pext(bb, mask),
        r < pow2(popcount(mask) as nat),
{
    let mut result: u128 = 0;
    let mut place: u128 = 1;
    let mut k: u32 = 0;
    let mut i: u64 = 0;
    proof {
        lemma2_to64();
    }
    while i < 64
        invariant
            i <= 64,
            k <= i,
            k == bb_sum(mask, unit_weight(), i as nat),
            place == pow2(k as nat),
            place <= pow2(i as nat),
            result == pext_upto(bb, mask, i as nat),
            result < place,
            pow2(64) == 0x1_0000_0000_0000_0000,
        decreases 64 - i,
    {
        proof {
            lemma_pow2_pos(i as nat);
            lemma_pow2_unfold((i + 1) as nat);
            lemma_pow2_unfold((k + 1) as nat);
            if i < 64 {
                assert(pow2(i as nat) <= pow2(64)) by {
                    lemma_pow2_mono(i as nat, 64);
                }
            }
        }
        if (mask >> i) & 1 == 1 {
            if (bb >> i) & 1 == 1 {
                result = result + place;
            }
            place = place * 2;
            k = k + 1;
        }
        i = i + 1;
    }
    result
}

/// Powers of two grow with the exponent.
proof fn lemma_pow2_mono(a: nat, b: nat)
    requires
        a <= b,
    ensures
        pow2(a) <= pow2(b),
    decreases b - a,
{
    if a < b {
        lemma_pow2_mono(a, (b - 1) as nat);
        lemma_pow2_unfold(b);
        lemma_pow2_pos((b - 1) as nat);
    }
}

/// The attack table of the slider on `sq`: for every bitboard of blockers within
/// `blockers[sq]`, the squares the slider reaches, at the index of the packed blocker
/// bits.
fn compute_magic_square(sq: u8, offsets: [i8; 4], blockers: &[u64; 64], size: usize) -> (table: Vec<u64>)
    requires
        sq < 64,
        slider_offsets(offsets@),
        pow2(popcount(blockers@[sq as int]) as nat) <= size,
    ensures
        table@.len() == size,
        forall|x: u64|
            x & !blockers@[sq as int] == 0 ==> table@[pext(x, blockers@[sq as int])] == #[trigger] slide_mask(
                sq as int,
                x,
                offsets@,
            ),
{
    let bb = blockers[sq as usize];
    let mut table: Vec<u64> = Vec::new();
    while table.len() < size
        invariant
            table@.len() <= size,
        decreases size - table@.len(),
    {
        table.push(0);
    }
    let mut current_mask = bb;
    proof {
        assert(bb & !bb == 0) by {
            assert forall|i: u64| i < 64 implies #[trigger] bit(bb & !bb, i) == bit(0u64, i) by {
                lemma_bit_ops(bb, !bb, i);
                lemma_bit_ops(bb, bb, i);
                lemma_bit_ops(0u64, 0u64, i);
            }
            lemma_bit_ext(bb & !bb, 0u64);
        }
        if bb != 0 {
            lemma_next_subset(bb, bb);
        } else {
            assert forall|y: u64| y & !bb == 0 implies y <= current_mask by {
                assert forall|i: u64| i < 64 implies #[trigger] bit(y, i) == bit(0u64, i) by {
                    lemma_bit_ops(y, !bb, i);
                    lemma_bit_ops(bb, bb, i);
                    lemma_bit_ops(0u64, 0u64, i);
                }
                lemma_bit_ext(y, 0u64);
            }
        }
    }
    while current_mask != 0
        invariant
            sq < 64,
            slider_offsets(offsets@),
            bb == blockers@[sq as int],
            pow2(popcount(bb) as nat) <= size,
            table@.len() == size,
            current_mask & !bb == 0,
            bb != 0 ==> forall|y: u64| y & !bb == 0 ==> y <= bb,
            forall|y: u64|
                y & !bb == 0 && y > current_mask ==> table@[pext(y, bb)] == #[trigger] slide_mask(sq as int, y, offsets@),
        decreases current_mask,
    {
        let idx = pext_index(current_mask, bb);
        let attacks = compute_sliding_attacks(sq, current_mask, &offsets);
        proof {
            lemma_mask_of(|t: int| slides_to(sq as int, current_mask, offsets@, t), 64);
            lemma_bit_ext(attacks, slide_mask(sq as int, current_mask, offsets@));
        }
        let ghost before = table@;
        table.set(idx as usize, attacks);
        proof {
            lemma_next_subset(current_mask, bb);
            let next = (current_mask - 1) as u64 & bb;
            assert forall|y: u64|
                y & !bb == 0 && y > next implies table@[pext(y, bb)] == #[trigger] slide_mask(sq as int, y, offsets@) by {
                lemma_pext_bound(y, bb, 64);
                if y != current_mask {
                    assert(y > current_mask);
                    if pext(y, bb) == pext(current_mask, bb) {
                        lemma_pext_injective(y, current_mask, bb);
                    }
                    assert(table@[pext(y, bb)] == before[pext(y, bb)]);
                }
            }
        }
        current_mask = current_mask.wrapping_sub(1) & bb;
    }
    let empty_attacks = compute_sliding_attacks(sq, 0u64, &offsets);
    proof {
        lemma_mask_of(|t: int| slides_to(sq as int, 0u64, offsets@, t), 64);
        lemma_bit_ext(empty_attacks, slide_mask(sq as int, 0u64, offsets@));
        lemma_pext_zero(bb, 64);
        lemma2_to64();
        lemma_pow2_pos(popcount(bb) as nat);
    }
    let ghost before = table@;
    table.set(0, empty_attacks);
    proof {
        assert forall|y: u64| y & !bb == 0 implies table@[pext(y, bb)] == #[trigger] slide_mask(sq as int, y, offsets@) by {
            lemma_pext_bound(y, bb, 64);
            if y != 0 {
                if pext(y, bb) == 0 {
                    lemma_pext_injective(y, 0u64, bb);
                }
                assert(table@[pext(y, bb)] == before[pext(y, bb)]);
            }
        }
    }
    table
}

/// The attack tables of a slider on every square (see `compute_magic_square`): row `sq`
/// holds, at the packed bits of each bitboard of blockers within `blockers[sq]`, the
/// squares the slider reaches; each row has `size` entries.
pub fn compute_magic(offsets: [i8; 4], blockers: &[u64; 64], size: usize) -> (table: Vec<Vec<u64>>)
    requires
        slider_offsets(offsets@),
        forall|s: int| 0 <= s < 64 ==> pow2(popcount(#[trigger] blockers@[s]) as nat) <= size,
    ensures
        table@.len() == 64,
        forall|s: int| 0 <= s < 64 ==> (#[trigger] table@[s])@.len() == size,
        forall|s: int, x: u64|
            0 <= s < 64 && x & !blockers@[s] == 0 ==> (#[trigger] table@[s])@[pext(x, blockers@[s])] == #[trigger] slide_mask(
                s,
                x,
                offsets@,
            ),
{
    let mut table: Vec<Vec<u64>> = Vec::new();
    let mut sq: u8 = 0;
    while sq < 64
        invariant
            sq <= 64,
            table@.len() == sq,
            slider_offsets(offsets@),
            forall|s: int| 0 <= s < 64 ==> pow2(popcount(#[trigger] blockers@[s]) as nat) <= size,
            forall|s: int| 0 <= s < sq ==> (#[trigger] table@[s])@.len() == size,
            forall|s: int, x: u64|
                0 <= s < sq && x & !blockers@[s] == 0 ==> (#[trigger] table@[s])@[pext(x, blockers@[s])] == #[trigger] slide_mask(
                    s,
                    x,
                    offsets@,
                ),
        decreases 64 - sq,
    {
        let row = compute_magic_square(sq, offsets, blockers, size);
        table.push(row);
        proof {
            assert forall|s: int, x: u64|
                0 <= s < sq + 1 && x & !blockers@[s] == 0 implies (#[trigger] table@[s])@[pext(x, blockers@[s])] == #[trigger] slide_mask(
                s,
                x,
                offsets@,
            ) by {
                if s == sq {
                    assert(table@[s] == row);
                }
            }
        }
        sq = sq + 1;
    }
    table
}

} // verus!
