use vstd::prelude::*;
use crate::attacks::{compute_sliding_attacks, slider_offsets, slides_to};
use crate::bits::{bit, lemma_bit_ext, lemma_bit_ops, lemma_mask_of};
use crate::magic::slide_mask;

verus! {

/// A xorshift pseudo-random generator of 64-bit numbers.
pub struct Xorshift64(pub u64);

/// One step of the generator: shifts by 13 left, 7 right and 17 left, each xored in.
pub open spec fn xorshift_step(x: u64) -> u64 {
    let a = x ^ (x << 13u64);
    let b = a ^ (a >> 7u64);
    b ^ (b << 17u64)
}

/// The state after `n` steps from `x`.
pub open spec fn xorshift_iter(x: u64, n: nat) -> u64
    decreases n,
{
    if n == 0 {
        x
    } else {
        xorshift_step(xorshift_iter(x, (n - 1) as nat))
    }
}

/// The `k`-th magic candidate drawn from the state `x`: three numbers in a row, anded.
pub open spec fn candidate(x: u64, k: nat) -> u64 {
    xorshift_iter(x, 3 * k + 1) & xorshift_iter(x, 3 * k + 2) & xorshift_iter(x, 3 * k + 3)
}

impl Xorshift64 {
    /// The next number of the generator, which becomes its state.
    pub fn next_u64(&mut self) -> (r: u64)
        ensures
            r == xorshift_step(old(self).0),
            final(self).0 == r,
    {
        let mut x = self.0;
        x ^= x << 13;
        x ^= x >> 7;
        x ^= x << 17;
        self.0 = x;
        x
    }
}

/// The slot a magic number sends a bitboard of blockers to: the top `bits` bits of their
/// wrapping product.
pub open spec fn magic_slot(x: u64, magic: u64, bits: u64) -> u64 {
    u64::wrapping_mul(x, magic) >> ((64 - bits) as u64)
}

/// A magic number for the slider on `sq`: two bitboards of blockers within `mask` that
/// share a slot give the slider the same attacks.
pub open spec fn magic_ok(sq: int, mask: u64, offsets: Seq<i8>, magic: u64, bits: u64) -> bool {
    forall|x: u64, y: u64|
        x & !mask == 0 && y & !mask == 0 && #[trigger] magic_slot(x, magic, bits) == #[trigger] magic_slot(y, magic, bits)
            ==> slide_mask(sq, x, offsets) == slide_mask(sq, y, offsets)
}

/// The slot of the product's top `bits` bits lies below `2^bits`.
proof fn lemma_slot_range(p: u64, bits: u64)
    by (bit_vector)
    requires
        1 <= bits <= 16,
    ensures
        p >> ((64 - bits) as u64) < (1u64 << bits),
        (1u64 << bits) <= 65536,
{
}

/// Every bitboard within `mask`, from `mask` down to 0, with the attacks of the slider
/// on `sq` for it.
fn blocker_subsets(sq: u8, mask: u64, offsets: &[i8; 4]) -> (r: (Vec<u64>, Vec<u64>))
    requires
        sq < 64,
        slider_offsets(offsets@),
    ensures
        r.0@.len() == r.1@.len(),
        forall|i: int| 0 <= i < r.0@.len() ==> #[trigger] r.0@[i] & !mask == 0,
        forall|i: int| 0 <= i < r.0@.len() ==> r.1@[i] == slide_mask(sq as int, #[trigger] r.0@[i], offsets@),
        forall|x: u64| x & !mask == 0 ==> #[trigger] r.0@.contains(x),
{
    let mut subsets: Vec<u64> = Vec::new();
    let mut attacks: Vec<u64> = Vec::new();
    let mut current = mask;
    proof {
        assert(mask & !mask == 0) by {
            assert forall|i: u64| i < 64 implies #[trigger] bit(mask & !mask, i) == bit(0u64, i) by {
                lemma_bit_ops(mask, !mask, i);
                lemma_bit_ops(mask, mask, i);
                lemma_bit_ops(0u64, 0u64, i);
            }
            lemma_bit_ext(mask & !mask, 0u64);
        }
        if mask != 0 {
            crate::magic::lemma_next_subset(mask, mask);
        } else {
            assert forall|y: u64| y & !mask == 0 implies y <= current by {
                assert forall|i: u64| i < 64 implies #[trigger] bit(y, i) == bit(0u64, i) by {
                    lemma_bit_ops(y, !mask, i);
                    lemma_bit_ops(mask, mask, i);
                    lemma_bit_ops(0u64, 0u64, i);
                }
                lemma_bit_ext(y, 0u64);
            }
        }
    }
    loop
        invariant
            sq < 64,
            slider_offsets(offsets@),
            subsets@.len() == attacks@.len(),
            current & !mask == 0,
            forall|i: int| 0 <= i < subsets@.len() ==> #[trigger] subsets@[i] & !mask == 0,
            forall|i: int| 0 <= i < subsets@.len() ==> attacks@[i] == slide_mask(sq as int, #[trigger] subsets@[i], offsets@),
            forall|y: u64| y & !mask == 0 && y > current ==> #[trigger] subsets@.contains(y),
        ensures
            subsets@.len() == attacks@.len(),
            forall|i: int| 0 <= i < subsets@.len() ==> #[trigger] subsets@[i] & !mask == 0,
            forall|i: int| 0 <= i < subsets@.len() ==> attacks@[i] == slide_mask(sq as int, #[trigger] subsets@[i], offsets@),
            forall|y: u64| y & !mask == 0 ==> #[trigger] subsets@.contains(y),
        decreases current,
    {
        let a = compute_sliding_attacks(sq, current, offsets);
        proof {
            lemma_mask_of(|t: int| slides_to(sq as int, current, offsets@, t), 64);
            lemma_bit_ext(a, slide_mask(sq as int, current, offsets@));
        }
        let ghost before = subsets@;
        subsets.push(current);
        attacks.push(a);
        proof {
            assert(subsets@[subsets@.len() - 1] == current);
            assert forall|y: u64| y & !mask == 0 && y >= current implies #[trigger] subsets@.contains(y) by {
                if y > current {
                    assert(before.contains(y));
                    let k = choose|k: int| 0 <= k < before.len() && before[k] == y;
                    assert(subsets@[k] == y);
                }
            }
        }
        if current == 0 {
            break;
        }
        proof {
            crate::magic::lemma_next_subset(current, mask);
        }
        current = current.wrapping_sub(1) & mask;
    }
    (subsets, attacks)
}

/// Whether a candidate magic number sends the bitboards of `subsets` to slots of a
/// table of `2^bits` entries without two of them with different attacks in one slot.
fn candidate_ok(subsets: &Vec<u64>, attacks: &Vec<u64>, candidate: u64, bits: u32) -> (ok: bool)
    requires
        subsets@.len() == attacks@.len(),
        1 <= bits <= 16,
    ensures
        ok == (forall|i: int, j: int|
            0 <= i < subsets@.len() && 0 <= j < subsets@.len() && magic_slot(#[trigger] subsets@[i], candidate, bits as u64)
                == magic_slot(#[trigger] subsets@[j], candidate, bits as u64) ==> attacks@[i] == attacks@[j]),
{
    let size: u64 = 1u64 << (bits as u64);
    let mut used: Vec<Option<u64>> = Vec::new();
    while (used.len() as u64) < size
        invariant
            used@.len() <= size,
            forall|k: int| 0 <= k < used@.len() ==> used@[k] is None,
        decreases size - used@.len(),
    {
        used.push(None);
    }
    let mut i: usize = 0;
    while i < subsets.len()
        invariant
            subsets@.len() == attacks@.len(),
            1 <= bits <= 16,
            size == 1u64 << (bits as u64),
            used@.len() == size,
            i <= subsets@.len(),
            forall|a: int|
                #![trigger subsets@[a]]
                0 <= a < i ==> magic_slot(subsets@[a], candidate, bits as u64) < size && used@[magic_slot(
                    subsets@[a],
                    candidate,
                    bits as u64,
                ) as int] == Some(attacks@[a]),
            forall|k: int|
                0 <= k < used@.len() && used@[k] is Some ==> exists|a: int|
                    0 <= a < i && magic_slot(#[trigger] subsets@[a], candidate, bits as u64) == k && used@[k] == Some(attacks@[a]),
            forall|a: int, b: int|
                0 <= a < i && 0 <= b < i && magic_slot(#[trigger] subsets@[a], candidate, bits as u64) == magic_slot(
                    #[trigger] subsets@[b],
                    candidate,
                    bits as u64,
                ) ==> attacks@[a] == attacks@[b],
        decreases subsets@.len() - i,
    {
        let product = subsets[i].wrapping_mul(candidate);
        let shift: u64 = (64 - bits) as u64;
        proof {
            lemma_slot_range(product, bits as u64);
        }
        let idx = (product >> shift) as usize;
        assert(idx as u64 == magic_slot(subsets@[i as int], candidate, bits as u64));
        match used[idx] {
            None => {
                let ghost u0 = used@;
                used.set(idx, Some(attacks[i]));
                proof {
                    assert forall|k: int|
                        0 <= k < used@.len() && used@[k] is Some implies exists|a: int|
                            0 <= a < i + 1 && magic_slot(#[trigger] subsets@[a], candidate, bits as u64) == k && used@[k] == Some(attacks@[a]) by {
                        if k != idx {
                            assert(u0[k] is Some);
                            let a = choose|a: int|
                                0 <= a < i && magic_slot(#[trigger] subsets@[a], candidate, bits as u64) == k && u0[k] == Some(attacks@[a]);
                            assert(magic_slot(subsets@[a], candidate, bits as u64) == k);
                        } else {
                            assert(magic_slot(subsets@[i as int], candidate, bits as u64) == k);
                        }
                    }
                    assert forall|a: int|
                        #![trigger subsets@[a]]
                        0 <= a < i + 1 implies magic_slot(subsets@[a], candidate, bits as u64) < size && used@[magic_slot(
                        subsets@[a],
                        candidate,
                        bits as u64,
                    ) as int] == Some(attacks@[a]) by {
                        lemma_slot_range(u64::wrapping_mul(subsets@[a], candidate), bits as u64);
                        if a < i && magic_slot(subsets@[a], candidate, bits as u64) == idx {
                            assert(u0[idx as int] == Some(attacks@[a]));
                        }
                    }
                }
            },
            Some(existing) => {
                if existing != attacks[i] {
                    proof {
                        let a = choose|a: int|
                            0 <= a < i && magic_slot(#[trigger] subsets@[a], candidate, bits as u64) == idx && used@[idx as int] == Some(attacks@[a]);
                        assert(magic_slot(subsets@[a], candidate, bits as u64) == magic_slot(subsets@[i as int], candidate, bits as u64));
                        assert(attacks@[a] != attacks@[i as int]);
                    }
                    return false;
                }
                proof {
                    let a0 = choose|a: int|
                        0 <= a < i && magic_slot(#[trigger] subsets@[a], candidate, bits as u64) == idx && used@[idx as int] == Some(attacks@[a]);
                    assert(attacks@[a0] == attacks@[i as int]);
                    assert(magic_slot(subsets@[i as int], candidate, bits as u64) < size);
                    assert(used@[magic_slot(subsets@[i as int], candidate, bits as u64) as int] == Some(attacks@[i as int]));
                }
            },
        }
        i = i + 1;
    }
    true
}

/// Draws magic candidates for the slider on `sq` from `rng`, at most `tries` of them,
/// and returns the first that is a magic number (see `magic_ok`) for the blockers of
/// `sq`, with a table of `2^bits` entries.
pub fn find_magic(sq: u8, rng: &mut Xorshift64, blockers: &[u64; 64], offsets: &[i8; 4], bits: u32, tries: u64) -> (r: Option<u64>)
    requires
        sq < 64,
        slider_offsets(offsets@),
        1 <= bits <= 16,
    ensures
        match r {
            Some(c) => exists|k: nat|
                #![trigger candidate(old(rng).0, k)]
                k < tries && c == candidate(old(rng).0, k) && magic_ok(sq as int, blockers@[sq as int], offsets@, c, bits as u64)
                    && final(rng).0 == xorshift_iter(old(rng).0, 3 * k + 3) && forall|j: nat|
                    j < k ==> !magic_ok(sq as int, blockers@[sq as int], offsets@, #[trigger] candidate(old(rng).0, j), bits as u64),
            None => forall|j: nat|
                j < tries ==> !magic_ok(sq as int, blockers@[sq as int], offsets@, #[trigger] candidate(old(rng).0, j), bits as u64),
        },
{
    let mask = blockers[sq as usize];
    let ghost x0 = rng.0;
    let (subsets, attacks) = blocker_subsets(sq, mask, offsets);
    let ghost ok_spec = |c: u64| magic_ok(sq as int, mask, offsets@, c, bits as u64);
    let mut k: u64 = 0;
    while k < tries
        invariant
            k <= tries,
            sq < 64,
            1 <= bits <= 16,
            mask == blockers@[sq as int],
            rng.0 == xorshift_iter(x0, 3 * k as nat),
            x0 == old(rng).0,
            subsets@.len() == attacks@.len(),
            forall|i: int| 0 <= i < subsets@.len() ==> #[trigger] subsets@[i] & !mask == 0,
            forall|i: int| 0 <= i < subsets@.len() ==> attacks@[i] == slide_mask(sq as int, #[trigger] subsets@[i], offsets@),
            forall|y: u64| y & !mask == 0 ==> #[trigger] subsets@.contains(y),
            forall|j: nat| j < k ==> !magic_ok(sq as int, mask, offsets@, #[trigger] candidate(x0, j), bits as u64),
        decreases tries - k,
    {
        let a = rng.next_u64();
        let b = rng.next_u64();
        let c = rng.next_u64();
        let cand = a & b & c;
        proof {
            let n = 3 * k as nat;
            assert(xorshift_iter(x0, n + 1) == xorshift_step(xorshift_iter(x0, n)));
            assert(xorshift_iter(x0, n + 2) == xorshift_step(xorshift_iter(x0, n + 1)));
            assert(xorshift_iter(x0, n + 3) == xorshift_step(xorshift_iter(x0, n + 2)));
            assert(a == xorshift_iter(x0, n + 1));
            assert(b == xorshift_iter(x0, n + 2));
            assert(c == xorshift_iter(x0, n + 3));
            assert(rng.0 == xorshift_iter(x0, 3 * (k + 1) as nat));
            assert(cand == candidate(x0, k as nat));
        }
        let ok = candidate_ok(&subsets, &attacks, cand, bits);
        proof {
            if ok {
                assert forall|x: u64, y: u64|
                    x & !mask == 0 && y & !mask == 0 && #[trigger] magic_slot(x, cand, bits as u64) == #[trigger] magic_slot(
                        y,
                        cand,
                        bits as u64,
                    ) implies slide_mask(sq as int, x, offsets@) == slide_mask(sq as int, y, offsets@) by {
                    assert(subsets@.contains(x));
                    assert(subsets@.contains(y));
                    let i = choose|i: int| 0 <= i < subsets@.len() && subsets@[i] == x;
                    let j = choose|j: int| 0 <= j < subsets@.len() && subsets@[j] == y;
                    assert(attacks@[i] == attacks@[j]);
                }
            } else {
                let (i, j) = choose|i: int, j: int|
                    0 <= i < subsets@.len() && 0 <= j < subsets@.len() && magic_slot(#[trigger] subsets@[i], cand, bits as u64)
                        == magic_slot(#[trigger] subsets@[j], cand, bits as u64) && attacks@[i] != attacks@[j];
                assert(magic_slot(subsets@[i], cand, bits as u64) == magic_slot(subsets@[j], cand, bits as u64));
                assert(!magic_ok(sq as int, mask, offsets@, cand, bits as u64));
            }
        }
        if ok {
            proof {
                let kn = k as nat;
                assert(magic_ok(sq as int, blockers@[sq as int], offsets@, candidate(x0, kn), bits as u64));
                assert(rng.0 == xorshift_iter(x0, 3 * kn + 3));
                assert(forall|j: nat| j < kn ==> !magic_ok(sq as int, blockers@[sq as int], offsets@, #[trigger] candidate(x0, j), bits as u64));
                assert(kn < tries && cand == candidate(x0, kn));
            }
            return Some(cand);
        }
        k = k + 1;
    }
    None
}

} // verus!
