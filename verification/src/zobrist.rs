use vstd::prelude::*;
use crate::piece::{Color, Piece};

verus! {

/// Index of the first castling-rights key (after the 2 * 6 * 64 piece keys).
pub const CASTLING_BASE: u64 = 768;
/// Index of the first en-passant-file key.
pub const EP_BASE: u64 = 784;
/// Index of the side-to-move key.
pub const SIDE_INDEX: u64 = 792;

/// The SplitMix64 mixing function: a fixed pseudo-random 64-bit value for each index.
pub open spec fn mix64(i: u64) -> u64 {
    let z1 = u64::wrapping_add(i, 0x9E37_79B9_7F4A_7C15u64);
    let z2 = u64::wrapping_mul(z1 ^ (z1 >> 30u64), 0xBF58_476D_1CE4_E5B9u64);
    let z3 = u64::wrapping_mul(z2 ^ (z2 >> 27u64), 0x94D0_49BB_1331_11EBu64);
    z3 ^ (z3 >> 31u64)
}

/// The Zobrist key with index `i`.
pub fn zobrist_key(i: u64) -> (r: u64)
    ensures
        r == mix64(i),
{
    let z1 = i.wrapping_add(0x9E37_79B9_7F4A_7C15u64);
    let z2 = (z1 ^ (z1 >> 30u64)).wrapping_mul(0xBF58_476D_1CE4_E5B9u64);
    let z3 = (z2 ^ (z2 >> 27u64)).wrapping_mul(0x94D0_49BB_1331_11EBu64);
    z3 ^ (z3 >> 31u64)
}

/// Key index of piece `p` of colour `c` standing on square `sq`.
pub open spec fn piece_key_index(c: Color, p: Piece, sq: int) -> u64 {
    (c.spec_index() * 384 + p.spec_index() * 64 + sq) as u64
}

/// Key of piece `p` of colour `c` on square `sq`.
pub open spec fn piece_key(c: Color, p: Piece, sq: int) -> u64 {
    mix64(piece_key_index(c, p, sq))
}

/// Contribution of the content of square `sq` to the position hash (0 for an empty square).
pub open spec fn square_key(cell: Option<(Color, Piece)>, sq: int) -> u64 {
    match cell {
        None => 0,
        Some((c, p)) => piece_key(c, p, sq),
    }
}

/// XOR of the keys of the first `n` squares of a placement.
pub open spec fn hash_upto(cells: Seq<Option<(Color, Piece)>>, n: nat) -> u64
    decreases n,
{
    if n == 0 {
        0
    } else {
        hash_upto(cells, (n - 1) as nat) ^ square_key(cells[n - 1], n - 1)
    }
}

/// The Zobrist hash of a placement of pieces on the 64 squares.
pub open spec fn placement_hash(cells: Seq<Option<(Color, Piece)>>) -> u64 {
    hash_upto(cells, 64)
}

pub proof fn lemma_xor_facts(a: u64, b: u64, c: u64)
    ensures
        (a ^ b) ^ c == a ^ (b ^ c),
        a ^ b == b ^ a,
        a ^ 0 == a,
        a ^ a == 0,
{
    assert((a ^ b) ^ c == a ^ (b ^ c) && a ^ b == b ^ a && a ^ 0 == a && a ^ a == 0) by (bit_vector);
}

/// Changing the content of one square changes the hash by the XOR of the old and
/// new contributions of that square.
pub proof fn lemma_hash_update(cells: Seq<Option<(Color, Piece)>>, s: int, v: Option<(Color, Piece)>, n: nat)
    requires
        0 <= s < cells.len(),
        n <= cells.len(),
    ensures
        hash_upto(cells.update(s, v), n) == (if s < n {
            hash_upto(cells, n) ^ square_key(cells[s], s) ^ square_key(v, s)
        } else {
            hash_upto(cells, n)
        }),
    decreases n,
{
    let cells2 = cells.update(s, v);
    if n == 0 {
    } else {
        lemma_hash_update(cells, s, v, (n - 1) as nat);
        let h = hash_upto(cells, (n - 1) as nat);
        let k_old = square_key(cells[s], s);
        let k_new = square_key(v, s);
        let t = square_key(cells[n - 1], n - 1);
        assert(((h ^ k_old ^ k_new) ^ t) == ((h ^ t) ^ k_old ^ k_new) && (h ^ k_new) == ((h ^ k_old) ^ k_old ^ k_new)) by (bit_vector);
        if s < n - 1 {
            assert(cells2[n - 1] == cells[n - 1]);
        } else if s == n - 1 {
        } else {
        }
    }
}

/// The hash only depends on the first `n` squares.
pub proof fn lemma_hash_prefix(a: Seq<Option<(Color, Piece)>>, b: Seq<Option<(Color, Piece)>>, n: nat)
    requires
        n <= a.len(),
        n <= b.len(),
        forall|i: int| 0 <= i < n ==> a[i] == b[i],
    ensures
        hash_upto(a, n) == hash_upto(b, n),
    decreases n,
{
    if n > 0 {
        lemma_hash_prefix(a, b, (n - 1) as nat);
    }
}

} // verus!
