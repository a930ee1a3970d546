use vstd::prelude::*;
use crate::moves::Move;

verus! {

/// The number of hash bits that index the table.
pub const TT_BITS: u64 = 20;

/// The number of table slots, 2 to the power `TT_BITS`.
pub const TT_SIZE: usize = 1048576;

/// Scores beyond this size are mate scores.
pub const MATE_THRESHOLD: i32 = 1_000_000_000;

/// The score of being mated now; mates further away score less by their distance.
pub const MATE_SCORE: i32 = 1_000_001_000;

/// What a stored score says of the true value: exactly it, at most it, or at least it.
#[derive(Clone, Copy, PartialEq, Eq, Debug, Structural)]
pub enum Bound {
    Exact,
    Upper,
    Lower,
}

/// A search result kept for a position.
#[derive(Clone, Copy, Debug)]
pub struct TranspositionEntry {
    pub best_move: Option<Move>,
    pub depth: u8,
    pub score: i32,
    pub hash: u64,
    pub node_type: Bound,
}

/// The score as stored: mate scores are counted from the stored position rather than
/// from the root, by adding the distance `ply` (subtracting it for being mated), in
/// wrapping 32-bit arithmetic.
pub open spec fn score_to_tt(score: i32, ply: i32) -> i32 {
    if score > MATE_THRESHOLD {
        vstd::wrapping::i32_specs::wrapping_add(score, ply)
    } else if score < -MATE_THRESHOLD {
        vstd::wrapping::i32_specs::wrapping_sub(score, ply)
    } else {
        score
    }
}

/// The stored score seen from distance `ply` from the root.
pub open spec fn score_from_tt(score: int, ply: int) -> int {
    if score > MATE_THRESHOLD {
        score - ply
    } else if score < -MATE_THRESHOLD {
        score + ply
    } else {
        score
    }
}

impl TranspositionEntry {
    /// An entry for a position at distance `ply` from the root (see `score_to_tt`).
    pub fn new(best_move: Option<Move>, depth: u8, score: i32, hash: u64, node_type: Bound, ply: u8) -> (e: TranspositionEntry)
        ensures
            e.best_move == best_move,
            e.depth == depth,
            e.score == score_to_tt(score, ply as i32),
            e.hash == hash,
            e.node_type == node_type,
    {
        let stored = if score > MATE_THRESHOLD {
            score.wrapping_add(ply as i32)
        } else if score < -MATE_THRESHOLD {
            score.wrapping_sub(ply as i32)
        } else {
            score
        };
        TranspositionEntry { best_move, depth, score: stored, hash, node_type }
    }

    /// The stored score seen from distance `ply` from the root.
    pub fn get_score(&self, ply: u8) -> (r: i32)
        ensures
            r == score_from_tt(self.score as int, ply as int),
            ply >= 1 ==> r > i32::MIN,
    {
        if self.score > MATE_THRESHOLD {
            self.score - ply as i32
        } else if self.score < -MATE_THRESHOLD {
            self.score + ply as i32
        } else {
            self.score
        }
    }

    /// Whether the stored score settles a search with window `alpha`..`beta` at
    /// distance `ply`: an exact score always, a lower bound at or above `beta`, an
    /// upper bound at or below `alpha`.
    pub fn is_valid(&self, alpha: i32, beta: i32, ply: u8) -> (r: bool)
        ensures
            r == match self.node_type {
                Bound::Exact => true,
                Bound::Lower => score_from_tt(self.score as int, ply as int) >= beta,
                Bound::Upper => score_from_tt(self.score as int, ply as int) <= alpha,
            },
    {
        let score = self.get_score(ply);
        match self.node_type {
            Bound::Exact => true,
            Bound::Lower => score >= beta,
            Bound::Upper => score <= alpha,
        }
    }
}

/// The slot of a hash: its top `TT_BITS` bits.
pub open spec fn slot(hash: u64) -> int {
    (hash >> 44u64) as int
}

/// Every hash has a slot of the table.
pub proof fn lemma_slot_bound(hash: u64)
    ensures
        0 <= slot(hash) < TT_SIZE,
{
    assert(hash >> 44u64 < 1048576) by (bit_vector);
}

/// A hash table of search results, one per slot, the newest kept.
pub struct TranspositionTable {
    pub table: Vec<Option<TranspositionEntry>>,
}

impl Default for TranspositionTable {
    /// An empty table (see `new`).
    fn default() -> (t: TranspositionTable)
        ensures
            t.wf(),
            forall|i: int| 0 <= i < TT_SIZE ==> t.table@[i] is None,
    {
        TranspositionTable::new()
    }
}

impl TranspositionTable {
    /// The table has its full number of slots.
    pub open spec fn wf(&self) -> bool {
        self.table@.len() == TT_SIZE
    }

    /// The entry stored for `hash`, if the slot holds one for that very hash.
    pub open spec fn lookup(&self, hash: u64) -> Option<TranspositionEntry> {
        match self.table@[slot(hash)] {
            Some(e) => if e.hash == hash {
                Some(e)
            } else {
                None
            },
            None => None,
        }
    }

    /// An empty table.
    pub fn new() -> (t: TranspositionTable)
        ensures
            t.wf(),
            forall|i: int| 0 <= i < TT_SIZE ==> t.table@[i] is None,
    {
        let mut table: Vec<Option<TranspositionEntry>> = Vec::new();
        while table.len() < TT_SIZE
            invariant
                table@.len() <= TT_SIZE,
                forall|i: int| 0 <= i < table@.len() ==> table@[i] is None,
            decreases TT_SIZE - table@.len(),
        {
            table.push(None);
        }
        TranspositionTable { table }
    }

    /// The entry stored for `hash`, if any (see `lookup`).
    pub fn get_entry(&self, hash: u64) -> (r: Option<TranspositionEntry>)
        requires
            self.wf(),
        ensures
            r == self.lookup(hash),
    {
        proof {
            lemma_slot_bound(hash);
        }
        let entry = self.table[(hash >> 44) as usize];
        match entry {
            Some(e) => if e.hash == hash {
                Some(e)
            } else {
                None
            },
            None => None,
        }
    }

    /// Stores `entry` in the slot of its hash, replacing what was there.
    pub fn insert(&mut self, entry: TranspositionEntry)
        requires
            old(self).wf(),
        ensures
            final(self).wf(),
            final(self).table@ == old(self).table@.update(slot(entry.hash), Some(entry)),
    {
        proof {
            lemma_slot_bound(entry.hash);
        }
        let idx = (entry.hash >> 44) as usize;
        self.table.set(idx, Some(entry));
    }
}

/// Law: after storing an entry, looking up its hash gives it back, and looking up a hash
/// of another slot gives what it gave before.
pub proof fn law_tt_store_then_lookup(before: TranspositionTable, after: TranspositionTable, entry: TranspositionEntry, other: u64)
    requires
        before.wf(),
        after.table@ == before.table@.update(slot(entry.hash), Some(entry)),
    ensures
        after.lookup(entry.hash) == Some(entry),
        slot(other) != slot(entry.hash) ==> after.lookup(other) == before.lookup(other),
{
    lemma_slot_bound(entry.hash);
    lemma_slot_bound(other);
}

/// A score stored for a position at distance `ply` from the root reads back unchanged at
/// that distance, whenever moving it by `ply` stays within 32 bits.
pub proof fn law_tt_score_roundtrip(score: i32, ply: u8)
    requires
        i32::MIN <= score - ply,
        score + ply <= i32::MAX,
    ensures
        score_from_tt(score_to_tt(score, ply as i32) as int, ply as int) == score,
{
}

} // verus!
