//! The automaton rule, as seen by the engine: a state count, birth and
//! survival predicates over neighbour counts, and the neighbourhood itself
//! as an explicit list of offset vectors.

use vstd::prelude::*;
use crate::coords::Pos;

verus! {

/// A predicate over neighbour counts, as a membership table: count `n` is
/// accepted when entry `n` of the table is true.
pub struct CountRange {
    pub allowed: Vec<bool>,
}

impl CountRange {
    /// Whether the predicate accepts a neighbour count of `n`.
    pub open spec fn in_range_spec(&self, n: int) -> bool {
        0 <= n < self.allowed@.len() && self.allowed@[n]
    }

    pub fn in_range(&self, n: u8) -> (r: bool)
        ensures
            r == self.in_range_spec(n as int),
    {
        (n as usize) < self.allowed.len() && self.allowed[n as usize]
    }

    /// A table that accepts exactly the counts listed in `counts`.
    pub fn of_counts(counts: &Vec<u8>, table_len: usize) -> (r: CountRange)
        requires
            table_len <= 256,
        ensures
            r.allowed@.len() == table_len,
            forall|n: int|
                0 <= n < table_len ==> (r.in_range_spec(n) <==> counts@.contains(n as u8)),
    {
        let mut allowed: Vec<bool> = Vec::new();
        let mut n: usize = 0;
        while n < table_len
            invariant
                n <= table_len,
                table_len <= 256,
                allowed@.len() == n,
                forall|k: int| 0 <= k < n ==> (allowed@[k] <==> counts@.contains(k as u8)),
            decreases table_len - n,
        {
            let mut hit = false;
            let mut j: usize = 0;
            while j < counts.len()
                invariant
                    j <= counts@.len(),
                    n <= 255,
                    counts@.len() == counts.len(),
                    hit <==> exists|t: int| 0 <= t < j && counts@[t] == n as u8,
                decreases counts@.len() - j,
            {
                if counts[j] == n as u8 {
                    hit = true;
                }
                j += 1;
            }
            allowed.push(hit);
            n += 1;
        }
        CountRange { allowed }
    }
}

/// Whether every component of an offset vector has magnitude at most one:
/// the reach assumed by the chunk border radius.
pub open spec fn offset_small(d: Pos) -> bool {
    &&& -1 <= d.x <= 1
    &&& -1 <= d.y <= 1
    &&& -1 <= d.z <= 1
}

/// The rule configuration consumed by the engine.
pub struct Rule {
    /// Maximum age of a cell; the only age counted by neighbours.
    pub states: u8,
    /// Requested domain edge length.
    pub bounding_size: i32,
    /// Neighbour counts at which a dead cell comes to life.
    pub birth_rule: CountRange,
    /// Neighbour counts at which a mature cell stays mature.
    pub survival_rule: CountRange,
    /// Offset vectors defining the neighbourhood.
    pub neighbour_offsets: Vec<Pos>,
}

impl Rule {
    /// Every neighbour offset stays within one cell of the source on each
    /// axis, so a chunk-interior cell can only reach cells of its own chunk.
    pub open spec fn offsets_ok(&self) -> bool {
        forall|k: int|
            0 <= k < self.neighbour_offsets@.len() ==> offset_small(
                #[trigger] self.neighbour_offsets@[k],
            )
    }

    /// Configuration-time check that the neighbourhood respects the border
    /// radius the propagation phase is built around.
    pub fn check_offsets(&self) -> (r: bool)
        ensures
            r == self.offsets_ok(),
    {
        let mut k: usize = 0;
        while k < self.neighbour_offsets.len()
            invariant
                k <= self.neighbour_offsets@.len(),
                forall|t: int| 0 <= t < k ==> offset_small(#[trigger] self.neighbour_offsets@[t]),
            decreases self.neighbour_offsets@.len() - k,
        {
            let d = self.neighbour_offsets[k];
            if d.x < -1 || d.x > 1 || d.y < -1 || d.y > 1 || d.z < -1 || d.z > 1 {
                return false;
            }
            k += 1;
        }
        true
    }
}

} // verus!
