//! Read-only analyses of a transition table.

use vstd::prelude::*;
use std::collections::HashSet;
use super::{TableModel, TransitionTable};

verus! {

broadcast use vstd::std_specs::hash::group_hash_axioms;

/// The stored row of state `s`, cut to what the transition array holds and
/// to at most 256 entries (one per byte value).
pub open spec fn row_window(m: TableModel, s: int) -> Seq<u32> {
    let start = s * m.class_count;
    let end = if start + m.class_count <= m.transitions.len() {
        start + m.class_count
    } else {
        m.transitions.len() as int
    };
    if start < m.transitions.len() {
        let row = m.transitions.subrange(start, end);
        if row.len() <= 256 {
            row
        } else {
            row.take(256)
        }
    } else {
        Seq::empty()
    }
}

/// `r` splits `w` into maximal runs `(first, last, target)`: the runs cover
/// `w` in order, every entry of a run equals its target, and neighbouring
/// runs have different targets.
pub open spec fn is_run_split(w: Seq<u32>, r: Seq<(u8, u8, u32)>) -> bool {
    &&& r.len() > 0
    &&& r[0].0 == 0
    &&& r.last().1 == w.len() - 1
    &&& forall|i: int| 0 <= i < r.len() ==> (#[trigger] r[i]).0 <= r[i].1
    &&& forall|i: int| 0 <= i < r.len() - 1 ==> (#[trigger] r[i + 1]).0 == r[i].1 + 1
    &&& forall|i: int| 0 <= i < r.len() - 1 ==> (#[trigger] r[i + 1]).2 != r[i].2
    &&& forall|i: int, j: int| 0 <= i < r.len() && r[i].0 <= j <= r[i].1 ==> #[trigger] w[j] == (
    #[trigger] r[i]).2
}

/// The entry of state `s` on class `b`.
pub open spec fn entry(m: TableModel, s: int, b: int) -> u32 {
    m.transitions[s * m.class_count + b]
}

/// The distinct targets stored for state `s` on the classes below `k`.
pub open spec fn targets_upto(m: TableModel, s: int, k: int) -> Set<u32> {
    Set::new(
        |t: u32|
            exists|b: int|
                0 <= b < k && s * m.class_count + b < m.transitions.len() && #[trigger] entry(m, s, b) == t,
    )
}

/// The distinct targets stored in the row of state `s`.
pub open spec fn row_targets(m: TableModel, s: int) -> Set<u32> {
    targets_upto(m, s, m.class_count as int)
}

/// The size estimate of the native code for a table.
pub open spec fn code_size(m: TableModel) -> int {
    256 + 4 * m.transitions.len() + 4 * m.state_count + 4 * m.pattern_lengths.len()
}

/// Splits `w` (non-empty, at most 256 entries) into maximal runs of equal targets.
fn split_runs(w: &[u32], limit: usize) -> (r: Vec<(u8, u8, u32)>)
    requires
        0 < limit <= 256,
        limit <= w@.len(),
    ensures
        is_run_split(w@.take(limit as int), r@),
{
    let ghost v = w@.take(limit as int);
    let mut r: Vec<(u8, u8, u32)> = Vec::new();
    let mut start: usize = 0;
    let mut target = w[0];
    let mut index: usize = 1;
    while index < limit
        invariant
            v == w@.take(limit as int),
            0 < limit <= 256,
            limit <= w@.len(),
            1 <= index <= limit,
            start < index,
            target == v[start as int],
            forall|j: int| start <= j < index ==> #[trigger] v[j] == target,
            r@.len() > 0 ==> r@[0].0 == 0 && r@.last().1 == start - 1 && r@.last().2 != target,
            r@.len() == 0 ==> start == 0,
            forall|i: int| 0 <= i < r@.len() ==> (#[trigger] r@[i]).0 <= r@[i].1,
            forall|i: int| 0 <= i < r@.len() - 1 ==> (#[trigger] r@[i + 1]).0 == r@[i].1 + 1,
            forall|i: int| 0 <= i < r@.len() - 1 ==> (#[trigger] r@[i + 1]).2 != r@[i].2,
            forall|i: int, j: int| 0 <= i < r@.len() && r@[i].0 <= j <= r@[i].1 ==> #[trigger] v[j] == (
            #[trigger] r@[i]).2,
        decreases limit - index,
    {
        if w[index] != target {
            r.push((start as u8, (index - 1) as u8, target));
            start = index;
            target = w[index];
        }
        index += 1;
    }
    r.push((start as u8, (limit - 1) as u8, target));
    r
}

impl TransitionTable {
    /// Collapses each state's byte transitions into maximal ranges of equal
    /// targets. A state whose row lies outside the transition array gets no
    /// ranges.
    pub fn compute_ranges(&self) -> (r: Vec<Vec<(u8, u8, u32)>>)
        ensures
            r@.len() == self@.state_count,
            forall|s: int| 0 <= s < self@.state_count ==> {
                &&& row_window(self@, s).len() == 0 ==> (#[trigger] r@[s])@.len() == 0
                &&& row_window(self@, s).len() > 0 ==> is_run_split(row_window(self@, s), r@[s]@)
            },
    {
        proof { use_type_invariant(&self.shape); }
        let n = self.shape.state_count;
        let cc = self.shape.class_count;
        let len = self.transitions.len();
        let mut ranges: Vec<Vec<(u8, u8, u32)>> = Vec::with_capacity(n);
        let mut state: usize = 0;
        while state < n
            invariant
                n == self@.state_count,
                cc == self@.class_count,
                len == self@.transitions.len(),
                n * cc <= usize::MAX,
                state <= n,
                ranges@.len() == state,
                forall|s: int| 0 <= s < state ==> {
                    &&& row_window(self@, s).len() == 0 ==> (#[trigger] ranges@[s])@.len() == 0
                    &&& row_window(self@, s).len() > 0 ==> is_run_split(row_window(self@, s), ranges@[s]@)
                },
            decreases n - state,
        {
            proof {
                assert(state * cc <= n * cc) by (nonlinear_arith)
                    requires
                        state <= n,
                ;
            }
            let row_start = state * cc;
            let row_end = match row_start.checked_add(cc) {
                Some(e) => if e < len {
                    e
                } else {
                    len
                },
                None => len,
            };
            if row_start >= len {
                ranges.push(Vec::new());
            } else {
                let row = &self.transitions.as_slice()[row_start..row_end];
                let limit = if row.len() < 256 { row.len() } else { 256 };
                proof {
                    let w = self@.transitions.subrange(row_start as int, row_end as int);
                    assert(row@ == w);
                    if w.len() <= 256 {
                        assert(w.take(limit as int) == w);
                    }
                    assert(row_window(self@, state as int) == row@.take(limit as int));
                }
                if limit == 0 {
                    ranges.push(Vec::new());
                } else {
                    ranges.push(split_runs(row, limit));
                }
            }
            state += 1;
        }
        ranges
    }

    /// Estimated native code size in bytes.
    pub fn estimated_code_size(&self) -> (r: usize)
        requires
            code_size(self@) <= usize::MAX,
        ensures
            r == code_size(self@),
    {
        let code: usize = 256;
        let data = self.transitions.len() * 4 + self.shape.state_count * 4 + self.pattern_lengths.len() * 4;
        code + data
    }

    /// Number of distinct transition targets of a state; 0 for a state
    /// outside the table.
    pub fn transition_density(&self, state: usize) -> (r: usize)
        ensures
            state >= self@.state_count ==> r == 0,
            state < self@.state_count ==> r == row_targets(self@, state as int).len(),
    {
        proof { use_type_invariant(&self.shape); }
        let n = self.shape.state_count;
        let cc = self.shape.class_count;
        if state >= n {
            return 0;
        }
        proof {
            assert(state * cc + cc <= n * cc) by (nonlinear_arith)
                requires
                    state < n,
            ;
        }
        let base = state * cc;
        let mut targets: HashSet<u32> = HashSet::new();
        let mut byte: usize = 0;
        while byte < cc
            invariant
                n == self@.state_count,
                cc == self@.class_count,
                state < n,
                base == state * cc,
                base + cc <= usize::MAX,
                byte <= cc,
                targets@ == targets_upto(self@, state as int, byte as int),
            decreases cc - byte,
        {
            let idx = base + byte;
            if idx < self.transitions.len() {
                let t = self.transitions[idx];
                targets.insert(t);
            }
            proof {
                let next = targets_upto(self@, state as int, byte + 1);
                assert forall|t: u32| next.contains(t) implies targets@.contains(t) by {
                    let b = choose|b: int|
                        0 <= b < byte + 1 && state * cc + b < self@.transitions.len() && #[trigger] entry(
                            self@,
                            state as int,
                            b,
                        ) == t;
                    if b < byte {
                        assert(targets_upto(self@, state as int, byte as int).contains(t));
                    }
                }
                assert forall|t: u32| targets@.contains(t) implies next.contains(t) by {
                    if idx < self@.transitions.len() && t == self@.transitions[idx as int] {
                        assert(entry(self@, state as int, byte as int) == t);
                    } else {
                        let b = choose|b: int|
                            0 <= b < byte && state * cc + b < self@.transitions.len() && #[trigger] entry(
                                self@,
                                state as int,
                                b,
                            ) == t;
                        assert(entry(self@, state as int, b) == t);
                    }
                }
                assert(targets@ =~= next);
            }
            byte += 1;
        }
        targets.len()
    }

    /// Whether this DFA is small enough for native compilation: at most 4096
    /// states over 256 byte classes.
    pub fn is_jit_eligible(&self) -> (r: bool)
        ensures
            r == (self@.state_count <= 4096 && self@.class_count == 256),
    {
        self.shape.state_count <= 4096 && self.shape.class_count == 256
    }
}

} // verus!
