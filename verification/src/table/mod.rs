//! The DFA transition table and its construction and access methods.

use vstd::prelude::*;
use crate::error::{invalid_table, Error};

pub(crate) mod analysis;
pub(crate) mod minimize;
pub(crate) mod serialize;



verus! {

/// Mask that strips the accept flag from a stored transition target.
pub const STATE_MASK: u32 = 0x7FFF_FFFF;

/// Largest number of transitions a freshly built table may hold.
pub const MAX_TOTAL_TRANSITIONS: usize = 268_435_456;

/// The explanation given for a table without input classes.
pub const ZERO_CLASSES: &'static str = "class_count must be greater than 0. Fix: pass a positive class_count.";

/// Mathematical model of a [`TransitionTable`].
pub struct TableModel {
    pub state_count: usize,
    pub class_count: usize,
    pub transitions: Seq<u32>,
    pub accept_states: Seq<(u32, u32)>,
    pub pattern_lengths: Seq<u32>,
}

/// The dimensions of a table; they never change after construction.
#[derive(Debug)]
struct Shape {
    state_count: usize,
    class_count: usize,
}

impl Shape {
    #[verifier::type_invariant]
    spec fn inv(self) -> bool {
        &&& self.state_count <= 65_536
        &&& self.class_count > 0
        &&& self.state_count * self.class_count <= usize::MAX
    }
}

/// DFA transition table consumed by the scanner.
///
/// Row `s` holds the `class_count` targets of state `s`; the target of state
/// `s` on byte `b` is stored at index `s * class_count + b`.
#[derive(Debug)]
pub struct TransitionTable {
    shape: Shape,
    transitions: Vec<u32>,
    accept_states: Vec<(u32, u32)>,
    pattern_lengths: Vec<u32>,
}

impl View for TransitionTable {
    type V = TableModel;

    closed spec fn view(&self) -> TableModel {
        TableModel {
            state_count: self.shape.state_count,
            class_count: self.shape.class_count,
            transitions: self.transitions@,
            accept_states: self.accept_states@,
            pattern_lengths: self.pattern_lengths@,
        }
    }
}

/// `s` extended with zeros to length `k`, or `s` itself when it is long enough.
pub open spec fn grow_to(s: Seq<u32>, k: int) -> Seq<u32> {
    if s.len() >= k {
        s
    } else {
        s + Seq::new((k - s.len()) as nat, |i: int| 0u32)
    }
}

/// The table that `TransitionTable::new` builds: every transition goes to
/// state 0, no state accepts and no pattern length is set.
pub open spec fn empty_model(state_count: usize, class_count: usize) -> TableModel {
    TableModel {
        state_count,
        class_count,
        transitions: Seq::new((state_count * class_count) as nat, |i: int| 0u32),
        accept_states: Seq::empty(),
        pattern_lengths: Seq::empty(),
    }
}

/// Whether `TransitionTable::new` accepts the dimensions.
pub open spec fn new_accepts(state_count: usize, class_count: usize) -> bool {
    &&& state_count <= 65_536
    &&& class_count > 0
    &&& state_count * class_count <= 268_435_456
}

/// Extends `v` with zeros until it holds at least `k` entries.
fn grow_vec(v: &mut Vec<u32>, k: usize)
    ensures
        final(v)@ == grow_to(old(v)@, k as int),
{
    let ghost start = v@;
    if v.len() < k {
        while v.len() < k
            invariant
                start.len() <= v.len() <= k,
                v@ == start + Seq::new((v.len() - start.len()) as nat, |i: int| 0u32),
            decreases k - v.len(),
        {
            v.push(0);
            assert(v@ == start + Seq::new((v.len() - start.len()) as nat, |i: int| 0u32));
        }
    }
}

/// A copy of `v` with the same contents.
pub(crate) fn copy_pairs(v: &Vec<(u32, u32)>) -> (r: Vec<(u32, u32)>)
    ensures
        r@ == v@,
{
    let mut r: Vec<(u32, u32)> = Vec::new();
    let mut i: usize = 0;
    while i < v.len()
        invariant
            i <= v.len(),
            r@ == v@.take(i as int),
        decreases v.len() - i,
    {
        r.push(v[i]);
        i += 1;
        assert(r@ == v@.take(i as int));
    }
    assert(v@.take(v.len() as int) == v@);
    r
}

impl Clone for TransitionTable {
    fn clone(&self) -> (r: Self)
        ensures
            r@ == self@,
    {
        proof { use_type_invariant(&self.shape); }
        TransitionTable {
            shape: Shape { state_count: self.shape.state_count, class_count: self.shape.class_count },
            transitions: self.transitions.clone(),
            accept_states: copy_pairs(&self.accept_states),
            pattern_lengths: self.pattern_lengths.clone(),
        }
    }
}

impl TransitionTable {
    /// Maximum states allowed in a single DFA.
    pub const MAX_STATES: usize = 65_536;

    /// Builds a table from parts whose shape is already known to be valid.
    pub(crate) fn assemble(
        state_count: usize,
        class_count: usize,
        transitions: Vec<u32>,
        accept_states: Vec<(u32, u32)>,
        pattern_lengths: Vec<u32>,
    ) -> (t: Self)
        requires
            state_count <= 65_536,
            class_count > 0,
            state_count * class_count <= usize::MAX,
        ensures
            t@ == (TableModel {
                state_count,
                class_count,
                transitions: transitions@,
                accept_states: accept_states@,
                pattern_lengths: pattern_lengths@,
            }),
    {
        TransitionTable {
            shape: Shape { state_count, class_count },
            transitions,
            accept_states,
            pattern_lengths,
        }
    }

    /// Creates a table whose transitions all lead to state 0.
    ///
    /// Fails with `TooManyStates` when `state_count` exceeds `MAX_STATES` or
    /// the table would hold more than 2^28 transitions, and with
    /// `InvalidTable` when `class_count` is zero. Within `MAX_STATES` states,
    /// `state_count * class_count` must fit a `usize`.
    pub fn new(state_count: usize, class_count: usize) -> (r: Result<Self, Error>)
        requires
            state_count <= 65_536 ==> state_count * class_count <= usize::MAX,
        ensures
            new_accepts(state_count, class_count) ==> (r matches Ok(t) && t@ == empty_model(
                state_count,
                class_count,
            )),
            state_count > 65_536 ==> (r matches Err(Error::TooManyStates { states, max })
                && states == state_count && max == 65_536),
            state_count <= 65_536 && class_count == 0 ==> (r matches Err(Error::InvalidTable { reason })
                && reason@ == ZERO_CLASSES@),
            state_count <= 65_536 && class_count > 0 && state_count * class_count > 268_435_456
                ==> (r matches Err(Error::TooManyStates { states, max }) && states == state_count
                && max == 65_536),
    {
        if state_count > Self::MAX_STATES {
            return Err(Error::TooManyStates { states: state_count, max: Self::MAX_STATES });
        }
        if class_count == 0 {
            return Err(
                invalid_table(ZERO_CLASSES),
            );
        }
        let total = match state_count.checked_mul(class_count) {
            Some(t) => t,
            None => {
                return Err(Error::TooManyStates { states: state_count, max: Self::MAX_STATES });
            },
        };
        if total > MAX_TOTAL_TRANSITIONS {
            return Err(Error::TooManyStates { states: state_count, max: Self::MAX_STATES });
        }
        let transitions: Vec<u32> = vec![0; total];
        proof {
            assert(transitions@ == Seq::new(total as nat, |i: int| 0u32));
        }
        Ok(Self::assemble(state_count, class_count, transitions, Vec::new(), Vec::new()))
    }

    /// Sets a single transition: from `state` on input `byte`, go to `next_state`.
    ///
    /// A position outside the transition array is ignored.
    pub fn set_transition(&mut self, state: usize, byte: u8, next_state: u32)
        ensures
            ({
                let idx = state * old(self)@.class_count + byte;
                &&& idx < old(self)@.transitions.len() ==> final(self)@ == (TableModel {
                    transitions: old(self)@.transitions.update(idx, next_state),
                    ..old(self)@
                })
                &&& idx >= old(self)@.transitions.len() ==> final(self)@ == old(self)@
            }),
    {
        let class_count = self.shape.class_count;
        let len = self.transitions.len();
        if let Some(row) = state.checked_mul(class_count) {
            if let Some(idx) = row.checked_add(byte as usize) {
                if idx < len {
                    self.transitions.set(idx, next_state);
                }
            }
        }
    }

    /// Marks a state as accepting for a given pattern, and makes room for the
    /// pattern's length.
    pub fn add_accept(&mut self, state: u32, pattern_id: u32)
        requires
            pattern_id < usize::MAX,
        ensures
            final(self)@ == (TableModel {
                accept_states: old(self)@.accept_states.push((state, pattern_id)),
                pattern_lengths: grow_to(old(self)@.pattern_lengths, pattern_id + 1),
                ..old(self)@
            }),
    {
        self.accept_states.push((state, pattern_id));
        grow_vec(&mut self.pattern_lengths, pattern_id as usize + 1);
    }

    /// Sets the fixed length of a pattern (used to compute match starts).
    pub fn set_pattern_length(&mut self, pattern_id: u32, length: u32)
        requires
            pattern_id < usize::MAX,
        ensures
            final(self)@ == (TableModel {
                pattern_lengths: grow_to(old(self)@.pattern_lengths, pattern_id + 1).update(
                    pattern_id as int,
                    length,
                ),
                ..old(self)@
            }),
    {
        grow_vec(&mut self.pattern_lengths, pattern_id as usize + 1);
        self.pattern_lengths.set(pattern_id as usize, length);
    }

    /// Number of DFA states.
    pub fn state_count(&self) -> (r: usize)
        ensures
            r == self@.state_count,
            r <= 65_536,
    {
        proof { use_type_invariant(&self.shape); }
        self.shape.state_count
    }

    /// Number of input classes.
    pub fn class_count(&self) -> (r: usize)
        ensures
            r == self@.class_count,
            r > 0,
            self@.state_count * r <= usize::MAX,
    {
        proof { use_type_invariant(&self.shape); }
        self.shape.class_count
    }

    /// The transition array.
    pub fn transitions(&self) -> (r: &[u32])
        ensures
            r@ == self@.transitions,
    {
        self.transitions.as_slice()
    }

    /// Mutable access to the transition entries; their number cannot change.
    pub fn transitions_mut(&mut self) -> (r: &mut [u32])
        ensures
            r@ == old(self)@.transitions,
            final(self)@ == (TableModel { transitions: final(r)@, ..old(self)@ }),
    {
        self.transitions.as_mut_slice()
    }

    /// Mutable access to the transition vector itself, which may change its length.
    pub fn transitions_raw_mut(&mut self) -> (r: &mut Vec<u32>)
        ensures
            r@ == old(self)@.transitions,
            final(self)@ == (TableModel { transitions: final(r)@, ..old(self)@ }),
    {
        &mut self.transitions
    }

    /// Accepting states with their pattern ids, in insertion order.
    pub fn accept_states(&self) -> (r: &[(u32, u32)])
        ensures
            r@ == self@.accept_states,
    {
        self.accept_states.as_slice()
    }

    /// Mutable access to the accepting states.
    pub fn accept_states_mut(&mut self) -> (r: &mut Vec<(u32, u32)>)
        ensures
            r@ == old(self)@.accept_states,
            final(self)@ == (TableModel { accept_states: final(r)@, ..old(self)@ }),
    {
        &mut self.accept_states
    }

    /// Pattern lengths, indexed by pattern id.
    pub fn pattern_lengths(&self) -> (r: &[u32])
        ensures
            r@ == self@.pattern_lengths,
    {
        self.pattern_lengths.as_slice()
    }

    /// Mutable access to the pattern lengths.
    pub fn pattern_lengths_mut(&mut self) -> (r: &mut Vec<u32>)
        ensures
            r@ == old(self)@.pattern_lengths,
            final(self)@ == (TableModel { pattern_lengths: final(r)@, ..old(self)@ }),
    {
        &mut self.pattern_lengths
    }

    /// Number of transitions in the table.
    pub fn transition_count(&self) -> (r: usize)
        ensures
            r == self@.transitions.len(),
    {
        self.transitions.len()
    }
}

} // verus!
