//! The compiled DFA: a scanner built from a transition table or from a set
//! of literal patterns.

use vstd::prelude::*;
use crate::aho::{build_pattern_scanner, complete_for, first_ids, pattern_views, sound_for, trie_size};
use crate::error::{invalid_table, Error};
use crate::scan::{
    compile_interpreted_fallback, links_ok, scan_events, written, scanner_of, to_match, ExecutableBuffer,
    Match, ScanModel,
};
use crate::table::TransitionTable;

verus! {

/// The explanation `compile` gives for a transition array of the wrong length.
pub const TRANSITION_COUNT_MISMATCH: &'static str =
    "transition count does not match state_count * class_count. Fix: keep one transition per state and class.";

/// The explanation `from_patterns` gives for an empty pattern set.
pub const EMPTY_PATTERN_SET: &'static str = "pattern set is empty. Fix: provide at least one pattern.";

/// Model of a compiled DFA: its scanner and the counts it was built with.
pub struct DfaModel {
    pub scanner: ScanModel,
    pub state_count: nat,
    pub pattern_count: nat,
}

/// A DFA compiled for scanning.
#[derive(Debug)]
pub struct JitDfa {
    buffer: ExecutableBuffer,
    state_count: usize,
    pattern_count: usize,
}

impl View for JitDfa {
    type V = DfaModel;

    closed spec fn view(&self) -> DfaModel {
        DfaModel {
            scanner: self.buffer@,
            state_count: self.state_count as nat,
            pattern_count: self.pattern_count as nat,
        }
    }
}

/// How many matches `scan` writes into a buffer with room for `room`: all
/// of them, or as many as fit.
pub open spec fn scan_written(d: DfaModel, input: Seq<u8>, room: nat) -> nat {
    written(d.scanner, input, room)
}

/// Law: with room for every match, `scan` writes as many matches as
/// `scan_count` counts.
pub proof fn lemma_scan_agrees_with_count(d: DfaModel, input: Seq<u8>, room: nat)
    requires
        room >= scan_events(d.scanner, input).len(),
    ensures
        scan_written(d, input, room) == scan_events(d.scanner, input).len(),
{
}

/// The inputs a compiled DFA can scan: the number of matches they yield
/// fits a `usize`.
pub open spec fn scannable(d: DfaModel, input: Seq<u8>) -> bool {
    scan_events(d.scanner, input).len() <= usize::MAX
}

impl JitDfa {
    /// The output links of a compiled DFA have no cycle, so every scan ends.
    #[verifier::type_invariant]
    spec fn inv(self) -> bool {
        links_ok(self.buffer@.output_links)
    }

    /// Compiles a transition table into a scanner.
    ///
    /// Fails with `EmptyDfa` for a table without states and with
    /// `InvalidTable` when the transition array does not hold exactly one
    /// entry per state and class.
    pub fn compile(table: &TransitionTable) -> (r: Result<JitDfa, Error>)
        ensures
            table@.state_count == 0 ==> (r matches Err(e) && e is EmptyDfa),
            table@.state_count > 0 && table@.transitions.len() != table@.state_count * table@.class_count
                ==> (r matches Err(Error::InvalidTable { reason }) && reason@ == TRANSITION_COUNT_MISMATCH@),
            table@.state_count > 0 && table@.transitions.len() == table@.state_count * table@.class_count
                ==> (r matches Ok(d) && d@ == (DfaModel {
                scanner: scanner_of(table@, Seq::empty()),
                state_count: table@.state_count as nat,
                pattern_count: table@.pattern_lengths.len(),
            })),
    {
        let n = table.state_count();
        if n == 0 {
            return Err(Error::EmptyDfa);
        }
        let expected = n * table.class_count();
        if table.transitions().len() != expected {
            return Err(invalid_table(TRANSITION_COUNT_MISMATCH));
        }
        let none: Vec<u32> = Vec::new();
        proof {
            crate::scan::lemma_no_links();
            crate::scan::lemma_pad_links(none@, n as int);
        }
        let buffer = match compile_interpreted_fallback(table, none.as_slice()) {
            Ok(b) => b,
            Err(e) => {
                return Err(e);
            },
        };
        Ok(JitDfa { buffer, state_count: n, pattern_count: table.pattern_lengths().len() })
    }

    /// Builds a scanner that finds the literal byte patterns `patterns`;
    /// an occurrence of pattern `i` is reported with the smallest index of a
    /// pattern equal to it (`i` itself when the patterns are distinct). Empty
    /// patterns never match, and no (pattern, end) pair is reported twice. The
    /// scanner has one state per distinct prefix of the patterns.
    ///
    /// Fails with `InvalidTable` for an empty pattern set and with
    /// `TooManyStates` when the patterns have more than `MAX_STATES` distinct
    /// prefixes.
    pub fn from_patterns(patterns: &[&[u8]]) -> (r: Result<JitDfa, Error>)
        requires
            patterns@.len() < u32::MAX,
        ensures
            patterns@.len() == 0 ==> (r matches Err(Error::InvalidTable { reason }) && reason@ == EMPTY_PATTERN_SET@),
            patterns@.len() > 0 && trie_size(pattern_views(patterns@)) > TransitionTable::MAX_STATES ==> (r matches Err(
                e,
            ) && e matches Error::TooManyStates { states, max } && states > max && max == TransitionTable::MAX_STATES),
            patterns@.len() > 0 && trie_size(pattern_views(patterns@)) <= TransitionTable::MAX_STATES ==> (r matches Ok(
                d,
            ) && {
                &&& sound_for(d@.scanner, pattern_views(patterns@))
                &&& complete_for(d@.scanner, pattern_views(patterns@))
                &&& first_ids(d@.scanner, pattern_views(patterns@))
                &&& forall|input: Seq<u8>| input.len() <= u32::MAX ==> #[trigger] scan_events(d@.scanner, input).no_duplicates()
                &&& d@.state_count == trie_size(pattern_views(patterns@))
                &&& d@.state_count == d@.scanner.accept_pattern.len()
                &&& d@.pattern_count == patterns@.len()
                &&& d@.scanner.pattern_lengths.len() == patterns@.len()
                &&& forall|i: int| 0 <= i < patterns@.len() ==> #[trigger] d@.scanner.pattern_lengths[i] == (
                patterns@[i]@.len() as u32)
            }),
    {
        if patterns.len() == 0 {
            return Err(invalid_table(EMPTY_PATTERN_SET));
        }
        match build_pattern_scanner(patterns) {
            Ok((buffer, n)) => Ok(JitDfa { buffer, state_count: n, pattern_count: patterns.len() }),
            Err(e) => Err(e),
        }
    }

    /// Number of states of the compiled DFA.
    pub fn state_count(&self) -> (r: usize)
        ensures
            r == self@.state_count,
    {
        self.state_count
    }

    /// Number of pattern ids the DFA was compiled with.
    pub fn pattern_count(&self) -> (r: usize)
        ensures
            r == self@.pattern_count,
    {
        self.pattern_count
    }

    /// Scans `input`, writing the first matches into `matches`; returns how
    /// many were written.
    pub fn scan(&self, input: &[u8], matches: &mut [Match]) -> (r: usize)
        requires
            scannable(self@, input@),
        ensures
            ({
                let ev = scan_events(self@.scanner, input@);
                &&& r == scan_written(self@, input@, old(matches)@.len())
                &&& final(matches)@.len() == old(matches)@.len()
                &&& forall|i: int| 0 <= i < r ==> #[trigger] final(matches)@[i] == to_match(self@.scanner, ev[i])
                &&& forall|i: int| r <= i < old(matches)@.len() ==> #[trigger] final(matches)@[i] == old(matches)@[i]
            }),
    {
        proof { use_type_invariant(self); }
        self.buffer.scan(input, matches)
    }

    /// Number of matches in `input`.
    pub fn scan_count(&self, input: &[u8]) -> (r: usize)
        requires
            scannable(self@, input@),
        ensures
            r == scan_events(self@.scanner, input@).len(),
    {
        proof { use_type_invariant(self); }
        self.buffer.scan_count(input)
    }

    /// The first match in `input`, if any.
    pub fn scan_first(&self, input: &[u8]) -> (r: Option<Match>)
        requires
            scannable(self@, input@),
        ensures
            ({
                let ev = scan_events(self@.scanner, input@);
                &&& ev.len() == 0 ==> r is None
                &&& ev.len() > 0 ==> r == Some(to_match(self@.scanner, ev[0]))
            }),
    {
        let mut one: Vec<Match> = Vec::new();
        one.push(Match::new(0, 0, 0));
        proof { use_type_invariant(self); }
        let count = self.buffer.scan(input, one.as_mut_slice());
        if count > 0 {
            Some(one[0])
        } else {
            None
        }
    }

    /// Whether `input` contains a match.
    pub fn has_match(&self, input: &[u8]) -> (r: bool)
        requires
            scannable(self@, input@),
        ensures
            r == (scan_events(self@.scanner, input@).len() > 0),
    {
        self.scan_first(input).is_some()
    }
}

} // verus!
