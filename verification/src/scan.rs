//! The table-driven scanner: accept-pattern lookup, output links and the
//! matches it reports.

use vstd::prelude::*;
use crate::error::Error;
use crate::table::{TableModel, TransitionTable, STATE_MASK};
use crate::table::minimize::last_pid;

verus! {

/// Marks a state without a pattern, and the end of an output-link chain.
pub const NO_MATCH: u32 = 0xFFFF_FFFF;

/// A match result: the pattern, and the byte range `start..end` it covers.
#[derive(Clone, Copy, Debug, PartialEq, Eq)]
pub struct Match {
    /// Index of the pattern that matched.
    pub pattern_id: u32,
    /// Byte offset where the match starts (inclusive).
    pub start: u32,
    /// Byte offset where the match ends (exclusive).
    pub end: u32,
}

impl Match {
    /// Constructs a match from its fields.
    pub fn new(pattern_id: u32, start: u32, end: u32) -> (r: Match)
        ensures
            r == (Match { pattern_id, start, end }),
    {
        Match { pattern_id, start, end }
    }

    /// Constructs a match from its fields (same as [`Match::new`]).
    pub fn from_parts(pattern_id: u32, start: u32, end: u32) -> (r: Match)
        ensures
            r == (Match { pattern_id, start, end }),
    {
        Match { pattern_id, start, end }
    }
}

/// Model of the scanner: the transition array, the number of classes per
/// state, the pattern of each state (`NO_MATCH` for none), the output link
/// of each state, and the pattern lengths.
pub struct ScanModel {
    pub transitions: Seq<u32>,
    pub class_count: nat,
    pub accept_pattern: Seq<u32>,
    pub output_links: Seq<u32>,
    pub pattern_lengths: Seq<u32>,
}

/// `s[i]`, or `d` when `i` lies outside `s`.
pub open spec fn get_or(s: Seq<u32>, i: int, d: u32) -> u32 {
    if 0 <= i < s.len() {
        s[i]
    } else {
        d
    }
}

/// The state after reading `byte` in `state`: the stored target without its
/// accept flag, or state 0 when the entry lies outside the transition array.
pub open spec fn next_state(t: Seq<u32>, c: nat, state: u32, byte: u8) -> u32 {
    get_or(t, state as int * c + byte as int, 0) & 0x7FFF_FFFFu32
}

/// The output-link chain from `s`, followed at most `fuel` times.
pub open spec fn chain(links: Seq<u32>, s: u32, fuel: nat) -> Seq<u32>
    decreases fuel,
{
    if s == NO_MATCH || fuel == 0 {
        Seq::empty()
    } else {
        seq![s] + chain(links, get_or(links, s as int, NO_MATCH), (fuel - 1) as nat)
    }
}

/// The chain from `s` reaches `NO_MATCH` within `fuel` links.
pub open spec fn chain_ends(links: Seq<u32>, s: u32, fuel: nat) -> bool
    decreases fuel,
{
    s == NO_MATCH || (fuel > 0 && chain_ends(links, get_or(links, s as int, NO_MATCH), (fuel - 1) as nat))
}

/// Every output-link chain ends: the links have no cycle.
pub open spec fn links_ok(links: Seq<u32>) -> bool {
    forall|s: u32| #[trigger] chain_ends(links, s, (links.len() + 1) as nat)
}

/// The matches reported when the scan enters accepting state `s` after
/// `end` bytes: one (pattern, end) per state of the chain from `s`.
pub open spec fn events_at(b: ScanModel, s: u32, end: u32) -> Seq<(u32, u32)> {
    chain(b.output_links, s, (b.output_links.len() + 1) as nat).map_values(
        |c: u32| (get_or(b.accept_pattern, c as int, 0), end),
    )
}

/// The state after scanning `input`, and the matches reported so far. After a
/// match the scan restarts in state 0.
pub open spec fn run(b: ScanModel, input: Seq<u8>) -> (u32, Seq<(u32, u32)>)
    decreases input.len(),
{
    if input.len() == 0 {
        (0u32, Seq::empty())
    } else {
        let (st, ev) = run(b, input.drop_last());
        let nx = next_state(b.transitions, b.class_count, st, input.last());
        if get_or(b.accept_pattern, nx as int, NO_MATCH) == NO_MATCH {
            (nx, ev)
        } else {
            (0u32, ev + events_at(b, nx, input.len() as u32))
        }
    }
}

/// The (pattern, end) pairs that scanning `input` reports.
pub open spec fn scan_events(b: ScanModel, input: Seq<u8>) -> Seq<(u32, u32)> {
    run(b, input).1
}

/// How many matches a scan of `input` writes into a buffer with room for
/// `room`: all of them, or as many as fit.
pub open spec fn written(b: ScanModel, input: Seq<u8>, room: nat) -> nat {
    let n = scan_events(b, input).len();
    if n < room {
        n
    } else {
        room
    }
}

/// Law: a scan writes as many matches as `scan_count` counts, or as many as
/// the buffer has room for when that is fewer.
pub proof fn lemma_scan_writes_count_or_room(b: ScanModel, input: Seq<u8>, room: nat)
    ensures
        written(b, input, room) == if room < scan_events(b, input).len() {
            room
        } else {
            scan_events(b, input).len()
        },
        room >= scan_events(b, input).len() ==> written(b, input, room) == scan_events(b, input).len(),
{
}

/// The match reported for a (pattern, end) pair: it starts the pattern's
/// length before its end, or at 0.
pub open spec fn to_match(b: ScanModel, e: (u32, u32)) -> Match {
    let len = get_or(b.pattern_lengths, e.0 as int, 0);
    Match { pattern_id: e.0, start: if e.1 >= len { (e.1 - len) as u32 } else { 0u32 }, end: e.1 }
}

/// The pattern of each state of a table: that of its last accept entry, or
/// `NO_MATCH`.
pub open spec fn accept_of(m: TableModel) -> Seq<u32> {
    Seq::new(
        m.state_count as nat,
        |s: int|
            match last_pid(m.accept_states, s) {
                Some(p) => p,
                None => NO_MATCH,
            },
    )
}

/// `links` extended with `NO_MATCH` to at least `n` entries.
pub open spec fn pad_links(links: Seq<u32>, n: int) -> Seq<u32> {
    if links.len() >= n {
        links
    } else {
        links + Seq::new((n - links.len()) as nat, |i: int| NO_MATCH)
    }
}

/// The scanner built from a table and output links.
pub open spec fn scanner_of(m: TableModel, links: Seq<u32>) -> ScanModel {
    ScanModel {
        transitions: m.transitions,
        class_count: m.class_count as nat,
        accept_pattern: accept_of(m),
        output_links: pad_links(links, m.state_count as int),
        pattern_lengths: m.pattern_lengths,
    }
}

// ---------------------------------------------------------------------------
// Lemmas about chains.
// ---------------------------------------------------------------------------

/// Links that are all missing have no cycle.
pub proof fn lemma_no_links()
    ensures
        links_ok(Seq::<u32>::empty()),
{
    assert forall|s: u32| #[trigger] chain_ends(Seq::<u32>::empty(), s, 1) by {
        assert(chain_ends(Seq::<u32>::empty(), NO_MATCH, 0));
    }
}

proof fn lemma_chain_len(links: Seq<u32>, s: u32, fuel: nat)
    ensures
        chain(links, s, fuel).len() <= fuel,
    decreases fuel,
{
    if s != NO_MATCH && fuel > 0 {
        lemma_chain_len(links, get_or(links, s as int, NO_MATCH), (fuel - 1) as nat);
    }
}

proof fn lemma_chain_ends_mono(links: Seq<u32>, s: u32, f: nat, g: nat)
    requires
        chain_ends(links, s, f),
        f <= g,
    ensures
        chain_ends(links, s, g),
        chain(links, s, f) == chain(links, s, g),
    decreases f,
{
    if s != NO_MATCH {
        lemma_chain_ends_mono(links, get_or(links, s as int, NO_MATCH), (f - 1) as nat, (g - 1) as nat);
    }
}

/// Padding the links with `NO_MATCH` keeps them acyclic and changes no chain.
pub proof fn lemma_pad_links(links: Seq<u32>, n: int)
    requires
        links_ok(links),
    ensures
        links_ok(pad_links(links, n)),
        forall|s: u32| #[trigger] chain(pad_links(links, n), s, (pad_links(links, n).len() + 1) as nat) == chain(
            links,
            s,
            (links.len() + 1) as nat,
        ),
{
    let p = pad_links(links, n);
    assert forall|x: int| #[trigger] get_or(p, x, NO_MATCH) == get_or(links, x, NO_MATCH) by {}
    assert forall|s: u32| #[trigger] chain(p, s, (p.len() + 1) as nat) == chain(links, s, (links.len() + 1) as nat) by {
        assert(chain_ends(links, s, (links.len() + 1) as nat));
        lemma_same_links(links, p, s, (links.len() + 1) as nat);
        lemma_chain_ends_mono(p, s, (links.len() + 1) as nat, (p.len() + 1) as nat);
    }
    assert forall|s: u32| #[trigger] chain_ends(p, s, (p.len() + 1) as nat) by {
        assert(chain_ends(links, s, (links.len() + 1) as nat));
        lemma_same_links(links, p, s, (links.len() + 1) as nat);
        lemma_chain_ends_mono(p, s, (links.len() + 1) as nat, (p.len() + 1) as nat);
    }
}

proof fn lemma_same_links(a: Seq<u32>, b: Seq<u32>, s: u32, f: nat)
    requires
        forall|x: int| #[trigger] get_or(a, x, NO_MATCH) == get_or(b, x, NO_MATCH),
    ensures
        chain_ends(a, s, f) == chain_ends(b, s, f),
        chain(a, s, f) == chain(b, s, f),
    decreases f,
{
    if s != NO_MATCH && f > 0 {
        assert(get_or(a, s as int, NO_MATCH) == get_or(b, s as int, NO_MATCH));
        lemma_same_links(a, b, get_or(a, s as int, NO_MATCH), (f - 1) as nat);
    }
}

// ---------------------------------------------------------------------------
// The scanner.
// ---------------------------------------------------------------------------

/// Scanner state built from a transition table: the table, the pattern of
/// each state, and the output links that chain accepting states together.
#[derive(Debug)]
pub struct ExecutableBuffer {
    table: TransitionTable,
    accept_pattern: Vec<u32>,
    output_links: Vec<u32>,
}

impl View for ExecutableBuffer {
    type V = ScanModel;

    closed spec fn view(&self) -> ScanModel {
        ScanModel {
            transitions: self.table@.transitions,
            class_count: self.table@.class_count as nat,
            accept_pattern: self.accept_pattern@,
            output_links: self.output_links@,
            pattern_lengths: self.table@.pattern_lengths,
        }
    }
}

impl ExecutableBuffer {
    fn next_of(&self, state: u32, byte: u8) -> (r: u32)
        ensures
            r == next_state(self@.transitions, self@.class_count, state, byte),
    {
        let t = self.table.transitions();
        let c = self.table.class_count();
        let len = t.len();
        let next = match (state as usize).checked_mul(c) {
            Some(row) => match row.checked_add(byte as usize) {
                Some(idx) => if idx < len {
                    t[idx]
                } else {
                    0
                },
                None => 0,
            },
            None => 0,
        };
        next & STATE_MASK
    }

    fn pattern_at(&self, s: u32, default: u32) -> (r: u32)
        ensures
            r == get_or(self@.accept_pattern, s as int, default),
    {
        if (s as usize) < self.accept_pattern.len() {
            self.accept_pattern[s as usize]
        } else {
            default
        }
    }

    fn link_at(&self, s: u32) -> (r: u32)
        ensures
            r == get_or(self@.output_links, s as int, NO_MATCH),
    {
        if (s as usize) < self.output_links.len() {
            self.output_links[s as usize]
        } else {
            NO_MATCH
        }
    }

    fn length_of(&self, pattern_id: u32) -> (r: u32)
        ensures
            r == get_or(self@.pattern_lengths, pattern_id as int, 0),
    {
        let lengths = self.table.pattern_lengths();
        if (pattern_id as usize) < lengths.len() {
            lengths[pattern_id as usize]
        } else {
            0
        }
    }

    /// Counts the matches in `input` without recording them.
    pub fn scan_count(&self, input: &[u8]) -> (r: usize)
        requires
            links_ok(self@.output_links),
            scan_events(self@, input@).len() <= usize::MAX,
        ensures
            r == scan_events(self@, input@).len(),
    {
        self.scan_count_interpreted(input)
    }

    fn scan_count_interpreted(&self, input: &[u8]) -> (r: usize)
        requires
            links_ok(self@.output_links),
            scan_events(self@, input@).len() <= usize::MAX,
        ensures
            r == scan_events(self@, input@).len(),
    {
        let ghost b = self@;
        let ghost total = scan_events(b, input@).len();
        let mut state: u32 = 0;
        let mut count: usize = 0;
        let ghost mut ev: Seq<(u32, u32)> = Seq::empty();
        let mut pos: usize = 0;
        while pos < input.len()
            invariant
                b == self@,
                links_ok(b.output_links),
                total == scan_events(b, input@).len(),
                total <= usize::MAX,
                pos <= input@.len(),
                run(b, input@.take(pos as int)) == (state, ev),
                count == ev.len(),
            decreases input@.len() - pos,
        {
            let byte = input[pos];
            let clean_next = self.next_of(state, byte);
            proof {
                let t = input@.take(pos + 1);
                assert(t.drop_last() == input@.take(pos as int));
                assert(t.last() == byte);
                lemma_run_prefix(b, input@, pos + 1);
            }
            if self.pattern_at(clean_next, NO_MATCH) == NO_MATCH {
                state = clean_next;
            } else {
                let ghost full = chain(b.output_links, clean_next, (b.output_links.len() + 1) as nat);
                let ghost mut done: Seq<u32> = Seq::empty();
                let ghost mut fuel: nat = (b.output_links.len() + 1) as nat;
                let mut output_state = clean_next;
                let ghost ev0 = ev;
                let ghost end = (pos + 1) as u32;
                proof {
                    assert(chain_ends(b.output_links, clean_next, fuel));
                    assert(full == done + chain(b.output_links, output_state, fuel));
                    assert(run(b, input@.take(pos + 1)).1 == ev0 + events_at(b, clean_next, end));
                }
                while output_state != NO_MATCH
                    invariant
                        b == self@,
                        total <= usize::MAX,
                        chain_ends(b.output_links, output_state, fuel),
                        full == done + chain(b.output_links, output_state, fuel),
                        ev == ev0 + done.map_values(|c: u32| (get_or(b.accept_pattern, c as int, 0), end)),
                        count == ev.len(),
                        count + chain(b.output_links, output_state, fuel).len() <= total,
                    decreases fuel,
                {
                    proof {
                        assert(done.push(output_state).map_values(
                            |c: u32| (get_or(b.accept_pattern, c as int, 0), end),
                        ) =~= done.map_values(|c: u32| (get_or(b.accept_pattern, c as int, 0), end)).push(
                            (get_or(b.accept_pattern, output_state as int, 0), end),
                        ));
                        assert(full == done.push(output_state) + chain(
                            b.output_links,
                            get_or(b.output_links, output_state as int, NO_MATCH),
                            (fuel - 1) as nat,
                        ));
                        ev = ev.push((get_or(b.accept_pattern, output_state as int, 0), end));
                        done = done.push(output_state);
                        fuel = (fuel - 1) as nat;
                    }
                    count += 1;
                    output_state = self.link_at(output_state);
                }
                proof {
                    assert(done == full);
                    assert(ev == ev0 + events_at(b, clean_next, end));
                }
                state = 0;
            }
            pos += 1;
        }
        assert(input@.take(input@.len() as int) == input@);
        count
    }

    /// Scans `input`, writing the first matches into `matches`; returns how
    /// many were written.
    pub fn scan(&self, input: &[u8], matches: &mut [Match]) -> (r: usize)
        requires
            links_ok(self@.output_links),
            scan_events(self@, input@).len() <= usize::MAX,
        ensures
            ({
                let ev = scan_events(self@, input@);
                &&& r == written(self@, input@, old(matches)@.len())
                &&& final(matches)@.len() == old(matches)@.len()
                &&& forall|i: int| 0 <= i < r ==> #[trigger] final(matches)@[i] == to_match(self@, ev[i])
                &&& forall|i: int| r <= i < old(matches)@.len() ==> #[trigger] final(matches)@[i] == old(matches)@[i]
            }),
    {
        self.scan_interpreted(input, matches)
    }

    fn scan_interpreted(&self, input: &[u8], matches: &mut [Match]) -> (r: usize)
        requires
            links_ok(self@.output_links),
            scan_events(self@, input@).len() <= usize::MAX,
        ensures
            ({
                let ev = scan_events(self@, input@);
                &&& r == written(self@, input@, old(matches)@.len())
                &&& final(matches)@.len() == old(matches)@.len()
                &&& forall|i: int| 0 <= i < r ==> #[trigger] final(matches)@[i] == to_match(self@, ev[i])
                &&& forall|i: int| r <= i < old(matches)@.len() ==> #[trigger] final(matches)@[i] == old(matches)@[i]
            }),
    {
        let ghost b = self@;
        let ghost total = scan_events(b, input@).len();
        let ghost m0 = matches@;
        let mlen = matches.len();
        let mut state: u32 = 0;
        let mut count: usize = 0;
        let ghost mut ev: Seq<(u32, u32)> = Seq::empty();
        let mut pos: usize = 0;
        while pos < input.len()
            invariant
                b == self@,
                links_ok(b.output_links),
                total == scan_events(b, input@).len(),
                total <= usize::MAX,
                pos <= input@.len(),
                run(b, input@.take(pos as int)) == (state, ev),
                count == ev.len(),
                mlen == m0.len(),
                matches@.len() == mlen,
                forall|i: int| 0 <= i < count && i < mlen ==> #[trigger] matches@[i] == to_match(b, ev[i]),
                forall|i: int| count <= i < mlen ==> #[trigger] matches@[i] == m0[i],
            decreases input@.len() - pos,
        {
            let byte = input[pos];
            let clean_next = self.next_of(state, byte);
            proof {
                let t = input@.take(pos + 1);
                assert(t.drop_last() == input@.take(pos as int));
                assert(t.last() == byte);
                lemma_run_prefix(b, input@, pos + 1);
            }
            if self.pattern_at(clean_next, NO_MATCH) == NO_MATCH {
                state = clean_next;
            } else {
                let ghost full = chain(b.output_links, clean_next, (b.output_links.len() + 1) as nat);
                let ghost mut done: Seq<u32> = Seq::empty();
                let ghost mut fuel: nat = (b.output_links.len() + 1) as nat;
                let mut output_state = clean_next;
                let ghost ev0 = ev;
                let end = (pos + 1) as u32;
                proof {
                    assert(chain_ends(b.output_links, clean_next, fuel));
                    assert(full == done + chain(b.output_links, output_state, fuel));
                    assert(run(b, input@.take(pos + 1)).1 == ev0 + events_at(b, clean_next, end));
                }
                while output_state != NO_MATCH
                    invariant
                        b == self@,
                        total <= usize::MAX,
                        chain_ends(b.output_links, output_state, fuel),
                        full == done + chain(b.output_links, output_state, fuel),
                        ev == ev0 + done.map_values(|c: u32| (get_or(b.accept_pattern, c as int, 0), end)),
                        count == ev.len(),
                        count + chain(b.output_links, output_state, fuel).len() <= total,
                        mlen == m0.len(),
                        matches@.len() == mlen,
                        forall|i: int| 0 <= i < count && i < mlen ==> #[trigger] matches@[i] == to_match(b, ev[i]),
                        forall|i: int| count <= i < mlen ==> #[trigger] matches@[i] == m0[i],
                    decreases fuel,
                {
                    let pid = self.pattern_at(output_state, 0);
                    if count < mlen {
                        let pat_len = self.length_of(pid);
                        let start = if end >= pat_len { end - pat_len } else { 0 };
                        matches[count] = Match::from_parts(pid, start, end);
                    }
                    proof {
                        assert(done.push(output_state).map_values(
                            |c: u32| (get_or(b.accept_pattern, c as int, 0), end),
                        ) =~= done.map_values(|c: u32| (get_or(b.accept_pattern, c as int, 0), end)).push(
                            (get_or(b.accept_pattern, output_state as int, 0), end),
                        ));
                        assert(full == done.push(output_state) + chain(
                            b.output_links,
                            get_or(b.output_links, output_state as int, NO_MATCH),
                            (fuel - 1) as nat,
                        ));
                        ev = ev.push((pid, end));
                        done = done.push(output_state);
                        fuel = (fuel - 1) as nat;
                    }
                    count += 1;
                    output_state = self.link_at(output_state);
                }
                proof {
                    assert(done == full);
                    assert(ev == ev0 + events_at(b, clean_next, end));
                }
                state = 0;
            }
            pos += 1;
        }
        assert(input@.take(input@.len() as int) == input@);
        if count < mlen {
            count
        } else {
            mlen
        }
    }
}

/// A scanner from its parts: a table, the pattern of each state and the
/// output links.
pub(crate) fn buffer_from_parts(table: TransitionTable, accept_pattern: Vec<u32>, output_links: Vec<u32>) -> (r:
    ExecutableBuffer)
    ensures
        r@ == (ScanModel {
            transitions: table@.transitions,
            class_count: table@.class_count as nat,
            accept_pattern: accept_pattern@,
            output_links: output_links@,
            pattern_lengths: table@.pattern_lengths,
        }),
{
    ExecutableBuffer { table, accept_pattern, output_links }
}

/// The scan of a prefix of the input reports a prefix of the matches.
pub proof fn lemma_run_prefix(b: ScanModel, input: Seq<u8>, e: int)
    requires
        0 <= e <= input.len(),
    ensures
        run(b, input.take(e)).1.len() <= run(b, input).1.len(),
        forall|k: int| 0 <= k < run(b, input.take(e)).1.len() ==> #[trigger] run(b, input).1[k] == run(b, input.take(e)).1[k],
    decreases input.len(),
{
    if e < input.len() {
        let u = input.drop_last();
        lemma_run_prefix(b, u, e);
        assert(u.take(e) =~= input.take(e));
    } else {
        assert(input.take(e) =~= input);
    }
}

/// Links that point only to smaller states have no cycle.
pub proof fn lemma_links_descend(links: Seq<u32>)
    requires
        forall|s: int| 0 <= s < links.len() ==> #[trigger] links[s] == NO_MATCH || links[s] < s,
    ensures
        links_ok(links),
{
    assert forall|s: u32| #[trigger] chain_ends(links, s, (links.len() + 1) as nat) by {
        if (s as int) < links.len() {
            lemma_descend_ends(links, s);
            lemma_chain_ends_mono(links, s, (s + 2) as nat, (links.len() + 1) as nat);
        } else {
            assert(chain_ends(links, NO_MATCH, links.len() as nat));
        }
    }
}

proof fn lemma_descend_ends(links: Seq<u32>, s: u32)
    requires
        forall|x: int| 0 <= x < links.len() ==> #[trigger] links[x] == NO_MATCH || links[x] < x,
        (s as int) < links.len(),
    ensures
        chain_ends(links, s, (s + 2) as nat),
    decreases s,
{
    if s != NO_MATCH {
        let t = links[s as int];
        if t != NO_MATCH {
            lemma_descend_ends(links, t);
            lemma_chain_ends_mono(links, t, (t + 2) as nat, (s + 1) as nat);
        } else {
            assert(chain_ends(links, NO_MATCH, (s + 1) as nat));
        }
    }
}

/// A vector holding the words of `s`.
pub(crate) fn copy_words(s: &[u32]) -> (r: Vec<u32>)
    ensures
        r@ == s@,
{
    let mut r: Vec<u32> = Vec::with_capacity(s.len());
    let mut i: usize = 0;
    while i < s.len()
        invariant
            i <= s@.len(),
            r@ == s@.take(i as int),
        decreases s@.len() - i,
    {
        r.push(s[i]);
        i += 1;
        assert(r@ == s@.take(i as int));
    }
    assert(s@.take(s@.len() as int) == s@);
    r
}

/// The pattern of each state of `table`: that of its last accept entry, or
/// `NO_MATCH`.
pub(crate) fn accept_pattern_of(table: &TransitionTable) -> (r: Vec<u32>)
    ensures
        r@ == accept_of(table@),
{
    let n = table.state_count();
    let acc = table.accept_states();
    let mut accept_pattern: Vec<u32> = vec![NO_MATCH; n];
    let mut i: usize = 0;
    while i < acc.len()
        invariant
            n == table@.state_count,
            acc@ == table@.accept_states,
            accept_pattern@.len() == n,
            i <= acc@.len(),
            forall|s: int| 0 <= s < n ==> #[trigger] accept_pattern@[s] == match last_pid(acc@.take(i as int), s) {
                Some(p) => p,
                None => NO_MATCH,
            },
        decreases acc@.len() - i,
    {
        let (state, pid) = acc[i];
        if (state as usize) < n {
            accept_pattern.set(state as usize, pid);
        }
        proof {
            let t = acc@.take(i + 1);
            assert(t.drop_last() == acc@.take(i as int));
            assert(t.last() == (state, pid));
        }
        i += 1;
    }
    assert(acc@.take(acc@.len() as int) == acc@);
    assert(accept_pattern@ =~= accept_of(table@));
    accept_pattern
}

/// `links` padded with `NO_MATCH` to at least `n` entries.
pub(crate) fn padded_links(links: &[u32], n: usize) -> (r: Vec<u32>)
    ensures
        r@ == pad_links(links@, n as int),
{
    let mut r: Vec<u32> = copy_words(links);
    if r.len() < n {
        r.resize(n, NO_MATCH);
    }
    assert(r@ =~= pad_links(links@, n as int));
    r
}

/// Builds the scanner for `table`: each state gets the pattern of its last
/// accept entry, and the output links are padded with `NO_MATCH` to one per
/// state.
pub(crate) fn compile_interpreted_fallback(table: &TransitionTable, output_links: &[u32]) -> (r: Result<
    ExecutableBuffer,
    Error,
>)
    ensures
        r matches Ok(buf) && buf@ == scanner_of(table@, output_links@),
{
    let n = table.state_count();
    let accept_pattern = accept_pattern_of(table);
    let links = padded_links(output_links, n);
    Ok(ExecutableBuffer { table: table.clone(), accept_pattern, output_links: links })
}

} // verus!
