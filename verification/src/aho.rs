//! Building a scanner that finds a set of literal byte patterns: a trie of
//! the patterns completed into a DFA by failure links (Aho-Corasick).

use vstd::prelude::*;
use crate::error::Error;
use crate::scan::{
    buffer_from_parts, chain, events_at, get_or, lemma_links_descend, lemma_run_prefix, next_state, run, scan_events,
    links_ok, to_match, ExecutableBuffer, ScanModel, NO_MATCH,
};
use crate::table::TransitionTable;

verus! {

/// The bytes of each pattern.
pub open spec fn pattern_views(ps: Seq<&[u8]>) -> Seq<Seq<u8>> {
    ps.map_values(|p: &[u8]| p@)
}

/// `u` ends `w`.
pub open spec fn is_suffix(u: Seq<u8>, w: Seq<u8>) -> bool {
    &&& u.len() <= w.len()
    &&& w.subrange(w.len() - u.len(), w.len() as int) == u
}

/// The target stored for state `s` on byte `c` in a 256-class array.
pub open spec fn entry256(t: Seq<u32>, s: int, c: int) -> u32 {
    t[s * 256 + c]
}

/// Each state `s` stands for the string `labels[s]` (the empty string for
/// state 0): every transition on byte `c` leads to a state whose string ends
/// `labels[s] + c`; a state's pattern ends its string; an output link leads
/// to a state with a pattern whose string ends the state's string.
pub open spec fn labelled(b: ScanModel, ps: Seq<Seq<u8>>, labels: Seq<Seq<u8>>) -> bool {
    let n = labels.len();
    &&& n >= 1
    &&& labels[0] == Seq::<u8>::empty()
    &&& n <= 65_536
    &&& b.class_count == 256
    &&& b.transitions.len() == n * 256
    &&& b.accept_pattern.len() == n
    &&& b.output_links.len() == n
    &&& forall|s: int, c: int| 0 <= s < n && 0 <= c < 256 ==> {
        &&& #[trigger] entry256(b.transitions, s, c) < n
        &&& is_suffix(labels[entry256(b.transitions, s, c) as int], labels[s].push(c as u8))
    }
    &&& forall|s: int| 0 <= s < n && #[trigger] b.accept_pattern[s] != NO_MATCH ==> {
        &&& b.accept_pattern[s] < ps.len()
        &&& is_suffix(ps[b.accept_pattern[s] as int], labels[s])
    }
    &&& forall|s: int| 0 <= s < n && #[trigger] b.output_links[s] != NO_MATCH ==> {
        &&& b.output_links[s] < n
        &&& b.accept_pattern[b.output_links[s] as int] != NO_MATCH
        &&& is_suffix(labels[b.output_links[s] as int], labels[s])
    }
}

/// No pattern before pattern `i` equals it.
pub open spec fn is_first(ps: Seq<Seq<u8>>, i: int) -> bool {
    forall|j: int| 0 <= j < i ==> #[trigger] ps[j] != ps[i]
}

/// Every pattern id the scanner reports is the smallest index of its
/// pattern.
pub open spec fn first_ids(b: ScanModel, ps: Seq<Seq<u8>>) -> bool {
    forall|s: int|
        0 <= s < b.accept_pattern.len() && #[trigger] b.accept_pattern[s] != NO_MATCH ==> is_first(
            ps,
            b.accept_pattern[s] as int,
        )
}

/// The scanner reports only real occurrences of the patterns `ps`.
pub open spec fn sound_for(b: ScanModel, ps: Seq<Seq<u8>>) -> bool {
    exists|labels: Seq<Seq<u8>>| labelled(b, ps, labels)
}

/// `w` is the string of some state.
pub open spec fn is_label(labels: Seq<Seq<u8>>, w: Seq<u8>) -> bool {
    exists|r: int| 0 <= r < labels.len() && #[trigger] labels[r] == w
}

/// State `t` has the longest state string that ends `w`.
pub open spec fn longest_in(labels: Seq<Seq<u8>>, t: int, w: Seq<u8>) -> bool {
    &&& 0 <= t < labels.len()
    &&& is_suffix(labels[t], w)
    &&& forall|u: int| 0 <= u < labels.len() && #[trigger] is_suffix(labels[u], w) ==> labels[u].len() <= labels[t].len()
}

/// State `c` reports a pattern equal to pattern `i`.
pub open spec fn reports(b: ScanModel, ps: Seq<Seq<u8>>, c: u32, i: int) -> bool {
    &&& (c as int) < b.accept_pattern.len()
    &&& b.accept_pattern[c as int] < ps.len()
    &&& ps[b.accept_pattern[c as int] as int] == ps[i]
}

/// Dropping the last byte of a nonempty state string gives a state string.
#[verifier::opaque]
pub open spec fn drop_closed(labels: Seq<Seq<u8>>) -> bool {
    forall|t: int| 0 <= t < labels.len() && (#[trigger] labels[t]).len() > 0 ==> is_label(labels, labels[t].drop_last())
}

/// Each transition leads to the state with the longest string that ends the
/// string of its source extended by its byte.
#[verifier::opaque]
pub open spec fn moves_longest(b: ScanModel, labels: Seq<Seq<u8>>) -> bool {
    forall|s: int, c: int|
        0 <= s < labels.len() && 0 <= c < 256 ==> longest_in(
            labels,
            #[trigger] entry256(b.transitions, s, c) as int,
            labels[s].push(c as u8),
        )
}

/// Every nonempty pattern is a state string.
#[verifier::opaque]
pub open spec fn patterns_are_states(ps: Seq<Seq<u8>>, labels: Seq<Seq<u8>>) -> bool {
    forall|i: int| 0 <= i < ps.len() && (#[trigger] ps[i]).len() > 0 ==> is_label(labels, ps[i])
}

/// Output links lead to smaller states, and only leave states that have a
/// pattern.
#[verifier::opaque]
pub open spec fn links_descend(b: ScanModel) -> bool {
    &&& forall|s: int|
        0 <= s < b.output_links.len() ==> (#[trigger] b.output_links[s] == NO_MATCH || b.output_links[s] < s)
    &&& forall|s: int|
        0 <= s < b.output_links.len() && #[trigger] b.accept_pattern[s] == NO_MATCH ==> b.output_links[s] == NO_MATCH
}

/// The output chain of every state names every nonempty pattern that ends
/// its string.
#[verifier::opaque]
pub open spec fn chains_report(b: ScanModel, ps: Seq<Seq<u8>>, labels: Seq<Seq<u8>>) -> bool {
    forall|s: int, i: int|
        0 <= s < labels.len() && 0 <= i < ps.len() && ps[i].len() > 0 && #[trigger] is_suffix(ps[i], labels[s])
            ==> exists|k: int|
            0 <= k < chain(b.output_links, s as u32, (s + 1) as nat).len() && #[trigger] reports(
                b,
                ps,
                chain(b.output_links, s as u32, (s + 1) as nat)[k],
                i,
            )
}

/// Beyond `labelled`: the facts that make the scanner find every pattern.
#[verifier::opaque]
pub open spec fn complete_with(b: ScanModel, ps: Seq<Seq<u8>>, labels: Seq<Seq<u8>>) -> bool {
    &&& labelled(b, ps, labels)
    &&& ps.len() < u32::MAX
    &&& drop_closed(labels)
    &&& moves_longest(b, labels)
    &&& patterns_are_states(ps, labels)
    &&& links_descend(b)
    &&& chains_report(b, ps, labels)
}

/// The scanner reports every occurrence of the patterns `ps` that lies
/// within the stretch read since its last restart.
pub open spec fn complete_for(b: ScanModel, ps: Seq<Seq<u8>>) -> bool {
    exists|labels: Seq<Seq<u8>>| complete_with(b, ps, labels)
}

// ---------------------------------------------------------------------------
// Suffixes.
// ---------------------------------------------------------------------------

proof fn lemma_suffix_refl(w: Seq<u8>)
    ensures
        is_suffix(w, w),
{
    assert(w.subrange(0, w.len() as int) =~= w);
}

proof fn lemma_suffix_empty(w: Seq<u8>)
    ensures
        is_suffix(Seq::empty(), w),
{
    assert(w.subrange(w.len() as int, w.len() as int) =~= Seq::<u8>::empty());
}

proof fn lemma_suffix_trans(u: Seq<u8>, v: Seq<u8>, w: Seq<u8>)
    requires
        is_suffix(u, v),
        is_suffix(v, w),
    ensures
        is_suffix(u, w),
{
    assert(w.subrange(w.len() - u.len(), w.len() as int) =~= v.subrange(v.len() - u.len(), v.len() as int));
}

proof fn lemma_suffix_push(u: Seq<u8>, w: Seq<u8>, x: u8)
    requires
        is_suffix(u, w),
    ensures
        is_suffix(u.push(x), w.push(x)),
{
    let w2 = w.push(x);
    assert(w2.subrange(w2.len() - (u.len() + 1), w2.len() as int) =~= u.push(x));
}

/// Of two suffixes of one word, the shorter ends the longer.
proof fn lemma_suffix_of_longer(u: Seq<u8>, v: Seq<u8>, w: Seq<u8>)
    requires
        is_suffix(u, w),
        is_suffix(v, w),
        u.len() <= v.len(),
    ensures
        is_suffix(u, v),
{
    assert(v.subrange(v.len() - u.len(), v.len() as int) =~= w.subrange(w.len() - u.len(), w.len() as int));
}

/// The proper suffixes of a nonempty word are the suffixes of its tail.
proof fn lemma_suffix_skip(u: Seq<u8>, w: Seq<u8>)
    requires
        w.len() > 0,
    ensures
        is_suffix(u, w.skip(1)) <==> (is_suffix(u, w) && u.len() < w.len()),
{
    let t = w.skip(1);
    if u.len() <= t.len() {
        assert(t.subrange(t.len() - u.len(), t.len() as int) =~= w.subrange(w.len() - u.len(), w.len() as int));
    }
}

/// A nonempty suffix of `w + x` ends in `x`, and the rest of it ends `w`.
proof fn lemma_suffix_pop(u: Seq<u8>, w: Seq<u8>, x: u8)
    requires
        is_suffix(u, w.push(x)),
        u.len() > 0,
    ensures
        u.last() == x,
        is_suffix(u.drop_last(), w),
{
    let w2 = w.push(x);
    assert(u.last() == w2.subrange(w2.len() - u.len(), w2.len() as int)[u.len() - 1]);
    assert(w.subrange(w.len() - (u.len() - 1), w.len() as int) =~= u.drop_last());
}

/// A suffix as long as the word is the word.
proof fn lemma_suffix_full(u: Seq<u8>, w: Seq<u8>)
    requires
        is_suffix(u, w),
        u.len() == w.len(),
    ensures
        u == w,
{
    assert(w.subrange(0, w.len() as int) =~= w);
}

// ---------------------------------------------------------------------------
// The trie.
// ---------------------------------------------------------------------------

/// Some edge of `go` leads into node `t` from a smaller node.
pub open spec fn has_parent(go: Seq<u32>, t: int) -> bool {
    exists|r: int, c: int| 0 <= r < t && 0 <= c < 256 && #[trigger] entry256(go, r, c) == t
}

/// `go` is a trie of `count` nodes labelled by `labels`: each edge appends
/// its byte, leads to a larger node and is the only edge into that node;
/// every node but the root has an edge into it; labels never get shorter as
/// node numbers grow.
pub open spec fn trie_wf(go: Seq<u32>, count: int, labels: Seq<Seq<u8>>) -> bool {
    &&& 1 <= count <= 65_536
    &&& labels.len() == count
    &&& labels[0] == Seq::<u8>::empty()
    &&& go.len() == count * 256
    &&& forall|r: int, c: int| 0 <= r < count && 0 <= c < 256 && #[trigger] entry256(go, r, c) != NO_MATCH ==> {
        &&& r < entry256(go, r, c) < count
        &&& labels[entry256(go, r, c) as int] == labels[r].push(c as u8)
    }
    &&& forall|r1: int, c1: int, r2: int, c2: int|
        0 <= r1 < count && 0 <= c1 < 256 && 0 <= r2 < count && 0 <= c2 < 256 && #[trigger] entry256(go, r1, c1)
            != NO_MATCH && entry256(go, r1, c1) == #[trigger] entry256(go, r2, c2) ==> r1 == r2 && c1 == c2
    &&& forall|t: int| 0 < t < count ==> #[trigger] has_parent(go, t)
    &&& forall|x: int, y: int| 0 <= x <= y < count ==> #[trigger] labels[x].len() <= #[trigger] labels[y].len()
}

/// The length of the longest pattern.
fn max_pattern_len(patterns: &[&[u8]]) -> (r: usize)
    ensures
        forall|i: int| 0 <= i < patterns@.len() ==> (#[trigger] patterns@[i])@.len() <= r,
{
    let mut m: usize = 0;
    let mut i: usize = 0;
    while i < patterns.len()
        invariant
            i <= patterns@.len(),
            forall|j: int| 0 <= j < i ==> (#[trigger] patterns@[j])@.len() <= m,
        decreases patterns@.len() - i,
    {
        if patterns[i].len() > m {
            m = patterns[i].len();
        }
        i += 1;
    }
    m
}

/// The first `d` bytes of `p`, or all of `p` when it is shorter.
pub open spec fn prefix_upto(p: Seq<u8>, d: int) -> Seq<u8> {
    if p.len() <= d {
        p
    } else {
        p.take(d)
    }
}

/// `w` is a prefix of one of the patterns (the empty word included).
pub open spec fn is_prefix_of_some(ps: Seq<Seq<u8>>, w: Seq<u8>) -> bool {
    exists|i: int, k: int| 0 <= i < ps.len() && 0 <= k <= ps[i].len() && #[trigger] ps[i].take(k) == w
}

/// The prefixes of the patterns, the empty one included, one entry per
/// pattern and length.
pub open spec fn prefix_list(ps: Seq<Seq<u8>>) -> Seq<Seq<u8>>
    decreases ps.len(),
{
    if ps.len() == 0 {
        Seq::empty()
    } else {
        prefix_list(ps.drop_last()) + Seq::new((ps.last().len() + 1) as nat, |k: int| ps.last().take(k))
    }
}

/// The number of distinct prefixes of the patterns: the number of nodes of
/// their trie.
pub open spec fn trie_size(ps: Seq<Seq<u8>>) -> nat {
    prefix_list(ps).to_set().len()
}

/// The prefix list holds exactly the prefixes of the patterns.
proof fn lemma_prefix_list(ps: Seq<Seq<u8>>, w: Seq<u8>)
    ensures
        prefix_list(ps).contains(w) <==> is_prefix_of_some(ps, w),
    decreases ps.len(),
{
    if ps.len() > 0 {
        let q = ps.drop_last();
        let l = ps.last();
        let tail = Seq::new((l.len() + 1) as nat, |k: int| l.take(k));
        lemma_prefix_list(q, w);
        let pl = prefix_list(ps);
        assert(pl == prefix_list(q) + tail);
        if pl.contains(w) {
            let j = choose|j: int| 0 <= j < pl.len() && pl[j] == w;
            if j < prefix_list(q).len() {
                assert(prefix_list(q)[j] == w);
                let (i, k) = choose|i: int, k: int| 0 <= i < q.len() && 0 <= k <= q[i].len() && #[trigger] q[i].take(k) == w;
                assert(ps[i] == q[i]);
                assert(ps[i].take(k) == w);
            } else {
                let k = j - prefix_list(q).len();
                assert(tail[k] == w);
                assert(ps[ps.len() - 1].take(k) == w);
            }
        }
        if is_prefix_of_some(ps, w) {
            let (i, k) = choose|i: int, k: int| 0 <= i < ps.len() && 0 <= k <= ps[i].len() && #[trigger] ps[i].take(k) == w;
            if i < q.len() {
                assert(q[i].take(k) == w);
                assert(is_prefix_of_some(q, w));
                let j = choose|j: int| 0 <= j < prefix_list(q).len() && prefix_list(q)[j] == w;
                assert(pl[j] == w);
            } else {
                assert(tail[k] == w);
                assert(pl[prefix_list(q).len() + k] == w);
            }
        }
    }
}

/// Every prefix of a node's string is the string of a node.
proof fn lemma_label_prefixes(go: Seq<u32>, count: int, labels: Seq<Seq<u8>>, t: int, k: int)
    requires
        trie_wf(go, count, labels),
        0 <= t < count,
        0 <= k <= labels[t].len(),
    ensures
        is_label(labels, labels[t].take(k)),
    decreases t,
{
    if k == labels[t].len() {
        assert(labels[t].take(k) =~= labels[t]);
    } else {
        let (r, c) = lemma_parent_label(go, count, labels, t);
        assert(labels[t].take(k) =~= labels[r].take(k));
        lemma_label_prefixes(go, count, labels, r, k);
    }
}

/// Without a trie edge on `b` from `s`, no node has the string of `s`
/// extended by `b`.
proof fn lemma_missing_edge_string(go: Seq<u32>, count: int, labels: Seq<Seq<u8>>, s: int, b: int, u: int)
    requires
        trie_wf(go, count, labels),
        0 <= s < count,
        0 <= b < 256,
        0 <= u < count,
        entry256(go, s, b) == NO_MATCH,
    ensures
        labels[u] != labels[s].push(b as u8),
{
    let w = labels[s].push(b as u8);
    if labels[u] == w {
        assert(labels[u].len() > 0 && labels[0].len() == 0);
        assert(u != 0);
        let (r, c) = lemma_parent_label(go, count, labels, u);
        assert(labels[r] =~= labels[u].drop_last());
        assert(labels[s] =~= w.drop_last());
        lemma_labels_injective(go, count, labels, r, s);
        assert(labels[u].last() == c as u8);
        assert(w.last() == b as u8);
        assert(c == b);
        assert(entry256(go, s, b) == u);
    }
}

/// A trie of `MAX_STATES` nodes that lacks an edge to a further prefix
/// means the patterns have more than `MAX_STATES` distinct prefixes.
proof fn lemma_trie_overflow(go: Seq<u32>, count: int, labels: Seq<Seq<u8>>, ps: Seq<Seq<u8>>, cur: int, b: int)
    requires
        trie_wf(go, count, labels),
        count == 65_536,
        0 <= cur < count,
        0 <= b < 256,
        entry256(go, cur, b) == NO_MATCH,
        forall|t: int| 0 <= t < count ==> is_prefix_of_some(ps, #[trigger] labels[t]),
        is_prefix_of_some(ps, labels[cur].push(b as u8)),
    ensures
        trie_size(ps) > 65_536,
{
    let q = labels.push(labels[cur].push(b as u8));
    assert forall|x: int, y: int| 0 <= x < q.len() && 0 <= y < q.len() && x != y implies q[x] != q[y] by {
        if x < count && y < count {
            if q[x] == q[y] {
                lemma_labels_injective(go, count, labels, x, y);
            }
        } else if x < count {
            lemma_missing_edge_string(go, count, labels, cur, b, x);
        } else {
            lemma_missing_edge_string(go, count, labels, cur, b, y);
        }
    }
    assert(q.no_duplicates());
    q.unique_seq_to_set();
    let all = prefix_list(ps).to_set();
    assert forall|w: Seq<u8>| q.to_set().contains(w) implies all.contains(w) by {
        let j = choose|j: int| 0 <= j < q.len() && q[j] == w;
        if j < count {
            assert(q[j] == labels[j]);
        }
        lemma_prefix_list(ps, w);
    }
    vstd::seq_lib::seq_to_set_is_finite(prefix_list(ps));
    vstd::set_lib::lemma_len_subset(q.to_set(), all);
}

/// A complete trie has one node per distinct prefix of the patterns.
proof fn lemma_trie_size(go: Seq<u32>, count: int, labels: Seq<Seq<u8>>, ps: Seq<Seq<u8>>, node_of: Seq<u32>)
    requires
        trie_wf(go, count, labels),
        forall|t: int| 0 <= t < count ==> is_prefix_of_some(ps, #[trigger] labels[t]),
        node_of.len() == ps.len(),
        forall|i: int| 0 <= i < ps.len() ==> #[trigger] node_of[i] < count && labels[node_of[i] as int] == ps[i],
    ensures
        count == trie_size(ps),
{
    assert forall|x: int, y: int| 0 <= x < labels.len() && 0 <= y < labels.len() && x != y implies labels[x]
        != labels[y] by {
        if labels[x] == labels[y] {
            lemma_labels_injective(go, count, labels, x, y);
        }
    }
    assert(labels.no_duplicates());
    labels.unique_seq_to_set();
    let all = prefix_list(ps).to_set();
    assert forall|w: Seq<u8>| labels.to_set().contains(w) <==> all.contains(w) by {
        lemma_prefix_list(ps, w);
        if labels.to_set().contains(w) {
            let t = choose|t: int| 0 <= t < labels.len() && labels[t] == w;
            assert(is_prefix_of_some(ps, labels[t]));
        }
        if all.contains(w) {
            let (i, k) = choose|i: int, k: int| 0 <= i < ps.len() && 0 <= k <= ps[i].len() && #[trigger] ps[i].take(k) == w;
            let v = node_of[i] as int;
            lemma_label_prefixes(go, count, labels, v, k);
            let r = choose|r: int| 0 <= r < labels.len() && #[trigger] labels[r] == labels[v].take(k);
            assert(labels[r] == w);
        }
    }
    assert(labels.to_set() =~= all);
}

/// Builds the trie of the patterns, one depth at a time, so that node
/// numbers grow with depth. Fails once the trie would need more than
/// `MAX_STATES` nodes.
fn build_trie(patterns: &[&[u8]]) -> (r: Result<(Vec<u32>, usize, Vec<u32>, Ghost<Seq<Seq<u8>>>), Error>)
    requires
        patterns@.len() > 0,
    ensures
        r matches Ok((go, count, node_of, labels)) ==> {
            &&& trie_wf(go@, count as int, labels@)
            &&& count == trie_size(pattern_views(patterns@))
            &&& node_of@.len() == patterns@.len()
            &&& forall|i: int| 0 <= i < patterns@.len() ==> {
                &&& #[trigger] node_of@[i] < count
                &&& labels@[node_of@[i] as int] == patterns@[i]@
            }
        },
        r matches Err(e) ==> (e matches Error::TooManyStates { states, max } && states > max && max == 65_536
            && trie_size(pattern_views(patterns@)) > 65_536),
{
    let ghost ps = pattern_views(patterns@);
    let np = patterns.len();
    let max_len = max_pattern_len(patterns);
    let mut go: Vec<u32> = vec![NO_MATCH; 256];
    let mut count: usize = 1;
    let mut node_of: Vec<u32> = vec![0; np];
    let ghost mut labels: Seq<Seq<u8>> = seq![Seq::<u8>::empty()];
    proof {
        assert forall|r: int, c: int| 0 <= r < 1 && 0 <= c < 256 implies #[trigger] entry256(go@, r, c) == NO_MATCH by {
            assert(go@[r * 256 + c] == NO_MATCH);
        }
        assert(ps[0].take(0) =~= labels[0]);
    }
    let mut d: usize = 0;
    while d < max_len
        invariant
            np == patterns@.len(),
            ps == pattern_views(patterns@),
            forall|t: int| 0 <= t < count ==> is_prefix_of_some(ps, #[trigger] labels[t]),
            forall|i: int| 0 <= i < np ==> (#[trigger] patterns@[i])@.len() <= max_len,
            d <= max_len,
            trie_wf(go@, count as int, labels),
            forall|t: int| 0 <= t < count ==> (#[trigger] labels[t]).len() <= d,
            node_of@.len() == np,
            forall|i: int| 0 <= i < np ==> {
                &&& #[trigger] node_of@[i] < count
                &&& labels[node_of@[i] as int] == prefix_upto(patterns@[i]@, d as int)
            },
        decreases max_len - d,
    {
        let mut i: usize = 0;
        while i < np
            invariant
                np == patterns@.len(),
                ps == pattern_views(patterns@),
                forall|t: int| 0 <= t < count ==> is_prefix_of_some(ps, #[trigger] labels[t]),
                d < max_len,
                i <= np,
                trie_wf(go@, count as int, labels),
                forall|t: int| 0 <= t < count ==> (#[trigger] labels[t]).len() <= d + 1,
                node_of@.len() == np,
                forall|j: int| 0 <= j < np ==> #[trigger] node_of@[j] < count,
                forall|j: int| 0 <= j < i ==> labels[(#[trigger] node_of@[j]) as int] == prefix_upto(
                    patterns@[j]@,
                    d + 1,
                ),
                forall|j: int| i <= j < np ==> labels[(#[trigger] node_of@[j]) as int] == prefix_upto(
                    patterns@[j]@,
                    d as int,
                ),
            decreases np - i,
        {
            let p = patterns[i];
            if p.len() > d {
                let cur = node_of[i] as usize;
                let b = p[d];
                let idx = cur * 256 + b as usize;
                proof {
                    assert(labels[cur as int] == p@.take(d as int));
                    assert(labels[cur as int].len() == d);
                    assert(p@.take(d + 1) =~= p@.take(d as int).push(b));
                    assert(ps[i as int].take(d + 1) == labels[cur as int].push(b));
                    assert(is_prefix_of_some(ps, labels[cur as int].push(b)));
                }
                if go[idx] == NO_MATCH {
                    if count >= 65_536 {
                        proof {
                            lemma_trie_overflow(go@, count as int, labels, ps, cur as int, b as int);
                        }
                        return Err(Error::TooManyStates { states: count + 1, max: 65_536 });
                    }
                    let ghost old_go = go@;
                    let ghost old_count = count as int;
                    let ghost new_label = labels[cur as int].push(b);
                    go.set(idx, count as u32);
                    let ghost mid = go@;
                    let new_len = go.len() + 256;
                    go.resize(new_len, NO_MATCH);
                    proof {
                        labels = labels.push(new_label);
                        let g = go@;
                        assert(g.subrange(0, mid.len() as int) == mid);
                        assert forall|i: int| 0 <= i < mid.len() implies #[trigger] g[i] == mid[i] by {
                            assert(g.subrange(0, mid.len() as int)[i] == g[i]);
                        }
                        assert(mid == old_go.update(idx as int, old_count as u32));
                        assert forall|r: int, c: int| 0 <= r < old_count && 0 <= c < 256 && !(r == cur && c == b) implies
                            #[trigger] entry256(g, r, c) == entry256(old_go, r, c) by {
                            assert(r * 256 + c != cur * 256 + b);
                        }
                        assert(entry256(g, cur as int, b as int) == old_count);
                        assert forall|c: int| 0 <= c < 256 implies #[trigger] entry256(g, old_count, c) == NO_MATCH by {
                            assert(g[old_count * 256 + c] == NO_MATCH);
                        }
                        assert forall|r: int, c: int| 0 <= r < old_count + 1 && 0 <= c < 256 && #[trigger] entry256(g, r, c) != NO_MATCH implies {
                            &&& r < entry256(g, r, c) < old_count + 1
                            &&& labels[entry256(g, r, c) as int] == labels[r].push(c as u8)
                        } by {
                            if r == old_count {
                                assert(entry256(g, r, c) == NO_MATCH);
                            } else if r == cur && c == b {
                            } else {
                                assert(entry256(g, r, c) == entry256(old_go, r, c));
                            }
                        }
                        assert forall|r1: int, c1: int, r2: int, c2: int|
                            0 <= r1 < old_count + 1 && 0 <= c1 < 256 && 0 <= r2 < old_count + 1 && 0 <= c2 < 256
                                && #[trigger] entry256(g, r1, c1) != NO_MATCH && entry256(g, r1, c1) == #[trigger] entry256(g, r2, c2)
                            implies r1 == r2 && c1 == c2 by {
                            if r1 == old_count {
                                assert(entry256(g, r1, c1) == NO_MATCH);
                            }
                            if r2 == old_count {
                                assert(entry256(g, r2, c2) == NO_MATCH);
                            }
                            if !(r1 == cur && c1 == b) {
                                assert(entry256(g, r1, c1) == entry256(old_go, r1, c1));
                            }
                            if !(r2 == cur && c2 == b) {
                                assert(entry256(g, r2, c2) == entry256(old_go, r2, c2));
                            }
                        }
                        assert forall|t: int| 0 < t < old_count + 1 implies #[trigger] has_parent(g, t) by {
                            if t == old_count {
                                assert(entry256(g, cur as int, b as int) == t);
                            } else {
                                assert(has_parent(old_go, t));
                                let (r, c) = choose|r: int, c: int|
                                    0 <= r < t && 0 <= c < 256 && #[trigger] entry256(old_go, r, c) == t;
                                if r == cur && c == b {
                                    assert(entry256(old_go, r, c) == NO_MATCH);
                                }
                                assert(entry256(g, r, c) == t);
                            }
                        }
                        assert forall|x: int, y: int| 0 <= x <= y < old_count + 1 implies #[trigger] labels[x].len()
                            <= #[trigger] labels[y].len() by {
                            if y == old_count && x < old_count {
                                assert(labels[x].len() <= d + 1);
                            }
                        }
                    }
                    count += 1;
                }
                let next = go[idx];
                proof {
                    assert(entry256(go@, cur as int, b as int) == next);
                    assert(p@.take(d + 1) =~= p@.take(d as int).push(b));
                }
                node_of.set(i, next);
            }
            i += 1;
        }
        d += 1;
    }
    proof {
        assert forall|i: int| 0 <= i < np implies labels[node_of@[i] as int] == patterns@[i]@ by {
            assert(node_of@[i] < count);
        }
        lemma_trie_size(go@, count as int, labels, ps, node_of@);
    }
    Ok((go, count, node_of, Ghost(labels)))
}

/// Every node but the root has a nonempty string, one byte longer than the
/// string of its parent.
proof fn lemma_parent_label(go: Seq<u32>, count: int, labels: Seq<Seq<u8>>, t: int) -> (rc: (int, int))
    requires
        trie_wf(go, count, labels),
        0 < t < count,
    ensures
        0 <= rc.0 < t,
        0 <= rc.1 < 256,
        entry256(go, rc.0, rc.1) == t,
        labels[t] == labels[rc.0].push(rc.1 as u8),
        labels[t].len() > 0,
{
    assert(has_parent(go, t));
    let (r, c) = choose|r: int, c: int| 0 <= r < t && 0 <= c < 256 && #[trigger] entry256(go, r, c) == t;
    assert(entry256(go, r, c) != NO_MATCH);
    (r, c)
}

/// Distinct trie nodes have distinct strings.
proof fn lemma_labels_injective(go: Seq<u32>, count: int, labels: Seq<Seq<u8>>, x: int, y: int)
    requires
        trie_wf(go, count, labels),
        0 <= x < count,
        0 <= y < count,
        labels[x] == labels[y],
    ensures
        x == y,
    decreases labels[x].len(),
{
    if x > 0 && y > 0 {
        let (rx, cx) = lemma_parent_label(go, count, labels, x);
        let (ry, cy) = lemma_parent_label(go, count, labels, y);
        assert(labels[rx] =~= labels[x].drop_last());
        assert(labels[ry] =~= labels[y].drop_last());
        assert(cx as u8 == labels[x].last());
        assert(cy as u8 == labels[y].last());
        lemma_labels_injective(go, count, labels, rx, ry);
    } else if x > 0 {
        lemma_parent_label(go, count, labels, x);
    } else if y > 0 {
        lemma_parent_label(go, count, labels, y);
    }
}

/// Along links that lead to smaller states, any fuel beyond the start state
/// gives the same chain.
proof fn lemma_chain_fuel(links: Seq<u32>, x: u32, f1: nat, f2: nat)
    requires
        forall|y: int| 0 <= y < links.len() ==> (#[trigger] links[y] == NO_MATCH || links[y] < y),
        x == NO_MATCH || (x as int) < links.len(),
        x == NO_MATCH || (f1 > x && f2 > x),
    ensures
        chain(links, x, f1) == chain(links, x, f2),
    decreases f1,
{
    if x != NO_MATCH {
        let l = get_or(links, x as int, NO_MATCH);
        assert(l == links[x as int]);
        lemma_chain_fuel(links, l, (f1 - 1) as nat, (f2 - 1) as nat);
    }
}

/// A state string that properly ends the string of `s` extended by `b` is
/// no longer than the string of the fallback state: the root for `s == 0`,
/// else the state that the failure node of `s` moves to on `b`.
proof fn lemma_fallback_longest(
    go: Seq<u32>,
    count: int,
    labels: Seq<Seq<u8>>,
    delta: Seq<u32>,
    fail: Seq<u32>,
    s: int,
    b: int,
    fallback: u32,
)
    requires
        trie_wf(go, count, labels),
        0 <= s < count,
        0 <= b < 256,
        s == 0 ==> fallback == 0,
        s > 0 ==> {
            &&& fail[s] < s
            &&& longest_in(labels, fail[s] as int, labels[s].skip(1))
            &&& fallback == entry256(delta, fail[s] as int, b)
            &&& longest_in(labels, fallback as int, labels[fail[s] as int].push(b as u8))
        },
    ensures
        forall|u: int|
            0 <= u < count && #[trigger] is_suffix(labels[u], labels[s].push(b as u8).skip(1)) ==> labels[u].len()
                <= labels[fallback as int].len(),
{
    let w = labels[s].push(b as u8);
    assert forall|u: int| 0 <= u < count && #[trigger] is_suffix(labels[u], w.skip(1)) implies labels[u].len()
        <= labels[fallback as int].len() by {
        if labels[u].len() > 0 {
            lemma_suffix_skip(labels[u], w);
            let (r, c) = lemma_parent_label(go, count, labels, u);
            lemma_suffix_pop(labels[u], labels[s], b as u8);
            assert(labels[r] =~= labels[u].drop_last());
            assert(c as u8 == b as u8);
            let f = fail[s] as int;
            lemma_suffix_skip(labels[r], labels[s]);
            assert(labels[r].len() <= labels[f].len());
            lemma_suffix_skip(labels[f], labels[s]);
            lemma_suffix_of_longer(labels[r], labels[f], labels[s]);
            lemma_suffix_push(labels[r], labels[f], b as u8);
            assert(labels[r].push(b as u8) =~= labels[u]);
        }
    }
}

/// Without a trie edge on `b`, the fallback state has the longest state
/// string that ends the string of `s` extended by `b`.
proof fn lemma_missing_edge_longest(go: Seq<u32>, count: int, labels: Seq<Seq<u8>>, s: int, b: int, fallback: u32)
    requires
        trie_wf(go, count, labels),
        0 <= s < count,
        0 <= b < 256,
        entry256(go, s, b) == NO_MATCH,
        (fallback as int) < count,
        is_suffix(labels[fallback as int], labels[s].push(b as u8)),
        forall|u: int|
            0 <= u < count && #[trigger] is_suffix(labels[u], labels[s].push(b as u8).skip(1)) ==> labels[u].len()
                <= labels[fallback as int].len(),
    ensures
        longest_in(labels, fallback as int, labels[s].push(b as u8)),
{
    let w = labels[s].push(b as u8);
    assert forall|u: int| 0 <= u < count && #[trigger] is_suffix(labels[u], w) implies labels[u].len()
        <= labels[fallback as int].len() by {
        lemma_suffix_skip(labels[u], w);
        if labels[u].len() == w.len() {
            lemma_suffix_full(labels[u], w);
            let (r, c) = lemma_parent_label(go, count, labels, u);
            assert(labels[r] =~= labels[u].drop_last());
            assert(labels[s] =~= w.drop_last());
            lemma_labels_injective(go, count, labels, r, s);
            assert(labels[u].last() == c as u8);
            assert(w.last() == b as u8);
            assert(c == b);
            assert(entry256(go, s, b) == u);
            assert(false);
        }
    }
}

/// How the reported pattern and the output link of node `t` follow from
/// its own pattern and from its failure node.
pub open spec fn ap_link_rule(own: Seq<u32>, fail: Seq<u32>, ap: Seq<u32>, link: Seq<u32>, t: int) -> bool {
    let f = fail[t] as int;
    &&& ap[t] == if own[t] != NO_MATCH {
        own[t]
    } else {
        ap[f]
    }
    &&& link[t] == if own[t] != NO_MATCH {
        if ap[f] != NO_MATCH {
            fail[t]
        } else {
            NO_MATCH
        }
    } else {
        link[f]
    }
}

/// The facts the completion of the trie leaves behind: the pattern of each
/// node and its failure node (the node with the longest proper suffix of its
/// string), and how the reported pattern and the output link of each node
/// follow from those of its failure node.
pub open spec fn outputs_built(
    b: ScanModel,
    go: Seq<u32>,
    count: int,
    labels: Seq<Seq<u8>>,
    ps: Seq<Seq<u8>>,
    node_of: Seq<u32>,
    own: Seq<u32>,
    fail: Seq<u32>,
) -> bool {
    let ap = b.accept_pattern;
    let link = b.output_links;
    &&& trie_wf(go, count, labels)
    &&& ps.len() < u32::MAX
    &&& node_of.len() == ps.len()
    &&& forall|j: int| 0 <= j < ps.len() ==> {
        &&& #[trigger] node_of[j] < count
        &&& labels[node_of[j] as int] == ps[j]
        &&& ps[j].len() > 0 ==> own[node_of[j] as int] != NO_MATCH
    }
    &&& own.len() == count
    &&& fail.len() == count
    &&& ap.len() == count
    &&& link.len() == count
    &&& forall|t: int| 0 <= t < count && #[trigger] own[t] != NO_MATCH ==> own[t] < ps.len() && ps[own[t] as int] == labels[t]
    &&& forall|t: int| 0 < t < count ==> {
        &&& #[trigger] fail[t] < t
        &&& longest_in(labels, fail[t] as int, labels[t].skip(1))
        &&& ap_link_rule(own, fail, ap, link, t)
    }
    &&& ap[0] == NO_MATCH
    &&& link[0] == NO_MATCH
    &&& forall|t: int| 0 <= t < count ==> (#[trigger] link[t] == NO_MATCH || link[t] < t)
    &&& forall|t: int| 0 <= t < count && #[trigger] ap[t] == NO_MATCH ==> link[t] == NO_MATCH
}

/// The output chain of node `s` names every nonempty pattern that ends the
/// string of `s`.
proof fn lemma_reports_at(
    b: ScanModel,
    go: Seq<u32>,
    count: int,
    labels: Seq<Seq<u8>>,
    ps: Seq<Seq<u8>>,
    node_of: Seq<u32>,
    own: Seq<u32>,
    fail: Seq<u32>,
    s: int,
    i: int,
)
    requires
        outputs_built(b, go, count, labels, ps, node_of, own, fail),
        0 <= s < count,
        0 <= i < ps.len(),
        ps[i].len() > 0,
        is_suffix(ps[i], labels[s]),
    ensures
        exists|k: int|
            0 <= k < chain(b.output_links, s as u32, (s + 1) as nat).len() && #[trigger] reports(
                b,
                ps,
                chain(b.output_links, s as u32, (s + 1) as nat)[k],
                i,
            ),
    decreases s,
{
    let ap = b.accept_pattern;
    let link = b.output_links;
    let ch = chain(link, s as u32, (s + 1) as nat);
    if s == 0 {
        assert(labels[0].len() == 0);
    } else {
        let f = fail[s] as int;
        assert(fail[s] < s);
        let ls = labels[s];
        lemma_parent_label(go, count, labels, s);
        assert(ch == seq![s as u32] + chain(link, link[s], s as nat));
        assert(get_or(link, s as int, NO_MATCH) == link[s]);
        let v = node_of[i] as int;
        assert(labels[v] == ps[i]);
        if own[s] != NO_MATCH && ps[i] == ls {
            assert(reports(b, ps, ch[0], i));
        } else {
            if ps[i] == ls {
                lemma_labels_injective(go, count, labels, v, s);
                assert(false);
            }
            assert(ps[i].len() < ls.len()) by {
                if ps[i].len() == ls.len() {
                    lemma_suffix_full(ps[i], ls);
                }
            }
            lemma_suffix_skip(ps[i], ls);
            assert(is_suffix(labels[v], ls.skip(1)));
            assert(longest_in(labels, f, ls.skip(1)));
            assert(labels[v].len() <= labels[f].len());
            lemma_suffix_skip(labels[f], ls);
            lemma_suffix_of_longer(ps[i], labels[f], ls);
            lemma_reports_at(b, go, count, labels, ps, node_of, own, fail, f, i);
            let chf = chain(link, f as u32, (f + 1) as nat);
            let k1 = choose|k: int| 0 <= k < chf.len() && #[trigger] reports(b, ps, chf[k], i);
            assert(get_or(link, f, NO_MATCH) == link[f]);
            assert(chf == seq![f as u32] + chain(link, link[f], f as nat));
            if ap[f] == NO_MATCH {
                assert(link[f] == NO_MATCH);
                assert(chf.len() == 1);
                assert(chf[0] == f as u32);
                assert(false);
            }
            if own[s] != NO_MATCH {
                assert(link[s] == f as u32);
                lemma_chain_fuel(link, f as u32, s as nat, (f + 1) as nat);
                assert(ch[k1 + 1] == chf[k1]);
                assert(reports(b, ps, ch[k1 + 1], i));
            } else {
                assert(link[s] == link[f]);
                assert(ap[s] == ap[f]);
                if link[f] != NO_MATCH {
                    assert(link[f] < f);
                }
                lemma_chain_fuel(link, link[f], s as nat, f as nat);
                if k1 == 0 {
                    assert(chf[0] == f as u32);
                    assert(ch[0] == s as u32);
                    assert(reports(b, ps, ch[0], i));
                } else {
                    assert(ch[k1] == chf[k1]);
                    assert(reports(b, ps, ch[k1], i));
                }
            }
        }
    }
}

/// The completed trie makes the scanner complete for the patterns.
proof fn lemma_scanner_complete(
    b: ScanModel,
    go: Seq<u32>,
    count: int,
    labels: Seq<Seq<u8>>,
    ps: Seq<Seq<u8>>,
    node_of: Seq<u32>,
    own: Seq<u32>,
    fail: Seq<u32>,
)
    requires
        labelled(b, ps, labels),
        trie_wf(go, count, labels),
        ps.len() < u32::MAX,
        node_of.len() == ps.len(),
        forall|j: int| 0 <= j < ps.len() ==> {
            &&& #[trigger] node_of[j] < count
            &&& labels[node_of[j] as int] == ps[j]
            &&& ps[j].len() > 0 ==> own[node_of[j] as int] != NO_MATCH
        },
        own.len() == count,
        fail.len() == count,
        forall|t: int| 0 <= t < count && #[trigger] own[t] != NO_MATCH ==> own[t] < ps.len() && ps[own[t] as int] == labels[t],
        forall|r: int, c: int| 0 <= r < count && 0 <= c < 256 && #[trigger] entry256(go, r, c) != NO_MATCH ==> {
            let t = entry256(go, r, c) as int;
            &&& fail[t] < t
            &&& longest_in(labels, fail[t] as int, labels[t].skip(1))
        },
        forall|r: int, c: int|
            0 <= r < count && 0 <= c < 256 ==> longest_in(
                labels,
                #[trigger] entry256(b.transitions, r, c) as int,
                labels[r].push(c as u8),
            ),
        forall|t: int| 0 < t < count ==> #[trigger] ap_link_rule(own, fail, b.accept_pattern, b.output_links, t),
        b.accept_pattern[0] == NO_MATCH,
        b.output_links[0] == NO_MATCH,
        forall|t: int| 0 <= t < count ==> (#[trigger] b.output_links[t] == NO_MATCH || b.output_links[t] < t),
        forall|t: int| 0 <= t < count && #[trigger] b.accept_pattern[t] == NO_MATCH ==> b.output_links[t] == NO_MATCH,
    ensures
        complete_for(b, ps),
{
    assert forall|t: int| 0 < t < count implies {
        &&& #[trigger] fail[t] < t
        &&& longest_in(labels, fail[t] as int, labels[t].skip(1))
        &&& ap_link_rule(own, fail, b.accept_pattern, b.output_links, t)
    } by {
        let (r, c) = lemma_parent_label(go, count, labels, t);
        assert(entry256(go, r, c) != NO_MATCH);
    }
    assert(outputs_built(b, go, count, labels, ps, node_of, own, fail));
    assert(drop_closed(labels)) by {
        reveal(drop_closed);
        assert forall|t: int| 0 <= t < labels.len() && (#[trigger] labels[t]).len() > 0 implies is_label(
            labels,
            labels[t].drop_last(),
        ) by {
            if t > 0 {
                let (r, c) = lemma_parent_label(go, count, labels, t);
                assert(labels[r] =~= labels[t].drop_last());
            }
        }
    }
    assert(moves_longest(b, labels)) by {
        reveal(moves_longest);
    }
    assert(patterns_are_states(ps, labels)) by {
        reveal(patterns_are_states);
        assert forall|i: int| 0 <= i < ps.len() && (#[trigger] ps[i]).len() > 0 implies is_label(labels, ps[i]) by {
            assert(labels[node_of[i] as int] == ps[i]);
        }
    }
    assert(links_descend(b)) by {
        reveal(links_descend);
    }
    assert(chains_report(b, ps, labels)) by {
        reveal(chains_report);
        assert forall|s: int, i: int|
            0 <= s < labels.len() && 0 <= i < ps.len() && ps[i].len() > 0 && #[trigger] is_suffix(ps[i], labels[s])
            implies exists|k: int|
            0 <= k < chain(b.output_links, s as u32, (s + 1) as nat).len() && #[trigger] reports(
                b,
                ps,
                chain(b.output_links, s as u32, (s + 1) as nat)[k],
                i,
            ) by {
            lemma_reports_at(b, go, count, labels, ps, node_of, own, fail, s, i);
        }
    }
    assert(complete_with(b, ps, labels)) by {
        reveal(complete_with);
    }
}

/// The pattern lengths as `u32`.
fn pattern_lengths_of(patterns: &[&[u8]]) -> (r: Vec<u32>)
    ensures
        r@.len() == patterns@.len(),
        forall|i: int| 0 <= i < patterns@.len() ==> #[trigger] r@[i] == (patterns@[i]@.len() as u32),
{
    let mut r: Vec<u32> = Vec::with_capacity(patterns.len());
    let mut i: usize = 0;
    while i < patterns.len()
        invariant
            i <= patterns@.len(),
            r@.len() == i,
            forall|j: int| 0 <= j < i ==> #[trigger] r@[j] == (patterns@[j]@.len() as u32),
        decreases patterns@.len() - i,
    {
        r.push(patterns[i].len() as u32);
        i += 1;
    }
    r
}

/// Builds the scanner for a set of literal patterns. Empty patterns never
/// match. Fails with `TooManyStates` once the trie of the patterns would need
/// more than `MAX_STATES` states.
pub(crate) fn build_pattern_scanner(patterns: &[&[u8]]) -> (r: Result<(ExecutableBuffer, usize), Error>)
    requires
        0 < patterns@.len() < u32::MAX,
    ensures
        r matches Ok((buf, n)) ==> {
            &&& n == trie_size(pattern_views(patterns@))
            &&& sound_for(buf@, pattern_views(patterns@))
            &&& complete_for(buf@, pattern_views(patterns@))
            &&& first_ids(buf@, pattern_views(patterns@))
            &&& links_shorten(buf@, pattern_views(patterns@))
            &&& forall|input: Seq<u8>| input.len() <= u32::MAX ==> #[trigger] scan_events(buf@, input).no_duplicates()
            &&& links_ok(buf@.output_links)
            &&& buf@.accept_pattern.len() == n
            &&& buf@.output_links.len() == n
            &&& buf@.pattern_lengths.len() == patterns@.len()
            &&& forall|i: int| 0 <= i < patterns@.len() ==> #[trigger] buf@.pattern_lengths[i] == (
            patterns@[i]@.len() as u32)
        },
        r matches Err(e) ==> (e matches Error::TooManyStates { states, max } && states > max && max == 65_536
            && trie_size(pattern_views(patterns@)) > 65_536),
{
    let ghost ps = pattern_views(patterns@);
    let (go, count, node_of, Ghost(labels)) = match build_trie(patterns) {
        Ok(t) => t,
        Err(e) => {
            return Err(e);
        },
    };
    let np = patterns.len();
    // The pattern that ends exactly at each node.
    let mut own: Vec<u32> = vec![NO_MATCH; count];
    let mut i: usize = 0;
    while i < np
        invariant
            np == patterns@.len(),
            np < u32::MAX,
            ps == pattern_views(patterns@),
            trie_wf(go@, count as int, labels),
            node_of@.len() == np,
            forall|j: int| 0 <= j < np ==> {
                &&& #[trigger] node_of@[j] < count
                &&& labels[node_of@[j] as int] == patterns@[j]@
            },
            own@.len() == count,
            i <= np,
            forall|t: int| 0 <= t < count && #[trigger] own@[t] != NO_MATCH ==> {
                &&& own@[t] < np
                &&& ps[own@[t] as int] == labels[t]
                &&& is_first(ps, own@[t] as int)
            },
            forall|j: int| 0 <= j < i && patterns@[j]@.len() > 0 ==> own@[#[trigger] node_of@[j] as int] != NO_MATCH,
        decreases np - i,
    {
        let ghost old_own = own@;
        if patterns[i].len() > 0 {
            let t = node_of[i] as usize;
            if own[t] == NO_MATCH {
                proof {
                    assert forall|j: int| 0 <= j < i implies #[trigger] ps[j] != ps[i as int] by {
                        if ps[j] == ps[i as int] {
                            let v = node_of@[j] as int;
                            assert(labels[v] == labels[t as int]);
                            lemma_labels_injective(go@, count as int, labels, v, t as int);
                            assert(old_own[node_of@[j] as int] != NO_MATCH);
                        }
                    }
                }
                own.set(t, i as u32);
            }
        }
        proof {
            assert forall|j: int| 0 <= j < i + 1 && patterns@[j]@.len() > 0 implies own@[#[trigger] node_of@[j] as int]
                != NO_MATCH by {
                if j < i {
                    assert(old_own[node_of@[j] as int] != NO_MATCH);
                }
            }
        }
        i += 1;
    }
    // Complete the trie into a DFA, row by row in node order.
    let mut delta: Vec<u32> = vec![0; count * 256];
    let mut fail: Vec<u32> = vec![0; count];
    let mut ap: Vec<u32> = vec![NO_MATCH; count];
    let mut link: Vec<u32> = vec![NO_MATCH; count];
    let mut s: usize = 0;
    while s < count
        invariant
            ps == pattern_views(patterns@),
            np == patterns@.len(),
            trie_wf(go@, count as int, labels),
            own@.len() == count,
            forall|t: int| 0 <= t < count && #[trigger] own@[t] != NO_MATCH ==> {
                &&& own@[t] < np
                &&& ps[own@[t] as int] == labels[t]
                &&& is_first(ps, own@[t] as int)
            },
            delta@.len() == count * 256,
            fail@.len() == count,
            ap@.len() == count,
            link@.len() == count,
            s <= count,
            forall|r: int, c: int| 0 <= r < s && 0 <= c < 256 ==> {
                &&& #[trigger] entry256(delta@, r, c) < count
                &&& longest_in(labels, entry256(delta@, r, c) as int, labels[r].push(c as u8))
            },
            forall|r: int, c: int| 0 <= r < s && 0 <= c < 256 && #[trigger] entry256(go@, r, c) != NO_MATCH ==> {
                let t = entry256(go@, r, c) as int;
                &&& fail@[t] < t
                &&& longest_in(labels, fail@[t] as int, labels[t].skip(1))
            },
            forall|t: int| 0 < t < s ==> #[trigger] fail@[t] < t,
            forall|t: int| 0 <= t < s && #[trigger] ap@[t] != NO_MATCH ==> {
                &&& ap@[t] < np
                &&& is_suffix(ps[ap@[t] as int], labels[t])
                &&& is_first(ps, ap@[t] as int)
            },
            forall|t: int| 0 <= t < s && #[trigger] link@[t] != NO_MATCH ==> {
                &&& link@[t] < t
                &&& ap@[link@[t] as int] != NO_MATCH
                &&& is_suffix(labels[link@[t] as int], labels[t])
                &&& ps[ap@[link@[t] as int] as int].len() < ps[ap@[t] as int].len()
            },
            forall|t: int| s <= t < count ==> #[trigger] ap@[t] == NO_MATCH,
            forall|t: int| s <= t < count ==> #[trigger] link@[t] == NO_MATCH,
            forall|t: int| 0 <= t < s && #[trigger] ap@[t] == NO_MATCH ==> link@[t] == NO_MATCH,
            forall|t: int| 0 < t < s ==> #[trigger] ap_link_rule(own@, fail@, ap@, link@, t),
            ap@[0] == NO_MATCH,
            link@[0] == NO_MATCH,
        decreases count - s,
    {
        let ghost old_ap = ap@;
        let ghost old_link = link@;
        if s > 0 {
            proof {
                let (r, c) = lemma_parent_label(go@, count as int, labels, s as int);
                assert(entry256(go@, r, c) != NO_MATCH);
            }
            let f = fail[s] as usize;
            proof {
                assert(f < s);
                lemma_suffix_skip(labels[f as int], labels[s as int]);
                assert(is_suffix(labels[f as int], labels[s as int]));
                lemma_suffix_refl(labels[s as int]);
            }
            if own[s] != NO_MATCH {
                ap.set(s, own[s]);
                if ap[f] != NO_MATCH {
                    link.set(s, f as u32);
                    assert(link@[s as int] < s && ap@[link@[s as int] as int] != NO_MATCH && is_suffix(
                        labels[link@[s as int] as int],
                        labels[s as int],
                    ));
                    assert(ps[ap@[f as int] as int].len() <= labels[f as int].len());
                    assert(ps[ap@[link@[s as int] as int] as int].len() < ps[ap@[s as int] as int].len());
                } else {
                    assert(old_link[s as int] == NO_MATCH);
                }
            } else {
                let af = ap[f];
                let lf = link[f];
                proof {
                    if af != NO_MATCH {
                        lemma_suffix_trans(ps[af as int], labels[f as int], labels[s as int]);
                    }
                    if lf != NO_MATCH {
                        assert(lf < f);
                        lemma_suffix_trans(labels[lf as int], labels[f as int], labels[s as int]);
                    }
                }
                ap.set(s, af);
                link.set(s, lf);
                assert(link@[s as int] == NO_MATCH || (link@[s as int] < s && ap@[link@[s as int] as int]
                    != NO_MATCH && is_suffix(labels[link@[s as int] as int], labels[s as int])));
                if lf != NO_MATCH {
                    assert(old_ap[lf as int] == ap@[lf as int]);
                    assert(ps[ap@[link@[s as int] as int] as int].len() < ps[ap@[s as int] as int].len());
                }
            }
            proof {
                assert forall|t: int| 0 <= t < s implies ap@[t] == old_ap[t] && link@[t] == old_link[t] by {}
                assert(ap_link_rule(own@, fail@, ap@, link@, s as int));
            }
        }
        proof {
            assert forall|t: int| 0 <= t < s + 1 && #[trigger] ap@[t] != NO_MATCH implies {
                &&& ap@[t] < np
                &&& is_suffix(ps[ap@[t] as int], labels[t])
                &&& is_first(ps, ap@[t] as int)
            } by {
                if t < s {
                    assert(old_ap[t] == ap@[t]);
                }
            }
            assert forall|t: int| 0 <= t < s + 1 && #[trigger] link@[t] != NO_MATCH implies {
                &&& link@[t] < t
                &&& ap@[link@[t] as int] != NO_MATCH
                &&& is_suffix(labels[link@[t] as int], labels[t])
                &&& ps[ap@[link@[t] as int] as int].len() < ps[ap@[t] as int].len()
            } by {
                if t < s {
                    assert(old_link[t] == link@[t]);
                    assert(old_ap[link@[t] as int] == ap@[link@[t] as int]);
                }
            }
            assert forall|t: int| s + 1 <= t < count implies #[trigger] ap@[t] == NO_MATCH by {
                assert(old_ap[t] == ap@[t]);
            }
            assert forall|t: int| s + 1 <= t < count implies #[trigger] link@[t] == NO_MATCH by {
                assert(old_link[t] == link@[t]);
            }
            assert forall|t: int| 0 <= t < s + 1 && #[trigger] ap@[t] == NO_MATCH implies link@[t] == NO_MATCH by {
                if t < s {
                    assert(old_ap[t] == ap@[t]);
                    assert(old_link[t] == link@[t]);
                }
            }
            assert forall|t: int| 0 < t < s + 1 implies #[trigger] ap_link_rule(own@, fail@, ap@, link@, t) by {
                if t < s {
                    assert(ap_link_rule(own@, fail@, old_ap, old_link, t));
                    assert(fail@[t] < t);
                    assert(old_ap[fail@[t] as int] == ap@[fail@[t] as int]);
                    assert(old_link[fail@[t] as int] == link@[fail@[t] as int]);
                    assert(old_ap[t] == ap@[t]);
                    assert(old_link[t] == link@[t]);
                }
            }
        }
        let mut b: usize = 0;
        while b < 256
            invariant
                ps == pattern_views(patterns@),
                np == patterns@.len(),
                trie_wf(go@, count as int, labels),
                own@.len() == count,
                delta@.len() == count * 256,
                fail@.len() == count,
                ap@.len() == count,
                link@.len() == count,
                forall|t: int| 0 <= t < s + 1 && #[trigger] ap@[t] != NO_MATCH ==> {
                    &&& ap@[t] < np
                    &&& is_suffix(ps[ap@[t] as int], labels[t])
                    &&& is_first(ps, ap@[t] as int)
                },
                forall|t: int| 0 <= t < s + 1 && #[trigger] link@[t] != NO_MATCH ==> {
                    &&& link@[t] < t
                    &&& ap@[link@[t] as int] != NO_MATCH
                    &&& is_suffix(labels[link@[t] as int], labels[t])
                    &&& ps[ap@[link@[t] as int] as int].len() < ps[ap@[t] as int].len()
                },
                forall|t: int| s + 1 <= t < count ==> #[trigger] ap@[t] == NO_MATCH,
                forall|t: int| s + 1 <= t < count ==> #[trigger] link@[t] == NO_MATCH,
                forall|t: int| 0 <= t < s + 1 && #[trigger] ap@[t] == NO_MATCH ==> link@[t] == NO_MATCH,
                forall|t: int| 0 < t < s + 1 ==> #[trigger] fail@[t] < t,
                forall|t: int| 0 < t < s + 1 ==> #[trigger] ap_link_rule(own@, fail@, ap@, link@, t),
                ap@[0] == NO_MATCH,
                link@[0] == NO_MATCH,
                s < count,
                b <= 256,
                s > 0 ==> {
                    &&& fail@[s as int] < s
                    &&& longest_in(labels, fail@[s as int] as int, labels[s as int].skip(1))
                },
                forall|r: int, c: int| 0 <= r < s && 0 <= c < 256 ==> {
                    &&& #[trigger] entry256(delta@, r, c) < count
                    &&& longest_in(labels, entry256(delta@, r, c) as int, labels[r].push(c as u8))
                },
                forall|c: int| 0 <= c < b ==> {
                    &&& #[trigger] entry256(delta@, s as int, c) < count
                    &&& longest_in(labels, entry256(delta@, s as int, c) as int, labels[s as int].push(c as u8))
                },
                forall|r: int, c: int|
                    ((0 <= r < s && 0 <= c < 256) || (r == s && 0 <= c < b)) && #[trigger] entry256(go@, r, c)
                        != NO_MATCH ==> {
                        let t = entry256(go@, r, c) as int;
                        &&& fail@[t] < t
                        &&& longest_in(labels, fail@[t] as int, labels[t].skip(1))
                    },
            decreases 256 - b,
        {
            let idx = s * 256 + b;
            let child = go[idx];
            let ghost old_delta = delta@;
            let ghost old_fail = fail@;
            // The state reached from the failure state on the same byte.
            let fallback: u32 = if s == 0 {
                0
            } else {
                let f = fail[s] as usize;
                proof {
                    assert(entry256(delta@, f as int, b as int) < count);
                }
                delta[f * 256 + b]
            };
            proof {
                if s == 0 {
                    lemma_suffix_empty(labels[s as int].push(b as u8));
                } else {
                    let f = fail@[s as int] as int;
                    assert(fallback == entry256(delta@, f, b as int));
                    lemma_parent_label(go@, count as int, labels, s as int);
                    lemma_suffix_skip(labels[f], labels[s as int]);
                    lemma_suffix_push(labels[f], labels[s as int], b as u8);
                    lemma_suffix_trans(labels[fallback as int], labels[f].push(b as u8), labels[s as int].push(b as u8));
                    assert(labels[fallback as int].len() <= labels[s as int].len());
                }
                assert(is_suffix(labels[fallback as int], labels[s as int].push(b as u8)));
                assert(labels[fallback as int].len() <= labels[s as int].len());
                lemma_fallback_longest(go@, count as int, labels, delta@, fail@, s as int, b as int, fallback);
            }
            if child != NO_MATCH {
                proof {
                    assert(entry256(go@, s as int, b as int) == child);
                    assert(labels[child as int] == labels[s as int].push(b as u8));
                    lemma_suffix_skip(labels[fallback as int], labels[child as int]);
                    assert(longest_in(labels, fallback as int, labels[child as int].skip(1)));
                }
                fail.set(child as usize, fallback);
                delta.set(idx, child);
                proof {
                    lemma_suffix_refl(labels[child as int]);
                    assert(longest_in(labels, child as int, labels[s as int].push(b as u8)));
                    assert forall|r: int, c: int|
                        ((0 <= r < s && 0 <= c < 256) || (r == s && 0 <= c < b + 1)) && #[trigger] entry256(go@, r, c)
                            != NO_MATCH implies {
                            let t = entry256(go@, r, c) as int;
                            &&& fail@[t] < t
                            &&& longest_in(labels, fail@[t] as int, labels[t].skip(1))
                        } by {
                        if !(r == s && c == b) {
                            if entry256(go@, r, c) == child {
                                assert(entry256(go@, s as int, b as int) == child);
                            }
                            assert(fail@[entry256(go@, r, c) as int] == old_fail[entry256(go@, r, c) as int]);
                        }
                    }
                    assert forall|t: int| 0 <= t < s + 1 implies #[trigger] fail@[t] == old_fail[t] by {}
                    assert forall|t: int| 0 < t < s + 1 implies #[trigger] ap_link_rule(own@, fail@, ap@, link@, t) by {
                        assert(ap_link_rule(own@, old_fail, ap@, link@, t));
                        assert(fail@[t] == old_fail[t]);
                    }
                }
            } else {
                proof {
                    lemma_missing_edge_longest(go@, count as int, labels, s as int, b as int, fallback);
                }
                delta.set(idx, fallback);
            }
            proof {
                assert forall|r: int, c: int| 0 <= r < s && 0 <= c < 256 implies #[trigger] entry256(delta@, r, c)
                    == entry256(old_delta, r, c) by {
                    assert(r * 256 + c != s * 256 + b);
                }
                assert forall|c: int| 0 <= c < b + 1 implies {
                    &&& #[trigger] entry256(delta@, s as int, c) < count
                    &&& longest_in(labels, entry256(delta@, s as int, c) as int, labels[s as int].push(c as u8))
                } by {
                    if c < b {
                        assert(entry256(delta@, s as int, c) == entry256(old_delta, s as int, c));
                    }
                }
            }
            b += 1;
        }
        s += 1;
    }
    let lengths = pattern_lengths_of(patterns);
    let mut accepts: Vec<(u32, u32)> = Vec::new();
    let mut t: usize = 0;
    while t < count
        invariant
            ap@.len() == count,
            count <= 65_536,
            t <= count,
        decreases count - t,
    {
        if ap[t] != NO_MATCH {
            accepts.push((t as u32, ap[t]));
            assert(t <= 65_536);
        }
        t += 1;
    }
    proof {
        assert forall|x: int| 0 <= x < link@.len() implies #[trigger] link@[x] == NO_MATCH || link@[x] < x by {}
        lemma_links_descend(link@);
    }
    let table = TransitionTable::assemble(count, 256, delta, accepts, lengths);
    let buf = buffer_from_parts(table, ap, link);
    proof {
        assert(labelled(buf@, ps, labels));
        lemma_scanner_complete(buf@, go@, count as int, labels, ps, node_of@, own@, fail@);
        assert(links_shorten(buf@, ps));
        assert forall|input: Seq<u8>| input.len() <= u32::MAX implies #[trigger] scan_events(buf@, input).no_duplicates() by {
            lemma_reports_once(buf@, ps, input);
        }
    }
    Ok((buf, count))
}

// ---------------------------------------------------------------------------
// Soundness of the reported matches.
// ---------------------------------------------------------------------------

proof fn lemma_mask_below(x: u32)
    requires
        x < 0x8000_0000,
    ensures
        x & 0x7FFF_FFFFu32 == x,
{
    assert(x < 0x8000_0000 ==> x & 0x7FFF_FFFFu32 == x) by (bit_vector);
}

/// Every state on the output chain of an accepting state has a pattern and
/// a string that ends the accepting state's string.
proof fn lemma_chain_labels(b: ScanModel, ps: Seq<Seq<u8>>, labels: Seq<Seq<u8>>, s: u32, fuel: nat)
    requires
        labelled(b, ps, labels),
        (s as int) < labels.len(),
        b.accept_pattern[s as int] != NO_MATCH,
    ensures
        forall|j: int| 0 <= j < chain(b.output_links, s, fuel).len() ==> {
            let c = #[trigger] chain(b.output_links, s, fuel)[j];
            &&& (c as int) < labels.len()
            &&& b.accept_pattern[c as int] != NO_MATCH
            &&& is_suffix(labels[c as int], labels[s as int])
        },
    decreases fuel,
{
    let ch = chain(b.output_links, s, fuel);
    if fuel > 0 {
        let l = b.output_links[s as int];
        assert(get_or(b.output_links, s as int, NO_MATCH) == l);
        lemma_suffix_refl(labels[s as int]);
        let rest = chain(b.output_links, l, (fuel - 1) as nat);
        assert(ch == seq![s] + rest);
        if l != NO_MATCH {
            lemma_chain_labels(b, ps, labels, l, (fuel - 1) as nat);
            assert forall|j: int| 0 <= j < ch.len() implies {
                let c = #[trigger] ch[j];
                &&& (c as int) < labels.len()
                &&& b.accept_pattern[c as int] != NO_MATCH
                &&& is_suffix(labels[c as int], labels[s as int])
            } by {
                if j > 0 {
                    assert(ch[j] == rest[j - 1]);
                    lemma_suffix_trans(labels[ch[j] as int], labels[l as int], labels[s as int]);
                }
            }
        } else {
            assert(rest == Seq::<u32>::empty());
        }
    }
}

/// The state of a run stands for a string that ends the input read so far,
/// and every match reported names a pattern that ends at its end offset.
proof fn lemma_run_labels(b: ScanModel, ps: Seq<Seq<u8>>, labels: Seq<Seq<u8>>, input: Seq<u8>)
    requires
        labelled(b, ps, labels),
        input.len() <= u32::MAX,
    ensures
        (run(b, input).0 as int) < labels.len(),
        is_suffix(labels[run(b, input).0 as int], input),
        forall|i: int| 0 <= i < run(b, input).1.len() ==> {
            let e = #[trigger] run(b, input).1[i];
            &&& e.0 < ps.len()
            &&& e.1 <= input.len()
            &&& is_suffix(ps[e.0 as int], input.take(e.1 as int))
        },
    decreases input.len(),
{
    if input.len() == 0 {
        lemma_suffix_empty(input);
    } else {
        let w = input.drop_last();
        let x = input.last();
        lemma_run_labels(b, ps, labels, w);
        let (st, ev) = run(b, w);
        let n = labels.len();
        assert(0 <= st * 256 + x < n * 256) by (nonlinear_arith)
            requires
                0 <= st < n,
                0 <= x < 256,
        ;
        let t = entry256(b.transitions, st as int, x as int);
        assert(t < n);
        lemma_mask_below(t);
        let nx = next_state(b.transitions, b.class_count, st, x);
        assert(nx == t);
        lemma_suffix_push(labels[st as int], w, x);
        assert(w.push(x) == input);
        lemma_suffix_trans(labels[nx as int], labels[st as int].push(x), input);
        assert forall|i: int| 0 <= i < ev.len() implies {
            let e = #[trigger] ev[i];
            &&& e.1 <= input.len()
            &&& is_suffix(ps[e.0 as int], input.take(e.1 as int))
        } by {
            let e = ev[i];
            assert(w.take(e.1 as int) == input.take(e.1 as int));
        }
        if get_or(b.accept_pattern, nx as int, NO_MATCH) == NO_MATCH {
        } else {
            lemma_suffix_empty(input);
            let end = input.len() as u32;
            let fuel = (b.output_links.len() + 1) as nat;
            lemma_chain_labels(b, ps, labels, nx, fuel);
            let ch = chain(b.output_links, nx, fuel);
            let evs = events_at(b, nx, end);
            let all = ev + evs;
            assert(input.take(end as int) == input);
            assert forall|i: int| 0 <= i < all.len() implies {
                let e = #[trigger] all[i];
                &&& e.0 < ps.len()
                &&& e.1 <= input.len()
                &&& is_suffix(ps[e.0 as int], input.take(e.1 as int))
            } by {
                if i >= ev.len() {
                    let c = ch[i - ev.len()];
                    assert(all[i] == evs[i - ev.len()]);
                    assert(evs[i - ev.len()] == (get_or(b.accept_pattern, c as int, 0), end));
                    let pid = b.accept_pattern[c as int];
                    lemma_suffix_trans(ps[pid as int], labels[c as int], labels[nx as int]);
                    lemma_suffix_trans(ps[pid as int], labels[nx as int], input);
                } else {
                    assert(all[i] == ev[i]);
                }
            }
        }
    }
}

/// Law: a scanner built for the patterns `ps` reports only real matches: for
/// every reported (pattern, end), that pattern occurs in the input ending at
/// `end`.
pub proof fn lemma_pattern_matches_sound(b: ScanModel, ps: Seq<Seq<u8>>, input: Seq<u8>)
    requires
        sound_for(b, ps),
        input.len() <= u32::MAX,
    ensures
        forall|i: int| 0 <= i < scan_events(b, input).len() ==> {
            let e = #[trigger] scan_events(b, input)[i];
            &&& e.0 < ps.len()
            &&& e.1 <= input.len()
            &&& is_suffix(ps[e.0 as int], input.take(e.1 as int))
        },
{
    let labels = choose|labels: Seq<Seq<u8>>| labelled(b, ps, labels);
    lemma_run_labels(b, ps, labels, input);
}

/// Law: every match that a scanner built for the patterns `ps` reports spans
/// an occurrence of its pattern: the input bytes from its start to its end
/// are that pattern.
pub proof fn lemma_literal_match_spans(b: ScanModel, ps: Seq<Seq<u8>>, input: Seq<u8>)
    requires
        sound_for(b, ps),
        b.pattern_lengths.len() == ps.len(),
        forall|i: int| 0 <= i < ps.len() ==> #[trigger] b.pattern_lengths[i] == ps[i].len() as u32,
        input.len() <= u32::MAX,
    ensures
        forall|k: int| 0 <= k < scan_events(b, input).len() ==> {
            let m = to_match(b, #[trigger] scan_events(b, input)[k]);
            &&& m.pattern_id < ps.len()
            &&& m.start <= m.end <= input.len()
            &&& input.subrange(m.start as int, m.end as int) == ps[m.pattern_id as int]
        },
{
    lemma_pattern_matches_sound(b, ps, input);
    let ev = scan_events(b, input);
    assert forall|k: int| 0 <= k < ev.len() implies {
        let m = to_match(b, #[trigger] ev[k]);
        &&& m.pattern_id < ps.len()
        &&& m.start <= m.end <= input.len()
        &&& input.subrange(m.start as int, m.end as int) == ps[m.pattern_id as int]
    } by {
        let e = ev[k];
        let p = ps[e.0 as int];
        let w = input.take(e.1 as int);
        assert(is_suffix(p, w));
        assert(get_or(b.pattern_lengths, e.0 as int, 0) == p.len() as u32);
        assert(p.len() as u32 == p.len());
        assert(input.subrange(e.1 - p.len(), e.1 as int) =~= w.subrange(w.len() - p.len(), w.len() as int));
    }
}

// ---------------------------------------------------------------------------
// Completeness of the reported matches.
// ---------------------------------------------------------------------------

/// Where the scan of `input` last restarted: the number of bytes read when it
/// last reported matches, or 0.
pub open spec fn restart(b: ScanModel, input: Seq<u8>) -> int
    decreases input.len(),
{
    if input.len() == 0 {
        0
    } else {
        let st = run(b, input.drop_last()).0;
        let nx = next_state(b.transitions, b.class_count, st, input.last());
        if get_or(b.accept_pattern, nx as int, NO_MATCH) == NO_MATCH {
            restart(b, input.drop_last())
        } else {
            input.len() as int
        }
    }
}

/// After reading `w`, the scan is in the state with the longest string that
/// ends what it read since its last restart; a restart after `k > 0` bytes
/// reported a match at `k`.
proof fn lemma_run_longest(b: ScanModel, ps: Seq<Seq<u8>>, labels: Seq<Seq<u8>>, w: Seq<u8>)
    requires
        complete_with(b, ps, labels),
        w.len() <= u32::MAX,
    ensures
        0 <= restart(b, w) <= w.len(),
        longest_in(labels, run(b, w).0 as int, w.subrange(restart(b, w), w.len() as int)),
        restart(b, w) > 0 ==> exists|k: int| 0 <= k < run(b, w).1.len() && #[trigger] run(b, w).1[k].1 == restart(b, w),
    decreases w.len(),
{
    reveal(complete_with);
    reveal(drop_closed);
    reveal(moves_longest);
    let n = labels.len();
    if w.len() == 0 {
        assert(w.subrange(0, 0) =~= Seq::<u8>::empty());
        lemma_suffix_empty(Seq::<u8>::empty());
    } else {
        let u = w.drop_last();
        let x = w.last();
        lemma_run_longest(b, ps, labels, u);
        let (st, ev) = run(b, u);
        let k = restart(b, u);
        let uk = u.subrange(k, u.len() as int);
        assert(0 <= st * 256 + x < n * 256) by (nonlinear_arith)
            requires
                0 <= st < n,
                0 <= x < 256,
        ;
        let t = entry256(b.transitions, st as int, x as int);
        assert(t < n);
        lemma_mask_below(t);
        let nx = next_state(b.transitions, b.class_count, st, x);
        assert(nx == t);
        if get_or(b.accept_pattern, nx as int, NO_MATCH) == NO_MATCH {
            assert(run(b, w) == (t, ev));
            if k > 0 {
                let j = choose|j: int| 0 <= j < ev.len() && #[trigger] ev[j].1 == k;
                assert(run(b, w).1[j] == ev[j]);
            }
            assert(w.subrange(k, w.len() as int) =~= uk.push(x));
            assert(longest_in(labels, t as int, labels[st as int].push(x)));
            lemma_suffix_push(labels[st as int], uk, x);
            lemma_suffix_trans(labels[t as int], labels[st as int].push(x), uk.push(x));
            assert forall|v: int| 0 <= v < n && #[trigger] is_suffix(labels[v], uk.push(x)) implies labels[v].len()
                <= labels[t as int].len() by {
                if labels[v].len() > 0 {
                    lemma_suffix_pop(labels[v], uk, x);
                    assert(is_label(labels, labels[v].drop_last()));
                    let r = choose|r: int| 0 <= r < n && #[trigger] labels[r] == labels[v].drop_last();
                    assert(labels[r].len() <= labels[st as int].len());
                    lemma_suffix_of_longer(labels[r], labels[st as int], uk);
                    lemma_suffix_push(labels[r], labels[st as int], x);
                    assert(labels[r].push(x) =~= labels[v]);
                }
            }
        } else {
            assert(w.subrange(w.len() as int, w.len() as int) =~= Seq::<u8>::empty());
            lemma_suffix_empty(Seq::<u8>::empty());
            let fuel = (b.output_links.len() + 1) as nat;
            let ch = chain(b.output_links, nx, fuel);
            assert(nx != NO_MATCH);
            assert(ch == seq![nx] + chain(b.output_links, get_or(b.output_links, nx as int, NO_MATCH), (fuel - 1) as nat));
            assert(ch.len() >= 1);
            let evs = events_at(b, nx, w.len() as u32);
            assert(evs.len() == ch.len());
            assert(evs[0].1 == w.len() as u32);
            assert(restart(b, w) == w.len());
            assert(run(b, w).1 == ev + evs);
            assert(run(b, w).1[ev.len() as int] == evs[0]);
        }
    }
}

/// A nonempty state string that ends `z + x`, where state `st` has the
/// longest state string ending `z`, ends the string of the state that `st`
/// moves to on `x`.
proof fn lemma_ends_next_state(b: ScanModel, ps: Seq<Seq<u8>>, labels: Seq<Seq<u8>>, st: u32, z: Seq<u8>, x: u8, v: int)
    requires
        complete_with(b, ps, labels),
        longest_in(labels, st as int, z),
        0 <= v < labels.len(),
        labels[v].len() > 0,
        is_suffix(labels[v], z.push(x)),
    ensures
        (next_state(b.transitions, b.class_count, st, x) as int) < labels.len(),
        is_suffix(labels[v], labels[next_state(b.transitions, b.class_count, st, x) as int]),
{
    reveal(complete_with);
    reveal(drop_closed);
    reveal(moves_longest);
    let n = labels.len();
    assert(is_label(labels, labels[v].drop_last()));
    let r = choose|r: int| 0 <= r < n && #[trigger] labels[r] == labels[v].drop_last();
    lemma_suffix_pop(labels[v], z, x);
    assert(labels[r].len() <= labels[st as int].len());
    lemma_suffix_of_longer(labels[r], labels[st as int], z);
    lemma_suffix_push(labels[r], labels[st as int], x);
    assert(labels[r].push(x) =~= labels[v]);
    assert(0 <= st * 256 + x < n * 256) by (nonlinear_arith)
        requires
            0 <= st < n,
            0 <= x < 256,
    ;
    let t = entry256(b.transitions, st as int, x as int);
    assert(t < n);
    lemma_mask_below(t);
    assert(next_state(b.transitions, b.class_count, st, x) == t);
    assert(longest_in(labels, t as int, labels[st as int].push(x)));
    lemma_suffix_of_longer(labels[v], labels[t as int], labels[st as int].push(x));
}

/// A state whose string a nonempty pattern ends is accepting, and its output
/// chain names that pattern.
proof fn lemma_state_reports(b: ScanModel, ps: Seq<Seq<u8>>, labels: Seq<Seq<u8>>, nx: u32, i: int) -> (k1: int)
    requires
        complete_with(b, ps, labels),
        (nx as int) < labels.len(),
        0 <= i < ps.len(),
        ps[i].len() > 0,
        is_suffix(ps[i], labels[nx as int]),
    ensures
        get_or(b.accept_pattern, nx as int, NO_MATCH) != NO_MATCH,
        0 <= k1 < chain(b.output_links, nx, (b.output_links.len() + 1) as nat).len(),
        reports(b, ps, chain(b.output_links, nx, (b.output_links.len() + 1) as nat)[k1], i),
{
    let links = b.output_links;
    let chn = chain(links, nx, (nx + 1) as nat);
    assert({
        &&& links.len() == labels.len()
        &&& b.accept_pattern.len() == labels.len()
        &&& ps.len() < u32::MAX
        &&& chains_report(b, ps, labels)
        &&& links_descend(b)
    }) by {
        reveal(complete_with);
    }
    assert(exists|k1: int| 0 <= k1 < chn.len() && #[trigger] reports(b, ps, chn[k1], i)) by {
        reveal(chains_report);
    }
    assert(forall|y: int| 0 <= y < links.len() ==> (#[trigger] links[y] == NO_MATCH || links[y] < y)) by {
        reveal(links_descend);
    }
    assert(b.accept_pattern[nx as int] == NO_MATCH ==> links[nx as int] == NO_MATCH) by {
        reveal(links_descend);
    }
    let k1 = choose|k1: int| 0 <= k1 < chn.len() && #[trigger] reports(b, ps, chn[k1], i);
    assert(get_or(links, nx as int, NO_MATCH) == links[nx as int]);
    assert(chn == seq![nx] + chain(links, links[nx as int], nx as nat));
    if b.accept_pattern[nx as int] == NO_MATCH {
        assert(links[nx as int] == NO_MATCH);
        assert(chn.len() == 1);
        assert(false);
    }
    lemma_chain_fuel(links, nx, (links.len() + 1) as nat, (nx + 1) as nat);
    k1
}

/// Law: within the stretch the scan has read since it last reported matches,
/// every occurrence of a nonempty pattern is reported. If pattern `i` ends
/// the first `e` bytes of the input and no match is reported at an offset
/// strictly inside that occurrence, a match of an equal pattern is reported
/// at `e`.
pub proof fn lemma_pattern_matches_complete(b: ScanModel, ps: Seq<Seq<u8>>, input: Seq<u8>, i: int, e: int)
    requires
        complete_for(b, ps),
        input.len() <= u32::MAX,
        0 <= i < ps.len(),
        ps[i].len() > 0,
        0 <= e <= input.len(),
        is_suffix(ps[i], input.take(e)),
        forall|k: int|
            0 <= k < scan_events(b, input).len() ==> !(e - ps[i].len() < #[trigger] scan_events(b, input)[k].1 < e),
    ensures
        exists|k: int|
            0 <= k < scan_events(b, input).len() && {
                let ev = #[trigger] scan_events(b, input)[k];
                &&& ev.1 == e
                &&& ev.0 < ps.len()
                &&& ps[ev.0 as int] == ps[i]
            },
{
    let labels = choose|labels: Seq<Seq<u8>>| complete_with(b, ps, labels);
    let n = labels.len();
    let p = ps[i];
    let m = p.len();
    let w = input.take(e);
    let u = input.take(e - 1);
    let x = input[e - 1];
    assert(w.drop_last() =~= u);
    assert(w.last() == x);
    lemma_run_longest(b, ps, labels, u);
    let (st, ev) = run(b, u);
    let k = restart(b, u);
    let uk = u.subrange(k, u.len() as int);
    lemma_run_prefix(b, input, e - 1);
    lemma_run_prefix(b, input, e);
    if k > e - m {
        let j = choose|j: int| 0 <= j < ev.len() && #[trigger] ev[j].1 == k;
        assert(scan_events(b, input)[j] == ev[j]);
        assert(false);
    }
    // The pattern ends the stretch read since the restart.
    let wk = w.subrange(k, e);
    assert(wk =~= uk.push(x));
    assert(w.subrange(w.len() - wk.len(), w.len() as int) =~= wk);
    lemma_suffix_of_longer(p, wk, w);
    assert(is_label(labels, p)) by {
        reveal(complete_with);
        reveal(patterns_are_states);
    }
    let v = choose|v: int| 0 <= v < n && #[trigger] labels[v] == p;
    lemma_ends_next_state(b, ps, labels, st, uk, x, v);
    let nx = next_state(b.transitions, b.class_count, st, x);
    let k1 = lemma_state_reports(b, ps, labels, nx, i);
    let evs = events_at(b, nx, w.len() as u32);
    assert(run(b, w).1 == ev + evs);
    let c = chain(b.output_links, nx, (b.output_links.len() + 1) as nat)[k1];
    assert(evs[k1] == (get_or(b.accept_pattern, c as int, 0), e as u32));
    assert(run(b, w).1[ev.len() + k1] == evs[k1]);
    assert(scan_events(b, input)[ev.len() + k1] == run(b, w).1[ev.len() + k1]);
}

// ---------------------------------------------------------------------------
// Every occurrence is reported once.
// ---------------------------------------------------------------------------

/// Output links lead to states whose pattern is strictly shorter than the
/// pattern of the state they leave.
pub open spec fn links_shorten(b: ScanModel, ps: Seq<Seq<u8>>) -> bool {
    let n = b.output_links.len();
    &&& b.accept_pattern.len() == n
    &&& n < NO_MATCH
    &&& forall|s: int| 0 <= s < n && #[trigger] b.accept_pattern[s] != NO_MATCH ==> b.accept_pattern[s] < ps.len()
    &&& forall|s: int| 0 <= s < n && #[trigger] b.output_links[s] != NO_MATCH ==> {
        &&& b.output_links[s] < n
        &&& b.accept_pattern[s] != NO_MATCH
        &&& b.accept_pattern[b.output_links[s] as int] != NO_MATCH
        &&& ps[b.accept_pattern[b.output_links[s] as int] as int].len() < ps[b.accept_pattern[s] as int].len()
    }
}

/// Along an output chain the reported patterns get strictly shorter.
proof fn lemma_chain_shortens(b: ScanModel, ps: Seq<Seq<u8>>, x: u32, fuel: nat)
    requires
        links_shorten(b, ps),
        x != NO_MATCH,
        (x as int) < b.output_links.len(),
        b.accept_pattern[x as int] != NO_MATCH,
    ensures
        forall|j: int| 0 <= j < chain(b.output_links, x, fuel).len() ==> {
            let c = #[trigger] chain(b.output_links, x, fuel)[j];
            &&& (c as int) < b.output_links.len()
            &&& b.accept_pattern[c as int] != NO_MATCH
            &&& b.accept_pattern[c as int] < ps.len()
            &&& j > 0 ==> ps[b.accept_pattern[c as int] as int].len() < ps[b.accept_pattern[x as int] as int].len()
        },
        forall|i: int, j: int|
            0 <= i < j < chain(b.output_links, x, fuel).len() ==> ps[b.accept_pattern[chain(b.output_links, x, fuel)[
                j] as int] as int].len() < ps[b.accept_pattern[chain(b.output_links, x, fuel)[i] as int] as int].len(),
    decreases fuel,
{
    let ch = chain(b.output_links, x, fuel);
    if fuel > 0 {
        let l = b.output_links[x as int];
        assert(get_or(b.output_links, x as int, NO_MATCH) == l);
        let rest = chain(b.output_links, l, (fuel - 1) as nat);
        assert(ch == seq![x] + rest);
        if l != NO_MATCH {
            lemma_chain_shortens(b, ps, l, (fuel - 1) as nat);
            assert forall|j: int| 0 < j < ch.len() implies ch[j] == rest[j - 1] by {}
        } else {
            assert(rest == Seq::<u32>::empty());
        }
    }
}

/// Every match reported while reading `w` ends within `w`.
proof fn lemma_run_ends(b: ScanModel, w: Seq<u8>)
    requires
        w.len() <= u32::MAX,
    ensures
        forall|k: int| 0 <= k < run(b, w).1.len() ==> #[trigger] run(b, w).1[k].1 <= w.len(),
    decreases w.len(),
{
    if w.len() > 0 {
        let u = w.drop_last();
        lemma_run_ends(b, u);
        let (st, ev) = run(b, u);
        let nx = next_state(b.transitions, b.class_count, st, w.last());
        if get_or(b.accept_pattern, nx as int, NO_MATCH) != NO_MATCH {
            let evs = events_at(b, nx, w.len() as u32);
            assert(run(b, w).1 == ev + evs);
            assert forall|k: int| 0 <= k < run(b, w).1.len() implies #[trigger] run(b, w).1[k].1 <= w.len() by {
                if k < ev.len() {
                    assert(run(b, w).1[k] == ev[k]);
                } else {
                    assert(run(b, w).1[k] == evs[k - ev.len()]);
                }
            }
        } else {
            assert(run(b, w).1 == ev);
        }
    }
}

/// Law: a scanner whose output links lead to shorter patterns reports no
/// (pattern, end) pair twice, so every occurrence is reported once.
pub proof fn lemma_reports_once(b: ScanModel, ps: Seq<Seq<u8>>, input: Seq<u8>)
    requires
        links_shorten(b, ps),
        input.len() <= u32::MAX,
    ensures
        scan_events(b, input).no_duplicates(),
    decreases input.len(),
{
    if input.len() > 0 {
        let u = input.drop_last();
        lemma_reports_once(b, ps, u);
        lemma_run_ends(b, u);
        let (st, ev) = run(b, u);
        let nx = next_state(b.transitions, b.class_count, st, input.last());
        if get_or(b.accept_pattern, nx as int, NO_MATCH) != NO_MATCH {
            let fuel = (b.output_links.len() + 1) as nat;
            let end = input.len() as u32;
            assert(nx != NO_MATCH);
            lemma_chain_shortens(b, ps, nx, fuel);
            let ch = chain(b.output_links, nx, fuel);
            let evs = events_at(b, nx, end);
            let all = ev + evs;
            assert(run(b, input).1 == all);
            assert forall|i: int, j: int| 0 <= i < all.len() && 0 <= j < all.len() && i != j implies all[i]
                != all[j] by {
                if i < ev.len() && j < ev.len() {
                    assert(all[i] == ev[i] && all[j] == ev[j]);
                } else if i < ev.len() {
                    assert(all[i] == ev[i]);
                    assert(all[j] == evs[j - ev.len()]);
                    assert(ev[i].1 <= u.len());
                } else if j < ev.len() {
                    assert(all[j] == ev[j]);
                    assert(all[i] == evs[i - ev.len()]);
                    assert(ev[j].1 <= u.len());
                } else {
                    let a = i - ev.len();
                    let c = j - ev.len();
                    assert(all[i] == evs[a] && all[j] == evs[c]);
                    assert(evs[a].0 == b.accept_pattern[ch[a] as int]);
                    assert(evs[c].0 == b.accept_pattern[ch[c] as int]);
                    if a < c {
                        assert(ps[b.accept_pattern[ch[c] as int] as int].len() < ps[b.accept_pattern[ch[a] as int] as int].len());
                    } else {
                        assert(ps[b.accept_pattern[ch[a] as int] as int].len() < ps[b.accept_pattern[ch[c] as int] as int].len());
                    }
                }
            }
        }
    }
}

} // verus!
