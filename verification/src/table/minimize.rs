//! Minimization of a transition table by partition refinement.

use vstd::prelude::*;
use super::{new_accepts, TableModel, TransitionTable};

verus! {

// ---------------------------------------------------------------------------
// The initial partition: states split by the pattern they accept.
// ---------------------------------------------------------------------------

/// Pattern id of the last accept entry for `state`, if there is one.
pub open spec fn last_pid(acc: Seq<(u32, u32)>, state: int) -> Option<u32>
    decreases acc.len(),
{
    if acc.len() == 0 {
        None
    } else if acc.last().0 as int == state {
        Some(acc.last().1)
    } else {
        last_pid(acc.drop_last(), state)
    }
}

/// The initial classes of the first `k` states, and the pattern ids seen so
/// far in order of first appearance. Non-accepting states get class 0; the
/// states accepting the `j`-th distinct pattern get class `j + 1`.
pub open spec fn init_prefix(acc: Seq<(u32, u32)>, k: nat) -> (Seq<u32>, Seq<u32>)
    decreases k,
{
    if k == 0 {
        (Seq::empty(), Seq::empty())
    } else {
        let (p, seen) = init_prefix(acc, (k - 1) as nat);
        match last_pid(acc, k - 1) {
            None => (p.push(0u32), seen),
            Some(pid) => if seen.contains(pid) {
                (p.push(((choose|j: int| 0 <= j < seen.len() && seen[j] == pid) + 1) as u32), seen)
            } else {
                (p.push((seen.len() + 1) as u32), seen.push(pid))
            },
        }
    }
}

pub open spec fn init_partition(m: TableModel) -> Seq<u32> {
    init_prefix(m.accept_states, m.state_count as nat).0
}

pub open spec fn init_num(m: TableModel) -> nat {
    init_prefix(m.accept_states, m.state_count as nat).1.len() + 1
}

proof fn lemma_init_len(acc: Seq<(u32, u32)>, k: nat)
    ensures
        init_prefix(acc, k).0.len() == k,
        init_prefix(acc, k).1.len() <= k,
    decreases k,
{
    if k > 0 {
        lemma_init_len(acc, (k - 1) as nat);
    }
}

// ---------------------------------------------------------------------------
// Refinement steps.
// ---------------------------------------------------------------------------

/// Class of the target of state `s` on class `b`; targets outside the table
/// count as class 0.
pub open spec fn tclass(m: TableModel, p: Seq<u32>, s: int, b: int) -> u32 {
    let t = m.transitions[s * m.class_count + b];
    if (t as int) < m.state_count {
        p[t as int]
    } else {
        0u32
    }
}

/// States `s` and `t` have the same signature: the same class and, on every
/// input class, targets in the same class.
pub open spec fn same_sig(m: TableModel, p: Seq<u32>, s: int, t: int) -> bool {
    &&& p[s] == p[t]
    &&& forall|b: int| 0 <= b < m.class_count ==> #[trigger] tclass(m, p, s, b) == tclass(m, p, t, b)
}

pub open spec fn sig_rel(m: TableModel, p: Seq<u32>) -> spec_fn(int, int) -> bool {
    |s: int, t: int| same_sig(m, p, s, t)
}

/// Numbers the first `k` elements by the classes of `e`, in order of first
/// appearance; also returns the first element of each class.
pub open spec fn canon_prefix(e: spec_fn(int, int) -> bool, k: nat) -> (Seq<u32>, Seq<int>)
    decreases k,
{
    if k == 0 {
        (Seq::empty(), Seq::empty())
    } else {
        let (c, r) = canon_prefix(e, (k - 1) as nat);
        if exists|j: int| 0 <= j < r.len() && e(r[j], k - 1) {
            (c.push((choose|j: int| 0 <= j < r.len() && e(r[j], k - 1)) as u32), r)
        } else {
            (c.push(r.len() as u32), r.push(k - 1))
        }
    }
}

/// One refinement step: the states renumbered by their signatures.
pub open spec fn refine_step(m: TableModel, p: Seq<u32>) -> (Seq<u32>, Seq<int>) {
    canon_prefix(sig_rel(m, p), m.state_count as nat)
}

/// Repeats refinement steps until the partition and its class count stop
/// changing, or the fuel runs out.
pub open spec fn refine(m: TableModel, p: Seq<u32>, num: nat, fuel: nat) -> (Seq<u32>, nat)
    decreases fuel,
{
    if fuel == 0 {
        (p, num)
    } else {
        let (q, r) = refine_step(m, p);
        if r.len() == num && q == p {
            (p, num)
        } else {
            refine(m, q, r.len(), (fuel - 1) as nat)
        }
    }
}

/// Fuel that always suffices for the refinement to reach its fixpoint.
pub open spec fn refine_fuel(m: TableModel) -> nat {
    (4 * (m.state_count * m.state_count) + 4) as nat
}

/// The final partition of the states and its number of classes.
pub open spec fn refine_fixpoint(m: TableModel) -> (Seq<u32>, nat) {
    refine(m, init_partition(m), init_num(m), refine_fuel(m))
}

// ---------------------------------------------------------------------------
// Building the minimized table.
// ---------------------------------------------------------------------------

/// The last state below `k` in class `c`, or 0 when there is none.
pub open spec fn last_rep(p: Seq<u32>, c: int, k: int) -> int
    decreases k,
{
    if k <= 0 {
        0
    } else if p[k - 1] as int == c {
        k - 1
    } else {
        last_rep(p, c, k - 1)
    }
}

proof fn lemma_last_rep_bound(p: Seq<u32>, c: int, k: int)
    requires
        k >= 1,
    ensures
        0 <= last_rep(p, c, k) < k,
    decreases k,
{
    if k > 1 {
        lemma_last_rep_bound(p, c, k - 1);
    } else {
        assert(last_rep(p, c, 0) == 0);
    }
}

/// The accept entries mapped to classes, keeping the first copy of each.
pub open spec fn dedup_accepts(p: Seq<u32>, acc: Seq<(u32, u32)>) -> Seq<(u32, u32)>
    decreases acc.len(),
{
    if acc.len() == 0 {
        Seq::empty()
    } else {
        let prev = dedup_accepts(p, acc.drop_last());
        let e = (p[acc.last().0 as int], acc.last().1);
        if prev.contains(e) {
            prev
        } else {
            prev.push(e)
        }
    }
}

/// The minimized table built from partition `p` with `k` classes.
pub open spec fn quotient(m: TableModel, p: Seq<u32>, k: nat) -> TableModel {
    TableModel {
        state_count: k as usize,
        class_count: m.class_count,
        transitions: Seq::new(
            (k * m.class_count) as nat,
            |i: int| tclass(m, p, last_rep(p, i / m.class_count as int, m.state_count as int), i % m.class_count as int),
        ),
        accept_states: dedup_accepts(p, m.accept_states),
        pattern_lengths: m.pattern_lengths,
    }
}

/// What `TransitionTable::minimize` returns for a table.
pub open spec fn spec_minimize(m: TableModel) -> Option<TableModel> {
    if m.state_count <= 1 {
        None
    } else {
        let (p, k) = refine_fixpoint(m);
        if k >= m.state_count || !new_accepts(k as usize, m.class_count) {
            None
        } else {
            Some(quotient(m, p, k))
        }
    }
}

/// The inputs on which `minimize` runs to completion: a full transition array
/// and, when a smaller table is built, accept entries naming real states.
pub open spec fn minimize_defined(m: TableModel) -> bool {
    m.state_count <= 1 || {
        &&& m.transitions.len() >= m.state_count * m.class_count
        &&& spec_minimize(m) is Some ==> forall|i: int|
            0 <= i < m.accept_states.len() ==> (#[trigger] m.accept_states[i]).0 < m.state_count
    }
}

// ---------------------------------------------------------------------------
// Counting equal pairs: the measure that refinement decreases.
// ---------------------------------------------------------------------------

/// Number of `t < k` with `p[t] == v`.
pub open spec fn cnt(p: Seq<u32>, v: u32, k: int) -> nat
    decreases k,
{
    if k <= 0 {
        0
    } else {
        cnt(p, v, k - 1) + if p[k - 1] == v { 1nat } else { 0nat }
    }
}

/// Number of pairs `(s, t)` with `s < k`, `t < p.len()` and `p[s] == p[t]`.
pub open spec fn pair_sum(p: Seq<u32>, k: int) -> nat
    decreases k,
{
    if k <= 0 {
        0
    } else {
        pair_sum(p, k - 1) + cnt(p, p[k - 1], p.len() as int)
    }
}

/// Every class of `q` lies inside a class of `p` (on the first `n` elements).
pub open spec fn refines(q: Seq<u32>, p: Seq<u32>, n: int) -> bool {
    forall|s: int, t: int| 0 <= s < n && 0 <= t < n && #[trigger] q[s] == #[trigger] q[t] ==> p[s] == p[t]
}

proof fn lemma_cnt_bound(p: Seq<u32>, v: u32, k: int)
    ensures
        cnt(p, v, k) <= if k < 0 { 0 } else { k },
    decreases k,
{
    if k > 0 {
        lemma_cnt_bound(p, v, k - 1);
    }
}

pub proof fn lemma_pair_sum_bound(p: Seq<u32>, k: int)
    requires
        0 <= k,
    ensures
        pair_sum(p, k) <= k * p.len(),
    decreases k,
{
    if k > 0 {
        lemma_pair_sum_bound(p, k - 1);
        lemma_cnt_bound(p, p[k - 1], p.len() as int);
        assert(k * p.len() == (k - 1) * p.len() + p.len()) by (nonlinear_arith);
    }
}

proof fn lemma_cnt_mono(q: Seq<u32>, p: Seq<u32>, s: int, k: int)
    requires
        q.len() == p.len(),
        refines(q, p, p.len() as int),
        0 <= s < p.len(),
        k <= p.len(),
    ensures
        cnt(q, q[s], k) <= cnt(p, p[s], k),
    decreases k,
{
    if k > 0 {
        lemma_cnt_mono(q, p, s, k - 1);
        if q[k - 1] == q[s] {
            assert(p[k - 1] == p[s]);
        }
    }
}

proof fn lemma_cnt_strict(q: Seq<u32>, p: Seq<u32>, s: int, t: int, k: int)
    requires
        q.len() == p.len(),
        refines(q, p, p.len() as int),
        0 <= s < p.len(),
        0 <= t < k <= p.len(),
        p[t] == p[s],
        q[t] != q[s],
    ensures
        cnt(q, q[s], k) < cnt(p, p[s], k),
    decreases k,
{
    if t < k - 1 {
        lemma_cnt_strict(q, p, s, t, k - 1);
        if q[k - 1] == q[s] {
            assert(p[k - 1] == p[s]);
        }
    } else {
        lemma_cnt_mono(q, p, s, k - 1);
    }
}

proof fn lemma_pair_sum_mono(q: Seq<u32>, p: Seq<u32>, k: int)
    requires
        q.len() == p.len(),
        refines(q, p, p.len() as int),
        k <= p.len(),
    ensures
        pair_sum(q, k) <= pair_sum(p, k),
    decreases k,
{
    if k > 0 {
        lemma_pair_sum_mono(q, p, k - 1);
        lemma_cnt_mono(q, p, k - 1, p.len() as int);
    }
}

proof fn lemma_pair_sum_strict(q: Seq<u32>, p: Seq<u32>, s: int, t: int, k: int)
    requires
        q.len() == p.len(),
        refines(q, p, p.len() as int),
        0 <= s < k <= p.len(),
        0 <= t < p.len(),
        p[t] == p[s],
        q[t] != q[s],
    ensures
        pair_sum(q, k) < pair_sum(p, k),
    decreases k,
{
    if s < k - 1 {
        lemma_pair_sum_strict(q, p, s, t, k - 1);
        lemma_cnt_mono(q, p, k - 1, p.len() as int);
    } else {
        lemma_pair_sum_mono(q, p, k - 1);
        lemma_cnt_strict(q, p, s, t, p.len() as int);
    }
}

// ---------------------------------------------------------------------------
// Canonical numbering.
// ---------------------------------------------------------------------------

/// `e` is an equivalence relation on `0..k`.
pub open spec fn is_equiv(e: spec_fn(int, int) -> bool, k: int) -> bool {
    &&& forall|s: int| 0 <= s < k ==> #[trigger] e(s, s)
    &&& forall|s: int, t: int| 0 <= s < k && 0 <= t < k && #[trigger] e(s, t) ==> e(t, s)
    &&& forall|s: int, t: int, u: int|
        0 <= s < k && 0 <= t < k && 0 <= u < k && #[trigger] e(s, t) && #[trigger] e(t, u) ==> e(s, u)
}

/// The facts that hold of a canonical numbering `(c, r)` of `0..k`.
pub open spec fn canon_wf(e: spec_fn(int, int) -> bool, k: int, c: Seq<u32>, r: Seq<int>) -> bool {
    &&& c.len() == k
    &&& r.len() <= k
    &&& forall|j: int| 0 <= j < r.len() ==> 0 <= #[trigger] r[j] < k && c[r[j]] == j
    &&& forall|s: int| 0 <= s < k ==> (#[trigger] c[s]) < r.len() && e(r[c[s] as int], s)
    &&& forall|i: int, j: int| 0 <= i < r.len() && 0 <= j < r.len() && i != j ==> !e(#[trigger] r[i], #[trigger] r[j])
    &&& k > 0 ==> c[0] == 0
}

pub proof fn lemma_canon_wf(e: spec_fn(int, int) -> bool, k: nat)
    requires
        is_equiv(e, k as int),
        k <= u32::MAX,
    ensures
        canon_wf(e, k as int, canon_prefix(e, k).0, canon_prefix(e, k).1),
    decreases k,
{
    if k > 0 {
        let k1 = (k - 1) as nat;
        assert(is_equiv(e, k1 as int));
        lemma_canon_wf(e, k1);
        let (c, r) = canon_prefix(e, k1);
        let (c2, r2) = canon_prefix(e, k);
        if exists|j: int| 0 <= j < r.len() && e(r[j], k - 1) {
            let j0 = choose|j: int| 0 <= j < r.len() && e(r[j], k - 1);
            assert(c2 == c.push(j0 as u32));
            assert(r2 == r);
            assert forall|s: int| 0 <= s < k implies (#[trigger] c2[s]) < r2.len() && e(r2[c2[s] as int], s) by {
                if s < k - 1 {
                    assert(c2[s] == c[s]);
                }
            }
            assert forall|j: int| 0 <= j < r2.len() implies 0 <= #[trigger] r2[j] < k && c2[r2[j]] == j by {
                assert(c2[r[j]] == c[r[j]]);
            }
        } else {
            assert(c2 == c.push(r.len() as u32));
            assert(r2 == r.push(k - 1));
            assert forall|s: int| 0 <= s < k implies (#[trigger] c2[s]) < r2.len() && e(r2[c2[s] as int], s) by {
                if s < k - 1 {
                    assert(c2[s] == c[s]);
                    assert(r2[c[s] as int] == r[c[s] as int]);
                }
            }
            assert forall|j: int| 0 <= j < r2.len() implies 0 <= #[trigger] r2[j] < k && c2[r2[j]] == j by {
                if j < r.len() {
                    assert(r2[j] == r[j]);
                    assert(c2[r[j]] == c[r[j]]);
                }
            }
            assert forall|i: int, j: int| 0 <= i < r2.len() && 0 <= j < r2.len() && i != j implies !e(#[trigger] r2[i], #[trigger] r2[j]) by {
                if i < r.len() && j < r.len() {
                    assert(r2[i] == r[i] && r2[j] == r[j]);
                } else if i < r.len() {
                    assert(r2[j] == k - 1);
                    assert(r2[i] == r[i]);
                } else {
                    assert(r2[i] == k - 1);
                    assert(r2[j] == r[j]);
                    if e(r2[i], r2[j]) {
                        assert(e(r[j], k - 1));
                    }
                }
            }
        }
    }
}

/// Two elements share a canonical number exactly when they are related.
proof fn lemma_canon_classes(e: spec_fn(int, int) -> bool, k: nat, s: int, t: int)
    requires
        is_equiv(e, k as int),
        k <= u32::MAX,
        0 <= s < k,
        0 <= t < k,
    ensures
        (canon_prefix(e, k).0[s] == canon_prefix(e, k).0[t]) == e(s, t),
{
    lemma_canon_wf(e, k);
    let (c, r) = canon_prefix(e, k);
    let rs = r[c[s] as int];
    let rt = r[c[t] as int];
    assert(e(rs, s) && e(rt, t));
    if c[s] == c[t] {
        assert(e(s, rs));
        assert(e(s, t));
    }
    if e(s, t) {
        assert(e(t, rt));
        assert(e(s, rt));
        assert(e(rs, rt));
    }
}

/// The canonical numbering depends only on the relation on `0..k`.
proof fn lemma_canon_same(e1: spec_fn(int, int) -> bool, e2: spec_fn(int, int) -> bool, k: nat)
    requires
        is_equiv(e1, k as int),
        k <= u32::MAX,
        forall|s: int, t: int| 0 <= s < k && 0 <= t < k ==> #[trigger] e1(s, t) == #[trigger] e2(s, t),
    ensures
        canon_prefix(e1, k) == canon_prefix(e2, k),
    decreases k,
{
    if k > 0 {
        let k1 = (k - 1) as nat;
        assert(is_equiv(e1, k1 as int));
        lemma_canon_same(e1, e2, k1);
        lemma_canon_wf(e1, k1);
        let (c, r) = canon_prefix(e1, k1);
        if exists|j: int| 0 <= j < r.len() && e1(r[j], k - 1) {
            let j1 = choose|j: int| 0 <= j < r.len() && e1(r[j], k - 1);
            assert(e2(r[j1], k - 1));
            let j2 = choose|j: int| 0 <= j < r.len() && e2(r[j], k - 1);
            assert(e1(r[j2], k - 1));
            if j1 != j2 {
                assert(e1(k - 1, r[j2]));
                assert(e1(r[j1], r[j2]));
            }
        } else {
            assert forall|j: int| 0 <= j < r.len() implies !e2(r[j], k - 1) by {
                assert(!e1(r[j], k - 1));
            }
        }
    }
}

pub proof fn lemma_sig_equiv(m: TableModel, p: Seq<u32>)
    ensures
        is_equiv(sig_rel(m, p), m.state_count as int),
{
    let e = sig_rel(m, p);
    assert forall|s: int, t: int, u: int|
        0 <= s < m.state_count && 0 <= t < m.state_count && 0 <= u < m.state_count && #[trigger] e(s, t) && #[trigger] e(t, u) implies e(s, u) by {
        assert(same_sig(m, p, s, t) && same_sig(m, p, t, u));
        assert forall|b: int| 0 <= b < m.class_count implies #[trigger] tclass(m, p, s, b) == tclass(m, p, u, b) by {
            assert(tclass(m, p, s, b) == tclass(m, p, t, b));
            assert(tclass(m, p, t, b) == tclass(m, p, u, b));
        }
    }
    assert forall|s: int, t: int| 0 <= s < m.state_count && 0 <= t < m.state_count && #[trigger] e(s, t) implies e(t, s) by {
        assert forall|b: int| 0 <= b < m.class_count implies #[trigger] tclass(m, p, t, b) == tclass(m, p, s, b) by {
            assert(tclass(m, p, s, b) == tclass(m, p, t, b));
        }
    }
}

/// Facts about one refinement step.
pub proof fn lemma_step(m: TableModel, p: Seq<u32>)
    requires
        p.len() == m.state_count,
        m.state_count <= u32::MAX,
    ensures
        ({
            let (q, r) = refine_step(m, p);
            &&& canon_wf(sig_rel(m, p), m.state_count as int, q, r)
            &&& refines(q, p, m.state_count as int)
            &&& forall|s: int, t: int| 0 <= s < m.state_count && 0 <= t < m.state_count ==>
                (#[trigger] q[s] == #[trigger] q[t]) == same_sig(m, p, s, t)
        }),
{
    let n = m.state_count as nat;
    lemma_sig_equiv(m, p);
    lemma_canon_wf(sig_rel(m, p), n);
    let (q, r) = refine_step(m, p);
    assert forall|s: int, t: int| 0 <= s < m.state_count && 0 <= t < m.state_count implies
        (#[trigger] q[s] == #[trigger] q[t]) == same_sig(m, p, s, t) by {
        lemma_canon_classes(sig_rel(m, p), n, s, t);
    }
}

/// A step that changes the partition or its count either strictly lowers the
/// number of equal pairs, or starts from a partition that no step produced.
pub proof fn lemma_progress(m: TableModel, p: Seq<u32>, num: nat, fresh: bool, prev: Seq<u32>)
    requires
        p.len() == m.state_count,
        m.state_count <= u32::MAX,
        prev.len() == m.state_count,
        fresh ==> refine_step(m, prev).0 == p && refine_step(m, prev).1.len() == num,
        !(refine_step(m, p).1.len() == num && refine_step(m, p).0 == p),
    ensures
        pair_sum(refine_step(m, p).0, m.state_count as int) < pair_sum(p, m.state_count as int)
            || (!fresh && pair_sum(refine_step(m, p).0, m.state_count as int) <= pair_sum(
            p,
            m.state_count as int,
        )),
{
    let n = m.state_count as int;
    lemma_step(m, p);
    let (q, r) = refine_step(m, p);
    lemma_pair_sum_mono(q, p, n);
    if exists|s: int, t: int| 0 <= s < n && 0 <= t < n && p[s] == p[t] && q[s] != q[t] {
        let (s, t) = choose|s: int, t: int| 0 <= s < n && 0 <= t < n && p[s] == p[t] && q[s] != q[t];
        lemma_pair_sum_strict(q, p, s, t, n);
    } else if fresh {
        lemma_step(m, prev);
        let e1 = sig_rel(m, prev);
        let e2 = sig_rel(m, p);
        assert forall|s: int, t: int| 0 <= s < n && 0 <= t < n implies #[trigger] e1(s, t) == #[trigger] e2(s, t) by {
            assert((p[s] == p[t]) == same_sig(m, prev, s, t));
            assert((q[s] == q[t]) == same_sig(m, p, s, t));
            if p[s] == p[t] {
                assert(q[s] == q[t]);
            }
        }
        lemma_sig_equiv(m, prev);
        lemma_canon_same(e1, e2, n as nat);
        assert(false);
    }
}

// ---------------------------------------------------------------------------
// Executable minimization.
// ---------------------------------------------------------------------------

proof fn lemma_row_index(s: int, b: int, n: int, c: int)
    requires
        0 <= s < n,
        0 <= b < c,
    ensures
        0 <= s * c + b < n * c,
        s * c <= s * c + b,
{
    assert(s * c + b < n * c) by (nonlinear_arith)
        requires
            0 <= s < n,
            0 <= b < c,
    ;
    assert(0 <= s * c) by (nonlinear_arith)
        requires
            0 <= s,
            0 <= c,
    ;
}

/// Whether `(state, pid)` occurs in `v`.
fn contains_pair(v: &Vec<(u32, u32)>, e: (u32, u32)) -> (r: bool)
    ensures
        r == v@.contains(e),
{
    let mut i: usize = 0;
    while i < v.len()
        invariant
            i <= v.len(),
            forall|j: int| 0 <= j < i ==> v@[j] != e,
        decreases v.len() - i,
    {
        if v[i].0 == e.0 && v[i].1 == e.1 {
            assert(v@[i as int] == e);
            return true;
        }
        i += 1;
    }
    false
}

/// Whether two vectors hold the same entries.
pub(crate) fn same_entries(a: &Vec<u32>, b: &Vec<u32>) -> (r: bool)
    ensures
        r == (a@ == b@),
{
    if a.len() != b.len() {
        return false;
    }
    let mut i: usize = 0;
    while i < a.len()
        invariant
            i <= a.len(),
            a.len() == b.len(),
            forall|j: int| 0 <= j < i ==> a@[j] == b@[j],
        decreases a.len() - i,
    {
        if a[i] != b[i] {
            return false;
        }
        i += 1;
    }
    assert(a@ =~= b@);
    true
}

impl TransitionTable {
    /// Class, under partition `p`, of the target of state `s` on class `b`.
    fn target_class(&self, p: &Vec<u32>, s: usize, b: usize) -> (r: u32)
        requires
            s < self@.state_count,
            b < self@.class_count,
            p@.len() == self@.state_count,
            self@.transitions.len() >= self@.state_count * self@.class_count,
        ensures
            r == tclass(self@, p@, s as int, b as int),
    {
        proof {
            use_type_invariant(&self.shape);
            lemma_row_index(s as int, b as int, self@.state_count as int, self@.class_count as int);
        }
        let idx = s * self.shape.class_count + b;
        let t = self.transitions[idx];
        if (t as usize) < self.shape.state_count {
            p[t as usize]
        } else {
            0
        }
    }

    /// Whether states `s` and `t` have the same signature under `p`.
    fn same_signature(&self, p: &Vec<u32>, s: usize, t: usize) -> (r: bool)
        requires
            s < self@.state_count,
            t < self@.state_count,
            p@.len() == self@.state_count,
            self@.transitions.len() >= self@.state_count * self@.class_count,
        ensures
            r == same_sig(self@, p@, s as int, t as int),
    {
        if p[s] != p[t] {
            return false;
        }
        let c = self.shape.class_count;
        let mut b: usize = 0;
        while b < c
            invariant
                c == self@.class_count,
                s < self@.state_count,
                t < self@.state_count,
                p@.len() == self@.state_count,
                self@.transitions.len() >= self@.state_count * self@.class_count,
                b <= c,
                forall|x: int| 0 <= x < b ==> #[trigger] tclass(self@, p@, s as int, x) == tclass(self@, p@, t as int, x),
            decreases c - b,
        {
            if self.target_class(p, s, b) != self.target_class(p, t, b) {
                return false;
            }
            b += 1;
        }
        true
    }

    /// The classes that states get before any refinement.
    fn initial_partition(&self) -> (r: (Vec<u32>, u32))
        ensures
            r.0@ == init_partition(self@),
            r.1 as nat == init_num(self@),
    {
        proof { use_type_invariant(&self.shape); }
        let n = self.shape.state_count;
        let acc = &self.accept_states;
        let mut has: Vec<bool> = vec![false; n];
        let mut pid_of: Vec<u32> = vec![0; n];
        let mut i: usize = 0;
        while i < acc.len()
            invariant
                n == self@.state_count,
                acc@ == self@.accept_states,
                has@.len() == n,
                pid_of@.len() == n,
                i <= acc.len(),
                forall|st: int| 0 <= st < n ==> last_pid(acc@.take(i as int), st) == if #[trigger] has@[st] {
                    Some(pid_of@[st])
                } else {
                    None
                },
            decreases acc.len() - i,
        {
            let (st, pid) = acc[i];
            if (st as usize) < n {
                has.set(st as usize, true);
                pid_of.set(st as usize, pid);
            }
            proof {
                let a1 = acc@.take(i + 1);
                assert(a1.drop_last() == acc@.take(i as int));
                assert(a1.last() == (st, pid));
            }
            i += 1;
        }
        assert(acc@.take(acc.len() as int) == acc@);
        let mut p: Vec<u32> = Vec::new();
        let mut seen: Vec<u32> = Vec::new();
        let mut st: usize = 0;
        while st < n
            invariant
                n == self@.state_count,
                n <= 65_536,
                has@.len() == n,
                pid_of@.len() == n,
                st <= n,
                forall|x: int| 0 <= x < n ==> last_pid(self@.accept_states, x) == if #[trigger] has@[x] {
                    Some(pid_of@[x])
                } else {
                    None
                },
                (p@, seen@) == init_prefix(self@.accept_states, st as nat),
                seen@.no_duplicates(),
                seen@.len() <= st,
            decreases n - st,
        {
            if has[st] {
                let pid = pid_of[st];
                let mut j: usize = 0;
                let mut found = false;
                while j < seen.len() && !found
                    invariant
                        j <= seen.len(),
                        found ==> j < seen.len() && seen@[j as int] == pid,
                        !found ==> forall|x: int| 0 <= x < j ==> seen@[x] != pid,
                    decreases seen.len() - j + if found { 0int } else { 1int },
                {
                    if seen[j] == pid {
                        found = true;
                    } else {
                        j += 1;
                    }
                }
                if found {
                    proof {
                        assert(seen@.contains(pid));
                        let c = choose|x: int| 0 <= x < seen@.len() && seen@[x] == pid;
                        assert(c == j);
                    }
                    p.push((j + 1) as u32);
                } else {
                    proof {
                        assert(!seen@.contains(pid));
                    }
                    p.push((seen.len() + 1) as u32);
                    seen.push(pid);
                }
            } else {
                p.push(0);
            }
            st += 1;
        }
        (p, (seen.len() + 1) as u32)
    }

    /// One refinement step of partition `p`: the new partition and its class count.
    fn refine_once(&self, p: &Vec<u32>) -> (r: (Vec<u32>, u32))
        requires
            p@.len() == self@.state_count,
            self@.transitions.len() >= self@.state_count * self@.class_count,
        ensures
            r.0@ == refine_step(self@, p@).0,
            r.1 == refine_step(self@, p@).1.len(),
    {
        proof { use_type_invariant(&self.shape); }
        let n = self.shape.state_count;
        let ghost e = sig_rel(self@, p@);
        proof { lemma_sig_equiv(self@, p@); }
        let mut q: Vec<u32> = Vec::new();
        let mut reps: Vec<usize> = Vec::new();
        let mut s: usize = 0;
        while s < n
            invariant
                n == self@.state_count,
                n <= 65_536,
                p@.len() == n,
                self@.transitions.len() >= self@.state_count * self@.class_count,
                e == sig_rel(self@, p@),
                is_equiv(e, n as int),
                s <= n,
                q@ == canon_prefix(e, s as nat).0,
                reps@.map_values(|x: usize| x as int) == canon_prefix(e, s as nat).1,
            decreases n - s,
        {
            proof {
                assert(is_equiv(e, s as int));
                lemma_canon_wf(e, s as nat);
            }
            let ghost r = canon_prefix(e, s as nat).1;
            let mut j: usize = 0;
            let mut found = false;
            while j < reps.len() && !found
                invariant
                    n == self@.state_count,
                    s < n,
                    p@.len() == n,
                    self@.transitions.len() >= self@.state_count * self@.class_count,
                    e == sig_rel(self@, p@),
                    reps@.map_values(|x: usize| x as int) == r,
                    canon_wf(e, s as int, q@, r),
                    j <= reps.len(),
                    found ==> j < reps.len() && e(r[j as int], s as int),
                    !found ==> forall|x: int| 0 <= x < j ==> !e(#[trigger] r[x], s as int),
                decreases reps.len() - j + if found { 0int } else { 1int },
            {
                assert(r[j as int] == reps@[j as int] as int);
                if self.same_signature(p, reps[j], s) {
                    found = true;
                } else {
                    j += 1;
                }
            }
            if found {
                proof {
                    let c = choose|x: int| 0 <= x < r.len() && e(r[x], s as int);
                    if c != j {
                        assert(e(s as int, r[c]));
                        assert(e(r[j as int], r[c]));
                    }
                }
                q.push(j as u32);
            } else {
                proof {
                    assert forall|x: int| 0 <= x < r.len() implies !e(r[x], s as int) by {}
                }
                q.push(reps.len() as u32);
                reps.push(s);
                proof {
                    assert(reps@.map_values(|x: usize| x as int) =~= r.push(s as int));
                }
            }
            s += 1;
        }
        proof {
            lemma_canon_wf(e, n as nat);
        }
        let k = reps.len() as u32;
        (q, k)
    }
}

impl TransitionTable {
    /// Minimizes the DFA by partition refinement.
    ///
    /// States start out split by the pattern they accept and are split further
    /// until states in one class agree on the class of every target. Returns
    /// `None` when the table has at most one state, when no two states merge,
    /// or when the smaller table cannot be built.
    pub fn minimize(&self) -> (r: Option<Self>)
        requires
            minimize_defined(self@),
        ensures
            match r {
                Some(t) => spec_minimize(self@) == Some(t@),
                None => spec_minimize(self@) is None,
            },
    {
        proof { use_type_invariant(&self.shape); }
        let n = self.shape.state_count;
        let cc = self.shape.class_count;
        if n <= 1 {
            return None;
        }
        let ghost m = self@;
        let (mut partition, mut num_classes) = self.initial_partition();
        proof { lemma_init_len(m.accept_states, n as nat); }
        let ghost mut fuel: nat = refine_fuel(m);
        let ghost mut fresh = false;
        let ghost mut prev: Seq<u32> = partition@;
        proof {
            lemma_pair_sum_bound(partition@, n as int);
            assert(fuel == 4 * (n * n) + 4);
        }
        let mut changed = true;
        while changed
            invariant
                m == self@,
                n == m.state_count,
                cc == m.class_count,
                2 <= n <= 65_536,
                m.transitions.len() >= n * cc,
                partition@.len() == n,
                prev.len() == n,
                fuel >= 1,
                refine(m, partition@, num_classes as nat, fuel) == refine_fixpoint(m),
                changed ==> fuel >= 4 * pair_sum(partition@, n as int) + (if fresh { 0int } else { 2int }) + 1,
                !changed ==> refine_step(m, partition@).0 == partition@ && refine_step(m, partition@).1.len()
                    == num_classes,
                fresh ==> refine_step(m, prev).0 == partition@ && refine_step(m, prev).1.len() == num_classes,
            decreases 4 * pair_sum(partition@, n as int) + (if fresh { 0int } else { 2int }) + (if changed {
                1int
            } else {
                0int
            }),
        {
            changed = false;
            let (new_partition, next_class) = self.refine_once(&partition);
            if next_class != num_classes || !same_entries(&new_partition, &partition) {
                changed = true;
                proof {
                    lemma_progress(m, partition@, num_classes as nat, fresh, prev);
                    lemma_step(m, partition@);
                    prev = partition@;
                    fresh = true;
                    fuel = (fuel - 1) as nat;
                }
                num_classes = next_class;
                partition = new_partition;
            }
        }
        proof {
            lemma_step(m, partition@);
        }
        let k = num_classes as usize;
        if k >= n {
            return None;
        }
        proof {
            use_type_invariant(&self.shape);
            assert(k * cc <= n * cc) by (nonlinear_arith)
                requires
                    k < n,
            ;
        }
        let mut new_table = match Self::new(k, cc) {
            Ok(t) => t,
            Err(_) => {
                return None;
            },
        };
        proof {
            assert(new_accepts(k, cc));
        }
        let ghost p = partition@;
        let mut rep: Vec<usize> = vec![0; k];
        let mut st: usize = 0;
        while st < n
            invariant
                n == m.state_count,
                p == partition@,
                p.len() == n,
                canon_wf(sig_rel(m, p), n as int, p, refine_step(m, p).1),
                refine_step(m, p).1.len() == k,
                rep@.len() == k,
                st <= n,
                forall|c: int| 0 <= c < k ==> #[trigger] rep@[c] as int == last_rep(p, c, st as int),
            decreases n - st,
        {
            let c = partition[st] as usize;
            rep.set(c, st);
            st += 1;
        }
        proof {
            assert forall|x: int| 0 <= x < k implies #[trigger] rep@[x] < n by {
                lemma_last_rep_bound(p, x, n as int);
            }
        }
        let mut c: usize = 0;
        while c < k
            invariant
                m == self@,
                n == m.state_count,
                cc == m.class_count,
                p == partition@,
                p.len() == n,
                m.transitions.len() >= n * cc,
                k < n,
                n <= 65_536,
                k * cc <= 268_435_456,
                rep@.len() == k,
                forall|x: int| 0 <= x < k ==> #[trigger] rep@[x] as int == last_rep(p, x, n as int),
                forall|x: int| 0 <= x < k ==> #[trigger] rep@[x] < n,
                c <= k,
                new_table@.state_count == k,
                new_table@.class_count == cc,
                new_table@.transitions.len() == k * cc,
                new_table@.accept_states == Seq::<(u32, u32)>::empty(),
                new_table@.pattern_lengths == Seq::<u32>::empty(),
                forall|i: int| 0 <= i < c * cc ==> #[trigger] new_table@.transitions[i] == tclass(
                    m,
                    p,
                    last_rep(p, i / cc as int, n as int),
                    i % cc as int,
                ),
            decreases k - c,
        {
            let mut b: usize = 0;
            while b < cc
                invariant
                    m == self@,
                    n == m.state_count,
                    cc == m.class_count,
                    p == partition@,
                    p.len() == n,
                    m.transitions.len() >= n * cc,
                    k < n,
                    k * cc <= 268_435_456,
                    rep@.len() == k,
                    forall|x: int| 0 <= x < k ==> #[trigger] rep@[x] as int == last_rep(p, x, n as int),
                    forall|x: int| 0 <= x < k ==> #[trigger] rep@[x] < n,
                    c < k,
                    b <= cc,
                    new_table@.state_count == k,
                    new_table@.class_count == cc,
                    new_table@.transitions.len() == k * cc,
                    new_table@.accept_states == Seq::<(u32, u32)>::empty(),
                    new_table@.pattern_lengths == Seq::<u32>::empty(),
                    forall|i: int| 0 <= i < c * cc + b ==> #[trigger] new_table@.transitions[i] == tclass(
                        m,
                        p,
                        last_rep(p, i / cc as int, n as int),
                        i % cc as int,
                    ),
                decreases cc - b,
            {
                proof {
                    lemma_row_index(c as int, b as int, k as int, cc as int);
                    vstd::arithmetic::div_mod::lemma_fundamental_div_mod_converse(
                        c * cc + b,
                        cc as int,
                        c as int,
                        b as int,
                    );
                }
                let target = self.target_class(&partition, rep[c], b);
                let idx = c * cc + b;
                new_table.transitions.set(idx, target);
                b += 1;
            }
            proof {
                assert((c + 1) * cc == c * cc + cc) by (nonlinear_arith);
            }
            c += 1;
        }
        proof {
            let q = quotient(m, p, k as nat);
            assert(new_table@.transitions =~= q.transitions);
        }
        let acc = &self.accept_states;
        let ghost tr = new_table@.transitions;
        let mut i: usize = 0;
        while i < acc.len()
            invariant
                m == self@,
                new_table@.transitions == tr,
                new_table@.state_count == k,
                new_table@.class_count == cc,
                acc@ == m.accept_states,
                n == m.state_count,
                p == partition@,
                p.len() == n,
                spec_minimize(m) is Some ==> forall|x: int|
                    0 <= x < m.accept_states.len() ==> (#[trigger] m.accept_states[x]).0 < m.state_count,
                spec_minimize(m) is Some,
                i <= acc.len(),
                new_table@.accept_states == dedup_accepts(p, acc@.take(i as int)),
            decreases acc.len() - i,
        {
            let (s, pid) = acc[i];
            assert(acc@[i as int].0 < n);
            let e = (partition[s as usize], pid);
            if !contains_pair(&new_table.accept_states, e) {
                new_table.accept_states.push(e);
            }
            proof {
                let a1 = acc@.take(i + 1);
                assert(a1.drop_last() == acc@.take(i as int));
                assert(a1.last() == (s, pid));
            }
            i += 1;
        }
        assert(acc@.take(acc.len() as int) == acc@);
        new_table.pattern_lengths = self.pattern_lengths.clone();
        proof {
            let q = quotient(m, p, k as nat);
            assert(new_table@.transitions =~= q.transitions);
        }
        Some(new_table)
    }
}

} // verus!
