//! Properties that relate several operations of the library.

use vstd::prelude::*;
use crate::scan::{
    accept_of, chain, events_at, get_or, next_state, pad_links, run, scan_events, scanner_of, ScanModel,
    NO_MATCH,
};
use crate::table::minimize::{
    canon_wf, init_num, init_partition, init_prefix, last_pid, last_rep, lemma_progress,
    lemma_step, pair_sum, quotient, refine, refine_fixpoint, refine_fuel, refine_step, refines,
    same_sig, sig_rel, spec_minimize, dedup_accepts, tclass, lemma_pair_sum_bound, lemma_canon_wf,
    lemma_sig_equiv,
};
use crate::table::serialize::parts_valid;
use crate::table::{new_accepts, TableModel};

verus! {

// ---------------------------------------------------------------------------
// The refinement reaches a fixpoint that refines the initial partition.
// ---------------------------------------------------------------------------

proof fn lemma_refine_props(m: TableModel, p: Seq<u32>, num: nat, fuel: nat, fresh: bool, prev: Seq<u32>)
    requires
        m.state_count <= u32::MAX,
        p.len() == m.state_count,
        prev.len() == m.state_count,
        fresh ==> refine_step(m, prev).0 == p && refine_step(m, prev).1.len() == num,
        fuel >= 4 * pair_sum(p, m.state_count as int) + (if fresh { 0int } else { 2int }) + 1,
    ensures
        ({
            let (r, k) = refine(m, p, num, fuel);
            &&& r.len() == m.state_count
            &&& refine_step(m, r).0 == r
            &&& refine_step(m, r).1.len() == k
            &&& refines(r, p, m.state_count as int)
        }),
    decreases fuel,
{
    let n = m.state_count as int;
    let (q, rr) = refine_step(m, p);
    lemma_step(m, p);
    if rr.len() == num && q == p {
    } else {
        lemma_progress(m, p, num, fresh, prev);
        lemma_refine_props(m, q, rr.len(), (fuel - 1) as nat, true, p);
        let (r, k) = refine(m, q, rr.len(), (fuel - 1) as nat);
        assert forall|s: int, t: int| 0 <= s < n && 0 <= t < n && #[trigger] r[s] == #[trigger] r[t] implies p[s] == p[t] by {
            assert(q[s] == q[t]);
        }
    }
}

/// The initial classes separate states with different last patterns.
proof fn lemma_init_classes(acc: Seq<(u32, u32)>, k: nat)
    requires
        k <= u32::MAX - 2,
    ensures
        ({
            let (p, seen) = init_prefix(acc, k);
            &&& p.len() == k
            &&& seen.no_duplicates()
            &&& seen.len() <= k
            &&& forall|x: int| 0 <= x < k ==> {
                &&& (#[trigger] p[x] == 0) == (last_pid(acc, x) is None)
                &&& p[x] != 0 ==> 1 <= p[x] <= seen.len() && last_pid(acc, x) == Some(seen[p[x] - 1])
            }
        }),
    decreases k,
{
    if k > 0 {
        lemma_init_classes(acc, (k - 1) as nat);
        let (p0, s0) = init_prefix(acc, (k - 1) as nat);
        let (p, seen) = init_prefix(acc, k);
        match last_pid(acc, k - 1) {
            None => {
                assert(p == p0.push(0u32));
                assert forall|x: int| 0 <= x < k implies {
                    &&& (#[trigger] p[x] == 0) == (last_pid(acc, x) is None)
                    &&& p[x] != 0 ==> 1 <= p[x] <= seen.len() && last_pid(acc, x) == Some(seen[p[x] - 1])
                } by {
                    if x < k - 1 {
                        assert(p[x] == p0[x]);
                    }
                }
            },
            Some(pid) => {
                if s0.contains(pid) {
                    let j = choose|j: int| 0 <= j < s0.len() && s0[j] == pid;
                    assert(p == p0.push((j + 1) as u32));
                    assert forall|x: int| 0 <= x < k implies {
                        &&& (#[trigger] p[x] == 0) == (last_pid(acc, x) is None)
                        &&& p[x] != 0 ==> 1 <= p[x] <= seen.len() && last_pid(acc, x) == Some(seen[p[x] - 1])
                    } by {
                        if x < k - 1 {
                            assert(p[x] == p0[x]);
                        }
                    }
                } else {
                    assert(p == p0.push((s0.len() + 1) as u32));
                    assert(seen == s0.push(pid));
                    assert forall|x: int| 0 <= x < k implies {
                        &&& (#[trigger] p[x] == 0) == (last_pid(acc, x) is None)
                        &&& p[x] != 0 ==> 1 <= p[x] <= seen.len() && last_pid(acc, x) == Some(seen[p[x] - 1])
                    } by {
                        if x < k - 1 {
                            assert(p[x] == p0[x]);
                            if p[x] != 0 {
                                assert(seen[p[x] - 1] == s0[p[x] - 1]);
                            }
                        }
                    }
                }
            },
        }
    }
}

/// The refinement of a table ends in a fixpoint that refines the initial
/// partition and numbers its classes canonically.
proof fn lemma_fixpoint(m: TableModel)
    requires
        m.state_count <= 65_536,
    ensures
        ({
            let (p, k) = refine_fixpoint(m);
            &&& p.len() == m.state_count
            &&& refine_step(m, p).0 == p
            &&& refine_step(m, p).1.len() == k
            &&& refines(p, init_partition(m), m.state_count as int)
            &&& canon_wf(sig_rel(m, p), m.state_count as int, p, refine_step(m, p).1)
            &&& forall|s: int, t: int| 0 <= s < m.state_count && 0 <= t < m.state_count ==>
                (#[trigger] p[s] == #[trigger] p[t]) == same_sig(m, p, s, t)
        }),
{
    let n = m.state_count;
    lemma_init_classes(m.accept_states, n as nat);
    let p0 = init_partition(m);
    lemma_pair_sum_bound(p0, n as int);
    assert(refine_fuel(m) == 4 * (n * n) + 4);
    lemma_refine_props(m, p0, init_num(m), refine_fuel(m), false, p0);
    let (p, k) = refine_fixpoint(m);
    lemma_step(m, p);
}

// ---------------------------------------------------------------------------
// Accept entries.
// ---------------------------------------------------------------------------

/// Accept entries name distinct states inside the table.
pub open spec fn accepts_distinct(m: TableModel) -> bool {
    &&& forall|i: int| 0 <= i < m.accept_states.len() ==> (#[trigger] m.accept_states[i]).0 < m.state_count
    &&& forall|i: int, j: int|
        0 <= i < j < m.accept_states.len() ==> #[trigger] m.accept_states[i].0 != #[trigger] m.accept_states[j].0
}

proof fn lemma_last_pid_entries(acc: Seq<(u32, u32)>, x: int)
    ensures
        last_pid(acc, x) is None ==> forall|i: int| 0 <= i < acc.len() ==> (#[trigger] acc[i]).0 != x,
        last_pid(acc, x) matches Some(p) ==> exists|i: int| 0 <= i < acc.len() && (#[trigger] acc[i]).0 == x && acc[i].1 == p,
    decreases acc.len(),
{
    if acc.len() > 0 {
        let d = acc.drop_last();
        lemma_last_pid_entries(d, x);
        if acc.last().0 as int == x {
            assert(acc[acc.len() - 1].0 == x);
        } else {
            assert forall|i: int| 0 <= i < d.len() implies #[trigger] acc[i] == d[i] by {}
            if last_pid(d, x) is None {
                assert forall|i: int| 0 <= i < acc.len() implies (#[trigger] acc[i]).0 != x by {
                    if i < d.len() {
                        assert(acc[i] == d[i]);
                    }
                }
            } else {
                let p = last_pid(d, x).unwrap();
                let i = choose|i: int| 0 <= i < d.len() && (#[trigger] d[i]).0 == x && d[i].1 == p;
                assert(acc[i] == d[i]);
            }
        }
    }
}

/// When all entries for `c` carry pattern `v`, the last one does too.
proof fn lemma_last_pid_uniform(d: Seq<(u32, u32)>, c: int, v: u32)
    requires
        forall|i: int| 0 <= i < d.len() && (#[trigger] d[i]).0 == c ==> d[i].1 == v,
    ensures
        last_pid(d, c) == if exists|i: int| 0 <= i < d.len() && (#[trigger] d[i]).0 == c {
            Some(v)
        } else {
            None::<u32>
        },
    decreases d.len(),
{
    if d.len() > 0 {
        let e = d.drop_last();
        assert forall|i: int| 0 <= i < e.len() implies #[trigger] e[i] == d[i] by {}
        lemma_last_pid_uniform(e, c, v);
        if d.last().0 as int == c {
            assert(d[d.len() - 1].0 == c);
        } else {
            if exists|i: int| 0 <= i < d.len() && (#[trigger] d[i]).0 == c {
                let i = choose|i: int| 0 <= i < d.len() && (#[trigger] d[i]).0 == c;
                assert(i < e.len());
                assert(e[i] == d[i]);
            }
            if exists|i: int| 0 <= i < e.len() && (#[trigger] e[i]).0 == c {
                let i = choose|i: int| 0 <= i < e.len() && (#[trigger] e[i]).0 == c;
                assert(e[i] == d[i]);
            }
        }
    }
}

/// The entries kept by `dedup_accepts` are exactly the mapped entries.
proof fn lemma_dedup_entries(p: Seq<u32>, acc: Seq<(u32, u32)>)
    ensures
        forall|j: int| 0 <= j < dedup_accepts(p, acc).len() ==> exists|i: int|
            0 <= i < acc.len() && #[trigger] dedup_accepts(p, acc)[j] == (p[acc[i].0 as int], acc[i].1),
        forall|i: int| 0 <= i < acc.len() ==> dedup_accepts(p, acc).contains(
            (p[(#[trigger] acc[i]).0 as int], acc[i].1),
        ),
    decreases acc.len(),
{
    if acc.len() > 0 {
        let a = acc.drop_last();
        lemma_dedup_entries(p, a);
        let prev = dedup_accepts(p, a);
        let d = dedup_accepts(p, acc);
        let e = (p[acc.last().0 as int], acc.last().1);
        assert forall|i: int| 0 <= i < a.len() implies #[trigger] a[i] == acc[i] by {}
        assert forall|j: int| 0 <= j < d.len() implies exists|i: int|
            0 <= i < acc.len() && #[trigger] d[j] == (p[acc[i].0 as int], acc[i].1) by {
            if j < prev.len() {
                assert(d[j] == prev[j]);
                let i = choose|i: int| 0 <= i < a.len() && #[trigger] prev[j] == (p[a[i].0 as int], a[i].1);
                assert(a[i] == acc[i]);
            } else {
                assert(d[j] == e);
                assert(acc[acc.len() - 1] == acc.last());
            }
        }
        assert forall|i: int| 0 <= i < acc.len() implies d.contains((p[(#[trigger] acc[i]).0 as int], acc[i].1)) by {
            if i < a.len() {
                assert(a[i] == acc[i]);
                assert(prev.contains((p[a[i].0 as int], a[i].1)));
                let j = choose|j: int| 0 <= j < prev.len() && prev[j] == (p[a[i].0 as int], a[i].1);
                if !prev.contains(e) {
                    assert(d[j] == prev[j]);
                }
            } else {
                assert(acc[i] == acc.last());
                if !prev.contains(e) {
                    assert(d[prev.len() as int] == e);
                }
            }
        }
    }
}

/// In the minimized table, each class accepts the pattern its states accept.
proof fn lemma_quotient_accepts(m: TableModel, x: int)
    requires
        m.state_count <= 65_536,
        accepts_distinct(m),
        0 <= x < m.state_count,
    ensures
        last_pid(dedup_accepts(refine_fixpoint(m).0, m.accept_states), refine_fixpoint(m).0[x] as int)
            == last_pid(m.accept_states, x),
{
    let n = m.state_count as int;
    let acc = m.accept_states;
    lemma_fixpoint(m);
    lemma_init_classes(acc, n as nat);
    let (p, k) = refine_fixpoint(m);
    let p0 = init_partition(m);
    let (_, seen) = init_prefix(acc, n as nat);
    let d = dedup_accepts(p, acc);
    let c = p[x] as int;
    lemma_dedup_entries(p, acc);
    lemma_last_pid_entries(acc, x);
    // every entry of `d` for class `c` comes from a state of class `c`,
    // whose pattern is that of `x`
    match last_pid(acc, x) {
        Some(v) => {
            assert forall|j: int| 0 <= j < d.len() && (#[trigger] d[j]).0 == c implies d[j].1 == v by {
                let i = choose|i: int| 0 <= i < acc.len() && #[trigger] d[j] == (p[acc[i].0 as int], acc[i].1);
                let y = acc[i].0 as int;
                assert(p[y] == p[x]);
                assert(p0[y] == p0[x]);
                lemma_last_pid_entries(acc, y);
                lemma_distinct_last(acc, i);
                assert(last_pid(acc, y) == Some(acc[i].1));
                assert(p0[x] != 0);
                assert(last_pid(acc, y) == Some(seen[p0[y] - 1]));
            }
            lemma_last_pid_uniform(d, c, v);
            let i = choose|i: int| 0 <= i < acc.len() && (#[trigger] acc[i]).0 == x && acc[i].1 == v;
            assert(d.contains((p[acc[i].0 as int], acc[i].1)));
            let j = choose|j: int| 0 <= j < d.len() && d[j] == (p[acc[i].0 as int], acc[i].1);
            assert(d[j].0 == c);
        },
        None => {
            assert forall|j: int| 0 <= j < d.len() implies (#[trigger] d[j]).0 != c by {
                let i = choose|i: int| 0 <= i < acc.len() && #[trigger] d[j] == (p[acc[i].0 as int], acc[i].1);
                let y = acc[i].0 as int;
                if p[y] == p[x] {
                    assert(p0[y] == p0[x]);
                    lemma_last_pid_entries(acc, y);
                    assert(p0[x] == 0);
                    assert(last_pid(acc, y) is None);
                }
            }
            lemma_last_pid_uniform(d, c, 0);
        },
    }
}

/// With distinct states, an entry's pattern is the last one for its state.
proof fn lemma_distinct_last(acc: Seq<(u32, u32)>, i: int)
    requires
        0 <= i < acc.len(),
        forall|a: int, b: int| 0 <= a < b < acc.len() ==> #[trigger] acc[a].0 != #[trigger] acc[b].0,
    ensures
        last_pid(acc, acc[i].0 as int) == Some(acc[i].1),
    decreases acc.len(),
{
    if i < acc.len() - 1 {
        let d = acc.drop_last();
        assert(acc[acc.len() - 1].0 != acc[i].0);
        assert forall|a: int, b: int| 0 <= a < b < d.len() implies #[trigger] d[a].0 != #[trigger] d[b].0 by {
            assert(d[a] == acc[a] && d[b] == acc[b]);
        }
        assert(d[i] == acc[i]);
        lemma_distinct_last(d, i);
    }
}

// ---------------------------------------------------------------------------
// Minimization keeps what the scanner reports.
// ---------------------------------------------------------------------------

/// The tables on which minimization keeps the scan results: a full
/// transition array over at least 256 classes (so every byte selects an
/// entry of the current row), targets that are states (or the word
/// `0x8000_0000`, which both the scan and minimization read as state 0), and
/// accept entries that name distinct states.
pub open spec fn minimize_law_ok(m: TableModel) -> bool {
    &&& m.state_count <= 65_536
    &&& m.class_count >= 256
    &&& m.transitions.len() == m.state_count * m.class_count
    &&& forall|i: int|
        0 <= i < m.transitions.len() ==> #[trigger] m.transitions[i] < m.state_count || m.transitions[i]
            == 0x8000_0000u32
    &&& accepts_distinct(m)
}

proof fn lemma_mask_small(x: u32)
    requires
        x < 0x8000_0000,
    ensures
        x & 0x7FFF_FFFFu32 == x,
{
    assert(x < 0x8000_0000 ==> x & 0x7FFF_FFFFu32 == x) by (bit_vector);
}

proof fn lemma_last_rep_found(p: Seq<u32>, c: int, k: int, y: int)
    requires
        0 <= y < k,
        p[y] as int == c,
    ensures
        0 <= last_rep(p, c, k) < k,
        p[last_rep(p, c, k)] as int == c,
    decreases k,
{
    if p[k - 1] as int != c {
        lemma_last_rep_found(p, c, k - 1, y);
    }
}

/// Scanning restarts on every byte without output links.
proof fn lemma_single_chain(n: int, s: u32)
    requires
        s != NO_MATCH,
        n >= 0,
    ensures
        chain(pad_links(Seq::empty(), n), s, (pad_links(Seq::empty(), n).len() + 1) as nat) == seq![s],
{
    let l = pad_links(Seq::<u32>::empty(), n);
    assert(get_or(l, s as int, NO_MATCH) == NO_MATCH);
    let f = (l.len() + 1) as nat;
    assert(chain(l, NO_MATCH, (f - 1) as nat) == Seq::<u32>::empty());
    assert(chain(l, s, f) =~= seq![s]);
}

/// Runs of the table and of its minimized table move in step: the minimized
/// run sits in the class of the original run's state and has reported the
/// same matches.
proof fn lemma_run_quotient(m: TableModel, input: Seq<u8>)
    requires
        minimize_law_ok(m),
        spec_minimize(m) is Some,
    ensures
        ({
            let q = spec_minimize(m).unwrap();
            let p = refine_fixpoint(m).0;
            let a = run(scanner_of(m, Seq::empty()), input);
            let b = run(scanner_of(q, Seq::empty()), input);
            &&& a.0 < m.state_count
            &&& b.0 == p[a.0 as int]
            &&& b.1 == a.1
        }),
    decreases input.len(),
{
    let q = spec_minimize(m).unwrap();
    let (p, k) = refine_fixpoint(m);
    let sa = scanner_of(m, Seq::empty());
    let sb = scanner_of(q, Seq::empty());
    let n = m.state_count as int;
    let cc = m.class_count as int;
    lemma_fixpoint(m);
    if input.len() == 0 {
        assert(p[0] == 0);
    } else {
        lemma_run_quotient(m, input.drop_last());
        let (xa, ea) = run(sa, input.drop_last());
        let (xb, eb) = run(sb, input.drop_last());
        let byte = input.last();
        // the original step
        let ia = xa as int * cc + byte as int;
        assert(0 <= ia < n * cc) by (nonlinear_arith)
            requires
                0 <= xa < n,
                0 <= byte < 256 <= cc,
                ia == xa as int * cc + byte as int,
        ;
        let ta = m.transitions[ia];
        let na = next_state(sa.transitions, sa.class_count, xa, byte);
        if ta < n {
            lemma_mask_small(ta);
            assert(na == ta);
        } else {
            assert(ta & 0x7FFF_FFFFu32 == 0) by (bit_vector)
                requires
                    ta == 0x8000_0000u32,
            ;
            assert(na == 0);
        }
        // the minimized step
        let c = p[xa as int] as int;
        assert(0 <= c < k);
        let ib = xb as int * cc + byte as int;
        assert(0 <= ib < k * cc) by (nonlinear_arith)
            requires
                0 <= xb < k,
                0 <= byte < 256 <= cc,
                ib == xb as int * cc + byte as int,
        ;
        vstd::arithmetic::div_mod::lemma_fundamental_div_mod_converse(ib, cc, xb as int, byte as int);
        let rep = last_rep(p, c, n);
        lemma_last_rep_found(p, c, n, xa as int);
        assert(same_sig(m, p, rep, xa as int));
        assert(tclass(m, p, rep, byte as int) == tclass(m, p, xa as int, byte as int));
        assert(q.transitions[ib] == tclass(m, p, rep, byte as int));
        assert(tclass(m, p, xa as int, byte as int) == p[na as int]);
        lemma_mask_small(p[na as int]);
        let nb = next_state(sb.transitions, sb.class_count, xb, byte);
        assert(nb == p[na as int]);
        // acceptance agrees
        lemma_quotient_accepts(m, na as int);
        assert(get_or(sa.accept_pattern, na as int, NO_MATCH) == get_or(sb.accept_pattern, nb as int, NO_MATCH));
        if get_or(sa.accept_pattern, na as int, NO_MATCH) != NO_MATCH {
            let end = input.len() as u32;
            lemma_single_chain(n, na);
            lemma_single_chain(k as int, nb);
            let eva = events_at(sa, na, end);
            let evb = events_at(sb, nb, end);
            assert(eva =~= seq![(get_or(sa.accept_pattern, na as int, 0), end)]);
            assert(evb =~= seq![(get_or(sb.accept_pattern, nb as int, 0), end)]);
            assert(p[0] == 0);
        }
    }
}

/// Law: the minimized table reports the same matches as the table on every
/// input, with the same pattern lengths, when the table satisfies
/// [`minimize_law_ok`].
pub proof fn lemma_minimize_preserves_scan(m: TableModel, input: Seq<u8>)
    requires
        minimize_law_ok(m),
        spec_minimize(m) is Some,
    ensures
        scan_events(scanner_of(spec_minimize(m).unwrap(), Seq::empty()), input) == scan_events(
            scanner_of(m, Seq::empty()),
            input,
        ),
        scanner_of(spec_minimize(m).unwrap(), Seq::empty()).pattern_lengths == scanner_of(
            m,
            Seq::empty(),
        ).pattern_lengths,
{
    lemma_run_quotient(m, input);
}

/// Law: a minimized table has fewer states than the table and as many
/// classes.
pub proof fn lemma_minimize_shrinks(m: TableModel)
    requires
        spec_minimize(m) is Some,
    ensures
        spec_minimize(m).unwrap().state_count < m.state_count,
        spec_minimize(m).unwrap().class_count == m.class_count,
{
}

/// The accept entries mapped to classes hold no entry twice.
proof fn lemma_dedup_distinct(p: Seq<u32>, acc: Seq<(u32, u32)>)
    ensures
        dedup_accepts(p, acc).no_duplicates(),
    decreases acc.len(),
{
    if acc.len() > 0 {
        lemma_dedup_distinct(p, acc.drop_last());
    }
}

/// Law: minimizing a valid table gives a valid table with at least one and
/// fewer states, the same classes and the same pattern lengths.
pub proof fn lemma_minimize_valid(m: TableModel)
    requires
        parts_valid(m),
        spec_minimize(m) is Some,
    ensures
        ({
            let q = spec_minimize(m).unwrap();
            &&& parts_valid(q)
            &&& 1 <= q.state_count < m.state_count
            &&& q.class_count == m.class_count
            &&& q.pattern_lengths == m.pattern_lengths
        }),
{
    let n = m.state_count as int;
    let acc = m.accept_states;
    lemma_fixpoint(m);
    lemma_init_classes(acc, n as nat);
    let (p, k) = refine_fixpoint(m);
    let p0 = init_partition(m);
    let (_, seen) = init_prefix(acc, n as nat);
    let q = spec_minimize(m).unwrap();
    assert(q == quotient(m, p, k));
    assert(p[0] < k);
    // transitions
    assert forall|i: int| 0 <= i < q.transitions.len() implies (#[trigger] q.transitions[i] & 0x7FFF_FFFFu32)
        < q.state_count by {
        let cc = m.class_count as int;
        let v = tclass(m, p, last_rep(p, i / cc, n), i % cc);
        assert(q.transitions[i] == v);
        assert(v < k);
        lemma_mask_small(v);
    }
    // accept entries
    let d = dedup_accepts(p, acc);
    lemma_dedup_entries(p, acc);
    lemma_dedup_distinct(p, acc);
    assert forall|j: int| 0 <= j < d.len() implies {
        &&& (#[trigger] d[j]).0 < k
        &&& d[j].1 < m.pattern_lengths.len()
    } by {
        let i = choose|i: int| 0 <= i < acc.len() && #[trigger] d[j] == (p[acc[i].0 as int], acc[i].1);
        assert(acc[i].0 < n);
    }
    assert forall|j1: int, j2: int| 0 <= j1 < j2 < d.len() implies #[trigger] d[j1].0 != #[trigger] d[j2].0 by {
        let i1 = choose|i: int| 0 <= i < acc.len() && #[trigger] d[j1] == (p[acc[i].0 as int], acc[i].1);
        let i2 = choose|i: int| 0 <= i < acc.len() && #[trigger] d[j2] == (p[acc[i].0 as int], acc[i].1);
        let y1 = acc[i1].0 as int;
        let y2 = acc[i2].0 as int;
        if d[j1].0 == d[j2].0 {
            assert(p[y1] == p[y2]);
            assert(p0[y1] == p0[y2]);
            lemma_distinct_last(acc, i1);
            lemma_distinct_last(acc, i2);
            assert(p0[y1] != 0);
            assert(last_pid(acc, y1) == Some(seen[p0[y1] - 1]));
            assert(last_pid(acc, y2) == Some(seen[p0[y2] - 1]));
            assert(d[j1] == d[j2]);
            assert(false);
        }
    }
}

// ---------------------------------------------------------------------------
// The final partition is the coarsest stable one.
// ---------------------------------------------------------------------------

/// Every transition of every state leads to a state of the table.
pub open spec fn targets_in_table(m: TableModel) -> bool {
    forall|s: int, b: int|
        0 <= s < m.state_count && 0 <= b < m.class_count ==> #[trigger] m.transitions[s * m.class_count + b]
            < m.state_count
}

/// Partition `e` (a class per state) is stable: states of one class have,
/// on every input class, targets of one class.
pub open spec fn stable(m: TableModel, e: Seq<u32>) -> bool {
    forall|s: int, t: int|
        0 <= s < m.state_count && 0 <= t < m.state_count && #[trigger] e[s] == #[trigger] e[t] ==> forall|b: int|
            0 <= b < m.class_count ==> #[trigger] tclass(m, e, s, b) == tclass(m, e, t, b)
}

/// One refinement step keeps every stable partition that refines the
/// current one a refinement of the next one.
proof fn lemma_step_coarsest(m: TableModel, e: Seq<u32>, cur: Seq<u32>)
    requires
        m.state_count <= 65_536,
        targets_in_table(m),
        e.len() == m.state_count,
        cur.len() == m.state_count,
        stable(m, e),
        refines(e, cur, m.state_count as int),
    ensures
        refine_step(m, cur).0.len() == m.state_count,
        refines(e, refine_step(m, cur).0, m.state_count as int),
{
    let n = m.state_count as int;
    let cc = m.class_count as int;
    let rel = sig_rel(m, cur);
    lemma_sig_equiv(m, cur);
    lemma_canon_wf(rel, n as nat);
    let (c, r) = refine_step(m, cur);
    assert forall|s: int, t: int| 0 <= s < n && 0 <= t < n && #[trigger] e[s] == #[trigger] e[t] implies c[s]
        == c[t] by {
        assert forall|b: int| 0 <= b < cc implies #[trigger] tclass(m, cur, s, b) == tclass(m, cur, t, b) by {
            let ts = m.transitions[s * cc + b];
            let tt = m.transitions[t * cc + b];
            assert(ts < n && tt < n);
            assert(tclass(m, e, s, b) == tclass(m, e, t, b));
            assert(e[ts as int] == e[tt as int]);
        }
        assert(same_sig(m, cur, s, t));
        assert(rel(s, t));
        let rs = r[c[s] as int];
        let rt = r[c[t] as int];
        assert(rel(rs, s));
        assert(rel(rt, t));
        assert(rel(s, rt));
        assert(rel(rs, rt));
        if c[s] != c[t] {
            assert(!rel(r[c[s] as int], r[c[t] as int]));
        }
    }
}

/// Refinement from a partition that a stable partition refines ends in a
/// partition that it refines too.
proof fn lemma_refine_coarsest(m: TableModel, e: Seq<u32>, p: Seq<u32>, num: nat, fuel: nat)
    requires
        m.state_count <= 65_536,
        targets_in_table(m),
        e.len() == m.state_count,
        p.len() == m.state_count,
        stable(m, e),
        refines(e, p, m.state_count as int),
    ensures
        refines(e, refine(m, p, num, fuel).0, m.state_count as int),
    decreases fuel,
{
    if fuel > 0 {
        let (q, r) = refine_step(m, p);
        if !(r.len() == num && q == p) {
            lemma_step_coarsest(m, e, p);
            lemma_refine_coarsest(m, e, q, r.len(), (fuel - 1) as nat);
        }
    }
}

/// Law: the partition that minimization merges states by is the coarsest
/// stable partition that separates the accepted patterns. It refines the
/// initial partition (states split by the pattern they accept), it is
/// stable, and every stable partition that refines the initial one refines
/// it. Stated for tables whose targets are all states.
pub proof fn lemma_minimize_partition(m: TableModel, e: Seq<u32>)
    requires
        m.state_count <= 65_536,
        targets_in_table(m),
        e.len() == m.state_count,
        refines(e, init_partition(m), m.state_count as int),
        stable(m, e),
    ensures
        refines(refine_fixpoint(m).0, init_partition(m), m.state_count as int),
        stable(m, refine_fixpoint(m).0),
        refines(e, refine_fixpoint(m).0, m.state_count as int),
{
    lemma_fixpoint(m);
    lemma_init_classes(m.accept_states, m.state_count as nat);
    let p = refine_fixpoint(m).0;
    assert forall|s: int, t: int|
        0 <= s < m.state_count && 0 <= t < m.state_count && #[trigger] p[s] == #[trigger] p[t] implies forall|b: int|
        0 <= b < m.class_count ==> #[trigger] tclass(m, p, s, b) == tclass(m, p, t, b) by {
        assert(same_sig(m, p, s, t));
    }
    lemma_refine_coarsest(m, e, init_partition(m), init_num(m), refine_fuel(m));
}

// ---------------------------------------------------------------------------
// A minimized table is minimal.
// ---------------------------------------------------------------------------

/// Two states share their initial class exactly when they accept the same
/// pattern, or both none.
proof fn lemma_init_same(m: TableModel, a: int, b: int)
    requires
        m.state_count <= 65_536,
        0 <= a < m.state_count,
        0 <= b < m.state_count,
    ensures
        (init_partition(m)[a] == init_partition(m)[b]) == (last_pid(m.accept_states, a) == last_pid(
            m.accept_states,
            b,
        )),
{
    let acc = m.accept_states;
    lemma_init_classes(acc, m.state_count as nat);
    let p0 = init_partition(m);
    let seen = init_prefix(acc, m.state_count as nat).1;
    if p0[a] != 0 && p0[b] != 0 && last_pid(acc, a) == last_pid(acc, b) {
        assert(seen[p0[a] - 1] == seen[p0[b] - 1]);
        if p0[a] != p0[b] {
            assert(seen.no_duplicates());
            assert(false);
        }
    }
}

/// The minimized table's entry for the class of `s` on `b` is the class of
/// the target of `s` on `b`.
proof fn lemma_quotient_entry(m: TableModel, s: int, b: int)
    requires
        m.state_count <= 65_536,
        targets_in_table(m),
        spec_minimize(m) is Some,
        0 <= s < m.state_count,
        0 <= b < m.class_count,
    ensures
        ({
            let p = refine_fixpoint(m).0;
            let q = spec_minimize(m).unwrap();
            &&& 0 <= p[s] * m.class_count + b < q.transitions.len()
            &&& q.transitions[p[s] * m.class_count + b] == p[m.transitions[s * m.class_count + b] as int]
        }),
{
    let n = m.state_count as int;
    let cc = m.class_count as int;
    lemma_fixpoint(m);
    let (p, k) = refine_fixpoint(m);
    let q = spec_minimize(m).unwrap();
    assert(q == quotient(m, p, k));
    let c = p[s] as int;
    assert(c < k);
    let i = c * cc + b;
    assert(0 <= i < k * cc) by (nonlinear_arith)
        requires
            0 <= c < k,
            0 <= b < cc,
            i == c * cc + b,
    ;
    vstd::arithmetic::div_mod::lemma_fundamental_div_mod_converse(i, cc, c, b);
    let rep = last_rep(p, c, n);
    lemma_last_rep_found(p, c, n, s);
    assert(same_sig(m, p, rep, s));
    assert(tclass(m, p, rep, b) == tclass(m, p, s, b));
    assert(m.transitions[s * cc + b] < n);
}

/// Law: minimizing a minimized table changes nothing: it returns `None`.
/// Stated for valid tables whose targets are all states.
pub proof fn lemma_minimize_idempotent(m: TableModel)
    requires
        parts_valid(m),
        targets_in_table(m),
        spec_minimize(m) is Some,
    ensures
        spec_minimize(spec_minimize(m).unwrap()) is None,
{
    let n = m.state_count as int;
    let cc = m.class_count as int;
    lemma_fixpoint(m);
    let (p, k) = refine_fixpoint(m);
    let rm = refine_step(m, p).1;
    let q = spec_minimize(m).unwrap();
    lemma_minimize_valid(m);
    assert(q.state_count == k);
    if k > 1 {
        lemma_fixpoint(q);
        let (pq, kq) = refine_fixpoint(q);
        assert(accepts_distinct(m));
        let e = Seq::new(n as nat, |s: int| pq[p[s] as int]);
        // `e` is stable for `m`
        assert forall|s: int, t: int|
            0 <= s < n && 0 <= t < n && #[trigger] e[s] == #[trigger] e[t] implies forall|b: int|
            0 <= b < cc ==> #[trigger] tclass(m, e, s, b) == tclass(m, e, t, b) by {
            assert(pq[p[s] as int] == pq[p[t] as int]);
            assert(same_sig(q, pq, p[s] as int, p[t] as int));
            assert forall|b: int| 0 <= b < cc implies #[trigger] tclass(m, e, s, b) == tclass(m, e, t, b) by {
                lemma_quotient_entry(m, s, b);
                lemma_quotient_entry(m, t, b);
                assert(tclass(q, pq, p[s] as int, b) == tclass(q, pq, p[t] as int, b));
                let ts = m.transitions[s * cc + b];
                let tt = m.transitions[t * cc + b];
                assert(ts < n && tt < n);
                assert(p[ts as int] < k && p[tt as int] < k);
            }
        }
        // `e` refines the initial partition of `m`
        assert forall|s: int, t: int| 0 <= s < n && 0 <= t < n && #[trigger] e[s] == #[trigger] e[t] implies
            init_partition(m)[s] == init_partition(m)[t] by {
            assert(pq[p[s] as int] == pq[p[t] as int]);
            assert(init_partition(q)[p[s] as int] == init_partition(q)[p[t] as int]);
            lemma_init_same(q, p[s] as int, p[t] as int);
            lemma_quotient_accepts(m, s);
            lemma_quotient_accepts(m, t);
            lemma_init_same(m, s, t);
        }
        lemma_minimize_partition(m, e);
        // so the classes of `q` are never merged
        assert forall|x: int, y: int| 0 <= x < k && 0 <= y < k && #[trigger] pq[x] == #[trigger] pq[y] implies x
            == y by {
            let sx = rm[x];
            let sy = rm[y];
            assert(p[sx] == x && p[sy] == y);
            assert(e[sx] == e[sy]);
        }
        let rq = refine_step(q, pq).1;
        assert forall|x: int| #[trigger] vstd::set_lib::set_int_range(0, k as int).contains(x) implies rq.to_set()
            .contains(x) by {
            let j = pq[x] as int;
            assert(same_sig(q, pq, rq[j], x));
            assert(rq[j] == x);
        }
        vstd::set_lib::lemma_int_range(0, k as int);
        rq.lemma_cardinality_of_set();
        vstd::seq_lib::seq_to_set_is_finite(rq);
        vstd::set_lib::lemma_len_subset(vstd::set_lib::set_int_range(0, k as int), rq.to_set());
        assert(kq >= q.state_count);
    }
}

// ---------------------------------------------------------------------------
// Minimization merges every pair of equivalent states.
// ---------------------------------------------------------------------------

/// Law: when two distinct states are equivalent (some stable partition that
/// separates the accepted patterns puts them in one class), minimization
/// returns a smaller table, whenever a table with one state fewer can be
/// built. So it answers `None` only when no two states are equivalent.
/// Stated for tables whose targets are all states.
pub proof fn lemma_minimize_merges_equivalent(m: TableModel, e: Seq<u32>, s: int, t: int)
    requires
        m.state_count <= 65_536,
        targets_in_table(m),
        e.len() == m.state_count,
        refines(e, init_partition(m), m.state_count as int),
        stable(m, e),
        0 <= s < t < m.state_count,
        e[s] == e[t],
        new_accepts((m.state_count - 1) as usize, m.class_count),
    ensures
        spec_minimize(m) is Some,
        spec_minimize(m).unwrap().state_count < m.state_count,
{
    let n = m.state_count as int;
    let cc = m.class_count as int;
    lemma_minimize_partition(m, e);
    lemma_fixpoint(m);
    let (p, k) = refine_fixpoint(m);
    let r = refine_step(m, p).1;
    assert(p[s] == p[t]);
    // the representatives are distinct states
    assert(r.no_duplicates()) by {
        assert forall|i: int, j: int| 0 <= i < r.len() && 0 <= j < r.len() && i != j implies r[i] != r[j] by {
            assert(p[r[i]] == i && p[r[j]] == j);
        }
    }
    r.unique_seq_to_set();
    // one of `s`, `t` represents no class
    let u = if r.contains(s) { t } else { s };
    if r.contains(s) && r.contains(t) {
        let i = choose|i: int| 0 <= i < r.len() && r[i] == s;
        let j = choose|j: int| 0 <= j < r.len() && r[j] == t;
        assert(p[r[i]] == i && p[r[j]] == j);
        assert(false);
    }
    let range = vstd::set_lib::set_int_range(0, n);
    assert forall|x: int| #[trigger] r.to_set().contains(x) implies range.remove(u).contains(x) by {
        let j = choose|j: int| 0 <= j < r.len() && r[j] == x;
    }
    vstd::set_lib::lemma_int_range(0, n);
    vstd::set::axiom_set_remove_len(range, u);
    vstd::set_lib::lemma_len_subset(r.to_set(), range.remove(u));
    assert(k < n);
    assert(k * cc <= (n - 1) * cc) by (nonlinear_arith)
        requires
            k <= n - 1,
            cc >= 0,
    ;
    assert(new_accepts(k as usize, m.class_count));
}

} // verus!
