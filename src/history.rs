//! Properties of a whole run of samples: what the records say about the
//! sequence of snapshots that produced them.
use vstd::prelude::*;

use crate::tracker::{first_entry, has_pid, snapshot_has, unique_pids, TrackingState};

verus! {

/// Each of `states` after the first is what sampling the snapshot of the
/// same rank in `snapshots`, at the time of that rank in `times`, makes of
/// the state before it, starting from a tracker that has seen nothing.
pub open spec fn is_run(
    states: Seq<TrackingState>,
    snapshots: Seq<Seq<(u32, String)>>,
    times: Seq<String>,
) -> bool {
    &&& states.len() == snapshots.len() + 1
    &&& times.len() == snapshots.len()
    &&& states[0].wf()
    &&& states[0].records@.len() == 0
    &&& states[0].live_set@.len() == 0
    &&& forall|n: int|
        0 < n <= snapshots.len() ==> #[trigger] states[n].sampled_from(
            states[n - 1],
            snapshots[n - 1],
            times[n - 1],
        )
}

/// Snapshot `k` is the first one that lists `pid`.
pub open spec fn first_seen(snapshots: Seq<Seq<(u32, String)>>, pid: u32, k: int) -> bool {
    &&& 0 <= k < snapshots.len()
    &&& snapshot_has(snapshots[k], pid)
    &&& forall|m: int| 0 <= m < k ==> !snapshot_has(#[trigger] snapshots[m], pid)
}

/// Snapshot `k` is the first one after snapshot `since` that lacks `pid`.
pub open spec fn first_gone(
    snapshots: Seq<Seq<(u32, String)>>,
    pid: u32,
    since: int,
    k: int,
) -> bool {
    &&& since < k < snapshots.len()
    &&& !snapshot_has(snapshots[k], pid)
    &&& forall|m: int| since < m < k ==> snapshot_has(#[trigger] snapshots[m], pid)
}

/// Some snapshot before `upto` lists `pid`.
pub open spec fn seen_before(snapshots: Seq<Seq<(u32, String)>>, pid: u32, upto: int) -> bool {
    exists|k: int| 0 <= k < upto && snapshot_has(#[trigger] snapshots[k], pid)
}

/// Some snapshot strictly between `since` and `upto` lacks `pid`.
pub open spec fn gone_between(
    snapshots: Seq<Seq<(u32, String)>>,
    pid: u32,
    since: int,
    upto: int,
) -> bool {
    exists|k: int| since < k < upto && !snapshot_has(#[trigger] snapshots[k], pid)
}

/// Record `r`, present after the first `n` snapshots, was opened at the
/// first snapshot that listed it, and closed at the first later one that
/// lacked it, if any did.
spec fn record_history(
    r: crate::tracker::ProcessRecord,
    snapshots: Seq<Seq<(u32, String)>>,
    times: Seq<String>,
    n: int,
) -> bool {
    exists|k0: int|
        k0 < n && #[trigger] first_seen(snapshots, r.pid, k0) && {
            &&& r.info.open_time == times[k0]
            &&& exists|j: int|
                #[trigger] first_entry(snapshots[k0], r.pid, j) && r.info.name == snapshots[k0][j].1
            &&& (r.info.close_time is None <==> !gone_between(snapshots, r.pid, k0, n))
            &&& r.info.close_time is Some ==> exists|k1: int|
                k1 < n && #[trigger] first_gone(snapshots, r.pid, k0, k1)
                    && r.info.close_time == Some(times[k1])
        }
}

/// What holds of `states[n]` after the first `n` snapshots.
spec fn run_invariant(
    states: Seq<TrackingState>,
    snapshots: Seq<Seq<(u32, String)>>,
    times: Seq<String>,
    n: int,
) -> bool {
    &&& states[n].wf()
    &&& forall|p: u32| #[trigger] has_pid(states[n].records@, p) <==> seen_before(snapshots, p, n)
    &&& n > 0 ==> forall|p: u32|
        #[trigger] states[n].live_set@.contains(p) <==> snapshot_has(snapshots[n - 1], p)
    &&& forall|i: int|
        0 <= i < states[n].records@.len() ==> record_history(
            #[trigger] states[n].records@[i],
            snapshots,
            times,
            n,
        )
}

proof fn lemma_run_invariant(
    states: Seq<TrackingState>,
    snapshots: Seq<Seq<(u32, String)>>,
    times: Seq<String>,
    n: int,
)
    requires
        is_run(states, snapshots, times),
        0 <= n <= snapshots.len(),
    ensures
        run_invariant(states, snapshots, times, n),
    decreases n,
{
    if n == 0 {
        assert(states[0].records@.len() == 0);
        return;
    }
    lemma_run_invariant(states, snapshots, times, n - 1);
    let prev = states[n - 1];
    let cur = states[n];
    let snap = snapshots[n - 1];
    let now = times[n - 1];
    assert(cur.sampled_from(prev, snap, now));
    let old_len = prev.records@.len();
    assert forall|p: u32| #[trigger] has_pid(cur.records@, p) <==> seen_before(snapshots, p, n) by {
        if has_pid(cur.records@, p) {
            let i = choose|i: int| 0 <= i < cur.records@.len() && (#[trigger] cur.records@[i]).pid == p;
            if i < old_len {
                assert(prev.records@[i].pid == p);
                assert(has_pid(prev.records@, p));
            } else {
                let j = choose|j: int|
                    crate::tracker::first_entry(snap, cur.records@[i].pid, j) && cur.records@[i]
                        == crate::tracker::opened_at(snap[j].0, snap[j].1, now);
                assert(snap[j].0 == p);
                assert(snapshot_has(snapshots[n - 1], p));
            }
        }
        if seen_before(snapshots, p, n) {
            let k = choose|k: int| 0 <= k < n && snapshot_has(#[trigger] snapshots[k], p);
            if k < n - 1 {
                assert(seen_before(snapshots, p, n - 1));
                assert(has_pid(prev.records@, p));
                let i = choose|i: int| 0 <= i < prev.records@.len() && (#[trigger] prev.records@[i]).pid == p;
                assert(cur.records@[i].pid == p);
            }
        }
    }
    assert forall|i: int| 0 <= i < cur.records@.len() implies record_history(
        #[trigger] cur.records@[i],
        snapshots,
        times,
        n,
    ) by {
        let r = cur.records@[i];
        let p = r.pid;
        if i < old_len {
            let q = prev.records@[i];
            let k0 = choose|k0: int|
                k0 < n - 1 && #[trigger] first_seen(snapshots, q.pid, k0) && {
                    &&& q.info.open_time == times[k0]
                    &&& (q.info.close_time is None <==> !gone_between(snapshots, q.pid, k0, n - 1))
                    &&& q.info.close_time is Some ==> exists|k1: int|
                        k1 < n - 1 && #[trigger] first_gone(snapshots, q.pid, k0, k1)
                            && q.info.close_time == Some(times[k1])
                };
            assert(first_seen(snapshots, p, k0));
            if q.info.close_time is Some {
                assert(r == q);
                let w = choose|w: int| k0 < w < n - 1 && !snapshot_has(#[trigger] snapshots[w], p);
                assert(gone_between(snapshots, p, k0, n));
                let k1 = choose|k1: int|
                    k1 < n - 1 && #[trigger] first_gone(snapshots, q.pid, k0, k1)
                        && q.info.close_time == Some(times[k1]);
                assert(first_gone(snapshots, p, k0, k1));
            } else {
                assert(snapshot_has(snapshots[n - 2], p)) by {
                    if n - 2 > k0 {
                        if !snapshot_has(snapshots[n - 2], p) {
                            assert(gone_between(snapshots, p, k0, n - 1));
                        }
                    }
                }
                assert(prev.live_set@.contains(p));
                if snapshot_has(snap, p) {
                    assert(r == q);
                    assert(!gone_between(snapshots, p, k0, n)) by {
                        if gone_between(snapshots, p, k0, n) {
                            let w = choose|w: int| k0 < w < n && !snapshot_has(#[trigger] snapshots[w], p);
                            if w < n - 1 {
                                assert(gone_between(snapshots, p, k0, n - 1));
                            }
                        }
                    }
                } else {
                    assert(r == crate::tracker::closed_at(q, now));
                    assert(gone_between(snapshots, p, k0, n)) by {
                        assert(!snapshot_has(snapshots[n - 1], p));
                    }
                    assert forall|m: int| k0 < m < n - 1 implies snapshot_has(#[trigger] snapshots[m], p) by {
                        if !snapshot_has(snapshots[m], p) {
                            assert(gone_between(snapshots, p, k0, n - 1));
                        }
                    }
                    assert(first_gone(snapshots, p, k0, n - 1));
                }
            }
            assert(r.info.open_time == q.info.open_time);
            assert(r.info.name == q.info.name);
            let j = choose|j: int|
                #[trigger] first_entry(snapshots[k0], q.pid, j) && q.info.name == snapshots[k0][j].1;
            assert(first_entry(snapshots[k0], p, j));
        } else {
            let j = choose|j: int|
                crate::tracker::first_entry(snap, r.pid, j) && r == crate::tracker::opened_at(
                    snap[j].0,
                    snap[j].1,
                    now,
                );
            assert(snapshot_has(snapshots[n - 1], p)) by {
                assert(snap[j].0 == p);
            }
            assert(!seen_before(snapshots, p, n - 1));
            assert forall|m: int| 0 <= m < n - 1 implies !snapshot_has(#[trigger] snapshots[m], p) by {
                if snapshot_has(snapshots[m], p) {
                    assert(seen_before(snapshots, p, n - 1));
                assert(has_pid(prev.records@, p));
                }
            }
            assert(first_seen(snapshots, p, n - 1));
            assert(first_entry(snapshots[n - 1], p, j));
            assert(r.info.name == snapshots[n - 1][j].1);
            assert(!gone_between(snapshots, p, n - 1, n));
        }
    }
}

/// `first_seen` picks one snapshot.
proof fn lemma_first_seen_unique(snapshots: Seq<Seq<(u32, String)>>, pid: u32, a: int, b: int)
    requires
        first_seen(snapshots, pid, a),
        first_seen(snapshots, pid, b),
    ensures
        a == b,
{
    if a < b {
        assert(!snapshot_has(snapshots[a], pid));
    } else if b < a {
        assert(!snapshot_has(snapshots[b], pid));
    }
}

/// `first_gone` picks one snapshot.
proof fn lemma_first_gone_unique(
    snapshots: Seq<Seq<(u32, String)>>,
    pid: u32,
    since: int,
    a: int,
    b: int,
)
    requires
        first_gone(snapshots, pid, since, a),
        first_gone(snapshots, pid, since, b),
    ensures
        a == b,
{
    if a < b {
        assert(snapshot_has(snapshots[a], pid));
    } else if b < a {
        assert(snapshot_has(snapshots[b], pid));
    }
}

/// Every identifier that any snapshot of a run lists has exactly one record
/// at the end of the run. That record's open time is the time of the first
/// snapshot that listed it, and its name the one that snapshot gave first.
pub proof fn lemma_one_record_opened_at_first_sight(
    states: Seq<TrackingState>,
    snapshots: Seq<Seq<(u32, String)>>,
    times: Seq<String>,
    k: int,
    pid: u32,
)
    requires
        is_run(states, snapshots, times),
        0 <= k < snapshots.len(),
        snapshot_has(snapshots[k], pid),
    ensures
        ({
            let records = states.last().records@;
            exists|i: int|
                0 <= i < records.len() && (#[trigger] records[i]).pid == pid && (forall|j: int|
                    0 <= j < records.len() && (#[trigger] records[j]).pid == pid ==> j == i)
                    && (forall|k0: int|
                    #[trigger] first_seen(snapshots, pid, k0) ==> records[i].info.open_time
                        == times[k0]) && (forall|k0: int, j: int|
                    first_seen(snapshots, pid, k0) && #[trigger] first_entry(snapshots[k0], pid, j)
                        ==> records[i].info.name == snapshots[k0][j].1)
        }),
{
    let n = snapshots.len() as int;
    lemma_run_invariant(states, snapshots, times, n);
    let records = states[n].records@;
    assert(states.last() == states[n]);
    assert(seen_before(snapshots, pid, n));
    assert(has_pid(records, pid));
    let i = choose|i: int| 0 <= i < records.len() && (#[trigger] records[i]).pid == pid;
    assert(unique_pids(records));
    let w = choose|w: int|
        w < n && #[trigger] first_seen(snapshots, records[i].pid, w) && records[i].info.open_time
            == times[w];
    assert forall|k0: int| #[trigger] first_seen(snapshots, pid, k0) implies records[i].info.open_time
        == times[k0] by {
        lemma_first_seen_unique(snapshots, pid, k0, w);
    }
    let jw = choose|jw: int|
        #[trigger] first_entry(snapshots[w], pid, jw) && records[i].info.name == snapshots[w][jw].1;
    assert forall|k0: int, j: int|
        first_seen(snapshots, pid, k0) && #[trigger] first_entry(snapshots[k0], pid, j) implies records[i].info.name
            == snapshots[k0][j].1 by {
        lemma_first_seen_unique(snapshots, pid, k0, w);
        crate::tracker::lemma_first_entry_unique(snapshots[k0], pid, j, jw);
    }
}

/// At the end of a run, the records hold exactly the identifiers that some
/// snapshot of the run listed.
pub proof fn lemma_records_hold_listed_identifiers(
    states: Seq<TrackingState>,
    snapshots: Seq<Seq<(u32, String)>>,
    times: Seq<String>,
    pid: u32,
)
    requires
        is_run(states, snapshots, times),
    ensures
        has_pid(states.last().records@, pid) <==> exists|k: int|
            0 <= k < snapshots.len() && snapshot_has(#[trigger] snapshots[k], pid),
{
    let n = snapshots.len() as int;
    lemma_run_invariant(states, snapshots, times, n);
    assert(states.last() == states[n]);
    assert(has_pid(states[n].records@, pid) <==> seen_before(snapshots, pid, n));
}

/// At the end of a run, a record has a close time exactly when some snapshot
/// after the one that first listed its identifier lacks it; the close time is
/// then the time of the first such snapshot, whatever later snapshots say.
pub proof fn lemma_closed_iff_gone(
    states: Seq<TrackingState>,
    snapshots: Seq<Seq<(u32, String)>>,
    times: Seq<String>,
    i: int,
    k0: int,
)
    requires
        is_run(states, snapshots, times),
        0 <= i < states.last().records@.len(),
        first_seen(snapshots, states.last().records@[i].pid, k0),
    ensures
        ({
            let r = states.last().records@[i];
            &&& r.info.close_time is Some <==> gone_between(
                snapshots,
                r.pid,
                k0,
                snapshots.len() as int,
            )
            &&& forall|k1: int|
                #[trigger] first_gone(snapshots, r.pid, k0, k1) ==> r.info.close_time == Some(
                    times[k1],
                )
        }),
{
    let n = snapshots.len() as int;
    lemma_run_invariant(states, snapshots, times, n);
    assert(states.last() == states[n]);
    let r = states[n].records@[i];
    let w = choose|w: int|
        w < n && #[trigger] first_seen(snapshots, r.pid, w) && {
            &&& r.info.open_time == times[w]
            &&& (r.info.close_time is None <==> !gone_between(snapshots, r.pid, w, n))
            &&& r.info.close_time is Some ==> exists|k1: int|
                k1 < n && #[trigger] first_gone(snapshots, r.pid, w, k1)
                    && r.info.close_time == Some(times[k1])
        };
    lemma_first_seen_unique(snapshots, r.pid, k0, w);
    assert forall|k1: int| #[trigger] first_gone(snapshots, r.pid, k0, k1) implies r.info.close_time
        == Some(times[k1]) by {
        assert(gone_between(snapshots, r.pid, k0, n));
        let g = choose|g: int|
            g < n && #[trigger] first_gone(snapshots, r.pid, w, g) && r.info.close_time == Some(
                times[g],
            );
        lemma_first_gone_unique(snapshots, r.pid, k0, k1, g);
    }
}

/// A close time, once set, stays as it is for the rest of the run, even if
/// the identifier is listed again.
pub proof fn lemma_close_time_kept(
    states: Seq<TrackingState>,
    snapshots: Seq<Seq<(u32, String)>>,
    times: Seq<String>,
    m: int,
    n: int,
    i: int,
)
    requires
        is_run(states, snapshots, times),
        0 <= m <= n <= snapshots.len(),
        0 <= i < states[m].records@.len(),
        states[m].records@[i].info.close_time is Some,
    ensures
        exists|j: int|
            0 <= j < states[n].records@.len() && (#[trigger] states[n].records@[j]).pid
                == states[m].records@[i].pid && states[n].records@[j].info.close_time
                == states[m].records@[i].info.close_time,
{
    lemma_run_invariant(states, snapshots, times, m);
    lemma_run_invariant(states, snapshots, times, n);
    let r = states[m].records@[i];
    let p = r.pid;
    let k0 = choose|k0: int|
        k0 < m && #[trigger] first_seen(snapshots, p, k0) && {
            &&& r.info.open_time == times[k0]
            &&& (r.info.close_time is None <==> !gone_between(snapshots, p, k0, m))
            &&& r.info.close_time is Some ==> exists|k1: int|
                k1 < m && #[trigger] first_gone(snapshots, p, k0, k1)
                    && r.info.close_time == Some(times[k1])
        };
    let k1 = choose|k1: int|
        k1 < m && #[trigger] first_gone(snapshots, p, k0, k1) && r.info.close_time == Some(
            times[k1],
        );
    assert(seen_before(snapshots, p, n));
    let recs = states[n].records@;
    assert(has_pid(recs, p));
    let j = choose|j: int| 0 <= j < recs.len() && (#[trigger] recs[j]).pid == p;
    let q = recs[j];
    let w = choose|w: int|
        w < n && #[trigger] first_seen(snapshots, q.pid, w) && {
            &&& q.info.open_time == times[w]
            &&& (q.info.close_time is None <==> !gone_between(snapshots, q.pid, w, n))
            &&& q.info.close_time is Some ==> exists|g: int|
                g < n && #[trigger] first_gone(snapshots, q.pid, w, g)
                    && q.info.close_time == Some(times[g])
        };
    lemma_first_seen_unique(snapshots, p, k0, w);
    assert(gone_between(snapshots, p, k0, n)) by {
        assert(!snapshot_has(snapshots[k1], p));
    }
    let g = choose|g: int|
        g < n && #[trigger] first_gone(snapshots, q.pid, w, g) && q.info.close_time == Some(
            times[g],
        );
    lemma_first_gone_unique(snapshots, p, k0, k1, g);
}

} // verus!
