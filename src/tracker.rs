//! The lifecycle tracker: turns successive process snapshots into open/close
//! records, one per process identifier ever seen.
use vstd::prelude::*;

use std::collections::{HashMap, HashSet};

use crate::clock::{
    is_timestamp, return_time, timestamp_at, FIRST_FORMATTED_SECS, LAST_FORMATTED_SECS,
    UTC_OFFSET_SECS,
};

verus! {

broadcast use vstd::std_specs::hash::group_hash_axioms;

/// What is known of one process instance: its name at first sight, when it
/// was first seen, and when it was first seen gone (`None` while still open).
pub struct ProcessInfo {
    pub name: String,
    pub open_time: String,
    pub close_time: Option<String>,
}

/// A lifecycle record keyed by the operating system's process identifier.
pub struct ProcessRecord {
    pub pid: u32,
    pub info: ProcessInfo,
}

/// Everything the tracker keeps between two samples.
///
/// `records` only grows, in the order identifiers were first seen, and holds
/// each identifier once. `live_set` holds the identifiers of the latest
/// snapshot. `index` gives the position of each identifier's record. An
/// identifier that the operating system reuses after its record was closed
/// continues that record: it is neither reopened nor duplicated.
pub struct TrackingState {
    pub records: Vec<ProcessRecord>,
    pub live_set: Vec<u32>,
    pub index: HashMap<u32, usize>,
}

/// The snapshot lists a process with this identifier.
pub open spec fn snapshot_has(snapshot: Seq<(u32, String)>, pid: u32) -> bool {
    exists|j: int| 0 <= j < snapshot.len() && (#[trigger] snapshot[j]).0 == pid
}

/// Entry `j` is the first one of the snapshot with identifier `pid`.
pub open spec fn first_entry(snapshot: Seq<(u32, String)>, pid: u32, j: int) -> bool {
    &&& 0 <= j < snapshot.len()
    &&& snapshot[j].0 == pid
    &&& forall|k: int| 0 <= k < j ==> (#[trigger] snapshot[k]).0 != pid
}

/// Some record carries identifier `pid`.
pub open spec fn has_pid(records: Seq<ProcessRecord>, pid: u32) -> bool {
    exists|i: int| 0 <= i < records.len() && (#[trigger] records[i]).pid == pid
}

/// No two records share an identifier.
pub open spec fn unique_pids(records: Seq<ProcessRecord>) -> bool {
    forall|i: int, j: int|
        0 <= i < records.len() && 0 <= j < records.len() && i != j ==> (#[trigger] records[i]).pid
            != (#[trigger] records[j]).pid
}

/// `index` maps exactly the identifiers of `records`, each to the position of
/// its record.
pub open spec fn indexes(index: Map<u32, usize>, records: Seq<ProcessRecord>) -> bool {
    &&& forall|p: u32| #[trigger] index.contains_key(p) <==> has_pid(records, p)
    &&& forall|p: u32|
        #[trigger] index.contains_key(p) ==> index[p] < records.len() && records[index[p] as int].pid
            == p
}

/// An index stays valid when the records keep their identifiers.
proof fn lemma_indexes_same_pids(
    index: Map<u32, usize>,
    a: Seq<ProcessRecord>,
    b: Seq<ProcessRecord>,
)
    requires
        indexes(index, a),
        a.len() == b.len(),
        forall|i: int| 0 <= i < a.len() ==> (#[trigger] a[i]).pid == b[i].pid,
    ensures
        indexes(index, b),
{
    assert forall|p: u32| #[trigger] has_pid(a, p) == has_pid(b, p) by {
        if has_pid(a, p) {
            let i = choose|i: int| 0 <= i < a.len() && (#[trigger] a[i]).pid == p;
            assert(b[i].pid == p);
        }
        if has_pid(b, p) {
            let i = choose|i: int| 0 <= i < b.len() && (#[trigger] b[i]).pid == p;
            assert(a[i].pid == p);
        }
    }
    assert forall|p: u32| #[trigger] index.contains_key(p) implies index[p] < b.len()
        && b[index[p] as int].pid == p by {
        assert(a[index[p] as int].pid == p);
    }
}

/// `r` with its close time set to `now`.
pub open spec fn closed_at(r: ProcessRecord, now: String) -> ProcessRecord {
    ProcessRecord { pid: r.pid, info: ProcessInfo { close_time: Some(now), ..r.info } }
}

/// A freshly opened record.
pub open spec fn opened_at(pid: u32, name: String, now: String) -> ProcessRecord {
    ProcessRecord { pid, info: ProcessInfo { name, open_time: now, close_time: None } }
}

/// What becomes of an existing record when `snapshot` is taken at `now`: it is
/// closed if it is still open, was live, and is missing from the snapshot.
pub open spec fn after_sample(
    r: ProcessRecord,
    live: Seq<u32>,
    snapshot: Seq<(u32, String)>,
    now: String,
) -> ProcessRecord {
    if r.info.close_time is None && live.contains(r.pid) && !snapshot_has(snapshot, r.pid) {
        closed_at(r, now)
    } else {
        r
    }
}

/// The records from position `start` on follow the order in which their
/// identifiers first occur in `snapshot`.
pub open spec fn new_in_snapshot_order(
    records: Seq<ProcessRecord>,
    start: int,
    snapshot: Seq<(u32, String)>,
) -> bool {
    forall|a: int, b: int, ja: int, jb: int|
        start <= a < b < records.len() && #[trigger] first_entry(snapshot, records[a].pid, ja)
            && #[trigger] first_entry(snapshot, records[b].pid, jb) ==> ja < jb
}

/// An identifier has one first entry.
pub proof fn lemma_first_entry_unique(snapshot: Seq<(u32, String)>, pid: u32, a: int, b: int)
    requires
        first_entry(snapshot, pid, a),
        first_entry(snapshot, pid, b),
    ensures
        a == b,
{
    if a < b {
        assert(snapshot[a].0 != pid);
    } else if b < a {
        assert(snapshot[b].0 != pid);
    }
}

impl TrackingState {
    /// Identifiers are unique, the live set has no repeats, and every live
    /// identifier has a record.
    pub open spec fn wf(&self) -> bool {
        &&& unique_pids(self.records@)
        &&& self.live_set@.no_duplicates()
        &&& forall|p: u32| #[trigger] self.live_set@.contains(p) ==> has_pid(self.records@, p)
        &&& indexes(self.index@, self.records@)
    }

    /// `self` is what sampling `snapshot` at `now` makes of `prev`.
    pub open spec fn sampled_from(
        &self,
        prev: TrackingState,
        snapshot: Seq<(u32, String)>,
        now: String,
    ) -> bool {
        let old_len = prev.records@.len();
        &&& self.wf()
        &&& forall|p: u32| #[trigger] self.live_set@.contains(p) <==> snapshot_has(snapshot, p)
        &&& old_len <= self.records@.len()
        &&& forall|i: int|
            0 <= i < old_len ==> #[trigger] self.records@[i] == after_sample(
                prev.records@[i],
                prev.live_set@,
                snapshot,
                now,
            )
        &&& forall|i: int|
            old_len <= i < self.records@.len() ==> {
                &&& !has_pid(prev.records@, (#[trigger] self.records@[i]).pid)
                &&& exists|j: int|
                    first_entry(snapshot, self.records@[i].pid, j) && self.records@[i]
                        == opened_at(snapshot[j].0, snapshot[j].1, now)
            }
        &&& forall|p: u32| snapshot_has(snapshot, p) ==> #[trigger] has_pid(self.records@, p)
        &&& new_in_snapshot_order(self.records@, old_len as int, snapshot)
    }

    /// A tracker that has seen nothing yet.
    pub fn new() -> (r: TrackingState)
        ensures
            r.wf(),
            r.records@.len() == 0,
            r.live_set@.len() == 0,
    {
        let r = TrackingState { records: Vec::new(), live_set: Vec::new(), index: HashMap::new() };
        assert(r.index@ =~= Map::<u32, usize>::empty());
        r
    }
}

impl ProcessInfo {
    /// A record opened at `now`, not yet closed.
    pub fn new(name: String, now: String) -> (r: ProcessInfo)
        ensures
            r.name == name,
            r.open_time == now,
            r.close_time is None,
    {
        ProcessInfo { name, open_time: now, close_time: None }
    }

    /// Marks the process as gone at `now`.
    pub fn set_close_time(&mut self, now: String)
        ensures
            final(self).name == old(self).name,
            final(self).open_time == old(self).open_time,
            final(self).close_time == Some(now),
    {
        self.close_time = Some(now);
    }
}

/// Position of the record with identifier `pid`, if any.
fn lookup(index: &HashMap<u32, usize>, records: &Vec<ProcessRecord>, pid: u32) -> (r: Option<usize>)
    requires
        indexes(index@, records@),
    ensures
        match r {
            Some(i) => i < records.len() && records@[i as int].pid == pid,
            None => !has_pid(records@, pid),
        },
{
    match index.get(&pid) {
        Some(i) => Some(*i),
        None => None,
    }
}

/// Opens a record for `process_id` at `now`, unless one already exists: a
/// process seen again keeps its first name and open time.
pub fn add_process_open_time(
    process_name: String,
    process_id: u32,
    process_analyzes: &mut Vec<ProcessRecord>,
    index: &mut HashMap<u32, usize>,
    now: &String,
)
    requires
        unique_pids(old(process_analyzes)@),
        indexes(old(index)@, old(process_analyzes)@),
    ensures
        unique_pids(final(process_analyzes)@),
        indexes(final(index)@, final(process_analyzes)@),
        if has_pid(old(process_analyzes)@, process_id) {
            final(process_analyzes)@ == old(process_analyzes)@
        } else {
            final(process_analyzes)@ == old(process_analyzes)@.push(
                opened_at(process_id, process_name, *now),
            )
        },
{
    match lookup(index, process_analyzes, process_id) {
        Some(_) => {},
        None => {
            let info = ProcessInfo::new(process_name, now.clone());
            let position = process_analyzes.len();
            process_analyzes.push(ProcessRecord { pid: process_id, info });
            index.insert(process_id, position);
            proof {
                let s = process_analyzes@;
                let o = old(process_analyzes)@;
                assert forall|p: u32| #[trigger] has_pid(s, p) == (has_pid(o, p) || p == process_id) by {
                    if has_pid(o, p) {
                        let i = choose|i: int| 0 <= i < o.len() && (#[trigger] o[i]).pid == p;
                        assert(s[i] == o[i]);
                    }
                    if p == process_id {
                        assert(s[o.len() as int].pid == p);
                    }
                    if has_pid(s, p) {
                        let i = choose|i: int| 0 <= i < s.len() && (#[trigger] s[i]).pid == p;
                        if i < o.len() {
                            assert(o[i] == s[i]);
                        }
                    }
                }
                assert forall|p: u32| #[trigger] index@.contains_key(p) implies index@[p] < s.len()
                    && s[index@[p] as int].pid == p by {
                    if p != process_id {
                        assert(s[old(index)@[p] as int] == o[old(index)@[p] as int]);
                    }
                }
                assert forall|i: int, j: int|
                    0 <= i < s.len() && 0 <= j < s.len() && i != j implies (#[trigger] s[i]).pid
                    != (#[trigger] s[j]).pid by {
                    if i == s.len() - 1 {
                        assert(old(process_analyzes)@[j] == s[j]);
                    } else if j == s.len() - 1 {
                        assert(old(process_analyzes)@[i] == s[i]);
                    } else {
                        assert(old(process_analyzes)@[i] == s[i]);
                        assert(old(process_analyzes)@[j] == s[j]);
                    }
                }
            }
        },
    }
}

/// Closes the record of `process_id` at `now` when the identifier is missing
/// from `new_record_set` and the record is still open. A closed record is
/// never closed again.
pub fn add_process_close_time(
    process_id: u32,
    new_record_set: &HashSet<u32>,
    process_analyzes: &mut Vec<ProcessRecord>,
    index: &HashMap<u32, usize>,
    now: &String,
)
    requires
        unique_pids(old(process_analyzes)@),
        indexes(index@, old(process_analyzes)@),
    ensures
        final(process_analyzes)@.len() == old(process_analyzes)@.len(),
        forall|i: int|
            0 <= i < old(process_analyzes)@.len() ==> #[trigger] final(process_analyzes)@[i] == (
            if old(process_analyzes)@[i].pid == process_id && !new_record_set@.contains(process_id)
                && old(process_analyzes)@[i].info.close_time is None {
                closed_at(old(process_analyzes)@[i], *now)
            } else {
                old(process_analyzes)@[i]
            }),
{
    if !new_record_set.contains(&process_id) {
        if let Some(i) = lookup(index, process_analyzes, process_id) {
            if process_analyzes[i].info.close_time.is_none() {
                process_analyzes[i].info.set_close_time(now.clone());
                assert(process_analyzes@ =~= old(process_analyzes)@.update(
                    i as int,
                    closed_at(old(process_analyzes)@[i as int], *now),
                ));
            }
        }
    }
}

/// One sampling tick at time `now`: opens a record for every identifier of
/// `snapshot` not seen before, closes the still-open records of identifiers
/// that were live and are now missing, and makes the snapshot's identifiers
/// the live set.
pub fn process_analyze(state: &mut TrackingState, snapshot: &Vec<(u32, String)>, now: &String)
    requires
        old(state).wf(),
    ensures
        final(state).sampled_from(*old(state), snapshot@, *now),
{
    let ghost prev = *state;
    let ghost old_len = prev.records@.len();
    let mut new_record_set: HashSet<u32> = HashSet::new();
    let mut new_live: Vec<u32> = Vec::new();
    let mut k: usize = 0;
    while k < snapshot.len()
        invariant
            0 <= k <= snapshot.len(),
            state.live_set == prev.live_set,
            old_len == prev.records@.len(),
            unique_pids(state.records@),
            indexes(state.index@, state.records@),
            new_live@.no_duplicates(),
            forall|p: u32| #[trigger] new_record_set@.contains(p) <==> new_live@.contains(p),
            forall|p: u32|
                #[trigger] new_live@.contains(p) <==> exists|j: int|
                    0 <= j < k && (#[trigger] snapshot@[j]).0 == p,
            forall|j: int| 0 <= j < k ==> has_pid(state.records@, (#[trigger] snapshot@[j]).0),
            old_len <= state.records@.len(),
            forall|i: int| 0 <= i < old_len ==> #[trigger] state.records@[i] == prev.records@[i],
            forall|i: int|
                old_len <= i < state.records@.len() ==> {
                    &&& !has_pid(prev.records@, (#[trigger] state.records@[i]).pid)
                    &&& exists|j: int|
                        0 <= j < k && first_entry(snapshot@, state.records@[i].pid, j)
                            && state.records@[i] == opened_at(snapshot@[j].0, snapshot@[j].1, *now)
                },
            new_in_snapshot_order(state.records@, old_len as int, snapshot@),
        decreases snapshot.len() - k,
    {
        let pid = snapshot[k].0;
        let ghost set_before = new_live@;
        if !new_record_set.contains(&pid) {
            new_record_set.insert(pid);
            new_live.push(pid);
            proof {
                assert forall|p: u32| #[trigger] new_live@.contains(p) <==> (set_before.contains(p) || p == pid) by {
                    if set_before.contains(p) {
                        let q = choose|q: int| 0 <= q < set_before.len() && set_before[q] == p;
                        assert(new_live@[q] == p);
                    }
                    if p == pid {
                        assert(new_live@[set_before.len() as int] == p);
                    }
                    if new_live@.contains(p) {
                        let q = choose|q: int| 0 <= q < new_live@.len() && new_live@[q] == p;
                        if q < set_before.len() {
                            assert(set_before[q] == p);
                        }
                    }
                }
            }
        }
        assert(forall|p: u32| #[trigger] new_live@.contains(p) <==> (set_before.contains(p) || p == pid));
        let ghost before = state.records@;
        assert(!has_pid(before, pid) ==> first_entry(snapshot@, pid, k as int) && !has_pid(prev.records@, pid)) by {
            if !has_pid(before, pid) {
                assert forall|j: int| 0 <= j < k implies (#[trigger] snapshot@[j]).0 != pid by {
                    assert(has_pid(before, snapshot@[j].0));
                }
                assert(first_entry(snapshot@, pid, k as int));
                assert forall|w: int| 0 <= w < old_len implies (#[trigger] prev.records@[w]).pid != pid by {
                    assert(before[w] == prev.records@[w]);
                }
            }
        }
        add_process_open_time(snapshot[k].1.clone(), pid, &mut state.records, &mut state.index, now);
        proof {
            if !has_pid(before, pid) {
                assert(state.records@[before.len() as int] == opened_at(pid, snapshot@[k as int].1, *now));
            }
            assert forall|i: int|
                old_len <= i < state.records@.len() implies {
                    &&& !has_pid(prev.records@, (#[trigger] state.records@[i]).pid)
                    &&& exists|j: int|
                        0 <= j < k + 1 && first_entry(snapshot@, state.records@[i].pid, j)
                            && state.records@[i] == opened_at(snapshot@[j].0, snapshot@[j].1, *now)
                } by {
                if i < before.len() {
                    assert(state.records@[i] == before[i]);
                } else {
                    assert(first_entry(snapshot@, pid, k as int));
                }
            }
            let recs = state.records@;
            assert forall|a: int, b: int, ja: int, jb: int|
                old_len <= a < b < recs.len() && #[trigger] first_entry(snapshot@, recs[a].pid, ja)
                    && #[trigger] first_entry(snapshot@, recs[b].pid, jb) implies ja < jb by {
                assert(recs[a] == before[a]);
                if b < before.len() {
                    assert(recs[b] == before[b]);
                } else {
                    let wa = choose|wa: int|
                        0 <= wa < k && first_entry(snapshot@, before[a].pid, wa) && before[a]
                            == opened_at(snapshot@[wa].0, snapshot@[wa].1, *now);
                    lemma_first_entry_unique(snapshot@, recs[a].pid, ja, wa);
                    lemma_first_entry_unique(snapshot@, pid, jb, k as int);
                }
            }
            assert forall|j: int| 0 <= j < k + 1 implies has_pid(state.records@, (#[trigger] snapshot@[j]).0) by {
                if j < k {
                    let w = choose|w: int| 0 <= w < before.len() && (#[trigger] before[w]).pid == snapshot@[j].0;
                    assert(state.records@[w] == before[w]);
                } else if has_pid(before, pid) {
                    let w = choose|w: int| 0 <= w < before.len() && (#[trigger] before[w]).pid == pid;
                    assert(state.records@[w] == before[w]);
                } else {
                    assert(state.records@[before.len() as int].pid == pid);
                }
            }
            assert forall|p: u32|
                #[trigger] new_live@.contains(p) <==> exists|j: int|
                    0 <= j < k + 1 && (#[trigger] snapshot@[j]).0 == p by {
                if p == pid {
                    assert(snapshot@[k as int].0 == p);
                }
            }
        }
        k += 1;
    }
    let ghost mid = state.records@;
    let mut m: usize = 0;
    while m < state.live_set.len()
        invariant
            0 <= m <= state.live_set.len(),
            state.live_set == prev.live_set,
            old_len == prev.records@.len(),
            prev.wf(),
            unique_pids(state.records@),
            indexes(state.index@, state.records@),
            new_live@.no_duplicates(),
            forall|p: u32| #[trigger] new_record_set@.contains(p) <==> new_live@.contains(p),
            old_len <= mid.len(),
            state.records@.len() == mid.len(),
            forall|p: u32| #[trigger] new_record_set@.contains(p) <==> snapshot_has(snapshot@, p),
            forall|i: int| old_len <= i < mid.len() ==> #[trigger] state.records@[i] == mid[i],
            new_in_snapshot_order(mid, old_len as int, snapshot@),
            forall|i: int| old_len <= i < mid.len() ==> new_record_set@.contains(#[trigger] mid[i].pid),
            forall|i: int|
                0 <= i < old_len ==> #[trigger] state.records@[i] == (
                if prev.records@[i].info.close_time is None && (exists|q: int|
                    0 <= q < m && prev.live_set@[q] == prev.records@[i].pid) && !snapshot_has(
                    snapshot@,
                    prev.records@[i].pid,
                ) {
                    closed_at(prev.records@[i], *now)
                } else {
                    prev.records@[i]
                }),
        decreases state.live_set.len() - m,
    {
        let pid = state.live_set[m];
        let ghost before = state.records@;
        add_process_close_time(pid, &new_record_set, &mut state.records, &state.index, now);
        proof {
            assert forall|i: int| 0 <= i < before.len() implies (#[trigger] before[i]).pid
                == state.records@[i].pid by {
                assert(state.records@[i] == before[i] || state.records@[i] == closed_at(before[i], *now));
            }
            lemma_indexes_same_pids(state.index@, before, state.records@);
            assert forall|i: int| 0 <= i < old_len implies #[trigger] state.records@[i] == (
                if prev.records@[i].info.close_time is None && (exists|q: int|
                    0 <= q < m + 1 && prev.live_set@[q] == prev.records@[i].pid) && !snapshot_has(
                    snapshot@,
                    prev.records@[i].pid,
                ) {
                    closed_at(prev.records@[i], *now)
                } else {
                    prev.records@[i]
                }) by {
                if prev.records@[i].pid == pid {
                    assert(prev.live_set@[m as int] == pid);
                    assert(!exists|q: int| 0 <= q < m && prev.live_set@[q] == pid) by {
                        if exists|q: int| 0 <= q < m && prev.live_set@[q] == pid {
                            let q = choose|q: int| 0 <= q < m && prev.live_set@[q] == pid;
                            assert(prev.live_set@.no_duplicates());
                        }
                    }
                } else {
                    if exists|q: int| 0 <= q < m + 1 && prev.live_set@[q] == prev.records@[i].pid {
                        let q = choose|q: int| 0 <= q < m + 1 && prev.live_set@[q] == prev.records@[i].pid;
                        assert(q != m);
                    }
                }
            }
            assert forall|i: int| old_len <= i < mid.len() implies #[trigger] state.records@[i] == mid[i] by {
                assert(before[i] == mid[i]);
                assert(new_record_set@.contains(mid[i].pid));
            }
            assert(new_record_set@.contains(pid) == snapshot_has(snapshot@, pid));
        }
        m += 1;
    }
    proof {
        assert forall|i: int| 0 <= i < old_len implies #[trigger] state.records@[i] == after_sample(
            prev.records@[i],
            prev.live_set@,
            snapshot@,
            *now,
        ) by {
            let pid = prev.records@[i].pid;
            if prev.live_set@.contains(pid) {
                let q = choose|q: int| 0 <= q < prev.live_set@.len() && prev.live_set@[q] == pid;
                assert(exists|q: int| 0 <= q < prev.live_set@.len() && prev.live_set@[q] == pid);
            }
            if exists|q: int| 0 <= q < prev.live_set@.len() && prev.live_set@[q] == pid {
                let q = choose|q: int| 0 <= q < prev.live_set@.len() && prev.live_set@[q] == pid;
                assert(prev.live_set@.contains(pid));
            }
        }
        assert forall|i: int| old_len <= i < state.records@.len() implies
            !has_pid(prev.records@, (#[trigger] state.records@[i]).pid) && exists|j: int|
                first_entry(snapshot@, state.records@[i].pid, j) && state.records@[i]
                    == opened_at(snapshot@[j].0, snapshot@[j].1, *now) by {
            assert(state.records@[i] == mid[i]);
        }
        assert forall|p: u32| snapshot_has(snapshot@, p) implies #[trigger] has_pid(state.records@, p) by {
            let j = choose|j: int| 0 <= j < snapshot@.len() && (#[trigger] snapshot@[j]).0 == p;
            assert(has_pid(mid, snapshot@[j].0));
            let w = choose|w: int| 0 <= w < mid.len() && (#[trigger] mid[w]).pid == p;
            if w < old_len {
                assert(state.records@[w].pid == prev.records@[w].pid);
            } else {
                assert(state.records@[w] == mid[w]);
            }
        }
    }
    state.live_set = new_live;
    proof {
        let recs = state.records@;
        assert forall|a: int, b: int, ja: int, jb: int|
            old_len <= a < b < recs.len() && #[trigger] first_entry(snapshot@, recs[a].pid, ja)
                && #[trigger] first_entry(snapshot@, recs[b].pid, jb) implies ja < jb by {
            assert(recs[a] == mid[a]);
            assert(recs[b] == mid[b]);
        }
        assert forall|p: u32| #[trigger] state.live_set@.contains(p) implies has_pid(state.records@, p) by {
            assert(snapshot_has(snapshot@, p));
        }
    }
}

/// One sampling tick at the current time, which is returned. Where the clock
/// cannot be read, nothing is sampled and the state is left as it was.
pub fn record_snapshot(state: &mut TrackingState, snapshot: &Vec<(u32, String)>) -> (r: Option<
    String,
>)
    requires
        old(state).wf(),
    ensures
        match r {
            Some(now) => {
                &&& is_timestamp(now@)
                &&& exists|t: int|
                    FIRST_FORMATTED_SECS <= t <= LAST_FORMATTED_SECS && now@ == timestamp_at(
                        t,
                        UTC_OFFSET_SECS as int,
                    )
                &&& final(state).sampled_from(*old(state), snapshot@, now)
            },
            None => *final(state) == *old(state),
        },
{
    match return_time() {
        Some(now) => {
            process_analyze(state, snapshot, &now);
            Some(now)
        },
        None => None,
    }
}

} // verus!
