//! The aggregator: folds lifecycle records by process name into a usage
//! report.
use vstd::prelude::*;

use crate::tracker::ProcessRecord;

verus! {

/// When one process instance was seen: from `open` until `close`, or still
/// running where `close` is `None`.
pub struct Interval {
    pub open: String,
    pub close: Option<String>,
}

/// The usage of one process name: how many instances were seen, and the
/// interval of each, in record order.
pub struct NameUsage {
    pub name: String,
    pub occurrences: usize,
    pub intervals: Vec<Interval>,
}

/// The interval that a record spans.
pub open spec fn interval_of(r: ProcessRecord) -> Interval {
    Interval { open: r.info.open_time, close: r.info.close_time }
}

/// Number of records named `name`.
pub open spec fn count_named(records: Seq<ProcessRecord>, name: Seq<char>) -> nat
    decreases records.len(),
{
    if records.len() == 0 {
        0
    } else {
        count_named(records.drop_last(), name) + if records.last().info.name@ == name {
            1nat
        } else {
            0nat
        }
    }
}

/// Intervals of the records named `name`, in record order.
pub open spec fn intervals_named(records: Seq<ProcessRecord>, name: Seq<char>) -> Seq<Interval>
    decreases records.len(),
{
    if records.len() == 0 {
        Seq::empty()
    } else {
        let rest = intervals_named(records.drop_last(), name);
        if records.last().info.name@ == name {
            rest.push(interval_of(records.last()))
        } else {
            rest
        }
    }
}

/// The distinct names of the records, in the order they first occur.
pub open spec fn names_in_order(records: Seq<ProcessRecord>) -> Seq<Seq<char>>
    decreases records.len(),
{
    if records.len() == 0 {
        Seq::empty()
    } else {
        let rest = names_in_order(records.drop_last());
        if rest.contains(records.last().info.name@) {
            rest
        } else {
            rest.push(records.last().info.name@)
        }
    }
}

/// `summary` is the usage report of `records`: one entry per distinct name,
/// in order of first occurrence, with that name's count and intervals.
pub open spec fn summary_of(records: Seq<ProcessRecord>, summary: Seq<NameUsage>) -> bool {
    let names = names_in_order(records);
    &&& summary.len() == names.len()
    &&& forall|k: int|
        0 <= k < summary.len() ==> {
            &&& (#[trigger] summary[k]).name@ == names[k]
            &&& summary[k].occurrences == count_named(records, names[k])
            &&& summary[k].intervals@ == intervals_named(records, names[k])
        }
}

/// The number of intervals kept for a name is the number of records of that
/// name.
pub proof fn lemma_intervals_len(records: Seq<ProcessRecord>, name: Seq<char>)
    ensures
        intervals_named(records, name).len() == count_named(records, name),
    decreases records.len(),
{
    if records.len() > 0 {
        lemma_intervals_len(records.drop_last(), name);
    }
}

/// A name is listed exactly when some record carries it, and the list has no
/// repeats.
pub proof fn lemma_names_in_order(records: Seq<ProcessRecord>)
    ensures
        names_in_order(records).no_duplicates(),
        forall|name: Seq<char>|
            #[trigger] names_in_order(records).contains(name) <==> count_named(records, name) > 0,
    decreases records.len(),
{
    if records.len() > 0 {
        let init = records.drop_last();
        lemma_names_in_order(init);
        let rest = names_in_order(init);
        let last = records.last().info.name@;
        if !rest.contains(last) {
            let full = rest.push(last);
            assert forall|name: Seq<char>| #[trigger] full.contains(name) <==> (rest.contains(name)
                || name == last) by {
                if rest.contains(name) {
                    let q = choose|q: int| 0 <= q < rest.len() && rest[q] == name;
                    assert(full[q] == name);
                }
                if name == last {
                    assert(full[rest.len() as int] == name);
                }
            }
        }
    }
}

/// Whether one of `names` equals `name`.
fn contains_name(names: &Vec<String>, name: &String) -> (r: bool)
    ensures
        r == exists|k: int| 0 <= k < names@.len() && (#[trigger] names@[k])@ == name@,
{
    let mut k: usize = 0;
    while k < names.len()
        invariant
            0 <= k <= names.len(),
            forall|m: int| 0 <= m < k ==> (#[trigger] names@[m])@ != name@,
        decreases names.len() - k,
    {
        if names[k] == *name {
            return true;
        }
        k += 1;
    }
    false
}

/// The distinct names of `records`, in order of first occurrence.
fn distinct_names(records: &Vec<ProcessRecord>) -> (r: Vec<String>)
    ensures
        r@.len() == names_in_order(records@).len(),
        forall|k: int| 0 <= k < r@.len() ==> (#[trigger] r@[k])@ == names_in_order(records@)[k],
{
    let mut names: Vec<String> = Vec::new();
    let mut i: usize = 0;
    while i < records.len()
        invariant
            0 <= i <= records.len(),
            names@.len() == names_in_order(records@.take(i as int)).len(),
            forall|k: int|
                0 <= k < names@.len() ==> (#[trigger] names@[k])@ == names_in_order(
                    records@.take(i as int),
                )[k],
        decreases records.len() - i,
    {
        let ghost before = names@;
        let ghost prefix = records@.take(i as int);
        assert(records@.take(i + 1).drop_last() =~= prefix);
        let seen = contains_name(&names, &records[i].info.name);
        proof {
            let rest = names_in_order(prefix);
            let name = records@[i as int].info.name@;
            if rest.contains(name) {
                let q = choose|q: int| 0 <= q < rest.len() && rest[q] == name;
                assert(before[q]@ == name);
            }
            if seen {
                let q = choose|q: int| 0 <= q < before.len() && (#[trigger] before[q])@ == name;
                assert(rest[q] == name);
            }
        }
        if !seen {
            names.push(records[i].info.name.clone());
        }
        i += 1;
    }
    assert(records@.take(records.len() as int) =~= records@);
    names
}

/// The intervals of the records named `name`, in record order.
fn collect_intervals(records: &Vec<ProcessRecord>, name: &String) -> (r: Vec<Interval>)
    ensures
        r@ == intervals_named(records@, name@),
{
    let mut intervals: Vec<Interval> = Vec::new();
    let mut i: usize = 0;
    while i < records.len()
        invariant
            0 <= i <= records.len(),
            intervals@ == intervals_named(records@.take(i as int), name@),
        decreases records.len() - i,
    {
        assert(records@.take(i + 1).drop_last() =~= records@.take(i as int));
        let info = &records[i].info;
        if info.name == *name {
            let close = match &info.close_time {
                Some(c) => Some(c.clone()),
                None => None,
            };
            intervals.push(Interval { open: info.open_time.clone(), close });
        }
        i += 1;
    }
    assert(records@.take(records.len() as int) =~= records@);
    intervals
}

/// Groups `process_analyzes` by name: for each distinct name, in order of
/// first occurrence, the number of records and their intervals. Still-open
/// records give an interval without a close time.
pub fn summarize_processes(process_analyzes: &Vec<ProcessRecord>) -> (r: Vec<NameUsage>)
    ensures
        summary_of(process_analyzes@, r@),
{
    let names = distinct_names(process_analyzes);
    let mut usage: Vec<NameUsage> = Vec::new();
    let mut k: usize = 0;
    while k < names.len()
        invariant
            0 <= k <= names.len(),
            names@.len() == names_in_order(process_analyzes@).len(),
            forall|m: int|
                0 <= m < names@.len() ==> (#[trigger] names@[m])@ == names_in_order(
                    process_analyzes@,
                )[m],
            usage@.len() == k,
            forall|m: int|
                0 <= m < k ==> {
                    &&& (#[trigger] usage@[m]).name@ == names_in_order(process_analyzes@)[m]
                    &&& usage@[m].occurrences == count_named(
                        process_analyzes@,
                        names_in_order(process_analyzes@)[m],
                    )
                    &&& usage@[m].intervals@ == intervals_named(
                        process_analyzes@,
                        names_in_order(process_analyzes@)[m],
                    )
                },
        decreases names.len() - k,
    {
        let intervals = collect_intervals(process_analyzes, &names[k]);
        proof {
            lemma_intervals_len(process_analyzes@, names@[k as int]@);
        }
        usage.push(
            NameUsage { name: names[k].clone(), occurrences: intervals.len(), intervals },
        );
        k += 1;
    }
    usage
}

/// Summarizing is a function of the records alone: two reports of the same
/// records agree entry by entry, so summarizing twice with no sample in
/// between gives the same report.
pub proof fn lemma_summary_is_determined(
    records: Seq<ProcessRecord>,
    first: Seq<NameUsage>,
    second: Seq<NameUsage>,
)
    requires
        summary_of(records, first),
        summary_of(records, second),
    ensures
        first.len() == second.len(),
        forall|k: int|
            0 <= k < first.len() ==> {
                &&& (#[trigger] first[k]).name@ == second[k].name@
                &&& first[k].occurrences == second[k].occurrences
                &&& first[k].intervals@ == second[k].intervals@
            },
{
    assert forall|k: int| 0 <= k < first.len() implies {
        &&& (#[trigger] first[k]).name@ == second[k].name@
        &&& first[k].occurrences == second[k].occurrences
        &&& first[k].intervals@ == second[k].intervals@
    } by {
        assert(second[k].name@ == names_in_order(records)[k]);
    }
}

/// For every name, the report's occurrence count is the number of records
/// carrying that name, and the name is listed exactly when that number is not
/// zero.
pub proof fn lemma_occurrences_count_records(
    records: Seq<ProcessRecord>,
    summary: Seq<NameUsage>,
    name: Seq<char>,
)
    requires
        summary_of(records, summary),
    ensures
        forall|k: int|
            0 <= k < summary.len() && (#[trigger] summary[k]).name@ == name
                ==> summary[k].occurrences == count_named(records, name),
        (exists|k: int| 0 <= k < summary.len() && (#[trigger] summary[k]).name@ == name)
            <==> count_named(records, name) > 0,
{
    lemma_names_in_order(records);
    let names = names_in_order(records);
    if count_named(records, name) > 0 {
        assert(names.contains(name));
        let q = choose|q: int| 0 <= q < names.len() && names[q] == name;
        assert(summary[q].name@ == name);
    }
    if exists|k: int| 0 <= k < summary.len() && (#[trigger] summary[k]).name@ == name {
        let k = choose|k: int| 0 <= k < summary.len() && (#[trigger] summary[k]).name@ == name;
        assert(names[k] == name);
        assert(names.contains(name));
    }
}

} // verus!
