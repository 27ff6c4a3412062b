//! Differences between two snapshots.

use crate::commands::top::json::FsJsonOutput;
use crate::counters::{
    entry_views, keys_distinct, lemma_map_of_entry, map_of, same_names, Counters,
};
use vstd::prelude::*;

verus! {

/// Every counter of `curr` is also in `prev`, and has not fallen below it:
/// the inputs on which `curr - prev` can be taken counter by counter.
pub open spec fn diffs_defined_spec(prev: Map<Seq<char>, u64>, curr: Map<Seq<char>, u64>) -> bool {
    forall|k: Seq<char>| #[trigger]
        curr.dom().contains(k) ==> prev.dom().contains(k) && prev[k] <= curr[k]
}

/// For each counter of `curr`, how much it grew since `prev`.
pub open spec fn diff_map(prev: Map<Seq<char>, u64>, curr: Map<Seq<char>, u64>) -> Map<
    Seq<char>,
    u64,
> {
    Map::new(|k: Seq<char>| curr.dom().contains(k), |k: Seq<char>| (curr[k] - prev[k]) as u64)
}

/// Whether `calculate_diffs(prev, curr)` is defined.
pub fn diffs_defined(prev: &FsJsonOutput, curr: &FsJsonOutput) -> (r: bool)
    ensures
        r == diffs_defined_spec(prev.counters@, curr.counters@),
{
    let entries = curr.counters.to_vec();
    let ghost ev = entry_views(entries@);
    let mut i: usize = 0;
    while i < entries.len()
        invariant
            0 <= i <= entries.len(),
            ev == entry_views(entries@),
            keys_distinct(ev),
            map_of(ev) == curr.counters@,
            forall|m: int|
                0 <= m < i ==> prev.counters@.dom().contains(#[trigger] ev[m].0) && prev.counters@[ev[m].0]
                    <= ev[m].1,
        decreases entries.len() - i,
    {
        proof {
            lemma_map_of_entry(ev, i as int);
        }
        match prev.counters.get(&entries[i].0) {
            Some(p) => {
                if p > entries[i].1 {
                    return false;
                }
            },
            None => {
                return false;
            },
        }
        i += 1;
    }
    proof {
        assert forall|k: Seq<char>| #[trigger]
            curr.counters@.dom().contains(k) implies prev.counters@.dom().contains(k)
            && prev.counters@[k] <= curr.counters@[k] by {
            let m = choose|m: int| 0 <= m < ev.len() && #[trigger] ev[m].0 == k;
            lemma_map_of_entry(ev, m);
        }
    }
    true
}

/// The growth of each counter from `prev` to `curr`, stamped with the time
/// and UUID of `curr`.
pub fn calculate_diffs(prev: &FsJsonOutput, curr: &FsJsonOutput) -> (r: FsJsonOutput)
    requires
        diffs_defined_spec(prev.counters@, curr.counters@),
    ensures
        r.time == curr.time,
        r.uuid == curr.uuid,
        r.counters@ == diff_map(prev.counters@, curr.counters@),
        same_names(r.counters.entries_view(), curr.counters.entries_view()),
{
    let entries = curr.counters.to_vec();
    let ghost ev = entry_views(entries@);
    let mut counters = Counters::new();
    let mut i: usize = 0;
    assert(counters@ =~= diff_map(prev.counters@, map_of(ev.take(0))));
    while i < entries.len()
        invariant
            0 <= i <= entries.len(),
            ev == entry_views(entries@),
            keys_distinct(ev),
            map_of(ev) == curr.counters@,
            diffs_defined_spec(prev.counters@, curr.counters@),
            counters@ == diff_map(prev.counters@, map_of(ev.take(i as int))),
            ev == curr.counters.entries_view(),
            same_names(counters.entries_view(), ev.take(i as int)),
        decreases entries.len() - i,
    {
        proof {
            lemma_map_of_entry(ev, i as int);
            crate::counters::lemma_take_one_more(ev, i as int);
        }
        let key = entries[i].0.clone();
        let before = prev.counters.get(&key);
        let value = entries[i].1;
        let old_value = before.unwrap();
        let ghost key_v = key@;
        let ghost names_before = counters.entries_view();
        assert(!counters@.dom().contains(key_v));
        counters.insert(key, value - old_value);
        assert(counters.entries_view() == names_before.push((key_v, (value - old_value) as u64)));
        assert(same_names(counters.entries_view(), ev.take(i + 1)));
        assert(counters@ =~= diff_map(prev.counters@, map_of(ev.take(i + 1))));
        i += 1;
    }
    assert(ev.take(i as int) =~= ev);
    let uuid = match &curr.uuid {
        Some(u) => Some(u.clone()),
        None => None,
    };
    FsJsonOutput { time: curr.time, uuid, counters }
}

/// A snapshot compared with itself shows no growth anywhere.
pub proof fn lemma_diff_self_zero(m: Map<Seq<char>, u64>)
    ensures
        diffs_defined_spec(m, m),
        diff_map(m, m) == Map::new(|k: Seq<char>| m.dom().contains(k), |k: Seq<char>| 0u64),
{
    assert(diff_map(m, m) =~= Map::new(|k: Seq<char>| m.dom().contains(k), |k: Seq<char>| 0u64));
}

/// Adding the growth back onto the older snapshot gives the newer one.
pub proof fn lemma_diff_adds_back(prev: Map<Seq<char>, u64>, curr: Map<Seq<char>, u64>)
    requires
        diffs_defined_spec(prev, curr),
    ensures
        diff_map(prev, curr).dom() == curr.dom(),
        forall|k: Seq<char>| #[trigger]
            curr.dom().contains(k) ==> prev[k] + diff_map(prev, curr)[k] == curr[k],
{
    assert(diff_map(prev, curr).dom() =~= curr.dom());
}

/// Growth adds up over consecutive snapshots: what a counter grew since the
/// start is what it grew up to the previous snapshot plus what it grew
/// since then.
pub proof fn lemma_diff_chain(
    start: Map<Seq<char>, u64>,
    prev: Map<Seq<char>, u64>,
    curr: Map<Seq<char>, u64>,
)
    requires
        diffs_defined_spec(start, prev),
        diffs_defined_spec(prev, curr),
    ensures
        diffs_defined_spec(start, curr),
        forall|k: Seq<char>| #[trigger]
            curr.dom().contains(k) ==> diff_map(start, curr)[k] == diff_map(start, prev)[k]
                + diff_map(prev, curr)[k],
{
    assert forall|k: Seq<char>| #[trigger] curr.dom().contains(k) implies start.dom().contains(k)
        && start[k] <= curr[k] by {
        assert(prev.dom().contains(k));
    }
    assert forall|k: Seq<char>| #[trigger] curr.dom().contains(k) implies diff_map(start, curr)[k]
        == diff_map(start, prev)[k] + diff_map(prev, curr)[k] by {
        assert(prev.dom().contains(k));
    }
}

} // verus!
