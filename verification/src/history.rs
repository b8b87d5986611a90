//! The history as a mathematical sequence, and the queries that read it.
//!
//! A history is a `Seq<Entry>` in the order in which the entries were
//! appended. Nothing here runs: these are the definitions that the contracts
//! of [`crate::db::WatchDB`] and of [`crate::reconcile`] are stated over.

use crate::db::{CLASS, OPT};
use vstd::prelude::*;
use vstd::seq_lib::to_multiset_build;

verus! {

/// One recorded transition of one path.
pub struct Entry {
    pub path: Seq<char>,
    pub md5: Seq<char>,
    pub sha1: Seq<char>,
    pub last_opt: OPT,
    pub time: int,
    pub class: CLASS,
}

/// Whether any entry of `log` speaks of `path`.
pub open spec fn known(log: Seq<Entry>, path: Seq<char>) -> bool {
    exists|i: int| 0 <= i < log.len() && (#[trigger] log[i]).path == path
}

/// Whether the entry at `j` was observed after the one at `i`: at a later
/// time, or at the same time and later in the log.
pub open spec fn newer(log: Seq<Entry>, j: int, i: int) -> bool {
    log[j].time > log[i].time || (log[j].time == log[i].time && j > i)
}

/// Whether the entry at `i` is the current state of its path: no entry of
/// the same path was observed after it.
pub open spec fn is_current(log: Seq<Entry>, i: int) -> bool {
    &&& 0 <= i < log.len()
    &&& forall|j: int|
        0 <= j < log.len() && (#[trigger] log[j]).path == log[i].path ==> !newer(log, j, i)
}

/// Where the current state of `path` stands in `log`, if the path is known.
///
/// Read from the front, an entry of the path takes over from the entry found
/// so far unless that one carries a strictly later time.
pub open spec fn latest_index(log: Seq<Entry>, path: Seq<char>) -> Option<int>
    decreases log.len(),
{
    if log.len() == 0 {
        None
    } else {
        let k: int = log.len() - 1;
        match latest_index(log.drop_last(), path) {
            Some(i) => if log[k].path == path && log[i].time <= log[k].time {
                Some(k)
            } else {
                Some(i)
            },
            None => if log[k].path == path {
                Some(k)
            } else {
                None
            },
        }
    }
}

/// The current state of `path`: its most recently observed entry, which is
/// the entry at the one position of the path that [`is_current`] holds of
/// ([`lemma_latest_is_current`], [`lemma_current_is_latest`]).
pub open spec fn latest(log: Seq<Entry>, path: Seq<char>) -> Option<Entry> {
    match latest_index(log, path) {
        Some(i) => Some(log[i]),
        None => None,
    }
}

/// `sorted` with `e` put behind every entry that is not later than `e`.
pub open spec fn place(sorted: Seq<Entry>, e: Entry) -> Seq<Entry>
    decreases sorted.len(),
{
    if sorted.len() == 0 || sorted.last().time <= e.time {
        sorted.push(e)
    } else {
        place(sorted.drop_last(), e).push(sorted.last())
    }
}

/// The entries of `log` from the oldest to the newest. Entries of equal time
/// keep the order in which they were appended.
pub open spec fn by_time(log: Seq<Entry>) -> Seq<Entry>
    decreases log.len(),
{
    if log.len() == 0 {
        Seq::empty()
    } else {
        place(by_time(log.drop_last()), log.last())
    }
}

/// Of a list ordered oldest first, the last entry of each path, the newest
/// of them first.
pub open spec fn newest_of_each_path(sorted: Seq<Entry>) -> Seq<Entry>
    decreases sorted.len(),
{
    if sorted.len() == 0 {
        Seq::empty()
    } else {
        let newer_ones = newest_of_each_path(sorted.drop_first());
        if known(newer_ones, sorted[0].path) {
            newer_ones
        } else {
            newer_ones.push(sorted[0])
        }
    }
}

/// The current state of every path that `log` knows, the most recently
/// observed first.
pub open spec fn latest_per_path(log: Seq<Entry>) -> Seq<Entry> {
    newest_of_each_path(by_time(log))
}

/// The entries of `log` that speak of `path`, in their order: the lifeline of
/// the path.
pub open spec fn lifeline(log: Seq<Entry>, path: Seq<char>) -> Seq<Entry>
    decreases log.len(),
{
    if log.len() == 0 {
        Seq::empty()
    } else if log.last().path == path {
        lifeline(log.drop_last(), path).push(log.last())
    } else {
        lifeline(log.drop_last(), path)
    }
}

/// The last entry of `entries` that speaks of `path`.
pub open spec fn last_with(entries: Seq<Entry>, path: Seq<char>) -> Option<Entry>
    decreases entries.len(),
{
    if entries.len() == 0 {
        None
    } else if entries.last().path == path {
        Some(entries.last())
    } else {
        last_with(entries.drop_last(), path)
    }
}

/// Whether `entries` run from the oldest to the newest.
pub open spec fn ordered(entries: Seq<Entry>) -> bool {
    forall|a: int, b: int|
        0 <= a <= b < entries.len() ==> (#[trigger] entries[a]).time <= (#[trigger] entries[b]).time
}

/// Whether no two of `entries` speak of the same path.
pub open spec fn distinct_paths(entries: Seq<Entry>) -> bool {
    forall|a: int, b: int|
        0 <= a < b < entries.len() ==> (#[trigger] entries[a]).path != (#[trigger] entries[b]).path
}

/// A position at which `log` speaks of `path`, for a path that it knows.
pub proof fn position_of(log: Seq<Entry>, path: Seq<char>) -> (i: int)
    requires
        known(log, path),
    ensures
        0 <= i < log.len(),
        log[i].path == path,
{
    choose|i: int| 0 <= i < log.len() && (#[trigger] log[i]).path == path
}

/// A position that [`latest_index`] returns lies in the log and holds an
/// entry of the path asked for.
pub proof fn lemma_latest_index_in_range(log: Seq<Entry>, path: Seq<char>)
    ensures
        match latest_index(log, path) {
            Some(i) => 0 <= i < log.len() && log[i].path == path,
            None => true,
        },
    decreases log.len(),
{
    if log.len() > 0 {
        lemma_latest_index_in_range(log.drop_last(), path);
    }
}

/// Where [`place`] puts an entry: in front of the run of strictly later
/// entries at the end of the list.
pub proof fn lemma_place_at(sorted: Seq<Entry>, e: Entry, at: int)
    requires
        0 <= at <= sorted.len(),
        forall|k: int| at <= k < sorted.len() ==> (#[trigger] sorted[k]).time > e.time,
        at == 0 || sorted[at - 1].time <= e.time,
    ensures
        place(sorted, e) == sorted.insert(at, e),
    decreases sorted.len() - at,
{
    if at == sorted.len() {
        assert(sorted.insert(at, e) =~= sorted.push(e));
    } else {
        let shorter = sorted.drop_last();
        assert(sorted.last() == sorted[sorted.len() - 1]);
        assert(at == 0 || shorter[at - 1] == sorted[at - 1]);
        lemma_place_at(shorter, e, at);
        assert(shorter.insert(at, e).push(sorted.last()) =~= sorted.insert(at, e));
    }
}

/// How the current state of a path moves when one entry is appended: an
/// entry of the path takes over unless the state so far is strictly later.
pub proof fn lemma_latest_push(log: Seq<Entry>, e: Entry, path: Seq<char>)
    ensures
        latest(log.push(e), path) == match latest(log, path) {
            Some(x) => if e.path == path && x.time <= e.time {
                Some(e)
            } else {
                Some(x)
            },
            None => if e.path == path {
                Some(e)
            } else {
                None
            },
        },
{
    assert(log.push(e).drop_last() =~= log);
    lemma_latest_index_in_range(log, path);
}

/// A path has a current state exactly where the log knows the path.
pub proof fn lemma_latest_known(log: Seq<Entry>, path: Seq<char>)
    ensures
        latest(log, path) is Some <==> known(log, path),
    decreases log.len(),
{
    lemma_latest_index_in_range(log, path);
    if log.len() > 0 {
        let shorter = log.drop_last();
        lemma_latest_known(shorter, path);
        if known(shorter, path) {
            let i: int = position_of(shorter, path);
            assert(log[i].path == path);
        }
        if known(log, path) && !known(shorter, path) {
            let i: int = position_of(log, path);
            if i < shorter.len() {
                assert(shorter[i].path == path);
            }
        }
    }
}

/// The current state of a path is an entry of the log, and none of the
/// path's entries was observed after it.
pub proof fn lemma_latest_is_current(log: Seq<Entry>, path: Seq<char>)
    ensures
        match latest_index(log, path) {
            Some(i) => is_current(log, i) && log[i].path == path,
            None => !known(log, path),
        },
    decreases log.len(),
{
    lemma_latest_known(log, path);
    lemma_latest_index_in_range(log, path);
    if log.len() > 0 {
        let shorter = log.drop_last();
        let k: int = log.len() - 1;
        lemma_latest_is_current(shorter, path);
        lemma_latest_index_in_range(shorter, path);
        match latest_index(log, path) {
            Some(m) => {
                assert forall|j: int| 0 <= j < log.len() && (#[trigger] log[j]).path == log[m].path
                    implies !newer(log, j, m) by {
                    if j < k {
                        assert(shorter[j].path == path);
                        match latest_index(shorter, path) {
                            Some(i) => {
                                assert(!newer(shorter, j, i));
                            },
                            None => {},
                        }
                    }
                }
            },
            None => {},
        }
    }
}

/// The entry that no entry of its path was observed after is the current
/// state of its path.
pub proof fn lemma_current_is_latest(log: Seq<Entry>, i: int)
    requires
        is_current(log, i),
    ensures
        latest_index(log, log[i].path) == Some(i),
{
    let path = log[i].path;
    lemma_latest_is_current(log, path);
    lemma_latest_known(log, path);
    match latest_index(log, path) {
        Some(m) => {
            assert(!newer(log, m, i));
            assert(!newer(log, i, m));
        },
        None => {},
    }
}

/// What appending one entry does to the lifeline of a path.
pub proof fn lemma_lifeline_push(log: Seq<Entry>, e: Entry, path: Seq<char>)
    ensures
        lifeline(log.push(e), path) == if e.path == path {
            lifeline(log, path).push(e)
        } else {
            lifeline(log, path)
        },
{
    assert(log.push(e).drop_last() =~= log);
}

/// The current state of a path is read off the path's lifeline alone.
pub proof fn lemma_latest_of_lifeline(log: Seq<Entry>, path: Seq<char>)
    ensures
        latest(lifeline(log, path), path) == latest(log, path),
    decreases log.len(),
{
    if log.len() > 0 {
        let shorter = log.drop_last();
        lemma_latest_of_lifeline(shorter, path);
        assert(shorter.push(log.last()) =~= log);
        lemma_latest_push(shorter, log.last(), path);
        if log.last().path == path {
            lemma_latest_push(lifeline(shorter, path), log.last(), path);
        }
    }
}

/// A list that runs from the oldest to the newest still does so without
/// its last entry, and without its first.
pub proof fn lemma_ordered_within(entries: Seq<Entry>)
    requires
        ordered(entries),
        entries.len() > 0,
    ensures
        ordered(entries.drop_last()),
        ordered(entries.drop_first()),
{
    let front = entries.drop_last();
    let back = entries.drop_first();
    assert forall|a: int, b: int| 0 <= a <= b < front.len() implies (#[trigger] front[a]).time <= (
    #[trigger] front[b]).time by {
        assert(entries[a].time <= entries[b].time);
    }
    assert forall|a: int, b: int| 0 <= a <= b < back.len() implies (#[trigger] back[a]).time <= (
    #[trigger] back[b]).time by {
        assert(entries[a + 1].time <= entries[b + 1].time);
    }
}

/// [`place`] adds one entry, and the list it gives ends in the entry placed
/// or in the entry that the list ended in before.
pub proof fn lemma_place_last(sorted: Seq<Entry>, e: Entry)
    ensures
        place(sorted, e).len() == sorted.len() + 1,
        place(sorted, e).last() == e || (sorted.len() > 0 && place(sorted, e).last()
            == sorted.last()),
    decreases sorted.len(),
{
    if !(sorted.len() == 0 || sorted.last().time <= e.time) {
        lemma_place_last(sorted.drop_last(), e);
    }
}

/// [`place`] keeps a list that runs from the oldest to the newest in that
/// order.
pub proof fn lemma_place_ordered(sorted: Seq<Entry>, e: Entry)
    requires
        ordered(sorted),
    ensures
        ordered(place(sorted, e)),
    decreases sorted.len(),
{
    if sorted.len() == 0 || sorted.last().time <= e.time {
        let placed = sorted.push(e);
        assert forall|a: int, b: int| 0 <= a <= b < placed.len() implies (#[trigger] placed[a]).time
            <= (#[trigger] placed[b]).time by {
            if b == sorted.len() && a < b {
                assert(sorted[a].time <= sorted[sorted.len() - 1].time);
            }
        }
    } else {
        let shorter = sorted.drop_last();
        lemma_ordered_within(sorted);
        lemma_place_ordered(shorter, e);
        lemma_place_last(shorter, e);
        let inner = place(shorter, e);
        let placed = inner.push(sorted.last());
        assert(shorter.len() > 0 ==> shorter.last().time <= sorted.last().time) by {
            if shorter.len() > 0 {
                assert(sorted[shorter.len() - 1].time <= sorted[sorted.len() - 1].time);
            }
        }
        assert forall|a: int, b: int| 0 <= a <= b < placed.len() implies (#[trigger] placed[a]).time
            <= (#[trigger] placed[b]).time by {
            if b == inner.len() && a < b {
                assert(inner[a].time <= inner[inner.len() - 1].time);
            } else if b < inner.len() {
                assert(inner[a].time <= inner[b].time);
            }
        }
    }
}

/// [`by_time`] gives as many entries as the log holds, from the oldest to
/// the newest.
pub proof fn lemma_by_time_ordered(log: Seq<Entry>)
    ensures
        by_time(log).len() == log.len(),
        ordered(by_time(log)),
    decreases log.len(),
{
    if log.len() > 0 {
        lemma_by_time_ordered(log.drop_last());
        lemma_place_ordered(by_time(log.drop_last()), log.last());
        lemma_place_last(by_time(log.drop_last()), log.last());
    }
}

/// A log whose entries were appended in the order of their times is its own
/// [`by_time`].
pub proof fn lemma_by_time_of_ordered(log: Seq<Entry>)
    requires
        ordered(log),
    ensures
        by_time(log) == log,
    decreases log.len(),
{
    if log.len() == 0 {
        assert(by_time(log) =~= log);
    } else {
        let shorter = log.drop_last();
        lemma_ordered_within(log);
        lemma_by_time_of_ordered(shorter);
        if shorter.len() > 0 {
            assert(log[shorter.len() - 1].time <= log[log.len() - 1].time);
        }
        assert(shorter.push(log.last()) =~= log);
    }
}

/// [`place`] adds the entry placed and keeps every other.
pub proof fn lemma_place_keeps_entries(sorted: Seq<Entry>, e: Entry)
    ensures
        place(sorted, e).to_multiset() == sorted.to_multiset().insert(e),
    decreases sorted.len(),
{
    if sorted.len() == 0 || sorted.last().time <= e.time {
        to_multiset_build(sorted, e);
    } else {
        let shorter = sorted.drop_last();
        lemma_place_keeps_entries(shorter, e);
        to_multiset_build(place(shorter, e), sorted.last());
        to_multiset_build(shorter, sorted.last());
        assert(shorter.push(sorted.last()) =~= sorted);
        let held = shorter.to_multiset();
        assert(held.insert(e).insert(sorted.last()) =~= held.insert(sorted.last()).insert(e));
    }
}

/// [`by_time`] gives the entries of the log, each as often as the log holds
/// it: it reorders, and neither drops nor makes up an entry.
pub proof fn lemma_by_time_keeps_entries(log: Seq<Entry>)
    ensures
        by_time(log).to_multiset() == log.to_multiset(),
    decreases log.len(),
{
    if log.len() == 0 {
        assert(by_time(log) =~= log);
    } else {
        let shorter = log.drop_last();
        lemma_by_time_keeps_entries(shorter);
        lemma_place_keeps_entries(by_time(shorter), log.last());
        to_multiset_build(shorter, log.last());
        assert(shorter.push(log.last()) =~= log);
    }
}

/// What [`last_with`] finds is an entry of the list and speaks of the path.
pub proof fn lemma_last_with_in(entries: Seq<Entry>, path: Seq<char>)
    ensures
        match last_with(entries, path) {
            Some(x) => x.path == path && exists|m: int|
                0 <= m < entries.len() && #[trigger] entries[m] == x,
            None => !known(entries, path),
        },
    decreases entries.len(),
{
    if entries.len() > 0 {
        let shorter = entries.drop_last();
        lemma_last_with_in(shorter, path);
        if entries.last().path == path {
            assert(entries[entries.len() - 1] == entries.last());
        } else {
            match last_with(shorter, path) {
                Some(x) => {
                    let m: int = choose|m: int|
                        0 <= m < shorter.len() && #[trigger] shorter[m] == x;
                    assert(entries[m] == x);
                },
                None => {
                    if known(entries, path) {
                        let i: int = position_of(entries, path);
                        assert(shorter[i].path == path);
                    }
                },
            }
        }
    }
}

/// The last entry of a path after [`place`]: the entry placed, where it is
/// of the path and the path's last entry so far is not strictly later.
pub proof fn lemma_last_with_place(sorted: Seq<Entry>, e: Entry, path: Seq<char>)
    requires
        ordered(sorted),
    ensures
        last_with(place(sorted, e), path) == if e.path == path {
            match last_with(sorted, path) {
                Some(x) => if x.time <= e.time {
                    Some(e)
                } else {
                    Some(x)
                },
                None => Some(e),
            }
        } else {
            last_with(sorted, path)
        },
    decreases sorted.len(),
{
    if sorted.len() == 0 || sorted.last().time <= e.time {
        assert(sorted.push(e).drop_last() =~= sorted);
        if e.path == path {
            lemma_last_with_in(sorted, path);
            match last_with(sorted, path) {
                Some(x) => {
                    let m: int = choose|m: int| 0 <= m < sorted.len() && #[trigger] sorted[m] == x;
                    assert(sorted[m].time <= sorted[sorted.len() - 1].time);
                },
                None => {},
            }
        }
    } else {
        let shorter = sorted.drop_last();
        lemma_ordered_within(sorted);
        lemma_last_with_place(shorter, e, path);
        assert(place(shorter, e).push(sorted.last()).drop_last() =~= place(shorter, e));
    }
}

/// The current state of a path is the last entry of the path in the list
/// that [`by_time`] gives.
pub proof fn lemma_latest_is_last_by_time(log: Seq<Entry>, path: Seq<char>)
    ensures
        latest(log, path) == last_with(by_time(log), path),
    decreases log.len(),
{
    if log.len() > 0 {
        let shorter = log.drop_last();
        lemma_latest_is_last_by_time(shorter, path);
        lemma_by_time_ordered(shorter);
        lemma_last_with_place(by_time(shorter), log.last(), path);
        assert(shorter.push(log.last()) =~= log);
        lemma_latest_push(shorter, log.last(), path);
    }
}

/// [`last_with`] read from the front: the last entry of the path behind the
/// first entry, or the first entry itself where no later one is of the path.
pub proof fn lemma_last_with_first(entries: Seq<Entry>, path: Seq<char>)
    requires
        entries.len() > 0,
    ensures
        last_with(entries, path) == match last_with(entries.drop_first(), path) {
            Some(x) => Some(x),
            None => if entries[0].path == path {
                Some(entries[0])
            } else {
                None
            },
        },
    decreases entries.len(),
{
    if entries.len() == 1 {
        assert(entries.drop_first().len() == 0);
        assert(entries.drop_last().len() == 0);
    } else {
        let shorter = entries.drop_last();
        lemma_last_with_first(shorter, path);
        assert(shorter.drop_first() =~= entries.drop_first().drop_last());
        assert(entries.drop_first().last() == entries.last());
        assert(shorter[0] == entries[0]);
    }
}

/// What [`newest_of_each_path`] picks: for each path of the list its last
/// entry, and each path once.
pub proof fn lemma_newest_of_each_path(sorted: Seq<Entry>)
    ensures
        forall|k: int|
            0 <= k < newest_of_each_path(sorted).len() ==> last_with(
                sorted,
                (#[trigger] newest_of_each_path(sorted)[k]).path,
            ) == Some(newest_of_each_path(sorted)[k]),
        forall|path: Seq<char>|
            known(sorted, path) <==> #[trigger] known(newest_of_each_path(sorted), path),
        distinct_paths(newest_of_each_path(sorted)),
    decreases sorted.len(),
{
    let picked = newest_of_each_path(sorted);
    if sorted.len() > 0 {
        let rest = sorted.drop_first();
        let before = newest_of_each_path(rest);
        lemma_newest_of_each_path(rest);
        assert forall|k: int| 0 <= k < picked.len() implies last_with(
            sorted,
            (#[trigger] picked[k]).path,
        ) == Some(picked[k]) by {
            lemma_last_with_first(sorted, picked[k].path);
            if k < before.len() {
                assert(picked[k] == before[k]);
            } else {
                lemma_last_with_in(rest, sorted[0].path);
                assert(!known(before, sorted[0].path));
            }
        }
        assert forall|path: Seq<char>| known(sorted, path) <==> #[trigger] known(
            picked,
            path,
        ) by {
            if known(sorted, path) {
                let i: int = position_of(sorted, path);
                if i > 0 {
                    assert(rest[i - 1].path == path);
                    assert(known(before, path));
                    let j: int = position_of(before, path);
                    assert(picked[j].path == path);
                } else if known(before, path) {
                    let j: int = position_of(before, path);
                    assert(picked[j].path == path);
                } else {
                    assert(picked[before.len() as int].path == path);
                }
            }
            if known(picked, path) {
                let j: int = position_of(picked, path);
                if j < before.len() {
                    assert(before[j].path == path);
                    assert(known(before, path));
                    assert(known(rest, path));
                    let i: int = position_of(rest, path);
                    assert(sorted[i + 1].path == path);
                } else {
                    assert(sorted[0].path == path);
                }
            }
        }
        assert forall|a: int, b: int| 0 <= a < b < picked.len() implies (#[trigger] picked[a]).path
            != (#[trigger] picked[b]).path by {
            if b < before.len() {
                assert(before[a].path != before[b].path);
            } else {
                assert(before[a].path != sorted[0].path);
            }
        }
    }
}

/// Every entry that [`newest_of_each_path`] picks is an entry of the list,
/// and of a list that runs from the oldest to the newest it picks the
/// newest first.
pub proof fn lemma_newest_first(sorted: Seq<Entry>)
    requires
        ordered(sorted),
    ensures
        forall|k: int|
            0 <= k < newest_of_each_path(sorted).len() ==> exists|m: int|
                0 <= m < sorted.len() && #[trigger] sorted[m] == #[trigger] newest_of_each_path(
                    sorted,
                )[k],
        forall|a: int, b: int|
            0 <= a <= b < newest_of_each_path(sorted).len() ==> (#[trigger] newest_of_each_path(
                sorted,
            )[a]).time >= (#[trigger] newest_of_each_path(sorted)[b]).time,
    decreases sorted.len(),
{
    let picked = newest_of_each_path(sorted);
    if sorted.len() > 0 {
        let rest = sorted.drop_first();
        let before = newest_of_each_path(rest);
        lemma_ordered_within(sorted);
        lemma_newest_first(rest);
        assert forall|k: int| 0 <= k < picked.len() implies exists|m: int|
            0 <= m < sorted.len() && #[trigger] sorted[m] == #[trigger] picked[k] by {
            if k < before.len() {
                let m: int = choose|m: int|
                    0 <= m < rest.len() && #[trigger] rest[m] == #[trigger] before[k];
                assert(sorted[m + 1] == picked[k]);
            } else {
                assert(sorted[0] == picked[k]);
            }
        }
        assert forall|a: int, b: int| 0 <= a <= b < picked.len() implies (#[trigger] picked[a]).time
            >= (#[trigger] picked[b]).time by {
            if b < before.len() {
                assert(before[a].time >= before[b].time);
            } else if a < before.len() {
                let m: int = choose|m: int|
                    0 <= m < rest.len() && #[trigger] rest[m] == #[trigger] before[a];
                assert(sorted[0].time <= sorted[m + 1].time);
            }
        }
    }
}

/// [`latest_per_path`] lists the most recently observed state first.
pub proof fn lemma_latest_per_path_newest_first(log: Seq<Entry>)
    ensures
        forall|a: int, b: int|
            0 <= a <= b < latest_per_path(log).len() ==> (#[trigger] latest_per_path(log)[a]).time
                >= (#[trigger] latest_per_path(log)[b]).time,
{
    lemma_by_time_ordered(log);
    lemma_newest_first(by_time(log));
}

/// What [`latest_per_path`] lists: each entry is the current state of its
/// path, every known path has its entry, and none has two.
pub proof fn lemma_latest_per_path(log: Seq<Entry>)
    ensures
        forall|k: int|
            0 <= k < latest_per_path(log).len() ==> latest(
                log,
                (#[trigger] latest_per_path(log)[k]).path,
            ) == Some(latest_per_path(log)[k]),
        forall|path: Seq<char>| known(log, path) <==> #[trigger] known(latest_per_path(log), path),
        distinct_paths(latest_per_path(log)),
{
    let sorted = by_time(log);
    let listed = latest_per_path(log);
    lemma_newest_of_each_path(sorted);
    assert forall|k: int| 0 <= k < listed.len() implies latest(log, (#[trigger] listed[k]).path)
        == Some(listed[k]) by {
        lemma_latest_is_last_by_time(log, listed[k].path);
    }
    assert forall|path: Seq<char>| known(log, path) <==> #[trigger] known(listed, path) by {
        lemma_latest_known(log, path);
        lemma_latest_is_last_by_time(log, path);
        lemma_last_with_in(sorted, path);
    }
}

} // verus!
