//! What holds of blocking estimation.

use vstd::arithmetic::div_mod::{lemma_div_is_ordered, lemma_div_pos_is_pos};
use vstd::prelude::*;

use crate::multipath_scheduler::rate_laws::{
    law_rate_times_span_is_bytes, lemma_filter_origin, lemma_filter_rank,
    lemma_filter_rank_ordered, lemma_quotient,
};
use crate::multipath_scheduler::scheduler_blest::{
    bandwidth, blocks, completes_first, completion_nanos, entries_without, lemma_as_map,
    lemma_entries_without_push, path_completion, recorded, recorded_entries, usable_paths,
    within_range,
};
use crate::multipath_scheduler::{saturated, Duration, Path, PathMap};

verus! {

/// Law: data takes at least a round trip, and more data in flight never makes it
/// arrive sooner.
pub proof fn law_completion_grows_with_flight(srtt: Duration, cwnd: u64, bytes: u64, more: u64)
    requires
        bytes <= more,
    ensures
        srtt.nanos <= completion_nanos(srtt, cwnd, bytes) <= completion_nanos(srtt, cwnd, more),
{
    let b = bandwidth(srtt, cwnd);
    if 0 < srtt.nanos < 1_000_000 {
        lemma_div_pos_is_pos(cwnd * 1_000_000_000, srtt.nanos as int);
    } else if srtt.millis() != 0 {
        lemma_div_pos_is_pos(saturated(cwnd * 1000), srtt.millis() as int);
    }
    if b > 0 {
        lemma_div_pos_is_pos(saturated(bytes * 1000), b);
        lemma_div_is_ordered(saturated(bytes * 1000), saturated(more * 1000), b);
    }
}

/// Law: where some path is usable, exactly one is the first to complete. With it
/// the choice is fixed by the paths alone: lambda and the threshold taken from it
/// do not change which path is selected.
pub proof fn law_one_first(usable: Seq<(usize, Path)>)
    requires
        usable.len() > 0,
    ensures
        exists|i: int| completes_first(usable, i),
        forall|i: int, j: int| completes_first(usable, i) && completes_first(usable, j) ==> i == j,
    decreases usable.len(),
{
    if usable.len() == 1 {
        assert(completes_first(usable, 0));
    } else {
        let fewer = usable.drop_last();
        law_one_first(fewer);
        let i = choose|i: int| completes_first(fewer, i);
        let last = usable.len() - 1;
        assert(forall|j: int| 0 <= j < last ==> #[trigger] usable[j] == fewer[j]);
        if path_completion(usable[last].1) < path_completion(usable[i].1) {
            assert(completes_first(usable, last));
        } else {
            assert(completes_first(usable, i));
        }
    }
    assert forall|i: int, j: int|
        completes_first(usable, i) && completes_first(usable, j) implies i == j by {
        if i < j {
            assert(path_completion(usable[j].1) < path_completion(usable[i].1));
        } else if j < i {
            assert(path_completion(usable[i].1) < path_completion(usable[j].1));
        }
    }
}

/// Law: the path that completes first is not expected to block, whatever the
/// threshold, so that there is always a path to select that is not.
pub proof fn law_first_does_not_block(usable: Seq<(usize, Path)>, i: int, threshold: nat)
    requires
        completes_first(usable, i),
    ensures
        forall|j: int|
            0 <= j < usable.len() ==> !blocks(
                path_completion(usable[i].1),
                path_completion((#[trigger] usable[j]).1),
                threshold as int,
            ),
{
}

/// Law: only active paths with room in their congestion window are considered,
/// and all of these are.
pub proof fn law_usable_paths(paths: Seq<(usize, Path)>)
    ensures
        forall|i: int|
            0 <= i < usable_paths(paths).len() ==> (#[trigger] usable_paths(paths)[i]).1.usable()
                && paths.contains(usable_paths(paths)[i]),
        forall|j: int|
            0 <= j < paths.len() && (#[trigger] paths[j]).1.usable() ==> usable_paths(
                paths,
            ).contains(paths[j]),
    decreases paths.len(),
{
    reveal(Seq::filter);
    if paths.len() > 0 {
        let fewer = paths.drop_last();
        law_usable_paths(fewer);
        let before = usable_paths(fewer);
        let after = usable_paths(paths);
        assert forall|i: int| 0 <= i < after.len() implies (#[trigger] after[i]).1.usable()
            && paths.contains(after[i]) by {
            if i < before.len() {
                assert(after[i] == before[i]);
                let j = fewer.index_of(before[i]);
                assert(paths[j] == after[i]);
            } else {
                assert(paths[paths.len() - 1] == after[i]);
            }
        }
        assert forall|j: int|
            0 <= j < paths.len() && (#[trigger] paths[j]).1.usable() implies after.contains(
            paths[j],
        ) by {
            if j < fewer.len() {
                assert(fewer[j] == paths[j]);
                let k = before.index_of(fewer[j]);
                assert(after[k] == paths[j]);
            } else {
                assert(after[before.len() as int] == paths[j]);
            }
        }
    }
}

/// Law: sent bytes add up, up to the largest value of 64 bits, and what is sent on
/// one path leaves the count of every other as it was.
pub proof fn law_sent_bytes_add_up(bytes: Map<usize, u64>, path_id: usize, a: nat, b: nat)
    ensures
        recorded(recorded(bytes, path_id, a), path_id, b) == recorded(
            bytes,
            path_id,
            a + b,
        ),
        forall|p: usize|
            p != path_id ==> #[trigger] recorded(bytes, path_id, a).contains_key(p)
                == bytes.contains_key(p),
        forall|p: usize|
            p != path_id && bytes.contains_key(p) ==> #[trigger] recorded(bytes, path_id, a)[p]
                == bytes[p],
{
    assert(recorded(recorded(bytes, path_id, a), path_id, b) =~= recorded(
        bytes,
        path_id,
        a + b,
    ));
}

/// Law: the path that completes first among the usable ones is, in the whole list
/// of paths, one that is active and has room, no such path completes sooner, and
/// those before it complete later.
pub proof fn law_first_stands_among_paths(paths: PathMap, i: int)
    requires
        completes_first(usable_paths(paths@), i),
    ensures
        exists|j: int|
            0 <= j < paths.paths@.len() && #[trigger] paths.paths@[j] == usable_paths(paths@)[i]
                && paths.paths@[j].1.active && paths.paths@[j].1.can_send && (forall|k: int|
                0 <= k < paths.paths@.len() && (#[trigger] paths.paths@[k]).1.active
                    && paths.paths@[k].1.can_send ==> path_completion(paths.paths@[j].1)
                    <= path_completion(paths.paths@[k].1) && (k < j ==> path_completion(
                    paths.paths@[j].1,
                ) < path_completion(paths.paths@[k].1))),
{
    let all = paths.paths@;
    let usable = usable_paths(all);
    let f = |p: (usize, Path)| p.1.usable();
    assert(usable == all.filter(f));
    let j = lemma_filter_origin(all, f, i);
    assert(f(all[j]));
    assert forall|k: int|
        0 <= k < all.len() && (#[trigger] all[k]).1.active && all[k].1.can_send implies
        path_completion(all[j].1) <= path_completion(all[k].1) && (k < j ==> path_completion(
        all[j].1,
    ) < path_completion(all[k].1)) by {
        assert(f(all[k]));
        lemma_filter_rank(all, f, k);
        let rank = all.take(k).filter(f).len() as int;
        assert(usable[rank] == all[k]);
        if k < j {
            lemma_filter_rank_ordered(all, f, k, j);
        }
    }
    assert(paths.paths@[j] == usable[i]);
}

/// Law: the bandwidth of a path times its round trip is its congestion window, up
/// to what rounding down loses: in bytes per second, over whole milliseconds, and
/// over nanoseconds where the round trip is shorter than one. Over no round trip
/// time there is none.
pub proof fn law_bandwidth_is_window_per_round_trip(cwnd: u64, srtt: Duration)
    ensures
        ({
            let b = bandwidth(srtt, cwnd);
            let millis = (srtt.nanos as int / 1_000_000) % 18_446_744_073_709_551_616;
            let scaled = if cwnd * 1000 > u64::MAX {
                u64::MAX as int
            } else {
                cwnd * 1000
            };
            &&& 0 <= b
            &&& srtt.nanos == 0 ==> b == 0
            &&& 0 < srtt.nanos < 1_000_000 ==> b <= u64::MAX && b * srtt.nanos <= cwnd
                * 1_000_000_000 && (b == u64::MAX || cwnd * 1_000_000_000 < (b + 1) * srtt.nanos)
            &&& srtt.nanos >= 1_000_000 && millis == 0 ==> b == 0
            &&& srtt.nanos >= 1_000_000 && millis > 0 ==> b * millis <= scaled < (b + 1) * millis
        }),
{
    law_rate_times_span_is_bytes(srtt, cwnd);
}

/// Law: what is sent now completes after the round trip and after all that is in
/// flight has drained: so many whole milliseconds that, at the bandwidth, they
/// take all bytes in flight but for less than one millisecond's worth.
pub proof fn law_completion_is_round_trip_and_drain(srtt: Duration, cwnd: u64, bytes: u64)
    ensures
        ({
            let b = bandwidth(srtt, cwnd);
            let extra = completion_nanos(srtt, cwnd, bytes) - srtt.nanos;
            let scaled = if bytes * 1000 > u64::MAX {
                u64::MAX as int
            } else {
                bytes * 1000
            };
            &&& 0 <= extra
            &&& extra % 1_000_000 == 0
            &&& b == 0 ==> extra == 0
            &&& b > 0 ==> (extra / 1_000_000) * b <= scaled < (extra / 1_000_000 + 1) * b
        }),
{
    law_bandwidth_is_window_per_round_trip(cwnd, srtt);
    let b = bandwidth(srtt, cwnd);
    if b > 0 {
        lemma_quotient(saturated(bytes * 1000), b);
    }
}

/// Law: paths are ranked by the completion time of all their own values: the whole
/// round trip, the whole window and every byte that is in flight.
pub proof fn law_paths_ranked_by_their_own_values(path: Path)
    ensures
        ({
            let b = bandwidth(path.smoothed_rtt, path.congestion_window);
            let extra = path_completion(path) - path.smoothed_rtt.nanos;
            let scaled = if path.bytes_in_flight * 1000 > u64::MAX {
                u64::MAX as int
            } else {
                path.bytes_in_flight * 1000
            };
            &&& path_completion(path) == completion_nanos(
                path.smoothed_rtt,
                path.congestion_window,
                path.bytes_in_flight as u64,
            )
            &&& 0 <= extra
            &&& extra % 1_000_000 == 0
            &&& b == 0 ==> extra == 0
            &&& b > 0 ==> (extra / 1_000_000) * b <= scaled < (extra / 1_000_000 + 1) * b
        }),
{
    law_completion_is_round_trip_and_drain(
        path.smoothed_rtt,
        path.congestion_window,
        path.bytes_in_flight as u64,
    );
}

/// Law: of two paths that differ in nothing but the bytes in flight, the one with
/// more never completes sooner, and where it has at least a millisecond's worth
/// more, it completes later by a millisecond or more.
pub proof fn law_more_in_flight_completes_later(path: Path, fuller: Path)
    requires
        fuller.smoothed_rtt == path.smoothed_rtt,
        fuller.congestion_window == path.congestion_window,
        path.bytes_in_flight <= fuller.bytes_in_flight,
    ensures
        path_completion(path) <= path_completion(fuller),
        ({
            let b = bandwidth(path.smoothed_rtt, path.congestion_window);
            b > 0 && (fuller.bytes_in_flight - path.bytes_in_flight) * 1000 >= b
                && fuller.bytes_in_flight * 1000 <= u64::MAX ==> path_completion(path) + 1_000_000
                <= path_completion(fuller)
        }),
{
    law_completion_grows_with_flight(
        path.smoothed_rtt,
        path.congestion_window,
        path.bytes_in_flight as u64,
        fuller.bytes_in_flight as u64,
    );
    law_paths_ranked_by_their_own_values(path);
    law_paths_ranked_by_their_own_values(fuller);
    let b = bandwidth(path.smoothed_rtt, path.congestion_window);
    let less = path_completion(path) - path.smoothed_rtt.nanos;
    let more = path_completion(fuller) - path.smoothed_rtt.nanos;
    if b > 0 && (fuller.bytes_in_flight - path.bytes_in_flight) * 1000 >= b
        && fuller.bytes_in_flight * 1000 <= u64::MAX {
        let d = less / 1_000_000;
        let e = more / 1_000_000;
        let x = path.bytes_in_flight * 1000;
        let y = fuller.bytes_in_flight * 1000;
        assert(d + 1 <= e) by (nonlinear_arith)
            requires
                0 < b,
                d * b <= x,
                y < (e + 1) * b,
                y - x >= b,
        ;
    }
}

/// Law: a path with a full window in flight completes after another round trip, in
/// whole milliseconds, so that an idle path is preferred to it that has any round
/// trip shorter than both together.
pub proof fn law_full_window_waits_a_round_trip(path: Path)
    requires
        path.bytes_in_flight >= path.congestion_window,
        bandwidth(path.smoothed_rtt, path.congestion_window) > 0,
        path.bytes_in_flight * 1000 <= u64::MAX,
        1_000_000 <= path.smoothed_rtt.nanos < 18_446_744_073_709_551_616_000_000,
    ensures
        path_completion(path) >= path.smoothed_rtt.nanos + (path.smoothed_rtt.nanos as int
            / 1_000_000) * 1_000_000,
{
    law_bandwidth_is_window_per_round_trip(path.congestion_window, path.smoothed_rtt);
    law_paths_ranked_by_their_own_values(path);
    let b = bandwidth(path.smoothed_rtt, path.congestion_window);
    let m = path.smoothed_rtt.nanos as int / 1_000_000;
    assert(m % 18_446_744_073_709_551_616 == m);
    let d = (path_completion(path) - path.smoothed_rtt.nanos) / 1_000_000;
    let x = path.bytes_in_flight * 1000;
    assert(m <= d) by (nonlinear_arith)
        requires
            0 < b,
            b * m <= x,
            x < (d + 1) * b,
    ;
}

/// Law: a path is expected to block where it completes later than the earliest one
/// by more than the threshold: the later it is and the smaller the threshold, the
/// sooner.
pub proof fn law_blocking_is_being_late(completion: int, earliest: int, threshold: int)
    ensures
        blocks(completion, earliest, threshold) <==> completion - earliest > threshold,
{
}

/// Law: a selection can be made whenever all completion times, and the threshold on
/// top of one of them, are within the longest span; with no usable path, always.
pub proof fn law_selection_is_possible(paths: PathMap, threshold: Duration, j: int)
    ensures
        (forall|k: int|
            0 <= k < paths.paths@.len() && (#[trigger] paths.paths@[k]).1.active ==> !paths.paths@[
            k].1.can_send) ==> within_range(paths@, threshold),
        (forall|k: int|
            0 <= k < paths.paths@.len() && (#[trigger] paths.paths@[k]).1.active
                && paths.paths@[k].1.can_send ==> path_completion(paths.paths@[k].1)
                <= 18_446_744_073_709_551_615_999_999_999) && 0 <= j < paths.paths@.len()
            && paths.paths@[j].1.active && paths.paths@[j].1.can_send && path_completion(
            paths.paths@[j].1,
        ) + threshold.nanos <= 18_446_744_073_709_551_615_999_999_999 ==> within_range(
            paths@,
            threshold,
        ),
{
    let usable = usable_paths(paths@);
    law_usable_paths(paths@);
    if usable.len() > 0 {
        assert(usable[0].1.usable() && paths@.contains(usable[0]));
        let k = paths@.index_of(usable[0]);
        assert(paths.paths@[k].1.active);
    }
    if 0 <= j < paths.paths@.len() && paths@[j].1.usable() {
        assert(usable.contains(paths@[j]));
        let i = usable.index_of(paths@[j]);
        assert(usable[i] == paths@[j]);
    }
}

/// Law: sent bytes are counted whole, up to the largest value of 64 bits.
pub proof fn law_sent_bytes_are_counted_whole(bytes: Map<usize, u64>, path_id: usize, size: nat)
    ensures
        ({
            let after = recorded(bytes, path_id, size);
            let before = if bytes.contains_key(path_id) {
                bytes[path_id] as int
            } else {
                0
            };
            &&& after.contains_key(path_id)
            &&& before + size <= u64::MAX ==> after[path_id] == before + size
            &&& before + size > u64::MAX ==> after[path_id] == u64::MAX
        }),
{
}

/// Law: forgetting a path takes out what was counted for it, and the rest stays in
/// its order.
pub proof fn law_forgetting_keeps_order(
    entries: Seq<(usize, u64)>,
    entry: (usize, u64),
    path_id: usize,
)
    ensures
        entries_without(Seq::empty(), path_id) == Seq::<(usize, u64)>::empty(),
        entry.0 == path_id ==> entries_without(entries.push(entry), path_id) == entries_without(
            entries,
            path_id,
        ),
        entry.0 != path_id ==> entries_without(entries.push(entry), path_id) == entries_without(
            entries,
            path_id,
        ).push(entry),
{
    reveal(Seq::filter);
    lemma_entries_without_push(entries, entry, path_id);
}

/// Law: counting sent bytes leaves every path at its place and what is counted for
/// the others as it was; a path that was not counted yet comes last.
pub proof fn law_counting_keeps_order(entries: Seq<(usize, u64)>, path_id: usize, size: nat)
    requires
        forall|i: int, j: int|
            0 <= i < j < entries.len() ==> (#[trigger] entries[i]).0 != (#[trigger] entries[j]).0,
    ensures
        ({
            let after = recorded_entries(entries, path_id, size);
            &&& forall|i: int|
                0 <= i < entries.len() ==> (#[trigger] after[i]).0 == entries[i].0
            &&& forall|i: int|
                0 <= i < entries.len() && (#[trigger] entries[i]).0 != path_id ==> after[i]
                    == entries[i]
            &&& after.len() == entries.len() || after.len() == entries.len() + 1 && after.last().0
                == path_id
            &&& after.len() == entries.len() <==> exists|i: int|
                0 <= i < entries.len() && (#[trigger] entries[i]).0 == path_id
        }),
{
    lemma_as_map(entries);
}

} // verus!
