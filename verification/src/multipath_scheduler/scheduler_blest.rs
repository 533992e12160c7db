//! The BLEST (BLocking ESTimation) scheduler: it prefers paths on which data
//! arrives soon enough not to hold up what was sent on a faster path.

use vstd::prelude::*;

use crate::multipath_scheduler::blest_laws::{law_first_stands_among_paths, law_usable_paths};
use crate::multipath_scheduler::{
    saturated, saturating_thousandfold, Duration, Error, MultipathConfig, Path, PathEvent, PathMap,
    SentPacket, MAX_NANOS,
};

verus! {

/// The bandwidth of a path in bytes per second: its window per round trip. None is
/// known where the round trip takes no time.
pub open spec fn bandwidth(srtt: Duration, cwnd: u64) -> int {
    match srtt.rate(cwnd) {
        Some(rate) => rate,
        None => 0,
    }
}

/// The whole milliseconds until what is in flight has drained. Where no bandwidth
/// is known, none are counted.
pub open spec fn drain_millis(srtt: Duration, cwnd: u64, bytes_in_flight: u64) -> int {
    if bandwidth(srtt, cwnd) == 0 {
        0
    } else {
        saturated(bytes_in_flight * 1000) / bandwidth(srtt, cwnd)
    }
}

/// The nanoseconds until data that is sent now has arrived: a round trip, and
/// the time to drain what is in flight.
pub open spec fn completion_nanos(srtt: Duration, cwnd: u64, bytes_in_flight: u64) -> int {
    srtt.nanos + drain_millis(srtt, cwnd, bytes_in_flight) * 1_000_000
}

/// The completion time of a path.
pub open spec fn path_completion(path: Path) -> int {
    completion_nanos(path.smoothed_rtt, path.congestion_window, path.bytes_in_flight as u64)
}

/// Whether a path that completes at `completion` is expected to block: it is later
/// than the earliest by more than the threshold.
pub open spec fn blocks(completion: int, earliest: int, threshold: int) -> bool {
    completion > earliest + threshold
}

/// The paths that a packet can be sent on, in their order.
pub open spec fn usable_paths(paths: Seq<(usize, Path)>) -> Seq<(usize, Path)> {
    paths.filter(|p: (usize, Path)| p.1.usable())
}

/// Path `i` completes first; among several, it is the first of them.
pub open spec fn completes_first(usable: Seq<(usize, Path)>, i: int) -> bool {
    &&& 0 <= i < usable.len()
    &&& forall|j: int|
        0 <= j < usable.len() ==> path_completion(usable[i].1) <= path_completion(
            (#[trigger] usable[j]).1,
        )
    &&& forall|j: int|
        0 <= j < i ==> path_completion(usable[i].1) < path_completion((#[trigger] usable[j]).1)
}

/// `rtt` is the shortest round trip of the usable paths.
pub open spec fn shortest_rtt(usable: Seq<(usize, Path)>, rtt: Duration) -> bool {
    &&& exists|i: int| 0 <= i < usable.len() && (#[trigger] usable[i]).1.smoothed_rtt == rtt
    &&& forall|i: int|
        0 <= i < usable.len() ==> rtt.nanos <= (#[trigger] usable[i]).1.smoothed_rtt.nanos
}

/// Whether all times of a selection stay within the longest span: the completion
/// times of the usable paths, and the threshold on top of the earliest of them.
pub open spec fn within_range(paths: Seq<(usize, Path)>, threshold: Duration) -> bool {
    &&& forall|j: int|
        0 <= j < paths.len() && (#[trigger] paths[j]).1.usable() ==> path_completion(paths[j].1)
            <= MAX_NANOS
    &&& usable_paths(paths).len() > 0 ==> exists|j: int|
        0 <= j < usable_paths(paths).len() && path_completion(
            (#[trigger] usable_paths(paths)[j]).1,
        ) + threshold.nanos <= MAX_NANOS
}

/// The bytes per path after `size` more were sent on `path_id`.
pub open spec fn recorded(bytes: Map<usize, u64>, path_id: usize, size: nat) -> Map<usize, u64> {
    let before = if bytes.contains_key(path_id) {
        bytes[path_id] as int
    } else {
        0
    };
    bytes.insert(path_id, saturated(before + size) as u64)
}

/// The totals, in their order, after `size` more bytes were sent on `path_id`: what
/// a path has grows in its place, and a new path comes last.
pub open spec fn recorded_entries(entries: Seq<(usize, u64)>, path_id: usize, size: nat) -> Seq<
    (usize, u64),
> {
    if as_map(entries).contains_key(path_id) {
        Seq::new(
            entries.len(),
            |i: int|
                if entries[i].0 == path_id {
                    (path_id, saturated(entries[i].1 + size) as u64)
                } else {
                    entries[i]
                },
        )
    } else {
        entries.push((path_id, saturated(size as int) as u64))
    }
}

/// The totals of all paths but one, in their order.
pub open spec fn entries_without(entries: Seq<(usize, u64)>, path_id: usize) -> Seq<
    (usize, u64),
> {
    entries.filter(|e: (usize, u64)| e.0 != path_id)
}

pub(crate) proof fn lemma_entries_without_push(
    entries: Seq<(usize, u64)>,
    e: (usize, u64),
    path_id: usize,
)
    ensures
        entries_without(entries.push(e), path_id) == if e.0 != path_id {
            entries_without(entries, path_id).push(e)
        } else {
            entries_without(entries, path_id)
        },
{
    reveal(Seq::filter);
    assert(entries.push(e).drop_last() =~= entries);
}

/// No path occurs twice.
pub open spec fn distinct(entries: Seq<(usize, u64)>) -> bool {
    forall|i: int, j: int|
        0 <= i < j < entries.len() ==> (#[trigger] entries[i]).0 != (#[trigger] entries[j]).0
}

/// The entries as a map from path to bytes.
pub open spec fn as_map(entries: Seq<(usize, u64)>) -> Map<usize, u64>
    decreases entries.len(),
{
    if entries.len() == 0 {
        Map::empty()
    } else {
        as_map(entries.drop_last()).insert(entries.last().0, entries.last().1)
    }
}

pub(crate) proof fn lemma_as_map(entries: Seq<(usize, u64)>)
    requires
        distinct(entries),
    ensures
        forall|i: int|
            0 <= i < entries.len() ==> as_map(entries).contains_key((#[trigger] entries[i]).0)
                && as_map(entries)[entries[i].0] == entries[i].1,
        forall|p: usize| #[trigger]
            as_map(entries).contains_key(p) ==> exists|i: int|
                0 <= i < entries.len() && (#[trigger] entries[i]).0 == p,
    decreases entries.len(),
{
    if entries.len() > 0 {
        let fewer = entries.drop_last();
        lemma_as_map(fewer);
        assert forall|i: int| 0 <= i < entries.len() implies as_map(entries).contains_key(
            (#[trigger] entries[i]).0,
        ) && as_map(entries)[entries[i].0] == entries[i].1 by {
            if i < fewer.len() {
                assert(fewer[i] == entries[i]);
            }
        }
        assert forall|p: usize| #[trigger] as_map(entries).contains_key(p) implies exists|i: int|
            0 <= i < entries.len() && (#[trigger] entries[i]).0 == p by {
            if p != entries.last().0 {
                assert(as_map(fewer).contains_key(p));
                let i = choose|i: int| 0 <= i < fewer.len() && (#[trigger] fewer[i]).0 == p;
                assert(entries[i] == fewer[i]);
                assert(entries[i].0 == p);
            } else {
                assert(entries[entries.len() - 1].0 == p);
            }
        }
    }
}

proof fn lemma_as_map_update(entries: Seq<(usize, u64)>, i: int, sum: u64)
    requires
        distinct(entries),
        0 <= i < entries.len(),
    ensures
        distinct(entries.update(i, (entries[i].0, sum))),
        as_map(entries.update(i, (entries[i].0, sum))) == as_map(entries).insert(entries[i].0, sum),
{
    let after = entries.update(i, (entries[i].0, sum));
    assert forall|j: int, k: int| 0 <= j < k < after.len() implies (#[trigger] after[j]).0 != (
    #[trigger] after[k]).0 by {
        assert(entries[j].0 != entries[k].0);
    }
    lemma_as_map(entries);
    lemma_as_map(after);
    let expected = as_map(entries).insert(entries[i].0, sum);
    assert forall|p: usize| #[trigger]
        as_map(after).dom().contains(p) == expected.dom().contains(p) && (expected.contains_key(p)
            ==> as_map(after)[p] == expected[p]) by {
        if as_map(after).contains_key(p) {
            let j = choose|j: int| 0 <= j < after.len() && (#[trigger] after[j]).0 == p;
            assert(entries[j].0 == p);
        }
        if as_map(entries).contains_key(p) {
            let j = choose|j: int| 0 <= j < entries.len() && (#[trigger] entries[j]).0 == p;
            assert(after[j].0 == p);
        }
        assert(after[i].0 == entries[i].0);
    }
    assert(as_map(after) =~= expected);
}

/// Selects the path on which data completes soonest among those that are not
/// expected to block, and keeps count of the bytes sent on each path.
#[derive(Debug)]
pub struct BlestScheduler {
    /// Lambda, which scales how much later than the fastest path another one may
    /// complete: the bits of a binary64 floating-point number.
    lambda_bits: u64,
    /// The bytes sent on each path.
    bytes_in_flight: Vec<(usize, u64)>,
    /// The path that was selected last.
    fallback_path: Option<usize>,
}

impl BlestScheduler {
    /// No path is counted twice.
    pub open spec fn wf(&self) -> bool {
        distinct(self.entries())
    }

    /// The bits of lambda.
    pub closed spec fn lambda(&self) -> u64 {
        self.lambda_bits
    }

    /// The bytes sent on each path, in the order in which the paths came.
    pub closed spec fn entries(&self) -> Seq<(usize, u64)> {
        self.bytes_in_flight@
    }

    /// The bytes sent on each path.
    pub open spec fn bytes(&self) -> Map<usize, u64> {
        as_map(self.entries())
    }

    /// The path that was selected last and has not ended since.
    pub closed spec fn fallback(&self) -> Option<usize> {
        self.fallback_path
    }

    /// Creates a scheduler with the configured lambda.
    pub fn new(conf: &MultipathConfig) -> (scheduler: BlestScheduler)
        ensures
            scheduler.wf(),
            scheduler.lambda() == conf.blest_lambda_bits,
            scheduler.entries() == Seq::<(usize, u64)>::empty(),
            scheduler.bytes() == Map::<usize, u64>::empty(),
            scheduler.fallback() == None::<usize>,
    {
        BlestScheduler {
            lambda_bits: conf.blest_lambda_bits,
            bytes_in_flight: Vec::new(),
            fallback_path: None,
        }
    }

    /// The bits of lambda.
    pub fn lambda_bits(&self) -> (r: u64)
        ensures
            r == self.lambda(),
    {
        self.lambda_bits
    }

    /// The path that was selected last and has not ended since.
    pub fn fallback_path(&self) -> (r: Option<usize>)
        ensures
            r == self.fallback(),
    {
        self.fallback_path
    }

    /// The bytes sent on a path, where any were counted.
    pub fn bytes_in_flight(&self, path_id: usize) -> (r: Option<u64>)
        requires
            self.wf(),
        ensures
            r == (if self.bytes().contains_key(path_id) {
                Some(self.bytes()[path_id])
            } else {
                None
            }),
    {
        proof {
            lemma_as_map(self.bytes_in_flight@);
        }
        let mut i: usize = 0;
        while i < self.bytes_in_flight.len()
            invariant
                i <= self.bytes_in_flight.len(),
                distinct(self.bytes_in_flight@),
                forall|j: int| 0 <= j < i ==> (#[trigger] self.bytes_in_flight@[j]).0 != path_id,
            decreases self.bytes_in_flight.len() - i,
        {
            if self.bytes_in_flight[i].0 == path_id {
                proof {
                    lemma_as_map(self.bytes_in_flight@);
                }
                return Some(self.bytes_in_flight[i].1);
            }
            i += 1;
        }
        None
    }

    fn drain_time_ms(srtt: Duration, cwnd: u64, bytes_in_flight: u64) -> (r: u64)
        ensures
            r == drain_millis(srtt, cwnd, bytes_in_flight),
    {
        let bandwidth: u64 = match srtt.bytes_per_second(cwnd) {
            Some(rate) => rate,
            None => 0,
        };
        if bandwidth == 0 {
            return 0;
        }
        saturating_thousandfold(bytes_in_flight) / bandwidth
    }

    /// Estimates when data sent now on a path has arrived.
    pub fn estimate_completion_time(srtt: Duration, cwnd: u64, bytes_in_flight: u64) -> (r:
        Duration)
        requires
            completion_nanos(srtt, cwnd, bytes_in_flight) <= MAX_NANOS,
        ensures
            r.nanos == completion_nanos(srtt, cwnd, bytes_in_flight),
    {
        let drain_time_ms: u64 = Self::drain_time_ms(srtt, cwnd, bytes_in_flight);
        Duration { nanos: srtt.nanos + Duration::from_millis(drain_time_ms).nanos }
    }

    /// Whether a path that completes at `path_completion` is expected to block. The
    /// threshold is lambda times the shortest round trip.
    pub fn calculate_blocking_potential(
        path_completion: Duration,
        min_completion: Duration,
        threshold: Duration,
    ) -> (r: bool)
        requires
            min_completion.nanos + threshold.nanos <= MAX_NANOS,
        ensures
            r == blocks(
                path_completion.nanos as int,
                min_completion.nanos as int,
                threshold.nanos as int,
            ),
            r == (path_completion.nanos > min_completion.nanos + threshold.nanos),
    {
        path_completion.nanos > min_completion.nanos + threshold.nanos
    }

    /// The usable paths with their completion times.
    fn candidates(paths: &PathMap) -> (r: Vec<(usize, Duration, Duration)>)
        requires
            forall|j: int|
                0 <= j < paths@.len() && (#[trigger] paths@[j]).1.usable() ==> path_completion(
                    paths@[j].1,
                ) <= MAX_NANOS,
        ensures
            r.len() == usable_paths(paths@).len(),
            forall|k: int| 0 <= k < r.len() ==> describes(#[trigger] r@[k], usable_paths(paths@)[k]),
    {
        let mut r: Vec<(usize, Duration, Duration)> = Vec::new();
        let mut i: usize = 0;
        assert(usable_paths(paths@.take(0)) =~= Seq::empty()) by {
            reveal(Seq::filter);
        }
        while i < paths.paths.len()
            invariant
                i <= paths.paths.len(),
                forall|j: int|
                    0 <= j < paths@.len() && (#[trigger] paths@[j]).1.usable() ==> path_completion(
                        paths@[j].1,
                    ) <= MAX_NANOS,
                r.len() == usable_paths(paths@.take(i as int)).len(),
                forall|k: int|
                    0 <= k < r.len() ==> describes(
                        #[trigger] r@[k],
                        usable_paths(paths@.take(i as int))[k],
                    ),
            decreases paths.paths.len() - i,
        {
            let pid: usize = paths.paths[i].0;
            let path = paths.paths[i].1;
            proof {
                assert(paths@.take(i + 1).drop_last() =~= paths@.take(i as int));
                assert(paths@.take(i + 1).last() == paths@[i as int]);
                reveal(Seq::filter);
            }
            if path.active && path.can_send {
                let completion = Self::estimate_completion_time(
                    path.smoothed_rtt,
                    path.congestion_window,
                    path.bytes_in_flight as u64,
                );
                r.push((pid, completion, path.smoothed_rtt));
            }
            i += 1;
        }
        assert(paths@.take(paths@.len() as int) =~= paths@);
        r
    }

    /// The position of the candidate that completes first; of several, the first.
    fn fastest(candidates: &Vec<(usize, Duration, Duration)>) -> (best: usize)
        requires
            candidates.len() > 0,
        ensures
            best < candidates.len(),
            forall|j: int|
                0 <= j < candidates.len() ==> candidates@[best as int].1.nanos <= (
                #[trigger] candidates@[j]).1.nanos,
            forall|j: int|
                0 <= j < best ==> candidates@[best as int].1.nanos < (
                #[trigger] candidates@[j]).1.nanos,
    {
        let mut best: usize = 0;
        let mut i: usize = 1;
        while i < candidates.len()
            invariant
                1 <= i <= candidates.len(),
                best < i,
                forall|j: int|
                    0 <= j < i ==> candidates@[best as int].1.nanos <= (
                    #[trigger] candidates@[j]).1.nanos,
                forall|j: int|
                    0 <= j < best ==> candidates@[best as int].1.nanos < (
                    #[trigger] candidates@[j]).1.nanos,
            decreases candidates.len() - i,
        {
            if candidates[i].1.nanos < candidates[best].1.nanos {
                best = i;
            }
            i += 1;
        }
        best
    }

    /// The shortest round trip of the usable paths, from which the threshold of
    /// the next selection is taken.
    pub fn min_rtt(paths: &PathMap) -> (r: Option<Duration>)
        ensures
            match r {
                Some(rtt) => shortest_rtt(usable_paths(paths@), rtt),
                None => usable_paths(paths@).len() == 0,
            },
            match r {
                Some(rtt) => {
                    &&& exists|j: int|
                        0 <= j < paths.paths@.len() && (#[trigger] paths.paths@[j]).1.active
                            && paths.paths@[j].1.can_send && paths.paths@[j].1.smoothed_rtt == rtt
                    &&& forall|k: int|
                        0 <= k < paths.paths@.len() && (#[trigger] paths.paths@[k]).1.active
                            && paths.paths@[k].1.can_send ==> rtt.nanos
                            <= paths.paths@[k].1.smoothed_rtt.nanos
                },
                None => forall|k: int|
                    0 <= k < paths.paths@.len() && (#[trigger] paths.paths@[k]).1.active
                        ==> !paths.paths@[k].1.can_send,
            },
    {
        let mut min: Option<Duration> = None;
        let mut i: usize = 0;
        assert(usable_paths(paths@.take(0)) =~= Seq::empty()) by {
            reveal(Seq::filter);
        }
        while i < paths.paths.len()
            invariant
                i <= paths.paths.len(),
                match min {
                    Some(rtt) => shortest_rtt(usable_paths(paths@.take(i as int)), rtt),
                    None => usable_paths(paths@.take(i as int)).len() == 0,
                },
            decreases paths.paths.len() - i,
        {
            let path = paths.paths[i].1;
            let ghost before = usable_paths(paths@.take(i as int));
            let ghost after = usable_paths(paths@.take(i + 1));
            proof {
                assert(paths@.take(i + 1).drop_last() =~= paths@.take(i as int));
                assert(paths@.take(i + 1).last() == paths@[i as int]);
                reveal(Seq::filter);
            }
            if path.active && path.can_send {
                let rtt = path.smoothed_rtt;
                let ghost last = before.len() as int;
                assert(after[last].1.smoothed_rtt == rtt);
                min = match min {
                    Some(m) => {
                        let ghost old_i = choose|k: int|
                            0 <= k < before.len() && (#[trigger] before[k]).1.smoothed_rtt == m;
                        assert(after[old_i].1.smoothed_rtt == m);
                        assert(forall|k: int| 0 <= k < last ==> #[trigger] after[k] == before[k]);
                        if rtt.nanos < m.nanos {
                            Some(rtt)
                        } else {
                            Some(m)
                        }
                    },
                    None => Some(rtt),
                };
            }
            i += 1;
        }
        assert(paths@.take(paths@.len() as int) =~= paths@);
        proof {
            law_usable_paths(paths@);
            let usable = usable_paths(paths@);
            assert forall|k: int| 0 <= k < paths@.len() && (#[trigger] paths@[k]).1.usable() implies
                usable.len() > 0 && exists|i: int|
                0 <= i < usable.len() && #[trigger] usable[i] == paths@[k] by {
                assert(usable.contains(paths@[k]));
            }
            if let Some(rtt) = min {
                let i = choose|i: int|
                    0 <= i < usable.len() && (#[trigger] usable[i]).1.smoothed_rtt == rtt;
                assert(paths@.contains(usable[i]));
                let j = paths@.index_of(usable[i]);
                assert(paths.paths@[j].1.usable());
            }
        }
        min
    }

    /// Whether all times of a selection stay within the longest span, as a
    /// selection asks for.
    pub fn in_range(paths: &PathMap, threshold: Duration) -> (r: bool)
        ensures
            r == within_range(paths@, threshold),
    {
        let mut i: usize = 0;
        while i < paths.paths.len()
            invariant
                i <= paths.paths.len(),
                forall|j: int|
                    0 <= j < i && (#[trigger] paths@[j]).1.usable() ==> path_completion(paths@[j].1)
                        <= MAX_NANOS,
            decreases paths.paths.len() - i,
        {
            let path = &paths.paths[i].1;
            if path.active && path.can_send && !Self::completion_in_range(path) {
                assert(paths@[i as int].1.usable());
                return false;
            }
            i += 1;
        }
        let candidates = Self::candidates(paths);
        if candidates.len() == 0 {
            return true;
        }
        let first: usize = Self::fastest(&candidates);
        let earliest: u128 = candidates[first].1.nanos;
        let ghost usable = usable_paths(paths@);
        assert(describes(candidates@[first as int], usable[first as int]));
        proof {
            assert forall|j: int| 0 <= j < usable.len() implies earliest <= path_completion(
                (#[trigger] usable[j]).1,
            ) by {
                assert(describes(candidates@[j], usable[j]));
            }
            law_usable_paths(paths@);
            assert(usable[first as int].1.usable());
        }
        threshold.nanos <= MAX_NANOS && earliest + threshold.nanos <= MAX_NANOS
    }

    fn completion_in_range(path: &Path) -> (r: bool)
        ensures
            r == (path_completion(*path) <= MAX_NANOS),
    {
        let drain_time_ms: u64 = Self::drain_time_ms(
            path.smoothed_rtt,
            path.congestion_window,
            path.bytes_in_flight as u64,
        );
        path.smoothed_rtt.nanos <= MAX_NANOS && path.smoothed_rtt.nanos + Duration::from_millis(
            drain_time_ms,
        ).nanos <= MAX_NANOS
    }

    /// Selects the path that completes first among the usable paths that are not
    /// expected to block, and among all of them where each is.
    ///
    /// `threshold` is lambda times the shortest round trip. Where no path is
    /// usable, the answer is `Error::Done`.
    pub fn on_select(&mut self, paths: &PathMap, threshold: Duration) -> (r: Result<usize, Error>)
        requires
            old(self).wf(),
            within_range(paths@, threshold),
        ensures
            final(self).wf(),
            final(self).lambda() == old(self).lambda(),
            final(self).entries() == old(self).entries(),
            ({
                let usable = usable_paths(paths@);
                if usable.len() == 0 {
                    &&& r == Err::<usize, Error>(Error::Done)
                    &&& final(self).fallback() == old(self).fallback()
                } else {
                    exists|i: int| #[trigger]
                        completes_first(usable, i) && r == Ok::<usize, Error>(usable[i].0)
                            && final(self).fallback() == Some(usable[i].0)
                }
            }),
            match r {
                Ok(id) => exists|j: int|
                    0 <= j < paths.paths@.len() && (#[trigger] paths.paths@[j]).0 == id
                        && paths.paths@[j].1.active && paths.paths@[j].1.can_send && (forall|k: int|
                        0 <= k < paths.paths@.len() && (#[trigger] paths.paths@[k]).1.active
                            && paths.paths@[k].1.can_send ==> path_completion(paths.paths@[j].1)
                            <= path_completion(paths.paths@[k].1) && (k < j ==> path_completion(
                            paths.paths@[j].1,
                        ) < path_completion(paths.paths@[k].1))),
                Err(_) => forall|k: int|
                    0 <= k < paths.paths@.len() && (#[trigger] paths.paths@[k]).1.active
                        ==> !paths.paths@[k].1.can_send,
            },
    {
        let candidates = Self::candidates(paths);
        let ghost usable = usable_paths(paths@);
        if candidates.len() == 0 {
            proof {
                law_usable_paths(paths@);
                assert forall|k: int|
                    0 <= k < paths.paths@.len() && (#[trigger] paths.paths@[k]).1.active
                        implies !paths.paths@[k].1.can_send by {
                    if paths@[k].1.usable() {
                        assert(usable.contains(paths@[k]));
                    }
                }
            }
            return Err(Error::Done);
        }
        let first: usize = Self::fastest(&candidates);
        let min_completion = candidates[first].1;
        proof {
            let j = choose|j: int|
                0 <= j < usable.len() && path_completion((#[trigger] usable[j]).1)
                    + threshold.nanos <= MAX_NANOS;
            assert(describes(candidates@[j], usable[j]));
        }

        let mut eligible: Vec<(usize, Duration, Duration)> = Vec::new();
        // Where among the candidates each eligible one stands.
        let ghost mut from: Seq<int> = Seq::empty();
        let mut i: usize = 0;
        while i < candidates.len()
            invariant
                i <= candidates.len(),
                min_completion.nanos + threshold.nanos <= MAX_NANOS,
                first < candidates.len(),
                candidates@[first as int].1 == min_completion,
                eligible.len() == from.len(),
                forall|k: int|
                    0 <= k < from.len() ==> 0 <= #[trigger] from[k] < i && eligible@[k]
                        == candidates@[from[k]],
                forall|k: int, l: int|
                    0 <= k < l < from.len() ==> #[trigger] from[k] < #[trigger] from[l],
                first < i ==> from.contains(first as int),
            decreases candidates.len() - i,
        {
            let ghost from_before = from;
            if !Self::calculate_blocking_potential(candidates[i].1, min_completion, threshold) {
                eligible.push(candidates[i]);
                proof {
                    from = from.push(i as int);
                    assert(from[from_before.len() as int] == i);
                    if first < i {
                        let k = from_before.index_of(first as int);
                        assert(from[k] == first);
                    }
                }
            }
            i += 1;
        }

        // The fastest candidate never blocks, so that one is always eligible.
        let best: usize = if eligible.len() == 0 {
            candidates[first].0
        } else {
            let k: usize = Self::fastest(&eligible);
            proof {
                let f = from.index_of(first as int);
                assert(eligible@[f] == candidates@[first as int]);
                assert(from[k as int] == first) by {
                    if from[k as int] < first {
                        assert(candidates@[from[k as int]].1.nanos > min_completion.nanos);
                    } else if from[k as int] > first {
                        assert(f < k) by {
                            if k < f {
                                assert(from[k as int] < from[f]);
                            }
                        }
                    }
                }
            }
            eligible[k].0
        };
        proof {
            assert(completes_first(usable, first as int)) by {
                assert(describes(candidates@[first as int], usable[first as int]));
                assert forall|j: int| 0 <= j < usable.len() implies path_completion(
                    usable[first as int].1,
                ) <= path_completion((#[trigger] usable[j]).1) by {
                    assert(describes(candidates@[j], usable[j]));
                }
                assert forall|j: int| 0 <= j < first implies path_completion(
                    usable[first as int].1,
                ) < path_completion((#[trigger] usable[j]).1) by {
                    assert(describes(candidates@[j], usable[j]));
                }
            }
            assert(describes(candidates@[first as int], usable[first as int]));
            law_first_stands_among_paths(*paths, first as int);
        }
        self.fallback_path = Some(best);
        Ok(best)
    }

    /// Counts the bytes of a packet that was sent on a path.
    pub fn on_sent(&mut self, packet: &SentPacket, path_id: usize, _paths: &PathMap)
        requires
            old(self).wf(),
        ensures
            final(self).wf(),
            final(self).lambda() == old(self).lambda(),
            final(self).fallback() == old(self).fallback(),
            final(self).bytes() == recorded(old(self).bytes(), path_id, packet.sent_size as nat),
            ({
                let sum = packet.sent_size + if old(self).bytes().contains_key(path_id) {
                    old(self).bytes()[path_id] as int
                } else {
                    0
                };
                &&& final(self).bytes().contains_key(path_id)
                &&& sum <= u64::MAX ==> final(self).bytes()[path_id] == sum
                &&& sum > u64::MAX ==> final(self).bytes()[path_id] == u64::MAX
                &&& final(self).bytes().remove(path_id) == old(self).bytes().remove(path_id)
            }),
            final(self).entries() == recorded_entries(
                old(self).entries(),
                path_id,
                packet.sent_size as nat,
            ),
    {
        let ghost before = self.bytes_in_flight@;
        let ghost target = recorded(old(self).bytes(), path_id, packet.sent_size as nat);
        proof {
            assert(target.remove(path_id) =~= old(self).bytes().remove(path_id));
            lemma_as_map(before);
        }
        let size: u64 = packet.sent_size as u64;
        let mut i: usize = 0;
        while i < self.bytes_in_flight.len()
            invariant
                i <= self.bytes_in_flight.len(),
                *self == *old(self),
                self.bytes_in_flight@ == before,
                distinct(before),
                size == packet.sent_size,
                target == recorded(as_map(before), path_id, size as nat),
                forall|j: int| 0 <= j < i ==> (#[trigger] self.bytes_in_flight@[j]).0 != path_id,
            decreases self.bytes_in_flight.len() - i,
        {
            let entry = self.bytes_in_flight[i];
            if entry.0 == path_id {
                let sum: u64 = entry.1.saturating_add(size);
                self.bytes_in_flight.set(i, (path_id, sum));
                proof {
                    lemma_as_map(before);
                    lemma_as_map_update(before, i as int, sum);
                    assert(self.bytes() =~= target);
                    assert(self.entries() =~= recorded_entries(before, path_id, size as nat));
                }
                return;
            }
            i += 1;
        }
        self.bytes_in_flight.push((path_id, size));
        proof {
            assert(self.bytes_in_flight@.drop_last() =~= before);
            assert(self.bytes() =~= target);
            assert(self.entries() =~= recorded_entries(before, path_id, size as nat));
        }
    }

    /// Forgets a path that was closed or failed; other events change nothing.
    pub fn on_path_updated(&mut self, _paths: &PathMap, event: PathEvent)
        requires
            old(self).wf(),
        ensures
            final(self).wf(),
            final(self).lambda() == old(self).lambda(),
            match event {
                PathEvent::Closed(path_id) | PathEvent::Failed(path_id) => {
                    &&& final(self).bytes() == old(self).bytes().remove(path_id)
                    &&& final(self).entries() == entries_without(old(self).entries(), path_id)
                    &&& final(self).fallback() == (if old(self).fallback() == Some(path_id) {
                        None
                    } else {
                        old(self).fallback()
                    })
                },
                PathEvent::Other(_) => *final(self) == *old(self),
            },
    {
        match event {
            PathEvent::Closed(path_id) | PathEvent::Failed(path_id) => {
                self.forget(path_id);
            },
            PathEvent::Other(_) => {},
        }
    }

    fn forget(&mut self, path_id: usize)
        requires
            old(self).wf(),
        ensures
            final(self).wf(),
            final(self).lambda() == old(self).lambda(),
            final(self).bytes() == old(self).bytes().remove(path_id),
            final(self).entries() == entries_without(old(self).entries(), path_id),
            final(self).fallback() == (if old(self).fallback() == Some(path_id) {
                None
            } else {
                old(self).fallback()
            }),
    {
        let ghost before = self.bytes_in_flight@;
        let mut kept: Vec<(usize, u64)> = Vec::new();
        let mut i: usize = 0;
        assert(entries_without(before.take(0), path_id) =~= Seq::empty()) by {
            reveal(Seq::filter);
        }
        while i < self.bytes_in_flight.len()
            invariant
                i <= self.bytes_in_flight.len(),
                self.bytes_in_flight@ == before,
                distinct(before),
                *self == *old(self),
                kept@ == entries_without(before.take(i as int), path_id),
                distinct(kept@),
                forall|k: int|
                    0 <= k < kept.len() ==> (#[trigger] kept@[k]).0 != path_id && exists|j: int|
                        0 <= j < i && (#[trigger] before[j]) == kept@[k],
                forall|j: int|
                    0 <= j < i && (#[trigger] before[j]).0 != path_id ==> kept@.contains(before[j]),
            decreases self.bytes_in_flight.len() - i,
        {
            let entry = self.bytes_in_flight[i];
            let ghost kept_before = kept@;
            proof {
                assert(before.take(i + 1) =~= before.take(i as int).push(entry));
                lemma_entries_without_push(before.take(i as int), entry, path_id);
            }
            if entry.0 != path_id {
                kept.push(entry);
                proof {
                    assert(kept@[kept_before.len() as int] == entry);
                    assert forall|j: int|
                        0 <= j < i + 1 && (#[trigger] before[j]).0 != path_id implies kept@.contains(
                        before[j],
                    ) by {
                        if j < i {
                            let k = kept_before.index_of(before[j]);
                            assert(kept@[k] == before[j]);
                        }
                    }
                    assert forall|k: int| 0 <= k < kept_before.len() implies (
                    #[trigger] kept_before[k]).0 != entry.0 by {
                        assert(kept_before[k] == kept@[k]);
                    }
                }
            }
            i += 1;
        }
        self.bytes_in_flight = kept;
        proof {
            assert(before.take(before.len() as int) =~= before);
            lemma_as_map(before);
            lemma_as_map(self.bytes_in_flight@);
            assert(self.bytes() =~= old(self).bytes().remove(path_id));
        }
        if self.fallback_path == Some(path_id) {
            self.fallback_path = None;
        }
    }
}

/// A candidate holds the identifier, completion time and round trip of a path.
spec fn describes(candidate: (usize, Duration, Duration), p: (usize, Path)) -> bool {
    &&& candidate.0 == p.0
    &&& candidate.1.nanos == path_completion(p.1)
    &&& candidate.2 == p.1.smoothed_rtt
}

} // verus!
