//! The weighted scheduler: packets are spread over the paths in proportion to
//! the bandwidth that each is estimated to have.

use vstd::prelude::*;

use crate::multipath_scheduler::weighted_laws::{has_origin, law_shares_are_usable_paths};
use crate::multipath_scheduler::{
    saturated, Duration, Error, MultipathConfig, Path, PathEvent, PathMap, SentPacket,
};

verus! {

/// The weight of a path: its congestion window per second of round trip time,
/// which is an estimate of its bandwidth. A path without any round trip time
/// weighs what its window holds.
pub open spec fn weight(cwnd: u64, srtt: Duration) -> int {
    match srtt.rate(cwnd) {
        Some(rate) => rate,
        None => cwnd as int,
    }
}

/// Whether a path takes part in the distribution.
pub open spec fn competes(path: Path) -> bool {
    path.usable() && weight(path.congestion_window, path.smoothed_rtt) > 0
}

/// The share of a path: its identifier and its weight.
pub open spec fn share_of(p: (usize, Path)) -> (usize, int) {
    (p.0, weight(p.1.congestion_window, p.1.smoothed_rtt))
}

/// The shares of the paths that take part, in their order.
pub open spec fn shares(paths: Seq<(usize, Path)>) -> Seq<(usize, int)> {
    paths.filter(|p: (usize, Path)| competes(p.1)).map_values(|p: (usize, Path)| share_of(p))
}

/// The weight of the first `n` shares together.
pub open spec fn weight_before(shares: Seq<(usize, int)>, n: int) -> int
    decreases n,
{
    if n <= 0 {
        0
    } else {
        weight_before(shares, n - 1) + shares[n - 1].1
    }
}

/// The weight of all shares together, as the scheduler counts it: in 64 bits, and
/// no further.
pub open spec fn total_weight(shares: Seq<(usize, int)>) -> int {
    saturated(weight_before(shares, shares.len() as int))
}

/// The point of a round of `size` points that turn `turn` of the round falls on.
/// Turns alternate between the two halves of the round, and so on within each
/// half, so that few turns already are spread over all of it. Each point has
/// exactly one turn.
pub open spec fn spread(turn: int, size: int) -> int
    decreases size,
{
    if size <= 1 {
        0
    } else if turn % 2 == 0 {
        spread(turn / 2, size - size / 2)
    } else {
        size - size / 2 + spread(turn / 2, size / 2)
    }
}

/// The point of its round that the counter stands at.
pub open spec fn point(counter: int, size: int) -> int {
    spread(counter % size, size)
}

/// Whether it is the turn of share `i` at the point `target` of a round: the
/// shares divide a round into consecutive stretches, each as long as its weight.
pub open spec fn in_turn(shares: Seq<(usize, int)>, target: int, i: int) -> bool {
    &&& 0 <= i < shares.len()
    &&& saturated(weight_before(shares, i)) <= target < saturated(weight_before(shares, i + 1))
}

/// The counter after one more selection.
pub open spec fn next_count(counter: u64) -> u64 {
    if counter == u64::MAX {
        0
    } else {
        (counter + 1) as u64
    }
}

proof fn lemma_weight_before_push(shares: Seq<(usize, int)>, share: (usize, int), n: int)
    requires
        n <= shares.len(),
    ensures
        weight_before(shares.push(share), n) == weight_before(shares, n),
    decreases n,
{
    if n > 0 {
        lemma_weight_before_push(shares, share, n - 1);
    }
}

pub(crate) proof fn lemma_weights_after_push(shares: Seq<(usize, int)>, share: (usize, int))
    ensures
        forall|n: int|
            n <= shares.len() ==> #[trigger] weight_before(shares.push(share), n)
                == weight_before(shares, n),
        weight_before(shares.push(share), shares.len() + 1int) == weight_before(
            shares,
            shares.len() as int,
        ) + share.1,
{
    assert forall|n: int| n <= shares.len() implies #[trigger] weight_before(shares.push(share), n)
        == weight_before(shares, n) by {
        lemma_weight_before_push(shares, share, n);
    }
    assert(shares.push(share)[shares.len() as int] == share);
    lemma_weight_before_push(shares, share, shares.len() as int);
}

pub(crate) proof fn lemma_shares_push(paths: Seq<(usize, Path)>, p: (usize, Path))
    ensures
        shares(paths.push(p)) == if competes(p.1) {
            shares(paths).push(share_of(p))
        } else {
            shares(paths)
        },
{
    reveal(Seq::filter);
    assert(paths.push(p).drop_last() =~= paths);
    if competes(p.1) {
        assert(shares(paths.push(p)) =~= shares(paths).push(share_of(p)));
    }
}

/// Distributes packets over the paths in proportion to their estimated bandwidth,
/// by counting through rounds in which each path has as many turns as its weight,
/// spread over the round.
#[derive(Debug)]
pub struct WeightedScheduler {
    /// For each share of the last selection: the path, and the weight up to and
    /// with it.
    accumulated_weights: Vec<(usize, u64)>,
    /// The number of selections so far, modulo 2^64.
    counter: u64,
    /// The weight of all shares of the last selection.
    total_weight: u64,
}

impl WeightedScheduler {
    /// The number of selections so far, modulo 2^64.
    pub closed spec fn counter(&self) -> u64 {
        self.counter
    }

    /// Creates a scheduler that has selected nothing yet. No setting applies to it.
    pub fn new(_conf: &MultipathConfig) -> (scheduler: WeightedScheduler)
        ensures
            scheduler.counter() == 0,
    {
        WeightedScheduler { accumulated_weights: Vec::new(), counter: 0, total_weight: 0 }
    }

    /// The weight of a path from its congestion window and round trip time.
    pub fn calculate_weight(cwnd: u64, srtt: Duration) -> (r: u64)
        ensures
            r == weight(cwnd, srtt),
    {
        match srtt.bytes_per_second(cwnd) {
            Some(rate) => rate,
            None => cwnd,
        }
    }

    /// The point of a round of `size` points that a turn falls on.
    fn spread_turn(turn: u64, size: u64) -> (r: u64)
        requires
            turn < size,
        ensures
            r == spread(turn as int, size as int),
            r < size,
    {
        let mut start: u64 = 0;
        let mut left: u64 = size;
        let mut rest: u64 = turn;
        while left > 1
            invariant
                rest < left,
                start + left <= size,
                start + spread(rest as int, left as int) == spread(turn as int, size as int),
            decreases left,
        {
            let lower: u64 = left - left / 2;
            if rest % 2 == 0 {
                left = lower;
            } else {
                start = start + lower;
                left = left / 2;
            }
            rest = rest / 2;
        }
        start
    }

    /// Selects the path whose turn it is.
    ///
    /// The weights are taken anew from the paths each time. Where no usable path
    /// has any weight, the answer is `Error::Done` and no turn is used up.
    pub fn on_select(&mut self, paths: &PathMap) -> (r: Result<usize, Error>)
        ensures
            ({
                let shares = shares(paths@);
                if shares.len() == 0 {
                    &&& r == Err::<usize, Error>(Error::Done)
                    &&& final(self).counter() == old(self).counter()
                } else {
                    let target = point(final(self).counter() as int, total_weight(shares));
                    &&& final(self).counter() == next_count(old(self).counter())
                    &&& old(self).counter() < u64::MAX ==> final(self).counter() == old(
                        self,
                    ).counter() + 1
                    &&& old(self).counter() == u64::MAX ==> final(self).counter() == 0
                    &&& exists|i: int|
                        #[trigger] in_turn(shares, target, i) && r == Ok::<usize, Error>(
                            shares[i].0,
                        )
                }
            }),
            match r {
                Ok(id) => exists|j: int|
                    0 <= j < paths.paths@.len() && (#[trigger] paths.paths@[j]).0 == id
                        && paths.paths@[j].1.active && paths.paths@[j].1.can_send && weight(
                        paths.paths@[j].1.congestion_window,
                        paths.paths@[j].1.smoothed_rtt,
                    ) > 0,
                Err(_) => forall|j: int|
                    0 <= j < paths.paths@.len() && (#[trigger] paths.paths@[j]).1.active
                        && paths.paths@[j].1.can_send ==> weight(
                        paths.paths@[j].1.congestion_window,
                        paths.paths@[j].1.smoothed_rtt,
                    ) <= 0,
            },
    {
        self.accumulated_weights.clear();
        self.total_weight = 0;

        let mut i: usize = 0;
        assert(shares(paths@.take(0)) =~= Seq::empty()) by {
            reveal(Seq::filter);
        }
        while i < paths.paths.len()
            invariant
                i <= paths.paths.len(),
                self.counter == old(self).counter,
                self.total_weight == total_weight(shares(paths@.take(i as int))),
                self.accumulated_weights.len() == shares(paths@.take(i as int)).len(),
                forall|k: int|
                    0 <= k < self.accumulated_weights.len() ==> {
                        let sh = shares(paths@.take(i as int));
                        &&& (#[trigger] self.accumulated_weights@[k]).0 == sh[k].0
                        &&& self.accumulated_weights@[k].1 == saturated(weight_before(sh, k + 1))
                    },
            decreases paths.paths.len() - i,
        {
            let pid: usize = paths.paths[i].0;
            let path = paths.paths[i].1;
            let ghost before = shares(paths@.take(i as int));
            proof {
                assert(paths@.take(i + 1) =~= paths@.take(i as int).push(paths@[i as int]));
                lemma_shares_push(paths@.take(i as int), paths@[i as int]);
            }
            if path.active && path.can_send {
                let weight: u64 = Self::calculate_weight(path.congestion_window, path.smoothed_rtt);
                if weight > 0 {
                    self.total_weight = self.total_weight.saturating_add(weight);
                    self.accumulated_weights.push((pid, self.total_weight));
                    proof {
                        lemma_weights_after_push(before, (pid, weight as int));
                    }
                }
            }
            i += 1;
        }
        assert(paths@.take(paths@.len() as int) =~= paths@);
        let ghost sh = shares(paths@);
        proof {
            law_shares_are_usable_paths(paths@);
            assert forall|j: int| 0 <= j < paths@.len() && competes(paths@[j].1) implies sh.len()
                > 0 by {
                assert(sh.contains(share_of(paths@[j])));
            }
        }

        if self.accumulated_weights.len() == 0 {
            return Err(Error::Done);
        }
        proof {
            lemma_shares_positive(paths@);
            lemma_weight_positive(sh, sh.len() as int);
        }
        self.counter = self.counter.wrapping_add(1);
        let turn: u64 = self.counter % self.total_weight;
        let target: u64 = Self::spread_turn(turn, self.total_weight);

        // The last stretch ends at the total, which the target is below.
        let mut k: usize = 0;
        while k < self.accumulated_weights.len() - 1 && target >= self.accumulated_weights[k].1
            invariant
                k < self.accumulated_weights.len(),
                self.counter == next_count(old(self).counter),
                self.accumulated_weights.len() == sh.len(),
                forall|j: int|
                    0 <= j < self.accumulated_weights.len() ==> {
                        &&& (#[trigger] self.accumulated_weights@[j]).0 == sh[j].0
                        &&& self.accumulated_weights@[j].1 == saturated(weight_before(sh, j + 1))
                    },
                target < total_weight(sh),
                saturated(weight_before(sh, k as int)) <= target,
                target == point(self.counter as int, total_weight(sh)),
            decreases self.accumulated_weights.len() - k,
        {
            k += 1;
        }
        assert(target == point(self.counter() as int, total_weight(sh)));
        assert(in_turn(sh, target as int, k as int));
        assert(has_origin(paths@, sh[k as int]));
        Ok(self.accumulated_weights[k].0)
    }

    /// Nothing is kept per path between selections, so an event changes nothing.
    pub fn on_path_updated(&mut self, _paths: &PathMap, _event: PathEvent)
        ensures
            *final(self) == *old(self),
    {
    }

    /// Nothing is kept per packet, so a sent packet changes nothing.
    pub fn on_sent(&mut self, _packet: &SentPacket, _path_id: usize, _paths: &PathMap)
        ensures
            *final(self) == *old(self),
    {
    }
}

/// Every share has a positive weight.
pub(crate) proof fn lemma_shares_positive(paths: Seq<(usize, Path)>)
    ensures
        forall|i: int| 0 <= i < shares(paths).len() ==> (#[trigger] shares(paths)[i]).1 > 0,
    decreases paths.len(),
{
    if paths.len() == 0 {
        reveal(Seq::filter);
        assert(shares(paths) =~= Seq::empty());
    } else {
        lemma_shares_positive(paths.drop_last());
        assert(paths =~= paths.drop_last().push(paths.last()));
        lemma_shares_push(paths.drop_last(), paths.last());
    }
}

pub(crate) proof fn lemma_weight_positive(shares: Seq<(usize, int)>, n: int)
    requires
        0 <= n <= shares.len(),
        forall|i: int| 0 <= i < shares.len() ==> (#[trigger] shares[i]).1 > 0,
    ensures
        weight_before(shares, n) >= n,
    decreases n,
{
    if n > 0 {
        lemma_weight_positive(shares, n - 1);
    }
}

} // verus!
