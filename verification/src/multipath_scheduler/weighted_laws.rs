//! What holds of the weighted distribution over many selections.

use vstd::arithmetic::div_mod::{
    lemma_add_mod_noop_right, lemma_div_is_ordered, lemma_div_is_ordered_by_denominator,
    lemma_mod_bound, lemma_small_mod,
};
use vstd::prelude::*;

use crate::multipath_scheduler::rate_laws::law_rate_times_span_is_bytes;
use crate::multipath_scheduler::scheduler_weighted::{
    competes, in_turn, lemma_shares_positive, lemma_shares_push, lemma_weights_after_push,
    next_count, point, share_of, shares, total_weight, weight, weight_before,
};
use crate::multipath_scheduler::spread_laws::{
    hits, law_first_turns_are_even, lemma_hits_round, lemma_slack_ordered, slack,
};
use crate::multipath_scheduler::{saturated, Duration, Path, PathMap};

verus! {

/// How often it is the turn of share `i` while the counter runs through the `n`
/// values from `from` on.
pub open spec fn turns(shares: Seq<(usize, int)>, i: int, from: int, n: nat) -> int
    decreases n,
{
    if n == 0 {
        0
    } else {
        turns(shares, i, from, (n - 1) as nat) + if in_turn(
            shares,
            point(from + n - 1, total_weight(shares)),
            i,
        ) {
            1int
        } else {
            0
        }
    }
}

/// The shares have weights as `on_select` makes them, and their sum fits the
/// scheduler's 64 bits.
pub open spec fn countable(shares: Seq<(usize, int)>) -> bool {
    &&& shares.len() > 0
    &&& forall|i: int| 0 <= i < shares.len() ==> (#[trigger] shares[i]).1 > 0
    &&& weight_before(shares, shares.len() as int) <= u64::MAX
}

proof fn lemma_weight_before_ordered(shares: Seq<(usize, int)>, m: int, n: int)
    requires
        0 <= m <= n <= shares.len(),
        forall|i: int| 0 <= i < shares.len() ==> (#[trigger] shares[i]).1 > 0,
    ensures
        0 <= weight_before(shares, m) <= weight_before(shares, n),
        m < n ==> weight_before(shares, m) < weight_before(shares, n),
    decreases n,
{
    if n > 0 {
        if m < n {
            lemma_weight_before_ordered(shares, m, n - 1);
        } else {
            lemma_weight_before_ordered(shares, m - 1, n - 1);
        }
    }
}

/// Law: at every point of a round it is the turn of exactly one share.
pub proof fn law_one_turn(shares: Seq<(usize, int)>, target: int)
    requires
        0 <= target < total_weight(shares),
        forall|i: int| 0 <= i < shares.len() ==> (#[trigger] shares[i]).1 > 0,
    ensures
        exists|i: int| in_turn(shares, target, i),
        forall|i: int, j: int| in_turn(shares, target, i) && in_turn(shares, target, j) ==> i == j,
{
    let i = lemma_turn_exists(shares, target, shares.len() as int);
    assert(in_turn(shares, target, i));
    assert forall|i: int, j: int|
        in_turn(shares, target, i) && in_turn(shares, target, j) implies i == j by {
        if i < j {
            lemma_weight_before_ordered(shares, i + 1, j);
        } else if j < i {
            lemma_weight_before_ordered(shares, j + 1, i);
        }
    }
}

proof fn lemma_turn_exists(shares: Seq<(usize, int)>, target: int, n: int) -> (i: int)
    requires
        0 <= n <= shares.len(),
        0 <= target < saturated(weight_before(shares, n)),
    ensures
        in_turn(shares, target, i),
    decreases n,
{
    if target < saturated(weight_before(shares, n - 1)) {
        lemma_turn_exists(shares, target, n - 1)
    } else {
        n - 1
    }
}

/// The bounds of the stretch of a share.
proof fn lemma_stretch(shares: Seq<(usize, int)>, i: int)
    requires
        countable(shares),
        0 <= i < shares.len(),
    ensures
        0 <= weight_before(shares, i) < weight_before(shares, i + 1) <= total_weight(shares),
        weight_before(shares, i + 1) == weight_before(shares, i) + shares[i].1,
        forall|target: int|
            #[trigger] in_turn(shares, target, i) <==> weight_before(shares, i) <= target
                < weight_before(shares, i + 1),
{
    lemma_weight_before_ordered(shares, 0, i);
    lemma_weight_before_ordered(shares, i, i + 1);
    lemma_weight_before_ordered(shares, i + 1, shares.len() as int);
}

/// In the first round, the turns of a share are those below its end that are not
/// below its start.
proof fn lemma_turns_first_round(shares: Seq<(usize, int)>, i: int, n: nat)
    requires
        countable(shares),
        0 <= i < shares.len(),
        n <= total_weight(shares),
    ensures
        turns(shares, i, 0, n) == hits(
            total_weight(shares),
            weight_before(shares, i + 1),
            n as int,
        ) - hits(total_weight(shares), weight_before(shares, i), n as int),
    decreases n,
{
    lemma_stretch(shares, i);
    if n > 0 {
        lemma_turns_first_round(shares, i, (n - 1) as nat);
        lemma_small_mod((n - 1) as nat, total_weight(shares) as nat);
        assert(0 + n - 1 == n - 1);
    }
}

/// Only the place within its round matters for where a run begins.
proof fn lemma_turns_within_round(shares: Seq<(usize, int)>, i: int, from: int, n: nat)
    requires
        countable(shares),
    ensures
        turns(shares, i, from, n) == turns(shares, i, from % total_weight(shares), n),
    decreases n,
{
    let round = total_weight(shares);
    lemma_weight_before_ordered(shares, 0, shares.len() as int);
    if n > 0 {
        lemma_turns_within_round(shares, i, from, (n - 1) as nat);
        lemma_add_mod_noop_right(n - 1, from, round);
        assert(from + n - 1 == (n - 1) + from);
        assert(from % round + n - 1 == (n - 1) + from % round);
    }
}

/// A run is made of two runs.
proof fn lemma_turns_split(shares: Seq<(usize, int)>, i: int, from: int, m: nat, n: nat)
    ensures
        turns(shares, i, from, m + n) == turns(shares, i, from, m) + turns(
            shares,
            i,
            from + m,
            n,
        ),
    decreases n,
{
    if n > 0 {
        lemma_turns_split(shares, i, from, m, (n - 1) as nat);
        assert((m + n - 1) as nat == m + (n - 1) as nat);
        assert(from + (m + n) - 1 == (from + m) + n - 1);
    }
}

/// Law: packets are spread in proportion to bandwidth. While the paths stay as
/// they are and the counter does not pass its end, any run of as many selections
/// as the total weight gives each path exactly as many packets as its weight,
/// wherever the run begins.
pub proof fn law_proportional(shares: Seq<(usize, int)>, i: int, from: int)
    requires
        countable(shares),
        0 <= i < shares.len(),
        0 <= from,
    ensures
        turns(shares, i, from, total_weight(shares) as nat) == shares[i].1,
{
    let round = total_weight(shares);
    lemma_stretch(shares, i);
    let start = from % round;
    lemma_mod_bound(from, round);
    lemma_turns_within_round(shares, i, from, round as nat);
    // The run from `start` on ends `start` turns into the next round.
    lemma_turns_split(shares, i, 0, start as nat, round as nat);
    lemma_turns_split(shares, i, 0, round as nat, start as nat);
    lemma_turns_within_round(shares, i, round, start as nat);
    assert(start as nat + round as nat == round as nat + start as nat);
    lemma_turns_first_round(shares, i, round as nat);
    lemma_hits_round(round, weight_before(shares, i + 1));
    lemma_hits_round(round, weight_before(shares, i));
    assert(round % round == 0) by (nonlinear_arith)
        requires
            round > 0,
    ;
}

/// The first `n` turns are in proportion up to the slack.
proof fn lemma_first_turns_in_proportion(shares: Seq<(usize, int)>, i: int, n: nat)
    requires
        countable(shares),
        0 <= i < shares.len(),
    ensures
        -(slack(n as int) * total_weight(shares)) <= turns(shares, i, 0, n) * total_weight(shares)
            - n * shares[i].1 <= slack(n as int) * total_weight(shares),
    decreases n,
{
    let round = total_weight(shares);
    lemma_stretch(shares, i);
    if n <= round {
        let start = weight_before(shares, i);
        let end = weight_before(shares, i + 1);
        lemma_turns_first_round(shares, i, n);
        law_first_turns_are_even(round, end, n as int);
        law_first_turns_are_even(round, start, n as int);
        let below_end = hits(round, end, n as int);
        let below_start = hits(round, start, n as int);
        assert((below_end - below_start) * round - n * shares[i].1 == (below_end * round - n * end)
            - (below_start * round - n * start)) by (nonlinear_arith)
            requires
                end == start + shares[i].1,
        ;
    } else {
        let rest = (n - round) as nat;
        lemma_first_turns_in_proportion(shares, i, rest);
        law_proportional(shares, i, 0);
        lemma_turns_split(shares, i, 0, round as nat, rest);
        lemma_turns_within_round(shares, i, round, rest);
        assert(round % round == 0) by (nonlinear_arith)
            requires
                round > 0,
        ;
        lemma_slack_ordered(rest as int, n as int);
        let count = turns(shares, i, 0, rest);
        assert((shares[i].1 + count) * round - n * shares[i].1 == count * round - rest
            * shares[i].1) by (nonlinear_arith)
            requires
                n == round + rest,
        ;
        assert(slack(rest as int) * round <= slack(n as int) * round) by (nonlinear_arith)
            requires
                slack(rest as int) <= slack(n as int),
                round > 0,
        ;
    }
}

/// How far, in packets, a run of `n` selections may be from proportion when it
/// begins `start` selections into a round.
pub open spec fn run_slack(start: int, n: int) -> int {
    slack(start) + slack(start + n)
}

/// Law: short runs are in proportion too. While the paths stay as they are and
/// the counter does not pass its end, any run of selections gives each path its
/// part of the packets by weight, up to a few packets: a number that grows only
/// as the logarithm of the length of the run.
pub proof fn law_short_runs_in_proportion(
    shares: Seq<(usize, int)>,
    i: int,
    from: int,
    n: nat,
)
    requires
        countable(shares),
        0 <= i < shares.len(),
        0 <= from,
    ensures
        ({
            let round = total_weight(shares);
            let off = turns(shares, i, from, n) * round - n * shares[i].1;
            let most = run_slack(from % round, n as int) * round;
            -most <= off <= most
        }),
{
    let round = total_weight(shares);
    lemma_stretch(shares, i);
    let start = from % round;
    lemma_mod_bound(from, round);
    lemma_turns_within_round(shares, i, from, n);
    lemma_turns_split(shares, i, 0, start as nat, n);
    lemma_first_turns_in_proportion(shares, i, start as nat);
    lemma_first_turns_in_proportion(shares, i, start as nat + n);
    let w = shares[i].1;
    let before = turns(shares, i, 0, start as nat);
    let run = turns(shares, i, from, n);
    assert(run * round - n * w == ((before + run) * round - (start + n) * w) - (before * round
        - start * w)) by (nonlinear_arith);
    let s = slack(start);
    let t = slack(start + n);
    assert((s + t) * round == s * round + t * round) by (nonlinear_arith);
}

/// Law: a faster path gets more packets than a slower one in every run that is
/// long enough for the difference of their weights to outweigh the few packets
/// by which each may be off.
pub proof fn law_faster_path_gets_more(
    shares: Seq<(usize, int)>,
    i: int,
    j: int,
    from: int,
    n: nat,
)
    requires
        countable(shares),
        0 <= i < shares.len(),
        0 <= j < shares.len(),
        0 <= from,
        n * (shares[i].1 - shares[j].1) > 2 * run_slack(
            from % total_weight(shares),
            n as int,
        ) * total_weight(shares),
    ensures
        turns(shares, i, from, n) > turns(shares, j, from, n),
{
    let round = total_weight(shares);
    lemma_stretch(shares, i);
    law_short_runs_in_proportion(shares, i, from, n);
    law_short_runs_in_proportion(shares, j, from, n);
    let x = turns(shares, i, from, n);
    let y = turns(shares, j, from, n);
    let s = run_slack(from % round, n as int);
    let u = shares[i].1;
    let v = shares[j].1;
    assert(x > y) by (nonlinear_arith)
        requires
            n * (u - v) > 2 * s * round,
            -(s * round) <= x * round - n * u,
            y * round - n * v <= s * round,
            round > 0,
    ;
}

/// Law: a path with at least the bandwidth of another gets at least as many
/// packets in every run of a whole round.
pub proof fn law_more_bandwidth_more_packets(
    shares: Seq<(usize, int)>,
    i: int,
    j: int,
    from: int,
)
    requires
        countable(shares),
        0 <= i < shares.len(),
        0 <= j < shares.len(),
        shares[i].1 >= shares[j].1,
        0 <= from,
    ensures
        turns(shares, i, from, total_weight(shares) as nat) >= turns(
            shares,
            j,
            from,
            total_weight(shares) as nat,
        ),
{
    law_proportional(shares, i, from);
    law_proportional(shares, j, from);
}

/// Law: only usable paths with some weight have a share, each such path has one,
/// and every share has a positive weight.
pub proof fn law_shares_are_usable_paths(paths: Seq<(usize, Path)>)
    ensures
        forall|i: int|
            0 <= i < shares(paths).len() ==> has_origin(paths, #[trigger] shares(paths)[i]),
        forall|j: int|
            0 <= j < paths.len() && competes(paths[j].1) ==> shares(paths).contains(
                #[trigger] share_of(paths[j]),
            ),
        forall|i: int| 0 <= i < shares(paths).len() ==> (#[trigger] shares(paths)[i]).1 > 0,
    decreases paths.len(),
{
    lemma_shares_positive(paths);
    if paths.len() == 0 {
        reveal(Seq::filter);
        assert(shares(paths) =~= Seq::empty());
    } else {
        let fewer = paths.drop_last();
        let p = paths.last();
        law_shares_are_usable_paths(fewer);
        assert(paths =~= fewer.push(p));
        lemma_shares_push(fewer, p);
        assert forall|i: int| 0 <= i < shares(paths).len() implies has_origin(
            paths,
            #[trigger] shares(paths)[i],
        ) by {
            if i < shares(fewer).len() {
                assert(has_origin(fewer, shares(fewer)[i]));
                let j = choose|j: int|
                    0 <= j < fewer.len() && competes(fewer[j].1) && shares(fewer)[i]
                        == #[trigger] share_of(fewer[j]);
                assert(share_of(paths[j]) == shares(paths)[i]);
            } else {
                assert(share_of(paths[paths.len() - 1]) == shares(paths)[i]);
            }
        }
        assert forall|j: int| 0 <= j < paths.len() && competes(paths[j].1) implies shares(
            paths,
        ).contains(#[trigger] share_of(paths[j])) by {
            if j < fewer.len() {
                assert(shares(fewer).contains(share_of(fewer[j])));
                let k = shares(fewer).index_of(share_of(fewer[j]));
                assert(shares(paths)[k] == share_of(paths[j]));
            } else {
                assert(shares(paths)[shares(fewer).len() as int] == share_of(p));
            }
        }
    }
}

/// Some path that takes part has that share.
pub open spec fn has_origin(paths: Seq<(usize, Path)>, share: (usize, int)) -> bool {
    exists|j: int|
        0 <= j < paths.len() && competes(paths[j].1) && share == #[trigger] share_of(paths[j])
}

/// Law: a larger congestion window never lowers the weight, and neither does a
/// shorter round trip. The milliseconds of the round trips have to fit the
/// scheduler's 64 bits.
pub proof fn law_weight_follows_bandwidth(
    cwnd: u64,
    larger_cwnd: u64,
    srtt: Duration,
    shorter_srtt: Duration,
)
    requires
        cwnd <= larger_cwnd,
        0 < shorter_srtt.nanos <= srtt.nanos,
        srtt.nanos / 1_000_000 <= u64::MAX,
    ensures
        weight(cwnd, srtt) <= weight(larger_cwnd, srtt),
        weight(cwnd, srtt) <= weight(cwnd, shorter_srtt),
{
    lemma_rate_grows_with_bytes(cwnd, larger_cwnd, srtt);
    lemma_rate_grows_with_speed(cwnd, srtt, shorter_srtt);
}

proof fn lemma_rate_grows_with_bytes(bytes: u64, more: u64, span: Duration)
    requires
        bytes <= more,
        0 < span.nanos,
        span.nanos / 1_000_000 <= u64::MAX,
    ensures
        weight(bytes, span) <= weight(more, span),
{
    if span.nanos < 1_000_000 {
        lemma_div_is_ordered(bytes * 1_000_000_000, more * 1_000_000_000, span.nanos as int);
    } else {
        lemma_div_is_ordered(saturated(bytes * 1000), saturated(more * 1000), span.millis() as int);
    }
}

proof fn lemma_rate_grows_with_speed(bytes: u64, span: Duration, shorter: Duration)
    requires
        0 < shorter.nanos <= span.nanos,
        span.nanos / 1_000_000 <= u64::MAX,
    ensures
        weight(bytes, span) <= weight(bytes, shorter),
{
    let scaled = bytes * 1_000_000_000;
    if span.nanos < 1_000_000 {
        lemma_div_is_ordered_by_denominator(scaled, shorter.nanos as int, span.nanos as int);
    } else if shorter.nanos < 1_000_000 {
        lemma_div_is_ordered_by_denominator(scaled, shorter.nanos as int, 1_000_000);
        lemma_div_is_ordered_by_denominator(saturated(bytes * 1000), 1, span.millis() as int);
        assert(scaled / 1_000_000 == bytes * 1000);
    } else {
        lemma_div_is_ordered_by_denominator(
            saturated(bytes * 1000),
            shorter.millis() as int,
            span.millis() as int,
        );
    }
}

/// Law: the weight of a path times its round trip is its congestion window, up to
/// what rounding down loses: in bytes per second, over whole milliseconds, and
/// over nanoseconds where the round trip is shorter than one. A path without any
/// round trip time weighs what its window holds.
pub proof fn law_weight_is_window_per_round_trip(cwnd: u64, srtt: Duration)
    ensures
        ({
            let w = weight(cwnd, srtt);
            let millis = (srtt.nanos as int / 1_000_000) % 18_446_744_073_709_551_616;
            let scaled = if cwnd * 1000 > u64::MAX {
                u64::MAX as int
            } else {
                cwnd * 1000
            };
            &&& 0 <= w <= u64::MAX
            &&& srtt.nanos == 0 ==> w == cwnd
            &&& 0 < srtt.nanos < 1_000_000 ==> w * srtt.nanos <= cwnd * 1_000_000_000 && (w
                == u64::MAX || cwnd * 1_000_000_000 < (w + 1) * srtt.nanos)
            &&& srtt.nanos >= 1_000_000 && millis == 0 ==> w == cwnd
            &&& srtt.nanos >= 1_000_000 && millis > 0 ==> w * millis <= scaled < (w + 1) * millis
        }),
{
    law_rate_times_span_is_bytes(srtt, cwnd);
    let millis = (srtt.nanos as int / 1_000_000) % 18_446_744_073_709_551_616;
    let w = weight(cwnd, srtt);
    if srtt.nanos >= 1_000_000 && millis > 0 {
        assert(w <= w * millis) by (nonlinear_arith)
            requires
                0 <= w,
                1 <= millis,
        ;
    }
}

/// Law: one more path adds a share at the end exactly where it is active, has room
/// in its window and weighs anything: its identifier, and the weight of its own
/// window and round trip. It leaves the shares before it as they were.
pub proof fn law_shares_of_one_more(paths: Seq<(usize, Path)>, id: usize, path: Path)
    ensures
        shares(Seq::empty()) == Seq::<(usize, int)>::empty(),
        shares(paths.push((id, path))) == if path.active && path.can_send && weight(
            path.congestion_window,
            path.smoothed_rtt,
        ) > 0 {
            shares(paths).push((id, weight(path.congestion_window, path.smoothed_rtt)))
        } else {
            shares(paths)
        },
{
    lemma_shares_push(paths, (id, path));
    reveal(Seq::filter);
    assert(shares(Seq::empty()) =~= Seq::<(usize, int)>::empty());
}

/// Law: shares depend on which paths can take a packet and on their identifiers,
/// windows and round trips alone. Lists of paths that differ in nothing but the
/// bytes in flight have the same shares.
pub proof fn law_shares_ignore_flight(a: Seq<(usize, Path)>, b: Seq<(usize, Path)>)
    requires
        a.len() == b.len(),
        forall|j: int|
            0 <= j < a.len() ==> {
                &&& (#[trigger] a[j]).0 == (#[trigger] b[j]).0
                &&& a[j].1.active == b[j].1.active
                &&& a[j].1.can_send == b[j].1.can_send
                &&& a[j].1.congestion_window == b[j].1.congestion_window
                &&& a[j].1.smoothed_rtt == b[j].1.smoothed_rtt
            },
    ensures
        shares(a) == shares(b),
    decreases a.len(),
{
    if a.len() == 0 {
        assert(a =~= b);
    } else {
        let fewer_a = a.drop_last();
        let fewer_b = b.drop_last();
        assert forall|j: int| 0 <= j < fewer_a.len() implies {
            &&& (#[trigger] fewer_a[j]).0 == (#[trigger] fewer_b[j]).0
            &&& fewer_a[j].1.active == fewer_b[j].1.active
            &&& fewer_a[j].1.can_send == fewer_b[j].1.can_send
            &&& fewer_a[j].1.congestion_window == fewer_b[j].1.congestion_window
            &&& fewer_a[j].1.smoothed_rtt == fewer_b[j].1.smoothed_rtt
        } by {
            assert(a[j].0 == b[j].0);
        }
        law_shares_ignore_flight(fewer_a, fewer_b);
        let last = a.len() - 1;
        assert(a[last].0 == b[last].0);
        lemma_shares_push(fewer_a, a[last]);
        lemma_shares_push(fewer_b, b[last]);
        assert(a =~= fewer_a.push(a[last]));
        assert(b =~= fewer_b.push(b[last]));
    }
}

/// Law: a round is as long as all weights together, up to the largest value of 64
/// bits.
pub proof fn law_round_adds_up(shares: Seq<(usize, int)>, share: (usize, int))
    requires
        share.1 >= 0,
    ensures
        total_weight(Seq::empty()) == 0,
        total_weight(shares.push(share)) == if total_weight(shares) + share.1 > u64::MAX {
            u64::MAX as int
        } else {
            total_weight(shares) + share.1
        },
{
    lemma_weights_after_push(shares, share);
}

/// Law: it is the turn of a share at the points of a round that lie behind the
/// shares before it and within its own, and at no others.
pub proof fn law_turn_lies_in_stretch(shares: Seq<(usize, int)>, target: int, i: int)
    ensures
        in_turn(shares, target, i) <==> 0 <= i < shares.len() && total_weight(shares.take(i))
            <= target < total_weight(shares.take(i + 1)),
{
    if 0 <= i < shares.len() {
        lemma_weight_of_prefix(shares, i, i);
        lemma_weight_of_prefix(shares, i + 1, i + 1);
    }
}

proof fn lemma_weight_of_prefix(shares: Seq<(usize, int)>, m: int, n: int)
    requires
        0 <= n <= m <= shares.len(),
    ensures
        weight_before(shares.take(m), n) == weight_before(shares, n),
    decreases n,
{
    if n > 0 {
        lemma_weight_of_prefix(shares, m, n - 1);
    }
}

/// Law: every selection moves the counter on by one; behind its largest value it
/// begins again at zero.
pub proof fn law_counter_counts_every_selection(counter: u64)
    ensures
        counter < u64::MAX ==> next_count(counter) == counter + 1,
        counter == u64::MAX ==> next_count(counter) == 0,
{
}

/// The share of the path at position `j` stands behind those of the paths before.
proof fn lemma_share_of_path(paths: Seq<(usize, Path)>, j: int)
    requires
        0 <= j < paths.len(),
        competes(paths[j].1),
    ensures
        shares(paths.take(j)).len() < shares(paths).len(),
        shares(paths)[shares(paths.take(j)).len() as int] == share_of(paths[j]),
    decreases paths.len(),
{
    let fewer = paths.drop_last();
    lemma_shares_push(fewer, paths.last());
    assert(paths =~= fewer.push(paths.last()));
    if j == paths.len() - 1 {
        assert(paths.take(j) =~= fewer);
    } else {
        lemma_share_of_path(fewer, j);
        assert(fewer.take(j) =~= paths.take(j));
    }
}

/// Law: in any full round, a path that can take packets is selected as often as
/// its window holds bytes per second of its round trip: exactly its weight, so
/// that selections times milliseconds make up a thousand windows. What else is
/// true of the path, such as what is in flight on it, does not matter.
pub proof fn law_path_gets_its_bandwidth(paths: PathMap, j: int, from: int)
    requires
        0 <= j < paths.paths@.len(),
        paths.paths@[j].1.active,
        paths.paths@[j].1.can_send,
        weight(paths.paths@[j].1.congestion_window, paths.paths@[j].1.smoothed_rtt) > 0,
        weight_before(shares(paths@), shares(paths@).len() as int) <= u64::MAX,
        0 <= from,
    ensures
        ({
            let sh = shares(paths@);
            let path = paths.paths@[j].1;
            let i = shares(paths.paths@.take(j)).len() as int;
            let count = turns(sh, i, from, total_weight(sh) as nat);
            let millis = path.smoothed_rtt.nanos as int / 1_000_000;
            &&& 0 <= i < sh.len()
            &&& sh[i].0 == paths.paths@[j].0
            &&& count == weight(path.congestion_window, path.smoothed_rtt)
            &&& 1 <= millis <= u64::MAX && path.congestion_window * 1000 <= u64::MAX ==> count
                * millis <= path.congestion_window * 1000 < (count + 1) * millis
        }),
{
    let sh = shares(paths@);
    let path = paths.paths@[j].1;
    lemma_share_of_path(paths@, j);
    lemma_shares_positive(paths@);
    law_proportional(sh, shares(paths@.take(j)).len() as int, from);
    law_weight_is_window_per_round_trip(path.congestion_window, path.smoothed_rtt);
}

/// Law: a path with some multiple of the bandwidth of another is selected that many
/// times as often in any full round.
pub proof fn law_packets_follow_ratio(paths: PathMap, a: int, b: int, k: int, from: int)
    requires
        0 <= a < paths.paths@.len(),
        0 <= b < paths.paths@.len(),
        paths.paths@[a].1.active && paths.paths@[a].1.can_send,
        paths.paths@[b].1.active && paths.paths@[b].1.can_send,
        weight(paths.paths@[a].1.congestion_window, paths.paths@[a].1.smoothed_rtt) > 0,
        weight(paths.paths@[b].1.congestion_window, paths.paths@[b].1.smoothed_rtt) > 0,
        weight(paths.paths@[a].1.congestion_window, paths.paths@[a].1.smoothed_rtt) == k * weight(
            paths.paths@[b].1.congestion_window,
            paths.paths@[b].1.smoothed_rtt,
        ),
        weight_before(shares(paths@), shares(paths@).len() as int) <= u64::MAX,
        0 <= from,
    ensures
        ({
            let sh = shares(paths@);
            let round = total_weight(sh) as nat;
            turns(sh, shares(paths.paths@.take(a)).len() as int, from, round) == k * turns(
                sh,
                shares(paths.paths@.take(b)).len() as int,
                from,
                round,
            )
        }),
{
    law_path_gets_its_bandwidth(paths, a, from);
    law_path_gets_its_bandwidth(paths, b, from);
}

/// Law: any run of selections gives a path that can take packets its part of them
/// by weight, up to the few packets that a run of that length may be off.
pub proof fn law_path_gets_its_part_of_runs(paths: PathMap, j: int, from: int, n: nat)
    requires
        0 <= j < paths.paths@.len(),
        paths.paths@[j].1.active,
        paths.paths@[j].1.can_send,
        weight(paths.paths@[j].1.congestion_window, paths.paths@[j].1.smoothed_rtt) > 0,
        weight_before(shares(paths@), shares(paths@).len() as int) <= u64::MAX,
        0 <= from,
    ensures
        ({
            let sh = shares(paths@);
            let path = paths.paths@[j].1;
            let i = shares(paths.paths@.take(j)).len() as int;
            let round = total_weight(sh);
            let start = from % round;
            let off = turns(sh, i, from, n) * round - n * weight(
                path.congestion_window,
                path.smoothed_rtt,
            );
            let most = (slack(start) + slack(start + n)) * round;
            -most <= off <= most
        }),
{
    let sh = shares(paths@);
    lemma_share_of_path(paths@, j);
    lemma_shares_positive(paths@);
    law_short_runs_in_proportion(sh, shares(paths@.take(j)).len() as int, from, n);
}

} // verus!
