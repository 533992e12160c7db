//! What holds of the order in which the turns of a round reach its points.

use vstd::prelude::*;

use crate::multipath_scheduler::scheduler_weighted::spread;

verus! {

/// How many of the first `n` turns of a round of `size` points fall on points
/// below `end`.
pub open spec fn hits(size: int, end: int, n: int) -> int
    decreases n,
{
    if n <= 0 {
        0
    } else {
        hits(size, end, n - 1) + if spread(n - 1, size) < end {
            1int
        } else {
            0
        }
    }
}

/// How far, in turns, the first `n` turns may be from an even spread: two for the
/// first turn, and one more each time that the number of turns doubles.
pub open spec fn slack(n: int) -> int
    decreases n,
{
    if n <= 0 {
        0
    } else if n == 1 {
        2
    } else {
        slack((n + 1) / 2) + 1
    }
}

/// Law: each turn of a round falls on a point of the round, no two turns on the
/// same one, and every point has a turn.
pub proof fn law_spread_is_a_bijection(size: int)
    ensures
        forall|t: int| 0 <= t < size ==> 0 <= #[trigger] spread(t, size) < size,
        forall|t: int, u: int|
            #![trigger spread(t, size), spread(u, size)]
            0 <= t < size && 0 <= u < size && t != u ==> spread(t, size) != spread(u, size),
        forall|p: int| 0 <= p < size ==> #[trigger] has_turn(p, size),
{
    assert forall|t: int| 0 <= t < size implies 0 <= #[trigger] spread(t, size) < size by {
        lemma_spread_in_range(t, size);
    }
    assert forall|t: int, u: int|
        #![trigger spread(t, size), spread(u, size)]
        0 <= t < size && 0 <= u < size && t != u implies spread(t, size) != spread(u, size) by {
        lemma_spread_injective(t, u, size);
    }
    assert forall|p: int| 0 <= p < size implies #[trigger] has_turn(p, size) by {
        let t = lemma_turn_of(p, size);
        assert(spread(t, size) == p);
    }
}

/// Some turn of a round falls on the point `p`.
pub open spec fn has_turn(p: int, size: int) -> bool {
    exists|t: int| 0 <= t < size && #[trigger] spread(t, size) == p
}

proof fn lemma_spread_in_range(turn: int, size: int)
    requires
        0 <= turn < size,
    ensures
        0 <= spread(turn, size) < size,
    decreases size,
{
    if size > 1 {
        if turn % 2 == 0 {
            lemma_spread_in_range(turn / 2, size - size / 2);
        } else {
            lemma_spread_in_range(turn / 2, size / 2);
        }
    }
}

proof fn lemma_spread_injective(t: int, u: int, size: int)
    requires
        0 <= t < size,
        0 <= u < size,
        t != u,
    ensures
        spread(t, size) != spread(u, size),
    decreases size,
{
    if size > 1 {
        if t % 2 == 0 && u % 2 == 0 {
            lemma_spread_injective(t / 2, u / 2, size - size / 2);
        } else if t % 2 == 0 {
            lemma_spread_in_range(t / 2, size - size / 2);
            lemma_spread_in_range(u / 2, size / 2);
        } else if u % 2 == 0 {
            lemma_spread_in_range(t / 2, size / 2);
            lemma_spread_in_range(u / 2, size - size / 2);
        } else {
            lemma_spread_injective(t / 2, u / 2, size / 2);
        }
    }
}

proof fn lemma_turn_of(p: int, size: int) -> (t: int)
    requires
        0 <= p < size,
    ensures
        0 <= t < size,
        spread(t, size) == p,
    decreases size,
{
    if size <= 1 {
        0
    } else if p < size - size / 2 {
        2 * lemma_turn_of(p, size - size / 2)
    } else {
        2 * lemma_turn_of(p - (size - size / 2), size / 2) + 1
    }
}

/// The first turns of a round are first turns of its two halves.
proof fn lemma_hits_halves(size: int, end: int, n: int)
    requires
        2 <= size,
        0 <= end <= size,
        0 <= n <= size,
    ensures
        hits(size, end, n) == if end <= size - size / 2 {
            hits(size - size / 2, end, (n + 1) / 2)
        } else {
            (n + 1) / 2 + hits(size / 2, end - (size - size / 2), n / 2)
        },
    decreases n,
{
    let lower = size - size / 2;
    if n > 0 {
        lemma_hits_halves(size, end, n - 1);
        let turn = n - 1;
        if turn % 2 == 0 {
            lemma_spread_in_range(turn / 2, lower);
            assert((n + 1) / 2 - 1 == turn / 2);
            assert(n / 2 == turn / 2);
        } else {
            lemma_spread_in_range(turn / 2, size / 2);
            assert(n / 2 - 1 == turn / 2);
            assert((n + 1) / 2 == n / 2);
        }
    }
}

/// Over a whole round there are as many turns below a point as points.
pub(crate) proof fn lemma_hits_round(size: int, end: int)
    requires
        0 <= end <= size,
    ensures
        hits(size, end, size) == end,
    decreases size,
{
    if size == 1 {
        reveal_with_fuel(hits, 2);
    } else if size > 1 {
        let lower = size - size / 2;
        lemma_hits_halves(size, end, size);
        if end <= lower {
            lemma_hits_round(lower, end);
        } else {
            lemma_hits_round(size / 2, end - lower);
        }
    }
}

pub(crate) proof fn lemma_slack_ordered(m: int, n: int)
    requires
        m <= n,
    ensures
        0 <= slack(m) <= slack(n),
        1 <= m ==> 2 <= slack(m),
    decreases n,
{
    if m > 1 {
        lemma_slack_ordered((m + 1) / 2, (n + 1) / 2);
    } else if n > 1 {
        lemma_slack_ordered(m, (n + 1) / 2);
    }
}

/// Half of the turns, rounded up, go to the lower half of a round, which is half
/// of its points, rounded up: the two are in proportion up to half a turn.
proof fn lemma_halves_in_proportion(size: int, n: int)
    requires
        0 <= n <= size,
    ensures
        -size <= 2 * ((n + 1) / 2 * size - n * (size - size / 2)) <= size,
{
    let more = 2 * ((n + 1) / 2) - n;
    let larger = 2 * (size - size / 2) - size;
    assert(0 <= more <= 1 && 0 <= larger <= 1);
    let lower = size - size / 2;
    let half = (n + 1) / 2;
    assert(2 * (half * size - n * lower) == more * size - n * larger) by (nonlinear_arith)
        requires
            more == 2 * half - n,
            larger == 2 * lower - size,
    ;
    assert(-size <= more * size - n * larger <= size) by (nonlinear_arith)
        requires
            0 <= more <= 1,
            0 <= larger <= 1,
            0 <= n <= size,
    ;
}

/// Law: the first turns of a round are spread evenly. Of any number of them, the
/// part that falls below a point is the part of the round that lies below it, up
/// to half the slack.
pub proof fn law_first_turns_are_even(size: int, end: int, n: int)
    requires
        0 <= end <= size,
        0 <= n <= size,
    ensures
        -(slack(n) * size) <= 2 * (hits(size, end, n) * size - n * end) <= slack(n) * size,
    decreases n,
{
    if n == 0 {
        assert(0 * size == 0 && 0 * end == 0);
    } else if n == 1 {
        reveal_with_fuel(hits, 2);
        lemma_spread_in_range(0, size);
        assert(0 * size == 0 && 1 * size == size && 1 * end == end);
    } else {
        let lower = size - size / 2;
        let upper = size / 2;
        let n0 = (n + 1) / 2;
        let n1 = n / 2;
        let d = n0 * size - n * lower;
        lemma_hits_halves(size, end, n);
        lemma_halves_in_proportion(size, n);
        let all = hits(size, end, n);
        if end <= lower {
            law_first_turns_are_even(lower, end, n0);
            lemma_even_in_half(size, lower, end, n, n0, all, d, slack(n0));
        } else {
            law_first_turns_are_even(upper, end - lower, n1);
            lemma_slack_ordered(n1, n0);
            let missed = n1 - hits(upper, end - lower, n1);
            let e = size - end;
            assert(slack(n1) * upper <= slack(n0) * upper) by (nonlinear_arith)
                requires
                    slack(n1) <= slack(n0),
                    0 <= upper,
            ;
            assert(missed * upper - n1 * e == -(hits(upper, end - lower, n1) * upper - n1 * (end
                - lower))) by (nonlinear_arith)
                requires
                    missed == n1 - hits(upper, end - lower, n1),
                    e == upper - (end - lower),
            ;
            assert(n1 * size - n * upper == -d) by (nonlinear_arith)
                requires
                    d == n0 * size - n * lower,
                    n == n0 + n1,
                    size == lower + upper,
            ;
            lemma_even_in_half(size, upper, e, n, n1, missed, -d, slack(n0));
            assert(missed * size - n * e == -(all * size - n * end)) by (nonlinear_arith)
                requires
                    missed == n - all,
                    e == size - end,
            ;
        }
    }
}

/// An even spread within a half is an even spread within the whole.
proof fn lemma_even_in_half(
    size: int,
    half: int,
    end: int,
    n: int,
    n_half: int,
    count: int,
    d: int,
    s: int,
)
    requires
        0 < half <= size,
        0 <= end <= half,
        d == n_half * size - n * half,
        -size <= 2 * d <= size,
        -(s * half) <= 2 * (count * half - n_half * end) <= s * half,
    ensures
        -((s + 1) * size) <= 2 * (count * size - n * end) <= (s + 1) * size,
{
    let x = 2 * (count * size - n * end);
    let y = 2 * (count * half - n_half * end);
    assert(half * x == size * y + end * (2 * d)) by (nonlinear_arith)
        requires
            x == 2 * (count * size - n * end),
            y == 2 * (count * half - n_half * end),
            d == n_half * size - n * half,
    ;
    assert(-(half * size) <= end * (2 * d) <= half * size) by (nonlinear_arith)
        requires
            0 <= end <= half,
            -size <= 2 * d <= size,
    ;
    assert(-(half * (s * size)) <= size * y <= half * (s * size)) by (nonlinear_arith)
        requires
            -(s * half) <= y <= s * half,
            0 <= size,
    ;
    let b = (s + 1) * size;
    assert(half * b == half * (s * size) + half * size) by (nonlinear_arith)
        requires
            b == (s + 1) * size,
    ;
    assert(-b <= x <= b) by (nonlinear_arith)
        requires
            -(half * b) <= half * x <= half * b,
            0 < half,
    ;
}

/// Law: the slack grows by one each time that the number of turns doubles, so that
/// it stays small for runs of any length.
pub proof fn law_slack_is_logarithmic(n: int)
    requires
        1 <= n,
    ensures
        slack(0) == 0,
        slack(1) == 2,
        slack(2 * n) == slack(n) + 1,
        slack(n) <= slack(n + 1) <= slack(n) + 1,
{
    lemma_slack_ordered(n, n + 1);
    lemma_slack_ordered(n + 1, 2 * n);
    assert((2 * n + 1) / 2 == n);
}

} // verus!
