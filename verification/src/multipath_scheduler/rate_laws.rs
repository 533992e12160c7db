//! What holds of spans of time, rates over them and lists of paths.

use vstd::arithmetic::div_mod::{lemma_div_pos_is_pos, lemma_fundamental_div_mod, lemma_mod_bound};
use vstd::prelude::*;

use crate::multipath_scheduler::{saturated, Duration, Path, PathMap};

verus! {

/// Law: a saturated number is the number itself as long as it fits 64 bits, and
/// the largest that does where it is beyond.
pub proof fn law_saturated_is_the_lesser(x: int)
    ensures
        saturated(x) == x || saturated(x) == u64::MAX,
        saturated(x) <= x,
        saturated(x) <= u64::MAX,
{
}

/// Law: the whole milliseconds of a span are as many millions of nanoseconds as
/// the span holds; from 2^64 on they begin again at zero.
pub proof fn law_millis_are_whole(span: Duration)
    ensures
        span.nanos < 18_446_744_073_709_551_616_000_000 ==> span.millis() * 1_000_000 <= span.nanos
            < (span.millis() + 1) * 1_000_000,
        span.millis() < 18_446_744_073_709_551_616,
        (span.nanos as int / 1_000_000 - span.millis()) % 18_446_744_073_709_551_616 == 0,
{
}

/// A quotient is the one number whose product with the divisor is the dividend or
/// less, by less than the divisor.
pub(crate) proof fn lemma_quotient(x: int, d: int)
    requires
        0 <= x,
        0 < d,
    ensures
        0 <= x / d,
        (x / d) * d <= x < (x / d + 1) * d,
{
    lemma_fundamental_div_mod(x, d);
    lemma_mod_bound(x, d);
    lemma_div_pos_is_pos(x, d);
    let q = x / d;
    assert(q * d == d * q && (q + 1) * d == d * q + d) by (nonlinear_arith);
}

/// Law: a rate times its span is the number of bytes, up to what rounding down
/// loses. It is taken over nanoseconds below a millisecond and over whole
/// milliseconds from there on; there is none over no time.
pub proof fn law_rate_times_span_is_bytes(span: Duration, bytes: u64)
    ensures
        span.nanos == 0 ==> span.rate(bytes) is None,
        0 < span.nanos < 1_000_000 ==> (span.rate(bytes) matches Some(r) && 0 <= r <= u64::MAX && r
            * span.nanos <= bytes * 1_000_000_000 && (r == u64::MAX || bytes * 1_000_000_000 < (r
            + 1) * span.nanos)),
        span.nanos >= 1_000_000 ==> {
            let millis = (span.nanos as int / 1_000_000) % 18_446_744_073_709_551_616;
            let scaled = if bytes * 1000 > u64::MAX {
                u64::MAX as int
            } else {
                bytes * 1000
            };
            if millis == 0 {
                span.rate(bytes) is None
            } else {
                span.rate(bytes) matches Some(r) && 0 <= r && r * millis <= scaled < (r + 1)
                    * millis
            }
        },
{
    if 0 < span.nanos < 1_000_000 {
        let x = bytes * 1_000_000_000;
        let d = span.nanos as int;
        lemma_quotient(x, d);
        let q = x / d;
        if q > u64::MAX {
            assert(u64::MAX * d <= q * d) by (nonlinear_arith)
                requires
                    u64::MAX <= q,
                    0 < d,
            ;
        }
    } else if span.nanos >= 1_000_000 && span.millis() != 0 {
        lemma_quotient(saturated(bytes * 1000), span.millis() as int);
    }
}

/// Law: a list of paths is read as it stands, and a path can take a packet where it
/// is active and its window leaves room.
pub proof fn law_paths_are_read_whole(paths: PathMap, path: Path)
    ensures
        paths@ == paths.paths@,
        path.usable() <==> path.active && path.can_send,
{
}

/// An element that passes a filter stands behind as many as passed before it.
pub(crate) proof fn lemma_filter_rank<A>(s: Seq<A>, f: spec_fn(A) -> bool, j: int)
    requires
        0 <= j < s.len(),
        f(s[j]),
    ensures
        s.take(j).filter(f).len() < s.filter(f).len(),
        s.filter(f)[s.take(j).filter(f).len() as int] == s[j],
    decreases s.len(),
{
    reveal(Seq::filter);
    if j == s.len() - 1 {
        assert(s.take(j) =~= s.drop_last());
    } else {
        let fewer = s.drop_last();
        lemma_filter_rank(fewer, f, j);
        assert(fewer.take(j) =~= s.take(j));
    }
}

/// Of two elements that pass a filter, the later one has more before it.
pub(crate) proof fn lemma_filter_rank_ordered<A>(
    s: Seq<A>,
    f: spec_fn(A) -> bool,
    j: int,
    k: int,
)
    requires
        0 <= j < k < s.len(),
        f(s[j]),
    ensures
        s.take(j).filter(f).len() < s.take(k).filter(f).len(),
{
    lemma_filter_rank(s.take(k), f, j);
    assert(s.take(k).take(j) =~= s.take(j));
}

/// Where what passed a filter came from.
pub(crate) proof fn lemma_filter_origin<A>(s: Seq<A>, f: spec_fn(A) -> bool, i: int) -> (j: int)
    requires
        0 <= i < s.filter(f).len(),
    ensures
        0 <= j < s.len(),
        f(s[j]),
        s.filter(f)[i] == s[j],
        s.take(j).filter(f).len() == i,
    decreases s.len(),
{
    reveal(Seq::filter);
    let fewer = s.drop_last();
    if i < fewer.filter(f).len() {
        let j = lemma_filter_origin(fewer, f, i);
        assert(fewer.take(j) =~= s.take(j));
        j
    } else {
        assert(s.take(s.len() - 1) =~= fewer);
        s.len() - 1
    }
}

} // verus!
