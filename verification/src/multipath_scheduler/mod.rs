//! Packet scheduling over the paths of a multipath connection.
//!
//! A scheduler reads what the connection knows of each path and names the path
//! that the next packet takes.

use vstd::prelude::*;

pub mod blest_laws;
pub mod rate_laws;
pub mod scheduler_blest;
pub mod scheduler_weighted;
pub mod spread_laws;
pub mod weighted_laws;

verus! {

/// The longest span of time that can be handled, in nanoseconds: 2^64 seconds
/// less one nanosecond.
pub const MAX_NANOS: u128 = 18_446_744_073_709_551_615_999_999_999;

/// A span of time, counted in nanoseconds.
#[derive(Clone, Copy, Debug, PartialEq, Eq, Structural)]
pub struct Duration {
    pub nanos: u128,
}

impl Duration {
    /// The whole milliseconds of the span, as they come out in 64 bits: a span of
    /// 2^64 milliseconds or more loses its upper part.
    pub open spec fn millis(self) -> nat {
        ((self.nanos / 1_000_000) % 0x1_0000_0000_0000_0000) as nat
    }

    /// The rate of `bytes` over this span in bytes per second, up to the largest
    /// value of 64 bits. It is taken over the whole milliseconds, and over the
    /// nanoseconds where the span is shorter than a millisecond. Over no time there
    /// is no rate.
    pub open spec fn rate(self, bytes: u64) -> Option<int> {
        if 0 < self.nanos < 1_000_000 {
            Some(saturated(bytes * 1_000_000_000 / self.nanos as int))
        } else if self.millis() == 0 {
            None
        } else {
            Some(saturated(bytes * 1000) / self.millis() as int)
        }
    }

    /// The rate of `bytes` over this span in bytes per second.
    pub fn bytes_per_second(&self, bytes: u64) -> (r: Option<u64>)
        ensures
            match r {
                Some(rate) => self.rate(bytes) == Some(rate as int),
                None => self.rate(bytes) is None,
            },
    {
        if 0 < self.nanos && self.nanos < 1_000_000 {
            let rate: u128 = bytes as u128 * 1_000_000_000 / self.nanos;
            if rate > u64::MAX as u128 {
                return Some(u64::MAX);
            }
            return Some(rate as u64);
        }
        let millis: u64 = self.as_millis();
        if millis == 0 {
            return None;
        }
        Some(saturating_thousandfold(bytes) / millis)
    }

    /// A span of whole milliseconds.
    pub fn from_millis(millis: u64) -> (r: Duration)
        ensures
            r.nanos == millis * 1_000_000,
    {
        Duration { nanos: millis as u128 * 1_000_000 }
    }

    /// The whole milliseconds of the span, cut to 64 bits.
    pub fn as_millis(&self) -> (r: u64)
        ensures
            r == self.millis(),
    {
        let millis: u128 = self.nanos / 1_000_000;
        assert(millis as u64 == millis % 0x1_0000_0000_0000_0000) by (bit_vector);
        #[verifier::truncate]
        (millis as u64)
    }
}

/// What a scheduler reads of one path.
#[derive(Clone, Copy, Debug, PartialEq, Eq, Structural)]
pub struct Path {
    /// Whether the path is active.
    pub active: bool,
    /// Whether its congestion window leaves room for another packet.
    pub can_send: bool,
    /// Its congestion window in bytes.
    pub congestion_window: u64,
    /// Its smoothed round trip time.
    pub smoothed_rtt: Duration,
    /// The bytes that are in flight on it.
    pub bytes_in_flight: usize,
}

impl Path {
    /// Whether a packet can be sent on the path now.
    pub open spec fn usable(self) -> bool {
        self.active && self.can_send
    }
}

/// The paths of a connection with their identifiers, in the order in which the
/// connection lists them.
#[derive(Debug)]
pub struct PathMap {
    pub paths: Vec<(usize, Path)>,
}

impl View for PathMap {
    type V = Seq<(usize, Path)>;

    open spec fn view(&self) -> Seq<(usize, Path)> {
        self.paths@
    }
}

/// Why a scheduler names no path.
#[derive(Clone, Copy, Debug, PartialEq, Eq, Structural)]
pub enum Error {
    /// There is no work to do: no path can take a packet.
    Done,
}

/// The settings of multipath scheduling.
#[derive(Clone, Copy, Debug, PartialEq, Eq, Structural)]
pub struct MultipathConfig {
    /// The BLEST parameter lambda: the bits of a binary64 floating-point number.
    pub blest_lambda_bits: u64,
}

/// What a scheduler reads of a packet that was sent.
#[derive(Clone, Copy, Debug, PartialEq, Eq, Structural)]
pub struct SentPacket {
    /// Its size in bytes.
    pub sent_size: usize,
}

/// What can happen to a path.
#[derive(Clone, Copy, Debug, PartialEq, Eq, Structural)]
pub enum PathEvent {
    /// The path was closed.
    Closed(usize),
    /// The path failed.
    Failed(usize),
    /// Anything else; the path stays in use.
    Other(usize),
}

/// The largest value of 64 bits, where `x` is beyond it.
pub open spec fn saturated(x: int) -> int {
    if x > u64::MAX {
        u64::MAX as int
    } else {
        x
    }
}

/// A thousand times `x`, or the largest value where that is too much.
pub fn saturating_thousandfold(x: u64) -> (r: u64)
    ensures
        r == saturated(x * 1000),
{
    if x > u64::MAX / 1000 {
        u64::MAX
    } else {
        x * 1000
    }
}

} // verus!
