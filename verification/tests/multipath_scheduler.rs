use tquic::multipath_scheduler::scheduler_blest::BlestScheduler;
use tquic::multipath_scheduler::scheduler_weighted::WeightedScheduler;
use tquic::multipath_scheduler::{
    Duration, Error, MultipathConfig, Path, PathEvent, PathMap, SentPacket,
};

type Result<T> = std::result::Result<T, Error>;

/// The paths of a connection. The first one has identifier 0 and a round trip of
/// 200 ms. Each path has a window of ten packets.
struct MultipathTester {
    paths: PathMap,
}

impl MultipathTester {
    fn new() -> Result<MultipathTester> {
        let mut tester = MultipathTester {
            paths: PathMap { paths: Vec::new() },
        };
        tester.add_path("127.0.0.1:443", "127.0.0.1:8443", 200)?;
        Ok(tester)
    }

    fn add_path(&mut self, _local: &str, _remote: &str, rtt: u64) -> Result<()> {
        let id = self.paths.paths.len();
        self.paths.paths.push((id, path(12000, rtt)));
        Ok(())
    }

    fn set_path_active(&mut self, id: usize, active: bool) -> Result<()> {
        self.paths.paths[id].1.active = active;
        Ok(())
    }
}

fn path(congestion_window: u64, rtt: u64) -> Path {
    Path {
        active: true,
        can_send: true,
        congestion_window,
        smoothed_rtt: Duration::from_millis(rtt),
        bytes_in_flight: 0,
    }
}

fn config() -> MultipathConfig {
    MultipathConfig {
        blest_lambda_bits: 1.0f64.to_bits(),
    }
}

/// Lambda times the shortest round trip of the usable paths.
fn threshold(s: &BlestScheduler, paths: &PathMap) -> Duration {
    let min_rtt = BlestScheduler::min_rtt(paths).unwrap_or(Duration::from_millis(1));
    let seconds = min_rtt.nanos as f64 / 1e9 * f64::from_bits(s.lambda_bits());
    Duration {
        nanos: (seconds * 1e9) as u128,
    }
}

fn select(s: &mut BlestScheduler, paths: &PathMap) -> Result<usize> {
    let threshold = threshold(s, paths);
    s.on_select(paths, threshold)
}

#[test]
fn weighted_single_path() -> Result<()> {
    let t = MultipathTester::new()?;

    let mut s = WeightedScheduler::new(&config());
    assert_eq!(s.on_select(&t.paths)?, 0);
    assert_eq!(s.on_select(&t.paths)?, 0);
    Ok(())
}

#[test]
fn weighted_multi_path() -> Result<()> {
    let mut t = MultipathTester::new()?;
    t.add_path("127.0.0.1:443", "127.0.0.2:8443", 50)?; // Faster path
    t.add_path("127.0.0.1:443", "127.0.0.3:8443", 200)?; // Slower path

    let mut s = WeightedScheduler::new(&config());

    let mut path_counts = [0u32; 4];
    for _ in 0..100 {
        let pid = s.on_select(&t.paths)?;
        path_counts[pid] += 1;
    }

    assert!(path_counts[1] > path_counts[0]);
    assert!(path_counts[1] > path_counts[2]);

    Ok(())
}

#[test]
fn weighted_no_available_path() -> Result<()> {
    let mut t = MultipathTester::new()?;
    t.set_path_active(0, false)?;

    let mut s = WeightedScheduler::new(&config());
    assert_eq!(s.on_select(&t.paths), Err(Error::Done));
    Ok(())
}

#[test]
fn weighted_path_deactivation() -> Result<()> {
    let mut t = MultipathTester::new()?;
    t.add_path("127.0.0.1:443", "127.0.0.2:8443", 50)?;

    let mut s = WeightedScheduler::new(&config());

    // Both paths should be selectable
    let pid1 = s.on_select(&t.paths)?;
    assert!(pid1 == 0 || pid1 == 1);

    // Deactivate path 1
    t.set_path_active(1, false)?;

    // Only path 0 should be selected
    for _ in 0..10 {
        assert_eq!(s.on_select(&t.paths)?, 0);
    }

    Ok(())
}

#[test]
fn blest_single_path() -> Result<()> {
    let t = MultipathTester::new()?;

    let mut s = BlestScheduler::new(&config());
    assert_eq!(select(&mut s, &t.paths)?, 0);
    assert_eq!(select(&mut s, &t.paths)?, 0);
    Ok(())
}

#[test]
fn blest_prefers_faster_path() -> Result<()> {
    let mut t = MultipathTester::new()?;
    t.add_path("127.0.0.1:443", "127.0.0.2:8443", 20)?; // Very fast path
    t.add_path("127.0.0.1:443", "127.0.0.3:8443", 500)?; // Very slow path

    let mut s = BlestScheduler::new(&config());

    let mut fast_path_count = 0;
    for _ in 0..10 {
        let pid = select(&mut s, &t.paths)?;
        if pid == 1 {
            // Path 1 is the 20ms path
            fast_path_count += 1;
        }
    }

    // Fast path should be selected most of the time
    assert!(fast_path_count >= 7);

    Ok(())
}

#[test]
fn blest_similar_paths() -> Result<()> {
    let mut t = MultipathTester::new()?;
    t.add_path("127.0.0.1:443", "127.0.0.2:8443", 50)?;
    t.add_path("127.0.0.1:443", "127.0.0.3:8443", 60)?;

    let mut s = BlestScheduler::new(&config());

    let mut path_counts = [0u32; 4];
    for _ in 0..20 {
        let pid = select(&mut s, &t.paths)?;
        path_counts[pid] += 1;
    }

    // The faster path (50ms) should be preferred but both can be used
    assert!(path_counts[1] >= path_counts[2]);

    Ok(())
}

#[test]
fn blest_no_available_path() -> Result<()> {
    let mut t = MultipathTester::new()?;
    t.set_path_active(0, false)?;

    let mut s = BlestScheduler::new(&config());
    assert_eq!(select(&mut s, &t.paths), Err(Error::Done));
    Ok(())
}

#[test]
fn duration_in_millis() {
    assert_eq!(Duration::from_millis(250).nanos, 250_000_000);
    assert_eq!(Duration { nanos: 1_999_999 }.as_millis(), 1);
    assert_eq!(Duration { nanos: 999_999 }.as_millis(), 0);
    // 2^64 milliseconds and seven more come out as seven.
    let wide = ((1u128 << 64) + 7) * 1_000_000;
    assert_eq!(Duration { nanos: wide }.as_millis(), 7);
}

#[test]
fn weight_is_window_per_second() {
    let weight = WeightedScheduler::calculate_weight;
    assert_eq!(weight(12000, Duration::from_millis(50)), 240_000);
    assert_eq!(weight(12000, Duration::from_millis(200)), 60_000);
    assert_eq!(weight(10, Duration::from_millis(3)), 3333);
    // A shorter round trip than a millisecond counts in nanoseconds.
    assert_eq!(weight(12000, Duration::from_millis(1)), 12_000_000);
    assert_eq!(weight(12000, Duration { nanos: 999_999 }), 12_000_012);
    assert_eq!(weight(12000, Duration { nanos: 500_000 }), 24_000_000);
    assert_eq!(weight(12000, Duration { nanos: 100_000 }), 120_000_000);
    assert_eq!(weight(12000, Duration { nanos: 1 }), 12_000_000_000_000);
    assert_eq!(weight(u64::MAX, Duration { nanos: 1 }), u64::MAX);
    assert_eq!(weight(u64::MAX, Duration { nanos: 999_999 }), u64::MAX);
    // Without a round trip time the window itself is the weight.
    assert_eq!(weight(12000, Duration { nanos: 0 }), 12000);
    assert_eq!(weight(u64::MAX, Duration::from_millis(1)), u64::MAX);
    assert_eq!(weight(u64::MAX, Duration::from_millis(2)), u64::MAX / 2);
    assert_eq!(weight(0, Duration::from_millis(1)), 0);
    assert_eq!(weight(1, Duration::from_millis(1001)), 0);
}

#[test]
fn weighted_full_round_is_proportional() {
    let paths = PathMap {
        paths: vec![(0, path(12000, 200)), (1, path(12000, 50)), (2, path(12000, 200))],
    };
    let mut s = WeightedScheduler::new(&config());
    // The run begins in the middle of a round.
    for _ in 0..1234 {
        s.on_select(&paths).unwrap();
    }
    let mut counts = [0u32; 3];
    for _ in 0..360_000 {
        counts[s.on_select(&paths).unwrap()] += 1;
    }
    assert_eq!(counts, [60_000, 240_000, 60_000]);
}

/// How often each of three paths is selected, the first with weight 5, the second
/// with weight 20 and the third with weight 5 per byte of the window.
fn count_selections(window: u64, skipped: usize, n: usize) -> [usize; 3] {
    let paths = PathMap {
        paths: vec![(0, path(window, 200)), (1, path(window, 50)), (2, path(window, 200))],
    };
    let mut s = WeightedScheduler::new(&config());
    for _ in 0..skipped {
        s.on_select(&paths).unwrap();
    }
    let mut counts = [0; 3];
    for _ in 0..n {
        counts[s.on_select(&paths).unwrap()] += 1;
    }
    counts
}

#[test]
fn weighted_short_runs_are_in_proportion() {
    assert_eq!(count_selections(1, 0, 100), [17, 67, 16]);
    assert_eq!(count_selections(12000, 0, 100), [18, 67, 15]);
    assert_eq!(count_selections(12000, 1234, 100), [16, 68, 16]);
    for window in [1, 7, 1200, 12000, 13_370, 1_000_000_007] {
        for skipped in [0, 1, 50, 1000] {
            let n = count_selections(window, skipped, 100);
            assert!(n[1] > n[0] && n[1] > n[2]);
            assert!(n[1] > 60 && n[0] > 10 && n[2] > 10);
        }
    }
}

#[test]
fn weighted_fast_link_gets_more() {
    // Half a millisecond against ten milliseconds.
    let mut paths = PathMap {
        paths: vec![(0, path(12000, 10)), (1, path(12000, 0))],
    };
    paths.paths[1].1.smoothed_rtt = Duration { nanos: 500_000 };
    let mut s = WeightedScheduler::new(&config());
    let mut counts = [0; 2];
    for _ in 0..110 {
        counts[s.on_select(&paths).unwrap()] += 1;
    }
    assert_eq!(counts, [6, 104]);
}

#[test]
fn weighted_turns_are_spread_over_the_stretches() {
    // Weights 2, 3 and 1 make a round of six, whose turns fall on the points 0,
    // 3, 2, 5, 1 and 4; the first selection is turn 1.
    let paths = PathMap {
        paths: vec![(7, path(2, 1000)), (9, path(3, 1000)), (4, path(1, 1000))],
    };
    let mut s = WeightedScheduler::new(&config());
    let picks: Vec<usize> = (0..8).map(|_| s.on_select(&paths).unwrap()).collect();
    assert_eq!(picks, vec![9, 9, 4, 7, 9, 7, 9, 9]);
}

#[test]
fn weighted_skips_full_and_weightless_paths() {
    let mut paths = PathMap {
        paths: vec![(0, path(0, 100)), (1, path(10, 100)), (2, path(10, 100))],
    };
    paths.paths[1].1.can_send = false;
    let mut s = WeightedScheduler::new(&config());
    for _ in 0..5 {
        assert_eq!(s.on_select(&paths), Ok(2));
    }
    paths.paths[2].1.active = false;
    assert_eq!(s.on_select(&paths), Err(Error::Done));
    assert_eq!(
        s.on_select(&PathMap { paths: Vec::new() }),
        Err(Error::Done)
    );
}

#[test]
fn weighted_failure_uses_no_turn_and_events_change_nothing() {
    // One turn each, alternating.
    let paths = PathMap {
        paths: vec![(0, path(1, 1000)), (1, path(1, 1000))],
    };
    let mut s = WeightedScheduler::new(&config());
    assert_eq!(s.on_select(&paths), Ok(1));
    assert_eq!(
        s.on_select(&PathMap { paths: Vec::new() }),
        Err(Error::Done)
    );
    s.on_path_updated(&paths, PathEvent::Closed(0));
    s.on_sent(&SentPacket { sent_size: 1200 }, 0, &paths);
    assert_eq!(s.on_select(&paths), Ok(0));
    assert_eq!(s.on_select(&paths), Ok(1));
}

#[test]
fn weighted_total_saturates() {
    // The first stretch already reaches the largest value.
    let paths = PathMap {
        paths: vec![(0, path(u64::MAX, 1)), (1, path(u64::MAX, 1))],
    };
    let mut s = WeightedScheduler::new(&config());
    for _ in 0..5 {
        assert_eq!(s.on_select(&paths), Ok(0));
    }
}

#[test]
fn completion_time_adds_the_drain_time() {
    let estimate = BlestScheduler::estimate_completion_time;
    let ms = Duration::from_millis;
    // 100,000 bytes per second drain 5000 bytes in 50 ms.
    assert_eq!(estimate(ms(100), 10_000, 5000), ms(150));
    assert_eq!(estimate(ms(100), 10_000, 0), ms(100));
    // 3000 / 7 bytes per second, and whole milliseconds.
    assert_eq!(estimate(ms(7), 3, 1), ms(7 + 2));
    assert_eq!(estimate(ms(100), 0, 5000), ms(100));
    assert_eq!(estimate(ms(2000), 1, 5000), ms(2000));
    let short = Duration { nanos: 999_999 };
    // Just over 10,000 bytes per millisecond drain 5000 bytes in less than one, and
    // 51,000 in five.
    assert_eq!(estimate(short, 10_000, 5000), short);
    assert_eq!(
        estimate(short, 10_000, 51_000),
        Duration { nanos: 5_999_999 }
    );
    // 20,000 bytes per millisecond.
    assert_eq!(
        estimate(Duration { nanos: 500_000 }, 10_000, 20_000),
        Duration { nanos: 1_500_000 }
    );
    let none = Duration { nanos: 0 };
    assert_eq!(estimate(none, 10_000, 50_000), none);
    assert_eq!(
        estimate(ms(1000), 1, u64::MAX).nanos,
        1_000_000_000 + u64::MAX as u128 * 1_000_000
    );
}

#[test]
fn blocking_means_later_by_more_than_the_threshold() {
    let blocks = BlestScheduler::calculate_blocking_potential;
    let ms = Duration::from_millis;
    assert!(!blocks(ms(150), ms(100), ms(50)));
    assert!(blocks(
        Duration { nanos: 150_000_001 },
        ms(100),
        ms(50)
    ));
    assert!(!blocks(ms(100), ms(100), ms(0)));
}

#[test]
fn blest_min_rtt_reads_usable_paths_only() {
    let mut paths = PathMap {
        paths: vec![(0, path(1, 90)), (1, path(1, 30)), (2, path(1, 60))],
    };
    assert_eq!(BlestScheduler::min_rtt(&paths), Some(Duration::from_millis(30)));
    paths.paths[1].1.active = false;
    assert_eq!(BlestScheduler::min_rtt(&paths), Some(Duration::from_millis(60)));
    paths.paths[0].1.can_send = false;
    paths.paths[2].1.can_send = false;
    assert_eq!(BlestScheduler::min_rtt(&paths), None);
}

#[test]
fn blest_counts_flight_and_takes_the_first_of_equals() {
    let mut paths = PathMap {
        paths: vec![
            (5, path(10_000, 120)),
            (3, path(10_000, 100)),
            (8, path(10_000, 100)),
        ],
    };
    let mut s = BlestScheduler::new(&config());
    let ms = Duration::from_millis;
    for threshold in [ms(0), ms(10), ms(100_000)] {
        assert_eq!(s.on_select(&paths, threshold), Ok(3));
        assert_eq!(s.fallback_path(), Some(3));
    }
    paths.paths[1].1.bytes_in_flight = 5000;
    assert_eq!(s.on_select(&paths, ms(0)), Ok(8));
    paths.paths[2].1.bytes_in_flight = 5000;
    assert_eq!(s.on_select(&paths, ms(0)), Ok(5));
    assert_eq!(s.fallback_path(), Some(5));
    // A selection that fails keeps the fallback.
    assert_eq!(
        s.on_select(&PathMap { paths: Vec::new() }, ms(0)),
        Err(Error::Done)
    );
    assert_eq!(s.fallback_path(), Some(5));
}

#[test]
fn blest_tracks_sent_bytes_per_path() {
    let t = MultipathTester::new().unwrap();
    let mut s = BlestScheduler::new(&config());
    assert_eq!(s.lambda_bits(), 1.0f64.to_bits());
    assert_eq!(s.bytes_in_flight(0), None);
    s.on_sent(&SentPacket { sent_size: 1200 }, 0, &t.paths);
    s.on_sent(&SentPacket { sent_size: 100 }, 7, &t.paths);
    s.on_sent(&SentPacket { sent_size: 300 }, 0, &t.paths);
    assert_eq!(s.bytes_in_flight(0), Some(1500));
    assert_eq!(s.bytes_in_flight(7), Some(100));
    s.on_sent(&SentPacket { sent_size: usize::MAX }, 7, &t.paths);
    assert_eq!(s.bytes_in_flight(7), Some(u64::MAX));
}

#[test]
fn blest_forgets_ended_paths() {
    let t = MultipathTester::new().unwrap();
    let mut s = BlestScheduler::new(&config());
    for id in 0..3 {
        s.on_sent(&SentPacket { sent_size: 10 }, id, &t.paths);
    }
    assert_eq!(select(&mut s, &t.paths), Ok(0));
    s.on_path_updated(&t.paths, PathEvent::Other(0));
    assert_eq!(s.bytes_in_flight(0), Some(10));
    assert_eq!(s.fallback_path(), Some(0));
    s.on_path_updated(&t.paths, PathEvent::Failed(1));
    assert_eq!(s.bytes_in_flight(1), None);
    assert_eq!(s.bytes_in_flight(2), Some(10));
    assert_eq!(s.fallback_path(), Some(0));
    s.on_path_updated(&t.paths, PathEvent::Closed(0));
    assert_eq!(s.bytes_in_flight(0), None);
    assert_eq!(s.fallback_path(), None);
    assert_eq!(s.bytes_in_flight(2), Some(10));
}
