use telemetry_ingest::cache::{Cache, CacheStats};
use telemetry_ingest::readings::{Reading, SensorId};
use telemetry_ingest::timestamp::{Timestamp, Value};

fn reading(n: i32) -> Reading {
    Reading {
        ts: Timestamp::from_unix_timestamp(i64::from(n)),
        value: Value {
            bits: f64::from(n).to_bits(),
        },
        unit: None,
    }
}

fn values(readings: &[Reading]) -> Vec<f64> {
    readings
        .iter()
        .map(|r| f64::from_bits(r.value.bits))
        .collect()
}

fn id(raw: &str) -> SensorId {
    SensorId::parse(raw).unwrap()
}

#[test]
fn keeps_only_the_newest_per_sensor() {
    let mut cache = Cache::new(3);
    let sensor = SensorId::parse("s-1").unwrap();
    let readings: Vec<_> = (1..=5).map(reading).collect();
    let items: Vec<_> = readings.iter().map(|r| (&sensor, r)).collect();
    cache.insert(&items);

    let latest = cache.latest(&sensor, 10).unwrap();
    assert_eq!(values(&latest), vec![5.0, 4.0, 3.0]);
    let stats = cache.stats();
    assert_eq!(stats.sensors, 1);
    assert_eq!(stats.readings, 3);
    assert_eq!(stats.bytes, sensor.byte_len() + 3 * reading(1).byte_len());
}

#[test]
fn replacing_a_larger_reading_reduces_bytes() {
    let mut cache = Cache::new(1);
    let sensor = SensorId::parse("sensor").unwrap();
    let mut large = reading(1);
    large.unit = Some("long-unit".to_owned());
    cache.insert(&[(&sensor, &large)]);
    let before = cache.stats().bytes;
    let small = reading(2);
    cache.insert(&[(&sensor, &small)]);
    assert_eq!(
        cache.stats().bytes,
        before - large.byte_len() + small.byte_len()
    );
    assert_eq!(cache.stats().readings, 1);
}

#[test]
fn alternating_sizes_do_not_accumulate_fictitious_bytes() {
    let mut cache = Cache::new(1);
    let sensor = SensorId::parse("sensor").unwrap();
    for n in 1..20 {
        let mut r = reading(n);
        if n % 2 == 0 {
            r.unit = Some("long-unit".to_owned());
        }
        cache.insert(&[(&sensor, &r)]);
        assert_eq!(cache.stats().bytes, sensor.byte_len() + r.byte_len());
        assert_eq!(cache.stats().readings, 1);
    }
}

#[test]
fn historical_warm_up_cannot_evict_a_newer_live_reading() {
    let mut cache = Cache::new(3);
    let sensor = SensorId::parse("sensor").unwrap();
    cache.insert(&[(&sensor, &reading(100))]);
    let historical: Vec<_> = (1..100).map(reading).collect();
    let items: Vec<_> = historical.iter().map(|r| (&sensor, r)).collect();
    cache.insert(&items);
    let latest = cache.latest(&sensor, 3).unwrap();
    assert_eq!(values(&latest), [100.0, 99.0, 98.0]);
    assert_eq!(
        cache.stats().bytes,
        sensor.byte_len() + 3 * reading(1).byte_len()
    );
}

#[test]
fn out_of_order_live_batches_keep_the_newest_timestamps() {
    let mut cache = Cache::new(3);
    let sensor = SensorId::parse("sensor").unwrap();
    for n in [5, 1, 4, 2, 3] {
        cache.insert(&[(&sensor, &reading(n))]);
    }
    let latest = cache.latest(&sensor, 3).unwrap();
    assert_eq!(values(&latest), [5.0, 4.0, 3.0]);
}

#[test]
fn unknown_sensor_is_none_and_limit_applies() {
    let mut cache = Cache::new(10);
    let a = SensorId::parse("a").unwrap();
    assert!(cache.latest(&a, 5).is_none());
    let readings: Vec<_> = (1..=4).map(reading).collect();
    let items: Vec<_> = readings.iter().map(|r| (&a, r)).collect();
    cache.insert(&items);
    assert_eq!(cache.latest(&a, 2).unwrap().len(), 2);
}

#[test]
fn stats_count_every_sensor() {
    let mut cache = Cache::new(2);
    let sensors: Vec<_> = (0..50)
        .map(|i| SensorId::parse(&format!("s-{i}")).unwrap())
        .collect();
    let r = reading(1);
    let items: Vec<_> = sensors.iter().map(|s| (s, &r)).collect();
    cache.insert(&items);
    let stats = cache.stats();
    assert_eq!(stats.sensors, 50);
    assert_eq!(stats.readings, 50);
}

#[test]
fn fresh_sensor_churn_is_bounded_at_deployed_and_default_settings() {
    for per_sensor in [500, 2000] {
        let mut cache = Cache::new(per_sensor);
        for n in 1..=32_000 {
            let sensor = SensorId::parse(&format!("s-{n}")).unwrap();
            cache.insert(&[(&sensor, &reading(n))]);
            assert!(cache.stats().sensors <= 131_072 / per_sensor);
            assert!(cache.stats().readings <= 131_072);
        }
        assert_eq!(cache.stats().sensors, 131_072 / per_sensor);
        assert_eq!(cache.indexed_sensors(), cache.stats().sensors);
    }
}

#[test]
fn full_sensor_buffers_fit_the_total_budget() {
    for per_sensor in [500, 2000] {
        let mut cache = Cache::new(per_sensor);
        let mut r = reading(1);
        r.unit = Some("u".repeat(Reading::MAX_UNIT_LEN));
        let mut sensors = Vec::new();
        for n in 0..=(131_072 / per_sensor) {
            let sensor = SensorId::parse(&format!("s-{n}")).unwrap();
            let items: Vec<_> = std::iter::repeat((&sensor, &r))
                .take(per_sensor + 1)
                .collect();
            cache.insert(&items);
            sensors.push(sensor);
        }
        let stats = cache.stats();
        assert!(stats.readings <= 131_072);
        let slots: usize = sensors.iter().filter_map(|s| cache.reserved(s)).sum();
        assert!(slots <= 2 * (131_072 + stats.sensors));
        assert_eq!(cache.indexed_sensors(), stats.sensors);
        assert_eq!(
            stats.bytes,
            sensors
                .iter()
                .filter_map(|s| cache.latest(s, usize::MAX).map(|rs| (s, rs)))
                .map(|(s, rs)| s.as_str().len()
                    + rs.iter().map(Reading::byte_len).sum::<usize>())
                .sum::<usize>()
        );
    }
}

#[test]
fn eviction_removes_all_accounting_and_old_admissions_are_ignored() {
    let mut cache = Cache::new(65_536);
    let a = SensorId::parse("a").unwrap();
    let b = SensorId::parse("b").unwrap();
    let c = SensorId::parse("c").unwrap();
    let mut large = reading(1);
    large.unit = Some("long-unit".to_owned());
    cache.insert(&[(&a, &large), (&b, &reading(2))]);
    assert!(cache.latest(&a, 1).is_some());
    cache.insert(&[(&c, &reading(3))]);
    assert!(cache.latest(&a, 1).is_none());
    let expected = CacheStats {
        sensors: 2,
        readings: 2,
        bytes: b.byte_len() + c.byte_len() + 2 * reading(1).byte_len(),
    };
    assert_eq!(cache.stats(), expected);
    cache.insert(&[(&a, &reading(0)), (&a, &reading(2))]);
    assert_eq!(cache.stats(), expected);
    assert!(cache.latest(&a, 1).is_none());
    cache.insert(&[(&a, &reading(4))]);
    assert!(cache.latest(&a, 1).is_some());
    assert!(cache.latest(&b, 1).is_none());
}

#[test]
fn interleaved_history_preserves_newer_live_data_at_capacity() {
    let mut cache = Cache::new(2000);
    let hot = id("hot");
    cache.insert(&[(&hot, &reading(100_000))]);
    for n in 0..64 {
        let sensor = id(&format!("cold-{n}"));
        cache.insert(&[(&sensor, &reading(1))]);
    }
    for n in 1..=1000 {
        let sensor = id(&format!("historical-{n}"));
        cache.insert(&[(&sensor, &reading(n)), (&hot, &reading(n))]);
        if n <= 100 {
            cache.insert(&[(&hot, &reading(100_000 + n))]);
        }
    }
    assert_eq!(cache.latest(&hot, 1).unwrap(), vec![reading(100_100)]);
    assert_eq!(cache.stats().sensors, 65);
    assert_eq!(cache.indexed_sensors(), 65);
}

#[test]
fn sensor_limit_follows_the_per_sensor_limit() {
    for (per_sensor, sensors) in [(500, 262), (2000, 65), (1, 2048), (131_072, 1), (0, 2048)] {
        let mut cache = Cache::new(per_sensor);
        for n in 1..=3000 {
            cache.insert(&[(&id(&format!("s-{n}")), &reading(n))]);
        }
        assert_eq!(cache.stats().sensors, sensors);
    }
    let mut cache = Cache::new(usize::MAX);
    cache.insert(&[(&id("a"), &reading(1)), (&id("b"), &reading(2))]);
    assert_eq!(cache.stats().sensors, 1);
    assert!(cache.latest(&id("b"), 1).is_some());
}

#[test]
fn per_sensor_limit_is_at_least_one() {
    let mut cache = Cache::new(0);
    cache.insert(&[(&id("a"), &reading(1)), (&id("a"), &reading(2))]);
    assert_eq!(values(&cache.latest(&id("a"), 9).unwrap()), [2.0]);
}

#[test]
fn ties_keep_the_incumbent_and_the_smaller_id_yields_first() {
    let mut cache = Cache::new(65_536);
    cache.insert(&[(&id("b"), &reading(5)), (&id("a"), &reading(5))]);
    cache.insert(&[(&id("c"), &reading(5))]);
    assert!(cache.latest(&id("c"), 1).is_none());
    cache.insert(&[(&id("c"), &reading(6))]);
    assert!(cache.latest(&id("a"), 1).is_none());
    assert!(cache.latest(&id("b"), 1).is_some());
    assert!(cache.latest(&id("c"), 1).is_some());
}

#[test]
fn sensors_at_the_same_instant_yield_in_byte_order() {
    let mut cache = Cache::new(65_536);
    cache.insert(&[(&id("\u{e9}"), &reading(5)), (&id("z"), &reading(5))]);
    cache.insert(&[(&id("y"), &reading(6))]);
    assert!(cache.latest(&id("z"), 1).is_none());
    assert!(cache.latest(&id("\u{e9}"), 1).is_some());
    let mut cache = Cache::new(65_536);
    cache.insert(&[(&id("s-10"), &reading(5)), (&id("s-1"), &reading(5))]);
    cache.insert(&[(&id("y"), &reading(6))]);
    assert!(cache.latest(&id("s-1"), 1).is_none());
    assert!(cache.latest(&id("s-10"), 1).is_some());
}

#[test]
fn equal_timestamps_keep_arrival_order() {
    let mut cache = Cache::new(2);
    let sensor = id("s");
    for (n, bits) in [(1, 10), (1, 20), (1, 30)] {
        let mut r = reading(n);
        r.value = Value { bits };
        cache.insert(&[(&sensor, &r)]);
    }
    let bits: Vec<u64> = cache
        .latest(&sensor, 9)
        .unwrap()
        .iter()
        .map(|r| r.value.bits)
        .collect();
    assert_eq!(bits, [30, 20]);
}

#[test]
fn reads_do_not_refresh_residency() {
    let mut cache = Cache::new(65_536);
    cache.insert(&[(&id("a"), &reading(1)), (&id("b"), &reading(2))]);
    for _ in 0..10 {
        assert!(cache.latest(&id("a"), 1).is_some());
    }
    cache.insert(&[(&id("c"), &reading(3))]);
    assert!(cache.latest(&id("a"), 1).is_none());
}

#[test]
fn a_readmitted_sensor_holds_only_what_came_since() {
    let mut cache = Cache::new(65_536);
    cache.insert(&[
        (&id("a"), &reading(1)),
        (&id("a"), &reading(2)),
        (&id("b"), &reading(3)),
        (&id("c"), &reading(4)),
        (&id("a"), &reading(5)),
    ]);
    assert_eq!(values(&cache.latest(&id("a"), 9).unwrap()), [5.0]);
    assert!(cache.latest(&id("b"), 1).is_none());
}

#[test]
fn batches_compose() {
    let all: Vec<(SensorId, Reading)> = (0..200)
        .map(|n| (id(&format!("s-{}", n * 7 % 13)), reading(n * 31 % 97)))
        .collect();
    let mut once = Cache::new(20_000);
    once.insert_pairs(&all);
    let mut twice = Cache::new(20_000);
    let mut rest = all.clone();
    let tail = rest.split_off(77);
    twice.insert_pairs(&rest);
    twice.insert_pairs(&tail);
    assert_eq!(once.stats(), twice.stats());
    assert_eq!(once.stats().sensors, 6);
    for n in 0..13 {
        let sensor = id(&format!("s-{n}"));
        assert_eq!(once.latest(&sensor, 99), twice.latest(&sensor, 99));
    }
}

#[test]
fn timestamps_compare_by_instant_not_by_offset() {
    let mut cache = Cache::new(65_536);
    let mut early = reading(10);
    early.ts.offset_seconds = 7200;
    let mut late = reading(10);
    late.ts.nanos = 1;
    late.ts.offset_seconds = -7200;
    cache.insert(&[(&id("s"), &late), (&id("s"), &early)]);
    let latest = cache.latest(&id("s"), 2).unwrap();
    assert_eq!(latest[0].ts.nanos, 1);
    assert_eq!(latest[1].ts.offset_seconds, 7200);
}

#[test]
fn an_empty_cache_reports_nothing() {
    let cache = Cache::new(10);
    assert_eq!(cache.stats(), CacheStats::default());
    assert_eq!(cache.indexed_sensors(), 0);
    assert_eq!(cache.reserved(&id("a")), None);
}

#[test]
fn reserved_slots_cover_what_is_held() {
    let mut cache = Cache::new(50);
    for n in 0..40 {
        cache.insert(&[(&id("a"), &reading(n))]);
    }
    assert!(cache.reserved(&id("a")).unwrap() >= 40);
    assert!(cache.reserved(&id("a")).unwrap() <= 2 * 51);
}
