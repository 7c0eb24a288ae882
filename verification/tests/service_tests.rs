use axum::http::StatusCode;
use telemetry_ingest::api::{
    begin_ingest, begin_query, default_latest_limit, default_query_limit, finish_ingest,
    finish_query, healthz, latest, readyz, stats, Accepted, ApiError, LatestParams, QueryParams,
};
use telemetry_ingest::cache::Cache;
use telemetry_ingest::db::{
    after_migration, check_migrated, into_pairs, into_readings, prune_hours, select_range,
    sweep_report, DbError, MigrationStep, PoolGauge, PoolStats, Row, SweepReport,
};
use telemetry_ingest::readings::{BatchInput, ReadingInput, SensorId, ValidationError};
use telemetry_ingest::startup::{absorb, rows_per_sensor, settle, WarmUp};
use telemetry_ingest::telemetry::{metrics_route, otlp_endpoints, span_route};
use telemetry_ingest::timestamp::{Timestamp, Value};

fn at(seconds: i64) -> Timestamp {
    Timestamp::from_unix_timestamp(seconds)
}

fn row(sensor: &str, seconds: i64) -> Row {
    Row {
        sensor_id: sensor.to_owned(),
        ts: at(seconds),
        value: Value {
            bits: (seconds as f64).to_bits(),
        },
        unit: None,
    }
}

fn input(sensor: &str, seconds: i64) -> ReadingInput {
    ReadingInput {
        sensor_id: sensor.to_owned(),
        ts: at(seconds),
        value: Value {
            bits: (seconds as f64).to_bits(),
        },
        unit: Some("C".to_owned()),
    }
}

fn down() -> DbError {
    DbError::Sqlx("connection refused".to_owned())
}

#[test]
fn errors_map_to_status_codes() {
    assert_eq!(
        ApiError::Validation(ValidationError::Value)
            .into_response()
            .status,
        StatusCode::BAD_REQUEST.as_u16()
    );
    assert_eq!(
        ApiError::UnknownSensor(SensorId::parse("x").unwrap())
            .into_response()
            .status,
        StatusCode::NOT_FOUND.as_u16()
    );
    assert_eq!(
        ApiError::DbUnavailable.into_response().status,
        StatusCode::SERVICE_UNAVAILABLE.as_u16()
    );
}

#[test]
fn error_bodies_say_what_went_wrong() {
    let bad = ApiError::BadQuery("from must not be after to").into_response();
    assert_eq!(bad.status, 400);
    assert_eq!(bad.body.error, "from must not be after to");
    let unknown = ApiError::UnknownSensor(SensorId::parse(" x ").unwrap()).into_response();
    assert_eq!(unknown.body.error, "unknown sensor x");
    assert_eq!(
        ApiError::DbUnavailable.into_response().body.error,
        "database unavailable"
    );
    assert_eq!(
        ApiError::Validation(ValidationError::Unit(17))
            .into_response()
            .body
            .error,
        "unit must be at most 16 characters, got 17"
    );
}

#[test]
fn a_batch_is_cached_only_once_it_is_persisted() {
    let mut cache = Cache::new(10);
    let batch = begin_ingest(BatchInput {
        readings: vec![input("a", 1), input("b", 2)],
    })
    .unwrap();
    for failure in [DbError::NotMigrated, down()] {
        let refused = finish_ingest(&mut cache, &batch, Err(failure)).unwrap_err();
        assert_eq!(refused.into_response().status, 503);
        assert_eq!(cache.stats().readings, 0);
    }
    let accepted = finish_ingest(&mut cache, &batch, Ok(())).unwrap();
    assert_eq!(accepted, Accepted { accepted: 2 });
    assert_eq!(accepted.status(), StatusCode::ACCEPTED.as_u16());
    assert_eq!(cache.stats().sensors, 2);
    let found = latest(
        &cache,
        LatestParams {
            sensor: " a ".to_owned(),
            limit: 0,
        },
    )
    .unwrap();
    assert_eq!(found.sensor_id.as_str(), "a");
    assert_eq!(found.readings, vec![batch.0[0].1.clone()]);
}

#[test]
fn an_invalid_batch_is_refused() {
    let refused = begin_ingest(BatchInput { readings: vec![] }).unwrap_err();
    assert_eq!(
        refused.into_response().body.error,
        "batch must hold between 1 and 1000 readings, got 0"
    );
}

#[test]
fn latest_knows_residents_only_and_clamps_the_limit() {
    let mut cache = Cache::new(20_000);
    let rows: Vec<Row> = (0..12_000).map(|n| row("s", n)).collect();
    absorb(&mut cache, rows);
    let ask = |sensor: &str, limit: usize| {
        latest(
            &cache,
            LatestParams {
                sensor: sensor.to_owned(),
                limit,
            },
        )
    };
    assert_eq!(ask("s", 3).unwrap().readings.len(), 3);
    assert_eq!(ask("s", 0).unwrap().readings[0].ts, at(11_999));
    assert_eq!(ask("s", usize::MAX).unwrap().readings.len(), 10_000);
    assert_eq!(ask("t", 3).unwrap_err().into_response().status, 404);
    assert_eq!(ask("  ", 3).unwrap_err().into_response().status, 400);
    assert_eq!(default_latest_limit(), 100);
}

#[test]
fn queries_are_checked_before_the_database_is_asked() {
    let params = |from: i64, to: i64, limit: i64| QueryParams {
        sensor: " s ".to_owned(),
        from: at(from),
        to: at(to),
        limit,
    };
    let query = begin_query(params(1, 1, 7)).unwrap();
    assert_eq!(query.sensor.as_str(), "s");
    assert_eq!(query.from, at(1));
    assert_eq!(query.to, at(1));
    assert_eq!(query.limit, 7);
    assert_eq!(begin_query(params(1, 2, -5)).unwrap().limit, 1);
    assert_eq!(begin_query(params(1, 2, i64::MAX)).unwrap().limit, 100_000);
    let refused = begin_query(params(2, 1, 7)).unwrap_err().into_response();
    assert_eq!(refused.status, 400);
    assert_eq!(refused.body.error, "from must not be after to");
    let mut blank = params(2, 1, 7);
    blank.sensor = String::new();
    assert_eq!(
        begin_query(blank).unwrap_err().into_response().body.error,
        "sensor_id must be 1 to 64 characters, got 0"
    );
    assert_eq!(default_query_limit(), 1000);
}

#[test]
fn a_failed_query_is_answered_unavailable() {
    let sensor = SensorId::parse("s").unwrap();
    let found = finish_query(sensor.clone(), Ok(into_readings(vec![row("s", 1)]))).unwrap();
    assert_eq!(found.sensor_id, sensor);
    assert_eq!(found.readings[0].ts, at(1));
    let refused = finish_query(sensor, Err(down())).unwrap_err();
    assert_eq!(refused.into_response().status, 503);
}

#[test]
fn probes_and_stats() {
    assert_eq!(healthz(), "ok");
    assert_eq!(readyz(true), (200, "ready"));
    assert_eq!(readyz(false), (503, "starting"));
    let mut cache = Cache::new(10);
    absorb(&mut cache, vec![row("a", 1), row("b", 2)]);
    let pool = PoolStats {
        pool_size: 4,
        idle: 3,
    };
    let both = stats(&cache, pool);
    assert_eq!(both.cache, cache.stats());
    assert_eq!(both.db, pool);
}

#[test]
fn pool_connections_are_idle_or_used() {
    let gauge = |pool_size: u32, idle: usize| PoolStats { pool_size, idle }.gauge();
    assert_eq!(gauge(4, 3), PoolGauge { idle: 3, used: 1 });
    assert_eq!(gauge(2, 3), PoolGauge { idle: 3, used: 0 });
}

#[test]
fn nothing_runs_before_the_schema_is_there() {
    assert!(check_migrated(true).is_ok());
    let refused = check_migrated(false).unwrap_err();
    assert!(matches!(refused, DbError::NotMigrated));
    assert_eq!(refused.message(), "schema is not migrated yet");
    assert_eq!(down().message(), "connection refused");
    assert_eq!(after_migration(true), MigrationStep::Finish);
    assert_eq!(after_migration(false), MigrationStep::RetryAfter(5));
}

#[test]
fn rows_without_a_valid_sensor_are_left_out() {
    let found = into_pairs(vec![row(" a ", 1), row(" ", 2), row("b", 3)]);
    assert_eq!(found.len(), 2);
    assert_eq!(found[0].0.as_str(), "a");
    assert_eq!(found[1].1.ts, at(3));
    let readings = into_readings(vec![row("", 1), row("b", 3)]);
    assert_eq!(readings.len(), 1);
}

#[test]
fn an_accepted_reading_reads_back_from_its_row() {
    let batch = begin_ingest(BatchInput {
        readings: vec![input("  s-1 ", 5)],
    })
    .unwrap();
    let (sensor, reading) = &batch.0[0];
    let stored = Row {
        sensor_id: sensor.as_str().to_owned(),
        ts: reading.ts,
        value: reading.value,
        unit: reading.unit.clone(),
    };
    let (back, same) = stored.into_reading().unwrap();
    assert_eq!(&back, sensor);
    assert_eq!(&same, reading);
}

#[test]
fn ranges_are_inclusive_and_limited() {
    let rows = || (0..10).rev().map(|n| row("s", n)).collect::<Vec<_>>();
    let picked = |from: i64, to: i64, limit: i64| {
        select_range(rows(), &at(from), &at(to), limit)
            .iter()
            .map(|r| r.ts.seconds)
            .collect::<Vec<_>>()
    };
    assert_eq!(picked(3, 6, 100), [6, 5, 4, 3]);
    assert_eq!(picked(3, 6, 2), [6, 5]);
    assert_eq!(picked(3, 6, 0), Vec::<i64>::new());
    assert_eq!(picked(3, 6, -1), [6, 5, 4, 3]);
    assert_eq!(picked(6, 3, 100), Vec::<i64>::new());
}

#[test]
fn retention_windows_and_reports() {
    assert_eq!(prune_hours(24), 24);
    assert_eq!(prune_hours(u32::MAX), i32::MAX);
    assert_eq!(sweep_report(&Ok(0)), SweepReport::Quiet);
    assert_eq!(sweep_report(&Ok(7)), SweepReport::Pruned(7));
    assert_eq!(sweep_report(&Err(down())), SweepReport::Failed);
}

#[test]
fn warm_up_hands_out_every_sensor_once() {
    let ids: Vec<String> = (0..250).map(|n| format!("s-{n}")).collect();
    let mut warm_up = WarmUp::new(ids.clone());
    let mut seen = Vec::new();
    let mut sizes = Vec::new();
    while let Some(chunk) = warm_up.next_chunk() {
        sizes.push(chunk.len());
        seen.extend(chunk);
    }
    assert_eq!(sizes, [100, 100, 50]);
    assert_eq!(seen, ids);
    assert!(warm_up.next_chunk().is_none());
    assert!(WarmUp::new(vec![]).next_chunk().is_none());
    assert_eq!(rows_per_sensor(2000), 2000);
    assert_eq!(rows_per_sensor(usize::MAX), i64::MAX);
}

#[test]
fn warm_up_in_chunks_fills_the_cache_as_one() {
    let rows = |n: std::ops::Range<i64>| {
        n.map(|i| row(&format!("s-{}", i % 7), i * 13 % 50))
            .collect::<Vec<_>>()
    };
    let mut once = Cache::new(30_000);
    absorb(&mut once, rows(0..90));
    let mut twice = Cache::new(30_000);
    absorb(&mut twice, rows(0..41));
    absorb(&mut twice, rows(41..90));
    assert_eq!(once.stats(), twice.stats());
    for n in 0..7 {
        let sensor = SensorId::parse(&format!("s-{n}")).unwrap();
        assert_eq!(once.latest(&sensor, 99), twice.latest(&sensor, 99));
    }
}

#[test]
fn a_failed_warm_up_leaves_an_empty_cache() {
    let mut cache = Cache::new(500);
    let rows = |n: i64| (0..n).map(|i| row(&format!("s-{}", i % 40), i)).collect();
    assert!(settle(&mut cache, Ok(rows(300))));
    assert!(settle(&mut cache, Ok(rows(100))));
    assert_eq!(cache.stats().sensors, 40);
    assert_eq!(cache.stats().readings, 400);
    assert!(!settle(&mut cache, Err(down())));
    assert_eq!(cache.stats(), Cache::new(500).stats());
    assert_eq!(cache.indexed_sensors(), 0);
    assert!(settle(&mut cache, Ok(rows(10))));
    assert_eq!(cache.stats().sensors, 10);
}

#[test]
fn a_failed_warm_up_spares_what_was_written_to() {
    let mut cache = Cache::new(500);
    settle(&mut cache, Ok(vec![row("a", 1), row("b", 2), row("c", 3)]));
    let batch = begin_ingest(BatchInput {
        readings: vec![input("b", 9), input("d", 8)],
    })
    .unwrap();
    finish_ingest(&mut cache, &batch, Ok(())).unwrap();
    settle(&mut cache, Ok(vec![row("e", 4), row("d", 7)]));
    assert_eq!(cache.stats().sensors, 5);
    settle(&mut cache, Err(DbError::NotMigrated));
    let seconds = |cache: &Cache, name: &str| {
        cache
            .latest(&SensorId::parse(name).unwrap(), 9)
            .map(|rs| rs.iter().map(|r| r.ts.seconds).collect::<Vec<_>>())
    };
    assert_eq!(seconds(&cache, "a"), None);
    assert_eq!(seconds(&cache, "b"), Some(vec![9, 2]));
    assert_eq!(seconds(&cache, "c"), None);
    assert_eq!(seconds(&cache, "d"), Some(vec![8, 7]));
    assert_eq!(seconds(&cache, "e"), None);
    assert_eq!(cache.stats().readings, 4);
    assert_eq!(cache.indexed_sensors(), 2);
    let bytes: usize = ["b", "d"]
        .iter()
        .map(|name| SensorId::parse(name).unwrap())
        .map(|id| {
            let held = cache.latest(&id, 9).unwrap();
            id.byte_len() + held.iter().map(|r| r.byte_len()).sum::<usize>()
        })
        .sum();
    assert_eq!(cache.stats().bytes, bytes);
}

#[test]
fn an_evicted_sensor_is_no_longer_live() {
    let mut cache = Cache::new(65_536);
    let a = SensorId::parse("a").unwrap();
    cache.insert_pairs(&into_pairs(vec![row("a", 1)]));
    settle(&mut cache, Ok(vec![row("b", 2), row("c", 3), row("a", 4)]));
    assert!(cache.latest(&a, 1).is_some());
    settle(&mut cache, Err(down()));
    assert!(cache.latest(&a, 1).is_none());
    assert_eq!(cache.stats().sensors, 0);
}

#[test]
fn telemetry_goes_to_the_collectors_paths() {
    let endpoints = otlp_endpoints("http://otel:4318//");
    assert_eq!(endpoints.traces, "http://otel:4318/v1/traces");
    assert_eq!(endpoints.logs, "http://otel:4318/v1/logs");
    assert_eq!(endpoints.metrics, "http://otel:4318/v1/metrics");
    assert_eq!(otlp_endpoints("///").logs, "/v1/logs");
    assert_eq!(otlp_endpoints("x").metrics, "x/v1/metrics");
    assert_eq!(metrics_route(Some("/stats")), "/stats");
    assert_eq!(metrics_route(None), "unmatched");
    assert_eq!(span_route(Some("/stats"), "/other"), "/stats");
    assert_eq!(span_route(None, "/other"), "/other");
}
