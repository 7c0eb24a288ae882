use telemetry_ingest::readings::{
    Batch, BatchInput, Reading, ReadingInput, SensorId, ValidationError,
};
use telemetry_ingest::timestamp::{Timestamp, Value};

fn input(sensor: &str, value: f64, unit: Option<&str>) -> ReadingInput {
    ReadingInput {
        sensor_id: sensor.to_owned(),
        // 2026-09-04 12:00 UTC
        ts: Timestamp::from_unix_timestamp(1_788_523_200),
        value: Value {
            bits: value.to_bits(),
        },
        unit: unit.map(str::to_owned),
    }
}

#[test]
fn accepts_a_valid_batch() {
    let batch = Batch::parse(BatchInput {
        readings: vec![input("s-0001", 21.5, Some("C"))],
    })
    .unwrap();
    assert_eq!(batch.len(), 1);
    assert_eq!(batch.0[0].0.as_str(), "s-0001");
}

#[test]
fn rejects_empty_and_oversized_batches() {
    let empty = Batch::parse(BatchInput { readings: vec![] }).unwrap_err();
    assert_eq!(empty, ValidationError::BatchSize { got: 0, max: 1000 });
    let readings = (0..1001).map(|_| input("s", 1.0, None)).collect();
    let big = Batch::parse(BatchInput { readings }).unwrap_err();
    assert_eq!(
        big,
        ValidationError::BatchSize {
            got: 1001,
            max: 1000
        }
    );
}

#[test]
fn rejects_bad_fields() {
    let long = "x".repeat(65);
    let err = Batch::parse(BatchInput {
        readings: vec![input(&long, 1.0, None)],
    })
    .unwrap_err();
    assert_eq!(err, ValidationError::SensorId(65));

    let err = Batch::parse(BatchInput {
        readings: vec![input("s", f64::NAN, None)],
    })
    .unwrap_err();
    assert_eq!(err, ValidationError::Value);

    let err = Batch::parse(BatchInput {
        readings: vec![input("s", 1.0, Some("kilometres-per-hour"))],
    })
    .unwrap_err();
    assert_eq!(err, ValidationError::Unit(19));
}

#[test]
fn a_full_batch_is_accepted_in_order() {
    let readings = (0..1000)
        .map(|n| input(&format!("s-{n}"), f64::from(n), None))
        .collect();
    let batch = Batch::parse(BatchInput { readings }).unwrap();
    assert_eq!(batch.len(), 1000);
    for (n, (sensor, reading)) in batch.0.iter().enumerate() {
        assert_eq!(sensor.as_str(), format!("s-{n}"));
        assert_eq!(f64::from_bits(reading.value.bits), n as f64);
        assert_eq!(reading.ts, Timestamp::from_unix_timestamp(1_788_523_200));
    }
}

#[test]
fn the_first_refusal_decides() {
    let err = Batch::parse(BatchInput {
        readings: vec![
            input("ok", 1.0, None),
            input("s", 1.0, Some("seventeen letters")),
            input("", f64::INFINITY, None),
        ],
    })
    .unwrap_err();
    assert_eq!(err, ValidationError::Unit(17));
    let err = Batch::parse(BatchInput {
        readings: vec![input("   ", f64::INFINITY, Some("seventeen letters"))],
    })
    .unwrap_err();
    assert_eq!(err, ValidationError::SensorId(3));
    let err = Batch::parse(BatchInput {
        readings: vec![input("s", f64::NEG_INFINITY, Some("seventeen letters"))],
    })
    .unwrap_err();
    assert_eq!(err, ValidationError::Value);
}

#[test]
fn ids_are_trimmed_and_counted_in_characters() {
    assert_eq!(SensorId::parse("  s 1\t\n").unwrap().as_str(), "s 1");
    assert_eq!(
        SensorId::parse(&format!(" {} ", "x".repeat(64)))
            .unwrap()
            .as_str(),
        "x".repeat(64)
    );
    let wide = "\u{e9}".repeat(64);
    let sensor = SensorId::parse(&wide).unwrap();
    assert_eq!(sensor.byte_len(), 128);
    assert_eq!(sensor.as_str(), wide);
    assert_eq!(
        SensorId::parse(&format!("\u{3000}{}", "\u{e9}".repeat(65))).unwrap_err(),
        ValidationError::SensorId(66)
    );
    assert_eq!(
        SensorId::parse("").unwrap_err(),
        ValidationError::SensorId(0)
    );
}

#[test]
fn a_parsed_id_parses_to_itself() {
    for raw in ["a", "  a b  ", "\u{a0}x\u{2003}", "s-0001"] {
        let once = SensorId::parse(raw).unwrap();
        assert_eq!(SensorId::parse(once.as_str()).unwrap(), once);
        assert_eq!(once.clone(), once);
    }
}

#[test]
fn ids_are_equal_by_their_text() {
    let a = SensorId::parse(" s-1 ").unwrap();
    assert!(a == SensorId::parse("s-1").unwrap());
    assert!(a != SensorId::parse("S-1").unwrap());
    assert!(a != SensorId::parse("s-10").unwrap());
}

#[test]
fn units_up_to_sixteen_characters_pass() {
    let batch = Batch::parse(BatchInput {
        readings: vec![input("s", 1.0, Some(&"\u{b0}".repeat(16)))],
    })
    .unwrap();
    assert_eq!(
        batch.0[0].1.byte_len(),
        std::mem::size_of::<Reading>() + 32
    );
}

#[test]
fn a_reading_takes_its_own_size_and_its_unit() {
    let plain = Reading {
        ts: Timestamp::from_unix_timestamp(0),
        value: Value { bits: 0 },
        unit: None,
    };
    let mut named = plain.clone();
    named.unit = Some("long-unit".to_owned());
    assert_eq!(plain.byte_len(), std::mem::size_of::<Reading>());
    assert_eq!(named.byte_len(), plain.byte_len() + 9);
}

#[test]
fn refusals_explain_themselves() {
    assert_eq!(
        ValidationError::BatchSize {
            got: 1001,
            max: 1000
        }
        .message(),
        "batch must hold between 1 and 1000 readings, got 1001"
    );
    assert_eq!(
        ValidationError::SensorId(65).message(),
        "sensor_id must be 1 to 64 characters, got 65"
    );
    assert_eq!(
        ValidationError::Value.message(),
        "value must be a finite number"
    );
    assert_eq!(
        ValidationError::Unit(19).message(),
        "unit must be at most 16 characters, got 19"
    );
}

#[test]
fn values_behave_as_the_numbers_they_hold() {
    let samples = [
        0.0,
        -0.0,
        1.0,
        -1.5,
        f64::MIN_POSITIVE,
        f64::from_bits(1),
        f64::MAX,
        f64::MIN,
        f64::INFINITY,
        f64::NEG_INFINITY,
        f64::NAN,
        -f64::NAN,
    ];
    for a in samples {
        let x = Value { bits: a.to_bits() };
        assert_eq!(x.is_finite(), a.is_finite());
        for b in samples {
            let y = Value { bits: b.to_bits() };
            assert_eq!(x == y, a == b);
        }
    }
}

#[test]
fn timestamps_name_instants() {
    let ts = Timestamp {
        seconds: -2,
        nanos: 500_000_000,
        offset_seconds: 3600,
    };
    assert_eq!(ts.instant(), -1_500_000_000);
    assert!(ts == Timestamp { offset_seconds: 0, ..ts });
    assert!(ts != Timestamp { nanos: 1, ..ts });
    assert_eq!(
        Timestamp::from_unix_timestamp(i64::MIN).instant(),
        i128::from(i64::MIN) * 1_000_000_000
    );
}
