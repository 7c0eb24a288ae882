use telemetry_ingest::config::{
    invalid_message, listen_text, validate_cache_limits, Config, ConfigError,
};

fn vars(pairs: &[(&str, &str)]) -> Vec<(String, String)> {
    let mut all: Vec<(String, String)> = pairs
        .iter()
        .map(|(k, v)| ((*k).to_owned(), (*v).to_owned()))
        .collect();
    for (k, v) in [
        ("INGEST_DB_HOST", "db"),
        ("INGEST_DB_NAME", "readings"),
        ("INGEST_DB_USER", "ingest"),
        ("INGEST_DB_PASSWORD", " secret "),
    ] {
        all.push((k.to_owned(), v.to_owned()));
    }
    all
}

#[test]
fn cache_limits_fit_default_and_deployed_memory_budgets() {
    assert!(validate_cache_limits(2000, 128).is_ok());
    assert!(validate_cache_limits(500, 128).is_ok());
    assert!(validate_cache_limits(64, 4096).is_ok());
    for (per_sensor, sensors) in [(0, 128), (500, 0), (1, 4097), (2000, 2000)] {
        assert!(validate_cache_limits(per_sensor, sensors).is_err());
    }
    assert!(validate_cache_limits(usize::MAX, 128).is_err());
}

#[test]
fn defaults_apply_to_everything_but_names_and_credentials() {
    let config = Config::from_env(&vars(&[]), true).unwrap();
    assert_eq!(config.listen, "0.0.0.0:8080");
    assert_eq!(config.db.host, "db");
    assert_eq!(config.db.port, 5432);
    assert_eq!(config.db.name, "readings");
    assert_eq!(config.db.user, "ingest");
    assert_eq!(config.db.password, " secret ");
    assert_eq!(config.db.pool_max, 10);
    assert_eq!(config.db.connect_timeout_secs, 3);
    assert_eq!(config.cache_per_sensor, 2000);
    assert_eq!(config.cache_max_sensors, 128);
    assert!(config.warm_on_start);
    assert_eq!(config.retention_hours, 1);
    assert_eq!(config.otlp_endpoint, "http://localhost:4318");
    assert_eq!(config.service_name, "telemetry-ingest");
}

#[test]
fn every_variable_is_read() {
    let config = Config::from_env(
        &vars(&[
            ("INGEST_LISTEN", " 127.0.0.1:9 "),
            ("INGEST_DB_PORT", " 65535 "),
            ("INGEST_DB_POOL_MAX", "+7"),
            ("INGEST_DB_CONNECT_TIMEOUT_SECS", "18446744073709551615"),
            ("INGEST_CACHE_PER_SENSOR", "500"),
            ("INGEST_CACHE_MAX_SENSORS", "12"),
            ("INGEST_WARM_ON_START", "false"),
            ("INGEST_RETENTION_HOURS", "0024"),
            ("OTEL_EXPORTER_OTLP_ENDPOINT", "http://otel:4318/"),
            ("OTEL_SERVICE_NAME", "svc"),
        ]),
        true,
    )
    .unwrap();
    assert_eq!(config.listen, "127.0.0.1:9");
    assert_eq!(config.db.port, 65535);
    assert_eq!(config.db.pool_max, 7);
    assert_eq!(config.db.connect_timeout_secs, u64::MAX);
    assert_eq!(config.cache_per_sensor, 500);
    assert_eq!(config.cache_max_sensors, 12);
    assert!(!config.warm_on_start);
    assert_eq!(config.retention_hours, 24);
    assert_eq!(config.otlp_endpoint, "http://otel:4318/");
    assert_eq!(config.service_name, "svc");
}

#[test]
fn blank_values_count_as_missing() {
    let config = Config::from_env(
        &vars(&[("INGEST_DB_PORT", "  "), ("OTEL_SERVICE_NAME", "\t")]),
        true,
    )
    .unwrap();
    assert_eq!(config.db.port, 5432);
    assert_eq!(config.service_name, "telemetry-ingest");
    for name in [
        "INGEST_DB_HOST",
        "INGEST_DB_NAME",
        "INGEST_DB_USER",
        "INGEST_DB_PASSWORD",
    ] {
        let err = Config::from_env(&vars(&[(name, " ")]), true).unwrap_err();
        assert_eq!(err.message(), format!("{name} is required"));
        assert!(matches!(err, ConfigError::Missing(_)));
    }
}

#[test]
fn malformed_values_are_refused_with_what_was_expected() {
    for (name, value, expected) in [
        ("INGEST_DB_PORT", "65536", "port number"),
        ("INGEST_DB_POOL_MAX", "-1", "integer"),
        ("INGEST_DB_CONNECT_TIMEOUT_SECS", "1.5", "integer"),
        ("INGEST_CACHE_PER_SENSOR", "many", "integer"),
        ("INGEST_CACHE_MAX_SENSORS", "+", "integer"),
        ("INGEST_WARM_ON_START", "True", "boolean"),
        ("INGEST_RETENTION_HOURS", "4294967296", "integer"),
    ] {
        let err = Config::from_env(&vars(&[(name, value)]), true).unwrap_err();
        assert_eq!(
            err.message(),
            format!("{name} is not a valid {expected}: {value:?}")
        );
    }
}

#[test]
fn the_listen_address_is_looked_at_first() {
    let env = vars(&[("INGEST_LISTEN", " no\"where "), ("INGEST_DB_HOST", "")]);
    assert_eq!(listen_text(&env), "no\"where");
    let err = Config::from_env(&env, false).unwrap_err();
    assert_eq!(
        err.message(),
        "INGEST_LISTEN is not a valid socket address: \" no\\\"where \""
    );
    assert_eq!(listen_text(&vars(&[])), "0.0.0.0:8080");
}

#[test]
fn cache_limits_are_looked_at_last() {
    let limits = [
        ("INGEST_CACHE_PER_SENSOR", "5000"),
        ("INGEST_CACHE_MAX_SENSORS", "128"),
    ];
    let mut env = vars(&limits);
    env.push(("INGEST_RETENTION_HOURS".to_owned(), "x".to_owned()));
    let err = Config::from_env(&env, true).unwrap_err();
    assert_eq!(
        err.message(),
        "INGEST_RETENTION_HOURS is not a valid integer: \"x\""
    );
    let err = Config::from_env(&vars(&limits), true).unwrap_err();
    assert_eq!(
        err.message(),
        "INGEST_CACHE_PER_SENSOR/INGEST_CACHE_MAX_SENSORS is not a valid positive cache limits \
         with at most 4096 sensors and 262144 total readings: \"5000/128\""
    );
}

#[test]
fn a_per_sensor_limit_on_its_own_is_never_refused() {
    for wanted in ["4000", "0", "1", "131072", "131073", "18446744073709551615"] {
        let Ok(n) = wanted.parse::<usize>() else {
            continue;
        };
        for env in [
            vars(&[("INGEST_CACHE_PER_SENSOR", wanted)]),
            vars(&[
                ("INGEST_CACHE_PER_SENSOR", wanted),
                ("INGEST_CACHE_MAX_SENSORS", "  "),
            ]),
        ] {
            let config = Config::from_env(&env, true).unwrap();
            assert_eq!(config.cache_per_sensor, n);
        }
    }
    let err =
        Config::from_env(&vars(&[("INGEST_CACHE_PER_SENSOR", "4e3")]), true).unwrap_err();
    assert_eq!(
        err.message(),
        "INGEST_CACHE_PER_SENSOR is not a valid integer: \"4e3\""
    );
}

#[test]
fn the_first_of_two_equal_names_counts() {
    let mut env = vars(&[("INGEST_DB_PORT", "1")]);
    env.push(("INGEST_DB_PORT".to_owned(), "2".to_owned()));
    assert_eq!(Config::from_env(&env, true).unwrap().db.port, 1);
}

#[test]
fn invalid_values_are_reported_with_their_quoted_form() {
    assert_eq!(
        invalid_message("A", "b", "\"c\""),
        "A is not a valid b: \"c\""
    );
}
