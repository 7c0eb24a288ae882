//! Process configuration, taken once from the environment. A missing or
//! malformed value is a startup error; there are no fallbacks for anything
//! that names a host, a database or a credential.
use crate::text;
use vstd::prelude::*;
use vstd::string::*;

verus! {

/// What the process is started with.
#[derive(Debug, Clone)]
pub struct Config {
    /// The address to bind, as text.
    pub listen: String,
    pub db: DbConfig,
    /// Readings kept per sensor, as asked for; the cache holds it to its own
    /// bounds and derives its sensor limit from it.
    pub cache_per_sensor: usize,
    /// A sensor limit to hold the one above against, if it is asked for.
    pub cache_max_sensors: usize,
    pub warm_on_start: bool,
    /// Readings older than this are deleted by the periodic sweep; the
    /// table stays bounded on a small volume.
    pub retention_hours: u32,
    pub otlp_endpoint: String,
    pub service_name: String,
}

/// How to reach the database.
#[derive(Debug, Clone)]
pub struct DbConfig {
    pub host: String,
    pub port: u16,
    pub name: String,
    pub user: String,
    pub password: String,
    pub pool_max: u32,
    /// How long to wait for a connection, in seconds.
    pub connect_timeout_secs: u64,
}

/// Why the process does not start.
#[derive(Debug)]
pub enum ConfigError {
    Missing(&'static str),
    Invalid { name: &'static str, expected: &'static str, value: String },
}

/// A configuration error as plain text.
pub enum ConfigFault {
    Missing(Seq<char>),
    Invalid(Seq<char>, Seq<char>, Seq<char>),
}

impl View for ConfigError {
    type V = ConfigFault;

    open spec fn view(&self) -> ConfigFault {
        match *self {
            ConfigError::Missing(name) => ConfigFault::Missing(name@),
            ConfigError::Invalid { name, expected, value } => ConfigFault::Invalid(
                name@,
                expected@,
                value@,
            ),
        }
    }
}

/// The value of a variable: the first one of that name.
pub open spec fn lookup(vars: Seq<(String, String)>, name: Seq<char>) -> Option<Seq<char>>
    decreases vars.len(),
{
    if vars.len() == 0 {
        None
    } else if vars[0].0@ == name {
        Some(vars[0].1@)
    } else {
        lookup(vars.drop_first(), name)
    }
}

/// The value of a variable that is set to more than blanks.
pub open spec fn given(vars: Seq<(String, String)>, name: Seq<char>) -> Option<Seq<char>> {
    match lookup(vars, name) {
        Some(value) => if text::trimmed(value).len() > 0 {
            Some(value)
        } else {
            None
        },
        None => None,
    }
}

/// The value of a variable, or its default.
pub open spec fn given_or(
    vars: Seq<(String, String)>,
    name: Seq<char>,
    default: Seq<char>,
) -> Seq<char> {
    match given(vars, name) {
        Some(value) => value,
        None => default,
    }
}

/// What a variable that has to be set is taken for.
pub open spec fn required_value(vars: Seq<(String, String)>, name: Seq<char>) -> Result<
    Seq<char>,
    ConfigFault,
> {
    match given(vars, name) {
        Some(value) => Ok(value),
        None => Err(ConfigFault::Missing(name)),
    }
}

/// What a number from 0 to `max` is taken for.
pub open spec fn number_value(
    vars: Seq<(String, String)>,
    name: Seq<char>,
    expected: Seq<char>,
    default: Seq<char>,
    max: nat,
) -> Result<nat, ConfigFault> {
    let value = given_or(vars, name, default);
    match text::unsigned_value(text::trimmed(value), max) {
        Some(n) => Ok(n),
        None => Err(ConfigFault::Invalid(name, expected, value)),
    }
}

/// What a boolean is taken for.
pub open spec fn flag_value(
    vars: Seq<(String, String)>,
    name: Seq<char>,
    expected: Seq<char>,
    default: Seq<char>,
) -> Result<bool, ConfigFault> {
    let value = given_or(vars, name, default);
    match text::bool_value(text::trimmed(value)) {
        Some(b) => Ok(b),
        None => Err(ConfigFault::Invalid(name, expected, value)),
    }
}

fn find(vars: &Vec<(String, String)>, name: &str) -> (value: Option<String>)
    ensures
        match value {
            Some(text) => given(vars@, name@) == Some(text@),
            None => given(vars@, name@) is None,
        },
{
    let total: usize = vars.len();
    let mut i: usize = 0;
    proof {
        assert(vars@.skip(0) == vars@);
    }
    while i < total
        invariant
            total == vars@.len(),
            i <= total,
            lookup(vars@, name@) == lookup(vars@.skip(i as int), name@),
        decreases total - i,
    {
        proof {
            assert(vars@.skip(i as int).drop_first() == vars@.skip(i + 1));
            assert(vars@.skip(i as int)[0] == vars@[i as int]);
        }
        if text::same_text(vars[i].0.as_str(), name) {
            let core = text::trim(vars[i].1.as_str()).0;
            if core.is_empty() {
                return None;
            }
            return Some(vars[i].1.clone());
        }
        i = i + 1;
    }
    None
}

/// A variable that has to be set.
pub fn required(vars: &Vec<(String, String)>, name: &'static str) -> (out: Result<
    String,
    ConfigError,
>)
    ensures
        match out {
            Ok(value) => required_value(vars@, name@) == Ok::<_, ConfigFault>(value@),
            Err(e) => required_value(vars@, name@) == Err::<Seq<char>, _>(e@),
        },
{
    match find(vars, name) {
        Some(value) => Ok(value),
        None => Err(ConfigError::Missing(name)),
    }
}

/// A variable with a default.
pub fn optional(vars: &Vec<(String, String)>, name: &'static str, default: &str) -> (value: String)
    ensures
        value@ == given_or(vars@, name@, default@),
{
    match find(vars, name) {
        Some(value) => value,
        None => default.to_owned(),
    }
}

/// A number from 0 to `max`, with a default.
pub fn parsed_number(
    vars: &Vec<(String, String)>,
    name: &'static str,
    expected: &'static str,
    default: &str,
    max: u64,
) -> (out: Result<u64, ConfigError>)
    ensures
        match out {
            Ok(n) => number_value(vars@, name@, expected@, default@, max as nat) == Ok::<
                _,
                ConfigFault,
            >(n as nat) && n <= max,
            Err(e) => number_value(vars@, name@, expected@, default@, max as nat) == Err::<nat, _>(
                e@,
            ),
        },
{
    let value = optional(vars, name, default);
    let core = text::trim(value.as_str()).0;
    match text::parse_unsigned(core, max) {
        Some(n) => Ok(n),
        None => Err(ConfigError::Invalid { name, expected, value }),
    }
}

/// A boolean, with a default.
pub fn parsed_flag(
    vars: &Vec<(String, String)>,
    name: &'static str,
    expected: &'static str,
    default: &str,
) -> (out: Result<bool, ConfigError>)
    ensures
        match out {
            Ok(b) => flag_value(vars@, name@, expected@, default@) == Ok::<_, ConfigFault>(b),
            Err(e) => flag_value(vars@, name@, expected@, default@) == Err::<bool, _>(e@),
        },
{
    let value = optional(vars, name, default);
    let core = text::trim(value.as_str()).0;
    match text::parse_bool(core) {
        Some(b) => Ok(b),
        None => Err(ConfigError::Invalid { name, expected, value }),
    }
}

/// The most sensors a configuration may ask for.
pub const MAX_CONFIGURED_SENSORS: usize = 4096;

/// The most readings a configuration may ask for, over all sensors.
pub const MAX_CONFIGURED_READINGS: usize = 262_144;

/// The limits are positive and small enough.
pub open spec fn limits_fit(per_sensor: nat, max_sensors: nat) -> bool {
    &&& per_sensor > 0
    &&& 0 < max_sensors <= MAX_CONFIGURED_SENSORS
    &&& per_sensor * max_sensors <= MAX_CONFIGURED_READINGS
}

/// What limits that do not fit are reported as.
pub open spec fn limits_fault(per_sensor: nat, max_sensors: nat) -> ConfigFault {
    ConfigFault::Invalid(
        "INGEST_CACHE_PER_SENSOR/INGEST_CACHE_MAX_SENSORS"@,
        "positive cache limits with at most 4096 sensors and 262144 total readings"@,
        text::decimal(per_sensor) + "/"@ + text::decimal(max_sensors),
    )
}

/// Refuses cache limits that are zero or too large.
pub fn validate_cache_limits(per_sensor: usize, max_sensors: usize) -> (out: Result<
    (),
    ConfigError,
>)
    ensures
        out is Ok <==> limits_fit(per_sensor as nat, max_sensors as nat),
        out is Ok <==> (per_sensor > 0 && 0 < max_sensors <= 4096 && per_sensor * max_sensors
            <= 262_144),
        out matches Err(e) ==> e@ == limits_fault(per_sensor as nat, max_sensors as nat),
{
    let product: Option<usize> = per_sensor.checked_mul(max_sensors);
    let too_many: bool = match product {
        Some(total) => total > MAX_CONFIGURED_READINGS,
        None => true,
    };
    if per_sensor == 0 || max_sensors == 0 || max_sensors > MAX_CONFIGURED_SENSORS || too_many {
        return Err(
            ConfigError::Invalid {
                name: "INGEST_CACHE_PER_SENSOR/INGEST_CACHE_MAX_SENSORS",
                expected:
                    "positive cache limits with at most 4096 sensors and 262144 total readings",
                value: text::decimal_text(per_sensor).concat("/").concat(
                    text::decimal_text(max_sensors).as_str(),
                ),
            },
        );
    }
    Ok(())
}

/// A configuration as plain values.
pub struct ConfigValues {
    pub listen: Seq<char>,
    pub host: Seq<char>,
    pub port: nat,
    pub name: Seq<char>,
    pub user: Seq<char>,
    pub password: Seq<char>,
    pub pool_max: nat,
    pub connect_timeout_secs: nat,
    pub cache_per_sensor: nat,
    pub cache_max_sensors: nat,
    pub warm_on_start: bool,
    pub retention_hours: nat,
    pub otlp_endpoint: Seq<char>,
    pub service_name: Seq<char>,
}

impl View for Config {
    type V = ConfigValues;

    open spec fn view(&self) -> ConfigValues {
        ConfigValues {
            listen: self.listen@,
            host: self.db.host@,
            port: self.db.port as nat,
            name: self.db.name@,
            user: self.db.user@,
            password: self.db.password@,
            pool_max: self.db.pool_max as nat,
            connect_timeout_secs: self.db.connect_timeout_secs as nat,
            cache_per_sensor: self.cache_per_sensor as nat,
            cache_max_sensors: self.cache_max_sensors as nat,
            warm_on_start: self.warm_on_start,
            retention_hours: self.retention_hours as nat,
            otlp_endpoint: self.otlp_endpoint@,
            service_name: self.service_name@,
        }
    }
}

/// The address that `INGEST_LISTEN` asks to bind, before it is looked at.
pub open spec fn listen_value(vars: Seq<(String, String)>) -> Seq<char> {
    given_or(vars, "INGEST_LISTEN"@, "0.0.0.0:8080"@)
}

pub open spec fn port_value(vars: Seq<(String, String)>) -> Result<nat, ConfigFault> {
    number_value(vars, "INGEST_DB_PORT"@, "port number"@, "5432"@, u16::MAX as nat)
}

pub open spec fn pool_max_value(vars: Seq<(String, String)>) -> Result<nat, ConfigFault> {
    number_value(vars, "INGEST_DB_POOL_MAX"@, "integer"@, "10"@, u32::MAX as nat)
}

pub open spec fn connect_timeout_value(vars: Seq<(String, String)>) -> Result<nat, ConfigFault> {
    number_value(vars, "INGEST_DB_CONNECT_TIMEOUT_SECS"@, "integer"@, "3"@, u64::MAX as nat)
}

pub open spec fn per_sensor_value(vars: Seq<(String, String)>) -> Result<nat, ConfigFault> {
    number_value(vars, "INGEST_CACHE_PER_SENSOR"@, "integer"@, "2000"@, usize::MAX as nat)
}

pub open spec fn max_sensors_value(vars: Seq<(String, String)>) -> Result<nat, ConfigFault> {
    number_value(vars, "INGEST_CACHE_MAX_SENSORS"@, "integer"@, "128"@, usize::MAX as nat)
}

pub open spec fn warm_value(vars: Seq<(String, String)>) -> Result<bool, ConfigFault> {
    flag_value(vars, "INGEST_WARM_ON_START"@, "boolean"@, "true"@)
}

pub open spec fn retention_value(vars: Seq<(String, String)>) -> Result<nat, ConfigFault> {
    number_value(vars, "INGEST_RETENTION_HOURS"@, "integer"@, "1"@, u32::MAX as nat)
}

/// The fault of a value, if it has one.
pub open spec fn fault_of<T>(value: Result<T, ConfigFault>) -> Option<ConfigFault> {
    match value {
        Ok(_) => None,
        Err(fault) => Some(fault),
    }
}

/// The first of two faults.
pub open spec fn first_of(a: Option<ConfigFault>, b: Option<ConfigFault>) -> Option<ConfigFault> {
    if a is Some {
        a
    } else {
        b
    }
}

/// What is wrong with the environment, if anything: the variables are looked
/// at in a fixed order, and the cache limits last. A per-sensor limit on its
/// own is never too large or too small, as the cache holds it to its budget;
/// only a sensor limit that is asked for has to fit beside it.
pub open spec fn environment_fault(
    vars: Seq<(String, String)>,
    listen_is_address: bool,
) -> Option<ConfigFault> {
    let listen = if listen_is_address {
        None
    } else {
        Some(
            ConfigFault::Invalid("INGEST_LISTEN"@, "socket address"@, listen_value(vars)),
        )
    };
    let per_sensor = per_sensor_value(vars);
    let max_sensors = max_sensors_value(vars);
    let limits = if given(vars, "INGEST_CACHE_MAX_SENSORS"@) is None || limits_fit(
        per_sensor->Ok_0,
        max_sensors->Ok_0,
    ) {
        None
    } else {
        Some(limits_fault(per_sensor->Ok_0, max_sensors->Ok_0))
    };
    let rest = first_of(fault_of(warm_value(vars)), first_of(fault_of(retention_value(vars)), limits));
    let cache = first_of(fault_of(per_sensor), first_of(fault_of(max_sensors), rest));
    let pool = first_of(
        fault_of(pool_max_value(vars)),
        first_of(fault_of(connect_timeout_value(vars)), cache),
    );
    let login = first_of(
        fault_of(required_value(vars, "INGEST_DB_USER"@)),
        first_of(fault_of(required_value(vars, "INGEST_DB_PASSWORD"@)), pool),
    );
    let database = first_of(
        fault_of(port_value(vars)),
        first_of(fault_of(required_value(vars, "INGEST_DB_NAME"@)), login),
    );
    first_of(listen, first_of(fault_of(required_value(vars, "INGEST_DB_HOST"@)), database))
}

/// What an environment without fault configures.
pub open spec fn environment_values(vars: Seq<(String, String)>) -> ConfigValues {
    ConfigValues {
        listen: text::trimmed(listen_value(vars)),
        host: required_value(vars, "INGEST_DB_HOST"@)->Ok_0,
        port: port_value(vars)->Ok_0,
        name: required_value(vars, "INGEST_DB_NAME"@)->Ok_0,
        user: required_value(vars, "INGEST_DB_USER"@)->Ok_0,
        password: required_value(vars, "INGEST_DB_PASSWORD"@)->Ok_0,
        pool_max: pool_max_value(vars)->Ok_0,
        connect_timeout_secs: connect_timeout_value(vars)->Ok_0,
        cache_per_sensor: per_sensor_value(vars)->Ok_0,
        cache_max_sensors: max_sensors_value(vars)->Ok_0,
        warm_on_start: warm_value(vars)->Ok_0,
        retention_hours: retention_value(vars)->Ok_0,
        otlp_endpoint: given_or(
            vars,
            "OTEL_EXPORTER_OTLP_ENDPOINT"@,
            "http://localhost:4318"@,
        ),
        service_name: given_or(vars, "OTEL_SERVICE_NAME"@, "telemetry-ingest"@),
    }
}

/// The text that has to be a socket address for the process to start.
pub fn listen_text(vars: &Vec<(String, String)>) -> (address: String)
    ensures
        address@ == text::trimmed(listen_value(vars@)),
        given(vars@, "INGEST_LISTEN"@) is None ==> address@ == text::trimmed("0.0.0.0:8080"@),
        given(vars@, "INGEST_LISTEN"@) matches Some(value) ==> address@ == text::trimmed(value),
{
    let value = optional(vars, "INGEST_LISTEN", "0.0.0.0:8080");
    let core = text::trim(value.as_str()).0;
    core.to_owned()
}

impl Config {
    /// Reads the configuration from the variables of the environment.
    /// `listen_is_address` says whether `listen_text` is a socket address.
    pub fn from_env(vars: &Vec<(String, String)>, listen_is_address: bool) -> (out: Result<
        Self,
        ConfigError,
    >)
        ensures
            match out {
                Ok(config) => environment_fault(vars@, listen_is_address) is None && config@
                    == environment_values(vars@),
                Err(e) => environment_fault(vars@, listen_is_address) == Some(e@),
            },
    {
        if !listen_is_address {
            return Err(
                ConfigError::Invalid {
                    name: "INGEST_LISTEN",
                    expected: "socket address",
                    value: optional(vars, "INGEST_LISTEN", "0.0.0.0:8080"),
                },
            );
        }
        let listen = listen_text(vars);
        let host = match required(vars, "INGEST_DB_HOST") {
            Ok(value) => value,
            Err(e) => return Err(e),
        };
        let port: u16 = match parsed_number(
            vars,
            "INGEST_DB_PORT",
            "port number",
            "5432",
            u16::MAX as u64,
        ) {
            Ok(n) => n as u16,
            Err(e) => return Err(e),
        };
        let name = match required(vars, "INGEST_DB_NAME") {
            Ok(value) => value,
            Err(e) => return Err(e),
        };
        let user = match required(vars, "INGEST_DB_USER") {
            Ok(value) => value,
            Err(e) => return Err(e),
        };
        let password = match required(vars, "INGEST_DB_PASSWORD") {
            Ok(value) => value,
            Err(e) => return Err(e),
        };
        let pool_max: u32 = match parsed_number(
            vars,
            "INGEST_DB_POOL_MAX",
            "integer",
            "10",
            u32::MAX as u64,
        ) {
            Ok(n) => n as u32,
            Err(e) => return Err(e),
        };
        let connect_timeout_secs: u64 = match parsed_number(
            vars,
            "INGEST_DB_CONNECT_TIMEOUT_SECS",
            "integer",
            "3",
            u64::MAX,
        ) {
            Ok(n) => n,
            Err(e) => return Err(e),
        };
        let cache_per_sensor: usize = match parsed_number(
            vars,
            "INGEST_CACHE_PER_SENSOR",
            "integer",
            "2000",
            usize::MAX as u64,
        ) {
            Ok(n) => n as usize,
            Err(e) => return Err(e),
        };
        let cache_max_sensors: usize = match parsed_number(
            vars,
            "INGEST_CACHE_MAX_SENSORS",
            "integer",
            "128",
            usize::MAX as u64,
        ) {
            Ok(n) => n as usize,
            Err(e) => return Err(e),
        };
        let warm_on_start: bool = match parsed_flag(
            vars,
            "INGEST_WARM_ON_START",
            "boolean",
            "true",
        ) {
            Ok(b) => b,
            Err(e) => return Err(e),
        };
        let retention_hours: u32 = match parsed_number(
            vars,
            "INGEST_RETENTION_HOURS",
            "integer",
            "1",
            u32::MAX as u64,
        ) {
            Ok(n) => n as u32,
            Err(e) => return Err(e),
        };
        if find(vars, "INGEST_CACHE_MAX_SENSORS").is_some() {
            if let Err(e) = validate_cache_limits(cache_per_sensor, cache_max_sensors) {
                return Err(e);
            }
        }
        Ok(
            Config {
                listen,
                db: DbConfig { host, port, name, user, password, pool_max, connect_timeout_secs },
                cache_per_sensor,
                cache_max_sensors,
                warm_on_start,
                retention_hours,
                otlp_endpoint: optional(
                    vars,
                    "OTEL_EXPORTER_OTLP_ENDPOINT",
                    "http://localhost:4318",
                ),
                service_name: optional(vars, "OTEL_SERVICE_NAME", "telemetry-ingest"),
            },
        )
    }
}

/// Nothing stands in for a host, a database or a credential: an environment
/// that leaves one of them out or blank is refused.
pub proof fn law_no_fallback_for_hosts_and_credentials(
    vars: Seq<(String, String)>,
    listen_is_address: bool,
)
    requires
        given(vars, "INGEST_DB_HOST"@) is None || given(vars, "INGEST_DB_NAME"@) is None || given(
            vars,
            "INGEST_DB_USER"@,
        ) is None || given(vars, "INGEST_DB_PASSWORD"@) is None,
    ensures
        environment_fault(vars, listen_is_address) is Some,
{
}

/// A configuration that is accepted has cache limits within the budget, if it
/// asks for a sensor limit, and names a host, a database and a credential.
pub proof fn law_accepted_limits_fit(vars: Seq<(String, String)>, listen_is_address: bool)
    requires
        environment_fault(vars, listen_is_address) is None,
    ensures
        given(vars, "INGEST_CACHE_MAX_SENSORS"@) is Some ==> limits_fit(
            environment_values(vars).cache_per_sensor,
            environment_values(vars).cache_max_sensors,
        ),
        environment_values(vars).host.len() > 0,
        environment_values(vars).name.len() > 0,
        environment_values(vars).user.len() > 0,
        environment_values(vars).password.len() > 0,
{
    lemma_given_is_not_empty(vars, "INGEST_DB_HOST"@);
    lemma_given_is_not_empty(vars, "INGEST_DB_NAME"@);
    lemma_given_is_not_empty(vars, "INGEST_DB_USER"@);
    lemma_given_is_not_empty(vars, "INGEST_DB_PASSWORD"@);
}

/// Without a sensor limit, an environment whose other variables are in order
/// is accepted with any per-sensor limit that is a number.
pub proof fn law_any_per_sensor_limit_is_accepted(vars: Seq<(String, String)>)
    requires
        given(vars, "INGEST_CACHE_MAX_SENSORS"@) is None,
        given(vars, "INGEST_DB_HOST"@) is Some,
        given(vars, "INGEST_DB_NAME"@) is Some,
        given(vars, "INGEST_DB_USER"@) is Some,
        given(vars, "INGEST_DB_PASSWORD"@) is Some,
        port_value(vars) is Ok,
        pool_max_value(vars) is Ok,
        connect_timeout_value(vars) is Ok,
        per_sensor_value(vars) is Ok,
        warm_value(vars) is Ok,
        retention_value(vars) is Ok,
    ensures
        environment_fault(vars, true) is None,
{
    lemma_defaults();
}

proof fn lemma_given_is_not_empty(vars: Seq<(String, String)>, name: Seq<char>)
    ensures
        given(vars, name) matches Some(value) ==> value.len() > 0,
{
}

/// The quoted form of a text with its special characters escaped.
pub uninterp spec fn debug_quoted(s: Seq<char>) -> Seq<char>;

/// The `Debug` form of `str`: the text in double quotes with its special
/// characters escaped. Only that it depends on the text alone is claimed.
#[verifier::external_body]
fn debug_quote(s: &str) -> (quoted: String)
    ensures
        quoted@ == debug_quoted(s@),
{
    format!("{:?}", s)
}

/// What an invalid value is reported as, its quoted form given.
pub open spec fn invalid_text(name: Seq<char>, expected: Seq<char>, quoted: Seq<char>) -> Seq<
    char,
> {
    name + " is not a valid "@ + expected + ": "@ + quoted
}

/// What an invalid value is reported as, its quoted form given.
pub fn invalid_message(name: &str, expected: &str, quoted: &str) -> (message: String)
    ensures
        message@ == invalid_text(name@, expected@, quoted@),
        message@ == name@ + " is not a valid "@ + expected@ + ": "@ + quoted@,
{
    name.to_owned().concat(" is not a valid ").concat(expected).concat(": ").concat(quoted)
}

impl ConfigError {
    /// What the operator is told.
    pub fn message(&self) -> (message: String)
        ensures
            message@ == match self@ {
                ConfigFault::Missing(name) => name + " is required"@,
                ConfigFault::Invalid(name, expected, value) => invalid_text(
                    name,
                    expected,
                    debug_quoted(value),
                ),
            },
    {
        match self {
            ConfigError::Missing(name) => (*name).to_owned().concat(" is required"),
            ConfigError::Invalid { name, expected, value } => {
                let quoted = debug_quote(value.as_str());
                invalid_message(name, expected, quoted.as_str())
            },
        }
    }
}

/// The first variable of a name decides its value, and a name that none has is
/// not set.
pub proof fn law_the_first_of_a_name_counts(vars: Seq<(String, String)>, name: Seq<char>, i: int)
    requires
        0 <= i <= vars.len(),
        forall|k: int| 0 <= k < i ==> (#[trigger] vars[k]).0@ != name,
    ensures
        i < vars.len() && vars[i].0@ == name ==> lookup(vars, name) == Some(vars[i].1@),
        i == vars.len() ==> lookup(vars, name) is None,
    decreases i,
{
    if i > 0 {
        assert(vars[0].0@ != name);
        let rest = vars.drop_first();
        assert forall|k: int| 0 <= k < i - 1 implies (#[trigger] rest[k]).0@ != name by {
            assert(rest[k] == vars[k + 1]);
        }
        law_the_first_of_a_name_counts(rest, name, i - 1);
    }
}

/// A variable that is set to blanks counts as not set; any other has exactly
/// the value it was given, and a default stands in for nothing else.
pub proof fn law_blank_variables_count_as_unset(
    vars: Seq<(String, String)>,
    name: Seq<char>,
    default: Seq<char>,
)
    ensures
        given(vars, name) == match lookup(vars, name) {
            Some(value) => if text::trimmed(value) == Seq::<char>::empty() {
                None
            } else {
                Some(value)
            },
            None => None,
        },
        given(vars, name) is None ==> given_or(vars, name, default) == default,
        given(vars, name) is Some ==> Some(given_or(vars, name, default)) == lookup(vars, name),
{
    if let Some(value) = lookup(vars, name) {
        if text::trimmed(value).len() == 0 {
            assert(text::trimmed(value) =~= Seq::<char>::empty());
        }
    }
}

/// What a variable is taken for: its text as it stands where it has to be set,
/// and otherwise the number or the boolean between its blanks. A fault names
/// the variable, what was expected and the text as it stands.
pub proof fn law_variables_are_read_as_their_kind(
    vars: Seq<(String, String)>,
    name: Seq<char>,
    expected: Seq<char>,
    default: Seq<char>,
    max: nat,
)
    ensures
        ({
            let value = match given(vars, name) {
                Some(value) => value,
                None => default,
            };
            let fault = ConfigFault::Invalid(name, expected, value);
            &&& required_value(vars, name) == match given(vars, name) {
                Some(value) => Ok::<_, ConfigFault>(value),
                None => Err(ConfigFault::Missing(name)),
            }
            &&& number_value(vars, name, expected, default, max) == match text::unsigned_value(
                text::trimmed(value),
                max,
            ) {
                Some(n) => Ok::<_, ConfigFault>(n),
                None => Err(fault),
            }
            &&& flag_value(vars, name, expected, default) == match text::bool_value(
                text::trimmed(value),
            ) {
                Some(b) => Ok::<_, ConfigFault>(b),
                None => Err(fault),
            }
        }),
{
}

proof fn lemma_defaults()
    ensures
        forall|max: nat| max >= 5432 ==> #[trigger] text::unsigned_value(text::trimmed("5432"@), max) == Some(5432nat),
        forall|max: nat| max >= 10 ==> #[trigger] text::unsigned_value(text::trimmed("10"@), max) == Some(10nat),
        forall|max: nat| max >= 3 ==> #[trigger] text::unsigned_value(text::trimmed("3"@), max) == Some(3nat),
        forall|max: nat| max >= 2000 ==> #[trigger] text::unsigned_value(text::trimmed("2000"@), max) == Some(2000nat),
        forall|max: nat| max >= 128 ==> #[trigger] text::unsigned_value(text::trimmed("128"@), max) == Some(128nat),
        forall|max: nat| max >= 1 ==> #[trigger] text::unsigned_value(text::trimmed("1"@), max) == Some(1nat),
        text::bool_value(text::trimmed("true"@)) == Some(true),
{
    reveal_strlit("5432");
    reveal_strlit("10");
    reveal_strlit("3");
    reveal_strlit("2000");
    reveal_strlit("128");
    reveal_strlit("1");
    reveal_strlit("true");
    reveal_with_fuel(text::digits_value, 5);
    text::law_trimmed_is_the_core("5432"@, 0, 4);
    assert("5432"@.subrange(0, 4) =~= "5432"@);
    assert(text::all_digits("5432"@));
    assert(text::digits_value("5432"@) == 5432);
    text::law_trimmed_is_the_core("10"@, 0, 2);
    assert("10"@.subrange(0, 2) =~= "10"@);
    assert(text::all_digits("10"@));
    assert(text::digits_value("10"@) == 10);
    text::law_trimmed_is_the_core("3"@, 0, 1);
    assert("3"@.subrange(0, 1) =~= "3"@);
    assert(text::all_digits("3"@));
    assert(text::digits_value("3"@) == 3);
    text::law_trimmed_is_the_core("2000"@, 0, 4);
    assert("2000"@.subrange(0, 4) =~= "2000"@);
    assert(text::all_digits("2000"@));
    assert(text::digits_value("2000"@) == 2000);
    text::law_trimmed_is_the_core("128"@, 0, 3);
    assert("128"@.subrange(0, 3) =~= "128"@);
    assert(text::all_digits("128"@));
    assert(text::digits_value("128"@) == 128);
    text::law_trimmed_is_the_core("1"@, 0, 1);
    assert("1"@.subrange(0, 1) =~= "1"@);
    assert(text::all_digits("1"@));
    assert(text::digits_value("1"@) == 1);
    text::law_trimmed_is_the_core("true"@, 0, 4);
    assert("true"@.subrange(0, 4) =~= "true"@);
}

/// What every variable configures: its default if it is not set, and otherwise
/// what its own text says. Hosts, names and credentials are taken as they
/// stand, and so are the collector and the service name.
pub proof fn law_every_variable_configures_its_own_value(vars: Seq<(String, String)>)
    ensures
        ({
            let config = environment_values(vars);
            &&& given(vars, "INGEST_LISTEN"@) is None ==> config.listen == text::trimmed(
                "0.0.0.0:8080"@,
            )
            &&& given(vars, "INGEST_LISTEN"@) matches Some(v) ==> config.listen
                == text::trimmed(v)
            &&& given(vars, "INGEST_DB_HOST"@) matches Some(v) ==> config.host == v
            &&& given(vars, "INGEST_DB_NAME"@) matches Some(v) ==> config.name == v
            &&& given(vars, "INGEST_DB_USER"@) matches Some(v) ==> config.user == v
            &&& given(vars, "INGEST_DB_PASSWORD"@) matches Some(v) ==> config.password == v
            &&& given(vars, "INGEST_WARM_ON_START"@) is None ==> config.warm_on_start
            &&& given(vars, "INGEST_WARM_ON_START"@) matches Some(v) ==> {
                &&& text::trimmed(v) == "true"@ ==> config.warm_on_start
                &&& text::trimmed(v) == "false"@ ==> !config.warm_on_start
            }
            &&& given(vars, "OTEL_EXPORTER_OTLP_ENDPOINT"@) is None ==> config.otlp_endpoint
                == "http://localhost:4318"@
            &&& given(vars, "OTEL_EXPORTER_OTLP_ENDPOINT"@) matches Some(v)
                ==> config.otlp_endpoint == v
            &&& given(vars, "OTEL_SERVICE_NAME"@) is None ==> config.service_name
                == "telemetry-ingest"@
            &&& given(vars, "OTEL_SERVICE_NAME"@) matches Some(v) ==> config.service_name == v
        }),
{
    lemma_defaults();
    if let Some(v) = given(vars, "INGEST_WARM_ON_START"@) {
        text::law_two_words_are_booleans(text::trimmed(v));
    }
}

/// What every number configures: its default if it is not set, and otherwise
/// the number between its blanks.
pub proof fn law_every_number_configures_its_own_value(vars: Seq<(String, String)>)
    ensures
        ({
            let config = environment_values(vars);
            &&& given(vars, "INGEST_DB_PORT"@) is None ==> config.port == 5432
            &&& given(vars, "INGEST_DB_PORT"@) matches Some(v) ==> {
                &&& text::unsigned_value(text::trimmed(v), u16::MAX as nat) matches Some(n) ==> config.port == n
            }
            &&& given(vars, "INGEST_DB_POOL_MAX"@) is None ==> config.pool_max == 10
            &&& given(vars, "INGEST_DB_POOL_MAX"@) matches Some(v) ==> {
                &&& text::unsigned_value(text::trimmed(v), u32::MAX as nat) matches Some(n) ==> config.pool_max == n
            }
            &&& given(vars, "INGEST_DB_CONNECT_TIMEOUT_SECS"@) is None ==> config.connect_timeout_secs == 3
            &&& given(vars, "INGEST_DB_CONNECT_TIMEOUT_SECS"@) matches Some(v) ==> {
                &&& text::unsigned_value(text::trimmed(v), u64::MAX as nat) matches Some(n) ==> config.connect_timeout_secs == n
            }
            &&& given(vars, "INGEST_CACHE_PER_SENSOR"@) is None ==> config.cache_per_sensor == 2000
            &&& given(vars, "INGEST_CACHE_PER_SENSOR"@) matches Some(v) ==> {
                &&& text::unsigned_value(text::trimmed(v), usize::MAX as nat) matches Some(n) ==> config.cache_per_sensor == n
            }
            &&& given(vars, "INGEST_CACHE_MAX_SENSORS"@) is None ==> config.cache_max_sensors == 128
            &&& given(vars, "INGEST_CACHE_MAX_SENSORS"@) matches Some(v) ==> {
                &&& text::unsigned_value(text::trimmed(v), usize::MAX as nat) matches Some(n) ==> config.cache_max_sensors == n
            }
            &&& given(vars, "INGEST_RETENTION_HOURS"@) is None ==> config.retention_hours == 1
            &&& given(vars, "INGEST_RETENTION_HOURS"@) matches Some(v) ==> {
                &&& text::unsigned_value(text::trimmed(v), u32::MAX as nat) matches Some(n) ==> config.retention_hours == n
            }
        }),
{
    lemma_defaults();
}

/// The variable is not set, or to a number of at most `max`.
pub open spec fn sound_number(
    vars: Seq<(String, String)>,
    name: Seq<char>,
    max: nat,
) -> bool {
    given(vars, name) matches Some(value) ==> text::unsigned_value(text::trimmed(value), max)
        is Some
}

/// The environment is looked at in a fixed order, and the first thing that is
/// wrong is what it is refused for: a variable that has to be set and is not,
/// or one that is set to what cannot be read. It is accepted exactly if
/// nothing is wrong.
pub proof fn law_the_first_fault_is_reported(vars: Seq<(String, String)>, listen_is_address: bool)
    ensures
        ({
            let fault = environment_fault(vars, listen_is_address);
            let host = listen_is_address && given(vars, "INGEST_DB_HOST"@) is Some;
            let port = host && sound_number(vars, "INGEST_DB_PORT"@, 65_535);
            let name = port && given(vars, "INGEST_DB_NAME"@) is Some;
            let user = name && given(vars, "INGEST_DB_USER"@) is Some;
            let password = user && given(vars, "INGEST_DB_PASSWORD"@) is Some;
            let pool = password && sound_number(vars, "INGEST_DB_POOL_MAX"@, u32::MAX as nat);
            let timeout = pool && sound_number(
                vars,
                "INGEST_DB_CONNECT_TIMEOUT_SECS"@,
                u64::MAX as nat,
            );
            let per_sensor = timeout && sound_number(
                vars,
                "INGEST_CACHE_PER_SENSOR"@,
                usize::MAX as nat,
            );
            let sensors = per_sensor && sound_number(
                vars,
                "INGEST_CACHE_MAX_SENSORS"@,
                usize::MAX as nat,
            );
            let warm = sensors && (given(vars, "INGEST_WARM_ON_START"@) matches Some(value)
                ==> text::trimmed(value) == "true"@ || text::trimmed(value) == "false"@);
            let retention = warm && sound_number(
                vars,
                "INGEST_RETENTION_HOURS"@,
                u32::MAX as nat,
            );
            let p = environment_values(vars).cache_per_sensor;
            let q = environment_values(vars).cache_max_sensors;
            let fits = given(vars, "INGEST_CACHE_MAX_SENSORS"@) is None || (p > 0 && 0 < q <= 4096
                && p * q <= 262_144);
            &&& !listen_is_address ==> fault == Some(
                ConfigFault::Invalid(
                    "INGEST_LISTEN"@,
                    "socket address"@,
                    match given(vars, "INGEST_LISTEN"@) {
                        Some(value) => value,
                        None => "0.0.0.0:8080"@,
                    },
                ),
            )
            &&& listen_is_address && !host ==> fault == Some(
                ConfigFault::Missing("INGEST_DB_HOST"@),
            )
            &&& host && !port ==> fault == Some(
                ConfigFault::Invalid(
                    "INGEST_DB_PORT"@,
                    "port number"@,
                    given(vars, "INGEST_DB_PORT"@)->Some_0,
                ),
            )
            &&& port && !name ==> fault == Some(ConfigFault::Missing("INGEST_DB_NAME"@))
            &&& name && !user ==> fault == Some(ConfigFault::Missing("INGEST_DB_USER"@))
            &&& user && !password ==> fault == Some(ConfigFault::Missing("INGEST_DB_PASSWORD"@))
            &&& password && !pool ==> fault == Some(
                ConfigFault::Invalid(
                    "INGEST_DB_POOL_MAX"@,
                    "integer"@,
                    given(vars, "INGEST_DB_POOL_MAX"@)->Some_0,
                ),
            )
            &&& pool && !timeout ==> fault == Some(
                ConfigFault::Invalid(
                    "INGEST_DB_CONNECT_TIMEOUT_SECS"@,
                    "integer"@,
                    given(vars, "INGEST_DB_CONNECT_TIMEOUT_SECS"@)->Some_0,
                ),
            )
            &&& timeout && !per_sensor ==> fault == Some(
                ConfigFault::Invalid(
                    "INGEST_CACHE_PER_SENSOR"@,
                    "integer"@,
                    given(vars, "INGEST_CACHE_PER_SENSOR"@)->Some_0,
                ),
            )
            &&& per_sensor && !sensors ==> fault == Some(
                ConfigFault::Invalid(
                    "INGEST_CACHE_MAX_SENSORS"@,
                    "integer"@,
                    given(vars, "INGEST_CACHE_MAX_SENSORS"@)->Some_0,
                ),
            )
            &&& sensors && !warm ==> fault == Some(
                ConfigFault::Invalid(
                    "INGEST_WARM_ON_START"@,
                    "boolean"@,
                    given(vars, "INGEST_WARM_ON_START"@)->Some_0,
                ),
            )
            &&& warm && !retention ==> fault == Some(
                ConfigFault::Invalid(
                    "INGEST_RETENTION_HOURS"@,
                    "integer"@,
                    given(vars, "INGEST_RETENTION_HOURS"@)->Some_0,
                ),
            )
            &&& retention && !fits ==> fault == Some(
                ConfigFault::Invalid(
                    "INGEST_CACHE_PER_SENSOR/INGEST_CACHE_MAX_SENSORS"@,
                    "positive cache limits with at most 4096 sensors and 262144 total readings"@,
                    text::decimal(p) + "/"@ + text::decimal(q),
                ),
            )
            &&& retention && fits <==> fault is None
        }),
{
    lemma_defaults();
    if let Some(value) = given(vars, "INGEST_WARM_ON_START"@) {
        text::law_two_words_are_booleans(text::trimmed(value));
    }
}

/// A configuration is seen as it stands, each part as itself.
pub proof fn law_configurations_are_seen_as_they_stand(config: Config)
    ensures
        config@.listen == config.listen@,
        config@.host == config.db.host@,
        config@.port == config.db.port,
        config@.name == config.db.name@,
        config@.user == config.db.user@,
        config@.password == config.db.password@,
        config@.pool_max == config.db.pool_max,
        config@.connect_timeout_secs == config.db.connect_timeout_secs,
        config@.cache_per_sensor == config.cache_per_sensor,
        config@.cache_max_sensors == config.cache_max_sensors,
        config@.warm_on_start == config.warm_on_start,
        config@.retention_hours == config.retention_hours,
        config@.otlp_endpoint == config.otlp_endpoint@,
        config@.service_name == config.service_name@,
{
}

/// An error is seen as it stands.
pub proof fn law_config_errors_are_seen_as_they_stand(error: ConfigError)
    ensures
        error matches ConfigError::Missing(name) ==> error@ == ConfigFault::Missing(name@),
        error matches ConfigError::Invalid { name, expected, value } ==> error@
            == ConfigFault::Invalid(name@, expected@, value@),
{
}

/// Cache limits fit if they are positive, ask for at most 4096 sensors and for
/// at most 262144 readings in all.
pub proof fn law_limits_fit_the_budget(per_sensor: nat, max_sensors: nat)
    ensures
        limits_fit(per_sensor, max_sensors) <==> (per_sensor > 0 && 0 < max_sensors <= 4096
            && per_sensor * max_sensors <= 262_144),
{
}

} // verus!
