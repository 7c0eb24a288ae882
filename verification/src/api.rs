//! What each request is answered: parsing at the boundary, the calls to the
//! cache, and the mapping of failures to status codes.
use crate::buffer;
use crate::cache::{Cache, CacheStats};
use crate::db::{DbError, PoolStats};
use crate::readings;
use crate::readings::{Batch, BatchInput, Reading, SensorId, ValidationError};
use crate::text;
use crate::timestamp::Timestamp;
use vstd::prelude::*;
use vstd::string::*;

verus! {

/// Why a request was not served.
#[derive(Debug)]
pub enum ApiError {
    Validation(ValidationError),
    UnknownSensor(SensorId),
    DbUnavailable,
    BadQuery(&'static str),
}

/// The body of an error response.
#[derive(Debug)]
pub struct ErrorBody {
    pub error: String,
}

/// An error response.
#[derive(Debug)]
pub struct ErrorResponse {
    pub status: u16,
    pub body: ErrorBody,
}

impl ApiError {
    /// A request at fault is answered 400, a sensor that is not in the cache
    /// 404, and a database that does not answer 503.
    pub open spec fn status_code(self) -> u16 {
        match self {
            ApiError::Validation(_) => 400,
            ApiError::BadQuery(_) => 400,
            ApiError::UnknownSensor(_) => 404,
            ApiError::DbUnavailable => 503,
        }
    }

    /// What the client is told.
    pub open spec fn text(self) -> Seq<char> {
        match self {
            ApiError::Validation(e) => e.text(),
            ApiError::BadQuery(message) => message@,
            ApiError::UnknownSensor(id) => "unknown sensor "@ + id@,
            ApiError::DbUnavailable => "database unavailable"@,
        }
    }

    /// The response to send.
    pub fn into_response(self) -> (response: ErrorResponse)
        ensures
            response.status == self.status_code(),
            response.body.error@ == self.text(),
    {
        match self {
            ApiError::Validation(e) => ErrorResponse {
                status: 400,
                body: ErrorBody { error: e.message() },
            },
            ApiError::BadQuery(message) => ErrorResponse {
                status: 400,
                body: ErrorBody { error: message.to_owned() },
            },
            ApiError::UnknownSensor(id) => ErrorResponse {
                status: 404,
                body: ErrorBody { error: "unknown sensor ".to_owned().concat(id.as_str()) },
            },
            ApiError::DbUnavailable => ErrorResponse {
                status: 503,
                body: ErrorBody { error: "database unavailable".to_owned() },
            },
        }
    }
}

/// The body of the answer to an accepted batch.
#[derive(Clone, Copy, Debug, PartialEq, Eq, Structural)]
pub struct Accepted {
    pub accepted: usize,
}

impl Accepted {
    /// The status an accepted batch is answered with.
    pub fn status(&self) -> (status: u16)
        ensures
            status == 202,
    {
        202
    }
}

/// The batch to write to the database, or why the request is refused.
pub fn begin_ingest(input: BatchInput) -> (out: Result<Batch, ApiError>)
    ensures
        match readings::checked_batch(input.readings@) {
            Ok(pairs) => out matches Ok(batch) && batch@ == pairs,
            Err(e) => out == Err::<Batch, _>(ApiError::Validation(e)),
        },
        out matches Ok(batch) ==> {
            &&& batch.0@.len() == input.readings@.len()
            &&& forall|i: int|
                0 <= i < batch.0@.len() ==> {
                    let (id, reading) = #[trigger] batch.0@[i];
                    &&& id@ == text::trimmed(input.readings@[i].sensor_id@)
                    &&& reading.ts == input.readings@[i].ts
                    &&& reading.value == input.readings@[i].value
                    &&& reading.unit == input.readings@[i].unit
                }
        },
{
    match Batch::parse(input) {
        Ok(batch) => Ok(batch),
        Err(e) => Err(ApiError::Validation(e)),
    }
}

/// What the client of a batch is answered once the database was asked to
/// store it.
pub open spec fn ingest_answer(
    batch: Seq<(Seq<char>, Reading)>,
    written: Result<(), DbError>,
) -> Result<Accepted, ApiError> {
    match written {
        Ok(()) => Ok(Accepted { accepted: batch.len() as usize }),
        Err(_) => Err(ApiError::DbUnavailable),
    }
}

/// The answer once the database was asked to store the batch. The cache takes
/// the readings only after they were persisted; a failed write leaves it as it
/// was.
pub fn finish_ingest(cache: &mut Cache, batch: &Batch, written: Result<(), DbError>) -> (out:
    Result<Accepted, ApiError>)
    requires
        old(cache).wf(),
    ensures
        final(cache).wf(),
        out == ingest_answer(batch@, written),
        out matches Ok(answer) ==> answer.accepted == batch@.len(),
        written is Ok ==> {
            &&& final(cache)@ == old(cache)@.inserted_all(batch@)
            &&& final(cache).live() == old(cache)@.live_after_all(old(cache).live(), batch@, true)
        },
        written is Err ==> *final(cache) == *old(cache),
{
    match written {
        Ok(()) => {
            cache.insert_pairs(&batch.0);
            Ok(Accepted { accepted: batch.len() })
        },
        Err(_) => Err(ApiError::DbUnavailable),
    }
}

/// The parameters of `GET /readings/latest`.
#[derive(Debug)]
pub struct LatestParams {
    pub sensor: String,
    pub limit: usize,
}

/// Readings returned by `latest` when the request names no limit.
pub fn default_latest_limit() -> (limit: usize)
    ensures
        limit == 100,
{
    100
}

/// The readings of one sensor.
#[derive(Debug)]
pub struct SensorReadings {
    pub sensor_id: SensorId,
    pub readings: Vec<Reading>,
}

/// `n` held between `low` and `high`.
pub open spec fn clamped(n: int, low: int, high: int) -> int {
    if n < low {
        low
    } else if n > high {
        high
    } else {
        n
    }
}

/// The newest readings of one sensor, from the cache.
pub fn latest(cache: &Cache, params: LatestParams) -> (out: Result<SensorReadings, ApiError>)
    requires
        cache.wf(),
    ensures
        match readings::checked_id(params.sensor@) {
            Err(e) => out == Err::<SensorReadings, _>(ApiError::Validation(e)),
            Ok(id) => if cache@.resident(id) {
                out matches Ok(found) && {
                    &&& found.sensor_id@ == id
                    &&& found.readings@ == buffer::newest_first(
                        cache@.buffers[id],
                        clamped(params.limit as int, 1, 10_000) as nat,
                    )
                }
            } else {
                out matches Err(ApiError::UnknownSensor(sensor)) && sensor@ == id
            },
        },
        out is Ok <==> {
            &&& 1 <= text::trimmed(params.sensor@).len() <= 64
            &&& cache@.buffers.contains_key(text::trimmed(params.sensor@))
        },
        out matches Ok(found) ==> {
            let held = cache@.buffers[text::trimmed(params.sensor@)];
            let most: int = if params.limit < 1 {
                1
            } else if params.limit > 10_000 {
                10_000
            } else {
                params.limit as int
            };
            &&& found.sensor_id@ == text::trimmed(params.sensor@)
            &&& found.readings@.len() == if most < held.len() {
                most
            } else {
                held.len() as int
            }
            &&& forall|i: int|
                0 <= i < found.readings@.len() ==> #[trigger] found.readings@[i]
                    == held[held.len() - 1 - i]
        },
{
    let sensor = match SensorId::parse(params.sensor.as_str()) {
        Ok(sensor) => sensor,
        Err(e) => return Err(ApiError::Validation(e)),
    };
    let limit: usize = if params.limit < 1 {
        1
    } else if params.limit > 10_000 {
        10_000
    } else {
        params.limit
    };
    match cache.latest(&sensor, limit) {
        Some(readings) => Ok(SensorReadings { sensor_id: sensor, readings }),
        None => Err(ApiError::UnknownSensor(sensor)),
    }
}

/// The parameters of `GET /readings/query`.
#[derive(Debug)]
pub struct QueryParams {
    pub sensor: String,
    pub from: Timestamp,
    pub to: Timestamp,
    pub limit: i64,
}

/// Readings returned by `query` when the request names no limit.
pub fn default_query_limit() -> (limit: i64)
    ensures
        limit == 1000,
{
    1000
}

/// What to ask the database for.
#[derive(Debug)]
pub struct RangeQuery {
    pub sensor: SensorId,
    pub from: Timestamp,
    pub to: Timestamp,
    pub limit: i64,
}

/// What to ask the database for, or why the request is refused.
pub fn begin_query(params: QueryParams) -> (out: Result<RangeQuery, ApiError>)
    ensures
        match readings::checked_id(params.sensor@) {
            Err(e) => out == Err::<RangeQuery, _>(ApiError::Validation(e)),
            Ok(id) => if params.from.at() > params.to.at() {
                out matches Err(ApiError::BadQuery(message)) && message@
                    == "from must not be after to"@
            } else {
                out matches Ok(query) && {
                    &&& query.sensor@ == id
                    &&& query.from == params.from
                    &&& query.to == params.to
                    &&& query.limit == clamped(params.limit as int, 1, 100_000)
                }
            },
        },
        out is Ok <==> {
            &&& 1 <= text::trimmed(params.sensor@).len() <= 64
            &&& params.from.at() <= params.to.at()
        },
        out matches Ok(query) ==> {
            &&& query.sensor@ == text::trimmed(params.sensor@)
            &&& 1 <= query.limit <= 100_000
            &&& 1 <= params.limit <= 100_000 ==> query.limit == params.limit
            &&& params.limit < 1 ==> query.limit == 1
            &&& params.limit > 100_000 ==> query.limit == 100_000
        },
{
    let sensor = match SensorId::parse(params.sensor.as_str()) {
        Ok(sensor) => sensor,
        Err(e) => return Err(ApiError::Validation(e)),
    };
    if params.from.instant() > params.to.instant() {
        return Err(ApiError::BadQuery("from must not be after to"));
    }
    let limit: i64 = if params.limit < 1 {
        1
    } else if params.limit > 100_000 {
        100_000
    } else {
        params.limit
    };
    Ok(RangeQuery { sensor, from: params.from, to: params.to, limit })
}

/// What the client of a query is answered once the database was asked.
pub open spec fn query_answer(
    sensor: SensorId,
    found: Result<Vec<Reading>, DbError>,
) -> Result<SensorReadings, ApiError> {
    match found {
        Ok(readings) => Ok(SensorReadings { sensor_id: sensor, readings }),
        Err(_) => Err(ApiError::DbUnavailable),
    }
}

/// The answer once the database was asked.
pub fn finish_query(sensor: SensorId, found: Result<Vec<Reading>, DbError>) -> (out: Result<
    SensorReadings,
    ApiError,
>)
    ensures
        out == query_answer(sensor, found),
{
    match found {
        Ok(readings) => Ok(SensorReadings { sensor_id: sensor, readings }),
        Err(_) => Err(ApiError::DbUnavailable),
    }
}

/// Whatever the database failed at, a schema that is not there yet among it,
/// the client is answered 503 and told that the database is unavailable.
pub proof fn law_database_failures_are_answered_503(
    batch: Seq<(Seq<char>, Reading)>,
    sensor: SensorId,
    failure: DbError,
)
    ensures
        ingest_answer(batch, Err(failure)) matches Err(e) && e.status_code() == 503 && e.text()
            == "database unavailable"@,
        query_answer(sensor, Err(failure)) matches Err(e) && e.status_code() == 503 && e.text()
            == "database unavailable"@,
{
}

/// Cache and pool sizes.
#[derive(Clone, Copy, Debug, PartialEq, Eq, Structural)]
pub struct Stats {
    pub cache: CacheStats,
    pub db: PoolStats,
}

/// The answer to `GET /stats`.
pub fn stats(cache: &Cache, db: PoolStats) -> (stats: Stats)
    requires
        cache.wf(),
    ensures
        stats.cache.sensors == cache@.buffers.dom().len(),
        stats.cache.readings == cache@.reading_count(),
        stats.cache.bytes == readings::word(cache@.byte_count()),
        stats.db == db,
{
    Stats { cache: cache.stats(), db }
}

/// The answer to `GET /healthz`, whatever the state of the service.
pub fn healthz() -> (body: &'static str)
    ensures
        body@ == "ok"@,
{
    "ok"
}

/// The answer to `GET /readyz`: it depends on the listener alone.
pub fn readyz(listening: bool) -> (answer: (u16, &'static str))
    ensures
        answer.0 == if listening {
            200u16
        } else {
            503u16
        },
        answer.1@ == if listening {
            "ready"@
        } else {
            "starting"@
        },
{
    if listening {
        (200, "ready")
    } else {
        (503, "starting")
    }
}

/// Each kind of error has its own answer: 400 with the reason for a request at
/// fault, 404 with its name for a sensor that is not in the cache, 503 for the
/// database.
pub proof fn law_errors_are_answered_by_kind(
    refused: ValidationError,
    sensor: SensorId,
    message: &'static str,
)
    ensures
        ApiError::Validation(refused).status_code() == 400,
        ApiError::Validation(refused).text() == refused.text(),
        ApiError::BadQuery(message).status_code() == 400,
        ApiError::BadQuery(message).text() == message@,
        ApiError::UnknownSensor(sensor).status_code() == 404,
        ApiError::UnknownSensor(sensor).text() == "unknown sensor "@ + sensor@,
        ApiError::DbUnavailable.status_code() == 503,
        ApiError::DbUnavailable.text() == "database unavailable"@,
{
}

/// A number held between two bounds stays what it is if it lies there, and is
/// otherwise the bound it is closest to.
pub proof fn law_a_number_is_held_between_its_bounds(n: int, low: int, high: int)
    requires
        low <= high,
    ensures
        low <= clamped(n, low, high) <= high,
        low <= n <= high ==> clamped(n, low, high) == n,
        n < low ==> clamped(n, low, high) == low,
        n > high ==> clamped(n, low, high) == high,
{
}

/// What was written is answered with how many readings it were, and what was
/// found with the sensor asked for and its readings as the database gave them.
pub proof fn law_successes_are_answered_in_full(
    batch: Seq<(Seq<char>, Reading)>,
    sensor: SensorId,
    found: Vec<Reading>,
)
    requires
        batch.len() <= usize::MAX,
    ensures
        ingest_answer(batch, Ok(())) matches Ok(answer) && answer.accepted == batch.len(),
        query_answer(sensor, Ok(found)) matches Ok(answer) && answer.sensor_id == sensor
            && answer.readings == found,
{
}

} // verus!
