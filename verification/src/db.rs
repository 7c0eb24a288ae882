//! The decisions around the database: what is refused before the schema is
//! ready, what rows are taken for, and when to try again.
use crate::readings;
use crate::readings::{Reading, SensorId};
use crate::residency;
use crate::residency::CacheView;
use crate::text;
use crate::timestamp::{Timestamp, Value};
use vstd::prelude::*;

verus! {

/// Why a database operation failed.
#[derive(Debug)]
pub enum DbError {
    /// The schema is not there yet.
    NotMigrated,
    /// The driver's own account of what went wrong.
    Sqlx(String),
}

impl DbError {
    /// What the log is told.
    pub open spec fn text(self) -> Seq<char> {
        match self {
            DbError::NotMigrated => "schema is not migrated yet"@,
            DbError::Sqlx(message) => message@,
        }
    }

    /// What the log is told.
    pub fn message(&self) -> (message: String)
        ensures
            message@ == self.text(),
    {
        match self {
            DbError::NotMigrated => "schema is not migrated yet".to_owned(),
            DbError::Sqlx(message) => message.clone(),
        }
    }
}

/// Every operation is refused until the schema has been migrated.
pub fn check_migrated(migrated: bool) -> (out: Result<(), DbError>)
    ensures
        out == if migrated {
            Ok(())
        } else {
            Err::<(), _>(DbError::NotMigrated)
        },
{
    if migrated {
        Ok(())
    } else {
        Err(DbError::NotMigrated)
    }
}

/// Pool sizes for `/stats` and the pool gauge.
#[derive(Clone, Copy, Debug, PartialEq, Eq, Structural)]
pub struct PoolStats {
    pub pool_size: u32,
    pub idle: usize,
}

/// Pool connections by state.
#[derive(Clone, Copy, Debug, PartialEq, Eq, Structural)]
pub struct PoolGauge {
    pub idle: u64,
    pub used: u64,
}

impl PoolStats {
    /// How many connections are idle and how many are in use; a pool that
    /// shrinks between the two counts has none in use.
    pub fn gauge(&self) -> (gauge: PoolGauge)
        ensures
            gauge.idle == self.idle,
            gauge.used == if self.pool_size >= self.idle {
                self.pool_size - self.idle
            } else {
                0
            },
    {
        let idle: u64 = self.idle as u64;
        let size: u64 = self.pool_size as u64;
        PoolGauge {
            idle,
            used: if size >= idle {
                size - idle
            } else {
                0
            },
        }
    }
}

/// One row of `readings` as read back for queries and warm-up.
#[derive(Debug)]
pub struct Row {
    pub sensor_id: String,
    pub ts: Timestamp,
    pub value: Value,
    pub unit: Option<String>,
}

impl Row {
    /// The reading in the row.
    pub open spec fn reading(self) -> Reading {
        Reading { ts: self.ts, value: self.value, unit: self.unit }
    }

    /// What the row is taken for: nothing, if its sensor has no valid name.
    pub open spec fn pair(self) -> Option<(Seq<char>, Reading)> {
        match readings::checked_id(self.sensor_id@) {
            Ok(id) => Some((id, self.reading())),
            Err(_) => None,
        }
    }

    /// The row holds this sensor and this reading.
    pub open spec fn stores(self, id: Seq<char>, reading: Reading) -> bool {
        self.sensor_id@ == id && self.reading() == reading
    }

    /// The sensor and the reading in the row, if its sensor has a valid name.
    pub fn into_reading(self) -> (out: Option<(SensorId, Reading)>)
        ensures
            match out {
                Some(pair) => self.pair() == Some((pair.0@, pair.1)),
                None => self.pair() is None,
            },
            out is Some <==> 1 <= text::trimmed(self.sensor_id@).len() <= 64,
            out matches Some(pair) ==> {
                &&& pair.0@ == text::trimmed(self.sensor_id@)
                &&& pair.1.ts == self.ts
                &&& pair.1.value == self.value
                &&& pair.1.unit == self.unit
            },
    {
        match SensorId::parse(self.sensor_id.as_str()) {
            Ok(sensor) => Some(
                (sensor, Reading { ts: self.ts, value: self.value, unit: self.unit }),
            ),
            Err(_) => None,
        }
    }
}

/// A reading of an accepted batch, stored as a row, reads back as itself
/// under the same sensor.
pub proof fn law_an_accepted_reading_reads_back(
    inputs: Seq<readings::ReadingInput>,
    i: int,
    row: Row,
)
    requires
        readings::checked_batch(inputs) is Ok,
        0 <= i < inputs.len(),
        row.stores(
            (readings::checked_batch(inputs)->Ok_0)[i].0,
            (readings::checked_batch(inputs)->Ok_0)[i].1,
        ),
    ensures
        row.pair() == Some((readings::checked_batch(inputs)->Ok_0)[i]),
{
    readings::law_accepted_readings_are_valid(inputs, i);
}

/// The sensors and readings of `rows`, without those whose sensor has no
/// valid name.
pub open spec fn pairs(rows: Seq<Row>) -> Seq<(Seq<char>, Reading)>
    decreases rows.len(),
{
    if rows.len() == 0 {
        Seq::empty()
    } else {
        match rows.last().pair() {
            Some(pair) => pairs(rows.drop_last()).push(pair),
            None => pairs(rows.drop_last()),
        }
    }
}

/// The readings of `rows`, likewise.
pub open spec fn row_readings(rows: Seq<Row>) -> Seq<Reading> {
    pairs(rows).map_values(|pair: (Seq<char>, Reading)| pair.1)
}

/// The sensors and readings of `rows`, in order.
pub fn into_pairs(rows: Vec<Row>) -> (out: Vec<(SensorId, Reading)>)
    ensures
        readings::pairs_view(out@) == pairs(rows@),
{
    let ghost all = rows@;
    let mut out: Vec<(SensorId, Reading)> = Vec::new();
    proof {
        assert(all.take(0) == Seq::<Row>::empty());
        assert(readings::pairs_view(out@) == Seq::<(Seq<char>, Reading)>::empty());
    }
    for row in it: rows
        invariant
            it.seq() == all,
            readings::pairs_view(out@) == pairs(all.take(it.index())),
    {
        proof {
            let n = it.index();
            assert(all.take(n + 1).drop_last() == all.take(n));
            assert(all.take(n + 1).last() == row);
        }
        if let Some(pair) = row.into_reading() {
            let ghost before = out@;
            out.push(pair);
            proof {
                assert(readings::pairs_view(out@) == readings::pairs_view(before).push(
                    (pair.0@, pair.1),
                ));
            }
        }
    }
    proof {
        assert(all.take(all.len() as int) == all);
    }
    out
}

/// The readings of `rows`, in order.
pub fn into_readings(rows: Vec<Row>) -> (out: Vec<Reading>)
    ensures
        out@ == row_readings(rows@),
{
    let mut out: Vec<Reading> = Vec::new();
    let ghost expected = pairs(rows@);
    let found = into_pairs(rows);
    for pair in it: found
        invariant
            readings::pairs_view(it.seq()) == expected,
            out@ == expected.take(it.index()).map_values(
                |pair: (Seq<char>, Reading)| pair.1,
            ),
    {
        let (sensor, reading) = pair;
        let ghost before = out@;
        proof {
            let n = it.index();
            assert(expected[n] == (sensor@, reading));
            assert(expected.take(n + 1) == expected.take(n).push(expected[n]));
        }
        out.push(reading);
        proof {
            let n = it.index();
            assert(out@ =~= expected.take(n + 1).map_values(|pair: (Seq<char>, Reading)| pair.1));
        }
    }
    proof {
        assert(expected.take(expected.len() as int) == expected);
    }
    out
}

/// The row was taken between `from` and `to`, both of them counted.
pub open spec fn within(row: Row, from: Timestamp, to: Timestamp) -> bool {
    from.at() <= row.ts.at() <= to.at()
}

/// A row limit as a count; one that is no count is no limit.
pub open spec fn row_limit(limit: i64) -> nat {
    if 0 <= limit <= usize::MAX {
        limit as nat
    } else {
        usize::MAX as nat
    }
}

/// The first `n` rows, or all of them.
pub open spec fn first_rows(rows: Seq<Row>, n: nat) -> Seq<Row> {
    if rows.len() > n {
        rows.take(n as int)
    } else {
        rows
    }
}

/// The rows between `from` and `to`, in order.
pub open spec fn rows_within(rows: Seq<Row>, from: Timestamp, to: Timestamp) -> Seq<Row> {
    rows.filter(|row: Row| within(row, from, to))
}

/// Applies the time bound and the limit to rows that were fetched without
/// them.
pub fn select_range(rows: Vec<Row>, from: &Timestamp, to: &Timestamp, limit: i64) -> (out: Vec<
    Row,
>)
    ensures
        out@ == first_rows(rows_within(rows@, *from, *to), row_limit(limit)),
{
    let most: usize = if limit < 0 || limit as u64 > usize::MAX as u64 {
        usize::MAX
    } else {
        limit as usize
    };
    let ghost all = rows@;
    let ghost pred = |row: Row| within(row, *from, *to);
    let earliest: i128 = from.instant();
    let last: i128 = to.instant();
    let mut out: Vec<Row> = Vec::new();
    proof {
        reveal(Seq::filter);
        assert(all.take(0) == Seq::<Row>::empty());
    }
    for row in it: rows
        invariant
            it.seq() == all,
            earliest == from.at(),
            last == to.at(),
            pred == (|row: Row| within(row, *from, *to)),
            out@ == first_rows(all.take(it.index()).filter(pred), most as nat),
    {
        proof {
            reveal(Seq::filter);
            let n = it.index();
            assert(all.take(n + 1).drop_last() == all.take(n));
            assert(all.take(n + 1).last() == row);
        }
        let at: i128 = row.ts.instant();
        if earliest <= at && at <= last && out.len() < most {
            out.push(row);
        }
    }
    proof {
        assert(all.take(all.len() as int) == all);
    }
    out
}

/// Timestamps never increase along `rows`.
pub open spec fn newest_rows_first(rows: Seq<Row>) -> bool {
    forall|i: int, j: int|
        0 <= i <= j < rows.len() ==> (#[trigger] rows[i]).ts.at() >= (#[trigger] rows[j]).ts.at()
}

proof fn lemma_selection(rows: Seq<Row>, from: Timestamp, to: Timestamp)
    ensures
        forall|i: int|
            0 <= i < rows_within(rows, from, to).len() ==> within(
                #[trigger] rows_within(rows, from, to)[i],
                from,
                to,
            ),
        newest_rows_first(rows) ==> {
            &&& newest_rows_first(rows_within(rows, from, to))
            &&& forall|i: int|
                0 <= i < rows_within(rows, from, to).len() ==> (#[trigger] rows_within(
                    rows,
                    from,
                    to,
                )[i]).ts.at() >= rows.last().ts.at()
        },
    decreases rows.len(),
{
    reveal(Seq::filter);
    if rows.len() > 0 {
        let head = rows.drop_last();
        lemma_selection(head, from, to);
        if newest_rows_first(rows) {
            assert forall|i: int, j: int| 0 <= i <= j < head.len() implies (
            #[trigger] head[i]).ts.at() >= (#[trigger] head[j]).ts.at() by {
                assert(rows[i].ts.at() >= rows[j].ts.at());
            }
            if head.len() > 0 {
                assert(rows[head.len() - 1].ts.at() >= rows[rows.len() - 1].ts.at());
            }
        }
    }
}

/// Whatever is selected lies between the bounds, is no more than the limit,
/// and stays newest first if the rows were.
pub proof fn law_selected_rows_lie_in_range(
    rows: Seq<Row>,
    from: Timestamp,
    to: Timestamp,
    limit: i64,
)
    ensures
        ({
            let chosen = first_rows(rows_within(rows, from, to), row_limit(limit));
            &&& chosen.len() <= row_limit(limit)
            &&& forall|i: int| 0 <= i < chosen.len() ==> within(#[trigger] chosen[i], from, to)
            &&& newest_rows_first(rows) ==> newest_rows_first(chosen)
        }),
{
    lemma_selection(rows, from, to);
    let all = rows_within(rows, from, to);
    let chosen = first_rows(all, row_limit(limit));
    assert forall|i: int| 0 <= i < chosen.len() implies within(#[trigger] chosen[i], from, to) by {
        assert(within(all[i], from, to));
    }
}

proof fn lemma_pairs_concat(first: Seq<Row>, second: Seq<Row>)
    ensures
        pairs(first + second) == pairs(first) + pairs(second),
    decreases second.len(),
{
    if second.len() == 0 {
        assert(first + second == first);
    } else {
        lemma_pairs_concat(first, second.drop_last());
        assert((first + second).drop_last() == first + second.drop_last());
    }
}

/// Rows fetched in two chunks fill the cache as they would in one.
pub proof fn law_chunks_fill_the_cache_as_one(
    cache: CacheView,
    first: Seq<Row>,
    second: Seq<Row>,
)
    ensures
        cache.inserted_all(pairs(first + second)) == cache.inserted_all(pairs(first)).inserted_all(
            pairs(second),
        ),
{
    lemma_pairs_concat(first, second);
    residency::law_batches_compose(cache, pairs(first), pairs(second));
}

/// The retention window as the database takes it.
pub fn prune_hours(hours: u32) -> (bound: i32)
    ensures
        bound == if hours <= i32::MAX {
            hours as int
        } else {
            i32::MAX as int
        },
{
    if hours <= i32::MAX as u32 {
        hours as i32
    } else {
        i32::MAX
    }
}

/// Seconds between two attempts to migrate the schema.
pub const MIGRATION_RETRY_SECS: u64 = 5;

/// What to do after an attempt to migrate the schema.
#[derive(Clone, Copy, Debug, PartialEq, Eq, Structural)]
pub enum MigrationStep {
    /// Mark the schema as ready, run what waits for it once, and stop.
    Finish,
    /// Log the failure and try again after this many seconds.
    RetryAfter(u64),
}

/// Migration is tried until it succeeds, five seconds apart.
pub fn after_migration(succeeded: bool) -> (step: MigrationStep)
    ensures
        step == if succeeded {
            MigrationStep::Finish
        } else {
            MigrationStep::RetryAfter(5)
        },
{
    if succeeded {
        MigrationStep::Finish
    } else {
        MigrationStep::RetryAfter(MIGRATION_RETRY_SECS)
    }
}

/// Seconds between two retention sweeps.
pub const SWEEP_INTERVAL_SECS: u64 = 300;

/// What a retention sweep has to report.
#[derive(Clone, Copy, Debug, PartialEq, Eq, Structural)]
pub enum SweepReport {
    /// Nothing was old enough.
    Quiet,
    /// So many rows went.
    Pruned(u64),
    /// The sweep failed.
    Failed,
}

/// A sweep that removed nothing is not worth a line.
pub fn sweep_report(outcome: &Result<u64, DbError>) -> (report: SweepReport)
    ensures
        report == match *outcome {
            Ok(rows) => if rows == 0 {
                SweepReport::Quiet
            } else {
                SweepReport::Pruned(rows)
            },
            Err(_) => SweepReport::Failed,
        },
{
    match outcome {
        Ok(rows) => if *rows == 0 {
            SweepReport::Quiet
        } else {
            SweepReport::Pruned(*rows)
        },
        Err(_) => SweepReport::Failed,
    }
}

/// A row is taken over unchanged exactly if its sensor has a valid name: what
/// else it holds makes no difference.
pub proof fn law_a_row_is_taken_over_unchanged(row: Row)
    ensures
        row.pair() is Some <==> 1 <= text::trimmed(row.sensor_id@).len() <= 64,
        row.pair() matches Some((id, reading)) ==> {
            &&& id == text::trimmed(row.sensor_id@)
            &&& reading.ts == row.ts
            &&& reading.value == row.value
            &&& reading.unit == row.unit
        },
{
}

/// Rows are taken one by one, in order: those of two lists as those of the
/// first and then those of the second, and a row alone for itself or, if its
/// sensor has no valid name, for nothing.
pub proof fn law_rows_are_taken_one_by_one(first: Seq<Row>, second: Seq<Row>, row: Row)
    ensures
        pairs(Seq::empty()) == Seq::<(Seq<char>, Reading)>::empty(),
        pairs(first + second) == pairs(first) + pairs(second),
        pairs(seq![row]) == if 1 <= text::trimmed(row.sensor_id@).len() <= 64 {
            seq![
                (
                    text::trimmed(row.sensor_id@),
                    (Reading { ts: row.ts, value: row.value, unit: row.unit }),
                ),
            ]
        } else {
            Seq::empty()
        },
        row_readings(first + second) == row_readings(first) + row_readings(second),
        row_readings(seq![row]) == if 1 <= text::trimmed(row.sensor_id@).len() <= 64 {
            seq![(Reading { ts: row.ts, value: row.value, unit: row.unit })]
        } else {
            Seq::empty()
        },
{
    lemma_pairs_concat(first, second);
    assert(row_readings(first + second) =~= row_readings(first) + row_readings(second));
    let one = seq![row];
    assert(one.drop_last() =~= Seq::<Row>::empty());
    assert(pairs(one.drop_last()) == Seq::<(Seq<char>, Reading)>::empty());
    assert(one.last() == row);
    if 1 <= text::trimmed(row.sensor_id@).len() <= 64 {
        assert(pairs(one) =~= seq![
            (
                text::trimmed(row.sensor_id@),
                Reading { ts: row.ts, value: row.value, unit: row.unit },
            ),
        ]);
        assert(row_readings(one) =~= seq![
            Reading { ts: row.ts, value: row.value, unit: row.unit },
        ]);
    } else {
        assert(row_readings(one) =~= Seq::empty());
    }
}

/// If every row has a valid sensor name, none is left out, and each is taken
/// for its own sensor and reading at its own place.
pub proof fn law_named_rows_are_all_taken(rows: Seq<Row>, i: int)
    requires
        forall|k: int|
            0 <= k < rows.len() ==> 1 <= text::trimmed((#[trigger] rows[k]).sensor_id@).len() <= 64,
        0 <= i < rows.len(),
    ensures
        pairs(rows).len() == rows.len(),
        pairs(rows)[i].0 == text::trimmed(rows[i].sensor_id@),
        pairs(rows)[i].1.ts == rows[i].ts,
        pairs(rows)[i].1.value == rows[i].value,
        pairs(rows)[i].1.unit == rows[i].unit,
        row_readings(rows).len() == rows.len(),
        row_readings(rows)[i].ts == rows[i].ts,
        row_readings(rows)[i].value == rows[i].value,
        row_readings(rows)[i].unit == rows[i].unit,
{
    lemma_named_rows(rows);
}

proof fn lemma_named_rows(rows: Seq<Row>)
    requires
        forall|k: int|
            0 <= k < rows.len() ==> 1 <= text::trimmed((#[trigger] rows[k]).sensor_id@).len() <= 64,
    ensures
        pairs(rows).len() == rows.len(),
        forall|i: int|
            0 <= i < rows.len() ==> #[trigger] pairs(rows)[i] == (
                text::trimmed(rows[i].sensor_id@),
                rows[i].reading(),
            ),
    decreases rows.len(),
{
    if rows.len() > 0 {
        let head = rows.drop_last();
        assert forall|k: int| 0 <= k < head.len() implies 1 <= text::trimmed(
            (#[trigger] head[k]).sensor_id@,
        ).len() <= 64 by {
            assert(head[k] == rows[k]);
        }
        lemma_named_rows(head);
        assert(1 <= text::trimmed(rows[rows.len() - 1].sensor_id@).len() <= 64);
        assert forall|i: int| 0 <= i < rows.len() implies #[trigger] pairs(rows)[i] == (
            text::trimmed(rows[i].sensor_id@),
            rows[i].reading(),
        ) by {
            if i < head.len() {
                assert(pairs(rows)[i] == pairs(head)[i]);
                assert(head[i] == rows[i]);
            }
        }
    }
}

proof fn lemma_taken_order(rows: Seq<Row>)
    requires
        forall|i: int, j: int|
            0 <= i <= j < rows.len() ==> (#[trigger] rows[i]).ts.at() >= (
            #[trigger] rows[j]).ts.at(),
    ensures
        forall|i: int, j: int|
            0 <= i <= j < pairs(rows).len() ==> (#[trigger] pairs(rows)[i]).1.ts.at() >= (
            #[trigger] pairs(rows)[j]).1.ts.at(),
        forall|i: int|
            0 <= i < pairs(rows).len() ==> (#[trigger] pairs(rows)[i]).1.ts.at()
                >= rows.last().ts.at(),
    decreases rows.len(),
{
    if rows.len() > 0 {
        let head = rows.drop_last();
        assert forall|i: int, j: int| 0 <= i <= j < head.len() implies (
        #[trigger] head[i]).ts.at() >= (#[trigger] head[j]).ts.at() by {
            assert(rows[i].ts.at() >= rows[j].ts.at());
        }
        lemma_taken_order(head);
        if head.len() > 0 {
            assert(rows[head.len() - 1].ts.at() >= rows[rows.len() - 1].ts.at());
        }
    }
}

/// Rows that come newest first are read newest first.
pub proof fn law_readings_keep_the_order_of_their_rows(rows: Seq<Row>, i: int, j: int)
    requires
        forall|a: int, b: int|
            0 <= a <= b < rows.len() ==> (#[trigger] rows[a]).ts.at() >= (
            #[trigger] rows[b]).ts.at(),
        0 <= i <= j < row_readings(rows).len(),
    ensures
        row_readings(rows)[i].ts.at() >= row_readings(rows)[j].ts.at(),
{
    lemma_taken_order(rows);
    assert(pairs(rows)[i].1.ts.at() >= pairs(rows)[j].1.ts.at());
}

/// The time bound is applied row by row, in order, both ends counted.
pub proof fn law_rows_are_selected_one_by_one(
    first: Seq<Row>,
    second: Seq<Row>,
    row: Row,
    from: Timestamp,
    to: Timestamp,
)
    ensures
        rows_within(Seq::empty(), from, to) == Seq::<Row>::empty(),
        rows_within(first + second, from, to) == rows_within(first, from, to) + rows_within(
            second,
            from,
            to,
        ),
        rows_within(seq![row], from, to) == if from.at() <= row.ts.at() && row.ts.at()
            <= to.at() {
            seq![row]
        } else {
            Seq::empty()
        },
    decreases second.len(),
{
    reveal(Seq::filter);
    let one = seq![row];
    assert(one.drop_last() =~= Seq::<Row>::empty());
    assert(rows_within(one.drop_last(), from, to) == Seq::<Row>::empty());
    if from.at() <= row.ts.at() && row.ts.at() <= to.at() {
        assert(rows_within(one, from, to) =~= one);
    }
    if second.len() == 0 {
        assert(first + second == first);
        assert(rows_within(second, from, to) == Seq::<Row>::empty());
    } else {
        let less = second.drop_last();
        law_rows_are_selected_one_by_one(first, less, row, from, to);
        assert((first + second).drop_last() == first + less);
        assert((first + second).last() == second.last());
    }
}

/// A limit keeps the first rows, unchanged and in order, and no more of them
/// than it says; a negative one keeps as many as can be counted.
pub proof fn law_a_limit_keeps_the_first_rows(rows: Seq<Row>, limit: i64, i: int)
    ensures
        ({
            let kept = first_rows(rows, row_limit(limit));
            let most = if limit < 0 || limit > usize::MAX {
                usize::MAX as int
            } else {
                limit as int
            };
            &&& kept.len() == if rows.len() < most {
                rows.len() as int
            } else {
                most
            }
            &&& 0 <= i < kept.len() ==> kept[i] == rows[i]
        }),
{
}

/// What the log is told of a failure: the driver's own words, or that the
/// schema is not there.
pub proof fn law_failures_are_put_in_words(message: String)
    ensures
        DbError::NotMigrated.text() == "schema is not migrated yet"@,
        DbError::Sqlx(message).text() == message@,
{
}

} // verus!
