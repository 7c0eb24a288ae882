//! What the cache of latest readings holds, as a map from sensors to buffers,
//! and what every insertion keeps true of it.
use crate::buffer;
use crate::readings;
use crate::readings::Reading;
use crate::text;
use vstd::prelude::*;

verus! {

/// Reading slots across all resident sensors.
///
/// Deriving the sensor limit from the per-sensor one bounds the allocated
/// buffer capacity, not just the readings held.
pub const MAX_READINGS: usize = 131_072;

/// Resident sensors, whatever their buffers may hold.
pub const MAX_SENSORS: usize = 2_048;

/// The contents of the cache and its limits.
#[verifier::ext_equal]
pub struct CacheView {
    pub per_sensor: nat,
    pub max_sensors: nat,
    pub buffers: Map<Seq<char>, Seq<Reading>>,
}

/// The readings kept per sensor when `wanted` are asked for.
pub open spec fn sensor_limit(wanted: nat) -> nat {
    if wanted < 1 {
        1
    } else if wanted > MAX_READINGS {
        MAX_READINGS as nat
    } else {
        wanted
    }
}

/// The sensors that may be resident when each keeps `per_sensor` readings.
pub open spec fn resident_limit(per_sensor: nat) -> nat {
    if MAX_READINGS as nat / per_sensor < MAX_SENSORS {
        MAX_READINGS as nat / per_sensor
    } else {
        MAX_SENSORS as nat
    }
}

impl CacheView {
    /// An empty cache for `wanted` readings per sensor.
    pub open spec fn empty(wanted: nat) -> Self {
        CacheView {
            per_sensor: sensor_limit(wanted),
            max_sensors: resident_limit(sensor_limit(wanted)),
            buffers: Map::empty(),
        }
    }

    /// The limits hold and every buffer is filled in order of time.
    pub open spec fn wf(self) -> bool {
        &&& 1 <= self.per_sensor
        &&& 1 <= self.max_sensors <= MAX_SENSORS
        &&& self.per_sensor * self.max_sensors <= MAX_READINGS
        &&& self.buffers.dom().finite()
        &&& self.buffers.dom().len() <= self.max_sensors
        &&& forall|id: Seq<char>| #[trigger]
            self.buffers.contains_key(id) ==> {
                &&& 0 < self.buffers[id].len() <= self.per_sensor
                &&& buffer::in_order(self.buffers[id])
            }
    }

    /// The sensor has a buffer.
    pub open spec fn resident(self, id: Seq<char>) -> bool {
        self.buffers.contains_key(id)
    }

    /// When the newest reading of a resident sensor was taken.
    pub open spec fn newest(self, id: Seq<char>) -> int {
        self.buffers[id].last().ts.at()
    }

    /// `a` makes room before `b` does: its newest reading is older, or as old
    /// with an identifier that sorts first.
    pub open spec fn yields_before(self, a: Seq<char>, b: Seq<char>) -> bool {
        self.newest(a) < self.newest(b) || (self.newest(a) == self.newest(b) && text::text_before(
            a,
            b,
        ))
    }

    /// The resident sensor that makes room before every other.
    pub open spec fn yields_first(self, id: Seq<char>) -> bool {
        &&& self.resident(id)
        &&& forall|other: Seq<char>| #[trigger]
            self.resident(other) && other != id ==> self.yields_before(id, other)
    }

    /// The resident sensor that makes room next.
    pub open spec fn oldest(self) -> Seq<char> {
        choose|id: Seq<char>| self.yields_first(id)
    }

    /// No further sensor fits.
    pub open spec fn full(self) -> bool {
        self.buffers.dom().len() >= self.max_sensors
    }

    /// A reading gets in if its sensor is resident, if there is room, or if
    /// it is newer than the newest reading of the sensor that makes room.
    pub open spec fn admits(self, id: Seq<char>, reading: Reading) -> bool {
        self.resident(id) || !self.full() || self.newest(self.oldest()) < reading.ts.at()
    }

    /// The buffers once there is room for `id`.
    pub open spec fn with_room(self, id: Seq<char>) -> Map<Seq<char>, Seq<Reading>> {
        if self.resident(id) || !self.full() {
            self.buffers
        } else {
            self.buffers.remove(self.oldest())
        }
    }

    /// What a sensor has in its buffer, if anything.
    pub open spec fn held(self, id: Seq<char>) -> Seq<Reading> {
        if self.resident(id) {
            self.buffers[id]
        } else {
            Seq::empty()
        }
    }

    /// The cache after one reading arrived.
    pub open spec fn inserted(self, id: Seq<char>, reading: Reading) -> Self {
        if self.admits(id, reading) {
            CacheView {
                buffers: self.with_room(id).insert(
                    id,
                    buffer::merged(self.held(id), reading, self.per_sensor),
                ),
                ..self
            }
        } else {
            self
        }
    }

    /// The cache after a list of readings arrived, one after the other.
    pub open spec fn inserted_all(self, items: Seq<(Seq<char>, Reading)>) -> Self
        decreases items.len(),
    {
        if items.len() == 0 {
            self
        } else {
            self.inserted_all(items.drop_last()).inserted(items.last().0, items.last().1)
        }
    }

    /// The cache with the buffers of `ids` and no others.
    pub open spec fn only(self, ids: Set<Seq<char>>) -> Self {
        CacheView { buffers: self.buffers.restrict(ids), ..self }
    }

    /// The live sensors, those that a write has reached since they got in,
    /// after one more reading arrived. One that comes with a write makes its
    /// sensor live; one that is only read back from storage does not.
    pub open spec fn live_after(
        self,
        live: Set<Seq<char>>,
        id: Seq<char>,
        reading: Reading,
        written: bool,
    ) -> Set<Seq<char>> {
        if !self.admits(id, reading) {
            live
        } else {
            let kept = if self.resident(id) || !self.full() {
                live
            } else {
                live.remove(self.oldest())
            };
            if written {
                kept.insert(id)
            } else {
                kept
            }
        }
    }

    /// The live sensors after a list of readings arrived.
    pub open spec fn live_after_all(
        self,
        live: Set<Seq<char>>,
        items: Seq<(Seq<char>, Reading)>,
        written: bool,
    ) -> Set<Seq<char>>
        decreases items.len(),
    {
        if items.len() == 0 {
            live
        } else {
            self.inserted_all(items.drop_last()).live_after(
                self.live_after_all(live, items.drop_last(), written),
                items.last().0,
                items.last().1,
                written,
            )
        }
    }

    /// Every sensor has a valid name and every reading a short unit.
    pub open spec fn validated(self) -> bool {
        forall|id: Seq<char>| #[trigger]
            self.buffers.contains_key(id) ==> readings::valid_id(id) && short_units(
                self.buffers[id],
            )
    }
}

/// Every unit is absent or short enough.
pub open spec fn short_units(buffer: Seq<Reading>) -> bool {
    forall|i: int| 0 <= i < buffer.len() ==> readings::valid_unit((#[trigger] buffer[i]).unit)
}

/// The sum of a weight over all buffers.
pub open spec fn total(
    buffers: Map<Seq<char>, Seq<Reading>>,
    weight: spec_fn(Seq<char>, Seq<Reading>) -> nat,
) -> nat
    decreases buffers.dom().len(),
    when buffers.dom().finite()
{
    if buffers.dom().len() == 0 {
        0
    } else {
        let id = buffers.dom().choose();
        weight(id, buffers[id]) + total(buffers.remove(id), weight)
    }
}

/// The bytes taken by the readings of one buffer.
pub open spec fn footprints(readings: Seq<Reading>) -> nat
    decreases readings.len(),
{
    if readings.len() == 0 {
        0
    } else {
        footprints(readings.drop_last()) + readings.last().footprint()
    }
}

/// A buffer counts its readings.
pub open spec fn by_count() -> spec_fn(Seq<char>, Seq<Reading>) -> nat {
    |id: Seq<char>, readings: Seq<Reading>| readings.len()
}

/// A buffer counts the bytes of its sensor's identifier and of its readings.
pub open spec fn by_bytes() -> spec_fn(Seq<char>, Seq<Reading>) -> nat {
    |id: Seq<char>, readings: Seq<Reading>| text::utf8_len(id) + footprints(readings)
}

impl CacheView {
    /// How many readings the cache holds.
    pub open spec fn reading_count(self) -> nat {
        total(self.buffers, by_count())
    }

    /// How many bytes its identifiers and readings take.
    pub open spec fn byte_count(self) -> nat {
        total(self.buffers, by_bytes())
    }
}

pub proof fn lemma_total_remove(
    buffers: Map<Seq<char>, Seq<Reading>>,
    weight: spec_fn(Seq<char>, Seq<Reading>) -> nat,
    id: Seq<char>,
)
    requires
        buffers.dom().finite(),
        buffers.contains_key(id),
    ensures
        total(buffers, weight) == weight(id, buffers[id]) + total(buffers.remove(id), weight),
    decreases buffers.dom().len(),
{
    let c = buffers.dom().choose();
    assert(buffers.dom().len() > 0);
    assert(buffers.contains_key(c));
    if c != id {
        let less = buffers.remove(c);
        let other = buffers.remove(id);
        lemma_total_remove(less, weight, id);
        lemma_total_remove(other, weight, c);
        assert(less.remove(id) =~= other.remove(c));
    }
}

pub proof fn lemma_total_insert(
    buffers: Map<Seq<char>, Seq<Reading>>,
    weight: spec_fn(Seq<char>, Seq<Reading>) -> nat,
    id: Seq<char>,
    readings: Seq<Reading>,
)
    requires
        buffers.dom().finite(),
        !buffers.contains_key(id),
    ensures
        total(buffers.insert(id, readings), weight) == total(buffers, weight) + weight(
            id,
            readings,
        ),
{
    lemma_total_remove(buffers.insert(id, readings), weight, id);
    assert(buffers.insert(id, readings).remove(id) =~= buffers);
}

proof fn lemma_total_count_bound(buffers: Map<Seq<char>, Seq<Reading>>, per_sensor: nat)
    requires
        buffers.dom().finite(),
        forall|id: Seq<char>| #[trigger]
            buffers.contains_key(id) ==> buffers[id].len() <= per_sensor,
    ensures
        total(buffers, by_count()) <= buffers.dom().len() * per_sensor,
    decreases buffers.dom().len(),
{
    if buffers.dom().len() > 0 {
        let id = buffers.dom().choose();
        assert(buffers.contains_key(id));
        let rest = buffers.remove(id);
        lemma_total_count_bound(rest, per_sensor);
        let n = rest.dom().len();
        assert((n + 1) * per_sensor == n * per_sensor + per_sensor) by (nonlinear_arith);
    }
}

/// The cache never holds more readings than its slots.
pub proof fn law_readings_fit_the_budget(cache: CacheView)
    requires
        cache.wf(),
    ensures
        cache.reading_count() <= cache.buffers.dom().len() * cache.per_sensor,
        cache.reading_count() <= MAX_READINGS,
{
    lemma_total_count_bound(cache.buffers, cache.per_sensor);
    let n = cache.buffers.dom().len();
    assert(n * cache.per_sensor <= cache.max_sensors * cache.per_sensor) by (nonlinear_arith)
        requires
            n <= cache.max_sensors,
    ;
    assert(cache.max_sensors * cache.per_sensor == cache.per_sensor * cache.max_sensors)
        by (nonlinear_arith);
}

proof fn lemma_yield_order(cache: CacheView, a: Seq<char>, b: Seq<char>, c: Seq<char>)
    ensures
        !cache.yields_before(a, a),
        cache.yields_before(a, b) && cache.yields_before(b, c) ==> cache.yields_before(a, c),
        cache.yields_before(a, b) || cache.yields_before(b, a) || a == b,
{
    text::law_text_order_is_strict_and_total(a, b, c);
}

proof fn lemma_first_of(cache: CacheView, ids: Set<Seq<char>>) -> (id: Seq<char>)
    requires
        ids.finite(),
        ids.len() > 0,
    ensures
        ids.contains(id),
        forall|other: Seq<char>| #[trigger]
            ids.contains(other) && other != id ==> cache.yields_before(id, other),
    decreases ids.len(),
{
    let c = ids.choose();
    let rest = ids.remove(c);
    if rest.len() == 0 {
        assert forall|other: Seq<char>| #[trigger]
            ids.contains(other) && other != c implies cache.yields_before(c, other) by {
            assert(rest.contains(other));
        }
        c
    } else {
        let r = lemma_first_of(cache, rest);
        let best = if cache.yields_before(r, c) {
            r
        } else {
            c
        };
        assert forall|other: Seq<char>| #[trigger]
            ids.contains(other) && other != best implies cache.yields_before(best, other) by {
            lemma_yield_order(cache, r, c, other);
            lemma_yield_order(cache, c, r, other);
            if other != c {
                assert(rest.contains(other));
            }
        }
        best
    }
}

/// As long as any sensor is resident, exactly one of them makes room next.
pub proof fn law_one_sensor_makes_room(cache: CacheView, id: Seq<char>)
    requires
        cache.buffers.dom().finite(),
        cache.buffers.dom().len() > 0,
    ensures
        cache.yields_first(cache.oldest()),
        cache.yields_first(id) ==> id == cache.oldest(),
{
    let first = lemma_first_of(cache, cache.buffers.dom());
    assert forall|other: Seq<char>| #[trigger]
        cache.resident(other) && other != first implies cache.yields_before(first, other) by {
        assert(cache.buffers.dom().contains(other));
    }
    assert(cache.yields_first(first));
    if cache.yields_first(id) && id != cache.oldest() {
        lemma_yield_order(cache, id, cache.oldest(), id);
        assert(cache.resident(id));
        assert(cache.resident(cache.oldest()));
    }
}

/// An empty cache is well formed, whatever limit was asked for.
pub proof fn law_empty_is_well_formed(wanted: nat)
    ensures
        CacheView::empty(wanted).wf(),
{
    let p = sensor_limit(wanted) as int;
    let m = MAX_READINGS as int;
    assert(m / p >= 1 && p * (m / p) <= m) by (nonlinear_arith)
        requires
            1 <= p <= m,
            m == 131_072,
    ;
    let q = resident_limit(p as nat) as int;
    assert(p * q <= p * (m / p)) by (nonlinear_arith)
        requires
            0 <= q <= m / p,
            0 <= p,
    ;
}

/// Every insertion keeps the cache well formed and its limits unchanged.
pub proof fn law_insertion_keeps_the_cache_well_formed(
    cache: CacheView,
    id: Seq<char>,
    reading: Reading,
)
    requires
        cache.wf(),
    ensures
        cache.inserted(id, reading).wf(),
        cache.inserted(id, reading).per_sensor == cache.per_sensor,
        cache.inserted(id, reading).max_sensors == cache.max_sensors,
        cache.inserted(id, reading).resident(id) == cache.admits(id, reading),
{
    if cache.admits(id, reading) {
        let after = cache.inserted(id, reading);
        if !cache.resident(id) && cache.full() {
            law_one_sensor_makes_room(cache, id);
            assert(cache.with_room(id).dom() == cache.buffers.dom().remove(cache.oldest()));
        }
        buffer::law_merging_keeps_order_and_limit(cache.held(id), reading, cache.per_sensor);
        assert forall|other: Seq<char>| #[trigger] after.buffers.contains_key(other) implies {
            &&& 0 < after.buffers[other].len() <= after.per_sensor
            &&& buffer::in_order(after.buffers[other])
        } by {
            if other != id {
                assert(cache.buffers.contains_key(other));
            }
        }
        assert(after.buffers.dom() =~= cache.with_room(id).dom().insert(id));
        if cache.resident(id) {
            assert(after.buffers.dom() =~= cache.buffers.dom());
        }
    }
}

/// Inserting a list keeps the cache well formed and its limits unchanged.
pub proof fn law_insertions_keep_the_cache_well_formed(
    cache: CacheView,
    items: Seq<(Seq<char>, Reading)>,
)
    requires
        cache.wf(),
    ensures
        cache.inserted_all(items).wf(),
        cache.inserted_all(items).per_sensor == cache.per_sensor,
        cache.inserted_all(items).max_sensors == cache.max_sensors,
    decreases items.len(),
{
    if items.len() > 0 {
        law_insertions_keep_the_cache_well_formed(cache, items.drop_last());
        law_insertion_keeps_the_cache_well_formed(
            cache.inserted_all(items.drop_last()),
            items.last().0,
            items.last().1,
        );
    }
}

/// It makes no difference whether readings arrive in one list or in two.
pub proof fn law_batches_compose(
    cache: CacheView,
    first: Seq<(Seq<char>, Reading)>,
    second: Seq<(Seq<char>, Reading)>,
)
    ensures
        cache.inserted_all(first + second) == cache.inserted_all(first).inserted_all(second),
    decreases second.len(),
{
    if second.len() == 0 {
        assert(first + second == first);
    } else {
        law_batches_compose(cache, first, second.drop_last());
        assert((first + second).drop_last() == first + second.drop_last());
    }
}

/// Inserting a reading never removes one that is newer, whichever sensor it
/// belongs to: history cannot displace live data.
pub proof fn law_newer_readings_survive(
    cache: CacheView,
    id: Seq<char>,
    reading: Reading,
    other: Seq<char>,
    kept: Reading,
)
    requires
        cache.wf(),
        cache.resident(other),
        cache.buffers[other].contains(kept),
        kept.ts.at() > reading.ts.at(),
    ensures
        cache.inserted(id, reading).resident(other),
        cache.inserted(id, reading).buffers[other].contains(kept),
{
    if cache.admits(id, reading) {
        if other == id {
            buffer::law_newer_readings_survive_a_merge(
                cache.buffers[id],
                reading,
                cache.per_sensor,
                kept,
            );
        } else if !cache.resident(id) && cache.full() {
            law_one_sensor_makes_room(cache, other);
            let b = cache.buffers[other];
            let i = choose|i: int| 0 <= i < b.len() && b[i] == kept;
            assert(b[i].ts.at() <= b[b.len() - 1].ts.at());
            assert(other != cache.oldest());
        }
    }
}

/// Whatever history is replayed, a reading newer than all of it stays.
pub proof fn law_history_cannot_displace_live_data(
    cache: CacheView,
    history: Seq<(Seq<char>, Reading)>,
    sensor: Seq<char>,
    kept: Reading,
)
    requires
        cache.wf(),
        cache.resident(sensor),
        cache.buffers[sensor].contains(kept),
        forall|i: int| 0 <= i < history.len() ==> (#[trigger] history[i]).1.ts.at() < kept.ts.at(),
    ensures
        cache.inserted_all(history).resident(sensor),
        cache.inserted_all(history).buffers[sensor].contains(kept),
    decreases history.len(),
{
    if history.len() > 0 {
        let earlier = history.drop_last();
        assert forall|i: int| 0 <= i < earlier.len() implies (#[trigger] earlier[i]).1.ts.at()
            < kept.ts.at() by {
            assert(history[i].1.ts.at() < kept.ts.at());
        }
        law_history_cannot_displace_live_data(cache, earlier, sensor, kept);
        law_insertions_keep_the_cache_well_formed(cache, earlier);
        assert(history[history.len() - 1].1.ts.at() < kept.ts.at());
        law_newer_readings_survive(
            cache.inserted_all(earlier),
            history.last().0,
            history.last().1,
            sensor,
            kept,
        );
    }
}

/// At capacity a sensor that is not resident gets in only with a reading
/// strictly newer than the newest one of the sensor that makes room; a tie
/// keeps the incumbent and changes nothing.
pub proof fn law_ties_keep_incumbents(cache: CacheView, id: Seq<char>, reading: Reading)
    requires
        cache.wf(),
        cache.full(),
        !cache.resident(id),
        reading.ts.at() <= cache.newest(cache.oldest()),
    ensures
        cache.inserted(id, reading) == cache,
{
}

/// At capacity a newer reading evicts the whole buffer of the sensor that
/// makes room, with all of its accounting, and leaves every other buffer
/// alone; the new sensor starts with that one reading.
pub proof fn law_eviction_removes_the_whole_sensor(
    cache: CacheView,
    id: Seq<char>,
    reading: Reading,
)
    requires
        cache.wf(),
        cache.full(),
        !cache.resident(id),
        reading.ts.at() > cache.newest(cache.oldest()),
    ensures
        ({
            let after = cache.inserted(id, reading);
            let gone = cache.buffers[cache.oldest()];
            &&& cache.resident(cache.oldest())
            &&& !after.resident(cache.oldest())
            &&& after.buffers == cache.buffers.remove(cache.oldest()).insert(id, seq![reading])
            &&& after.reading_count() == cache.reading_count() - gone.len() + 1
            &&& after.byte_count() == cache.byte_count() - (text::utf8_len(cache.oldest())
                + footprints(gone)) + (text::utf8_len(id) + reading.footprint())
        }),
{
    law_one_sensor_makes_room(cache, id);
    let after = cache.inserted(id, reading);
    let kept = cache.buffers.remove(cache.oldest());
    let fresh = buffer::merged(Seq::empty(), reading, cache.per_sensor);
    assert(fresh =~= seq![reading]);
    lemma_total_remove(cache.buffers, by_count(), cache.oldest());
    lemma_total_remove(cache.buffers, by_bytes(), cache.oldest());
    lemma_total_insert(kept, by_count(), id, fresh);
    lemma_total_insert(kept, by_bytes(), id, fresh);
    reveal_with_fuel(footprints, 2);
    assert(fresh.drop_last() =~= Seq::<Reading>::empty());
}

/// A reading for one sensor leaves every other buffer alone, but for the one
/// sensor that may have to make room.
pub proof fn law_other_sensors_are_untouched(
    cache: CacheView,
    id: Seq<char>,
    reading: Reading,
    other: Seq<char>,
)
    requires
        cache.wf(),
        other != id,
        other != cache.oldest() || cache.resident(id) || !cache.full(),
    ensures
        cache.inserted(id, reading).resident(other) == cache.resident(other),
        cache.resident(other) ==> cache.inserted(id, reading).buffers[other]
            == cache.buffers[other],
{
}

/// Once the cache is full it stays full, and the timestamp that a new sensor
/// has to beat never goes back.
pub proof fn law_admission_bar_never_drops(cache: CacheView, id: Seq<char>, reading: Reading)
    requires
        cache.wf(),
        cache.full(),
    ensures
        cache.inserted(id, reading).full(),
        cache.newest(cache.oldest()) <= cache.inserted(id, reading).newest(
            cache.inserted(id, reading).oldest(),
        ),
{
    let after = cache.inserted(id, reading);
    law_insertion_keeps_the_cache_well_formed(cache, id, reading);
    law_one_sensor_makes_room(cache, id);
    if cache.admits(id, reading) {
        let room = cache.with_room(id);
        assert(after.buffers.dom() =~= room.dom().insert(id));
        if cache.resident(id) {
            assert(after.buffers.dom() =~= cache.buffers.dom());
        } else {
            assert(room.dom() == cache.buffers.dom().remove(cache.oldest()));
        }
        law_one_sensor_makes_room(after, id);
        let next = after.oldest();
        assert(after.resident(next));
        if next == id {
            buffer::law_newest_never_goes_back(cache.held(id), reading, cache.per_sensor);
            if cache.resident(id) {
                assert(id == cache.oldest() || cache.yields_before(cache.oldest(), id));
            }
        } else {
            assert(cache.resident(next));
            assert(next == cache.oldest() || cache.yields_before(cache.oldest(), next));
        }
    }
}

/// `readings`, all of one sensor.
pub open spec fn of_sensor(id: Seq<char>, readings: Seq<Reading>) -> Seq<(Seq<char>, Reading)> {
    readings.map_values(|reading: Reading| (id, reading))
}

/// A sensor that is resident takes all of its own readings, and they merge
/// into its buffer alone.
pub proof fn law_resident_sensor_takes_its_readings(
    cache: CacheView,
    id: Seq<char>,
    readings: Seq<Reading>,
)
    requires
        cache.wf(),
        cache.resident(id),
    ensures
        cache.inserted_all(of_sensor(id, readings)).buffers == cache.buffers.insert(
            id,
            buffer::merged_all(cache.buffers[id], readings, cache.per_sensor),
        ),
    decreases readings.len(),
{
    let items = of_sensor(id, readings);
    if readings.len() == 0 {
        assert(cache.buffers.insert(id, cache.buffers[id]) =~= cache.buffers);
    } else {
        let earlier = readings.drop_last();
        law_resident_sensor_takes_its_readings(cache, id, earlier);
        assert(items.drop_last() =~= of_sensor(id, earlier));
        law_insertions_keep_the_cache_well_formed(cache, items.drop_last());
        let before = cache.inserted_all(items.drop_last());
        assert(before.resident(id));
        assert(before.buffers.insert(
            id,
            buffer::merged_all(cache.buffers[id], readings, cache.per_sensor),
        ) =~= cache.buffers.insert(
            id,
            buffer::merged_all(cache.buffers[id], readings, cache.per_sensor),
        ));
    }
}

proof fn lemma_merging_in_two_steps(
    start: Seq<Reading>,
    first: Seq<Reading>,
    second: Seq<Reading>,
    n: nat,
)
    ensures
        buffer::merged_all(start, first + second, n) == buffer::merged_all(
            buffer::merged_all(start, first, n),
            second,
            n,
        ),
    decreases second.len(),
{
    if second.len() == 0 {
        assert(first + second == first);
    } else {
        lemma_merging_in_two_steps(start, first, second.drop_last(), n);
        assert((first + second).drop_last() == first + second.drop_last());
    }
}

/// A sensor that is admitted with room to spare ends up with its newest
/// readings in order of time, whatever order they arrived in.
pub proof fn law_cache_keeps_the_newest(cache: CacheView, id: Seq<char>, readings: Seq<Reading>)
    requires
        cache.wf(),
        !cache.resident(id),
        !cache.full(),
        readings.len() > 0,
    ensures
        cache.inserted_all(of_sensor(id, readings)).buffers == cache.buffers.insert(
            id,
            buffer::newest_of(buffer::sorted_by_time(readings), cache.per_sensor),
        ),
{
    let first = seq![readings[0]];
    let rest = readings.drop_first();
    assert(readings =~= first + rest);
    assert(of_sensor(id, readings) =~= of_sensor(id, first) + of_sensor(id, rest));
    law_batches_compose(cache, of_sensor(id, first), of_sensor(id, rest));
    let once = cache.inserted(id, readings[0]);
    assert(of_sensor(id, first).drop_last() =~= Seq::empty());
    assert(of_sensor(id, first).last() == (id, readings[0]));
    assert(cache.inserted_all(of_sensor(id, first).drop_last()) == cache);
    assert(cache.inserted_all(of_sensor(id, first)) == once);
    law_insertion_keeps_the_cache_well_formed(cache, id, readings[0]);
    law_resident_sensor_takes_its_readings(once, id, rest);
    let n = cache.per_sensor;
    assert(first.drop_last() =~= Seq::empty());
    assert(buffer::merged_all(Seq::empty(), first.drop_last(), n) == Seq::<Reading>::empty());
    assert(once.buffers[id] == buffer::merged_all(Seq::empty(), first, n));
    lemma_merging_in_two_steps(Seq::empty(), first, rest, n);
    buffer::law_buffer_holds_the_newest(readings, n);
    assert(once.buffers.insert(id, buffer::merged_all(once.buffers[id], rest, n))
        =~= cache.buffers.insert(id, buffer::merged_all(once.buffers[id], rest, n)));
}

/// The instant of the newest of `items` that belongs to `id`, or `start` if
/// that is later.
pub open spec fn newest_with(start: int, id: Seq<char>, items: Seq<(Seq<char>, Reading)>) -> int
    decreases items.len(),
{
    if items.len() == 0 {
        start
    } else {
        let earlier = newest_with(start, id, items.drop_last());
        if items.last().0 == id && items.last().1.ts.at() > earlier {
            items.last().1.ts.at()
        } else {
            earlier
        }
    }
}

/// However the readings of a sensor interleave with those of others, it stays
/// resident as long as the others bring nothing newer than it already held,
/// and its newest reading is the newest of all that it was given.
pub proof fn law_interleaved_history_keeps_a_live_sensor(
    cache: CacheView,
    items: Seq<(Seq<char>, Reading)>,
    id: Seq<char>,
)
    requires
        cache.wf(),
        cache.resident(id),
        forall|i: int|
            0 <= i < items.len() && (#[trigger] items[i]).0 != id ==> items[i].1.ts.at()
                <= cache.newest(id),
    ensures
        cache.inserted_all(items).resident(id),
        cache.inserted_all(items).newest(id) == newest_with(cache.newest(id), id, items),
        cache.inserted_all(items).newest(id) >= cache.newest(id),
    decreases items.len(),
{
    if items.len() > 0 {
        let earlier = items.drop_last();
        assert forall|i: int|
            0 <= i < earlier.len() && (#[trigger] earlier[i]).0 != id implies earlier[i].1.ts.at()
            <= cache.newest(id) by {
            assert(items[i] == earlier[i]);
        }
        law_interleaved_history_keeps_a_live_sensor(cache, earlier, id);
        law_insertions_keep_the_cache_well_formed(cache, earlier);
        let before = cache.inserted_all(earlier);
        let (sensor, reading) = items[items.len() - 1];
        assert(before.buffers.contains_key(id));
        if sensor == id {
            buffer::law_newest_never_goes_back(before.buffers[id], reading, before.per_sensor);
        } else if before.admits(sensor, reading) && !before.resident(sensor) && before.full() {
            assert(before.oldest() != id);
        }
    }
}

/// A reading that gets in and is no older than what its sensor holds is the
/// first one read back.
pub proof fn law_a_newest_reading_is_read_first(
    cache: CacheView,
    id: Seq<char>,
    reading: Reading,
    limit: nat,
)
    requires
        cache.wf(),
        cache.admits(id, reading),
        cache.resident(id) ==> cache.newest(id) <= reading.ts.at(),
        limit > 0,
    ensures
        cache.inserted(id, reading).resident(id),
        buffer::newest_first(cache.inserted(id, reading).buffers[id], limit).len() > 0,
        buffer::newest_first(cache.inserted(id, reading).buffers[id], limit)[0] == reading,
{
    let held = cache.held(id);
    assert(cache.resident(id) ==> cache.buffers.contains_key(id));
    assert(buffer::placed(held, reading) == held.push(reading));
    let after = buffer::merged(held, reading, cache.per_sensor);
    assert(after.last() == reading);
    assert(buffer::newest_of(after, limit).last() == reading);
}

/// A cache that is cut down to some of its sensors stays well formed.
pub proof fn law_fewer_sensors_stay_well_formed(cache: CacheView, ids: Set<Seq<char>>)
    requires
        cache.wf(),
    ensures
        cache.only(ids).wf(),
{
    let after = cache.only(ids);
    assert(after.buffers.dom() =~= cache.buffers.dom().intersect(ids));
    vstd::set_lib::lemma_len_intersect(cache.buffers.dom(), ids);
    assert forall|id: Seq<char>| #[trigger] after.buffers.contains_key(id) implies {
        &&& 0 < after.buffers[id].len() <= after.per_sensor
        &&& buffer::in_order(after.buffers[id])
    } by {
        assert(cache.buffers.contains_key(id));
    }
}

/// Readings that are only read back from storage make no sensor live.
pub proof fn law_stored_readings_make_no_sensor_live(
    cache: CacheView,
    live: Set<Seq<char>>,
    items: Seq<(Seq<char>, Reading)>,
)
    ensures
        cache.live_after_all(live, items, false).subset_of(live),
    decreases items.len(),
{
    if items.len() > 0 {
        law_stored_readings_make_no_sensor_live(cache, live, items.drop_last());
    }
}

/// A cache that only a warm-up filled is empty once the warm-up failed,
/// however much had been read back by then.
pub proof fn law_a_failed_warm_up_leaves_nothing(wanted: nat, items: Seq<(Seq<char>, Reading)>)
    ensures
        ({
            let start = CacheView::empty(wanted);
            start.inserted_all(items).only(start.live_after_all(Set::empty(), items, false))
                == start
        }),
{
    let start = CacheView::empty(wanted);
    law_empty_is_well_formed(wanted);
    law_insertions_keep_the_cache_well_formed(start, items);
    law_stored_readings_make_no_sensor_live(start, Set::empty(), items);
    let live = start.live_after_all(Set::empty(), items, false);
    assert(start.inserted_all(items).only(live).buffers =~= Map::empty());
}

/// A sensor that a write reached is live, and keeps all that it holds if a
/// warm-up fails.
pub proof fn law_a_failed_warm_up_spares_live_sensors(
    cache: CacheView,
    live: Set<Seq<char>>,
    id: Seq<char>,
    reading: Reading,
)
    requires
        cache.wf(),
        cache.admits(id, reading),
    ensures
        ({
            let after = cache.inserted(id, reading);
            let kept = after.only(cache.live_after(live, id, reading, true));
            kept.resident(id) && kept.buffers[id] == after.buffers[id]
        }),
{
}

/// Valid readings keep the cache validated.
pub proof fn law_valid_readings_keep_the_cache_validated(
    cache: CacheView,
    items: Seq<(Seq<char>, Reading)>,
)
    requires
        cache.wf(),
        cache.validated(),
        forall|i: int|
            0 <= i < items.len() ==> readings::valid_id((#[trigger] items[i]).0)
                && readings::valid_unit(items[i].1.unit),
    ensures
        cache.inserted_all(items).validated(),
    decreases items.len(),
{
    if items.len() > 0 {
        let earlier = items.drop_last();
        assert forall|i: int| 0 <= i < earlier.len() implies readings::valid_id(
            (#[trigger] earlier[i]).0,
        ) && readings::valid_unit(earlier[i].1.unit) by {
            assert(items[i] == earlier[i]);
        }
        law_valid_readings_keep_the_cache_validated(cache, earlier);
        law_insertions_keep_the_cache_well_formed(cache, earlier);
        let before = cache.inserted_all(earlier);
        let after = cache.inserted_all(items);
        let (id, reading) = items[items.len() - 1];
        if before.admits(id, reading) {
            let held = before.held(id);
            assert(before.resident(id) ==> before.buffers.contains_key(id));
            let p = buffer::split_point(held, reading.ts.at());
            buffer::lemma_split_point(held, reading.ts.at());
            buffer::lemma_placed_at_split(held, reading, p);
            assert(short_units(held.insert(p, reading)));
            assert(short_units(after.buffers[id]));
            assert forall|other: Seq<char>| #[trigger]
                after.buffers.contains_key(other) implies readings::valid_id(other) && short_units(
                after.buffers[other],
            ) by {
                if other != id {
                    assert(before.buffers.contains_key(other));
                }
            }
        }
    }
}

proof fn lemma_footprints_bound(buffer: Seq<Reading>, inline: nat)
    requires
        short_units(buffer),
        vstd::layout::size_of::<Reading>() <= inline,
    ensures
        footprints(buffer) <= buffer.len() * (inline + 64),
    decreases buffer.len(),
{
    if buffer.len() > 0 {
        let head = buffer.drop_last();
        let last = buffer[buffer.len() - 1];
        assert forall|i: int| 0 <= i < head.len() implies readings::valid_unit(
            (#[trigger] head[i]).unit,
        ) by {
            assert(head[i] == buffer[i]);
        }
        lemma_footprints_bound(head, inline);
        assert(readings::valid_unit(last.unit));
        if last.unit is Some {
            text::lemma_utf8_len_bound(last.unit->Some_0@);
        }
        let n = head.len();
        assert((n + 1) * (inline + 64) == n * (inline + 64) + (inline + 64)) by (nonlinear_arith);
    }
}

proof fn lemma_total_bytes_bound(buffers: Map<Seq<char>, Seq<Reading>>, inline: nat)
    requires
        buffers.dom().finite(),
        vstd::layout::size_of::<Reading>() <= inline,
        forall|id: Seq<char>| #[trigger]
            buffers.contains_key(id) ==> readings::valid_id(id) && short_units(buffers[id]),
    ensures
        total(buffers, by_bytes()) <= buffers.dom().len() * 256 + total(buffers, by_count()) * (
        inline + 64),
    decreases buffers.dom().len(),
{
    if buffers.dom().len() > 0 {
        let id = buffers.dom().choose();
        assert(buffers.contains_key(id));
        let rest = buffers.remove(id);
        lemma_total_bytes_bound(rest, inline);
        lemma_footprints_bound(buffers[id], inline);
        text::lemma_utf8_len_bound(id);
        let n = buffers[id].len();
        let m = total(rest, by_count());
        assert((n + m) * (inline + 64) == n * (inline + 64) + m * (inline + 64))
            by (nonlinear_arith);
    }
}

/// The bytes of valid readings fit a machine word, and the byte figure of the
/// cache is then exact, as long as a reading itself takes at most 4096.
pub proof fn law_bytes_of_valid_readings_fit(cache: CacheView)
    requires
        cache.wf(),
        cache.validated(),
        vstd::layout::size_of::<Reading>() <= 4096,
    ensures
        cache.byte_count() <= usize::MAX,
        readings::word(cache.byte_count()) == cache.byte_count(),
{
    lemma_total_bytes_bound(cache.buffers, 4096);
    law_readings_fit_the_budget(cache);
    let count = cache.reading_count();
    assert(count * 4160 <= 131_072 * 4160) by (nonlinear_arith)
        requires
            count <= 131_072,
    ;
    readings::lemma_word_small(cache.byte_count());
}

/// The limit asked for is held to 1..131072, and as many sensors as then fit
/// 131,072 readings may be resident, but no more than 2,048.
pub proof fn law_the_limits_follow_the_budget(wanted: nat)
    ensures
        ({
            let cache = CacheView::empty(wanted);
            &&& 1 <= wanted <= 131_072 ==> cache.per_sensor == wanted
            &&& wanted < 1 ==> cache.per_sensor == 1
            &&& wanted > 131_072 ==> cache.per_sensor == 131_072
            &&& 1 <= cache.max_sensors <= 2_048
            &&& cache.max_sensors * cache.per_sensor <= 131_072
            &&& cache.max_sensors == 2_048 || (cache.max_sensors + 1) * cache.per_sensor > 131_072
            &&& cache.buffers == Map::<Seq<char>, Seq<Reading>>::empty()
        }),
{
    law_empty_is_well_formed(wanted);
    let cache = CacheView::empty(wanted);
    let p = cache.per_sensor as int;
    let q = cache.max_sensors as int;
    assert(q * p == p * q) by (nonlinear_arith);
    assert((131_072int / p + 1) * p > 131_072) by (nonlinear_arith)
        requires
            p >= 1,
    ;
}

/// A reading of a resident sensor goes into its buffer behind all that is not
/// newer; a full buffer drops its oldest one. Nothing else changes.
pub proof fn law_a_resident_sensor_takes_a_reading(
    cache: CacheView,
    id: Seq<char>,
    reading: Reading,
    p: int,
)
    requires
        cache.wf(),
        cache.buffers.contains_key(id),
        0 <= p <= cache.buffers[id].len(),
        forall|i: int|
            0 <= i < p ==> (#[trigger] cache.buffers[id][i]).ts.at() <= reading.ts.at(),
        forall|i: int|
            p <= i < cache.buffers[id].len() ==> reading.ts.at() < (
            #[trigger] cache.buffers[id][i]).ts.at(),
    ensures
        cache.inserted(id, reading).per_sensor == cache.per_sensor,
        cache.inserted(id, reading).max_sensors == cache.max_sensors,
        cache.inserted(id, reading).buffers == cache.buffers.insert(
            id,
            if cache.buffers[id].len() < cache.per_sensor {
                cache.buffers[id].insert(p, reading)
            } else {
                cache.buffers[id].insert(p, reading).drop_first()
            },
        ),
{
    buffer::law_merging_drops_the_oldest_if_it_must(
        cache.buffers[id],
        reading,
        cache.per_sensor,
        p,
    );
}

/// As long as there is room, a new sensor gets in with its reading, whatever
/// the timestamp, and nothing else changes.
pub proof fn law_a_new_sensor_takes_a_free_place(
    cache: CacheView,
    id: Seq<char>,
    reading: Reading,
)
    requires
        cache.wf(),
        !cache.buffers.contains_key(id),
        cache.buffers.dom().len() < cache.max_sensors,
    ensures
        cache.inserted(id, reading).per_sensor == cache.per_sensor,
        cache.inserted(id, reading).max_sensors == cache.max_sensors,
        cache.inserted(id, reading).buffers == cache.buffers.insert(id, seq![reading]),
{
    assert(buffer::merged(Seq::empty(), reading, cache.per_sensor) =~= seq![reading]);
}

/// At capacity a new sensor takes the place of the resident whose newest
/// reading is oldest, of several such the one that sorts first, and only with
/// a reading that is newer; otherwise nothing changes.
pub proof fn law_a_full_cache_gives_up_its_oldest_sensor(
    cache: CacheView,
    id: Seq<char>,
    reading: Reading,
    victim: Seq<char>,
)
    requires
        cache.wf(),
        !cache.buffers.contains_key(id),
        cache.buffers.dom().len() >= cache.max_sensors,
        cache.buffers.contains_key(victim),
        forall|other: Seq<char>| #[trigger]
            cache.buffers.contains_key(other) && other != victim ==> {
                let a = cache.buffers[victim][cache.buffers[victim].len() - 1].ts.at();
                let b = cache.buffers[other][cache.buffers[other].len() - 1].ts.at();
                a < b || (a == b && text::text_before(victim, other))
            },
    ensures
        ({
            let bar = cache.buffers[victim][cache.buffers[victim].len() - 1].ts.at();
            &&& cache.inserted(id, reading).per_sensor == cache.per_sensor
            &&& cache.inserted(id, reading).max_sensors == cache.max_sensors
            &&& cache.inserted(id, reading).buffers == if reading.ts.at() > bar {
                cache.buffers.remove(victim).insert(id, seq![reading])
            } else {
                cache.buffers
            }
        }),
{
    assert forall|other: Seq<char>| #[trigger]
        cache.resident(other) && other != victim implies cache.yields_before(victim, other) by {
        assert(cache.buffers.contains_key(other));
    }
    assert(cache.yields_first(victim));
    law_one_sensor_makes_room(cache, victim);
    assert(buffer::merged(Seq::empty(), reading, cache.per_sensor) =~= seq![reading]);
}

/// Readings arrive one after the other, in the order of the list.
pub proof fn law_readings_arrive_one_by_one(
    cache: CacheView,
    items: Seq<(Seq<char>, Reading)>,
    id: Seq<char>,
    reading: Reading,
)
    ensures
        cache.inserted_all(Seq::empty()) == cache,
        cache.inserted_all(seq![(id, reading)]) == cache.inserted(id, reading),
        cache.inserted_all(items.push((id, reading))) == cache.inserted_all(items).inserted(
            id,
            reading,
        ),
{
    assert(items.push((id, reading)).drop_last() == items);
    let one = seq![(id, reading)];
    assert(one.drop_last() =~= Seq::empty());
    assert(cache.inserted_all(one.drop_last()) == cache);
}

/// A sensor is live after a reading arrived exactly if it is resident and
/// either was live before or is the one that was written to.
pub proof fn law_live_sensors_are_the_written_ones_that_stay(
    cache: CacheView,
    live: Set<Seq<char>>,
    id: Seq<char>,
    reading: Reading,
    written: bool,
    sensor: Seq<char>,
)
    requires
        cache.wf(),
        live.subset_of(cache.buffers.dom()),
    ensures
        cache.live_after(live, id, reading, written).contains(sensor) <==> {
            &&& cache.inserted(id, reading).buffers.contains_key(sensor)
            &&& live.contains(sensor) || (written && sensor == id)
        },
        cache.live_after(live, id, reading, written).subset_of(
            cache.inserted(id, reading).buffers.dom(),
        ),
{
    law_insertion_keeps_the_cache_well_formed(cache, id, reading);
    let after = cache.inserted(id, reading);
    let marked = cache.live_after(live, id, reading, written);
    if cache.admits(id, reading) && !cache.resident(id) && cache.full() {
        law_one_sensor_makes_room(cache, id);
        assert(cache.resident(cache.oldest()));
    }
    assert forall|other: Seq<char>| marked.contains(other) <==> {
        &&& after.buffers.contains_key(other)
        &&& live.contains(other) || (written && other == id)
    } by {
        if live.contains(other) {
            assert(cache.buffers.dom().contains(other));
        }
    }
}

/// The live sensors after a list of readings are found one by one.
pub proof fn law_live_sensors_are_found_one_by_one(
    cache: CacheView,
    live: Set<Seq<char>>,
    items: Seq<(Seq<char>, Reading)>,
    id: Seq<char>,
    reading: Reading,
    written: bool,
)
    ensures
        cache.live_after_all(live, Seq::empty(), written) == live,
        cache.live_after_all(live, items.push((id, reading)), written) == cache.inserted_all(
            items,
        ).live_after(cache.live_after_all(live, items, written), id, reading, written),
{
    assert(items.push((id, reading)).drop_last() == items);
}

/// Cutting the cache down keeps exactly the residents among `ids`, each with
/// its whole buffer, and the limits.
pub proof fn law_cutting_down_keeps_whole_buffers(
    cache: CacheView,
    ids: Set<Seq<char>>,
    id: Seq<char>,
)
    ensures
        cache.only(ids).buffers.contains_key(id) <==> (cache.buffers.contains_key(id)
            && ids.contains(id)),
        cache.only(ids).buffers.contains_key(id) ==> cache.only(ids).buffers[id]
            == cache.buffers[id],
        cache.only(ids).per_sensor == cache.per_sensor,
        cache.only(ids).max_sensors == cache.max_sensors,
{
}

/// The figures add up sensor by sensor: each counts its readings, and the
/// bytes of its identifier and of its readings. An empty cache has none.
pub proof fn law_figures_add_up_sensor_by_sensor(cache: CacheView, id: Seq<char>)
    requires
        cache.buffers.dom().finite(),
        cache.buffers.contains_key(id),
    ensures
        ({
            let rest = CacheView { buffers: cache.buffers.remove(id), ..cache };
            &&& cache.reading_count() == rest.reading_count() + cache.buffers[id].len()
            &&& cache.byte_count() == rest.byte_count() + vstd::utf8::encode_utf8(id).len()
                + footprints(cache.buffers[id])
        }),
{
    lemma_total_remove(cache.buffers, by_count(), id);
    lemma_total_remove(cache.buffers, by_bytes(), id);
}

/// An empty cache counts nothing.
pub proof fn law_an_empty_cache_counts_nothing(cache: CacheView)
    requires
        cache.buffers == Map::<Seq<char>, Seq<Reading>>::empty(),
    ensures
        cache.reading_count() == 0,
        cache.byte_count() == 0,
{
}

/// The bytes of a buffer are those of its readings, one by one.
pub proof fn law_bytes_add_up_reading_by_reading(buffer: Seq<Reading>, next: Reading)
    ensures
        footprints(Seq::empty()) == 0,
        footprints(buffer.push(next)) == footprints(buffer) + next.footprint(),
{
    assert(buffer.push(next).drop_last() == buffer);
}

} // verus!
