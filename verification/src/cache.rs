//! In-memory "latest readings" cache, serving reads without a round trip to
//! the database. Both sensor residency and readings are bounded.
use crate::buffer;
use crate::readings;
use crate::readings::{Reading, SensorId};
use crate::residency;
use crate::residency::{CacheView, MAX_READINGS, MAX_SENSORS};
use crate::text;
use std::collections::VecDeque;
use vstd::hash_map::StringHashMap;
use vstd::prelude::*;

verus! {

/// Size figures exposed on `/stats` and as gauges.
#[derive(Clone, Copy, Debug, PartialEq, Eq, Structural)]
pub struct CacheStats {
    pub sensors: usize,
    pub readings: usize,
    pub bytes: usize,
}

impl Default for CacheStats {
    fn default() -> (stats: Self)
        ensures
            stats == (CacheStats { sensors: 0, readings: 0, bytes: 0 }),
    {
        CacheStats { sensors: 0, readings: 0, bytes: 0 }
    }
}

/// A resident sensor and its readings, oldest first.
struct Slot {
    id: SensorId,
    readings: VecDeque<Reading>,
    // Whether a write has reached the sensor since it got in.
    live: bool,
}

/// The latest readings of the resident sensors.
pub struct Cache {
    per_sensor: usize,
    max_sensors: usize,
    slots: Vec<Slot>,
    slot_of: StringHashMap<usize>,
    // Exactly one index entry per resident sensor, not one per insertion.
    by_newest: Vec<usize>,
    readings: usize,
    bytes: usize,
}

impl Slot {
    spec fn filled(self) -> bool {
        self.readings@.len() > 0
    }

    spec fn newest(self) -> int {
        self.readings@.last().ts.at()
    }

    /// The slot stands before the place of `at` and `id` in the index.
    spec fn stands_before(self, at: int, id: Seq<char>) -> bool {
        self.newest() < at || (self.newest() == at && text::text_before(self.id@, id))
    }
}

/// The directory and the slots name each other.
spec fn directory_ok(slots: Seq<Slot>, slot_of: Map<Seq<char>, usize>) -> bool {
    &&& slot_of.dom().finite()
    &&& forall|i: int|
        0 <= i < slots.len() ==> slot_of.contains_key((#[trigger] slots[i]).id@)
            && slot_of[slots[i].id@] == i
    &&& forall|id: Seq<char>| #[trigger]
        slot_of.contains_key(id) ==> slot_of[id] < slots.len() && slots[slot_of[id] as int].id@
            == id
}

/// `order` lists the filled slots, but for `missing`, in the order in which
/// they make room.
spec fn index_ok(slots: Seq<Slot>, order: Seq<usize>, missing: int) -> bool {
    &&& forall|j: int|
        0 <= j < order.len() ==> {
            &&& (#[trigger] order[j]) < slots.len()
            &&& order[j] != missing
            &&& slots[order[j] as int].filled()
        }
    &&& forall|j: int, k: int|
        0 <= j < k < order.len() ==> #[trigger] slots[order[j] as int].stands_before(
            #[trigger] slots[order[k] as int].newest(),
            slots[order[k] as int].id@,
        )
    &&& forall|i: int|
        0 <= i < slots.len() && i != missing && (#[trigger] slots[i]).filled() ==> order.contains(
            i as usize,
        )
}

/// `p` is the place of `at` and `id` in the index.
spec fn ranks(slots: Seq<Slot>, order: Seq<usize>, p: int, at: int, id: Seq<char>) -> bool {
    &&& 0 <= p <= order.len()
    &&& forall|j: int|
        0 <= j < p ==> #[trigger] slots[order[j] as int].stands_before(at, id)
    &&& forall|j: int|
        p <= j < order.len() ==> !(#[trigger] slots[order[j] as int].stands_before(at, id))
}

spec fn buffers_of(slots: Seq<Slot>, slot_of: Map<Seq<char>, usize>) -> Map<
    Seq<char>,
    Seq<Reading>,
> {
    Map::new(
        |id: Seq<char>| slot_of.contains_key(id),
        |id: Seq<char>| slots[slot_of[id] as int].readings@,
    )
}

spec fn live_of(slots: Seq<Slot>, slot_of: Map<Seq<char>, usize>) -> Set<Seq<char>> {
    Set::new(|id: Seq<char>| slot_of.contains_key(id) && slots[slot_of[id] as int].live)
}

proof fn lemma_index_remove(slots: Seq<Slot>, order: Seq<usize>, m: int, p: int)
    requires
        index_ok(slots, order, -1),
        0 <= m < slots.len() <= usize::MAX,
        slots[m].filled(),
        ranks(slots, order, p, slots[m].newest(), slots[m].id@),
    ensures
        p < order.len(),
        order[p] == m,
        index_ok(slots, order.remove(p), m),
{
    assert(order.contains(m as usize));
    let at = choose|j: int| 0 <= j < order.len() && order[j] == m as usize;
    text::law_text_order_is_strict_and_total(slots[m].id@, slots[m].id@, slots[m].id@);
    assert(!slots[order[at] as int].stands_before(slots[m].newest(), slots[m].id@));
    assert(p <= at);
    if p < at {
        assert(slots[order[p] as int].stands_before(
            slots[order[at] as int].newest(),
            slots[order[at] as int].id@,
        ));
    }
    let rest = order.remove(p);
    assert forall|j: int| 0 <= j < rest.len() implies (#[trigger] rest[j]) < slots.len() && rest[j]
        != m && slots[rest[j] as int].filled() by {
        let k = if j < p {
            j
        } else {
            j + 1
        };
        assert(rest[j] == order[k]);
        if rest[j] == m {
            if k < p {
                assert(slots[order[k] as int].stands_before(
                    slots[order[p] as int].newest(),
                    slots[order[p] as int].id@,
                ));
            } else {
                assert(slots[order[p] as int].stands_before(
                    slots[order[k] as int].newest(),
                    slots[order[k] as int].id@,
                ));
            }
        }
    }
    assert forall|j: int, k: int| 0 <= j < k < rest.len() implies #[trigger] slots[rest[j] as int].stands_before(
        #[trigger] slots[rest[k] as int].newest(),
        slots[rest[k] as int].id@,
    ) by {
        let a = if j < p {
            j
        } else {
            j + 1
        };
        let b = if k < p {
            k
        } else {
            k + 1
        };
        assert(rest[j] == order[a] && rest[k] == order[b]);
        assert(slots[order[a] as int].stands_before(
            slots[order[b] as int].newest(),
            slots[order[b] as int].id@,
        ));
    }
    assert forall|i: int|
        0 <= i < slots.len() && i != m && (#[trigger] slots[i]).filled() implies rest.contains(
        i as usize,
    ) by {
        let j = choose|j: int| 0 <= j < order.len() && order[j] == i as usize;
        if j < p {
            assert(rest[j] == i as usize);
        } else {
            assert(rest[j - 1] == i as usize);
        }
    }
}

proof fn lemma_index_insert(slots: Seq<Slot>, order: Seq<usize>, m: int, q: int)
    requires
        index_ok(slots, order, m),
        0 <= m < slots.len() <= usize::MAX,
        slots[m].filled(),
        forall|i: int, j: int|
            0 <= i < j < slots.len() ==> (#[trigger] slots[i]).id@ != (#[trigger] slots[j]).id@,
        ranks(slots, order, q, slots[m].newest(), slots[m].id@),
    ensures
        index_ok(slots, order.insert(q, m as usize), -1),
{
    let full = order.insert(q, m as usize);
    assert forall|j: int| 0 <= j < full.len() implies (#[trigger] full[j]) < slots.len() && full[j]
        != -1 && slots[full[j] as int].filled() by {
        if j < q {
            assert(full[j] == order[j]);
        } else if j > q {
            assert(full[j] == order[j - 1]);
        }
    }
    assert forall|j: int, k: int| 0 <= j < k < full.len() implies #[trigger] slots[full[j] as int].stands_before(
        #[trigger] slots[full[k] as int].newest(),
        slots[full[k] as int].id@,
    ) by {
        let a = if j < q {
            j
        } else {
            j - 1
        };
        let b = if k < q {
            k
        } else {
            k - 1
        };
        if j == q {
            assert(full[k] == order[b]);
            let other = slots[order[b] as int];
            assert(!other.stands_before(slots[m].newest(), slots[m].id@));
            assert(order[b] != m);
            assert(other.id@ != slots[m].id@);
            text::law_text_order_is_strict_and_total(slots[m].id@, other.id@, other.id@);
        } else if k == q {
            assert(full[j] == order[a]);
            assert(slots[order[a] as int].stands_before(slots[m].newest(), slots[m].id@));
        } else {
            assert(full[j] == order[a] && full[k] == order[b]);
            assert(slots[order[a] as int].stands_before(
                slots[order[b] as int].newest(),
                slots[order[b] as int].id@,
            ));
        }
    }
    assert forall|i: int|
        0 <= i < slots.len() && i != -1 && (#[trigger] slots[i]).filled() implies full.contains(
        i as usize,
    ) by {
        if i == m {
            assert(full[q] == m as usize);
        } else {
            let j = choose|j: int| 0 <= j < order.len() && order[j] == i as usize;
            if j < q {
                assert(full[j] == i as usize);
            } else {
                assert(full[j + 1] == i as usize);
            }
        }
    }
}

proof fn lemma_index_frame(slots: Seq<Slot>, order: Seq<usize>, m: int, slot: Slot)
    requires
        index_ok(slots, order, m),
        0 <= m < slots.len(),
    ensures
        index_ok(slots.update(m, slot), order, m),
{
    let after = slots.update(m, slot);
    assert forall|j: int| 0 <= j < order.len() implies (#[trigger] order[j]) < after.len()
        && order[j] != m && after[order[j] as int].filled() by {
        assert(after[order[j] as int] == slots[order[j] as int]);
    }
    assert forall|j: int, k: int| 0 <= j < k < order.len() implies #[trigger] after[order[j] as int].stands_before(
        #[trigger] after[order[k] as int].newest(),
        after[order[k] as int].id@,
    ) by {
        assert(order[j] != m && order[k] != m);
        assert(slots[order[j] as int].stands_before(
            slots[order[k] as int].newest(),
            slots[order[k] as int].id@,
        ));
    }
    assert forall|i: int|
        0 <= i < after.len() && i != m && (#[trigger] after[i]).filled() implies order.contains(
        i as usize,
    ) by {
        assert(slots[i].filled());
    }
}

proof fn lemma_directory_distinct(slots: Seq<Slot>, slot_of: Map<Seq<char>, usize>)
    requires
        directory_ok(slots, slot_of),
    ensures
        forall|i: int, j: int|
            0 <= i < j < slots.len() ==> (#[trigger] slots[i]).id@ != (#[trigger] slots[j]).id@,
        slot_of.dom().len() == slots.len(),
        buffers_of(slots, slot_of).dom() == slot_of.dom(),
{
    let ids = slots.map_values(|slot: Slot| slot.id@);
    assert(ids.no_duplicates());
    ids.unique_seq_to_set();
    assert(ids.to_set() =~= slot_of.dom()) by {
        assert forall|id: Seq<char>| slot_of.dom().contains(id) implies ids.to_set().contains(
            id,
        ) by {
            assert(slot_of.contains_key(id));
            assert(ids[slot_of[id] as int] == id);
        }
        assert forall|id: Seq<char>| ids.to_set().contains(id) implies slot_of.dom().contains(
            id,
        ) by {
            let i = choose|i: int| 0 <= i < ids.len() && ids[i] == id;
            assert(slot_of.contains_key(slots[i].id@));
        }
    }
    assert(buffers_of(slots, slot_of).dom() =~= slot_of.dom());
}

proof fn lemma_refill(slots: Seq<Slot>, slot_of: Map<Seq<char>, usize>, m: int, slot: Slot)
    requires
        directory_ok(slots, slot_of),
        0 <= m < slots.len(),
        slot.id@ == slots[m].id@,
    ensures
        directory_ok(slots.update(m, slot), slot_of),
        buffers_of(slots.update(m, slot), slot_of) == buffers_of(slots, slot_of).insert(
            slot.id@,
            slot.readings@,
        ),
        live_of(slots.update(m, slot), slot_of) == if slot.live {
            live_of(slots, slot_of).insert(slot.id@)
        } else {
            live_of(slots, slot_of).remove(slot.id@)
        },
{
    let after = slots.update(m, slot);
    lemma_directory_distinct(slots, slot_of);
    assert forall|i: int| 0 <= i < after.len() implies slot_of.contains_key(
        (#[trigger] after[i]).id@,
    ) && slot_of[after[i].id@] == i by {
        assert(slot_of.contains_key(slots[i].id@));
    }
    assert(slot_of.contains_key(slots[m].id@));
    assert forall|id: Seq<char>| #[trigger] slot_of.contains_key(id) implies slot_of[id]
        < after.len() && after[slot_of[id] as int].id@ == id by {}
    assert(buffers_of(after, slot_of) =~= buffers_of(slots, slot_of).insert(
        slot.id@,
        slot.readings@,
    ));
    assert(live_of(after, slot_of) =~= if slot.live {
        live_of(slots, slot_of).insert(slot.id@)
    } else {
        live_of(slots, slot_of).remove(slot.id@)
    });
}

/// A new slot behind the others.
proof fn lemma_take_seat(slots: Seq<Slot>, slot_of: Map<Seq<char>, usize>, slot: Slot)
    requires
        directory_ok(slots, slot_of),
        !slot_of.contains_key(slot.id@),
        slots.len() < usize::MAX,
    ensures
        directory_ok(slots.push(slot), slot_of.insert(slot.id@, slots.len() as usize)),
        buffers_of(slots.push(slot), slot_of.insert(slot.id@, slots.len() as usize))
            == buffers_of(slots, slot_of).insert(slot.id@, slot.readings@),
        live_of(slots.push(slot), slot_of.insert(slot.id@, slots.len() as usize)) == if slot.live {
            live_of(slots, slot_of).insert(slot.id@)
        } else {
            live_of(slots, slot_of)
        },
{
    let after = slots.push(slot);
    let names = slot_of.insert(slot.id@, slots.len() as usize);
    assert forall|i: int| 0 <= i < after.len() implies names.contains_key((#[trigger] after[i]).id@)
        && names[after[i].id@] == i by {
        if i < slots.len() {
            assert(after[i] == slots[i]);
            assert(slot_of.contains_key(slots[i].id@));
        }
    }
    assert forall|id: Seq<char>| #[trigger] names.contains_key(id) implies names[id] < after.len()
        && after[names[id] as int].id@ == id by {
        if id != slot.id@ {
            assert(slot_of.contains_key(id));
        }
    }
    assert forall|id: Seq<char>| slot_of.contains_key(id) implies #[trigger] slot_of[id]
        < slots.len() by {}
    assert(buffers_of(after, names) =~= buffers_of(slots, slot_of).insert(
        slot.id@,
        slot.readings@,
    ));
    assert(live_of(after, names) =~= if slot.live {
        live_of(slots, slot_of).insert(slot.id@)
    } else {
        live_of(slots, slot_of)
    });
}

/// A slot passed on from one sensor to another.
proof fn lemma_change_seat(slots: Seq<Slot>, slot_of: Map<Seq<char>, usize>, m: int, slot: Slot)
    requires
        directory_ok(slots, slot_of),
        0 <= m < slots.len() <= usize::MAX,
        !slot_of.contains_key(slot.id@),
    ensures
        directory_ok(
            slots.update(m, slot),
            slot_of.remove(slots[m].id@).insert(slot.id@, m as usize),
        ),
        buffers_of(
            slots.update(m, slot),
            slot_of.remove(slots[m].id@).insert(slot.id@, m as usize),
        ) == buffers_of(slots, slot_of).remove(slots[m].id@).insert(slot.id@, slot.readings@),
        !slot.live ==> live_of(
            slots.update(m, slot),
            slot_of.remove(slots[m].id@).insert(slot.id@, m as usize),
        ) == live_of(slots, slot_of).remove(slots[m].id@),
{
    let after = slots.update(m, slot);
    let gone = slots[m].id@;
    let names = slot_of.remove(gone).insert(slot.id@, m as usize);
    lemma_directory_distinct(slots, slot_of);
    assert forall|i: int| 0 <= i < after.len() implies names.contains_key((#[trigger] after[i]).id@)
        && names[after[i].id@] == i by {
        if i != m {
            assert(after[i] == slots[i]);
            assert(slot_of.contains_key(slots[i].id@));
            assert(slots[i].id@ != gone);
        }
    }
    assert forall|id: Seq<char>| #[trigger] names.contains_key(id) implies names[id] < after.len()
        && after[names[id] as int].id@ == id by {
        if id != slot.id@ {
            assert(slot_of.contains_key(id));
            assert(slot_of[id] != m);
        }
    }
    assert forall|id: Seq<char>|
        id != slot.id@ && #[trigger] names.contains_key(id) implies slot_of[id] != m by {
        assert(slot_of.contains_key(id));
    }
    assert(buffers_of(after, names) =~= buffers_of(slots, slot_of).remove(gone).insert(
        slot.id@,
        slot.readings@,
    ));
    if !slot.live {
        assert(live_of(after, names) =~= live_of(slots, slot_of).remove(gone));
    }
}

/// An empty slot need not be listed.
proof fn lemma_index_with_empty_slot(slots: Seq<Slot>, order: Seq<usize>, m: int)
    requires
        index_ok(slots, order, m),
        0 <= m < slots.len(),
        !slots[m].filled(),
    ensures
        index_ok(slots, order, -1),
{
}

/// A new slot that is not listed yet.
proof fn lemma_index_push(slots: Seq<Slot>, order: Seq<usize>, slot: Slot)
    requires
        index_ok(slots, order, -1),
    ensures
        index_ok(slots.push(slot), order, slots.len() as int),
{
    let after = slots.push(slot);
    assert forall|j: int| 0 <= j < order.len() implies (#[trigger] order[j]) < after.len()
        && order[j] != slots.len() && after[order[j] as int].filled() by {
        assert(after[order[j] as int] == slots[order[j] as int]);
    }
    assert forall|j: int, k: int| 0 <= j < k < order.len() implies #[trigger] after[order[j] as int].stands_before(
        #[trigger] after[order[k] as int].newest(),
        after[order[k] as int].id@,
    ) by {
        assert(after[order[j] as int] == slots[order[j] as int]);
        assert(after[order[k] as int] == slots[order[k] as int]);
        assert(slots[order[j] as int].stands_before(
            slots[order[k] as int].newest(),
            slots[order[k] as int].id@,
        ));
    }
    assert forall|i: int|
        0 <= i < after.len() && i != slots.len() && (#[trigger] after[i]).filled() implies order.contains(
        i as usize,
    ) by {
        assert(after[i] == slots[i]);
    }
}

impl View for Cache {
    type V = CacheView;

    closed spec fn view(&self) -> CacheView {
        CacheView {
            per_sensor: self.per_sensor as nat,
            max_sensors: self.max_sensors as nat,
            buffers: buffers_of(self.slots@, self.slot_of@),
        }
    }
}

impl Cache {
    /// The parts of the cache agree; a sensor just let in may still be empty.
    spec fn coherent(self) -> bool {
        &&& directory_ok(self.slots@, self.slot_of@)
        &&& index_ok(self.slots@, self.by_newest@, -1)
        &&& self.slots@.len() <= self.max_sensors
        &&& self.readings == self@.reading_count()
        &&& self.bytes == readings::word(self@.byte_count())
    }

    /// The cache is in order: within its limits, with its index and its
    /// figures up to date.
    pub closed spec fn wf(self) -> bool {
        &&& self.coherent()
        &&& self@.wf()
    }

    /// The resident sensors that a write has reached since they got in; the
    /// others hold nothing but what was read back from storage.
    pub closed spec fn live(self) -> Set<Seq<char>> {
        live_of(self.slots@, self.slot_of@)
    }

    /// What a cache in order holds is well formed: within the limits, with no
    /// buffer empty or out of order.
    pub proof fn law_contents_are_well_formed(self)
        requires
            self.wf(),
        ensures
            self@.wf(),
            self.live().subset_of(self@.buffers.dom()),
            1 <= self@.per_sensor,
            1 <= self@.max_sensors <= 2_048,
            self@.buffers.dom().finite(),
            self@.buffers.dom().len() <= self@.max_sensors,
            forall|id: Seq<char>| #[trigger]
                self@.buffers.contains_key(id) ==> 0 < self@.buffers[id].len()
                    <= self@.per_sensor,
            forall|id: Seq<char>, i: int, j: int|
                self@.buffers.contains_key(id) && 0 <= i <= j < self@.buffers[id].len() ==> (
                #[trigger] self@.buffers[id][i]).ts.at() <= (
                #[trigger] self@.buffers[id][j]).ts.at(),
    {
    }

    /// The first place in the index that is not before `at` and `id`.
    fn rank(&self, at: i128, id: &str, missing: Ghost<int>) -> (p: usize)
        requires
            index_ok(self.slots@, self.by_newest@, missing@),
        ensures
            ranks(self.slots@, self.by_newest@, p as int, at as int, id@),
    {
        let ghost slots = self.slots@;
        let ghost order = self.by_newest@;
        let mut low: usize = 0;
        let mut high: usize = self.by_newest.len();
        while low < high
            invariant
                slots == self.slots@,
                order == self.by_newest@,
                index_ok(slots, order, missing@),
                low <= high <= order.len(),
                forall|j: int|
                    0 <= j < low ==> #[trigger] slots[order[j] as int].stands_before(
                        at as int,
                        id@,
                    ),
                forall|j: int|
                    high <= j < order.len() ==> !(#[trigger] slots[order[j] as int].stands_before(
                        at as int,
                        id@,
                    )),
            decreases high - low,
        {
            let mid: usize = low + (high - low) / 2;
            assert(order[mid as int] < slots.len());
            let slot = &self.slots[self.by_newest[mid]];
            let count: usize = slot.readings.len();
            let newest: i128 = slot.readings[count - 1].ts.instant();
            let before: bool = newest < at || (newest == at && text::sorts_before(
                slot.id.as_str(),
                id,
            ));
            proof {
                assert(before == slots[order[mid as int] as int].stands_before(at as int, id@));
                assert forall|j: int| 0 <= j < mid && before implies #[trigger] slots[order[j] as int].stands_before(
                    at as int,
                    id@,
                ) by {
                    let a = slots[order[j] as int];
                    let b = slots[order[mid as int] as int];
                    assert(a.stands_before(b.newest(), b.id@));
                    text::law_text_order_is_strict_and_total(a.id@, b.id@, id@);
                }
                assert forall|j: int| mid < j < order.len() && !before implies !(
                #[trigger] slots[order[j] as int].stands_before(at as int, id@)) by {
                    let a = slots[order[mid as int] as int];
                    let b = slots[order[j] as int];
                    assert(a.stands_before(b.newest(), b.id@));
                    text::law_text_order_is_strict_and_total(a.id@, b.id@, id@);
                }
            }
            if before {
                low = mid + 1;
            } else {
                high = mid;
            }
        }
        low
    }
}

/// The bytes taken by the readings of a buffer, modulo the machine word.
fn footprint_sum(buffer: &VecDeque<Reading>) -> (sum: usize)
    ensures
        sum == readings::word(residency::footprints(buffer@)),
{
    let total: usize = buffer.len();
    let mut sum: usize = 0;
    let mut i: usize = 0;
    proof {
        readings::lemma_word_small(0);
        assert(buffer@.take(0) == Seq::<Reading>::empty());
    }
    while i < total
        invariant
            total == buffer@.len(),
            i <= total,
            sum == readings::word(residency::footprints(buffer@.take(i as int))),
        decreases total - i,
    {
        proof {
            assert(buffer@.take(i + 1).drop_last() == buffer@.take(i as int));
            readings::lemma_word_sum(
                residency::footprints(buffer@.take(i as int)),
                buffer@[i as int].footprint(),
            );
        }
        sum = sum.wrapping_add(buffer[i].byte_len());
        i = i + 1;
    }
    proof {
        assert(buffer@.take(total as int) == buffer@);
    }
    sum
}

/// `VecDeque::capacity`: how many readings the buffer can hold without growing,
/// which is never fewer than it holds. How many more depends on the allocator.
#[verifier::external_body]
fn capacity_of(buffer: &VecDeque<Reading>) -> (slots: usize)
    ensures
        slots >= buffer@.len(),
{
    buffer.capacity()
}

impl Cache {
    proof fn lemma_settled(self)
        requires
            self.wf(),
        ensures
            forall|i: int| 0 <= i < self.slots@.len() ==> (#[trigger] self.slots@[i]).filled(),
            self@.buffers.dom().len() == self.slots@.len(),
            self.slots@.len() > 0 ==> {
                &&& self.by_newest@.len() > 0
                &&& self.by_newest@[0] < self.slots@.len()
                &&& self@.oldest() == self.slots@[self.by_newest@[0] as int].id@
            },
    {
        let slots = self.slots@;
        let order = self.by_newest@;
        lemma_directory_distinct(slots, self.slot_of@);
        assert forall|i: int| 0 <= i < slots.len() implies (#[trigger] slots[i]).filled() by {
            assert(self@.buffers.contains_key(slots[i].id@));
        }
        if slots.len() > 0 {
            assert(slots[0].filled());
            assert(order.contains(0usize));
            let first = slots[order[0] as int];
            let id = first.id@;
            assert(self@.resident(id));
            assert forall|other: Seq<char>| #[trigger]
                self@.resident(other) && other != id implies self@.yields_before(id, other) by {
                let i = self.slot_of@[other] as int;
                assert(slots[i].filled());
                let j = choose|j: int| 0 <= j < order.len() && order[j] == i as usize;
                assert(j != 0);
                assert(first.stands_before(
                    slots[order[j] as int].newest(),
                    slots[order[j] as int].id@,
                ));
            }
            assert(self@.yields_first(id));
            residency::law_one_sensor_makes_room(self@, id);
        }
    }

    /// Makes room for the sensor of `reading` if it is not resident. At
    /// capacity only a reading newer than the oldest resident's newest one
    /// gets its sensor in: historical warm-up must not replace newer live
    /// data, and ties keep the incumbent.
    fn let_in(&mut self, sensor: &SensorId, reading: &Reading) -> (admitted: bool)
        requires
            old(self).wf(),
        ensures
            admitted == old(self)@.admits(sensor@, *reading),
            !admitted ==> *final(self) == *old(self),
            admitted ==> {
                &&& final(self).coherent()
                &&& final(self).per_sensor == old(self).per_sensor
                &&& final(self).max_sensors == old(self).max_sensors
                &&& final(self)@.buffers == if old(self)@.resident(sensor@) {
                    old(self)@.buffers
                } else {
                    old(self)@.with_room(sensor@).insert(sensor@, Seq::empty())
                }
                &&& final(self).live() == old(self)@.live_after(
                    old(self).live(),
                    sensor@,
                    *reading,
                    false,
                )
            },
    {
        if self.slot_of.contains_key(sensor.as_str()) {
            return true;
        }
        proof {
            self.lemma_settled();
        }
        let ghost before = self@;
        let ghost id = sensor@;
        let fresh = Slot { id: sensor.clone(), readings: VecDeque::new(), live: false };
        if self.slots.len() >= self.max_sensors {
            let victim: usize = self.by_newest[0];
            let held: usize = self.slots[victim].readings.len();
            let oldest: i128 = self.slots[victim].readings[held - 1].ts.instant();
            if reading.ts.instant() <= oldest {
                return false;
            }
            let ghost gone = self.slots@[victim as int];
            let weight: usize = self.slots[victim].id.byte_len().wrapping_add(
                footprint_sum(&self.slots[victim].readings),
            );
            proof {
                assert(ranks(self.slots@, self.by_newest@, 0, gone.newest(), gone.id@)) by {
                    let slots = self.slots@;
                    let order = self.by_newest@;
                    assert forall|j: int| 0 <= j < order.len() implies !(
                    #[trigger] slots[order[j] as int].stands_before(gone.newest(), gone.id@)) by {
                        let other = slots[order[j] as int];
                        text::law_text_order_is_strict_and_total(gone.id@, other.id@, gone.id@);
                        text::law_text_order_is_strict_and_total(other.id@, gone.id@, other.id@);
                        text::law_text_order_is_strict_and_total(gone.id@, gone.id@, gone.id@);
                        if j > 0 {
                            assert(slots[order[0] as int].stands_before(
                                other.newest(),
                                other.id@,
                            ));
                        }
                    }
                }
                lemma_index_remove(self.slots@, self.by_newest@, victim as int, 0);
                lemma_index_frame(self.slots@, self.by_newest@.remove(0), victim as int, fresh);
                lemma_index_with_empty_slot(
                    self.slots@.update(victim as int, fresh),
                    self.by_newest@.remove(0),
                    victim as int,
                );
                lemma_change_seat(self.slots@, self.slot_of@, victim as int, fresh);
                residency::lemma_total_remove(before.buffers, residency::by_count(), gone.id@);
                residency::lemma_total_remove(before.buffers, residency::by_bytes(), gone.id@);
                residency::lemma_total_insert(
                    before.buffers.remove(gone.id@),
                    residency::by_count(),
                    id,
                    Seq::empty(),
                );
                residency::lemma_total_insert(
                    before.buffers.remove(gone.id@),
                    residency::by_bytes(),
                    id,
                    Seq::empty(),
                );
                let rest = residency::total(
                    before.buffers.remove(gone.id@),
                    residency::by_bytes(),
                );
                let lost = text::utf8_len(gone.id@) + residency::footprints(gone.readings@);
                readings::lemma_word_small(text::utf8_len(gone.id@));
                readings::lemma_word_sum(
                    text::utf8_len(gone.id@),
                    residency::footprints(gone.readings@),
                );
                readings::lemma_word_difference(rest, lost);
                readings::lemma_word_sum(rest, text::utf8_len(id));
                assert(rest + lost == before.byte_count());
            }
            self.by_newest.remove(0);
            self.slot_of.remove(self.slots[victim].id.as_str());
            self.slot_of.insert(sensor.as_str().to_owned(), victim);
            self.readings = self.readings - held;
            self.bytes = self.bytes.wrapping_sub(weight);
            let added: usize = sensor.byte_len();
            proof {
                readings::lemma_word_small(text::utf8_len(id));
            }
            self.bytes = self.bytes.wrapping_add(added);
            self.slots[victim] = fresh;
        } else {
            proof {
                lemma_index_push(self.slots@, self.by_newest@, fresh);
                lemma_index_with_empty_slot(
                    self.slots@.push(fresh),
                    self.by_newest@,
                    self.slots@.len() as int,
                );
                lemma_take_seat(self.slots@, self.slot_of@, fresh);
                residency::lemma_total_insert(
                    before.buffers,
                    residency::by_count(),
                    id,
                    Seq::empty(),
                );
                residency::lemma_total_insert(
                    before.buffers,
                    residency::by_bytes(),
                    id,
                    Seq::empty(),
                );
                readings::lemma_word_sum(before.byte_count(), text::utf8_len(id));
            }
            let seat: usize = self.slots.len();
            let added: usize = sensor.byte_len();
            proof {
                readings::lemma_word_small(text::utf8_len(id));
            }
            self.slot_of.insert(sensor.as_str().to_owned(), seat);
            self.bytes = self.bytes.wrapping_add(added);
            self.slots.push(fresh);
        }
        true
    }
}

/// The live sensors with a slot at `first` or behind it.
spec fn live_from(slots: Seq<Slot>, slot_of: Map<Seq<char>, usize>, first: int) -> Set<Seq<char>> {
    Set::new(
        |id: Seq<char>|
            slot_of.contains_key(id) && slot_of[id] >= first && slots[slot_of[id] as int].live,
    )
}

/// References to sensors and readings held as pairs.
fn borrowed<'a>(pairs: &'a Vec<(SensorId, Reading)>) -> (items: Vec<(&'a SensorId, &'a Reading)>)
    ensures
        arrivals(items@) == readings::pairs_view(pairs@),
{
    let total: usize = pairs.len();
    let mut items: Vec<(&SensorId, &Reading)> = Vec::new();
    let mut i: usize = 0;
    while i < total
        invariant
            total == pairs@.len(),
            i <= total,
            items@.len() == i,
            forall|k: int|
                0 <= k < i ==> *(#[trigger] items@[k]).0 == pairs@[k].0 && *items@[k].1
                    == pairs@[k].1,
        decreases total - i,
    {
        items.push((&pairs[i].0, &pairs[i].1));
        i = i + 1;
    }
    proof {
        assert(arrivals(items@) =~= readings::pairs_view(pairs@));
    }
    items
}

/// Arrivals with each identifier as text.
pub open spec fn arrivals(items: Seq<(&SensorId, &Reading)>) -> Seq<(Seq<char>, Reading)> {
    items.map_values(|item: (&SensorId, &Reading)| (item.0@, *item.1))
}

proof fn lemma_footprints_insert(buffer: Seq<Reading>, p: int, reading: Reading)
    requires
        0 <= p <= buffer.len(),
    ensures
        residency::footprints(buffer.insert(p, reading)) == residency::footprints(buffer)
            + reading.footprint(),
    decreases buffer.len(),
{
    let all = buffer.insert(p, reading);
    if p == buffer.len() {
        assert(all.drop_last() == buffer);
    } else {
        lemma_footprints_insert(buffer.drop_last(), p, reading);
        assert(all.drop_last() == buffer.drop_last().insert(p, reading));
    }
}

proof fn lemma_footprints_drop_first(buffer: Seq<Reading>)
    requires
        buffer.len() > 0,
    ensures
        residency::footprints(buffer) == buffer[0].footprint() + residency::footprints(
            buffer.drop_first(),
        ),
{
    lemma_footprints_insert(buffer.drop_first(), 0, buffer[0]);
    assert(buffer.drop_first().insert(0, buffer[0]) == buffer);
}

impl Cache {
    /// An empty cache that keeps `per_sensor` readings per sensor, held to
    /// 1..=131072, for as many sensors as then fit.
    pub fn new(per_sensor: usize) -> (cache: Self)
        ensures
            cache.wf(),
            cache@ == CacheView::empty(per_sensor as nat),
            cache.live() == Set::<Seq<char>>::empty(),
    {
        let per_sensor: usize = if per_sensor < 1 {
            1
        } else if per_sensor > MAX_READINGS {
            MAX_READINGS
        } else {
            per_sensor
        };
        let fitting: usize = MAX_READINGS / per_sensor;
        let max_sensors: usize = if fitting < MAX_SENSORS {
            fitting
        } else {
            MAX_SENSORS
        };
        let cache = Cache {
            per_sensor,
            max_sensors,
            slots: Vec::new(),
            slot_of: StringHashMap::new(),
            by_newest: Vec::new(),
            readings: 0,
            bytes: 0,
        };
        proof {
            assert(cache@.buffers =~= Map::empty());
            assert(cache.live() =~= Set::empty());
            residency::law_empty_is_well_formed(per_sensor as nat);
            readings::lemma_word_small(0);
        }
        cache
    }

    /// Takes a slot out of the index.
    fn unlist(&mut self, slot: usize)
        requires
            slot < old(self).slots@.len(),
            index_ok(old(self).slots@, old(self).by_newest@, -1),
        ensures
            index_ok(final(self).slots@, final(self).by_newest@, slot as int),
            *final(self) == (Cache { by_newest: final(self).by_newest, ..*old(self) }),
    {
        let count: usize = self.slots[slot].readings.len();
        if count > 0 {
            let newest: i128 = self.slots[slot].readings[count - 1].ts.instant();
            let p: usize = self.rank(newest, self.slots[slot].id.as_str(), Ghost(-1));
            proof {
                assert(self.slots.len() <= usize::MAX);
                lemma_index_remove(self.slots@, self.by_newest@, slot as int, p as int);
            }
            self.by_newest.remove(p);
        }
    }

    /// Puts a slot where its newest reading belongs in the index.
    fn list(&mut self, slot: usize)
        requires
            slot < old(self).slots@.len(),
            old(self).slots@[slot as int].filled(),
            directory_ok(old(self).slots@, old(self).slot_of@),
            index_ok(old(self).slots@, old(self).by_newest@, slot as int),
        ensures
            index_ok(final(self).slots@, final(self).by_newest@, -1),
            *final(self) == (Cache { by_newest: final(self).by_newest, ..*old(self) }),
    {
        let count: usize = self.slots[slot].readings.len();
        let newest: i128 = self.slots[slot].readings[count - 1].ts.instant();
        let q: usize = self.rank(newest, self.slots[slot].id.as_str(), Ghost(slot as int));
        proof {
            assert(self.slots.len() <= usize::MAX);
            lemma_directory_distinct(self.slots@, self.slot_of@);
            lemma_index_insert(self.slots@, self.by_newest@, slot as int, q as int);
        }
        self.by_newest.insert(q, slot);
    }

    /// Merges a reading into a slot, drops the oldest one if the slot runs
    /// over, and keeps the figures up to date. A write makes the slot live.
    fn store(&mut self, slot: usize, reading: &Reading, written: bool)
        requires
            slot < old(self).slots@.len(),
            buffer::in_order(old(self).slots@[slot as int].readings@),
            old(self).slots@[slot as int].readings@.len() <= old(self).per_sensor,
            old(self).per_sensor >= 1,
            old(self).readings < usize::MAX,
        ensures
            ({
                let before = old(self).slots@[slot as int];
                let after = final(self).slots@[slot as int];
                &&& final(self).slots@ == old(self).slots@.update(slot as int, after)
                &&& after.id == before.id
                &&& after.live == (before.live || written)
                &&& after.readings@ == buffer::merged(
                    before.readings@,
                    *reading,
                    old(self).per_sensor as nat,
                )
                &&& final(self).readings - after.readings@.len() == old(self).readings
                    - before.readings@.len()
                &&& forall|others: nat|
                    old(self).bytes == #[trigger] readings::word(
                        others + residency::footprints(before.readings@),
                    ) ==> final(self).bytes == readings::word(
                        others + residency::footprints(after.readings@),
                    )
            }),
            final(self).per_sensor == old(self).per_sensor,
            final(self).max_sensors == old(self).max_sensors,
            final(self).slot_of == old(self).slot_of,
            final(self).by_newest == old(self).by_newest,
    {
        let ghost held = self.slots@[slot as int].readings@;
        let ghost all = buffer::placed(held, *reading);
        let ghost kept = buffer::merged(held, *reading, self.per_sensor as nat);
        let count: usize = self.slots[slot].readings.len();
        let weight: usize = reading.byte_len();
        let position: usize = buffer::partition(&self.slots[slot].readings, reading.ts.instant());
        proof {
            buffer::lemma_placed_at_split(held, *reading, position as int);
            lemma_footprints_insert(held, position as int, *reading);
        }
        self.slots[slot].readings.insert(position, reading.clone());
        if written {
            self.slots[slot].live = true;
        }
        let added: usize = self.bytes.wrapping_add(weight);
        proof {
            assert forall|others: nat|
                old(self).bytes == #[trigger] readings::word(
                    others + residency::footprints(held),
                ) implies added == readings::word(others + residency::footprints(all)) by {
                readings::lemma_word_sum(
                    others + residency::footprints(held),
                    reading.footprint(),
                );
                assert(others + residency::footprints(held) + reading.footprint() == others
                    + residency::footprints(all));
            }
        }
        if count >= self.per_sensor {
            let evicted = self.slots[slot].readings.pop_front();
            let lost: usize = match &evicted {
                Some(oldest) => oldest.byte_len(),
                None => 0,
            };
            // Subtract from the total: an insertion delta cannot represent shrinkage.
            self.bytes = added.wrapping_sub(lost);
            proof {
                assert(kept == all.drop_first());
                lemma_footprints_drop_first(all);
                assert forall|others: nat|
                    old(self).bytes == #[trigger] readings::word(
                        others + residency::footprints(held),
                    ) implies self.bytes == readings::word(
                    others + residency::footprints(kept),
                ) by {
                    readings::lemma_word_difference(
                        others + residency::footprints(kept),
                        all[0].footprint(),
                    );
                    assert(others + residency::footprints(kept) + all[0].footprint() == others
                        + residency::footprints(all));
                }
            }
        } else {
            self.bytes = added;
            self.readings = self.readings + 1;
        }
    }

    /// Merges one reading by timestamp, if its sensor gets in.
    fn insert_one(&mut self, sensor: &SensorId, reading: &Reading, written: bool)
        requires
            old(self).wf(),
        ensures
            final(self).wf(),
            final(self)@ == old(self)@.inserted(sensor@, *reading),
            final(self).live() == old(self)@.live_after(
                old(self).live(),
                sensor@,
                *reading,
                written,
            ),
    {
        let ghost start = self@;
        let ghost id = sensor@;
        if !self.let_in(sensor, reading) {
            return ;
        }
        let ghost room = self@;
        let ghost live = self.live();
        proof {
            assert(room.buffers.contains_key(id));
        }
        let slot: usize = match self.slot_of.get(sensor.as_str()) {
            Some(slot) => *slot,
            None => return ,
        };
        let ghost held = self.slots@[slot as int].readings@;
        let ghost kept = buffer::merged(held, *reading, start.per_sensor);
        let ghost rest = room.buffers.remove(id);
        let ghost after = room.buffers.insert(id, kept);
        proof {
            lemma_directory_distinct(self.slots@, self.slot_of@);
            assert(held == room.buffers[id]);
            assert(held == start.held(id));
            assert(start.resident(id) ==> start.buffers.contains_key(id));
            residency::law_insertion_keeps_the_cache_well_formed(start, id, *reading);
            residency::law_readings_fit_the_budget(start.inserted(id, *reading));
            buffer::law_merging_keeps_order_and_limit(held, *reading, start.per_sensor);
            assert(after == start.inserted(id, *reading).buffers);
            assert(after.remove(id) =~= rest);
            residency::lemma_total_remove(room.buffers, residency::by_count(), id);
            residency::lemma_total_remove(room.buffers, residency::by_bytes(), id);
            residency::lemma_total_remove(after, residency::by_count(), id);
            residency::lemma_total_remove(after, residency::by_bytes(), id);
        }
        self.unlist(slot);
        let ghost slots = self.slots@;
        let ghost others = residency::total(rest, residency::by_bytes()) + text::utf8_len(id);
        proof {
            assert(self.bytes == readings::word(others + residency::footprints(held)));
        }
        self.store(slot, reading, written);
        proof {
            let filled = self.slots@[slot as int];
            lemma_index_frame(slots, self.by_newest@, slot as int, filled);
            lemma_refill(slots, self.slot_of@, slot as int, filled);
        }
        self.list(slot);
        proof {
            assert(self@.buffers == after);
            assert(self.bytes == readings::word(others + residency::footprints(kept)));
            assert(self.live() =~= if written {
                live.insert(id)
            } else {
                live
            });
        }
    }

    fn insert_each(&mut self, items: &[(&SensorId, &Reading)], written: bool)
        requires
            old(self).wf(),
        ensures
            final(self).wf(),
            final(self)@ == old(self)@.inserted_all(arrivals(items@)),
            final(self).live() == old(self)@.live_after_all(
                old(self).live(),
                arrivals(items@),
                written,
            ),
    {
        let ghost start = self@;
        let ghost live = self.live();
        let ghost all = arrivals(items@);
        let total: usize = items.len();
        let mut i: usize = 0;
        proof {
            assert(all.take(0) == Seq::<(Seq<char>, Reading)>::empty());
        }
        while i < total
            invariant
                total == items@.len(),
                all == arrivals(items@),
                i <= total,
                self.wf(),
                self@ == start.inserted_all(all.take(i as int)),
                self.live() == start.live_after_all(live, all.take(i as int), written),
            decreases total - i,
        {
            proof {
                assert(all.take(i + 1).drop_last() == all.take(i as int));
            }
            let (sensor, reading) = items[i];
            self.insert_one(sensor, reading, written);
            i = i + 1;
        }
        proof {
            assert(all.take(total as int) == all);
        }
    }

    /// Merges by timestamp and retains the newest readings. Equal timestamps
    /// retain arrival order; measurements are not deduplicated. At capacity,
    /// only sensors newer than the oldest resident are admitted. Admission and
    /// eviction affect this cache only, never persisted readings.
    pub fn insert(&mut self, items: &[(&SensorId, &Reading)])
        requires
            old(self).wf(),
        ensures
            final(self).wf(),
            final(self)@ == old(self)@.inserted_all(arrivals(items@)),
            final(self).live() == old(self)@.live_after_all(
                old(self).live(),
                arrivals(items@),
                true,
            ),
    {
        self.insert_each(items, true)
    }

    /// Inserts sensors and readings held as pairs, in order.
    pub fn insert_pairs(&mut self, pairs: &Vec<(SensorId, Reading)>)
        requires
            old(self).wf(),
        ensures
            final(self).wf(),
            final(self)@ == old(self)@.inserted_all(readings::pairs_view(pairs@)),
            final(self).live() == old(self)@.live_after_all(
                old(self).live(),
                readings::pairs_view(pairs@),
                true,
            ),
    {
        let items = borrowed(pairs);
        self.insert_each(items.as_slice(), true)
    }

    /// Inserts pairs that were read back from storage: by the same policy and
    /// the same merge, but no sensor becomes live by it.
    pub fn restore_pairs(&mut self, pairs: &Vec<(SensorId, Reading)>)
        requires
            old(self).wf(),
        ensures
            final(self).wf(),
            final(self)@ == old(self)@.inserted_all(readings::pairs_view(pairs@)),
            final(self).live() == old(self)@.live_after_all(
                old(self).live(),
                readings::pairs_view(pairs@),
                false,
            ),
    {
        let items = borrowed(pairs);
        self.insert_each(items.as_slice(), false)
    }

    /// Puts a filled slot behind the others.
    fn seat(&mut self, slot: Slot)
        requires
            old(self).coherent(),
            old(self).slots@.len() < old(self).max_sensors,
            slot.filled(),
            !old(self).slot_of@.contains_key(slot.id@),
            old(self)@.reading_count() + slot.readings@.len() <= MAX_READINGS,
        ensures
            final(self).coherent(),
            final(self).per_sensor == old(self).per_sensor,
            final(self).max_sensors == old(self).max_sensors,
            final(self).slots@ == old(self).slots@.push(slot),
            final(self)@.buffers == old(self)@.buffers.insert(slot.id@, slot.readings@),
            final(self).live() == if slot.live {
                old(self).live().insert(slot.id@)
            } else {
                old(self).live()
            },
    {
        let ghost before = self@;
        let ghost id = slot.id@;
        let place: usize = self.slots.len();
        let count: usize = slot.readings.len();
        let weight: usize = slot.id.byte_len().wrapping_add(footprint_sum(&slot.readings));
        proof {
            let bytes = text::utf8_len(id) + residency::footprints(slot.readings@);
            lemma_directory_distinct(self.slots@, self.slot_of@);
            lemma_index_push(self.slots@, self.by_newest@, slot);
            lemma_take_seat(self.slots@, self.slot_of@, slot);
            residency::lemma_total_insert(
                before.buffers,
                residency::by_count(),
                id,
                slot.readings@,
            );
            residency::lemma_total_insert(
                before.buffers,
                residency::by_bytes(),
                id,
                slot.readings@,
            );
            readings::lemma_word_small(text::utf8_len(id));
            readings::lemma_word_sum(
                text::utf8_len(id),
                residency::footprints(slot.readings@),
            );
            readings::lemma_word_sum(before.byte_count(), bytes);
        }
        self.slot_of.insert(slot.id.as_str().to_owned(), place);
        self.readings = self.readings + count;
        self.bytes = self.bytes.wrapping_add(weight);
        self.slots.push(slot);
        self.list(place);
    }

    /// Drops every sensor that no write has reached, with its accounting.
    pub fn keep_live(&mut self)
        requires
            old(self).wf(),
        ensures
            final(self).wf(),
            final(self)@ == old(self)@.only(old(self).live()),
            final(self).live() == old(self).live(),
    {
        let ghost before = self@;
        let ghost all = self.slots@;
        let ghost names = self.slot_of@;
        proof {
            self.lemma_settled();
            lemma_directory_distinct(all, names);
        }
        let mut rest: Vec<Slot> = Vec::new();
        std::mem::swap(&mut rest, &mut self.slots);
        self.slot_of = StringHashMap::new();
        self.by_newest = Vec::new();
        self.readings = 0;
        self.bytes = 0;
        proof {
            assert(self@.buffers =~= Map::empty());
            assert(self.live() =~= Set::empty());
            assert(live_from(all, names, all.len() as int) =~= Set::empty());
            assert(before.only(Set::empty()).buffers =~= Map::empty());
            readings::lemma_word_small(0);
            assert(all.take(all.len() as int) == all);
        }
        while rest.len() > 0
            invariant
                before.wf(),
                before.buffers == buffers_of(all, names),
                directory_ok(all, names),
                all.len() <= self.max_sensors,
                forall|i: int| 0 <= i < all.len() ==> (#[trigger] all[i]).filled(),
                rest@.len() <= all.len(),
                rest@ == all.take(rest@.len() as int),
                self.coherent(),
                self.per_sensor == before.per_sensor,
                self.max_sensors == before.max_sensors,
                self.slots@.len() + rest@.len() <= all.len(),
                self@.buffers == before.only(live_from(all, names, rest@.len() as int)).buffers,
                self.live() == live_from(all, names, rest@.len() as int),
            decreases rest@.len(),
        {
            let ghost n = rest@.len() as int;
            let last = rest.pop();
            if let Some(slot) = last {
                let ghost id = slot.id@;
                let ghost seen = live_from(all, names, n);
                let ghost more = live_from(all, names, n - 1);
                proof {
                    assert(slot == all[n - 1]);
                    assert(names.contains_key(id) && names[id] == n - 1);
                    assert(before.buffers.contains_key(id));
                    assert(!seen.contains(id));
                    assert(rest@ =~= all.take(n - 1));
                    assert forall|other: Seq<char>| more.contains(other) implies seen.contains(
                        other,
                    ) || other == id by {
                        assert(names.contains_key(other));
                    }
                    assert(more =~= if slot.live {
                        seen.insert(id)
                    } else {
                        seen
                    });
                    lemma_directory_distinct(self.slots@, self.slot_of@);
                }
                if slot.live {
                    proof {
                        let after = before.only(more);
                        residency::law_fewer_sensors_stay_well_formed(before, more);
                        residency::law_readings_fit_the_budget(after);
                        assert(after.buffers =~= self@.buffers.insert(id, slot.readings@));
                        assert(!self@.buffers.contains_key(id));
                        residency::lemma_total_insert(
                            self@.buffers,
                            residency::by_count(),
                            id,
                            slot.readings@,
                        );
                    }
                    self.seat(slot);
                }
            }
        }
        proof {
            assert(live_from(all, names, 0) =~= live_of(all, names)) by {
                assert forall|id: Seq<char>| #[trigger] names.contains_key(id) implies names[id]
                    >= 0 by {}
            }
            residency::law_fewer_sensors_stay_well_formed(before, live_of(all, names));
        }
    }

    /// Newest-first readings, or `None` for an unknown, evicted or unadmitted
    /// sensor.
    pub fn latest(&self, sensor: &SensorId, limit: usize) -> (out: Option<Vec<Reading>>)
        requires
            self.wf(),
        ensures
            match out {
                Some(readings) => self@.resident(sensor@) && readings@ == buffer::newest_first(
                    self@.buffers[sensor@],
                    limit as nat,
                ),
                None => !self@.resident(sensor@),
            },
            out is Some <==> self@.buffers.contains_key(sensor@),
            out matches Some(readings) ==> {
                let held = self@.buffers[sensor@];
                &&& readings@.len() == if limit < held.len() {
                    limit as nat
                } else {
                    held.len()
                }
                &&& forall|i: int|
                    0 <= i < readings@.len() ==> #[trigger] readings@[i] == held[held.len() - 1 - i]
            },
    {
        match self.slot_of.get(sensor.as_str()) {
            Some(slot) => {
                proof {
                    assert(self.slot_of@.contains_key(sensor@));
                }
                Some(buffer::take_newest(&self.slots[*slot].readings, limit))
            },
            None => None,
        }
    }

    /// How many sensors and readings are held, and how many bytes they take.
    /// The bytes are exact as long as they fit a machine word, which those of
    /// valid readings do, and modulo the word beyond.
    pub fn stats(&self) -> (stats: CacheStats)
        requires
            self.wf(),
        ensures
            stats.sensors == self@.buffers.dom().len(),
            stats.readings == self@.reading_count(),
            stats.bytes == readings::word(self@.byte_count()),
            self@.byte_count() <= usize::MAX ==> stats.bytes == self@.byte_count(),
            self@.validated() && vstd::layout::size_of::<Reading>() <= 4096 ==> stats.bytes
                == self@.byte_count(),
            stats.sensors <= self@.max_sensors,
            stats.sensors <= MAX_SENSORS,
            stats.readings <= MAX_READINGS,
    {
        proof {
            lemma_directory_distinct(self.slots@, self.slot_of@);
            residency::law_readings_fit_the_budget(self@);
            if self@.byte_count() <= usize::MAX {
                readings::lemma_word_small(self@.byte_count());
            }
            if self@.validated() && vstd::layout::size_of::<Reading>() <= 4096 {
                residency::law_bytes_of_valid_readings_fit(self@);
            }
        }
        CacheStats { sensors: self.slots.len(), readings: self.readings, bytes: self.bytes }
    }

    /// How many readings the buffer of a resident sensor can hold before it
    /// grows. The exact figure is up to the allocator.
    pub fn reserved(&self, sensor: &SensorId) -> (out: Option<usize>)
        requires
            self.wf(),
        ensures
            match out {
                Some(slots) => self@.resident(sensor@) && slots >= self@.buffers[sensor@].len(),
                None => !self@.resident(sensor@),
            },
    {
        match self.slot_of.get(sensor.as_str()) {
            Some(slot) => {
                proof {
                    assert(self.slot_of@.contains_key(sensor@));
                }
                Some(capacity_of(&self.slots[*slot].readings))
            },
            None => None,
        }
    }

    /// How many sensors the timestamp index lists: one entry for each that is
    /// resident.
    pub fn indexed_sensors(&self) -> (n: usize)
        requires
            self.wf(),
        ensures
            n == self@.buffers.dom().len(),
    {
        proof {
            let slots = self.slots@;
            let order = self.by_newest@;
            self.lemma_settled();
            assert(order.no_duplicates()) by {
                assert forall|j: int, k: int| 0 <= j < k < order.len() implies order[j]
                    != order[k] by {
                    let a = slots[order[j] as int];
                    let b = slots[order[k] as int];
                    assert(a.stands_before(b.newest(), b.id@));
                    text::law_text_order_is_strict_and_total(a.id@, b.id@, a.id@);
                }
            }
            assert(self.slots.len() <= usize::MAX);
            let seats = Seq::new(slots.len(), |i: int| i as usize);
            assert(seats.no_duplicates());
            assert(order.to_set() =~= seats.to_set()) by {
                assert forall|x: usize| order.to_set().contains(x) implies seats.to_set().contains(
                    x,
                ) by {
                    let j = choose|j: int| 0 <= j < order.len() && order[j] == x;
                    assert(seats[x as int] == x);
                }
                assert forall|x: usize| seats.to_set().contains(x) implies order.to_set().contains(
                    x,
                ) by {
                    let i = choose|i: int| 0 <= i < seats.len() && seats[i] == x;
                    assert(slots[i].filled());
                    assert(order.contains(x));
                }
            }
            order.unique_seq_to_set();
            seats.unique_seq_to_set();
        }
        self.by_newest.len()
    }
}

/// Arrivals are seen in the order of the list, each with its sensor's text and
/// its own reading.
pub proof fn law_arrivals_are_seen_as_they_stand(items: Seq<(&SensorId, &Reading)>, i: int)
    ensures
        arrivals(items).len() == items.len(),
        0 <= i < items.len() ==> arrivals(items)[i] == (items[i].0@, *items[i].1),
{
}

} // verus!
