//! The reading domain type and the validation that turns request input into
//! it. Everything downstream (cache, database) receives `Reading`s that have
//! already passed here.
use crate::text;
use crate::timestamp::{Timestamp, Value};
use vstd::arithmetic::div_mod::*;
use vstd::prelude::*;
use vstd::string::*;

verus! {

/// Why a request was refused.
#[derive(Debug, PartialEq, Eq, Structural)]
pub enum ValidationError {
    BatchSize { got: usize, max: usize },
    SensorId(usize),
    Value,
    Unit(usize),
}

/// A sensor identifier as it arrived, already checked for length.
#[derive(Debug, Hash)]
pub struct SensorId(String);

/// `id` is an acceptable sensor identifier: 1 to 64 characters with no blank
/// at either end.
pub open spec fn valid_id(id: Seq<char>) -> bool {
    1 <= id.len() <= SensorId::MAX_LEN && text::trimmed(id) == id
}

/// What a raw sensor identifier is taken for. Lengths are counted in
/// characters; a refusal reports the length of the text as it arrived.
pub open spec fn checked_id(raw: Seq<char>) -> Result<Seq<char>, ValidationError> {
    let id = text::trimmed(raw);
    if 1 <= id.len() <= SensorId::MAX_LEN {
        Ok(id)
    } else {
        Err(ValidationError::SensorId(raw.len() as usize))
    }
}

impl View for SensorId {
    type V = Seq<char>;

    closed spec fn view(&self) -> Seq<char> {
        self.0@
    }
}

impl SensorId {
    /// The most characters an identifier may hold.
    pub const MAX_LEN: usize = 64;

    #[verifier::type_invariant]
    spec fn type_inv(self) -> bool {
        valid_id(self.0@)
    }

    /// Accepts 1..=64 characters once blanks at both ends are gone; anything
    /// else is a client error.
    pub fn parse(raw: &str) -> (out: Result<Self, ValidationError>)
        ensures
            match out {
                Ok(id) => checked_id(raw@) == Ok::<Seq<char>, ValidationError>(id@) && valid_id(id@),
                Err(e) => checked_id(raw@) == Err::<Seq<char>, ValidationError>(e),
            },
            raw@.len() <= usize::MAX,
            out is Ok <==> 1 <= text::trimmed(raw@).len() <= 64,
            out matches Ok(id) ==> id@ == text::trimmed(raw@),
            out matches Err(e) ==> e == ValidationError::SensorId(raw@.len() as usize),
    {
        let (core, got) = text::trim(raw);
        if core.is_empty() || core.unicode_len() > Self::MAX_LEN {
            return Err(ValidationError::SensorId(got));
        }
        proof {
            text::law_trimming_is_idempotent(raw@);
        }
        Ok(SensorId(core.to_owned()))
    }

    /// The identifier as text, which is always a valid one.
    pub fn as_str(&self) -> (text: &str)
        ensures
            text@ == self@,
            valid_id(self@),
    {
        proof {
            use_type_invariant(self);
        }
        self.0.as_str()
    }

    /// Bytes this id occupies when held in the cache.
    pub fn byte_len(&self) -> (len: usize)
        ensures
            len == text::utf8_len(self@),
    {
        text::byte_length(self.0.as_str())
    }
}

/// Two identifiers are equal if their texts are.
impl PartialEq for SensorId {
    fn eq(&self, other: &Self) -> (same: bool) {
        text::same_text(self.0.as_str(), other.0.as_str())
    }
}

impl vstd::std_specs::cmp::PartialEqSpecImpl for SensorId {
    open spec fn obeys_eq_spec() -> bool {
        true
    }

    open spec fn eq_spec(&self, other: &Self) -> bool {
        self@ == other@
    }
}

impl Eq for SensorId {

}

impl Clone for SensorId {
    fn clone(&self) -> (copy: Self)
        ensures
            copy == *self,
    {
        proof {
            use_type_invariant(self);
        }
        SensorId(self.0.clone())
    }
}

/// A parsed identifier, parsed again, is itself.
pub proof fn law_a_parsed_id_parses_to_itself(raw: Seq<char>)
    requires
        checked_id(raw) is Ok,
    ensures
        valid_id(checked_id(raw)->Ok_0),
        checked_id(checked_id(raw)->Ok_0) == checked_id(raw),
{
    text::law_trimming_is_idempotent(raw);
}

/// One validated measurement.
#[derive(Debug, PartialEq)]
pub struct Reading {
    pub ts: Timestamp,
    pub value: Value,
    pub unit: Option<String>,
}

/// `n` reduced to a machine word.
pub open spec fn word(n: nat) -> usize {
    (n % (usize::MAX + 1) as nat) as usize
}

pub(crate) proof fn lemma_word_sum(a: nat, b: nat)
    ensures
        word(a + b) == word(a).wrapping_add(word(b)),
{
    let m = usize::MAX as int + 1;
    lemma_add_mod_noop(a as int, b as int, m);
    let sum = word(a) + word(b);
    if sum < m {
        lemma_small_mod(sum as nat, m as nat);
    } else {
        lemma_fundamental_div_mod_converse(sum, m, 1, sum - m);
    }
}

pub(crate) proof fn lemma_word_small(a: nat)
    requires
        a <= usize::MAX,
    ensures
        word(a) == a,
{
    lemma_small_mod(a, (usize::MAX + 1) as nat);
}

pub(crate) proof fn lemma_word_difference(a: nat, b: nat)
    ensures
        word(a + b).wrapping_sub(word(b)) == word(a),
{
    lemma_word_sum(a, b);
}

/// Two half words add up to no more than a word.
proof fn lemma_half_words(a: int, b: int)
    requires
        a <= isize::MAX,
        b <= isize::MAX,
    ensures
        a + b <= usize::MAX,
{
    broadcast use vstd::layout::layout_of_primitives;

    vstd::layout::unsigned_int_max_values();
    vstd::layout::signed_int_min_max_values();
}

/// The length in bytes of an optional text.
pub open spec fn optional_len(unit: Option<String>) -> nat {
    match unit {
        Some(text) => text::utf8_len(text@),
        None => 0,
    }
}

impl Reading {
    /// The most characters a unit may hold.
    pub const MAX_UNIT_LEN: usize = 16;

    /// Bytes taken by the reading itself and by the text of its unit.
    pub open spec fn footprint(self) -> nat {
        vstd::layout::size_of::<Reading>() + optional_len(self.unit)
    }

    /// Rough heap+inline footprint, used for the cache size gauge. It is exact
    /// for a unit of up to `isize::MAX` bytes, the most that an allocation
    /// holds, and modulo the machine word beyond.
    pub fn byte_len(&self) -> (len: usize)
        ensures
            len == word(self.footprint()),
            self.footprint() <= usize::MAX ==> len == self.footprint(),
            optional_len(self.unit) <= isize::MAX ==> len == self.footprint(),
            valid_unit(self.unit) ==> len == self.footprint(),
            self.unit is None ==> len == vstd::layout::size_of::<Reading>(),
            self.unit matches Some(text) ==> vstd::utf8::encode_utf8(text@).len() <= isize::MAX
                ==> len == vstd::layout::size_of::<Reading>() + vstd::utf8::encode_utf8(
                text@,
            ).len(),
    {
        vstd::layout::layout_for_type_is_valid::<Reading>();
        let inline: usize = std::mem::size_of::<Reading>();
        let heap: usize = match &self.unit {
            Some(text) => text::byte_length(text.as_str()),
            None => 0,
        };
        proof {
            lemma_half_words(inline as int, 64);
            if heap <= isize::MAX {
                lemma_half_words(inline as int, heap as int);
            }
            if self.unit is Some {
                text::lemma_utf8_len_bound(self.unit->Some_0@);
            }
            lemma_word_small(inline as nat);
            lemma_word_small(heap as nat);
            lemma_word_sum(inline as nat, heap as nat);
            if self.footprint() <= usize::MAX {
                lemma_word_small(self.footprint());
            }
        }
        inline.wrapping_add(heap)
    }
}

/// The footprint of a reading depends on its unit alone: without one it is the
/// size of the reading itself, and a unit adds its bytes.
pub proof fn law_footprint_depends_on_the_unit_alone(plain: Reading, named: Reading)
    requires
        plain.unit is None,
        named.unit is Some,
    ensures
        plain.footprint() == vstd::layout::size_of::<Reading>(),
        named.footprint() == plain.footprint() + vstd::utf8::encode_utf8(
            named.unit->Some_0@,
        ).len(),
{
}

impl Clone for Reading {
    fn clone(&self) -> (copy: Self)
        ensures
            copy == *self,
    {
        let unit = match &self.unit {
            Some(text) => Some(text.clone()),
            None => None,
        };
        Reading { ts: self.ts, value: self.value, unit }
    }
}

/// The wire shape of one reading in `POST /readings`.
#[derive(Debug)]
pub struct ReadingInput {
    pub sensor_id: String,
    pub ts: Timestamp,
    pub value: Value,
    pub unit: Option<String>,
}

/// The wire shape of the whole batch.
#[derive(Debug)]
pub struct BatchInput {
    pub readings: Vec<ReadingInput>,
}

/// A batch that passed validation; the only way to obtain readings for
/// ingest.
#[derive(Debug)]
pub struct Batch(pub Vec<(SensorId, Reading)>);

/// A unit is absent or short enough.
pub open spec fn valid_unit(unit: Option<String>) -> bool {
    unit matches Some(text) ==> text@.len() <= Reading::MAX_UNIT_LEN
}

/// What one input is taken for: its identifier is looked at first, then its
/// value, then its unit.
pub open spec fn checked_reading(input: ReadingInput) -> Result<
    (Seq<char>, Reading),
    ValidationError,
> {
    match checked_id(input.sensor_id@) {
        Err(e) => Err(e),
        Ok(id) => if !input.value.finite() {
            Err(ValidationError::Value)
        } else if !valid_unit(input.unit) {
            Err(ValidationError::Unit(input.unit->Some_0@.len() as usize))
        } else {
            Ok((id, Reading { ts: input.ts, value: input.value, unit: input.unit }))
        },
    }
}

/// What a list of inputs is taken for: all of them, or the first refusal.
pub open spec fn checked_readings(inputs: Seq<ReadingInput>) -> Result<
    Seq<(Seq<char>, Reading)>,
    ValidationError,
>
    decreases inputs.len(),
{
    if inputs.len() == 0 {
        Ok(Seq::empty())
    } else {
        match checked_readings(inputs.drop_last()) {
            Err(e) => Err(e),
            Ok(earlier) => match checked_reading(inputs.last()) {
                Err(e) => Err(e),
                Ok(reading) => Ok(earlier.push(reading)),
            },
        }
    }
}

/// What a batch is taken for.
pub open spec fn checked_batch(inputs: Seq<ReadingInput>) -> Result<
    Seq<(Seq<char>, Reading)>,
    ValidationError,
> {
    if inputs.len() == 0 || inputs.len() > Batch::MAX_LEN {
        Err(ValidationError::BatchSize { got: inputs.len() as usize, max: Batch::MAX_LEN })
    } else {
        checked_readings(inputs)
    }
}

impl View for Batch {
    type V = Seq<(Seq<char>, Reading)>;

    open spec fn view(&self) -> Seq<(Seq<char>, Reading)> {
        pairs_view(self.0@)
    }
}

/// Sensors and readings with each identifier as text.
pub open spec fn pairs_view(pairs: Seq<(SensorId, Reading)>) -> Seq<(Seq<char>, Reading)> {
    pairs.map_values(|pair: (SensorId, Reading)| (pair.0@, pair.1))
}

proof fn lemma_first_refusal_stands(inputs: Seq<ReadingInput>, n: int)
    requires
        0 <= n <= inputs.len(),
        checked_readings(inputs.take(n)) is Err,
    ensures
        checked_readings(inputs) == checked_readings(inputs.take(n)),
    decreases inputs.len() - n,
{
    if n < inputs.len() {
        assert(inputs.take(n + 1).drop_last() == inputs.take(n));
        lemma_first_refusal_stands(inputs, n + 1);
    } else {
        assert(inputs.take(n) == inputs);
    }
}

impl ReadingInput {
    /// Validates one reading.
    pub fn check(self) -> (out: Result<(SensorId, Reading), ValidationError>)
        ensures
            match out {
                Ok(pair) => checked_reading(self) == Ok::<_, ValidationError>((pair.0@, pair.1)),
                Err(e) => checked_reading(self) == Err::<(Seq<char>, Reading), _>(e),
            },
            out matches Ok(pair) ==> {
                &&& pair.0@ == text::trimmed(self.sensor_id@)
                &&& pair.1.ts == self.ts
                &&& pair.1.value == self.value
                &&& pair.1.unit == self.unit
            },
    {
        let sensor = match SensorId::parse(self.sensor_id.as_str()) {
            Ok(sensor) => sensor,
            Err(e) => return Err(e),
        };
        if !self.value.is_finite() {
            return Err(ValidationError::Value);
        }
        if let Some(unit) = &self.unit {
            let got: usize = unit.as_str().unicode_len();
            if got > Reading::MAX_UNIT_LEN {
                return Err(ValidationError::Unit(got));
            }
        }
        Ok((sensor, Reading { ts: self.ts, value: self.value, unit: self.unit }))
    }
}

impl Batch {
    /// The most readings a batch may hold.
    pub const MAX_LEN: usize = 1000;

    /// Accepts 1 to 1000 readings, each of which passes its own checks; the
    /// first one that does not decides the error.
    pub fn parse(input: BatchInput) -> (out: Result<Self, ValidationError>)
        ensures
            match out {
                Ok(batch) => checked_batch(input.readings@) == Ok::<_, ValidationError>(batch@),
                Err(e) => checked_batch(input.readings@) == Err::<
                    Seq<(Seq<char>, Reading)>,
                    _,
                >(e),
            },
            out matches Ok(batch) ==> {
                &&& 1 <= input.readings@.len() <= 1000
                &&& batch.0@.len() == input.readings@.len()
                &&& forall|i: int|
                    0 <= i < batch.0@.len() ==> {
                        let (id, reading) = #[trigger] batch.0@[i];
                        &&& id@ == text::trimmed(input.readings@[i].sensor_id@)
                        &&& reading.ts == input.readings@[i].ts
                        &&& reading.value == input.readings@[i].value
                        &&& reading.unit == input.readings@[i].unit
                    }
            },
    {
        let got: usize = input.readings.len();
        if got == 0 || got > Self::MAX_LEN {
            return Err(ValidationError::BatchSize { got, max: Self::MAX_LEN });
        }
        let ghost inputs = input.readings@;
        let mut pairs: Vec<(SensorId, Reading)> = Vec::new();
        proof {
            assert(inputs.take(0) == Seq::<ReadingInput>::empty());
            assert(pairs_view(pairs@) == Seq::<(Seq<char>, Reading)>::empty());
        }
        for r in it: input.readings
            invariant
                it.seq() == inputs,
                checked_readings(inputs.take(it.index())) == Ok::<_, ValidationError>(
                    pairs_view(pairs@),
                ),
                1 <= inputs.len() <= Self::MAX_LEN,
        {
            proof {
                let n = it.index();
                assert(inputs.take(n + 1).drop_last() == inputs.take(n));
                assert(inputs.take(n + 1).last() == r);
                if checked_reading(r) is Err {
                    lemma_first_refusal_stands(inputs, n + 1);
                }
            }
            match r.check() {
                Ok(pair) => {
                    let ghost before = pairs@;
                    pairs.push(pair);
                    proof {
                        assert(pairs_view(pairs@) == pairs_view(before).push((pair.0@, pair.1)));
                    }
                },
                Err(e) => return Err(e),
            }
        }
        proof {
            assert(inputs.take(inputs.len() as int) == inputs);
            lemma_checked_readings(inputs);
            assert forall|i: int| 0 <= i < pairs@.len() implies {
                let (id, reading) = #[trigger] pairs@[i];
                &&& id@ == text::trimmed(inputs[i].sensor_id@)
                &&& reading.ts == inputs[i].ts
                &&& reading.value == inputs[i].value
                &&& reading.unit == inputs[i].unit
            } by {
                assert(pairs_view(pairs@)[i] == (pairs@[i].0@, pairs@[i].1));
                assert(checked_reading(inputs[i]) is Ok);
                law_an_accepted_reading_is_taken_over_unchanged(inputs[i]);
            }
        }
        Ok(Batch(pairs))
    }

    /// How many readings the batch holds.
    pub fn len(&self) -> (n: usize)
        ensures
            n == self@.len(),
            n == self.0@.len(),
    {
        self.0.len()
    }
}

proof fn lemma_checked_readings(inputs: Seq<ReadingInput>)
    ensures
        checked_readings(inputs) is Ok <==> forall|i: int|
            0 <= i < inputs.len() ==> checked_reading(#[trigger] inputs[i]) is Ok,
        checked_readings(inputs) matches Ok(pairs) ==> {
            &&& pairs.len() == inputs.len()
            &&& forall|i: int|
                0 <= i < inputs.len() ==> #[trigger] pairs[i] == checked_reading(inputs[i])->Ok_0
        },
    decreases inputs.len(),
{
    if inputs.len() > 0 {
        let earlier = inputs.drop_last();
        lemma_checked_readings(earlier);
        assert(forall|i: int| 0 <= i < earlier.len() ==> inputs[i] == #[trigger] earlier[i]);
        if checked_readings(inputs) is Ok {
            assert forall|i: int| 0 <= i < inputs.len() implies checked_reading(
                #[trigger] inputs[i],
            ) is Ok by {
                if i < earlier.len() {
                    assert(checked_reading(earlier[i]) is Ok);
                }
            }
        } else if checked_readings(earlier) is Err {
            let i = choose|i: int|
                0 <= i < earlier.len() && !(checked_reading(#[trigger] earlier[i]) is Ok);
            assert(!(checked_reading(inputs[i]) is Ok));
        } else {
            assert(!(checked_reading(inputs[inputs.len() - 1]) is Ok));
        }
    }
}

/// A batch is accepted whole or not at all: it needs an acceptable size and
/// every reading acceptable, and then holds each of them, in order.
pub proof fn law_batch_is_all_or_nothing(inputs: Seq<ReadingInput>)
    ensures
        checked_batch(inputs) is Ok <==> {
            &&& 1 <= inputs.len() <= Batch::MAX_LEN
            &&& forall|i: int|
                0 <= i < inputs.len() ==> checked_reading(#[trigger] inputs[i]) is Ok
        },
        checked_batch(inputs) matches Ok(pairs) ==> {
            &&& pairs.len() == inputs.len()
            &&& forall|i: int|
                0 <= i < inputs.len() ==> #[trigger] pairs[i] == checked_reading(inputs[i])->Ok_0
        },
{
    lemma_checked_readings(inputs);
}

/// In a batch of acceptable size the first unacceptable reading decides the
/// error.
pub proof fn law_first_refusal_decides(inputs: Seq<ReadingInput>, n: int)
    requires
        inputs.len() <= Batch::MAX_LEN,
        0 <= n < inputs.len(),
        checked_reading(inputs[n]) is Err,
        forall|i: int| 0 <= i < n ==> checked_reading(#[trigger] inputs[i]) is Ok,
    ensures
        checked_batch(inputs) == Err::<Seq<(Seq<char>, Reading)>, _>(
            checked_reading(inputs[n])->Err_0,
        ),
{
    let head = inputs.take(n);
    lemma_checked_readings(head);
    assert(checked_readings(head) is Ok);
    assert(inputs.take(n + 1).drop_last() == head);
    assert(inputs.take(n + 1).last() == inputs[n]);
    lemma_first_refusal_stands(inputs, n + 1);
}

/// Whatever a batch holds has a valid identifier, a finite value and a short
/// unit.
pub proof fn law_accepted_readings_are_valid(inputs: Seq<ReadingInput>, i: int)
    requires
        checked_batch(inputs) is Ok,
        0 <= i < inputs.len(),
    ensures
        ({
            let (id, reading) = (checked_batch(inputs)->Ok_0)[i];
            &&& valid_id(id)
            &&& reading.value.finite()
            &&& valid_unit(reading.unit)
        }),
{
    law_batch_is_all_or_nothing(inputs);
    assert(checked_reading(inputs[i]) is Ok);
    law_a_parsed_id_parses_to_itself(inputs[i].sensor_id@);
}

impl ValidationError {
    /// What the client is told.
    pub open spec fn text(self) -> Seq<char> {
        match self {
            ValidationError::BatchSize { got, max } => "batch must hold between 1 and "@
                + text::decimal(max as nat) + " readings, got "@ + text::decimal(got as nat),
            ValidationError::SensorId(got) => "sensor_id must be 1 to 64 characters, got "@
                + text::decimal(got as nat),
            ValidationError::Value => "value must be a finite number"@,
            ValidationError::Unit(got) => "unit must be at most 16 characters, got "@
                + text::decimal(got as nat),
        }
    }

    /// What the client is told.
    pub fn message(&self) -> (message: String)
        ensures
            message@ == self.text(),
    {
        match self {
            ValidationError::BatchSize { got, max } => "batch must hold between 1 and ".to_owned(

            ).concat(text::decimal_text(*max).as_str()).concat(" readings, got ").concat(
                text::decimal_text(*got).as_str(),
            ),
            ValidationError::SensorId(
                got,
            ) => "sensor_id must be 1 to 64 characters, got ".to_owned().concat(
                text::decimal_text(*got).as_str(),
            ),
            ValidationError::Value => "value must be a finite number".to_owned(),
            ValidationError::Unit(got) => "unit must be at most 16 characters, got ".to_owned(

            ).concat(text::decimal_text(*got).as_str()),
        }
    }
}

/// An identifier is its text without the blanks at either end, and is accepted
/// exactly if 1 to 64 characters are left; a refusal counts them all.
pub proof fn law_an_id_is_its_trimmed_text(raw: Seq<char>)
    ensures
        checked_id(raw) is Ok <==> 1 <= text::trimmed(raw).len() <= 64,
        checked_id(raw) matches Ok(id) ==> id == text::trimmed(raw),
        checked_id(raw) matches Err(e) ==> e == ValidationError::SensorId(raw.len() as usize),
        valid_id(raw) <==> (1 <= raw.len() <= 64 && text::trimmed(raw) == raw),
{
}

/// A text of 1 to 64 characters that neither starts nor ends with a blank is
/// an identifier as it stands, whatever blanks are put around it.
pub proof fn law_blanks_around_an_id_do_not_matter(id: Seq<char>, t: Seq<char>, u: Seq<char>)
    requires
        1 <= id.len() <= 64,
        !text::white_space(id[0]),
        !text::white_space(id[id.len() - 1]),
        forall|k: int| 0 <= k < t.len() ==> text::white_space(#[trigger] t[k]),
        forall|k: int| 0 <= k < u.len() ==> text::white_space(#[trigger] u[k]),
    ensures
        checked_id(id) == Ok::<_, ValidationError>(id),
        checked_id(t + id + u) == Ok::<_, ValidationError>(id),
{
    text::law_blanks_around_a_text_do_not_matter(id, t, u);
    text::law_blanks_around_a_text_do_not_matter(id, Seq::empty(), Seq::empty());
    assert(Seq::<char>::empty() + id + Seq::<char>::empty() == id);
}

/// An accepted reading is taken over unchanged: its sensor is the trimmed
/// identifier, and its timestamp, value and unit are those of the input.
pub proof fn law_an_accepted_reading_is_taken_over_unchanged(input: ReadingInput)
    ensures
        checked_reading(input) matches Ok((id, reading)) ==> {
            &&& id == text::trimmed(input.sensor_id@)
            &&& reading.ts == input.ts
            &&& reading.value == input.value
            &&& reading.unit == input.unit
        },
{
}

/// A reading is accepted exactly if its identifier has 1 to 64 characters
/// between blanks, its value is finite and its unit has at most 16 characters.
pub proof fn law_what_a_reading_has_to_meet(input: ReadingInput)
    ensures
        checked_reading(input) is Ok <==> {
            &&& 1 <= text::trimmed(input.sensor_id@).len() <= 64
            &&& input.value.bits as int % 0x8000_0000_0000_0000 < 0x7ff0_0000_0000_0000
            &&& input.unit matches Some(unit) ==> unit@.len() <= 16
        },
{
    crate::timestamp::law_finite_values_stand_below_infinity(input.value);
}

/// A refusal names the first thing that is wrong: the identifier, then the
/// value, then the unit.
pub proof fn law_a_refusal_names_the_first_fault(input: ReadingInput)
    ensures
        ({
            let named = 1 <= text::trimmed(input.sensor_id@).len() <= 64;
            let finite = input.value.bits as int % 0x8000_0000_0000_0000 < 0x7ff0_0000_0000_0000;
            &&& !named ==> checked_reading(input) == Err::<(Seq<char>, Reading), _>(
                ValidationError::SensorId(input.sensor_id@.len() as usize),
            )
            &&& named && !finite ==> checked_reading(input) == Err::<(Seq<char>, Reading), _>(
                ValidationError::Value,
            )
            &&& named && finite && input.unit is Some && input.unit->Some_0@.len() > 16
                ==> checked_reading(input) == Err::<(Seq<char>, Reading), _>(
                ValidationError::Unit(input.unit->Some_0@.len() as usize),
            )
        }),
{
    crate::timestamp::law_finite_values_stand_below_infinity(input.value);
}

/// An accepted batch holds each of its inputs once, unchanged and in order.
pub proof fn law_an_accepted_batch_is_taken_over_unchanged(inputs: Seq<ReadingInput>, i: int)
    requires
        checked_batch(inputs) is Ok,
        0 <= i < inputs.len(),
    ensures
        ({
            let pairs = checked_batch(inputs)->Ok_0;
            let (id, reading) = pairs[i];
            &&& pairs.len() == inputs.len()
            &&& id == text::trimmed(inputs[i].sensor_id@)
            &&& reading.ts == inputs[i].ts
            &&& reading.value == inputs[i].value
            &&& reading.unit == inputs[i].unit
        }),
{
    law_batch_is_all_or_nothing(inputs);
    assert(checked_reading(inputs[i]) is Ok);
    law_an_accepted_reading_is_taken_over_unchanged(inputs[i]);
}

/// A batch of no readings or of more than 1000 is refused for its size,
/// whatever it holds; any other is never refused for it.
pub proof fn law_batches_hold_1_to_1000_readings(inputs: Seq<ReadingInput>)
    ensures
        inputs.len() == 0 || inputs.len() > 1000 ==> checked_batch(inputs) == Err::<
            Seq<(Seq<char>, Reading)>,
            _,
        >((ValidationError::BatchSize { got: inputs.len() as usize, max: 1000 })),
        1 <= inputs.len() <= 1000 ==> (checked_batch(inputs) matches Err(e) ==> e
            !is BatchSize),
{
    lemma_no_size_refusal(inputs);
}

proof fn lemma_no_size_refusal(inputs: Seq<ReadingInput>)
    ensures
        checked_readings(inputs) matches Err(e) ==> e !is BatchSize,
    decreases inputs.len(),
{
    if inputs.len() > 0 {
        lemma_no_size_refusal(inputs.drop_last());
    }
}

/// Pairs are seen in the order in which they stand, each with its sensor's
/// text and its own reading.
pub proof fn law_pairs_are_seen_as_they_stand(pairs: Seq<(SensorId, Reading)>, i: int)
    ensures
        pairs_view(pairs).len() == pairs.len(),
        0 <= i < pairs.len() ==> pairs_view(pairs)[i] == (pairs[i].0@, pairs[i].1),
{
}

/// A machine word holds what fits it and starts over beyond.
pub proof fn law_words_start_over(n: nat)
    ensures
        n <= usize::MAX ==> word(n) == n,
        word(n + (usize::MAX + 1) as nat) == word(n),
{
    if n <= usize::MAX {
        lemma_word_small(n);
    }
    lemma_mod_add_multiples_vanish(n as int, usize::MAX + 1);
}

/// Every refusal says in words what was wrong, with the count that it names in
/// decimal.
pub proof fn law_refusals_are_put_in_words(got: usize, max: usize)
    ensures
        (ValidationError::BatchSize { got, max }).text() == "batch must hold between 1 and "@
            + text::decimal(max as nat) + " readings, got "@ + text::decimal(got as nat),
        ValidationError::SensorId(got).text() == "sensor_id must be 1 to 64 characters, got "@
            + text::decimal(got as nat),
        ValidationError::Value.text() == "value must be a finite number"@,
        ValidationError::Unit(got).text() == "unit must be at most 16 characters, got "@
            + text::decimal(got as nat),
{
}

/// A batch is seen as it stands: each sensor and reading once, in order.
pub proof fn law_a_batch_is_seen_as_it_stands(batch: Batch, i: int)
    ensures
        batch@.len() == batch.0@.len(),
        0 <= i < batch.0@.len() ==> batch@[i] == (batch.0@[i].0@, batch.0@[i].1),
{
}

/// Two identifiers are equal exactly if they have the same text.
pub proof fn law_ids_are_equal_by_their_text(a: SensorId, b: SensorId)
    ensures
        vstd::std_specs::cmp::PartialEqSpec::eq_spec(&a, &b) <==> a@ == b@,
{
}

} // verus!
