use vstd::prelude::*;

verus! {

/// A decimal number `mantissa * 10^(-scale)`: the form in which the library holds
/// floating-point values, so that they render without exponent and with the
/// number of fractional digits chosen by the caller.
#[derive(Debug, Clone, Copy, PartialEq, Eq, Structural)]
pub struct Decimal {
    /// all digits of the number, with its sign
    pub mantissa: i64,
    /// how many of the mantissa's last digits stand after the decimal point
    pub scale: u32,
}

impl Decimal {
    /// A decimal from its digits and the number of fractional digits.
    pub fn new(mantissa: i64, scale: u32) -> (r: Decimal)
        ensures
            r.mantissa == mantissa,
            r.scale == scale,
    {
        Decimal { mantissa, scale }
    }
}

/// A value of a tag or a field.
#[derive(Debug, Clone, PartialEq)]
pub enum Value {
    /// string
    String(String),
    /// 64-bit signed integer
    Integer(i64),
    /// decimal number
    Float(Decimal),
    /// boolean
    Boolean(bool),
}

impl From<i64> for Value {
    fn from(v: i64) -> Value {
        Value::Integer(v)
    }
}

impl vstd::std_specs::convert::FromSpecImpl<i64> for Value {
    open spec fn obeys_from_spec() -> bool {
        true
    }

    open spec fn from_spec(v: i64) -> Value {
        Value::Integer(v)
    }
}

impl From<i32> for Value {
    fn from(v: i32) -> Value {
        Value::Integer(v as i64)
    }
}

impl vstd::std_specs::convert::FromSpecImpl<i32> for Value {
    open spec fn obeys_from_spec() -> bool {
        true
    }

    open spec fn from_spec(v: i32) -> Value {
        Value::Integer(v as i64)
    }
}

impl From<i16> for Value {
    fn from(v: i16) -> Value {
        Value::Integer(v as i64)
    }
}

impl vstd::std_specs::convert::FromSpecImpl<i16> for Value {
    open spec fn obeys_from_spec() -> bool {
        true
    }

    open spec fn from_spec(v: i16) -> Value {
        Value::Integer(v as i64)
    }
}

impl From<i8> for Value {
    fn from(v: i8) -> Value {
        Value::Integer(v as i64)
    }
}

impl vstd::std_specs::convert::FromSpecImpl<i8> for Value {
    open spec fn obeys_from_spec() -> bool {
        true
    }

    open spec fn from_spec(v: i8) -> Value {
        Value::Integer(v as i64)
    }
}

impl From<bool> for Value {
    fn from(v: bool) -> Value {
        Value::Boolean(v)
    }
}

impl vstd::std_specs::convert::FromSpecImpl<bool> for Value {
    open spec fn obeys_from_spec() -> bool {
        true
    }

    open spec fn from_spec(v: bool) -> Value {
        Value::Boolean(v)
    }
}

impl From<Decimal> for Value {
    fn from(v: Decimal) -> Value {
        Value::Float(v)
    }
}

impl vstd::std_specs::convert::FromSpecImpl<Decimal> for Value {
    open spec fn obeys_from_spec() -> bool {
        true
    }

    open spec fn from_spec(v: Decimal) -> Value {
        Value::Float(v)
    }
}

impl From<String> for Value {
    fn from(v: String) -> Value {
        Value::String(v)
    }
}

impl vstd::std_specs::convert::FromSpecImpl<String> for Value {
    open spec fn obeys_from_spec() -> bool {
        true
    }

    open spec fn from_spec(v: String) -> Value {
        Value::String(v)
    }
}

/// An entry of a tag or field list: its name and its value.
pub type Entry = (String, Value);

/// Index of the first entry named `key`, or -1 when there is none.
pub open spec fn key_index(entries: Seq<Entry>, key: Seq<char>) -> int
    decreases entries.len(),
{
    if entries.len() == 0 {
        -1
    } else if key_index(entries.drop_last(), key) >= 0 {
        key_index(entries.drop_last(), key)
    } else if entries.last().0@ == key {
        entries.len() - 1
    } else {
        -1
    }
}

/// No two entries share a name.
pub open spec fn keys_unique(entries: Seq<Entry>) -> bool {
    forall|i: int, j: int|
        0 <= i < j < entries.len() ==> (#[trigger] entries[i]).0@ != (#[trigger] entries[j]).0@
}

/// `after` is `before` with `key` set to `value`: the entry of that name is
/// replaced in place, or a new entry is appended when there was none.
pub open spec fn is_upsert(before: Seq<Entry>, after: Seq<Entry>, key: Seq<char>, value: Value) -> bool {
    let k = key_index(before, key);
    if k >= 0 {
        &&& after.len() == before.len()
        &&& after[k].0@ == key
        &&& after[k].1 == value
        &&& forall|j: int| 0 <= j < before.len() && j != k ==> after[j] == before[j]
    } else {
        &&& after.len() == before.len() + 1
        &&& after.drop_last() == before
        &&& after.last().0@ == key
        &&& after.last().1 == value
    }
}

proof fn lemma_key_index_bounds(entries: Seq<Entry>, key: Seq<char>)
    ensures
        -1 <= key_index(entries, key) < entries.len(),
        key_index(entries, key) >= 0 ==> entries[key_index(entries, key)].0@ == key,
        key_index(entries, key) < 0 ==> forall|j: int|
            0 <= j < entries.len() ==> (#[trigger] entries[j]).0@ != key,
        forall|j: int|
            0 <= j < key_index(entries, key) ==> (#[trigger] entries[j]).0@ != key,
    decreases entries.len(),
{
    if entries.len() > 0 {
        lemma_key_index_bounds(entries.drop_last(), key);
        assert(forall|j: int| 0 <= j < entries.len() - 1 ==> entries[j] == entries.drop_last()[j]);
    }
}

/// Sets `key` to `value` in an entry list, keeping the order of insertion.
fn upsert(entries: &mut Vec<Entry>, key: &str, value: Value)
    ensures
        is_upsert(old(entries)@, final(entries)@, key@, value),
        keys_unique(old(entries)@) ==> keys_unique(final(entries)@),
{
    proof {
        lemma_key_index_bounds(entries@, key@);
    }
    let ghost before = entries@;
    let name = String::from_str(key);
    let mut i: usize = 0;
    while i < entries.len()
        invariant
            entries@ == before,
            before == old(entries)@,
            name@ == key@,
            i <= entries@.len(),
            forall|j: int| 0 <= j < i ==> (#[trigger] entries@[j]).0@ != key@,
        decreases entries@.len() - i,
    {
        if entries[i].0 == name {
            proof {
                lemma_key_index_bounds(before, key@);
                let k = key_index(before, key@);
                if k >= 0 && k != i {
                    if k < i {
                        assert(entries@[k].0@ != key@);
                    } else {
                        assert(before[i as int].0@ != key@);
                    }
                }
                assert(k == i);
            }
            let ghost entry = (name, value);
            entries.set(i, (name, value));
            proof {
                assert(entries@ == before.update(i as int, entry));
                assert(before[i as int].0@ == key@);
                assert(entries@[i as int].0@ == key@);
                assert(is_upsert(before, entries@, key@, value));
                if keys_unique(before) {
                    assert forall|a: int, b: int| 0 <= a < b < entries@.len() implies
                        (#[trigger] entries@[a]).0@ != (#[trigger] entries@[b]).0@ by {
                        assert(before[a].0@ != before[b].0@);
                    }
                }
            }
            return;
        }
        i = i + 1;
    }
    entries.push((name, value));
    proof {
        assert(final(entries)@.drop_last() == before);
        assert(key_index(before, key@) < 0);
    }
}

/// One row to be written: a measurement, its tags and fields, and an optional
/// timestamp.
#[derive(Debug, Clone, PartialEq)]
pub struct Point {
    /// measurement
    pub measurement: String,
    /// tags, in order of insertion
    pub tags: Vec<Entry>,
    /// fields, in order of insertion
    pub fields: Vec<Entry>,
    /// timestamp
    pub timestamp: Option<i64>,
}

impl Point {
    /// Tag names and field names are each unique.
    pub open spec fn wf(&self) -> bool {
        keys_unique(self.tags@) && keys_unique(self.fields@)
    }

    /// A point with a measurement and nothing else.
    pub fn new(measurement: &str) -> (r: Point)
        ensures
            r.measurement@ == measurement@,
            r.tags@.len() == 0,
            r.fields@.len() == 0,
            r.timestamp.is_none(),
            r.wf(),
    {
        Point {
            measurement: String::from_str(measurement),
            tags: Vec::new(),
            fields: Vec::new(),
            timestamp: None,
        }
    }

    /// Sets a tag: replaces the value of a tag of that name in place, or
    /// appends the tag.
    pub fn add_tag(self, tag: &str, value: Value) -> (r: Point)
        ensures
            r.measurement == self.measurement,
            is_upsert(self.tags@, r.tags@, tag@, value),
            r.fields == self.fields,
            r.timestamp == self.timestamp,
            self.wf() ==> r.wf(),
    {
        let mut p = self;
        upsert(&mut p.tags, tag, value);
        p
    }

    /// Sets a field: replaces the value of a field of that name in place, or
    /// appends the field.
    pub fn add_field(self, field: &str, value: Value) -> (r: Point)
        ensures
            r.measurement == self.measurement,
            r.tags == self.tags,
            is_upsert(self.fields@, r.fields@, field@, value),
            r.timestamp == self.timestamp,
            self.wf() ==> r.wf(),
    {
        let mut p = self;
        upsert(&mut p.fields, field, value);
        p
    }

    /// Sets the timestamp.
    pub fn add_timestamp(self, timestamp: i64) -> (r: Point)
        ensures
            r.measurement == self.measurement,
            r.tags == self.tags,
            r.fields == self.fields,
            r.timestamp == Some(timestamp),
            self.wf() ==> r.wf(),
    {
        let mut p = self;
        p.timestamp = Some(timestamp);
        p
    }
}

/// An ordered batch of points.
#[derive(Debug, Clone, PartialEq)]
pub struct Points {
    /// points
    pub point: Vec<Point>,
}

impl Points {
    /// A batch of one point.
    pub fn new(point: Point) -> (r: Points)
        ensures
            r.point@ == seq![point],
    {
        let mut v: Vec<Point> = Vec::new();
        v.push(point);
        Points { point: v }
    }

    /// Appends a point to the batch.
    pub fn push(self, point: Point) -> (r: Points)
        ensures
            r.point@ == self.point@.push(point),
    {
        let mut p = self;
        p.point.push(point);
        p
    }

    /// A batch of the given points, in their order.
    pub fn create_new(points: Vec<Point>) -> (r: Points)
        ensures
            r.point@ == points@,
    {
        Points { point: points }
    }

    /// Takes the last point out of the batch.
    pub fn next(&mut self) -> (r: Option<Point>)
        ensures
            old(self).point@.len() == 0 ==> r.is_none() && final(self).point@.len() == 0,
            old(self).point@.len() > 0 ==> r == Some(old(self).point@.last())
                && final(self).point@ == old(self).point@.drop_last(),
    {
        self.point.pop()
    }
}

/// Time precision of timestamps.
#[derive(Debug, Clone, Copy, PartialEq, Eq, Structural)]
pub enum Precision {
    /// n
    Nanoseconds,
    /// u
    Microseconds,
    /// ms
    Milliseconds,
    /// s
    Seconds,
    /// m
    Minutes,
    /// h
    Hours,
}

/// The code of a precision in the protocol.
pub open spec fn precision_code(p: Precision) -> Seq<char> {
    match p {
        Precision::Nanoseconds => "n"@,
        Precision::Microseconds => "u"@,
        Precision::Milliseconds => "ms"@,
        Precision::Seconds => "s"@,
        Precision::Minutes => "m"@,
        Precision::Hours => "h"@,
    }
}

impl Precision {
    /// The code of the precision: `n`, `u`, `ms`, `s`, `m` or `h`.
    pub fn to_str(&self) -> (r: &'static str)
        ensures
            r@ == precision_code(*self),
    {
        match *self {
            Precision::Nanoseconds => "n",
            Precision::Microseconds => "u",
            Precision::Milliseconds => "ms",
            Precision::Seconds => "s",
            Precision::Minutes => "m",
            Precision::Hours => "h",
        }
    }
}

} // verus!
