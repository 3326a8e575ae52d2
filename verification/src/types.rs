//! The value model: a closed tagged union of scalar and composite variants.
//!
//! Floating-point values are carried as their IEEE 754 bit patterns so that
//! the encoder can classify and normalize them with plain integer logic;
//! timestamps are carried as their UTC calendar fields.

use vstd::prelude::*;

use crate::strings::str_eq;

verus! {

/// A UTC instant, second precision, held as plain calendar fields.
#[derive(Debug, Clone, PartialEq, Eq, Structural)]
pub struct Timestamp {
    pub year: u16,
    pub month: u8,
    pub day: u8,
    pub hour: u8,
    pub minute: u8,
    pub second: u8,
}

impl Timestamp {
    /// Field ranges the canonical `YYYY-MM-DDTHH:MM:SSZ` rendering relies on.
    pub open spec fn wf(self) -> bool {
        self.year <= 9999 && 1 <= self.month <= 12 && 1 <= self.day <= 31
            && self.hour <= 23 && self.minute <= 59 && self.second <= 59
    }

    /// Builds a timestamp when every field is in range.
    pub fn new(year: u16, month: u8, day: u8, hour: u8, minute: u8, second: u8) -> (r: Option<
        Timestamp,
    >)
        ensures
            r matches Some(t) ==> t == (Timestamp { year, month, day, hour, minute, second })
                && t.wf(),
            r is None <==> !(Timestamp { year, month, day, hour, minute, second }).wf(),
    {
        if year <= 9999 && 1 <= month && month <= 12 && 1 <= day && day <= 31 && hour <= 23
            && minute <= 59 && second <= 59 {
            Some(Timestamp { year, month, day, hour, minute, second })
        } else {
            None
        }
    }
}

/// A reference id: an optional non-empty prefix plus a value string.
#[derive(Debug, Clone, PartialEq, Eq, Hash)]
pub struct RefId {
    pub prefix: String,
    pub value: String,
}

impl RefId {
    pub fn new(prefix: &str, value: &str) -> (r: RefId)
        ensures
            r.prefix@ == prefix@,
            r.value@ == value@,
    {
        RefId { prefix: String::from_str(prefix), value: String::from_str(value) }
    }

    pub fn simple(value: &str) -> (r: RefId)
        ensures
            r.prefix@ == Seq::<char>::empty(),
            r.value@ == value@,
    {
        RefId { prefix: String::new(), value: String::from_str(value) }
    }
}

/// A key-value pair of a map or a struct.
#[derive(Debug, PartialEq)]
pub struct MapEntry {
    pub key: String,
    pub value: GValue,
}

impl MapEntry {
    pub fn new(key: &str, value: GValue) -> (r: MapEntry)
        ensures
            r.key@ == key@,
            r.value == value,
    {
        MapEntry { key: String::from_str(key), value }
    }
}

/// A named struct: a type name plus a field list, encoded like a map.
#[derive(Debug, PartialEq)]
pub struct StructValue {
    pub name: String,
    pub fields: Vec<MapEntry>,
}

impl StructValue {
    pub fn new(name: &str, fields: Vec<MapEntry>) -> (r: StructValue)
        ensures
            r.name@ == name@,
            r.fields == fields,
    {
        StructValue { name: String::from_str(name), fields }
    }
}

/// A tagged-sum value: a tag plus an optional single payload.
#[derive(Debug, PartialEq)]
pub struct SumValue {
    pub tag: String,
    pub value: Option<Box<GValue>>,
}

impl SumValue {
    pub fn new(tag: &str, value: Option<GValue>) -> (r: SumValue)
        ensures
            r.tag@ == tag@,
            value matches Some(v) ==> r.value matches Some(b) && *b == v,
            value is None ==> r.value is None,
    {
        let boxed = match value {
            Some(v) => Some(Box::new(v)),
            None => None,
        };
        SumValue { tag: String::from_str(tag), value: boxed }
    }
}

/// The value model.
#[derive(Debug, PartialEq)]
pub enum GValue {
    /// Null value
    Null,
    /// Boolean value
    Bool(bool),
    /// Integer value
    Int(i64),
    /// IEEE 754 double, held as its bit pattern
    Float(u64),
    /// String value
    Str(String),
    /// Binary data
    Bytes(Vec<u8>),
    /// UTC timestamp, second precision
    Time(Timestamp),
    /// Reference id with optional prefix
    Id(RefId),
    /// Ordered list of values
    List(Vec<GValue>),
    /// Key-value map, ordered by canonical key on output
    Mapping(Vec<MapEntry>),
    /// Named struct with fields
    Struct(StructValue),
    /// Tagged sum with optional payload
    Sum(SumValue),
}

impl GValue {
    /// Create a null value
    pub fn null() -> (r: GValue)
        ensures
            r == GValue::Null,
    {
        GValue::Null
    }

    /// Create a boolean value
    pub fn bool(v: bool) -> (r: GValue)
        ensures
            r == GValue::Bool(v),
    {
        GValue::Bool(v)
    }

    /// Create an integer value
    pub fn int_val(v: i64) -> (r: GValue)
        ensures
            r == GValue::Int(v),
    {
        GValue::Int(v)
    }

    /// Create a float value from its IEEE 754 bit pattern
    pub fn float(bits: u64) -> (r: GValue)
        ensures
            r == GValue::Float(bits),
    {
        GValue::Float(bits)
    }

    /// Create a string value
    pub fn str(v: &str) -> (r: GValue)
        ensures
            r matches GValue::Str(s) && s@ == v@,
    {
        GValue::Str(String::from_str(v))
    }

    /// Create a bytes value
    pub fn bytes(v: Vec<u8>) -> (r: GValue)
        ensures
            r == GValue::Bytes(v),
    {
        GValue::Bytes(v)
    }

    /// Create a timestamp value
    pub fn time(v: Timestamp) -> (r: GValue)
        ensures
            r == GValue::Time(v),
    {
        GValue::Time(v)
    }

    /// Create a reference id value
    pub fn id(prefix: &str, value: &str) -> (r: GValue)
        ensures
            r matches GValue::Id(rid) && rid.prefix@ == prefix@ && rid.value@ == value@,
    {
        GValue::Id(RefId::new(prefix, value))
    }

    /// Create a reference id value without a prefix
    pub fn simple_id(value: &str) -> (r: GValue)
        ensures
            r matches GValue::Id(rid) && rid.prefix@ == Seq::<char>::empty() && rid.value@
                == value@,
    {
        GValue::Id(RefId::simple(value))
    }

    /// Create a list value
    pub fn list(items: Vec<GValue>) -> (r: GValue)
        ensures
            r == GValue::List(items),
    {
        GValue::List(items)
    }

    /// Create a map value
    pub fn map(entries: Vec<MapEntry>) -> (r: GValue)
        ensures
            r == GValue::Mapping(entries),
    {
        GValue::Mapping(entries)
    }

    /// Create a struct value
    pub fn struct_val(name: &str, fields: Vec<MapEntry>) -> (r: GValue)
        ensures
            r matches GValue::Struct(s) && s.name@ == name@ && s.fields == fields,
    {
        GValue::Struct(StructValue::new(name, fields))
    }

    /// Create a sum value
    pub fn sum(tag: &str, value: Option<GValue>) -> (r: GValue)
        ensures
            r matches GValue::Sum(s) && s.tag@ == tag@ && (value matches Some(v) ==> s.value
                matches Some(b) && *b == v) && (value is None ==> s.value is None),
    {
        GValue::Sum(SumValue::new(tag, value))
    }

    pub fn is_null(&self) -> (r: bool)
        ensures
            r == (self is Null),
    {
        matches!(self, GValue::Null)
    }

    pub fn is_bool(&self) -> (r: bool)
        ensures
            r == (self is Bool),
    {
        matches!(self, GValue::Bool(_))
    }

    pub fn is_int(&self) -> (r: bool)
        ensures
            r == (self is Int),
    {
        matches!(self, GValue::Int(_))
    }

    pub fn is_float(&self) -> (r: bool)
        ensures
            r == (self is Float),
    {
        matches!(self, GValue::Float(_))
    }

    pub fn is_str(&self) -> (r: bool)
        ensures
            r == (self is Str),
    {
        matches!(self, GValue::Str(_))
    }

    pub fn is_bytes(&self) -> (r: bool)
        ensures
            r == (self is Bytes),
    {
        matches!(self, GValue::Bytes(_))
    }

    pub fn is_time(&self) -> (r: bool)
        ensures
            r == (self is Time),
    {
        matches!(self, GValue::Time(_))
    }

    pub fn is_id(&self) -> (r: bool)
        ensures
            r == (self is Id),
    {
        matches!(self, GValue::Id(_))
    }

    pub fn is_list(&self) -> (r: bool)
        ensures
            r == (self is List),
    {
        matches!(self, GValue::List(_))
    }

    pub fn is_map(&self) -> (r: bool)
        ensures
            r == (self is Mapping),
    {
        matches!(self, GValue::Mapping(_))
    }

    pub fn is_struct(&self) -> (r: bool)
        ensures
            r == (self is Struct),
    {
        matches!(self, GValue::Struct(_))
    }

    pub fn is_sum(&self) -> (r: bool)
        ensures
            r == (self is Sum),
    {
        matches!(self, GValue::Sum(_))
    }

    pub fn as_bool(&self) -> (r: Option<bool>)
        ensures
            self matches GValue::Bool(v) ==> (r matches Some(b) && b == v),
            !(self is Bool) ==> r is None,
    {
        match self {
            GValue::Bool(v) => Some(*v),
            _ => None,
        }
    }

    pub fn as_int(&self) -> (r: Option<i64>)
        ensures
            self matches GValue::Int(v) ==> (r matches Some(n) && n == v),
            !(self is Int) ==> r is None,
    {
        match self {
            GValue::Int(v) => Some(*v),
            _ => None,
        }
    }

    /// The IEEE 754 bit pattern of a float value.
    pub fn as_float(&self) -> (r: Option<u64>)
        ensures
            self matches GValue::Float(v) ==> (r matches Some(b) && b == v),
            !(self is Float) ==> r is None,
    {
        match self {
            GValue::Float(v) => Some(*v),
            _ => None,
        }
    }

    pub fn as_str(&self) -> (r: Option<&str>)
        ensures
            self matches GValue::Str(v) ==> r matches Some(s) && s@ == v@,
            !(self is Str) ==> r is None,
    {
        match self {
            GValue::Str(v) => Some(v.as_str()),
            _ => None,
        }
    }

    pub fn as_bytes(&self) -> (r: Option<&Vec<u8>>)
        ensures
            self matches GValue::Bytes(v) ==> r matches Some(b) && *b == v,
            !(self is Bytes) ==> r is None,
    {
        match self {
            GValue::Bytes(v) => Some(v),
            _ => None,
        }
    }

    pub fn as_time(&self) -> (r: Option<&Timestamp>)
        ensures
            self matches GValue::Time(v) ==> r matches Some(t) && *t == v,
            !(self is Time) ==> r is None,
    {
        match self {
            GValue::Time(v) => Some(v),
            _ => None,
        }
    }

    pub fn as_id(&self) -> (r: Option<&RefId>)
        ensures
            self matches GValue::Id(v) ==> r matches Some(i) && *i == v,
            !(self is Id) ==> r is None,
    {
        match self {
            GValue::Id(v) => Some(v),
            _ => None,
        }
    }

    pub fn as_list(&self) -> (r: Option<&Vec<GValue>>)
        ensures
            self matches GValue::List(v) ==> r matches Some(l) && *l == v,
            !(self is List) ==> r is None,
    {
        match self {
            GValue::List(v) => Some(v),
            _ => None,
        }
    }

    pub fn as_map(&self) -> (r: Option<&Vec<MapEntry>>)
        ensures
            self matches GValue::Mapping(v) ==> r matches Some(m) && *m == v,
            !(self is Mapping) ==> r is None,
    {
        match self {
            GValue::Mapping(v) => Some(v),
            _ => None,
        }
    }

    pub fn as_struct(&self) -> (r: Option<&StructValue>)
        ensures
            self matches GValue::Struct(v) ==> r matches Some(s) && *s == v,
            !(self is Struct) ==> r is None,
    {
        match self {
            GValue::Struct(v) => Some(v),
            _ => None,
        }
    }

    pub fn as_sum(&self) -> (r: Option<&SumValue>)
        ensures
            self matches GValue::Sum(v) ==> r matches Some(s) && *s == v,
            !(self is Sum) ==> r is None,
    {
        match self {
            GValue::Sum(v) => Some(v),
            _ => None,
        }
    }

    /// The entries a map or a struct carries; `None` for every other variant.
    pub open spec fn spec_entries(self) -> Option<Seq<MapEntry>> {
        match self {
            GValue::Mapping(entries) => Some(entries@),
            GValue::Struct(s) => Some(s.fields@),
            _ => None,
        }
    }

    /// Get a value from a map or struct by key (first occurrence).
    pub fn get(&self, key: &str) -> (r: Option<&GValue>)
        ensures
            match self.spec_entries() {
                Some(es) => {
                    match r {
                        Some(v) => first_with_key(es, key@) == Some(*v),
                        None => first_with_key(es, key@) is None,
                    }
                },
                None => r is None,
            },
    {
        let entries: &Vec<MapEntry> = match self {
            GValue::Mapping(entries) => entries,
            GValue::Struct(s) => &s.fields,
            _ => { return None },
        };
        let ghost es = self.spec_entries().unwrap();
        proof {
            assert(es.skip(0) =~= es);
        }
        let mut i: usize = 0;
        while i < entries.len()
            invariant
                0 <= i <= entries.len(),
                es == entries@,
                self.spec_entries() == Some(es),
                first_with_key(es, key@) == first_with_key(es.skip(i as int), key@),
            decreases entries.len() - i,
        {
            proof {
                assert(es.skip(i as int)[0] == es[i as int]);
                assert(es.skip(i as int).skip(1) =~= es.skip(i as int + 1));
            }
            if str_eq(entries[i].key.as_str(), key) {
                proof {
                    assert(first_with_key(es.skip(i as int), key@) == Some(es[i as int].value));
                }
                return Some(&entries[i].value);
            }
            i += 1;
        }
        proof {
            assert(es.skip(i as int) =~= Seq::<MapEntry>::empty());
        }
        None
    }

    /// Get a value from a list by index.
    pub fn index(&self, idx: usize) -> (r: Option<&GValue>)
        ensures
            match self {
                GValue::List(items) => {
                    &&& idx < items@.len() ==> (r matches Some(v) && *v == items@[idx as int])
                    &&& idx >= items@.len() ==> r is None
                },
                _ => r is None,
            },
    {
        match self {
            GValue::List(items) => {
                if idx < items.len() {
                    Some(&items[idx])
                } else {
                    None
                }
            },
            _ => None,
        }
    }
}

/// The first entry with the given key, searching left to right.
pub open spec fn first_with_key(es: Seq<MapEntry>, k: Seq<char>) -> Option<GValue>
    decreases es.len(),
{
    if es.len() == 0 {
        None
    } else if es[0].key@ == k {
        Some(es[0].value)
    } else {
        first_with_key(es.skip(1), k)
    }
}

/// Helper to create a map entry.
pub fn field(key: &str, value: GValue) -> (r: MapEntry)
    ensures
        r.key@ == key@,
        r.value == value,
{
    MapEntry::new(key, value)
}

} // verus!
