//! The typed source record model and the JSON value tree.
//!
//! `TypedField` is a closed sum over the source's dynamically typed
//! values; `JsonValue` is the output tree. Both have mathematical views
//! (`FieldV`, `JsonV`) that contracts are stated over.
use vstd::prelude::*;

verus! {

/// A floating-point source value, modeled by what the renderers read of
/// it: either it is not finite, or it is its shortest round-trippable
/// decimal text (the form both output paths print).
#[derive(Debug, Clone, PartialEq)]
pub enum FloatRepr {
    /// NaN or an infinity.
    NonFinite,
    /// A finite value, as its shortest round-trippable decimal text.
    Finite(String),
}

/// One typed field of a decoded record.
#[derive(Debug)]
pub enum TypedField {
    Null,
    Bool(bool),
    Byte(i8),
    Short(i16),
    Int(i32),
    Long(i64),
    UByte(u8),
    UShort(u16),
    UInt(u32),
    ULong(u64),
    /// A 32-bit float, already widened to 64 bits and rendered.
    Float(FloatRepr),
    Double(FloatRepr),
    /// Unscaled value as big-endian two's-complement bytes, then scale
    /// and precision. A well-formed value has `0 <= scale < precision`.
    Decimal(Vec<u8>, i32, i32),
    Bytes(Vec<u8>),
    Str(String),
    /// Days since 1970-01-01.
    Date(u32),
    /// Milliseconds since the Unix epoch.
    TimestampMillis(u64),
    /// Microseconds since the Unix epoch.
    TimestampMicros(u64),
    /// Ordered named children.
    Group(Vec<(String, TypedField)>),
    ListInternal(Vec<TypedField>),
    MapInternal(Vec<(TypedField, TypedField)>),
}

/// A JSON value, the output representation. Objects keep insertion
/// order and are never reordered or de-duplicated.
#[derive(Debug)]
pub enum JsonValue {
    Null,
    Bool(bool),
    Int(i64),
    UInt(u64),
    /// A finite floating number, carried as its decimal text.
    Float(String),
    Str(String),
    Array(Vec<JsonValue>),
    Object(Vec<(String, JsonValue)>),
}

/// View of a floating-point source value.
pub ghost enum FloatV {
    NonFinite,
    Finite(Seq<char>),
}

/// Mathematical view of a typed field.
pub ghost enum FieldV {
    Null,
    Bool(bool),
    Byte(int),
    Short(int),
    Int(int),
    Long(int),
    UByte(int),
    UShort(int),
    UInt(int),
    ULong(int),
    Float(FloatV),
    Double(FloatV),
    Decimal(Seq<u8>, int, int),
    Bytes(Seq<u8>),
    Str(Seq<char>),
    Date(int),
    TimestampMillis(int),
    TimestampMicros(int),
    Group(Seq<(Seq<char>, FieldV)>),
    ListInternal(Seq<FieldV>),
    MapInternal(Seq<(FieldV, FieldV)>),
}

/// Mathematical view of a JSON value. Integer numbers, signed or
/// unsigned, are one mathematical integer.
pub ghost enum JsonV {
    Null,
    Bool(bool),
    Int(int),
    Float(Seq<char>),
    Str(Seq<char>),
    Arr(Seq<JsonV>),
    Obj(Seq<(Seq<char>, JsonV)>),
}

impl FloatRepr {
    /// View of this float representation.
    pub open spec fn fv(self) -> FloatV {
        match self {
            FloatRepr::NonFinite => FloatV::NonFinite,
            FloatRepr::Finite(s) => FloatV::Finite(s@),
        }
    }
}

impl TypedField {
    /// View of this field.
    pub open spec fn fv(self) -> FieldV
        decreases self,
    {
        match self {
            TypedField::Null => FieldV::Null,
            TypedField::Bool(b) => FieldV::Bool(b),
            TypedField::Byte(n) => FieldV::Byte(n as int),
            TypedField::Short(n) => FieldV::Short(n as int),
            TypedField::Int(n) => FieldV::Int(n as int),
            TypedField::Long(n) => FieldV::Long(n as int),
            TypedField::UByte(n) => FieldV::UByte(n as int),
            TypedField::UShort(n) => FieldV::UShort(n as int),
            TypedField::UInt(n) => FieldV::UInt(n as int),
            TypedField::ULong(n) => FieldV::ULong(n as int),
            TypedField::Float(r) => FieldV::Float(r.fv()),
            TypedField::Double(r) => FieldV::Double(r.fv()),
            TypedField::Decimal(b, s, p) => FieldV::Decimal(b@, s as int, p as int),
            TypedField::Bytes(b) => FieldV::Bytes(b@),
            TypedField::Str(s) => FieldV::Str(s@),
            TypedField::Date(d) => FieldV::Date(d as int),
            TypedField::TimestampMillis(t) => FieldV::TimestampMillis(t as int),
            TypedField::TimestampMicros(t) => FieldV::TimestampMicros(t as int),
            TypedField::Group(fields) => FieldV::Group(fv_entries(fields@)),
            TypedField::ListInternal(elems) => FieldV::ListInternal(fv_list(elems@)),
            TypedField::MapInternal(pairs) => FieldV::MapInternal(fv_pairs(pairs@)),
        }
    }
}

/// View of a group's named children.
pub open spec fn fv_entries(s: Seq<(String, TypedField)>) -> Seq<(Seq<char>, FieldV)>
    decreases s,
{
    if s.len() == 0 {
        Seq::empty()
    } else {
        fv_entries(s.drop_last()).push((s.last().0@, s.last().1.fv()))
    }
}

/// View of a list's elements.
pub open spec fn fv_list(s: Seq<TypedField>) -> Seq<FieldV>
    decreases s,
{
    if s.len() == 0 {
        Seq::empty()
    } else {
        fv_list(s.drop_last()).push(s.last().fv())
    }
}

/// View of a map's key-value pairs.
pub open spec fn fv_pairs(s: Seq<(TypedField, TypedField)>) -> Seq<(FieldV, FieldV)>
    decreases s,
{
    if s.len() == 0 {
        Seq::empty()
    } else {
        fv_pairs(s.drop_last()).push((s.last().0.fv(), s.last().1.fv()))
    }
}

impl JsonValue {
    /// View of this JSON value.
    pub open spec fn jv(self) -> JsonV
        decreases self,
    {
        match self {
            JsonValue::Null => JsonV::Null,
            JsonValue::Bool(b) => JsonV::Bool(b),
            JsonValue::Int(n) => JsonV::Int(n as int),
            JsonValue::UInt(n) => JsonV::Int(n as int),
            JsonValue::Float(s) => JsonV::Float(s@),
            JsonValue::Str(s) => JsonV::Str(s@),
            JsonValue::Array(elems) => JsonV::Arr(jv_list(elems@)),
            JsonValue::Object(entries) => JsonV::Obj(jv_entries(entries@)),
        }
    }
}

impl JsonValue {
    /// Whether this is the null value.
    pub fn is_null(&self) -> (r: bool)
        ensures
            r == (self.jv() is Null),
    {
        match self {
            JsonValue::Null => true,
            _ => false,
        }
    }
}

/// View of an array's elements.
pub open spec fn jv_list(s: Seq<JsonValue>) -> Seq<JsonV>
    decreases s,
{
    if s.len() == 0 {
        Seq::empty()
    } else {
        jv_list(s.drop_last()).push(s.last().jv())
    }
}

/// View of an object's entries.
pub open spec fn jv_entries(s: Seq<(String, JsonValue)>) -> Seq<(Seq<char>, JsonV)>
    decreases s,
{
    if s.len() == 0 {
        Seq::empty()
    } else {
        jv_entries(s.drop_last()).push((s.last().0@, s.last().1.jv()))
    }
}

/// The view of a group's children has one entry per child, in order.
pub proof fn lemma_fv_entries(s: Seq<(String, TypedField)>)
    ensures
        fv_entries(s).len() == s.len(),
        forall|i: int|
            0 <= i < s.len() ==> #[trigger] fv_entries(s)[i] == (s[i].0@, s[i].1.fv()),
    decreases s.len(),
{
    if s.len() > 0 {
        lemma_fv_entries(s.drop_last());
        assert(forall|i: int|
            0 <= i < s.len() - 1 ==> s.drop_last()[i] == #[trigger] s[i]);
    }
}

/// The view of a list's elements has one element per element, in order.
pub proof fn lemma_fv_list(s: Seq<TypedField>)
    ensures
        fv_list(s).len() == s.len(),
        forall|i: int| 0 <= i < s.len() ==> #[trigger] fv_list(s)[i] == s[i].fv(),
    decreases s.len(),
{
    if s.len() > 0 {
        lemma_fv_list(s.drop_last());
        assert(forall|i: int|
            0 <= i < s.len() - 1 ==> s.drop_last()[i] == #[trigger] s[i]);
    }
}

/// The view of a map's pairs has one pair per pair, in order.
pub proof fn lemma_fv_pairs(s: Seq<(TypedField, TypedField)>)
    ensures
        fv_pairs(s).len() == s.len(),
        forall|i: int|
            0 <= i < s.len() ==> #[trigger] fv_pairs(s)[i] == (s[i].0.fv(), s[i].1.fv()),
    decreases s.len(),
{
    if s.len() > 0 {
        lemma_fv_pairs(s.drop_last());
        assert(forall|i: int|
            0 <= i < s.len() - 1 ==> s.drop_last()[i] == #[trigger] s[i]);
    }
}

/// The view of an array's elements has one element per element, in
/// order.
pub proof fn lemma_jv_list(s: Seq<JsonValue>)
    ensures
        jv_list(s).len() == s.len(),
        forall|i: int| 0 <= i < s.len() ==> #[trigger] jv_list(s)[i] == s[i].jv(),
    decreases s.len(),
{
    if s.len() > 0 {
        lemma_jv_list(s.drop_last());
        assert(forall|i: int|
            0 <= i < s.len() - 1 ==> s.drop_last()[i] == #[trigger] s[i]);
    }
}

/// The view of an object's entries has one entry per entry, in order.
pub proof fn lemma_jv_entries(s: Seq<(String, JsonValue)>)
    ensures
        jv_entries(s).len() == s.len(),
        forall|i: int|
            0 <= i < s.len() ==> #[trigger] jv_entries(s)[i] == (s[i].0@, s[i].1.jv()),
    decreases s.len(),
{
    if s.len() > 0 {
        lemma_jv_entries(s.drop_last());
        assert(forall|i: int|
            0 <= i < s.len() - 1 ==> s.drop_last()[i] == #[trigger] s[i]);
    }
}

} // verus!
