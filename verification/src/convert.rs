//! The value mapper: the recursive conversion of a typed field into a
//! JSON value under the configured pruning rules.
use vstd::prelude::*;

use crate::decimal::{be_signed_int, decimal_render, decimal_to_string};
use crate::numfmt::{dec_str_of, i64_to_string, u64_to_string};
use crate::settings::Settings;
use crate::times::{date_to_value, date_value, timestamp_to_value, ts_value};
use crate::value::{
    fv_entries, fv_list, fv_pairs, jv_entries, jv_list, lemma_fv_entries, lemma_fv_list,
    lemma_fv_pairs, lemma_jv_entries, lemma_jv_list, FieldV, FloatRepr, FloatV, JsonV, JsonValue,
    TypedField,
};

verus! {

/// An unrecoverable conversion failure.
#[derive(Debug, Clone, Copy, PartialEq, Eq, Structural)]
pub enum ConvError {
    /// A map key was neither null, boolean, integer nor string.
    UnsupportedMapKey,
}

impl ConvError {
    /// A short description of the failure.
    pub fn message(&self) -> (r: String)
        ensures
            r@ == "Unsupported map key"@,
    {
        String::from_str("Unsupported map key")
    }
}

/// An unsigned 64-bit value reinterpreted as its two's-complement
/// signed equivalent.
pub open spec fn u64_as_i64(n: int) -> int {
    if n >= 0x8000000000000000 {
        n - 0x10000000000000000
    } else {
        n
    }
}

/// Whether a map key is of a kind that can be rendered: null, boolean,
/// any integer, or string.
pub open spec fn key_ok(k: FieldV) -> bool {
    match k {
        FieldV::Null => true,
        FieldV::Bool(_) => true,
        FieldV::Byte(_) => true,
        FieldV::Short(_) => true,
        FieldV::Int(_) => true,
        FieldV::Long(_) => true,
        FieldV::UByte(_) => true,
        FieldV::UShort(_) => true,
        FieldV::UInt(_) => true,
        FieldV::ULong(_) => true,
        FieldV::Str(_) => true,
        _ => false,
    }
}

/// The text a supported map key renders to: the literal `null` for a
/// null key, `true`/`false` for a boolean, decimal digits for an
/// integer (unsigned 64-bit subject to the signed reinterpretation
/// setting), the string itself for a string key.
pub open spec fn key_string(s: Settings, k: FieldV) -> Seq<char> {
    match k {
        FieldV::Null => "null"@,
        FieldV::Bool(b) => if b {
            "true"@
        } else {
            "false"@
        },
        FieldV::Byte(n) => dec_str_of(n),
        FieldV::Short(n) => dec_str_of(n),
        FieldV::Int(n) => dec_str_of(n),
        FieldV::Long(n) => dec_str_of(n),
        FieldV::UByte(n) => dec_str_of(n),
        FieldV::UShort(n) => dec_str_of(n),
        FieldV::UInt(n) => dec_str_of(n),
        FieldV::ULong(n) => dec_str_of(
            if s.convert_types {
                u64_as_i64(n)
            } else {
                n
            },
        ),
        FieldV::Str(t) => t,
        _ => Seq::empty(),
    }
}

/// No map anywhere under the field has an unsupported key.
pub open spec fn good_keys(f: FieldV) -> bool
    decreases f,
{
    match f {
        FieldV::Group(es) => entries_good(es),
        FieldV::ListInternal(es) => elems_good(es),
        FieldV::MapInternal(es) => pairs_good(es),
        _ => true,
    }
}

/// All of a group's children have good keys.
pub open spec fn entries_good(es: Seq<(Seq<char>, FieldV)>) -> bool
    decreases es,
{
    forall|i: int| 0 <= i < es.len() ==> good_keys(#[trigger] es[i].1)
}

/// All of a list's elements have good keys.
pub open spec fn elems_good(es: Seq<FieldV>) -> bool
    decreases es,
{
    forall|i: int| 0 <= i < es.len() ==> good_keys(#[trigger] es[i])
}

/// All of a map's keys are supported and all of its values have good
/// keys.
pub open spec fn pairs_good(es: Seq<(FieldV, FieldV)>) -> bool
    decreases es,
{
    forall|i: int|
        0 <= i < es.len() ==> key_ok(#[trigger] es[i].0) && good_keys(es[i].1)
}

/// Every decimal under the field is well-formed: scale at least zero
/// and precision above it.
pub open spec fn field_wf(f: FieldV) -> bool
    decreases f,
{
    match f {
        FieldV::Decimal(b, sc, pr) => 0 <= sc < pr,
        FieldV::Group(es) => entries_wf(es),
        FieldV::ListInternal(es) => elems_wf(es),
        FieldV::MapInternal(es) => pairs_wf(es),
        _ => true,
    }
}

/// All of a group's children are well-formed.
pub open spec fn entries_wf(es: Seq<(Seq<char>, FieldV)>) -> bool
    decreases es,
{
    forall|i: int| 0 <= i < es.len() ==> field_wf(#[trigger] es[i].1)
}

/// All of a list's elements are well-formed.
pub open spec fn elems_wf(es: Seq<FieldV>) -> bool
    decreases es,
{
    forall|i: int| 0 <= i < es.len() ==> field_wf(#[trigger] es[i])
}

/// All of a map's values are well-formed.
pub open spec fn pairs_wf(es: Seq<(FieldV, FieldV)>) -> bool
    decreases es,
{
    forall|i: int| 0 <= i < es.len() ==> field_wf(#[trigger] es[i].1)
}

/// What a non-finite float maps to (null, JSON having no such numbers)
/// and a finite one (its decimal text).
pub open spec fn float_value(r: FloatV) -> JsonV {
    match r {
        FloatV::NonFinite => JsonV::Null,
        FloatV::Finite(t) => JsonV::Float(t),
    }
}

/// An assembled object, or null when it is empty and empty bags are
/// omitted.
pub open spec fn bag_value(s: Settings, entries: Seq<(Seq<char>, JsonV)>) -> JsonV {
    if s.omit_empty_bags && entries.len() == 0 {
        JsonV::Null
    } else {
        JsonV::Obj(entries)
    }
}

/// An assembled array, or null when it is empty and empty lists are
/// omitted.
pub open spec fn arr_value(s: Settings, elems: Seq<JsonV>) -> JsonV {
    if s.omit_empty_lists && elems.len() == 0 {
        JsonV::Null
    } else {
        JsonV::Arr(elems)
    }
}

/// The JSON value a typed field maps to.
pub open spec fn map_field_spec(s: Settings, f: FieldV) -> JsonV
    decreases f,
{
    match f {
        FieldV::Null => JsonV::Null,
        FieldV::Bool(b) => JsonV::Bool(b),
        FieldV::Byte(n) => JsonV::Int(n),
        FieldV::Short(n) => JsonV::Int(n),
        FieldV::Int(n) => JsonV::Int(n),
        FieldV::Long(n) => JsonV::Int(n),
        FieldV::UByte(n) => JsonV::Int(n),
        FieldV::UShort(n) => JsonV::Int(n),
        FieldV::UInt(n) => JsonV::Int(n),
        FieldV::ULong(n) => JsonV::Int(
            if s.convert_types {
                u64_as_i64(n)
            } else {
                n
            },
        ),
        FieldV::Float(r) => float_value(r),
        FieldV::Double(r) => float_value(r),
        FieldV::Decimal(b, sc, pr) => JsonV::Str(decimal_render(be_signed_int(b), sc)),
        FieldV::Bytes(bs) => JsonV::Arr(Seq::new(bs.len(), |i: int| JsonV::Int(bs[i] as int))),
        FieldV::Str(t) => JsonV::Str(t),
        FieldV::Date(d) => date_value(d),
        FieldV::TimestampMillis(t) => ts_value(s, t),
        FieldV::TimestampMicros(t) => ts_value(s, t / 1000),
        FieldV::Group(es) => bag_value(s, mapped_entries(s, es)),
        FieldV::ListInternal(es) => arr_value(s, mapped_list(s, es)),
        FieldV::MapInternal(es) => bag_value(s, mapped_map_entries(s, es)),
    }
}

/// The assembled entries hold the key.
pub open spec fn obj_has_key(es: Seq<(Seq<char>, JsonV)>, key: Seq<char>) -> bool {
    exists|j: int| 0 <= j < es.len() && es[j].0 == key
}

/// The first index holding the key; the length when none does.
pub open spec fn obj_key_index(es: Seq<(Seq<char>, JsonV)>, key: Seq<char>) -> int
    decreases es.len(),
{
    if es.len() == 0 {
        0int
    } else if es[0].0 == key {
        0int
    } else {
        1 + obj_key_index(es.drop_first(), key)
    }
}

/// Inserting one entry into an object under assembly: a key already
/// present keeps its place and takes the new value (the last value
/// wins); a new key goes at the end. Keys are never repeated.
pub open spec fn obj_insert(es: Seq<(Seq<char>, JsonV)>, key: Seq<char>, v: JsonV) -> Seq<
    (Seq<char>, JsonV),
> {
    if obj_has_key(es, key) {
        es.update(obj_key_index(es, key), (key, v))
    } else {
        es.push((key, v))
    }
}

/// No two entries share a key.
pub open spec fn unique_keys(es: Seq<(Seq<char>, JsonV)>) -> bool {
    forall|i: int, j: int| 0 <= i < j < es.len() ==> (#[trigger] es[i]).0 != (#[trigger] es[j]).0
}

/// The first index with the key sits behind any prefix without it.
proof fn lemma_obj_key_skip(es: Seq<(Seq<char>, JsonV)>, key: Seq<char>, i: int)
    requires
        0 <= i <= es.len(),
        forall|j: int| 0 <= j < i ==> (#[trigger] es[j]).0 != key,
    ensures
        obj_has_key(es, key) <==> obj_has_key(es.skip(i), key),
        obj_has_key(es, key) ==> obj_key_index(es, key) == i + obj_key_index(es.skip(i), key),
    decreases i,
{
    if i > 0 {
        assert(es[0].0 != key);
        assert(es.drop_first() =~= es.skip(1));
        assert(forall|j: int| 0 <= j < i - 1 ==> (#[trigger] es.drop_first()[j]).0 != key) by {
            assert(forall|j: int|
                0 <= j < i - 1 ==> #[trigger] es.drop_first()[j] == es[j + 1]);
        }
        lemma_obj_key_skip(es.drop_first(), key, i - 1);
        assert(es.drop_first().skip(i - 1) =~= es.skip(i));
        assert(obj_has_key(es, key) <==> obj_has_key(es.drop_first(), key)) by {
            if obj_has_key(es, key) {
                let k = choose|k: int| 0 <= k < es.len() && es[k].0 == key;
                assert(k != 0);
                assert(es.drop_first()[k - 1].0 == key);
            }
            if obj_has_key(es.drop_first(), key) {
                let k = choose|k: int|
                    0 <= k < es.drop_first().len() && es.drop_first()[k].0 == key;
                assert(es[k + 1].0 == key);
            }
        }
    } else {
        assert(es.skip(0) =~= es);
    }
}

/// When the key is present, its first index is in range and holds it.
proof fn lemma_obj_key_index_props(es: Seq<(Seq<char>, JsonV)>, key: Seq<char>)
    requires
        obj_has_key(es, key),
    ensures
        0 <= obj_key_index(es, key) < es.len(),
        es[obj_key_index(es, key)].0 == key,
    decreases es.len(),
{
    if es.len() > 0 && es[0].0 != key {
        assert(obj_has_key(es.drop_first(), key)) by {
            let k = choose|k: int| 0 <= k < es.len() && es[k].0 == key;
            assert(k != 0);
            assert(es.drop_first()[k - 1].0 == key);
        }
        lemma_obj_key_index_props(es.drop_first(), key);
    }
}

/// Inserting keeps keys unique: a present key only changes its value, a
/// new key was not there yet.
proof fn lemma_obj_insert_unique(es: Seq<(Seq<char>, JsonV)>, key: Seq<char>, v: JsonV)
    requires
        unique_keys(es),
    ensures
        unique_keys(obj_insert(es, key, v)),
{
    if obj_has_key(es, key) {
        lemma_obj_key_index_props(es, key);
        let r = es.update(obj_key_index(es, key), (key, v));
        assert(forall|i: int| 0 <= i < es.len() ==> (#[trigger] r[i]).0 == es[i].0);
    } else {
        let r = es.push((key, v));
        assert(forall|i: int| 0 <= i < es.len() ==> (#[trigger] r[i]).0 == es[i].0);
        assert(forall|i: int| 0 <= i < es.len() ==> (#[trigger] es[i]).0 != key);
    }
}

/// A group's mapped entries: each child mapped in order and inserted
/// under its name, skipping an entry whose value mapped to null when
/// nulls are omitted (a skipped repeat leaves the earlier entry
/// standing).
pub open spec fn mapped_entries(s: Settings, es: Seq<(Seq<char>, FieldV)>) -> Seq<
    (Seq<char>, JsonV),
>
    decreases es,
{
    if es.len() == 0 {
        Seq::empty()
    } else {
        let rest = mapped_entries(s, es.drop_last());
        let v = map_field_spec(s, es.last().1);
        if s.omit_nulls && v is Null {
            rest
        } else {
            obj_insert(rest, es.last().0, v)
        }
    }
}

/// A list's mapped elements, in order; null elements are kept.
pub open spec fn mapped_list(s: Settings, es: Seq<FieldV>) -> Seq<JsonV>
    decreases es,
{
    if es.len() == 0 {
        Seq::empty()
    } else {
        mapped_list(s, es.drop_last()).push(map_field_spec(s, es.last()))
    }
}

/// A map's mapped entries: each key rendered to text, each value mapped
/// and inserted under that text, skipping an entry whose value mapped
/// to null when nulls are omitted (a skipped repeat leaves the earlier
/// entry standing).
pub open spec fn mapped_map_entries(s: Settings, es: Seq<(FieldV, FieldV)>) -> Seq<
    (Seq<char>, JsonV),
>
    decreases es,
{
    if es.len() == 0 {
        Seq::empty()
    } else {
        let rest = mapped_map_entries(s, es.drop_last());
        let v = map_field_spec(s, es.last().1);
        if s.omit_nulls && v is Null {
            rest
        } else {
            obj_insert(rest, key_string(s, es.last().0), v)
        }
    }
}

/// The keys of mapped object entries, in order.
pub open spec fn entry_keys(es: Seq<(Seq<char>, JsonV)>) -> Seq<Seq<char>> {
    Seq::new(es.len(), |i: int| es[i].0)
}

/// The names of a group's children, in order.
pub open spec fn field_names(es: Seq<(Seq<char>, FieldV)>) -> Seq<Seq<char>> {
    Seq::new(es.len(), |i: int| es[i].0)
}

/// `a` appears inside `b`: same elements in the same order, possibly
/// with elements of `b` skipped.
pub open spec fn subsequence_of(a: Seq<Seq<char>>, b: Seq<Seq<char>>) -> bool
    decreases b.len(),
{
    if a.len() == 0 {
        true
    } else if b.len() == 0 {
        false
    } else {
        (a.last() == b.last() && subsequence_of(a.drop_last(), b.drop_last())) || subsequence_of(
            a,
            b.drop_last(),
        )
    }
}

/// Whatever a subsequence holds, the whole holds.
pub proof fn lemma_subsequence_contains(a: Seq<Seq<char>>, b: Seq<Seq<char>>, name: Seq<char>)
    requires
        subsequence_of(a, b),
        crate::csv_out::contains_str(a, name),
    ensures
        crate::csv_out::contains_str(b, name),
    decreases b.len(),
{
    if a.len() > 0 && b.len() > 0 {
        if a.last() == b.last() && subsequence_of(a.drop_last(), b.drop_last()) {
            let k = choose|k: int| 0 <= k < a.len() && a[k] == name;
            if k == a.len() - 1 {
                assert(b[b.len() - 1] == name);
            } else {
                assert(a.drop_last()[k] == name);
                lemma_subsequence_contains(a.drop_last(), b.drop_last(), name);
                let j = choose|j: int|
                    0 <= j < b.drop_last().len() && b.drop_last()[j] == name;
                assert(b[j] == name);
            }
        } else {
            lemma_subsequence_contains(a, b.drop_last(), name);
            let j = choose|j: int| 0 <= j < b.drop_last().len() && b.drop_last()[j] == name;
            assert(b[j] == name);
        }
    }
}

/// No two of a group's children share a name.
pub open spec fn distinct_names(es: Seq<(Seq<char>, FieldV)>) -> bool {
    forall|i: int, j: int| 0 <= i < j < es.len() ==> (#[trigger] es[i]).0 != (#[trigger] es[j]).0
}

/// No two of a map's keys render to one text.
pub open spec fn distinct_key_texts(s: Settings, es: Seq<(FieldV, FieldV)>) -> bool {
    forall|i: int, j: int|
        0 <= i < j < es.len() ==> key_string(s, (#[trigger] es[i]).0) != key_string(
            s,
            (#[trigger] es[j]).0,
        )
}

/// A key's text depends on the key and the signed-reinterpretation
/// setting alone, not on the pruning settings.
proof fn lemma_key_string_same(s1: Settings, s2: Settings, k: FieldV)
    requires
        s1.convert_types == s2.convert_types,
    ensures
        key_string(s1, k) == key_string(s2, k),
{
    match k {
        FieldV::ULong(_) => {},
        _ => {},
    }
}

/// Every key of a group's mapped entries is one of the children's
/// names.
proof fn lemma_mapped_keys_from_names(s: Settings, es: Seq<(Seq<char>, FieldV)>, key: Seq<char>)
    requires
        obj_has_key(mapped_entries(s, es), key),
    ensures
        exists|i: int| 0 <= i < es.len() && (#[trigger] es[i]).0 == key,
    decreases es.len(),
{
    if es.len() == 0 {
        assert(false);
    } else {
        let rest = mapped_entries(s, es.drop_last());
        let v = map_field_spec(s, es.last().1);
        let name = es.last().0;
        if s.omit_nulls && v is Null {
            lemma_mapped_keys_from_names(s, es.drop_last(), key);
            let i = choose|i: int|
                0 <= i < es.drop_last().len() && (#[trigger] es.drop_last()[i]).0 == key;
            assert(es[i].0 == key);
        } else if key == name {
            assert(es[es.len() - 1].0 == key);
        } else {
            assert(obj_has_key(rest, key)) by {
                if obj_has_key(rest, name) {
                    lemma_obj_key_index_props(rest, name);
                    let r = rest.update(obj_key_index(rest, name), (name, v));
                    let k = choose|k: int| 0 <= k < r.len() && r[k].0 == key;
                    assert(k != obj_key_index(rest, name));
                    assert(rest[k].0 == key);
                } else {
                    let r = rest.push((name, v));
                    let k = choose|k: int| 0 <= k < r.len() && r[k].0 == key;
                    assert(k != r.len() - 1);
                    assert(rest[k].0 == key);
                }
            }
            lemma_mapped_keys_from_names(s, es.drop_last(), key);
            let i = choose|i: int|
                0 <= i < es.drop_last().len() && (#[trigger] es.drop_last()[i]).0 == key;
            assert(es[i].0 == key);
        }
    }
}

/// Every key of a map's mapped entries is the text of one of its keys.
proof fn lemma_mapped_map_keys_from_texts(s: Settings, es: Seq<(FieldV, FieldV)>, key: Seq<char>)
    requires
        obj_has_key(mapped_map_entries(s, es), key),
    ensures
        exists|i: int| 0 <= i < es.len() && key_string(s, (#[trigger] es[i]).0) == key,
    decreases es.len(),
{
    if es.len() == 0 {
        assert(false);
    } else {
        let rest = mapped_map_entries(s, es.drop_last());
        let v = map_field_spec(s, es.last().1);
        let name = key_string(s, es.last().0);
        if s.omit_nulls && v is Null {
            lemma_mapped_map_keys_from_texts(s, es.drop_last(), key);
            let i = choose|i: int|
                0 <= i < es.drop_last().len() && key_string(
                    s,
                    (#[trigger] es.drop_last()[i]).0,
                ) == key;
            assert(key_string(s, es[i].0) == key);
        } else if key == name {
            assert(key_string(s, es[es.len() - 1].0) == key);
        } else {
            assert(obj_has_key(rest, key)) by {
                if obj_has_key(rest, name) {
                    lemma_obj_key_index_props(rest, name);
                    let r = rest.update(obj_key_index(rest, name), (name, v));
                    let k = choose|k: int| 0 <= k < r.len() && r[k].0 == key;
                    assert(k != obj_key_index(rest, name));
                    assert(rest[k].0 == key);
                } else {
                    let r = rest.push((name, v));
                    let k = choose|k: int| 0 <= k < r.len() && r[k].0 == key;
                    assert(k != r.len() - 1);
                    assert(rest[k].0 == key);
                }
            }
            lemma_mapped_map_keys_from_texts(s, es.drop_last(), key);
            let i = choose|i: int|
                0 <= i < es.drop_last().len() && key_string(
                    s,
                    (#[trigger] es.drop_last()[i]).0,
                ) == key;
            assert(key_string(s, es[i].0) == key);
        }
    }
}

/// A mapped object's keys are unique by construction: a repeated name
/// keeps its first place and takes the last surviving value, so no two
/// entries of the assembled object share a key.
pub proof fn lemma_mapped_entries_unique_keys(s: Settings, es: Seq<(Seq<char>, FieldV)>)
    ensures
        unique_keys(mapped_entries(s, es)),
    decreases es.len(),
{
    if es.len() > 0 {
        lemma_mapped_entries_unique_keys(s, es.drop_last());
        let v = map_field_spec(s, es.last().1);
        if !(s.omit_nulls && v is Null) {
            lemma_obj_insert_unique(mapped_entries(s, es.drop_last()), es.last().0, v);
        }
    }
}

/// The same for an object built from a map: no two entries of the
/// assembled object share a key text.
pub proof fn lemma_mapped_map_entries_unique_keys(s: Settings, es: Seq<(FieldV, FieldV)>)
    ensures
        unique_keys(mapped_map_entries(s, es)),
    decreases es.len(),
{
    if es.len() > 0 {
        lemma_mapped_map_entries_unique_keys(s, es.drop_last());
        let v = map_field_spec(s, es.last().1);
        if !(s.omit_nulls && v is Null) {
            lemma_obj_insert_unique(
                mapped_map_entries(s, es.drop_last()),
                key_string(s, es.last().0),
                v,
            );
        }
    }
}

/// With null omission off and no repeated name, a group's mapped
/// entries keep every child's name, in order. With a repeated name the
/// later child keeps the first occurrence's place instead.
pub proof fn lemma_keys_without_omission(s: Settings, es: Seq<(Seq<char>, FieldV)>)
    requires
        !s.omit_nulls,
        distinct_names(es),
    ensures
        entry_keys(mapped_entries(s, es)) == field_names(es),
    decreases es.len(),
{
    if es.len() == 0 {
        assert(entry_keys(mapped_entries(s, es)) =~= field_names(es));
    } else {
        assert(distinct_names(es.drop_last())) by {
            assert(forall|i: int|
                0 <= i < es.len() - 1 ==> #[trigger] es.drop_last()[i] == es[i]);
        }
        lemma_keys_without_omission(s, es.drop_last());
        let m = mapped_entries(s, es.drop_last());
        let name = es.last().0;
        let e = (name, map_field_spec(s, es.last().1));
        assert(!obj_has_key(m, name)) by {
            if obj_has_key(m, name) {
                lemma_mapped_keys_from_names(s, es.drop_last(), name);
                let i = choose|i: int|
                    0 <= i < es.drop_last().len() && (#[trigger] es.drop_last()[i]).0 == name;
                assert(es[i].0 == name && es[es.len() - 1].0 == name);
            }
        }
        assert(mapped_entries(s, es) == m.push(e));
        assert(m.len() == es.len() - 1) by {
            assert(entry_keys(m).len() == m.len());
            assert(field_names(es.drop_last()).len() == es.len() - 1);
        }
        assert forall|i: int| 0 <= i < es.len() implies entry_keys(m.push(e))[i] == es[i].0 by {
            assert(entry_keys(m.push(e))[i] == m.push(e)[i].0);
            if i < es.len() - 1 {
                assert(m.push(e)[i] == m[i]);
                assert(entry_keys(m)[i] == m[i].0);
                assert(entry_keys(m)[i] == field_names(es.drop_last())[i]);
                assert(field_names(es.drop_last())[i] == es.drop_last()[i].0);
                assert(es.drop_last()[i] == es[i]);
            } else {
                assert(m.push(e)[i] == e);
            }
        }
        assert(entry_keys(mapped_entries(s, es)) =~= field_names(es));
    }
}

/// Enabling null omission never adds a key and never reorders: for a
/// group without repeated names, the keys of its mapped entries with
/// `omit_nulls` set are a subsequence of the keys with it unset, the
/// other settings equal; so the set of keys present can only shrink.
/// (With a repeated name whose first occurrence alone maps to null the
/// order claim fails, since omission moves the key to its surviving
/// occurrence's place.)
pub proof fn lemma_omit_nulls_keys_subsequence(
    s1: Settings,
    s2: Settings,
    es: Seq<(Seq<char>, FieldV)>,
)
    requires
        !s1.omit_nulls,
        s2.omit_nulls,
        s1.omit_empty_bags == s2.omit_empty_bags,
        s1.omit_empty_lists == s2.omit_empty_lists,
        s1.convert_types == s2.convert_types,
        s1.timestamp_rendering == s2.timestamp_rendering,
        distinct_names(es),
    ensures
        subsequence_of(
            entry_keys(mapped_entries(s2, es)),
            entry_keys(mapped_entries(s1, es)),
        ),
        forall|name: Seq<char>|
            crate::csv_out::contains_str(entry_keys(mapped_entries(s2, es)), name)
                ==> crate::csv_out::contains_str(entry_keys(mapped_entries(s1, es)), name),
    decreases es.len(),
{
    if es.len() == 0 {
        assert(subsequence_of(
            entry_keys(mapped_entries(s2, es)),
            entry_keys(mapped_entries(s1, es)),
        ));
    } else {
        assert(distinct_names(es.drop_last())) by {
            assert(forall|i: int|
                0 <= i < es.len() - 1 ==> #[trigger] es.drop_last()[i] == es[i]);
        }
        lemma_omit_nulls_keys_subsequence(s1, s2, es.drop_last());
        let k1rest = entry_keys(mapped_entries(s1, es.drop_last()));
        let k2rest = entry_keys(mapped_entries(s2, es.drop_last()));
        let name = es.last().0;
        let k1 = entry_keys(mapped_entries(s1, es));
        let k2 = entry_keys(mapped_entries(s2, es));
        assert(!obj_has_key(mapped_entries(s1, es.drop_last()), name)) by {
            if obj_has_key(mapped_entries(s1, es.drop_last()), name) {
                lemma_mapped_keys_from_names(s1, es.drop_last(), name);
                let i = choose|i: int|
                    0 <= i < es.drop_last().len() && (#[trigger] es.drop_last()[i]).0 == name;
                assert(es[i].0 == name && es[es.len() - 1].0 == name);
            }
        }
        assert(!obj_has_key(mapped_entries(s2, es.drop_last()), name)) by {
            if obj_has_key(mapped_entries(s2, es.drop_last()), name) {
                lemma_mapped_keys_from_names(s2, es.drop_last(), name);
                let i = choose|i: int|
                    0 <= i < es.drop_last().len() && (#[trigger] es.drop_last()[i]).0 == name;
                assert(es[i].0 == name && es[es.len() - 1].0 == name);
            }
        }
        assert(k1 =~= k1rest.push(name)) by {
            assert(mapped_entries(s1, es) == mapped_entries(s1, es.drop_last()).push(
                (name, map_field_spec(s1, es.last().1)),
            ));
        }
        if map_field_spec(s2, es.last().1) is Null {
            assert(k2 == k2rest);
            assert(k1.drop_last() =~= k1rest);
            assert(subsequence_of(k2, k1));
        } else {
            assert(k2 =~= k2rest.push(name)) by {
                assert(mapped_entries(s2, es) == mapped_entries(s2, es.drop_last()).push(
                    (name, map_field_spec(s2, es.last().1)),
                ));
            }
            assert(k2.last() == k1.last());
            assert(k2.drop_last() =~= k2rest);
            assert(k1.drop_last() =~= k1rest);
            assert(subsequence_of(k2, k1));
        }
        assert(forall|n: Seq<char>|
            crate::csv_out::contains_str(k2, n) ==> crate::csv_out::contains_str(k1, n)) by {
            assert forall|n: Seq<char>|
                crate::csv_out::contains_str(k2, n) implies crate::csv_out::contains_str(
                k1,
                n,
            ) by {
                lemma_subsequence_contains(k2, k1, n);
            }
        }
    }
}

/// The same for an object built from a map whose keys render to
/// pairwise different texts: enabling null omission never adds a key
/// and never reorders the keys the entries render to.
pub proof fn lemma_omit_nulls_map_keys_subsequence(
    s1: Settings,
    s2: Settings,
    es: Seq<(FieldV, FieldV)>,
)
    requires
        !s1.omit_nulls,
        s2.omit_nulls,
        s1.omit_empty_bags == s2.omit_empty_bags,
        s1.omit_empty_lists == s2.omit_empty_lists,
        s1.convert_types == s2.convert_types,
        s1.timestamp_rendering == s2.timestamp_rendering,
        distinct_key_texts(s1, es),
    ensures
        subsequence_of(
            entry_keys(mapped_map_entries(s2, es)),
            entry_keys(mapped_map_entries(s1, es)),
        ),
    decreases es.len(),
{
    if es.len() == 0 {
        assert(subsequence_of(
            entry_keys(mapped_map_entries(s2, es)),
            entry_keys(mapped_map_entries(s1, es)),
        ));
    } else {
        assert(distinct_key_texts(s1, es.drop_last())) by {
            assert(forall|i: int|
                0 <= i < es.len() - 1 ==> #[trigger] es.drop_last()[i] == es[i]);
        }
        lemma_omit_nulls_map_keys_subsequence(s1, s2, es.drop_last());
        let k1rest = entry_keys(mapped_map_entries(s1, es.drop_last()));
        let k2rest = entry_keys(mapped_map_entries(s2, es.drop_last()));
        let name1 = key_string(s1, es.last().0);
        let name2 = key_string(s2, es.last().0);
        assert(name1 == name2) by {
            lemma_key_string_same(s1, s2, es.last().0);
        }
        let k1 = entry_keys(mapped_map_entries(s1, es));
        let k2 = entry_keys(mapped_map_entries(s2, es));
        assert(!obj_has_key(mapped_map_entries(s1, es.drop_last()), name1)) by {
            if obj_has_key(mapped_map_entries(s1, es.drop_last()), name1) {
                lemma_mapped_map_keys_from_texts(s1, es.drop_last(), name1);
                let i = choose|i: int|
                    0 <= i < es.drop_last().len() && key_string(
                        s1,
                        (#[trigger] es.drop_last()[i]).0,
                    ) == name1;
                assert(key_string(s1, es[i].0) == name1);
                assert(key_string(s1, es[es.len() - 1].0) == name1);
            }
        }
        assert(!obj_has_key(mapped_map_entries(s2, es.drop_last()), name2)) by {
            if obj_has_key(mapped_map_entries(s2, es.drop_last()), name2) {
                lemma_mapped_map_keys_from_texts(s2, es.drop_last(), name2);
                let i = choose|i: int|
                    0 <= i < es.drop_last().len() && key_string(
                        s2,
                        (#[trigger] es.drop_last()[i]).0,
                    ) == name2;
                lemma_key_string_same(s1, s2, es.drop_last()[i].0);
                assert(key_string(s1, es[i].0) == name1);
                assert(key_string(s1, es[es.len() - 1].0) == name1);
            }
        }
        assert(k1 =~= k1rest.push(name1)) by {
            assert(mapped_map_entries(s1, es) == mapped_map_entries(s1, es.drop_last()).push(
                (name1, map_field_spec(s1, es.last().1)),
            ));
        }
        if map_field_spec(s2, es.last().1) is Null {
            assert(k2 == k2rest);
            assert(k1.drop_last() =~= k1rest);
            assert(subsequence_of(k2, k1));
        } else {
            assert(k2 =~= k2rest.push(name2)) by {
                assert(mapped_map_entries(s2, es) == mapped_map_entries(s2, es.drop_last()).push(
                    (name2, map_field_spec(s2, es.last().1)),
                ));
            }
            assert(k2.last() == k1.last());
            assert(k2.drop_last() =~= k2rest);
            assert(k1.drop_last() =~= k1rest);
            assert(subsequence_of(k2, k1));
        }
    }
}

/// The mapped elements of a list line up with its elements.
pub proof fn lemma_mapped_list(s: Settings, es: Seq<FieldV>)
    ensures
        mapped_list(s, es).len() == es.len(),
        forall|i: int|
            0 <= i < es.len() ==> #[trigger] mapped_list(s, es)[i] == map_field_spec(s, es[i]),
    decreases es.len(),
{
    if es.len() > 0 {
        lemma_mapped_list(s, es.drop_last());
        assert(forall|i: int|
            0 <= i < es.len() - 1 ==> #[trigger] es.drop_last()[i] == es[i]);
    }
}

/// A null element of a list stays null at its position: mapping never
/// drops or moves list elements, whatever the pruning settings.
pub proof fn lemma_list_null_preserved(s: Settings, es: Seq<FieldV>, i: int)
    requires
        0 <= i < es.len(),
        es[i] is Null,
    ensures
        map_field_spec(s, FieldV::ListInternal(es)) is Arr,
        map_field_spec(s, FieldV::ListInternal(es))->Arr_0.len() == es.len(),
        map_field_spec(s, FieldV::ListInternal(es))->Arr_0[i] is Null,
{
    lemma_mapped_list(s, es);
}

/// The two's-complement signed reading of an unsigned 64-bit value.
pub fn ulong_as_long(n: u64) -> (r: i64)
    ensures
        r as int == u64_as_i64(n as int),
{
    if n >= 0x8000000000000000u64 {
        ((n - 0x8000000000000000u64) as i64) + i64::MIN
    } else {
        n as i64
    }
}

/// Maps an unsigned 64-bit value to a JSON number, reinterpreting it as
/// signed when the conversion setting asks for it.
pub fn ulong_to_value(l: u64, settings: &Settings) -> (r: JsonValue)
    ensures
        r.jv() == JsonV::Int(
            if settings.convert_types {
                u64_as_i64(l as int)
            } else {
                l as int
            },
        ),
{
    if settings.convert_types {
        JsonValue::Int(ulong_as_long(l))
    } else {
        JsonValue::UInt(l)
    }
}

/// Maps a floating value: null when it is not finite, else its decimal
/// text as a JSON number.
pub fn float_to_value(f: &FloatRepr) -> (r: JsonValue)
    ensures
        r.jv() == float_value(f.fv()),
{
    match f {
        FloatRepr::NonFinite => JsonValue::Null,
        FloatRepr::Finite(t) => JsonValue::Float(t.clone()),
    }
}

/// Maps a byte array to a JSON array of the byte values.
pub fn bytes_to_value(bytes: &Vec<u8>) -> (r: JsonValue)
    ensures
        r.jv() == JsonV::Arr(Seq::new(bytes@.len(), |i: int| JsonV::Int(bytes@[i] as int))),
{
    let mut out: Vec<JsonValue> = Vec::new();
    let mut i: usize = 0;
    while i < bytes.len()
        invariant
            i <= bytes@.len(),
            jv_list(out@) == Seq::new(i as nat, |j: int| JsonV::Int(bytes@[j] as int)),
            out@.len() == i,
        decreases bytes@.len() - i,
    {
        let ghost prev = out@;
        out.push(JsonValue::UInt(bytes[i] as u64));
        proof {
            assert(out@.drop_last() =~= prev);
            assert(out@.last() == JsonValue::UInt(bytes@[i as int] as u64));
            assert(out@.len() == i + 1);
            assert(out@.last().jv() == JsonV::Int(bytes@[i as int] as int));
            assert(jv_list(out@) == jv_list(out@.drop_last()).push(out@.last().jv()));
            assert(jv_list(out@.drop_last()) == jv_list(prev));
            assert(jv_list(out@) == jv_list(prev).push(JsonV::Int(bytes@[i as int] as int)));
            assert(jv_list(out@) =~= Seq::new(
                (i + 1) as nat,
                |j: int| JsonV::Int(bytes@[j] as int),
            ));
        }
        i = i + 1;
    }
    JsonValue::Array(out)
}

/// Maps one typed field to its JSON value under the settings' rules;
/// fails exactly when a map anywhere under the field has an unsupported
/// key.
pub fn element_to_value(settings: &Settings, field: &TypedField) -> (r: Result<
    JsonValue,
    ConvError,
>)
    requires
        field_wf(field.fv()),
    ensures
        r is Ok <==> good_keys(field.fv()),
        r matches Ok(v) ==> v.jv() == map_field_spec(*settings, field.fv()),
    decreases *field,
{
    match field {
        TypedField::Null => Ok(JsonValue::Null),
        TypedField::Bool(b) => Ok(JsonValue::Bool(*b)),
        TypedField::Byte(n) => Ok(JsonValue::Int(*n as i64)),
        TypedField::Short(n) => Ok(JsonValue::Int(*n as i64)),
        TypedField::Int(n) => Ok(JsonValue::Int(*n as i64)),
        TypedField::Long(n) => Ok(JsonValue::Int(*n)),
        TypedField::UByte(n) => Ok(JsonValue::UInt(*n as u64)),
        TypedField::UShort(n) => Ok(JsonValue::UInt(*n as u64)),
        TypedField::UInt(n) => Ok(JsonValue::UInt(*n as u64)),
        TypedField::ULong(n) => Ok(ulong_to_value(*n, settings)),
        TypedField::Float(r) => Ok(float_to_value(r)),
        TypedField::Double(r) => Ok(float_to_value(r)),
        TypedField::Decimal(b, sc, pr) => Ok(JsonValue::Str(decimal_to_string(b, *sc, *pr))),
        TypedField::Bytes(bs) => Ok(bytes_to_value(bs)),
        TypedField::Str(t) => Ok(JsonValue::Str(t.clone())),
        TypedField::Date(d) => Ok(date_to_value(*d)),
        TypedField::TimestampMillis(t) => Ok(timestamp_to_value(settings, *t)),
        TypedField::TimestampMicros(t) => Ok(timestamp_to_value(settings, *t / 1000)),
        TypedField::Group(fields) => row_to_value(settings, fields),
        TypedField::ListInternal(elems) => list_to_value(settings, elems),
        TypedField::MapInternal(pairs) => map_to_value(settings, pairs),
    }
}

/// Inserts one mapped entry into an object under assembly: a key
/// already present keeps its place and takes the new value, a new key
/// goes at the end, so keys stay unique.
fn upsert_entry(out: &mut Vec<(String, JsonValue)>, name: String, v: JsonValue)
    ensures
        jv_entries(final(out)@) == obj_insert(jv_entries(old(out)@), name@, v.jv()),
{
    proof {
        lemma_jv_entries(out@);
    }
    let ghost t = jv_entries(out@);
    let ghost nm = name@;
    let ghost vv = v.jv();
    let mut k: usize = 0;
    while k < out.len()
        invariant
            k <= out@.len(),
            out@ == old(out)@,
            t == jv_entries(out@),
            t.len() == out@.len(),
            nm == name@,
            vv == v.jv(),
            forall|j: int| 0 <= j < out@.len() ==> #[trigger] t[j] == (out@[j].0@, out@[j].1.jv()),
            forall|j: int| 0 <= j < k ==> (#[trigger] t[j]).0 != nm,
        decreases out@.len() - k,
    {
        if out[k].0 == name {
            proof {
                lemma_obj_key_skip(t, nm, k as int);
                assert(t.skip(k as int)[0] == t[k as int]);
                assert(t[k as int].0 == nm);
                assert(obj_has_key(t, nm) && obj_key_index(t, nm) == k);
            }
            let ghost before = out@;
            out[k] = (name, v);
            proof {
                assert(out@ == before.update(k as int, (name, v)));
                lemma_jv_entries(out@);
                assert(jv_entries(out@) =~= t.update(k as int, (nm, vv)));
            }
            return ;
        }
        k = k + 1;
    }
    proof {
        lemma_obj_key_skip(t, nm, out@.len() as int);
        assert(t.skip(t.len() as int) =~= Seq::<(Seq<char>, JsonV)>::empty());
        assert(!obj_has_key(t, nm));
    }
    let ghost prev = out@;
    out.push((name, v));
    proof {
        assert(out@.drop_last() =~= prev);
        assert(jv_entries(out@) == jv_entries(prev).push((nm, vv)));
    }
}

/// Maps a record (or nested group) to a JSON object: each child is
/// mapped and inserted under its name (a repeated name keeps its first
/// place and takes the last surviving value), an entry is skipped when
/// nulls are omitted and its value mapped to null, and an object that
/// came out empty maps to null when empty bags are omitted.
pub fn row_to_value(settings: &Settings, row: &Vec<(String, TypedField)>) -> (r: Result<
    JsonValue,
    ConvError,
>)
    requires
        entries_wf(fv_entries(row@)),
    ensures
        r is Ok <==> entries_good(fv_entries(row@)),
        r matches Ok(v) ==> v.jv() == bag_value(
            *settings,
            mapped_entries(*settings, fv_entries(row@)),
        ),
    decreases *row,
{
    proof {
        lemma_fv_entries(row@);
    }
    let ghost t = fv_entries(row@);
    let mut out: Vec<(String, JsonValue)> = Vec::new();
    let mut i: usize = 0;
    while i < row.len()
        invariant
            i <= row@.len(),
            entries_wf(t),
            t == fv_entries(row@),
            t.len() == row@.len(),
            forall|j: int| 0 <= j < row@.len() ==> #[trigger] t[j] == (row@[j].0@, row@[j].1.fv()),
            forall|j: int| 0 <= j < i ==> good_keys(#[trigger] t[j].1),
            jv_entries(out@) == mapped_entries(*settings, t.take(i as int)),
        decreases row@.len() - i,
    {
        proof {
            assert(field_wf(t[i as int].1));
        }
        let child = &row[i].1;
        let v = match element_to_value(settings, child) {
            Ok(v) => v,
            Err(e) => {
                proof {
                    assert(!good_keys(t[i as int].1));
                }
                return Err(e);
            },
        };
        let ghost prev = jv_entries(out@);
        if !(settings.omit_nulls && v.is_null()) {
            let ghost vv = v.jv();
            let name = row[i].0.clone();
            upsert_entry(&mut out, name, v);
            proof {
                assert(jv_entries(out@) == obj_insert(prev, t[i as int].0, vv));
            }
        }
        proof {
            assert(t.take(i + 1).drop_last() =~= t.take(i as int));
            assert(t.take(i + 1).last() == t[i as int]);
            assert(jv_entries(out@) == mapped_entries(*settings, t.take(i + 1)));
        }
        i = i + 1;
    }
    proof {
        assert(t.take(row@.len() as int) =~= t);
        lemma_jv_entries(out@);
    }
    if settings.omit_empty_bags && out.len() == 0 {
        Ok(JsonValue::Null)
    } else {
        Ok(JsonValue::Object(out))
    }
}

/// Maps a list to a JSON array, keeping every element in place (null
/// elements included), and to null when the list is empty and empty
/// lists are omitted.
pub fn list_to_value(settings: &Settings, elems: &Vec<TypedField>) -> (r: Result<
    JsonValue,
    ConvError,
>)
    requires
        elems_wf(fv_list(elems@)),
    ensures
        r is Ok <==> elems_good(fv_list(elems@)),
        r matches Ok(v) ==> v.jv() == arr_value(*settings, mapped_list(*settings, fv_list(elems@))),
    decreases *elems,
{
    proof {
        lemma_fv_list(elems@);
    }
    let ghost t = fv_list(elems@);
    let mut out: Vec<JsonValue> = Vec::new();
    let mut i: usize = 0;
    while i < elems.len()
        invariant
            i <= elems@.len(),
            elems_wf(t),
            t == fv_list(elems@),
            t.len() == elems@.len(),
            forall|j: int| 0 <= j < elems@.len() ==> #[trigger] t[j] == elems@[j].fv(),
            forall|j: int| 0 <= j < i ==> good_keys(#[trigger] t[j]),
            jv_list(out@) == mapped_list(*settings, t.take(i as int)),
        decreases elems@.len() - i,
    {
        proof {
            assert(field_wf(t[i as int]));
        }
        let child = &elems[i];
        let v = match element_to_value(settings, child) {
            Ok(v) => v,
            Err(e) => {
                proof {
                    assert(!good_keys(t[i as int]));
                }
                return Err(e);
            },
        };
        let ghost prev = out@;
        out.push(v);
        proof {
            assert(out@.drop_last() =~= prev);
            assert(t.take(i + 1).drop_last() =~= t.take(i as int));
            assert(t.take(i + 1).last() == t[i as int]);
            assert(jv_list(out@) == mapped_list(*settings, t.take(i + 1)));
        }
        i = i + 1;
    }
    proof {
        assert(t.take(elems@.len() as int) =~= t);
        lemma_jv_list(out@);
    }
    if settings.omit_empty_lists && out.len() == 0 {
        Ok(JsonValue::Null)
    } else {
        Ok(JsonValue::Array(out))
    }
}

/// Maps a map to a JSON object: each key is rendered to text (the
/// literal `null`, `true`/`false`, decimal digits, or the string
/// itself) and each value mapped; any other key kind is an
/// unrecoverable error. Entries prune and repeated key texts replace
/// like group entries.
pub fn map_to_value(settings: &Settings, pairs: &Vec<(TypedField, TypedField)>) -> (r: Result<
    JsonValue,
    ConvError,
>)
    requires
        pairs_wf(fv_pairs(pairs@)),
    ensures
        r is Ok <==> pairs_good(fv_pairs(pairs@)),
        r matches Ok(v) ==> v.jv() == bag_value(
            *settings,
            mapped_map_entries(*settings, fv_pairs(pairs@)),
        ),
    decreases *pairs,
{
    proof {
        lemma_fv_pairs(pairs@);
    }
    let ghost t = fv_pairs(pairs@);
    let mut out: Vec<(String, JsonValue)> = Vec::new();
    let mut i: usize = 0;
    while i < pairs.len()
        invariant
            i <= pairs@.len(),
            pairs_wf(t),
            t == fv_pairs(pairs@),
            t.len() == pairs@.len(),
            forall|j: int|
                0 <= j < pairs@.len() ==> #[trigger] t[j] == (pairs@[j].0.fv(), pairs@[j].1.fv()),
            forall|j: int| 0 <= j < i ==> key_ok(#[trigger] t[j].0) && good_keys(t[j].1),
            jv_entries(out@) == mapped_map_entries(*settings, t.take(i as int)),
        decreases pairs@.len() - i,
    {
        let key_str: String = match &pairs[i].0 {
            TypedField::Null => String::from_str("null"),
            TypedField::Bool(b) => if *b {
                String::from_str("true")
            } else {
                String::from_str("false")
            },
            TypedField::Byte(n) => i64_to_string(*n as i64),
            TypedField::Short(n) => i64_to_string(*n as i64),
            TypedField::Int(n) => i64_to_string(*n as i64),
            TypedField::Long(n) => i64_to_string(*n),
            TypedField::UByte(n) => u64_to_string(*n as u64),
            TypedField::UShort(n) => u64_to_string(*n as u64),
            TypedField::UInt(n) => u64_to_string(*n as u64),
            TypedField::ULong(n) => if settings.convert_types {
                i64_to_string(ulong_as_long(*n))
            } else {
                u64_to_string(*n)
            },
            TypedField::Str(s) => s.clone(),
            _ => {
                proof {
                    assert(!key_ok(t[i as int].0));
                }
                return Err(ConvError::UnsupportedMapKey);
            },
        };
        proof {
            assert(key_str@ == key_string(*settings, t[i as int].0));
            assert(field_wf(t[i as int].1));
        }
        let value = match element_to_value(settings, &pairs[i].1) {
            Ok(v) => v,
            Err(e) => {
                proof {
                    assert(!good_keys(t[i as int].1));
                }
                return Err(e);
            },
        };
        let ghost prev = jv_entries(out@);
        if !(settings.omit_nulls && value.is_null()) {
            let ghost kk = key_str@;
            let ghost vv = value.jv();
            upsert_entry(&mut out, key_str, value);
            proof {
                assert(jv_entries(out@) == obj_insert(prev, kk, vv));
            }
        }
        proof {
            assert(t.take(i + 1).drop_last() =~= t.take(i as int));
            assert(t.take(i + 1).last() == t[i as int]);
            assert(jv_entries(out@) == mapped_map_entries(*settings, t.take(i + 1)));
        }
        i = i + 1;
    }
    proof {
        assert(t.take(pairs@.len() as int) =~= t);
        lemma_jv_entries(out@);
    }
    if settings.omit_empty_bags && out.len() == 0 {
        Ok(JsonValue::Null)
    } else {
        Ok(JsonValue::Object(out))
    }
}

} // verus!
