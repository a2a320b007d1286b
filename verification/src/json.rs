//! Compact JSON text for a value tree: one minified value, objects in
//! insertion order, strings escaped the way the output format fixes
//! them (quote, backslash, and control characters only).
use vstd::prelude::*;

use crate::convert::{
    bag_value, entries_good, entries_wf, map_field_spec, mapped_entries, row_to_value, ConvError,
};
use crate::numfmt::{dec_str_of, i64_to_string, push_char, u64_to_string};
use crate::settings::Settings;
use crate::value::{
    fv_entries, jv_entries, jv_list, lemma_jv_entries, lemma_jv_list, FieldV, JsonV, JsonValue,
    TypedField,
};

verus! {

/// The character for one hexadecimal digit value, lower case.
pub open spec fn hex_digit(d: int) -> char {
    if d == 0 {
        '0'
    } else if d == 1 {
        '1'
    } else if d == 2 {
        '2'
    } else if d == 3 {
        '3'
    } else if d == 4 {
        '4'
    } else if d == 5 {
        '5'
    } else if d == 6 {
        '6'
    } else if d == 7 {
        '7'
    } else if d == 8 {
        '8'
    } else if d == 9 {
        '9'
    } else if d == 10 {
        'a'
    } else if d == 11 {
        'b'
    } else if d == 12 {
        'c'
    } else if d == 13 {
        'd'
    } else if d == 14 {
        'e'
    } else {
        'f'
    }
}

/// How one character appears inside a JSON string: quote and backslash
/// get a backslash, the named control characters their short escapes,
/// any other control character a `\u00..` escape, and everything else
/// stands as itself.
pub open spec fn escape_char(c: char) -> Seq<char> {
    if c == '"' {
        seq!['\\', '"']
    } else if c == '\\' {
        seq!['\\', '\\']
    } else if c == '\u{8}' {
        seq!['\\', 'b']
    } else if c == '\t' {
        seq!['\\', 't']
    } else if c == '\n' {
        seq!['\\', 'n']
    } else if c == '\u{c}' {
        seq!['\\', 'f']
    } else if c == '\r' {
        seq!['\\', 'r']
    } else if (c as u32) < 32 {
        seq![
            '\\',
            'u',
            '0',
            '0',
            hex_digit((c as u32) as int / 16),
            hex_digit((c as u32) as int % 16),
        ]
    } else {
        seq![c]
    }
}

/// A string's characters, each escaped.
pub open spec fn escape_str(s: Seq<char>) -> Seq<char>
    decreases s.len(),
{
    if s.len() == 0 {
        Seq::empty()
    } else {
        escape_str(s.drop_last()) + escape_char(s.last())
    }
}

/// The compact JSON text of a value.
pub open spec fn json_text(v: JsonV) -> Seq<char>
    decreases v,
{
    match v {
        JsonV::Null => "null"@,
        JsonV::Bool(b) => if b {
            "true"@
        } else {
            "false"@
        },
        JsonV::Int(n) => dec_str_of(n),
        JsonV::Float(t) => t,
        JsonV::Str(s) => seq!['"'] + escape_str(s) + seq!['"'],
        JsonV::Arr(es) => seq!['['] + json_items(es) + seq![']'],
        JsonV::Obj(es) => seq!['{'] + json_obj_items(es) + seq!['}'],
    }
}

/// Array elements' texts, comma-separated.
pub open spec fn json_items(s: Seq<JsonV>) -> Seq<char>
    decreases s,
{
    if s.len() == 0 {
        Seq::empty()
    } else if s.len() == 1 {
        json_text(s[0])
    } else {
        json_items(s.drop_last()) + seq![','] + json_text(s.last())
    }
}

/// One object entry's text: the quoted escaped key, a colon, the
/// value's text.
pub open spec fn json_obj_item(e: (Seq<char>, JsonV)) -> Seq<char>
    decreases e,
{
    seq!['"'] + escape_str(e.0) + seq!['"', ':'] + json_text(e.1)
}

/// Object entries' texts, comma-separated.
pub open spec fn json_obj_items(s: Seq<(Seq<char>, JsonV)>) -> Seq<char>
    decreases s,
{
    if s.len() == 0 {
        Seq::empty()
    } else if s.len() == 1 {
        json_obj_item(s[0])
    } else {
        json_obj_items(s.drop_last()) + seq![','] + json_obj_item(s.last())
    }
}

/// The character for one hexadecimal digit value below sixteen.
fn hex_char(d: u32) -> (c: char)
    requires
        d < 16,
    ensures
        c == hex_digit(d as int),
{
    if d == 0 {
        '0'
    } else if d == 1 {
        '1'
    } else if d == 2 {
        '2'
    } else if d == 3 {
        '3'
    } else if d == 4 {
        '4'
    } else if d == 5 {
        '5'
    } else if d == 6 {
        '6'
    } else if d == 7 {
        '7'
    } else if d == 8 {
        '8'
    } else if d == 9 {
        '9'
    } else if d == 10 {
        'a'
    } else if d == 11 {
        'b'
    } else if d == 12 {
        'c'
    } else if d == 13 {
        'd'
    } else if d == 14 {
        'e'
    } else {
        'f'
    }
}

/// Appends one character's escaped form.
fn escape_char_into(out: &mut String, c: char)
    ensures
        final(out)@ == old(out)@ + escape_char(c),
{
    if c == '"' {
        push_char(out, '\\');
        push_char(out, '"');
    } else if c == '\\' {
        push_char(out, '\\');
        push_char(out, '\\');
    } else if c == '\u{8}' {
        push_char(out, '\\');
        push_char(out, 'b');
    } else if c == '\t' {
        push_char(out, '\\');
        push_char(out, 't');
    } else if c == '\n' {
        push_char(out, '\\');
        push_char(out, 'n');
    } else if c == '\u{c}' {
        push_char(out, '\\');
        push_char(out, 'f');
    } else if c == '\r' {
        push_char(out, '\\');
        push_char(out, 'r');
    } else {
        let u = c as u32;
        if u < 32 {
            push_char(out, '\\');
            push_char(out, 'u');
            push_char(out, '0');
            push_char(out, '0');
            push_char(out, hex_char(u / 16));
            push_char(out, hex_char(u % 16));
        } else {
            push_char(out, c);
        }
    }
    proof {
        assert(final(out)@ =~= old(out)@ + escape_char(c));
    }
}

/// Appends a string's escaped characters.
fn escape_into(out: &mut String, s: &str)
    ensures
        final(out)@ == old(out)@ + escape_str(s@),
{
    let n = s.unicode_len();
    let mut i: usize = 0;
    while i < n
        invariant
            i <= n,
            n == s@.len(),
            out@ == old(out)@ + escape_str(s@.take(i as int)),
        decreases n - i,
    {
        let c = s.get_char(i);
        escape_char_into(out, c);
        proof {
            assert(s@.take(i + 1).drop_last() =~= s@.take(i as int));
            assert(s@.take(i + 1).last() == s@[i as int]);
            assert(escape_str(s@.take(i + 1)) == escape_str(s@.take(i as int)) + escape_char(
                s@[i as int],
            ));
            assert(out@ =~= old(out)@ + escape_str(s@.take(i + 1)));
        }
        i = i + 1;
    }
    proof {
        assert(s@.take(n as int) =~= s@);
    }
}

/// The compact JSON text of a value.
#[verifier::loop_isolation(false)]
pub fn value_to_json_text(v: &JsonValue) -> (r: String)
    ensures
        r@ == json_text(v.jv()),
    decreases *v,
{
    match v {
        JsonValue::Null => String::from_str("null"),
        JsonValue::Bool(b) => if *b {
            String::from_str("true")
        } else {
            String::from_str("false")
        },
        JsonValue::Int(n) => i64_to_string(*n),
        JsonValue::UInt(n) => u64_to_string(*n),
        JsonValue::Float(t) => t.clone(),
        JsonValue::Str(s) => {
            let mut out = String::new();
            push_char(&mut out, '"');
            escape_into(&mut out, s.as_str());
            push_char(&mut out, '"');
            proof {
                assert(out@ =~= json_text(v.jv()));
            }
            out
        },
        JsonValue::Array(elems) => {
            proof {
                lemma_jv_list(elems@);
            }
            let ghost t = jv_list(elems@);
            let mut out = String::new();
            push_char(&mut out, '[');
            let mut i: usize = 0;
            while i < elems.len()
                invariant
                    i <= elems@.len(),
                    t == jv_list(elems@),
                    t.len() == elems@.len(),
                    forall|j: int| 0 <= j < elems@.len() ==> #[trigger] t[j] == elems@[j].jv(),
                    out@ == seq!['['] + json_items(t.take(i as int)),
                decreases elems@.len() - i,
            {
                if i > 0 {
                    push_char(&mut out, ',');
                }
                let piece = value_to_json_text(&elems[i]);
                out.append(piece.as_str());
                proof {
                    assert(t.take(i + 1).drop_last() =~= t.take(i as int));
                    assert(t.take(i + 1).last() == t[i as int]);
                    if i == 0 {
                        assert(t.take(1)[0] == t[0]);
                        assert(json_items(t.take(1)) == json_text(t[0]));
                    }
                    assert(out@ =~= seq!['['] + json_items(t.take(i + 1)));
                }
                i = i + 1;
            }
            push_char(&mut out, ']');
            proof {
                assert(t.take(elems@.len() as int) =~= t);
                assert(out@ =~= json_text(v.jv()));
            }
            out
        },
        JsonValue::Object(entries) => {
            proof {
                lemma_jv_entries(entries@);
            }
            let ghost t = jv_entries(entries@);
            let mut out = String::new();
            push_char(&mut out, '{');
            let mut i: usize = 0;
            while i < entries.len()
                invariant
                    i <= entries@.len(),
                    t == jv_entries(entries@),
                    t.len() == entries@.len(),
                    forall|j: int|
                        0 <= j < entries@.len() ==> #[trigger] t[j] == (
                            entries@[j].0@,
                            entries@[j].1.jv(),
                        ),
                    out@ == seq!['{'] + json_obj_items(t.take(i as int)),
                decreases entries@.len() - i,
            {
                if i > 0 {
                    push_char(&mut out, ',');
                }
                push_char(&mut out, '"');
                escape_into(&mut out, entries[i].0.as_str());
                push_char(&mut out, '"');
                push_char(&mut out, ':');
                let piece = value_to_json_text(&entries[i].1);
                out.append(piece.as_str());
                proof {
                    assert(t.take(i + 1).drop_last() =~= t.take(i as int));
                    assert(t.take(i + 1).last() == t[i as int]);
                    assert(entries@[i as int].0@ == t[i as int].0);
                    assert(piece@ == json_text(t[i as int].1));
                    assert(json_obj_item(t[i as int]) =~= seq!['"'] + escape_str(t[i as int].0)
                        + seq!['"', ':'] + json_text(t[i as int].1));
                    if i == 0 {
                        assert(t.take(1)[0] == t[0]);
                        assert(json_obj_items(t.take(1)) == json_obj_item(t[0]));
                    }
                    assert(out@ =~= seq!['{'] + json_obj_items(t.take(i + 1)));
                }
                i = i + 1;
            }
            push_char(&mut out, '}');
            proof {
                assert(t.take(entries@.len() as int) =~= t);
                assert(out@ =~= json_text(v.jv()));
            }
            out
        },
    }
}

/// One record's JSON line: the mapped row's compact text, where a row
/// whose whole mapping pruned to null writes as the empty object (the
/// top level is never omitted).
pub open spec fn json_line_spec(s: Settings, row: Seq<(Seq<char>, FieldV)>) -> Seq<char> {
    let v = bag_value(s, mapped_entries(s, row));
    if v is Null {
        "{}"@
    } else {
        json_text(v)
    }
}

/// With null omission on, a group whose every child maps to null keeps
/// no entry.
proof fn lemma_all_null_entries(s: Settings, es: Seq<(Seq<char>, FieldV)>)
    requires
        s.omit_nulls,
        forall|i: int| 0 <= i < es.len() ==> map_field_spec(s, #[trigger] es[i].1) is Null,
    ensures
        mapped_entries(s, es) == Seq::<(Seq<char>, JsonV)>::empty(),
    decreases es.len(),
{
    if es.len() > 0 {
        assert(forall|i: int|
            0 <= i < es.len() - 1 ==> #[trigger] es.drop_last()[i] == es[i]);
        lemma_all_null_entries(s, es.drop_last());
        assert(map_field_spec(s, es.last().1) is Null);
    }
}

/// A group whose every child maps to null: with null omission and empty
/// bag omission set it maps to null itself, so nested under a parent it
/// renders as the literal JSON `null`; as the whole record it still
/// writes as the empty object, the top level never being omitted.
pub proof fn lemma_all_null_group(s: Settings, es: Seq<(Seq<char>, FieldV)>)
    requires
        s.omit_nulls,
        s.omit_empty_bags,
        forall|i: int| 0 <= i < es.len() ==> map_field_spec(s, #[trigger] es[i].1) is Null,
    ensures
        map_field_spec(s, FieldV::Group(es)) is Null,
        json_text(map_field_spec(s, FieldV::Group(es))) == "null"@,
        json_line_spec(s, es) == "{}"@,
{
    lemma_all_null_entries(s, es);
}

/// Serializes one record as a compact JSON line (without the line
/// terminator); fails exactly when a map under the record has an
/// unsupported key.
pub fn row_to_json_line(settings: &Settings, row: &Vec<(String, TypedField)>) -> (r: Result<
    String,
    ConvError,
>)
    requires
        entries_wf(fv_entries(row@)),
    ensures
        r is Ok <==> entries_good(fv_entries(row@)),
        r matches Ok(line) ==> line@ == json_line_spec(*settings, fv_entries(row@)),
{
    let v = row_to_value(settings, row)?;
    if v.is_null() {
        Ok(String::from_str("{}"))
    } else {
        Ok(value_to_json_text(&v))
    }
}

} // verus!
