use pq2json::convert::{element_to_value, row_to_value, ConvError};
use pq2json::json::row_to_json_line;
use pq2json::value::{FloatRepr, TypedField};
use pq2json::{Settings, TimestampRendering};

fn plain_settings() -> Settings {
    Settings {
        omit_nulls: false,
        omit_empty_bags: false,
        omit_empty_lists: false,
        timestamp_rendering: TimestampRendering::UnixMs,
        columns: None,
        csv: false,
        convert_types: false,
    }
}

fn json_of(settings: &Settings, row: Vec<(String, TypedField)>) -> String {
    row_to_json_line(settings, &row).unwrap()
}

#[test]
fn scalars_map_to_json_numbers_and_strings() {
    let s = plain_settings();
    let row = vec![
        (String::from("b"), TypedField::Bool(true)),
        (String::from("i"), TypedField::Int(-42)),
        (String::from("l"), TypedField::Long(1234567890123)),
        (String::from("u"), TypedField::UByte(255)),
        (String::from("t"), TypedField::Str(String::from("hi"))),
        (String::from("n"), TypedField::Null),
    ];
    assert_eq!(
        json_of(&s, row),
        "{\"b\":true,\"i\":-42,\"l\":1234567890123,\"u\":255,\"t\":\"hi\",\"n\":null}"
    );
}

#[test]
fn unsigned_64_is_kept_unless_conversion_asked() {
    let s = plain_settings();
    let row = vec![(String::from("u"), TypedField::ULong(u64::MAX))];
    assert_eq!(json_of(&s, row), "{\"u\":18446744073709551615}");

    let mut conv = plain_settings();
    conv.convert_types = true;
    let row = vec![(String::from("u"), TypedField::ULong(u64::MAX))];
    assert_eq!(json_of(&conv, row), "{\"u\":-1}");
    let row = vec![(String::from("u"), TypedField::ULong(7))];
    assert_eq!(json_of(&conv, row), "{\"u\":7}");
}

#[test]
fn byte_array_becomes_array_of_byte_values() {
    let s = plain_settings();
    let row = vec![(String::from("raw"), TypedField::Bytes(vec![0, 9, 255]))];
    assert_eq!(json_of(&s, row), "{\"raw\":[0,9,255]}");
}

#[test]
fn floats_render_as_numbers_and_nonfinite_as_null() {
    let s = plain_settings();
    let mut buf = ryu::Buffer::new();
    let row = vec![
        (
            String::from("f"),
            TypedField::Double(FloatRepr::Finite(buf.format(2.0f64).to_string())),
        ),
        (String::from("g"), TypedField::Float(FloatRepr::NonFinite)),
    ];
    assert_eq!(json_of(&s, row), "{\"f\":2.0,\"g\":null}");
}

#[test]
fn omit_nulls_drops_entries_but_keeps_order() {
    let row = || {
        vec![
            (String::from("a"), TypedField::Null),
            (String::from("b"), TypedField::Int(1)),
            (String::from("c"), TypedField::Null),
            (String::from("d"), TypedField::Str(String::from("x"))),
        ]
    };
    let s = plain_settings();
    assert_eq!(
        json_of(&s, row()),
        "{\"a\":null,\"b\":1,\"c\":null,\"d\":\"x\"}"
    );
    let mut o = plain_settings();
    o.omit_nulls = true;
    assert_eq!(json_of(&o, row()), "{\"b\":1,\"d\":\"x\"}");
}

#[test]
fn all_null_group_renders_empty_object_at_top_level() {
    let mut s = plain_settings();
    s.omit_nulls = true;
    s.omit_empty_bags = true;
    let row = vec![(
        String::from("g"),
        TypedField::Group(vec![(String::from("x"), TypedField::Null)]),
    )];
    assert_eq!(json_of(&s, row), "{}");
}

#[test]
fn empty_bag_nested_renders_literal_null() {
    let mut s = plain_settings();
    s.omit_empty_bags = true;
    let row = vec![(String::from("g"), TypedField::Group(vec![]))];
    assert_eq!(json_of(&s, row), "{\"g\":null}");
}

#[test]
fn empty_list_omission() {
    let mut s = plain_settings();
    s.omit_empty_lists = true;
    let row = vec![(String::from("l"), TypedField::ListInternal(vec![]))];
    assert_eq!(json_of(&s, row), "{\"l\":null}");
    let s2 = plain_settings();
    let row = vec![(String::from("l"), TypedField::ListInternal(vec![]))];
    assert_eq!(json_of(&s2, row), "{\"l\":[]}");
}

#[test]
fn list_keeps_null_elements_in_place() {
    let mut s = plain_settings();
    s.omit_nulls = true;
    let row = vec![(
        String::from("l"),
        TypedField::ListInternal(vec![
            TypedField::Null,
            TypedField::Int(1),
            TypedField::Null,
        ]),
    )];
    assert_eq!(json_of(&s, row), "{\"l\":[null,1,null]}");
}

#[test]
fn map_keys_render_as_text() {
    let s = plain_settings();
    let row = vec![(
        String::from("m"),
        TypedField::MapInternal(vec![
            (TypedField::Null, TypedField::Int(1)),
            (TypedField::Bool(true), TypedField::Int(2)),
            (TypedField::Int(-7), TypedField::Int(3)),
            (TypedField::Str(String::from("k")), TypedField::Int(4)),
        ]),
    )];
    assert_eq!(
        json_of(&s, row),
        "{\"m\":{\"null\":1,\"true\":2,\"-7\":3,\"k\":4}}"
    );
}

#[test]
fn map_key_unsigned_64_follows_conversion_setting() {
    let mut s = plain_settings();
    s.convert_types = true;
    let row = vec![(
        String::from("m"),
        TypedField::MapInternal(vec![(TypedField::ULong(u64::MAX), TypedField::Int(1))]),
    )];
    assert_eq!(json_of(&s, row), "{\"m\":{\"-1\":1}}");
}

#[test]
fn unsupported_map_key_is_a_hard_error() {
    let s = plain_settings();
    let row = vec![(
        String::from("m"),
        TypedField::MapInternal(vec![(
            TypedField::Double(FloatRepr::NonFinite),
            TypedField::Int(1),
        )]),
    )];
    let r = row_to_json_line(&s, &row);
    assert!(matches!(r, Err(ConvError::UnsupportedMapKey)));
    assert_eq!(ConvError::UnsupportedMapKey.message(), "Unsupported map key");
}

#[test]
fn map_entries_prune_like_group_entries() {
    let mut s = plain_settings();
    s.omit_nulls = true;
    s.omit_empty_bags = true;
    let row = vec![(
        String::from("m"),
        TypedField::MapInternal(vec![(TypedField::Str(String::from("k")), TypedField::Null)]),
    )];
    assert_eq!(json_of(&s, row), "{}");
}

#[test]
fn nested_groups_cascade_pruning() {
    let mut s = plain_settings();
    s.omit_nulls = true;
    s.omit_empty_bags = true;
    let inner = TypedField::Group(vec![(String::from("x"), TypedField::Null)]);
    let mid = TypedField::Group(vec![(String::from("in"), inner)]);
    let row = vec![
        (String::from("g"), mid),
        (String::from("keep"), TypedField::Int(5)),
    ];
    assert_eq!(json_of(&s, row), "{\"keep\":5}");
}

#[test]
fn row_to_value_maps_without_error_on_plain_rows() {
    let s = plain_settings();
    let row = vec![(String::from("a"), TypedField::Int(1))];
    let v = row_to_value(&s, &row).unwrap();
    assert_eq!(pq2json::json::value_to_json_text(&v), "{\"a\":1}");
}

#[test]
fn repeated_field_name_keeps_first_place_last_value() {
    let s = plain_settings();
    let row = vec![
        (String::from("a"), TypedField::Int(1)),
        (String::from("b"), TypedField::Int(9)),
        (String::from("a"), TypedField::Int(2)),
    ];
    assert_eq!(json_of(&s, row), "{\"a\":2,\"b\":9}");
}

#[test]
fn repeated_field_name_null_replaces_when_nulls_kept() {
    let s = plain_settings();
    let row = vec![
        (String::from("a"), TypedField::Int(1)),
        (String::from("a"), TypedField::Null),
    ];
    assert_eq!(json_of(&s, row), "{\"a\":null}");
}

#[test]
fn repeated_field_name_skipped_null_leaves_earlier_entry() {
    let mut s = plain_settings();
    s.omit_nulls = true;
    let row = vec![
        (String::from("a"), TypedField::Int(1)),
        (String::from("a"), TypedField::Null),
    ];
    assert_eq!(json_of(&s, row), "{\"a\":1}");
}

#[test]
fn map_keys_rendering_to_one_text_collapse() {
    let s = plain_settings();
    let row = vec![(
        String::from("m"),
        TypedField::MapInternal(vec![
            (TypedField::Int(1), TypedField::Str(String::from("int"))),
            (
                TypedField::Str(String::from("1")),
                TypedField::Str(String::from("str")),
            ),
        ]),
    )];
    assert_eq!(json_of(&s, row), "{\"m\":{\"1\":\"str\"}}");
}

#[test]
fn empty_record_writes_empty_object_either_way() {
    let s = plain_settings();
    assert_eq!(json_of(&s, vec![]), "{}");
    let mut o = plain_settings();
    o.omit_empty_bags = true;
    assert_eq!(json_of(&o, vec![]), "{}");
}

#[test]
fn unsigned_boundary_converts_to_signed_minimum() {
    let mut s = plain_settings();
    s.convert_types = true;
    let row = vec![(
        String::from("u"),
        TypedField::ULong(0x8000000000000000u64),
    )];
    assert_eq!(json_of(&s, row), "{\"u\":-9223372036854775808}");
}

#[test]
fn deep_nesting_maps_through_every_container() {
    let s = plain_settings();
    let map = TypedField::MapInternal(vec![(
        TypedField::Str(String::from("k")),
        TypedField::ListInternal(vec![TypedField::Group(vec![(
            String::from("x"),
            TypedField::Bytes(vec![1, 2]),
        )])]),
    )]);
    let row = vec![(String::from("m"), map)];
    assert_eq!(json_of(&s, row), "{\"m\":{\"k\":[{\"x\":[1,2]}]}}");
}

#[test]
fn element_to_value_maps_a_lone_scalar() {
    let s = plain_settings();
    let v = element_to_value(&s, &TypedField::Int(12)).unwrap();
    assert_eq!(pq2json::json::value_to_json_text(&v), "12");
}
