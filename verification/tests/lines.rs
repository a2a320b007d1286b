use pq2json::convert::element_to_value;
use pq2json::csv_out::{row_to_csv_line, value_to_csv};
use pq2json::json::{row_to_json_line, value_to_json_text};
use pq2json::project::projected_schema;
use pq2json::value::{JsonValue, TypedField};
use pq2json::{Settings, TimestampRendering};

fn base_settings() -> Settings {
    Settings {
        omit_nulls: false,
        omit_empty_bags: false,
        omit_empty_lists: false,
        timestamp_rendering: TimestampRendering::UnixMs,
        columns: None,
        csv: false,
        convert_types: false,
    }
}

#[test]
fn string_escaping_matches_the_json_format() {
    let v = JsonValue::Str(String::from("a\"b\\c\nd\te\u{8}f\u{c}g\rh\u{1}i"));
    let text = value_to_json_text(&v);
    assert_eq!(text, "\"a\\\"b\\\\c\\nd\\te\\bf\\fg\\rh\\u0001i\"");
    // serde_json reads it back as the same string, and writes it the same.
    let parsed: serde_json::Value = serde_json::from_str(&text).unwrap();
    assert_eq!(
        parsed,
        serde_json::Value::String(String::from("a\"b\\c\nd\te\u{8}f\u{c}g\rh\u{1}i"))
    );
    assert_eq!(serde_json::to_string(&parsed).unwrap(), text);
}

#[test]
fn non_ascii_text_passes_through_unescaped() {
    let v = JsonValue::Str(String::from("héllo wörld ✓"));
    assert_eq!(value_to_json_text(&v), "\"héllo wörld ✓\"");
}

#[test]
fn json_lines_are_valid_json() {
    let s = base_settings();
    let row = vec![
        (String::from("name"), TypedField::Str(String::from("x,y"))),
        (
            String::from("nested"),
            TypedField::Group(vec![
                (String::from("a"), TypedField::Int(1)),
                (
                    String::from("l"),
                    TypedField::ListInternal(vec![TypedField::Bool(false), TypedField::Null]),
                ),
            ]),
        ),
    ];
    let line = row_to_json_line(&s, &row).unwrap();
    assert_eq!(line, "{\"name\":\"x,y\",\"nested\":{\"a\":1,\"l\":[false,null]}}");
    let parsed: serde_json::Value = serde_json::from_str(&line).unwrap();
    assert_eq!(parsed["nested"]["a"], serde_json::Value::from(1));
}

#[test]
fn csv_cell_of_nested_group_equals_its_json_text() {
    let s = base_settings();
    let group = TypedField::Group(vec![
        (String::from("x"), TypedField::Int(1)),
        (String::from("y"), TypedField::Str(String::from("s"))),
    ]);
    let v = element_to_value(&s, &group).unwrap();
    let cell = value_to_csv(&v);
    let json = value_to_json_text(&v);
    assert_eq!(cell, json);
    assert_eq!(cell, "{\"x\":1,\"y\":\"s\"}");
    // The JSON-lines output embeds the same sub-object text.
    let row = vec![(String::from("g"), group)];
    let line = row_to_json_line(&s, &row).unwrap();
    assert_eq!(line, format!("{{\"g\":{}}}", cell));
}

#[test]
fn csv_rows_without_a_column_list_take_fields_in_order() {
    let s = base_settings();
    let row = vec![
        (String::from("a"), TypedField::Int(1)),
        (String::from("b"), TypedField::Str(String::from("x"))),
        (String::from("c"), TypedField::Null),
    ];
    let line = row_to_csv_line(&s, &row, &vec![]).unwrap();
    assert_eq!(line, "1,x,\r");
}

#[test]
fn csv_quotes_fields_that_need_it() {
    let s = base_settings();
    let row = vec![
        (String::from("a"), TypedField::Str(String::from("x,y"))),
        (String::from("b"), TypedField::Str(String::from("say \"hi\""))),
    ];
    let line = row_to_csv_line(&s, &row, &vec![]).unwrap();
    assert_eq!(line, "\"x,y\",\"say \"\"hi\"\"\"\r");
}

#[test]
fn csv_embeds_nested_values_as_quoted_json() {
    let s = base_settings();
    let row = vec![(
        String::from("g"),
        TypedField::Group(vec![(String::from("x"), TypedField::Int(1))]),
    )];
    let line = row_to_csv_line(&s, &row, &vec![]).unwrap();
    assert_eq!(line, "\"{\"\"x\"\":1}\"\r");
}

#[test]
fn projector_keeps_request_order_and_drops_repeats() {
    let file = vec![
        String::from("a"),
        String::from("b"),
        String::from("c"),
    ];
    let request = vec![
        String::from("c"),
        String::from("a"),
        String::from("c"),
        String::from("zz"),
        String::from("zz"),
    ];
    let (projected, missing) = projected_schema(&file, &request);
    assert_eq!(projected, vec![String::from("c"), String::from("a")]);
    assert_eq!(missing, vec![String::from("zz")]);
}

#[test]
fn projector_without_matches_reports_all_missing() {
    let file = vec![String::from("a")];
    let request = vec![String::from("p"), String::from("q")];
    let (projected, missing) = projected_schema(&file, &request);
    assert!(projected.is_empty());
    assert_eq!(missing, vec![String::from("p"), String::from("q")]);
}

#[test]
fn absent_requested_column_yields_empty_cell_and_no_abort() {
    let file = vec![String::from("a"), String::from("b")];
    let request = vec![String::from("a"), String::from("zz")];
    let (projected, missing) = projected_schema(&file, &request);
    assert_eq!(projected, vec![String::from("a")]);
    assert_eq!(missing, vec![String::from("zz")]);

    let mut s = base_settings();
    s.columns = Some(request);
    // The record source yields only the projected column.
    let row = vec![(String::from("a"), TypedField::Int(1))];
    let line = row_to_csv_line(&s, &row, &missing).unwrap();
    assert_eq!(line, "1,\r");
}

#[test]
fn selected_columns_reorder_the_cells() {
    let mut s = base_settings();
    s.columns = Some(vec![String::from("b"), String::from("a")]);
    let row = vec![
        (String::from("a"), TypedField::Int(1)),
        (String::from("b"), TypedField::Int(2)),
    ];
    let line = row_to_csv_line(&s, &row, &vec![]).unwrap();
    assert_eq!(line, "2,1\r");
}

#[test]
fn csv_and_json_cells_agree_per_column() {
    let s = base_settings();
    let fields = vec![
        (String::from("n"), TypedField::Long(-5)),
        (String::from("t"), TypedField::Bool(true)),
        (
            String::from("g"),
            TypedField::Group(vec![(String::from("k"), TypedField::Str(String::from("v")))]),
        ),
    ];
    let line = row_to_json_line(&s, &fields).unwrap();
    let parsed: serde_json::Value = serde_json::from_str(&line).unwrap();
    for (name, field) in &fields {
        let v = element_to_value(&s, field).unwrap();
        let cell = value_to_csv(&v);
        match &parsed[name.as_str()] {
            serde_json::Value::Number(n) => assert_eq!(cell, n.to_string()),
            serde_json::Value::Bool(b) => assert_eq!(cell, b.to_string()),
            other => {
                // Nested values embed as the very JSON text of the sub-object.
                assert_eq!(cell, serde_json::to_string(other).unwrap());
            }
        }
    }
}

#[test]
fn top_level_null_row_writes_empty_object() {
    let mut s = base_settings();
    s.omit_nulls = true;
    s.omit_empty_bags = true;
    let row = vec![(String::from("a"), TypedField::Null)];
    assert_eq!(row_to_json_line(&s, &row).unwrap(), "{}");
}
