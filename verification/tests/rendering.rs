use pq2json::csv_out::{truncate_trailing_zeros, value_to_csv};
use pq2json::decimal::decimal_to_string;
use pq2json::json::value_to_json_text;
use pq2json::numfmt::{i64_to_string, u64_to_string};
use pq2json::times::{date_to_value, timestamp_to_value};
use pq2json::value::{FloatRepr, JsonValue, TypedField};
use pq2json::{Settings, TimestampRendering};

fn settings_with(rendering: TimestampRendering) -> Settings {
    Settings {
        omit_nulls: false,
        omit_empty_bags: false,
        omit_empty_lists: false,
        timestamp_rendering: rendering,
        columns: None,
        csv: false,
        convert_types: false,
    }
}

fn text_of(v: &JsonValue) -> String {
    value_to_json_text(v)
}

#[test]
fn integer_text() {
    assert_eq!(u64_to_string(0), "0");
    assert_eq!(u64_to_string(18446744073709551615), "18446744073709551615");
    assert_eq!(i64_to_string(0), "0");
    assert_eq!(i64_to_string(-1), "-1");
    assert_eq!(i64_to_string(i64::MIN), "-9223372036854775808");
    assert_eq!(i64_to_string(i64::MAX), "9223372036854775807");
}

#[test]
fn decimal_example_negative_scaled() {
    // Unscaled -12345 as two's complement, scale 2.
    let bytes = vec![0xCF, 0xC7];
    assert_eq!(decimal_to_string(&bytes, 2, 10), "-123.45");
}

#[test]
fn decimal_zero_padding_before_point() {
    // Unscaled -5, scale 3.
    assert_eq!(decimal_to_string(&vec![0xFB], 3, 10), "-0.005");
    // Unscaled 5, scale 3.
    assert_eq!(decimal_to_string(&vec![0x05], 3, 10), "0.005");
    // Unscaled 0, scale 2.
    assert_eq!(decimal_to_string(&vec![0x00], 2, 10), "0.00");
}

#[test]
fn decimal_point_insertion_inside_and_at_end() {
    // Unscaled 12345, scale 1.
    assert_eq!(decimal_to_string(&vec![0x30, 0x39], 1, 10), "1234.5");
    // Scale 0 inserts the point after the last digit.
    assert_eq!(decimal_to_string(&vec![0x30, 0x39], 0, 10), "12345.");
}

#[test]
fn decimal_text_reparses_to_the_original_value() {
    // Round trip through num-bigint: strip sign and point, reparse.
    let bytes = vec![0xCF, 0xC7];
    let rendered = decimal_to_string(&bytes, 2, 10);
    let negative = rendered.starts_with('-');
    let digits: String = rendered.chars().filter(|c| c.is_ascii_digit()).collect();
    let scale = rendered.len() - rendered.find('.').unwrap() - 1;
    let mut unscaled: i64 = digits.parse().unwrap();
    if negative {
        unscaled = -unscaled;
    }
    assert_eq!(unscaled, -12345);
    assert_eq!(scale, 2);
    let expected = num_bigint::BigInt::from_signed_bytes_be(&bytes);
    assert_eq!(expected.to_string(), "-12345");
}

#[test]
fn ticks_of_zero_matches_the_epoch_offset() {
    let s = settings_with(TimestampRendering::Ticks);
    let v = timestamp_to_value(&s, 0);
    assert_eq!(text_of(&v), "621355968000000000");
}

#[test]
fn ticks_scale_and_overflow() {
    let s = settings_with(TimestampRendering::Ticks);
    assert_eq!(text_of(&timestamp_to_value(&s, 1500)), "621355968015000000");
    // The largest millisecond count whose ticks fit in 64 bits.
    assert_eq!(
        text_of(&timestamp_to_value(&s, 860201606885477)),
        "9223372036854770000"
    );
    // One more overflows and degrades to null.
    assert_eq!(text_of(&timestamp_to_value(&s, 860201606885478)), "null");
}

#[test]
fn iso_of_zero_is_the_epoch_instant() {
    let s = settings_with(TimestampRendering::IsoStr);
    let v = timestamp_to_value(&s, 0);
    assert_eq!(text_of(&v), "\"1970-01-01T00:00:00.000000Z\"");
}

#[test]
fn iso_renders_millisecond_fractions() {
    let s = settings_with(TimestampRendering::IsoStr);
    let v = timestamp_to_value(&s, 1234);
    assert_eq!(text_of(&v), "\"1970-01-01T00:00:01.234000Z\"");
}

#[test]
fn unix_millis_is_the_count_itself() {
    let s = settings_with(TimestampRendering::UnixMs);
    assert_eq!(text_of(&timestamp_to_value(&s, 1500)), "1500");
}

#[test]
fn negative_reading_timestamps_clamp_to_zero() {
    let s = settings_with(TimestampRendering::UnixMs);
    // A count above the signed 64-bit range reads as negative and clamps.
    assert_eq!(text_of(&timestamp_to_value(&s, u64::MAX)), "0");
}

#[test]
fn micros_divide_down_to_millis() {
    let s = settings_with(TimestampRendering::UnixMs);
    let row = vec![(String::from("t"), TypedField::TimestampMicros(1500999))];
    let line = pq2json::json::row_to_json_line(&s, &row).unwrap();
    assert_eq!(line, "{\"t\":1500}");
}

#[test]
fn dates_render_as_calendar_days() {
    assert_eq!(text_of(&date_to_value(0)), "\"1970-01-01\"");
    assert_eq!(text_of(&date_to_value(1)), "\"1970-01-02\"");
    assert_eq!(text_of(&date_to_value(59)), "\"1970-03-01\"");
    assert_eq!(text_of(&date_to_value(365)), "\"1971-01-01\"");
}

#[test]
fn date_overflow_degrades_to_null() {
    assert_eq!(text_of(&date_to_value(u32::MAX)), "null");
}

#[test]
fn trailing_zero_truncation() {
    assert_eq!(truncate_trailing_zeros("1.5"), "1.5");
    assert_eq!(truncate_trailing_zeros("1.50"), "1.5");
    assert_eq!(truncate_trailing_zeros("2.0"), "2");
    assert_eq!(truncate_trailing_zeros("100"), "1");
    assert_eq!(truncate_trailing_zeros(""), "");
}

#[test]
fn float_csv_cells_drop_trailing_zeros() {
    let mut buf = ryu::Buffer::new();
    let v = JsonValue::Float(buf.format(1.50f64).to_string());
    assert_eq!(value_to_csv(&v), "1.5");
    let v = JsonValue::Float(buf.format(2.0f64).to_string());
    assert_eq!(value_to_csv(&v), "2");
}

#[test]
fn exponent_form_floats_keep_their_zeros_in_csv() {
    let mut buf = ryu::Buffer::new();
    let text = buf.format(1e300f64).to_string();
    assert_eq!(text, "1e300");
    let v = JsonValue::Float(text);
    let cell = value_to_csv(&v);
    assert_eq!(cell, "1e300");
    // The cell still reads back as the very value.
    assert_eq!(cell.parse::<f64>().unwrap(), 1e300f64);
    let v = JsonValue::Float(buf.format(1e-10f64).to_string());
    assert_eq!(value_to_csv(&v), "1e-10");
}

#[test]
fn plain_and_exponent_float_cells_round_trip() {
    let mut buf = ryu::Buffer::new();
    for &f in &[1.5f64, 2.0, 0.25, 1e300, 1e-10, 123456789.0, -2.50] {
        let v = JsonValue::Float(buf.format(f).to_string());
        let cell = value_to_csv(&v);
        assert_eq!(cell.parse::<f64>().unwrap(), f);
    }
}

#[test]
fn float_widening_matches_original_double() {
    // A 32-bit float is widened before rendering, as its own text shows.
    let mut buf = ryu::Buffer::new();
    let widened = 1.5f32 as f64;
    let v = JsonValue::Float(buf.format(widened).to_string());
    assert_eq!(value_to_csv(&v), "1.5");
}

#[test]
fn nonfinite_floats_are_null_in_both_outputs() {
    let s = settings_with(TimestampRendering::UnixMs);
    let row = vec![(
        String::from("f"),
        TypedField::Double(FloatRepr::NonFinite),
    )];
    assert_eq!(pq2json::json::row_to_json_line(&s, &row).unwrap(), "{\"f\":null}");
    let v = pq2json::convert::element_to_value(&s, &TypedField::Double(FloatRepr::NonFinite))
        .unwrap();
    assert_eq!(value_to_csv(&v), "");
}
