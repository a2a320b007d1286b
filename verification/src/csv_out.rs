//! CSV output: one cell per top-level column, nested values embedded as
//! compact JSON text, and the row encoded with RFC4180-style quoting
//! and a carriage-return terminator.
use vstd::prelude::*;

use crate::convert::{element_to_value, field_wf, good_keys, map_field_spec, ConvError};
use crate::json::{json_text, value_to_json_text};
use crate::numfmt::{dec_str_of, i64_to_string, u64_to_string};
use crate::settings::Settings;
use crate::value::{fv_entries, lemma_fv_entries, FieldV, JsonV, JsonValue, TypedField};

verus! {

/// The sequence with every trailing `c` removed.
pub open spec fn trim_trailing(s: Seq<char>, c: char) -> Seq<char>
    decreases s.len(),
{
    if s.len() > 0 && s.last() == c {
        trim_trailing(s.drop_last(), c)
    } else {
        s
    }
}

/// Float text with trailing zeros and then a trailing point removed.
pub open spec fn trim_float(s: Seq<char>) -> Seq<char> {
    trim_trailing(trim_trailing(s, '0'), '.')
}

/// Strips trailing zeros, then a trailing decimal point, from a
/// number's text, so `1.50` reads `1.5` and `2.0` reads `2`.
pub fn truncate_trailing_zeros(s: &str) -> (r: &str)
    ensures
        r@ == trim_float(s@),
{
    let n = s.unicode_len();
    proof {
        assert(s@.take(n as int) =~= s@);
    }
    let mut end = n;
    while end > 0 && s.get_char(end - 1) == '0'
        invariant
            end <= n,
            n == s@.len(),
            trim_trailing(s@, '0') == trim_trailing(s@.take(end as int), '0'),
        decreases end,
    {
        proof {
            assert(s@.take(end as int).drop_last() =~= s@.take(end - 1));
            assert(s@.take(end as int).last() == s@[end - 1]);
        }
        end = end - 1;
    }
    proof {
        assert(trim_trailing(s@.take(end as int), '0') == s@.take(end as int));
    }
    let ghost first = s@.take(end as int);
    let mut end2 = end;
    while end2 > 0 && s.get_char(end2 - 1) == '.'
        invariant
            end2 <= end <= n,
            n == s@.len(),
            first == s@.take(end as int),
            trim_trailing(first, '.') == trim_trailing(s@.take(end2 as int), '.'),
        decreases end2,
    {
        proof {
            assert(s@.take(end2 as int).drop_last() =~= s@.take(end2 - 1));
            assert(s@.take(end2 as int).last() == s@[end2 - 1]);
        }
        end2 = end2 - 1;
    }
    proof {
        assert(trim_trailing(s@.take(end2 as int), '.') == s@.take(end2 as int));
    }
    let r = s.substring_char(0, end2);
    proof {
        assert(r@ =~= s@.take(end2 as int));
    }
    r
}

/// The text has an exponent marker, so its trailing zeros are
/// significant.
pub open spec fn has_exponent(t: Seq<char>) -> bool {
    exists|i: int| 0 <= i < t.len() && (t[i] == 'e' || t[i] == 'E')
}

/// The cell text of one float: trailing zeros and then a trailing point
/// removed from a plain decimal text; an exponent-form text stands
/// unchanged, since trimming it would change the number it reads as.
pub open spec fn float_cell(t: Seq<char>) -> Seq<char> {
    if has_exponent(t) {
        t
    } else {
        trim_float(t)
    }
}

/// The cell text of one mapped value: nothing for null, `true`/`false`,
/// decimal digits, the float's cell text, the raw string, or the
/// value's compact JSON text for an array or object.
pub open spec fn csv_cell(v: JsonV) -> Seq<char> {
    match v {
        JsonV::Null => Seq::empty(),
        JsonV::Bool(b) => if b {
            "true"@
        } else {
            "false"@
        },
        JsonV::Int(n) => dec_str_of(n),
        JsonV::Float(t) => float_cell(t),
        JsonV::Str(s) => s,
        JsonV::Arr(_) => json_text(v),
        JsonV::Obj(_) => json_text(v),
    }
}

/// A nested (array or object) value's CSV cell text is exactly its
/// compact JSON text, so a nested group reads the same in a CSV cell as
/// in the JSON-lines output.
pub proof fn lemma_csv_cell_nested(v: JsonV)
    requires
        v is Arr || v is Obj,
    ensures
        csv_cell(v) == json_text(v),
{
}

/// Whether the text carries an exponent marker.
fn exponent_marker(s: &str) -> (r: bool)
    ensures
        r == has_exponent(s@),
{
    let n = s.unicode_len();
    let mut i: usize = 0;
    while i < n
        invariant
            i <= n,
            n == s@.len(),
            forall|j: int| 0 <= j < i ==> s@[j] != 'e' && s@[j] != 'E',
        decreases n - i,
    {
        let c = s.get_char(i);
        if c == 'e' || c == 'E' {
            return true;
        }
        i = i + 1;
    }
    false
}

/// Renders one mapped value as its CSV cell text.
pub fn value_to_csv(value: &JsonValue) -> (r: String)
    ensures
        r@ == csv_cell(value.jv()),
{
    match value {
        JsonValue::Null => String::new(),
        JsonValue::Bool(b) => if *b {
            String::from_str("true")
        } else {
            String::from_str("false")
        },
        JsonValue::Int(n) => i64_to_string(*n),
        JsonValue::UInt(n) => u64_to_string(*n),
        JsonValue::Float(t) => {
            if exponent_marker(t.as_str()) {
                t.clone()
            } else {
                let trimmed = truncate_trailing_zeros(t.as_str());
                trimmed.to_owned()
            }
        },
        JsonValue::Str(s) => s.clone(),
        JsonValue::Array(_) => value_to_json_text(value),
        JsonValue::Object(_) => value_to_json_text(value),
    }
}

/// What the csv crate writes for one record made of the given cells:
/// comma-delimited, quoted where needed, terminated with one `\r`.
pub uninterp spec fn csv_row_of(cells: Seq<Seq<char>>) -> Seq<char>;

/// Relies on the csv crate's `WriterBuilder::terminator`,
/// `Writer::write_field`, `write_record` and `into_inner`: the encoded
/// record is a function of the cells alone, comma-delimited with
/// RFC4180-style quoting and a single `\r` terminator.
#[verifier::external_body]
fn csv_encode_row(cells: &Vec<String>) -> (r: String)
    ensures
        r@ == csv_row_of(str_views(cells@)),
{
    let mut writer = csv::WriterBuilder::new().terminator(csv::Terminator::Any(b'\r')).from_writer(
        Vec::new(),
    );
    for cell in cells {
        writer.write_field(cell).unwrap();
    }
    writer.write_record(None::<&[u8]>).unwrap();
    String::from_utf8(writer.into_inner().unwrap()).unwrap()
}

/// The character sequences of a list of strings.
pub open spec fn str_views(s: Seq<String>) -> Seq<Seq<char>>
    decreases s.len(),
{
    if s.len() == 0 {
        Seq::empty()
    } else {
        str_views(s.drop_last()).push(s.last()@)
    }
}

/// The views of a list of strings line up with the strings.
pub proof fn lemma_str_views(s: Seq<String>)
    ensures
        str_views(s).len() == s.len(),
        forall|i: int| 0 <= i < s.len() ==> #[trigger] str_views(s)[i] == s[i]@,
    decreases s.len(),
{
    if s.len() > 0 {
        lemma_str_views(s.drop_last());
        assert(forall|i: int|
            0 <= i < s.len() - 1 ==> s.drop_last()[i] == #[trigger] s[i]);
    }
}

/// A name occurs in the list.
pub open spec fn contains_str(names: Seq<Seq<char>>, name: Seq<char>) -> bool {
    exists|i: int| 0 <= i < names.len() && names[i] == name
}

/// The row has a field of that name.
pub open spec fn has_field(row: Seq<(Seq<char>, FieldV)>, name: Seq<char>) -> bool {
    exists|i: int| 0 <= i < row.len() && row[i].0 == name
}

/// The first field of that name.
pub open spec fn find_field(row: Seq<(Seq<char>, FieldV)>, name: Seq<char>) -> FieldV
    decreases row.len(),
{
    if row.len() == 0 {
        FieldV::Null
    } else if row[0].0 == name {
        row[0].1
    } else {
        find_field(row.drop_first(), name)
    }
}

/// Finding a field skips any prefix without its name.
proof fn lemma_find_field_skip(row: Seq<(Seq<char>, FieldV)>, name: Seq<char>, i: int)
    requires
        0 <= i <= row.len(),
        forall|j: int| 0 <= j < i ==> (#[trigger] row[j]).0 != name,
    ensures
        find_field(row, name) == find_field(row.skip(i), name),
        has_field(row, name) <==> has_field(row.skip(i), name),
    decreases i,
{
    if i > 0 {
        assert(row[0].0 != name);
        assert(row.drop_first() =~= row.skip(1));
        assert(forall|j: int| 0 <= j < i - 1 ==> (#[trigger] row.drop_first()[j]).0 != name) by {
            assert(forall|j: int|
                0 <= j < i - 1 ==> #[trigger] row.drop_first()[j] == row[j + 1]);
        }
        lemma_find_field_skip(row.drop_first(), name, i - 1);
        assert(row.drop_first().skip(i - 1) =~= row.skip(i));
        assert(find_field(row, name) == find_field(row.drop_first(), name));
        assert(has_field(row, name) <==> has_field(row.drop_first(), name)) by {
            if has_field(row, name) {
                let k = choose|k: int| 0 <= k < row.len() && row[k].0 == name;
                assert(k != 0);
                assert(row.drop_first()[k - 1].0 == name);
            }
            if has_field(row.drop_first(), name) {
                let k = choose|k: int|
                    0 <= k < row.drop_first().len() && row.drop_first()[k].0 == name;
                assert(row[k + 1].0 == name);
            }
        }
    } else {
        assert(row.skip(0) =~= row);
    }
}

/// Looks a field up by name; yields the first field of that name, or
/// nothing when the row has none.
fn find_in_row<'a>(row: &'a Vec<(String, TypedField)>, name: &String) -> (r: Option<
    &'a TypedField,
>)
    ensures
        match r {
            Option::Some(f) => has_field(fv_entries(row@), name@) && f.fv() == find_field(
                fv_entries(row@),
                name@,
            ),
            Option::None => !has_field(fv_entries(row@), name@),
        },
{
    proof {
        lemma_fv_entries(row@);
    }
    let ghost t = fv_entries(row@);
    let mut i: usize = 0;
    while i < row.len()
        invariant
            i <= row@.len(),
            t == fv_entries(row@),
            t.len() == row@.len(),
            forall|j: int| 0 <= j < row@.len() ==> #[trigger] t[j] == (row@[j].0@, row@[j].1.fv()),
            forall|j: int| 0 <= j < i ==> (#[trigger] t[j]).0 != name@,
        decreases row@.len() - i,
    {
        if row[i].0 == *name {
            proof {
                lemma_find_field_skip(t, name@, i as int);
                assert(t.skip(i as int)[0] == t[i as int]);
                assert(has_field(t, name@)) by {
                    assert(t[i as int].0 == name@);
                }
            }
            return Some(&row[i].1);
        }
        i = i + 1;
    }
    proof {
        lemma_find_field_skip(t, name@, row@.len() as int);
        assert(t.skip(row@.len() as int) =~= Seq::empty());
        assert(!has_field(Seq::empty(), name@));
    }
    None
}

/// The cells of a row under a requested column list: a requested name
/// in the missing set yields an empty cell; any other requested name
/// yields the cell of its field's mapped value.
pub open spec fn csv_cells_selected(
    s: Settings,
    row: Seq<(Seq<char>, FieldV)>,
    cols: Seq<Seq<char>>,
    missing: Seq<Seq<char>>,
) -> Seq<Seq<char>> {
    Seq::new(
        cols.len(),
        |i: int|
            if contains_str(missing, cols[i]) {
                Seq::empty()
            } else {
                csv_cell(map_field_spec(s, find_field(row, cols[i])))
            },
    )
}

/// The cells of a row without a column list: every field in row order.
pub open spec fn csv_cells_all(s: Settings, row: Seq<(Seq<char>, FieldV)>) -> Seq<Seq<char>> {
    Seq::new(row.len(), |i: int| csv_cell(map_field_spec(s, row[i].1)))
}

/// Every column that a CSV row draws cells from has good keys: with a
/// column list, every requested name that is not missing; without one,
/// every field of the row.
pub open spec fn csv_row_good(
    s: Settings,
    row: Seq<(Seq<char>, FieldV)>,
    missing: Seq<Seq<char>>,
) -> bool {
    match s.columns {
        Option::Some(cols) => forall|i: int|
            0 <= i < str_views(cols@).len() ==> contains_str(missing, str_views(cols@)[i])
                || good_keys(#[trigger] find_field(row, str_views(cols@)[i])),
        Option::None => forall|i: int| 0 <= i < row.len() ==> good_keys(#[trigger] row[i].1),
    }
}

/// The encoded CSV row of a record: cells by the requested columns when
/// a column list is set (missing names as empty cells), else by the
/// row's own fields.
pub open spec fn csv_line_spec(
    s: Settings,
    row: Seq<(Seq<char>, FieldV)>,
    missing: Seq<Seq<char>>,
) -> Seq<char> {
    match s.columns {
        Option::Some(cols) => csv_row_of(csv_cells_selected(s, row, str_views(cols@), missing)),
        Option::None => csv_row_of(csv_cells_all(s, row)),
    }
}

/// Serializes one record as an encoded CSV row (terminated with `\r`,
/// without the line feed). A requested column in the missing set always
/// yields an empty cell and never a failure; the call fails exactly
/// when a drawn-from field has a map with an unsupported key.
pub fn row_to_csv_line(
    settings: &Settings,
    row: &Vec<(String, TypedField)>,
    missing: &Vec<String>,
) -> (r: Result<String, ConvError>)
    requires
        crate::convert::entries_wf(fv_entries(row@)),
        settings.columns matches Option::Some(cols) ==> forall|i: int|
            0 <= i < str_views(cols@).len() ==> contains_str(
                str_views(missing@),
                #[trigger] str_views(cols@)[i],
            ) || has_field(fv_entries(row@), str_views(cols@)[i]),
    ensures
        r is Ok <==> csv_row_good(*settings, fv_entries(row@), str_views(missing@)),
        r matches Ok(line) ==> line@ == csv_line_spec(
            *settings,
            fv_entries(row@),
            str_views(missing@),
        ),
{
    proof {
        lemma_fv_entries(row@);
        lemma_str_views(missing@);
    }
    let ghost t = fv_entries(row@);
    let ghost mv = str_views(missing@);
    let mut cells: Vec<String> = Vec::new();
    match &settings.columns {
        Some(cols) => {
            proof {
                lemma_str_views(cols@);
            }
            let ghost cv = str_views(cols@);
            let ghost expect = csv_cells_selected(*settings, t, cv, mv);
            proof {
                assert(settings.columns == Option::Some(*cols));
            }
            let mut i: usize = 0;
            while i < cols.len()
                invariant
                    i <= cols@.len(),
                    t == fv_entries(row@),
                    cv == str_views(cols@),
                    cv.len() == cols@.len(),
                    forall|j: int| 0 <= j < cols@.len() ==> #[trigger] cv[j] == cols@[j]@,
                    mv == str_views(missing@),
                    mv.len() == missing@.len(),
                    forall|j: int| 0 <= j < missing@.len() ==> #[trigger] mv[j] == missing@[j]@,
                    expect == csv_cells_selected(*settings, t, cv, mv),
                    str_views(cells@) == expect.take(i as int),
                    crate::convert::entries_wf(t),
                    settings.columns == Option::Some(*cols),
                    forall|j: int|
                        0 <= j < cv.len() ==> contains_str(mv, #[trigger] cv[j]) || has_field(
                            t,
                            cv[j],
                        ),
                    forall|j: int|
                        0 <= j < i ==> contains_str(mv, #[trigger] cv[j]) || good_keys(
                            find_field(t, cv[j]),
                        ),
                decreases cols@.len() - i,
            {
                let mut is_missing = false;
                let mut k: usize = 0;
                while k < missing.len()
                    invariant
                        k <= missing@.len(),
                        mv == str_views(missing@),
                        mv.len() == missing@.len(),
                        forall|j: int|
                            0 <= j < missing@.len() ==> #[trigger] mv[j] == missing@[j]@,
                        cv == str_views(cols@),
                        cv.len() == cols@.len(),
                        forall|j: int| 0 <= j < cols@.len() ==> #[trigger] cv[j] == cols@[j]@,
                        i < cols@.len(),
                        is_missing ==> contains_str(mv, cv[i as int]),
                        !is_missing ==> forall|j: int| 0 <= j < k ==> mv[j] != cv[i as int],
                    decreases missing@.len() - k,
                {
                    if missing[k] == cols[i] {
                        is_missing = true;
                        proof {
                            assert(mv[k as int] == cv[i as int]);
                        }
                    }
                    k = k + 1;
                }
                let ghost prev = cells@;
                if is_missing {
                    cells.push(String::new());
                } else {
                    proof {
                        assert(!contains_str(mv, cv[i as int]));
                        assert(has_field(t, cv[i as int]));
                    }
                    let field = match find_in_row(row, &cols[i]) {
                        Some(f) => f,
                        None => {
                            proof {
                                assert(false);
                            }
                            return Err(ConvError::UnsupportedMapKey);
                        },
                    };
                    proof {
                        lemma_found_field_wf(t, cv[i as int]);
                        assert(field_wf(field.fv()));
                    }
                    let v = match element_to_value(settings, field) {
                        Ok(v) => v,
                        Err(e) => {
                            proof {
                                assert(!good_keys(find_field(t, cv[i as int])));
                                assert(!csv_row_good(*settings, t, mv));
                            }
                            return Err(e);
                        },
                    };
                    cells.push(value_to_csv(&v));
                }
                proof {
                    assert(cells@.drop_last() =~= prev);
                    assert(str_views(cells@) == str_views(prev).push(cells@.last()@));
                    assert(str_views(cells@) =~= expect.take(i + 1));
                }
                i = i + 1;
            }
            proof {
                assert(expect.take(cols@.len() as int) =~= expect);
            }
        },
        None => {
            let ghost expect = csv_cells_all(*settings, t);
            let mut i: usize = 0;
            while i < row.len()
                invariant
                    i <= row@.len(),
                    t == fv_entries(row@),
                    t.len() == row@.len(),
                    forall|j: int|
                        0 <= j < row@.len() ==> #[trigger] t[j] == (row@[j].0@, row@[j].1.fv()),
                    expect == csv_cells_all(*settings, t),
                    str_views(cells@) == expect.take(i as int),
                    crate::convert::entries_wf(t),
                    settings.columns is None,
                    forall|j: int| 0 <= j < i ==> good_keys(#[trigger] t[j].1),
                decreases row@.len() - i,
            {
                proof {
                    assert(field_wf(t[i as int].1));
                }
                let v = match element_to_value(settings, &row[i].1) {
                    Ok(v) => v,
                    Err(e) => {
                        proof {
                            assert(!good_keys(t[i as int].1));
                            assert(!csv_row_good(*settings, t, mv));
                        }
                        return Err(e);
                    },
                };
                let ghost prev = cells@;
                cells.push(value_to_csv(&v));
                proof {
                    assert(cells@.drop_last() =~= prev);
                    assert(str_views(cells@) == str_views(prev).push(cells@.last()@));
                    assert(str_views(cells@) =~= expect.take(i + 1));
                }
                i = i + 1;
            }
            proof {
                assert(expect.take(row@.len() as int) =~= expect);
            }
        },
    }
    proof {
        assert(csv_row_good(*settings, t, mv));
    }
    Ok(csv_encode_row(&cells))
}

/// A found field is well-formed when the row's entries are.
proof fn lemma_found_field_wf(row: Seq<(Seq<char>, FieldV)>, name: Seq<char>)
    requires
        crate::convert::entries_wf(row),
        has_field(row, name),
    ensures
        field_wf(find_field(row, name)),
    decreases row.len(),
{
    if row.len() > 0 {
        if row[0].0 == name {
            assert(field_wf(row[0].1));
        } else {
            assert(has_field(row.drop_first(), name)) by {
                let k = choose|k: int| 0 <= k < row.len() && row[k].0 == name;
                assert(row.drop_first()[k - 1].0 == name);
            }
            assert(crate::convert::entries_wf(row.drop_first())) by {
                assert(forall|j: int|
                    0 <= j < row.drop_first().len() ==> #[trigger] row.drop_first()[j]
                        == row[j + 1]);
            }
            lemma_found_field_wf(row.drop_first(), name);
        }
    }
}

} // verus!
