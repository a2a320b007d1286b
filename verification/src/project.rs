//! Column projection: narrowing the file's declared top-level field
//! names to a requested ordered list, and recording requested names
//! that match no field. Absent names are reported, never an error.
use vstd::prelude::*;

use crate::csv_out::{contains_str, csv_cells_selected, str_views, lemma_str_views};
use crate::settings::Settings;
use crate::value::FieldV;

verus! {

/// The requested names that match a file field, in request order, a
/// repeated name kept once at its first occurrence.
pub open spec fn projected_names(file: Seq<Seq<char>>, cols: Seq<Seq<char>>) -> Seq<Seq<char>>
    decreases cols.len(),
{
    if cols.len() == 0 {
        Seq::empty()
    } else {
        let rest = projected_names(file, cols.drop_last());
        if contains_str(file, cols.last()) && !contains_str(rest, cols.last()) {
            rest.push(cols.last())
        } else {
            rest
        }
    }
}

/// The requested names that match no file field, in request order, a
/// repeated name kept once at its first occurrence.
pub open spec fn missing_names(file: Seq<Seq<char>>, cols: Seq<Seq<char>>) -> Seq<Seq<char>>
    decreases cols.len(),
{
    if cols.len() == 0 {
        Seq::empty()
    } else {
        let rest = missing_names(file, cols.drop_last());
        if !contains_str(file, cols.last()) && !contains_str(rest, cols.last()) {
            rest.push(cols.last())
        } else {
            rest
        }
    }
}

/// Whether a list of strings holds the given name.
fn contains_name(names: &Vec<String>, name: &String) -> (r: bool)
    ensures
        r == contains_str(str_views(names@), name@),
{
    proof {
        lemma_str_views(names@);
    }
    let ghost nv = str_views(names@);
    let mut i: usize = 0;
    while i < names.len()
        invariant
            i <= names@.len(),
            nv == str_views(names@),
            nv.len() == names@.len(),
            forall|j: int| 0 <= j < names@.len() ==> #[trigger] nv[j] == names@[j]@,
            forall|j: int| 0 <= j < i ==> nv[j] != name@,
        decreases names@.len() - i,
    {
        if names[i] == *name {
            proof {
                assert(nv[i as int] == name@);
            }
            return true;
        }
        i = i + 1;
    }
    false
}

/// Narrows the file's declared field names to the requested columns:
/// the first result lists the requested names present in the file, in
/// request order with repeats dropped; the second lists the requested
/// names absent from the file, likewise deduplicated. Absent names are
/// reported here rather than failing the run.
pub fn projected_schema(file_fields: &Vec<String>, columns: &Vec<String>) -> (r: (
    Vec<String>,
    Vec<String>,
))
    ensures
        str_views(r.0@) == projected_names(str_views(file_fields@), str_views(columns@)),
        str_views(r.1@) == missing_names(str_views(file_fields@), str_views(columns@)),
{
    proof {
        lemma_str_views(columns@);
    }
    let ghost fv = str_views(file_fields@);
    let ghost cv = str_views(columns@);
    let mut projected: Vec<String> = Vec::new();
    let mut missing: Vec<String> = Vec::new();
    let mut i: usize = 0;
    while i < columns.len()
        invariant
            i <= columns@.len(),
            fv == str_views(file_fields@),
            cv == str_views(columns@),
            cv.len() == columns@.len(),
            forall|j: int| 0 <= j < columns@.len() ==> #[trigger] cv[j] == columns@[j]@,
            str_views(projected@) == projected_names(fv, cv.take(i as int)),
            str_views(missing@) == missing_names(fv, cv.take(i as int)),
        decreases columns@.len() - i,
    {
        proof {
            assert(cv.take(i + 1).drop_last() =~= cv.take(i as int));
            assert(cv.take(i + 1).last() == cv[i as int]);
        }
        let c = &columns[i];
        if contains_name(file_fields, c) {
            if !contains_name(&projected, c) {
                let ghost prev = projected@;
                projected.push(c.clone());
                proof {
                    assert(projected@.drop_last() =~= prev);
                    assert(str_views(projected@) == str_views(prev).push(c@));
                }
            }
        } else {
            if !contains_name(&missing, c) {
                let ghost prev = missing@;
                missing.push(c.clone());
                proof {
                    assert(missing@.drop_last() =~= prev);
                    assert(str_views(missing@) == str_views(prev).push(c@));
                }
            }
        }
        proof {
            assert(str_views(projected@) == projected_names(fv, cv.take(i + 1)));
            assert(str_views(missing@) == missing_names(fv, cv.take(i + 1)));
        }
        i = i + 1;
    }
    proof {
        assert(cv.take(columns@.len() as int) =~= cv);
    }
    (projected, missing)
}

/// A requested name absent from the file's fields always lands in the
/// missing set; requesting it never fails the projection.
pub proof fn lemma_absent_column_recorded(
    file: Seq<Seq<char>>,
    cols: Seq<Seq<char>>,
    name: Seq<char>,
)
    requires
        contains_str(cols, name),
        !contains_str(file, name),
    ensures
        contains_str(missing_names(file, cols), name),
    decreases cols.len(),
{
    let rest = missing_names(file, cols.drop_last());
    if cols.last() == name {
        if !contains_str(rest, name) {
            let m = missing_names(file, cols);
            assert(m == rest.push(name));
            assert(m[m.len() - 1] == name);
        }
    } else {
        assert(contains_str(cols.drop_last(), name)) by {
            let k = choose|k: int| 0 <= k < cols.len() && cols[k] == name;
            assert(k != cols.len() - 1);
            assert(cols.drop_last()[k] == name);
        }
        lemma_absent_column_recorded(file, cols.drop_last(), name);
        if !contains_str(file, cols.last()) && !contains_str(rest, cols.last()) {
            let m = missing_names(file, cols);
            let k = choose|k: int| 0 <= k < rest.len() && rest[k] == name;
            assert(m[k] == name);
        }
    }
}

/// A requested column in the missing set yields the empty CSV cell,
/// whatever the record holds and whatever the pruning settings say.
pub proof fn lemma_missing_column_empty_cell(
    s: Settings,
    row: Seq<(Seq<char>, FieldV)>,
    cols: Seq<Seq<char>>,
    missing: Seq<Seq<char>>,
    i: int,
)
    requires
        0 <= i < cols.len(),
        contains_str(missing, cols[i]),
    ensures
        csv_cells_selected(s, row, cols, missing)[i] == Seq::<char>::empty(),
{
}

} // verus!
