//! Building one record per data row.
//!
//! A record pairs each selected column's normalized header with the row's
//! cell text at that column, or with an absent marker where the row is too
//! short. Keys collide exactly as map insertion does: a later occurrence of
//! the same key overwrites the earlier value and keeps its place.

use vstd::prelude::*;
use vstd::string::*;

use crate::columns::{ints_of, str_views};
use crate::normalize::{normalize_column_name, spec_normalize};
use crate::numbers::{dec_digits, render_usize};
use crate::text::chars_to_string;

verus! {

/// One field of a record: a normalized header and the cell text under it,
/// `None` where the row has no cell at the selected column.
pub struct RecordField {
    pub key: String,
    pub value: Option<String>,
}

/// The model of one field.
pub struct FieldModel {
    pub key: Seq<char>,
    pub value: Option<Seq<char>>,
}

impl View for RecordField {
    type V = FieldModel;

    open spec fn view(&self) -> FieldModel {
        FieldModel {
            key: self.key@,
            value: match self.value {
                Some(ref s) => Some(s@),
                None => None,
            },
        }
    }
}

/// The models of a sequence of fields.
pub open spec fn fields_view(v: Seq<RecordField>) -> Seq<FieldModel> {
    Seq::new(v.len(), |i: int| v[i]@)
}

/// One data row converted to an ordered key-value mapping.
pub struct Record {
    pub fields: Vec<RecordField>,
}

impl View for Record {
    type V = Seq<FieldModel>;

    open spec fn view(&self) -> Seq<FieldModel> {
        fields_view(self.fields@)
    }
}

/// The position of the first field with key `k`, or `-1` if there is none.
pub open spec fn find_key(fs: Seq<FieldModel>, k: Seq<char>) -> int
    decreases fs.len(),
{
    if fs.len() == 0 {
        -1
    } else if fs[0].key == k {
        0
    } else {
        let r = find_key(fs.drop_first(), k);
        if r == -1 {
            -1
        } else {
            r + 1
        }
    }
}

/// `find_key` finds the first occurrence of `k`, if any.
pub proof fn lemma_find_key(fs: Seq<FieldModel>, k: Seq<char>)
    ensures
        find_key(fs, k) == -1 ==> forall|j: int| 0 <= j < fs.len() ==> (#[trigger] fs[j]).key != k,
        find_key(fs, k) != -1 ==> 0 <= find_key(fs, k) < fs.len() && fs[find_key(fs, k)].key == k
            && forall|j: int| 0 <= j < find_key(fs, k) ==> (#[trigger] fs[j]).key != k,
    decreases fs.len(),
{
    if fs.len() > 0 && fs[0].key != k {
        lemma_find_key(fs.drop_first(), k);
        let d = fs.drop_first();
        let r = find_key(d, k);
        if r == -1 {
            assert forall|j: int| 0 <= j < fs.len() implies (#[trigger] fs[j]).key != k by {
                if j >= 1 {
                    assert(fs[j] == d[j - 1]);
                    assert(d[j - 1].key != k);
                }
            }
        } else {
            assert(find_key(fs, k) == r + 1);
            assert(fs[r + 1] == d[r]);
            assert forall|j: int| 0 <= j < r + 1 implies (#[trigger] fs[j]).key != k by {
                if j >= 1 {
                    assert(fs[j] == d[j - 1]);
                    assert(d[j - 1].key != k);
                }
            }
        }
    }
}

/// Map insertion on an ordered field list: an existing key keeps its place
/// and takes the new value; a new key is appended.
pub open spec fn insert_field(fs: Seq<FieldModel>, k: Seq<char>, v: Option<Seq<char>>) -> Seq<
    FieldModel,
> {
    let i = find_key(fs, k);
    if i == -1 {
        fs.push(FieldModel { key: k, value: v })
    } else {
        fs.update(i, FieldModel { key: k, value: v })
    }
}

/// Whether no two fields share a key.
pub open spec fn keys_distinct(fs: Seq<FieldModel>) -> bool {
    forall|i: int, j: int|
        0 <= i < j < fs.len() ==> (#[trigger] fs[i]).key != (#[trigger] fs[j]).key
}

/// Map insertion keeps field keys distinct.
proof fn lemma_insert_field_distinct(fs: Seq<FieldModel>, k: Seq<char>, v: Option<Seq<char>>)
    requires
        keys_distinct(fs),
    ensures
        keys_distinct(insert_field(fs, k, v)),
{
    lemma_find_key(fs, k);
    let at = find_key(fs, k);
    let ns = insert_field(fs, k, v);
    if at == -1 {
        assert forall|i: int, j: int|
            0 <= i < j < ns.len() implies (#[trigger] ns[i]).key != (#[trigger] ns[j]).key by {
            if j < fs.len() {
                assert(ns[i] == fs[i] && ns[j] == fs[j]);
            } else {
                assert(ns[i] == fs[i] && ns[j].key == k);
                assert(fs[i].key != k);
            }
        }
    } else {
        assert forall|i: int, j: int|
            0 <= i < j < ns.len() implies (#[trigger] ns[i]).key != (#[trigger] ns[j]).key by {
            assert(ns[i].key == fs[i].key && ns[j].key == fs[j].key);
        }
    }
}

/// Law: a record is a mapping: no key occurs twice, however often the
/// selection repeats a column or the normalized headers collide.
pub proof fn lemma_record_keys_distinct(row: Seq<Seq<char>>, sel: Seq<int>, keys: Seq<Seq<char>>)
    ensures
        keys_distinct(spec_record(row, sel, keys)),
{
    lemma_record_upto_distinct(row, sel, keys, keys.len() as int);
}

/// Helper for `lemma_record_keys_distinct`, by induction on the prefix.
proof fn lemma_record_upto_distinct(row: Seq<Seq<char>>, sel: Seq<int>, keys: Seq<Seq<char>>, n: int)
    ensures
        keys_distinct(record_upto(row, sel, keys, n)),
    decreases n,
{
    if n > 0 {
        lemma_record_upto_distinct(row, sel, keys, n - 1);
        lemma_insert_field_distinct(
            record_upto(row, sel, keys, n - 1),
            keys[n - 1],
            cell_value(row, sel[n - 1]),
        );
    }
}

/// The cell text of `row` at column `col`, absent where the row is shorter.
pub open spec fn cell_value(row: Seq<Seq<char>>, col: int) -> Option<Seq<char>> {
    if 0 <= col < row.len() {
        Some(row[col])
    } else {
        None
    }
}

/// The record built from the first `n` selected columns of `row`.
pub open spec fn record_upto(row: Seq<Seq<char>>, sel: Seq<int>, keys: Seq<Seq<char>>, n: int) -> Seq<
    FieldModel,
>
    decreases n,
{
    if n <= 0 {
        Seq::<FieldModel>::empty()
    } else {
        insert_field(record_upto(row, sel, keys, n - 1), keys[n - 1], cell_value(row, sel[n - 1]))
    }
}

/// The record built from one data row: the selected columns' cell texts,
/// keyed by the normalized headers, inserted in selection order.
pub open spec fn spec_record(row: Seq<Seq<char>>, sel: Seq<int>, keys: Seq<Seq<char>>) -> Seq<
    FieldModel,
> {
    record_upto(row, sel, keys, keys.len() as int)
}

/// The records of a sequence of data rows.
pub open spec fn records_of(rows: Seq<Seq<Seq<char>>>, sel: Seq<int>, keys: Seq<Seq<char>>) -> Seq<
    Seq<FieldModel>,
> {
    Seq::new(rows.len(), |i: int| spec_record(rows[i], sel, keys))
}

/// The fallback key for a selected column that lies beyond the header row:
/// `column_` followed by the 1-based column number.
pub open spec fn fallback_name(col: int) -> Seq<char> {
    seq!['c', 'o', 'l', 'u', 'm', 'n', '_'] + dec_digits((col + 1) as nat)
}

/// The key used for the selected column `col`.
pub open spec fn header_key(header: Seq<Seq<char>>, col: int) -> Seq<char> {
    if 0 <= col < header.len() {
        spec_normalize(header[col])
    } else {
        fallback_name(col)
    }
}

/// The keys of a selection, in selection order.
pub open spec fn keys_of(header: Seq<Seq<char>>, sel: Seq<int>) -> Seq<Seq<char>> {
    Seq::new(sel.len(), |i: int| header_key(header, sel[i]))
}

/// Normalizes the headers of the selected columns, in selection order; a
/// column beyond the header row gets the fallback name `column_N`.
pub fn extract_headers(header_row: &Vec<String>, column_indices: &Vec<usize>) -> (r: Vec<String>)
    requires
        forall|i: int|
            0 <= i < column_indices@.len() ==> #[trigger] column_indices@[i] < usize::MAX,
    ensures
        str_views(r@) == keys_of(str_views(header_row@), ints_of(column_indices@)),
{
    let ghost h = str_views(header_row@);
    let ghost sel = ints_of(column_indices@);
    let mut r: Vec<String> = Vec::new();
    let mut i: usize = 0;
    proof {
        assert(str_views(r@) =~= keys_of(h, sel).take(0));
    }
    while i < column_indices.len()
        invariant
            i <= column_indices@.len(),
            h == str_views(header_row@),
            sel == ints_of(column_indices@),
            forall|j: int| 0 <= j < column_indices@.len() ==> #[trigger] column_indices@[j]
                < usize::MAX,
            str_views(r@) == keys_of(h, sel).take(i as int),
        decreases column_indices.len() - i,
    {
        let col = column_indices[i];
        let key: String = if col < header_row.len() {
            proof {
                assert(h[col as int] == header_row@[col as int]@);
            }
            normalize_column_name(header_row[col].as_str())
        } else {
            let mut name = String::from_str("column_");
            let digits = chars_to_string(&render_usize(col + 1));
            name.append(digits.as_str());
            proof {
                reveal_strlit("column_");
                assert(name@ =~= fallback_name(col as int));
            }
            name
        };
        r.push(key);
        proof {
            assert(str_views(r@) =~= keys_of(h, sel).take(i as int).push(
                header_key(h, sel[i as int]),
            ));
            assert(keys_of(h, sel).take(i as int + 1) =~= keys_of(h, sel).take(i as int).push(
                header_key(h, sel[i as int]),
            ));
        }
        i = i + 1;
    }
    proof {
        assert(keys_of(h, sel).take(sel.len() as int) =~= keys_of(h, sel));
    }
    r
}

/// Builds the record of one data row: for each selection position, the cell
/// at the selected column (or the absent marker where the row is shorter),
/// inserted under the matching key with map semantics.
pub fn build_record(row: &Vec<String>, column_indices: &Vec<usize>, headers: &Vec<String>) -> (r:
    Record)
    requires
        headers@.len() == column_indices@.len(),
    ensures
        r@ == spec_record(str_views(row@), ints_of(column_indices@), str_views(headers@)),
{
    let ghost rv = str_views(row@);
    let ghost sel = ints_of(column_indices@);
    let ghost keys = str_views(headers@);
    let mut fields: Vec<RecordField> = Vec::new();
    let mut i: usize = 0;
    proof {
        assert(fields_view(fields@) =~= record_upto(rv, sel, keys, 0));
    }
    while i < column_indices.len()
        invariant
            i <= column_indices@.len(),
            headers@.len() == column_indices@.len(),
            rv == str_views(row@),
            sel == ints_of(column_indices@),
            keys == str_views(headers@),
            fields_view(fields@) == record_upto(rv, sel, keys, i as int),
        decreases column_indices.len() - i,
    {
        let col = column_indices[i];
        let value: Option<String> = if col < row.len() {
            proof {
                assert(rv[col as int] == row@[col as int]@);
            }
            Some(row[col].clone())
        } else {
            None
        };
        let key = headers[i].clone();
        let ghost before = fields_view(fields@);
        let field = RecordField { key, value };
        proof {
            assert(field@.key == keys[i as int]);
            assert(field@.value == cell_value(rv, sel[i as int]));
            lemma_find_key(before, field@.key);
        }
        match find_field(&fields, &field.key) {
            None => {
                fields.push(field);
                proof {
                    assert(find_key(before, keys[i as int]) == -1);
                    assert(fields_view(fields@) =~= before.push(
                        FieldModel { key: keys[i as int], value: cell_value(rv, sel[i as int]) },
                    ));
                }
            },
            Some(at) => {
                fields.remove(at);
                fields.insert(at, field);
                proof {
                    assert(find_key(before, keys[i as int]) == at as int);
                    assert(fields_view(fields@) =~= before.update(
                        at as int,
                        FieldModel { key: keys[i as int], value: cell_value(rv, sel[i as int]) },
                    ));
                }
            },
        }
        i = i + 1;
    }
    Record { fields }
}

/// The position of the first field whose key equals `k`, if any.
fn find_field(fields: &Vec<RecordField>, k: &String) -> (r: Option<usize>)
    ensures
        match r {
            Some(at) => find_key(fields_view(fields@), k@) == at as int,
            None => find_key(fields_view(fields@), k@) == -1,
        },
{
    let ghost fv = fields_view(fields@);
    proof {
        lemma_find_key(fv, k@);
    }
    let mut j: usize = 0;
    while j < fields.len()
        invariant
            j <= fields@.len(),
            fv == fields_view(fields@),
            forall|m: int| 0 <= m < j ==> (#[trigger] fv[m]).key != k@,
            find_key(fv, k@) == -1 || 0 <= find_key(fv, k@) < fv.len(),
            find_key(fv, k@) != -1 ==> fv[find_key(fv, k@)].key == k@ && (forall|m: int|
                0 <= m < find_key(fv, k@) ==> (#[trigger] fv[m]).key != k@),
            find_key(fv, k@) == -1 ==> forall|m: int|
                0 <= m < fv.len() ==> (#[trigger] fv[m]).key != k@,
        decreases fields.len() - j,
    {
        if fields[j].key.eq(k) {
            proof {
                assert(fv[j as int].key == k@);
                if find_key(fv, k@) == -1 {
                    assert(false);
                } else if find_key(fv, k@) < j as int {
                    assert(false);
                } else if find_key(fv, k@) > j as int {
                    assert(false);
                }
            }
            return Some(j);
        }
        proof {
            assert(fv[j as int].key != k@);
        }
        j = j + 1;
    }
    proof {
        if find_key(fv, k@) != -1 {
            assert(fv[find_key(fv, k@)].key != k@);
            assert(false);
        }
    }
    None
}

/// Converts data rows to records, one per row, in order.
pub fn convert_rows_to_records(
    rows: &Vec<Vec<String>>,
    headers: &Vec<String>,
    column_indices: &Vec<usize>,
) -> (r: Vec<Record>)
    requires
        headers@.len() == column_indices@.len(),
    ensures
        r@.len() == rows@.len(),
        forall|i: int| 0 <= i < r@.len() ==> (#[trigger] r@[i])@ == records_of(
            crate::convert::grid_views(rows@),
            ints_of(column_indices@),
            str_views(headers@),
        )[i],
{
    let ghost gv = crate::convert::grid_views(rows@);
    let ghost sel = ints_of(column_indices@);
    let ghost keys = str_views(headers@);
    let mut r: Vec<Record> = Vec::new();
    let mut i: usize = 0;
    while i < rows.len()
        invariant
            i <= rows@.len(),
            headers@.len() == column_indices@.len(),
            gv == crate::convert::grid_views(rows@),
            sel == ints_of(column_indices@),
            keys == str_views(headers@),
            r@.len() == i as int,
            forall|j: int| 0 <= j < r@.len() ==> (#[trigger] r@[j])@ == records_of(gv, sel, keys)[j],
        decreases rows.len() - i,
    {
        let rec = build_record(&rows[i], column_indices, headers);
        proof {
            assert(gv[i as int] == str_views(rows@[i as int]@));
        }
        r.push(rec);
        i = i + 1;
    }
    r
}

} // verus!
