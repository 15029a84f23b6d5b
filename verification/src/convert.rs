//! The whole conversion: from a grid of rendered cell texts to the records
//! that the output array holds.

use vstd::prelude::*;

use crate::columns::{
    get_visible_column_indices, ints_of, lemma_parse_tokens_entries, lemma_visible_upto_bounds,
    parse_visible_column_numbers, spec_parse_selection, str_views, visible_of,
};
use crate::errors::{ConvertError, ConvertIssue};
use crate::records::{build_record, extract_headers, keys_of, records_of, FieldModel, Record};
use crate::text::split_char;

verus! {

/// The views of a grid of strings.
pub open spec fn grid_views(g: Seq<Vec<String>>) -> Seq<Seq<Seq<char>>> {
    Seq::new(g.len(), |i: int| str_views(g[i]@))
}

/// The view of an optional selector string.
pub open spec fn opt_str_view(o: Option<&str>) -> Option<Seq<char>> {
    match o {
        Some(s) => Some(s@),
        None => None,
    }
}

/// The outcome of converting a grid: the first row is the header row; the
/// selection is all visible columns, or the resolved user selection; every
/// later row becomes one record. A grid without a header row is refused, and
/// a grid with only a header row gives an empty record array.
pub open spec fn spec_convert(grid: Seq<Seq<Seq<char>>>, columns: Option<Seq<char>>) -> Result<
    Seq<Seq<FieldModel>>,
    ConvertIssue,
> {
    if grid.len() == 0 {
        Err(ConvertIssue::MissingHeader)
    } else {
        let header = grid[0];
        let visible = visible_of(header);
        let selr: Result<Seq<int>, ConvertIssue> = match columns {
            Option::None => Ok(visible),
            Option::Some(cs) => match spec_parse_selection(cs, visible) {
                Ok(sel) => Ok(sel),
                Err(issue) => Err(ConvertIssue::Selector { issue }),
            },
        };
        match selr {
            Err(e) => Err(e),
            Ok(sel) => Ok(records_of(grid.skip(1), sel, keys_of(header, sel))),
        }
    }
}

/// The record that row `i` of the whole grid becomes.
pub open spec fn spec_record_at(
    gv: Seq<Seq<Seq<char>>>,
    sel: Seq<int>,
    keys: Seq<Seq<char>>,
    i: int,
) -> Seq<FieldModel> {
    crate::records::spec_record(gv[i], sel, keys)
}

/// Converts a grid into records: the header row decides the visible columns,
/// the optional selector string picks among them, and each data row becomes
/// one record. Fails exactly on an empty grid or an unresolvable selection.
pub fn convert_grid(grid: &Vec<Vec<String>>, columns: Option<&str>) -> (r: Result<
    Vec<Record>,
    ConvertError,
>)
    ensures
        match r {
            Ok(recs) => {
                &&& spec_convert(grid_views(grid@), opt_str_view(columns)) is Ok
                &&& recs@.len() == spec_convert(grid_views(grid@), opt_str_view(columns))->Ok_0.len()
                &&& forall|i: int|
                    0 <= i < recs@.len() ==> (#[trigger] recs@[i])@ == spec_convert(
                        grid_views(grid@),
                        opt_str_view(columns),
                    )->Ok_0[i]
            },
            Err(e) => {
                &&& spec_convert(grid_views(grid@), opt_str_view(columns)) is Err
                &&& e.matches_convert_issue(
                    spec_convert(grid_views(grid@), opt_str_view(columns))->Err_0,
                )
            },
        },
{
    let ghost gv = grid_views(grid@);
    if grid.len() == 0 {
        return Err(ConvertError::EmptySheet);
    }
    let header_row = &grid[0];
    let hl: usize = header_row.len();
    let ghost h = str_views(header_row@);
    proof {
        assert(gv[0] == h);
        lemma_visible_upto_bounds(h, h.len() as int);
    }
    let visible = get_visible_column_indices(header_row);
    let sel: Vec<usize> = match columns {
        None => visible,
        Some(cs) => match parse_visible_column_numbers(cs, &visible) {
            Ok(s) => s,
            Err(e) => {
                return Err(e);
            },
        },
    };
    let ghost selspec = ints_of(sel@);
    proof {
        if columns is Some {
            lemma_parse_tokens_entries(split_char(columns->0@, ','), visible_of(h), 0);
        }
        assert forall|k: int| 0 <= k < selspec.len() implies 0 <= #[trigger] selspec[k]
            < h.len() by {
            if columns is Some {
                assert(visible_of(h).contains(selspec[k]));
                let j = choose|j: int|
                    0 <= j < visible_of(h).len() && visible_of(h)[j] == selspec[k];
                assert(0 <= visible_of(h)[j] < h.len());
            }
        }
        assert(h.len() == hl as int);
        assert forall|k: int| 0 <= k < sel@.len() implies #[trigger] sel@[k] < usize::MAX by {
            assert(selspec[k] == sel@[k] as int);
            assert(selspec[k] < h.len());
        }
    }
    let keys = extract_headers(header_row, &sel);
    let ghost keyspec = str_views(keys@);
    proof {
        assert(keyspec == keys_of(h, selspec));
        assert(keys@.len() == sel@.len());
    }
    let mut records: Vec<Record> = Vec::new();
    let mut ri: usize = 1;
    while ri < grid.len()
        invariant
            1 <= ri <= grid@.len(),
            gv == grid_views(grid@),
            keys@.len() == sel@.len(),
            selspec == ints_of(sel@),
            keyspec == str_views(keys@),
            records@.len() == ri - 1,
            forall|j: int|
                0 <= j < records@.len() ==> (#[trigger] records@[j])@ == spec_record_at(
                    gv,
                    selspec,
                    keyspec,
                    j + 1,
                ),
        decreases grid.len() - ri,
    {
        let rec = build_record(&grid[ri], &sel, &keys);
        proof {
            assert(gv[ri as int] == str_views(grid@[ri as int]@));
        }
        records.push(rec);
        ri = ri + 1;
    }
    proof {
        let out = records_of(gv.skip(1), selspec, keyspec);
        assert(out.len() == gv.len() - 1);
        assert(forall|j: int|
            0 <= j < records@.len() ==> (#[trigger] records@[j])@ == out[j]) by {
            assert(forall|j: int|
                0 <= j < out.len() ==> out[j] == spec_record_at(gv, selspec, keyspec, j + 1));
        }
    }
    Ok(records)
}

} // verus!
