use excel2json::columns::{get_visible_column_indices, parse_visible_column_numbers};
use excel2json::convert::convert_grid;
use excel2json::errors::ConvertError;
use excel2json::normalize::normalize_column_name;
use excel2json::records::{convert_rows_to_records, extract_headers, Record};

fn s(x: &str) -> String {
    x.to_string()
}

fn field(rec: &Record, i: usize) -> (String, Option<String>) {
    (rec.fields[i].key.clone(), rec.fields[i].value.clone())
}

#[test]
fn normalize_empty() {
    assert_eq!(normalize_column_name(""), "");
    assert_eq!(normalize_column_name("   "), "");
}

#[test]
fn normalize_single_symbols() {
    assert_eq!(normalize_column_name("#"), "number");
    assert_eq!(normalize_column_name("@"), "at");
    assert_eq!(normalize_column_name("%"), "percent");
    assert_eq!(normalize_column_name("$"), "usd");
    assert_eq!(normalize_column_name("/"), "slash");
    assert_eq!(normalize_column_name("&"), "and");
    // the single-symbol check applies after trimming
    assert_eq!(normalize_column_name("  #  "), "number");
}

#[test]
fn normalize_trims_and_lowercases() {
    assert_eq!(normalize_column_name(" First Name "), "first_name");
    assert_eq!(normalize_column_name("ABC"), "abc");
}

#[test]
fn normalize_slash() {
    assert_eq!(normalize_column_name("Sales/Revenue"), "sales_revenue");
}

#[test]
fn normalize_ampersand() {
    assert_eq!(normalize_column_name("Profit & Loss"), "profit_and_loss");
    assert_eq!(normalize_column_name("A&B"), "a_and_b");
}

#[test]
fn normalize_collapses_underscores() {
    assert_eq!(normalize_column_name("__a__b__"), "a_b");
}

#[test]
fn normalize_general_rules() {
    assert_eq!(normalize_column_name("Email@Home"), "email_at_home");
    assert_eq!(normalize_column_name("Discount%"), "discount_percent");
    assert_eq!(normalize_column_name("Price$"), "price_usd");
    assert_eq!(normalize_column_name("(Net) Total"), "net_total");
    assert_eq!(normalize_column_name("Item #"), "item");
}

#[test]
fn normalize_idempotent() {
    assert_eq!(normalize_column_name("first_name"), "first_name");
    let once = normalize_column_name("  Profit & Loss  ");
    assert_eq!(normalize_column_name(&once), once);
}

#[test]
fn visible_columns_skip_blank_headers() {
    let header = vec![s("Name"), s("Age"), s(""), s("Email"), s(""), s("Phone")];
    assert_eq!(get_visible_column_indices(&header), vec![0, 1, 3, 5]);
}

#[test]
fn visible_columns_treat_whitespace_as_blank() {
    let header = vec![s("  "), s("A"), s("\t")];
    assert_eq!(get_visible_column_indices(&header), vec![1]);
}

#[test]
fn visible_columns_all_blank() {
    let header = vec![s(""), s(" ")];
    assert_eq!(get_visible_column_indices(&header), Vec::<usize>::new());
}

#[test]
fn selector_maps_ordinals() {
    let visible = vec![0usize, 2, 5, 7];
    let sel = parse_visible_column_numbers("1,3", &visible).unwrap();
    assert_eq!(sel, vec![0, 5]);
}

#[test]
fn selector_zero_is_out_of_range() {
    let visible = vec![0usize, 2, 5, 7];
    match parse_visible_column_numbers("0", &visible) {
        Err(ConvertError::SelectorOutOfRange { value, position, visible_count }) => {
            assert_eq!(value, 0);
            assert_eq!(position, 0);
            assert_eq!(visible_count, 4);
        }
        other => panic!("expected an out-of-range error, got {:?}", other.is_ok()),
    }
}

#[test]
fn selector_too_large_is_out_of_range() {
    let visible = vec![0usize, 2, 5, 7];
    match parse_visible_column_numbers("99", &visible) {
        Err(ConvertError::SelectorOutOfRange { value, position, visible_count }) => {
            assert_eq!(value, 99);
            assert_eq!(position, 0);
            assert_eq!(visible_count, 4);
        }
        other => panic!("expected an out-of-range error, got {:?}", other.is_ok()),
    }
}

#[test]
fn selector_non_integer_is_invalid() {
    let visible = vec![0usize, 2, 5, 7];
    match parse_visible_column_numbers("abc", &visible) {
        Err(ConvertError::InvalidSelector { token, position }) => {
            assert_eq!(token, "abc");
            assert_eq!(position, 0);
        }
        other => panic!("expected an invalid-selector error, got {:?}", other.is_ok()),
    }
}

#[test]
fn selector_trims_and_accepts_plus_sign() {
    let visible = vec![4usize, 9];
    let sel = parse_visible_column_numbers(" 2 ,+1", &visible).unwrap();
    assert_eq!(sel, vec![9, 4]);
}

#[test]
fn selector_overflow_is_invalid() {
    let visible = vec![0usize];
    match parse_visible_column_numbers("18446744073709551616", &visible) {
        Err(ConvertError::InvalidSelector { token, position }) => {
            assert_eq!(token, "18446744073709551616");
            assert_eq!(position, 0);
        }
        other => panic!("expected an invalid-selector error, got {:?}", other.is_ok()),
    }
}

#[test]
fn selector_fails_fast_on_first_bad_token() {
    let visible = vec![0usize, 2];
    match parse_visible_column_numbers("1,x,7", &visible) {
        Err(ConvertError::InvalidSelector { token, position }) => {
            assert_eq!(token, "x");
            assert_eq!(position, 1);
        }
        other => panic!("expected an invalid-selector error, got {:?}", other.is_ok()),
    }
}

#[test]
fn selector_duplicates_allowed() {
    let visible = vec![0usize, 2];
    let sel = parse_visible_column_numbers("1,1", &visible).unwrap();
    assert_eq!(sel, vec![0, 0]);
}

#[test]
fn extract_headers_normalizes_selected() {
    let header = vec![s(" First Name "), s("Age"), s("Sales/Revenue")];
    let keys = extract_headers(&header, &vec![2usize, 0]);
    assert_eq!(keys, vec![s("sales_revenue"), s("first_name")]);
}

#[test]
fn extract_headers_fallback_name() {
    let header = vec![s("Name")];
    let keys = extract_headers(&header, &vec![5usize, 11]);
    assert_eq!(keys, vec![s("column_6"), s("column_12")]);
}

#[test]
fn rows_to_records_one_per_row() {
    let rows = vec![vec![s("John"), s("25")], vec![s("Jane"), s("31")]];
    let headers = vec![s("name"), s("age")];
    let recs = convert_rows_to_records(&rows, &headers, &vec![0usize, 1]);
    assert_eq!(recs.len(), 2);
    assert_eq!(field(&recs[1], 0), (s("name"), Some(s("Jane"))));
    assert_eq!(field(&recs[1], 1), (s("age"), Some(s("31"))));
}

#[test]
fn convert_simple_grid() {
    let grid = vec![vec![s("Name"), s("Age")], vec![s("John"), s("25")]];
    let recs = convert_grid(&grid, None).unwrap();
    assert_eq!(recs.len(), 1);
    assert_eq!(recs[0].fields.len(), 2);
    assert_eq!(field(&recs[0], 0), (s("name"), Some(s("John"))));
    assert_eq!(field(&recs[0], 1), (s("age"), Some(s("25"))));
}

#[test]
fn convert_short_row_gives_absent_value() {
    let grid = vec![vec![s("Name"), s("Age")], vec![s("John")]];
    let recs = convert_grid(&grid, None).unwrap();
    assert_eq!(recs.len(), 1);
    assert_eq!(field(&recs[0], 0), (s("name"), Some(s("John"))));
    assert_eq!(field(&recs[0], 1), (s("age"), None));
}

#[test]
fn convert_duplicate_key_last_write_wins() {
    // both selected columns normalize to the same key; the second value wins
    let grid = vec![
        vec![s("Name"), s(""), s("name ")],
        vec![s("John"), s("x"), s("Jane")],
    ];
    let recs = convert_grid(&grid, Some("1,2")).unwrap();
    assert_eq!(recs.len(), 1);
    assert_eq!(recs[0].fields.len(), 1);
    assert_eq!(field(&recs[0], 0), (s("name"), Some(s("Jane"))));
}

#[test]
fn convert_duplicate_ordinal_single_key() {
    let grid = vec![vec![s("Name"), s(""), s("Age")], vec![s("John"), s(""), s("25")]];
    let recs = convert_grid(&grid, Some("1,1")).unwrap();
    assert_eq!(recs[0].fields.len(), 1);
    assert_eq!(field(&recs[0], 0), (s("name"), Some(s("John"))));
}

#[test]
fn convert_header_only_grid_gives_empty_array() {
    let grid = vec![vec![s("Name"), s("Age")]];
    let recs = convert_grid(&grid, None).unwrap();
    assert_eq!(recs.len(), 0);
}

#[test]
fn convert_empty_grid_is_empty_sheet() {
    let grid: Vec<Vec<String>> = Vec::new();
    assert!(matches!(convert_grid(&grid, None), Err(ConvertError::EmptySheet)));
}

#[test]
fn convert_reorders_columns() {
    let grid = vec![
        vec![s("A"), s("B"), s("C")],
        vec![s("1"), s("2"), s("3")],
    ];
    let recs = convert_grid(&grid, Some("3,1")).unwrap();
    assert_eq!(field(&recs[0], 0), (s("c"), Some(s("3"))));
    assert_eq!(field(&recs[0], 1), (s("a"), Some(s("1"))));
}

#[test]
fn convert_all_blank_header_gives_empty_records() {
    let grid = vec![vec![s(""), s(" ")], vec![s("a"), s("b")]];
    let recs = convert_grid(&grid, None).unwrap();
    assert_eq!(recs.len(), 1);
    assert_eq!(recs[0].fields.len(), 0);
}

#[test]
fn normalize_strips_unicode_whitespace() {
    assert_eq!(normalize_column_name("\u{00A0}First Name\u{00A0}"), "first_name");
    assert_eq!(normalize_column_name("\u{3000}#\u{3000}"), "number");
}

#[test]
fn normalize_keeps_inner_tab() {
    assert_eq!(normalize_column_name("A\tB"), "a\tb");
}

#[test]
fn visible_columns_nbsp_is_blank() {
    let header = vec![s("\u{00A0}"), s("A")];
    assert_eq!(get_visible_column_indices(&header), vec![1]);
}

#[test]
fn selector_accepts_leading_zeros() {
    let visible = vec![4usize, 9];
    let sel = parse_visible_column_numbers("02", &visible).unwrap();
    assert_eq!(sel, vec![9]);
}

#[test]
fn convert_selector_error_propagates() {
    let grid = vec![vec![s("A"), s("B")], vec![s("1"), s("2")]];
    match convert_grid(&grid, Some("3")) {
        Err(ConvertError::SelectorOutOfRange { value, position, visible_count }) => {
            assert_eq!(value, 3);
            assert_eq!(position, 0);
            assert_eq!(visible_count, 2);
        }
        other => panic!("expected an out-of-range error, got {:?}", other.is_ok()),
    }
}
