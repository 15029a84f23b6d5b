//! Visible-column detection and user column selection.
//!
//! A column is visible when its header cell's trimmed text is non-empty. A
//! user selection is a comma-separated list of 1-based ordinals into the
//! visible columns; it is resolved token by token, stopping at the first
//! invalid token.

use vstd::prelude::*;

use crate::errors::{ConvertError, SelectorIssue};
use crate::numbers::{digits_value, is_number_token, parse_usize_token, strip_plus};
use crate::text::{
    chars_to_string, spec_trim, split_char, split_from, str_to_chars, trim_chars, views_of,
};

verus! {

/// The views of a sequence of strings.
pub open spec fn str_views(v: Seq<String>) -> Seq<Seq<char>> {
    Seq::new(v.len(), |i: int| v[i]@)
}

/// The integer values of a sequence of indices.
pub open spec fn ints_of(v: Seq<usize>) -> Seq<int> {
    Seq::new(v.len(), |i: int| v[i] as int)
}

/// The visible columns among the first `n` header cells, in order.
pub open spec fn visible_upto(header: Seq<Seq<char>>, n: int) -> Seq<int>
    decreases n,
{
    if n <= 0 {
        Seq::<int>::empty()
    } else {
        visible_upto(header, n - 1) + (if spec_trim(header[n - 1]).len() > 0 {
            seq![n - 1]
        } else {
            Seq::<int>::empty()
        })
    }
}

/// The indices of the header cells whose trimmed text is non-empty, in
/// left-to-right order.
pub open spec fn visible_of(header: Seq<Seq<char>>) -> Seq<int> {
    visible_upto(header, header.len() as int)
}

/// Every visible column index lies within the first `n` header cells.
pub proof fn lemma_visible_upto_bounds(header: Seq<Seq<char>>, n: int)
    ensures
        forall|k: int|
            0 <= k < visible_upto(header, n).len() ==> 0 <= #[trigger] visible_upto(header, n)[k]
                < n,
    decreases n,
{
    if n > 0 {
        lemma_visible_upto_bounds(header, n - 1);
        let prev = visible_upto(header, n - 1);
        let cur = visible_upto(header, n);
        if spec_trim(header[n - 1]).len() > 0 {
            assert forall|k: int| 0 <= k < cur.len() implies 0 <= #[trigger] cur[k] < n by {
                if k < prev.len() {
                    assert(cur[k] == prev[k]);
                } else {
                    assert(cur[k] == n - 1);
                }
            }
        } else {
            assert(cur =~= prev);
        }
    }
}

/// Law: the visible columns are exactly the header positions whose trimmed
/// text is non-empty, each listed once, in strictly increasing
/// (left-to-right) order.
pub proof fn lemma_visible_characterization(header: Seq<Seq<char>>)
    ensures
        forall|k: int|
            0 <= k < visible_of(header).len() ==> 0 <= #[trigger] visible_of(header)[k]
                < header.len() && spec_trim(header[visible_of(header)[k]]).len() > 0,
        forall|k: int|
            0 <= k < visible_of(header).len() - 1 ==> #[trigger] visible_of(header)[k]
                < visible_of(header)[k + 1],
        forall|c: int|
            0 <= c < header.len() && spec_trim(#[trigger] header[c]).len() > 0 ==> visible_of(
                header,
            ).contains(c),
{
    lemma_visible_upto_props(header, header.len() as int);
}

/// Helper for `lemma_visible_characterization`, by induction over prefixes.
proof fn lemma_visible_upto_props(header: Seq<Seq<char>>, n: int)
    requires
        0 <= n <= header.len(),
    ensures
        forall|k: int|
            0 <= k < visible_upto(header, n).len() ==> 0 <= #[trigger] visible_upto(header, n)[k]
                < n && spec_trim(header[visible_upto(header, n)[k]]).len() > 0,
        forall|k: int|
            0 <= k < visible_upto(header, n).len() - 1 ==> #[trigger] visible_upto(header, n)[k]
                < visible_upto(header, n)[k + 1],
        forall|c: int|
            0 <= c < n && spec_trim(#[trigger] header[c]).len() > 0 ==> visible_upto(
                header,
                n,
            ).contains(c),
    decreases n,
{
    if n > 0 {
        lemma_visible_upto_props(header, n - 1);
        let prev = visible_upto(header, n - 1);
        let cur = visible_upto(header, n);
        if spec_trim(header[n - 1]).len() > 0 {
            assert(cur =~= prev.push(n - 1));
            assert forall|k: int|
                0 <= k < cur.len() implies 0 <= #[trigger] cur[k] < n && spec_trim(
                header[cur[k]],
            ).len() > 0 by {
                if k < prev.len() {
                    assert(cur[k] == prev[k]);
                } else {
                    assert(cur[k] == n - 1);
                }
            }
            assert forall|k: int| 0 <= k < cur.len() - 1 implies #[trigger] cur[k] < cur[k + 1] by {
                if k + 1 < prev.len() {
                    assert(cur[k] == prev[k] && cur[k + 1] == prev[k + 1]);
                } else {
                    assert(cur[k] == prev[k] && cur[k + 1] == n - 1);
                }
            }
            assert forall|c: int|
                0 <= c < n && spec_trim(#[trigger] header[c]).len() > 0 implies cur.contains(c) by {
                if c == n - 1 {
                    assert(cur[cur.len() - 1] == n - 1);
                } else {
                    assert(prev.contains(c));
                    let j = choose|j: int| 0 <= j < prev.len() && prev[j] == c;
                    assert(cur[j] == c);
                }
            }
        } else {
            assert(cur =~= prev);
            assert forall|c: int|
                0 <= c < n && spec_trim(#[trigger] header[c]).len() > 0 implies cur.contains(c) by {
                assert(c != n - 1);
                assert(prev.contains(c));
                let j = choose|j: int| 0 <= j < prev.len() && prev[j] == c;
                assert(cur[j] == c);
            }
        }
    }
}

/// Returns the indices of the columns with non-blank headers, in order.
pub fn get_visible_column_indices(header_row: &Vec<String>) -> (r: Vec<usize>)
    ensures
        ints_of(r@) == visible_of(str_views(header_row@)),
{
    let ghost h = str_views(header_row@);
    let mut r: Vec<usize> = Vec::new();
    let mut i: usize = 0;
    proof {
        assert(ints_of(r@) =~= visible_upto(h, 0));
    }
    while i < header_row.len()
        invariant
            i <= header_row@.len(),
            h == str_views(header_row@),
            ints_of(r@) == visible_upto(h, i as int),
        decreases header_row.len() - i,
    {
        let cell = str_to_chars(header_row[i].as_str());
        let t = trim_chars(&cell);
        proof {
            assert(h[i as int] == header_row@[i as int]@);
        }
        if t.len() > 0 {
            r.push(i);
            proof {
                assert(ints_of(r@) =~= ints_of(r@.drop_last()).push(i as int));
                assert(visible_upto(h, i as int + 1) =~= visible_upto(h, i as int).push(i as int));
            }
        } else {
            proof {
                assert(visible_upto(h, i as int + 1) =~= visible_upto(h, i as int));
            }
        }
        i = i + 1;
    }
    r
}

/// Resolves the given selector tokens, from position `pos` on, against the
/// visible columns: each token, trimmed, must read as an ordinal `n` with
/// `1 <= n <= visible.len()`, and resolves to `visible[n - 1]`; resolution
/// stops at the first invalid token.
pub open spec fn parse_tokens(toks: Seq<Seq<char>>, visible: Seq<int>, pos: int) -> Result<
    Seq<int>,
    SelectorIssue,
>
    decreases toks.len(),
{
    if toks.len() == 0 {
        Ok(Seq::<int>::empty())
    } else {
        let t = spec_trim(toks[0]);
        if !is_number_token(t) {
            Err(SelectorIssue::Invalid { token: t, position: pos })
        } else {
            let n = digits_value(strip_plus(t));
            if n == 0 || n > visible.len() {
                Err(
                    SelectorIssue::OutOfRange {
                        value: n,
                        position: pos,
                        visible_count: visible.len() as int,
                    },
                )
            } else {
                match parse_tokens(toks.drop_first(), visible, pos + 1) {
                    Ok(rest) => Ok(seq![visible[n - 1]] + rest),
                    Err(e) => Err(e),
                }
            }
        }
    }
}

/// The selection that a selector string resolves to: its comma-separated
/// tokens, each mapped through the visible columns.
pub open spec fn spec_parse_selection(s: Seq<char>, visible: Seq<int>) -> Result<
    Seq<int>,
    SelectorIssue,
> {
    parse_tokens(split_char(s, ','), visible, 0)
}

/// A resolved selection has exactly one entry per token, each an entry of
/// `visible`; in particular every entry stays within any bound the visible
/// indices obey.
pub proof fn lemma_parse_tokens_entries(toks: Seq<Seq<char>>, visible: Seq<int>, pos: int)
    requires
        parse_tokens(toks, visible, pos) is Ok,
    ensures
        parse_tokens(toks, visible, pos)->Ok_0.len() == toks.len(),
        forall|k: int|
            0 <= k < parse_tokens(toks, visible, pos)->Ok_0.len() ==> visible.contains(
                #[trigger] parse_tokens(toks, visible, pos)->Ok_0[k],
            ),
    decreases toks.len(),
{
    if toks.len() > 0 {
        let t = spec_trim(toks[0]);
        let n = digits_value(strip_plus(t));
        assert(is_number_token(t));
        crate::numbers::lemma_digits_value_nonneg(strip_plus(t));
        assert(1 <= n <= visible.len());
        lemma_parse_tokens_entries(toks.drop_first(), visible, pos + 1);
        let rest = parse_tokens(toks.drop_first(), visible, pos + 1)->Ok_0;
        let whole = parse_tokens(toks, visible, pos)->Ok_0;
        assert(whole =~= seq![visible[n - 1]] + rest);
        assert(forall|k: int| 0 <= k < whole.len() ==> visible.contains(#[trigger] whole[k])) by {
            assert(whole[0] == visible[n - 1]);
            assert(visible.contains(visible[n - 1]));
            assert(forall|k: int| 1 <= k < whole.len() ==> whole[k] == rest[k - 1]);
        }
    }
}

/// Maps user-supplied 1-based ordinals, relative to the visible columns, to
/// grid column indices: token `n` selects `visible_indices[n - 1]`. Duplicate
/// ordinals are kept; the first invalid token aborts the resolution.
pub fn parse_visible_column_numbers(columns_str: &str, visible_indices: &Vec<usize>) -> (r: Result<
    Vec<usize>,
    ConvertError,
>)
    ensures
        match r {
            Ok(sel) => spec_parse_selection(columns_str@, ints_of(visible_indices@)) == Ok::<
                Seq<int>,
                SelectorIssue,
            >(ints_of(sel@)),
            Err(e) => {
                &&& spec_parse_selection(columns_str@, ints_of(visible_indices@)) is Err
                &&& e.matches_selector_issue(
                    spec_parse_selection(columns_str@, ints_of(visible_indices@))->Err_0,
                )
            },
        },
{
    let ghost vis = ints_of(visible_indices@);
    let schars = str_to_chars(columns_str);
    let toks = split_from(&schars, 0, ',');
    proof {
        assert(schars@.skip(0) =~= schars@);
    }
    let ghost tv = views_of(toks@);
    let mut out: Vec<usize> = Vec::new();
    let mut k: usize = 0;
    proof {
        assert(tv.skip(0) =~= tv);
        assert(ints_of(out@) + parse_tokens(tv, vis, 0)->Ok_0 =~= parse_tokens(tv, vis, 0)->Ok_0);
    }
    while k < toks.len()
        invariant
            k <= toks@.len(),
            tv == views_of(toks@),
            tv == split_char(columns_str@, ','),
            vis == ints_of(visible_indices@),
            visible_indices@.len() == vis.len(),
            parse_tokens(tv, vis, 0) == (match parse_tokens(tv.skip(k as int), vis, k as int) {
                Ok(rest) => Ok::<Seq<int>, SelectorIssue>(ints_of(out@) + rest),
                Err(e) => Err(e),
            }),
        decreases toks.len() - k,
    {
        proof {
            assert(tv.skip(k as int)[0] == toks@[k as int]@);
            assert(tv.skip(k as int).drop_first() =~= tv.skip(k as int + 1));
        }
        let t = trim_chars(&toks[k]);
        match parse_usize_token(&t) {
            None => {
                return Err(
                    ConvertError::InvalidSelector { token: chars_to_string(&t), position: k },
                );
            },
            Some(n) => {
                if n == 0 || n > visible_indices.len() {
                    return Err(
                        ConvertError::SelectorOutOfRange {
                            value: n,
                            position: k,
                            visible_count: visible_indices.len(),
                        },
                    );
                }
                let ghost out_old = out@;
                out.push(visible_indices[n - 1]);
                proof {
                    let ts = spec_trim(tv.skip(k as int)[0]);
                    assert(is_number_token(ts));
                    assert(digits_value(strip_plus(ts)) == n as int);
                    assert(vis[n - 1] == visible_indices@[n - 1] as int);
                    assert(parse_tokens(tv.skip(k as int), vis, k as int) == (match parse_tokens(
                        tv.skip(k as int + 1),
                        vis,
                        k as int + 1,
                    ) {
                        Ok(rest) => Ok::<Seq<int>, SelectorIssue>(seq![vis[n - 1]] + rest),
                        Err(e) => Err(e),
                    }));
                    assert(ints_of(out@) =~= ints_of(out_old).push(vis[n - 1]));
                    if parse_tokens(tv.skip(k as int + 1), vis, k as int + 1) is Ok {
                        let rest = parse_tokens(tv.skip(k as int + 1), vis, k as int + 1)->Ok_0;
                        assert(ints_of(out@) + rest =~= ints_of(out_old) + (seq![vis[n - 1]]
                            + rest));
                    }
                }
                k = k + 1;
            },
        }
    }
    proof {
        assert(tv.skip(k as int) =~= Seq::<Seq<char>>::empty());
        assert(ints_of(out@) + Seq::<int>::empty() =~= ints_of(out@));
    }
    Ok(out)
}

} // verus!
