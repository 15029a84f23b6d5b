//! Header normalization: turning a raw header cell text into a JSON-safe key.
//!
//! A header that consists, after trimming, of exactly one special symbol is
//! replaced by a canonical word. Every other header is lower-cased and run
//! through a fixed chain of substring replacements, and runs of underscores
//! are then collapsed by splitting on `_`, dropping empty segments, and
//! rejoining with a single `_`.

use vstd::prelude::*;
use vstd::string::*;

use crate::text::{
    chars_to_string, replace_all, replace_chars, spec_trim, split_char, split_from, str_to_chars,
    trim_chars, views_of,
};

verus! {

/// Joins segments with a single underscore between them.
pub open spec fn join_underscores(segs: Seq<Seq<char>>) -> Seq<char>
    decreases segs.len(),
{
    if segs.len() == 0 {
        Seq::<char>::empty()
    } else if segs.len() == 1 {
        segs[0]
    } else {
        segs[0] + seq!['_'] + join_underscores(segs.drop_first())
    }
}

/// The non-empty segments, in order.
pub open spec fn nonempty_segments(segs: Seq<Seq<char>>) -> Seq<Seq<char>>
    decreases segs.len(),
{
    if segs.len() == 0 {
        Seq::<Seq<char>>::empty()
    } else if segs[0].len() > 0 {
        seq![segs[0]] + nonempty_segments(segs.drop_first())
    } else {
        nonempty_segments(segs.drop_first())
    }
}

/// Splits on `_`, discards empty segments, and rejoins with a single `_`,
/// collapsing every run of underscores and stripping them at the ends.
pub open spec fn spec_collapse(s: Seq<char>) -> Seq<char> {
    join_underscores(nonempty_segments(split_char(s, '_')))
}

/// The replacement chain applied, in order, to the lower-cased trimmed
/// header: `" & "` and then any remaining `&` become `"_and_"`, `/` and `#`
/// become `_`, `@` becomes `"_at_"`, `%` becomes `"_percent"`, `$` becomes
/// `"_usd"`, parentheses are deleted, and spaces become `_`.
pub open spec fn spec_replacements(s: Seq<char>) -> Seq<char> {
    let s1 = replace_all(s, seq![' ', '&', ' '], seq!['_', 'a', 'n', 'd', '_']);
    let s2 = replace_all(s1, seq!['&'], seq!['_', 'a', 'n', 'd', '_']);
    let s3 = replace_all(s2, seq!['/'], seq!['_']);
    let s4 = replace_all(s3, seq!['@'], seq!['_', 'a', 't', '_']);
    let s5 = replace_all(s4, seq!['#'], seq!['_']);
    let s6 = replace_all(s5, seq!['%'], seq!['_', 'p', 'e', 'r', 'c', 'e', 'n', 't']);
    let s7 = replace_all(s6, seq!['$'], seq!['_', 'u', 's', 'd']);
    let s8 = replace_all(s7, seq!['('], Seq::<char>::empty());
    let s9 = replace_all(s8, seq![')'], Seq::<char>::empty());
    replace_all(s9, seq![' '], seq!['_'])
}

/// The cleanup applied after the single-symbol check: the replacement chain
/// followed by underscore collapsing.
pub open spec fn spec_cleanup(s: Seq<char>) -> Seq<char> {
    spec_collapse(spec_replacements(s))
}

/// The canonical word for a header that is exactly one special symbol.
pub open spec fn special_word(t: Seq<char>) -> Option<Seq<char>> {
    if t.len() != 1 {
        None
    } else if t[0] == '#' {
        Some(seq!['n', 'u', 'm', 'b', 'e', 'r'])
    } else if t[0] == '@' {
        Some(seq!['a', 't'])
    } else if t[0] == '%' {
        Some(seq!['p', 'e', 'r', 'c', 'e', 'n', 't'])
    } else if t[0] == '$' {
        Some(seq!['u', 's', 'd'])
    } else if t[0] == '/' {
        Some(seq!['s', 'l', 'a', 's', 'h'])
    } else if t[0] == '&' {
        Some(seq!['a', 'n', 'd'])
    } else {
        None
    }
}

/// What `str::to_lowercase` returns for a given character sequence: the
/// result depends on the characters alone.
pub uninterp spec fn lower_of(s: Seq<char>) -> Seq<char>;

/// Relies on `str::to_lowercase`: the result is a function of the input
/// characters alone, and the empty string stays empty.
#[verifier::external_body]
pub(crate) fn lowercase(s: &str) -> (r: String)
    ensures
        r@ == lower_of(s@),
        s@.len() == 0 ==> r@.len() == 0,
{
    s.to_lowercase()
}

/// The normalized form of one raw header string: trim, substitute a lone
/// special symbol by its word, otherwise lower-case, apply the replacement
/// chain, and collapse underscores.
pub open spec fn spec_normalize(s: Seq<char>) -> Seq<char> {
    let t = spec_trim(s);
    match special_word(t) {
        Some(w) => w,
        None => spec_cleanup(lower_of(t)),
    }
}

/// Applies the replacement chain to a character sequence.
fn apply_replacements(s: &Vec<char>) -> (r: Vec<char>)
    ensures
        r@ == spec_replacements(s@),
{
    let empty = str_to_chars("");
    let und = str_to_chars("_");
    let und_and = str_to_chars("_and_");
    proof {
        reveal_strlit("");
        reveal_strlit("_");
        reveal_strlit("_and_");
        assert(empty@ =~= Seq::<char>::empty());
        assert(und@ =~= seq!['_']);
        assert(und_and@ =~= seq!['_', 'a', 'n', 'd', '_']);
    }
    let pat = str_to_chars(" & ");
    proof {
        reveal_strlit(" & ");
        assert(pat@ =~= seq![' ', '&', ' ']);
    }
    let s1 = replace_chars(s, &pat, &und_and);
    let pat = str_to_chars("&");
    proof {
        reveal_strlit("&");
        assert(pat@ =~= seq!['&']);
    }
    let s2 = replace_chars(&s1, &pat, &und_and);
    let pat = str_to_chars("/");
    proof {
        reveal_strlit("/");
        assert(pat@ =~= seq!['/']);
    }
    let s3 = replace_chars(&s2, &pat, &und);
    let pat = str_to_chars("@");
    let to = str_to_chars("_at_");
    proof {
        reveal_strlit("@");
        reveal_strlit("_at_");
        assert(pat@ =~= seq!['@']);
        assert(to@ =~= seq!['_', 'a', 't', '_']);
    }
    let s4 = replace_chars(&s3, &pat, &to);
    let pat = str_to_chars("#");
    proof {
        reveal_strlit("#");
        assert(pat@ =~= seq!['#']);
    }
    let s5 = replace_chars(&s4, &pat, &und);
    let pat = str_to_chars("%");
    let to = str_to_chars("_percent");
    proof {
        reveal_strlit("%");
        reveal_strlit("_percent");
        assert(pat@ =~= seq!['%']);
        assert(to@ =~= seq!['_', 'p', 'e', 'r', 'c', 'e', 'n', 't']);
    }
    let s6 = replace_chars(&s5, &pat, &to);
    let pat = str_to_chars("$");
    let to = str_to_chars("_usd");
    proof {
        reveal_strlit("$");
        reveal_strlit("_usd");
        assert(pat@ =~= seq!['$']);
        assert(to@ =~= seq!['_', 'u', 's', 'd']);
    }
    let s7 = replace_chars(&s6, &pat, &to);
    let pat = str_to_chars("(");
    proof {
        reveal_strlit("(");
        assert(pat@ =~= seq!['(']);
    }
    let s8 = replace_chars(&s7, &pat, &empty);
    let pat = str_to_chars(")");
    proof {
        reveal_strlit(")");
        assert(pat@ =~= seq![')']);
    }
    let s9 = replace_chars(&s8, &pat, &empty);
    let pat = str_to_chars(" ");
    proof {
        reveal_strlit(" ");
        assert(pat@ =~= seq![' ']);
    }
    replace_chars(&s9, &pat, &und)
}

/// Copies a character vector.
fn copy_chars(src: &Vec<char>) -> (r: Vec<char>)
    ensures
        r@ == src@,
{
    let mut r: Vec<char> = Vec::new();
    crate::text::push_all(&mut r, src);
    r
}

/// Keeps the non-empty segments, in order.
fn keep_nonempty(segs: &Vec<Vec<char>>) -> (r: Vec<Vec<char>>)
    ensures
        views_of(r@) == nonempty_segments(views_of(segs@)),
{
    let ghost t = views_of(segs@);
    let mut r: Vec<Vec<char>> = Vec::new();
    let mut k: usize = 0;
    proof {
        assert(t.skip(0) =~= t);
        assert(views_of(r@) + nonempty_segments(t) =~= nonempty_segments(t));
    }
    while k < segs.len()
        invariant
            k <= segs@.len(),
            t == views_of(segs@),
            nonempty_segments(t) == views_of(r@) + nonempty_segments(t.skip(k as int)),
        decreases segs.len() - k,
    {
        proof {
            assert(t.skip(k as int).drop_first() =~= t.skip(k as int + 1));
            assert(t.skip(k as int)[0] == segs@[k as int]@);
        }
        if segs[k].len() > 0 {
            let seg = copy_chars(&segs[k]);
            r.push(seg);
            proof {
                assert(views_of(r@) =~= views_of(r@.drop_last()) + seq![segs@[k as int]@]);
                assert(views_of(r@.drop_last()) + seq![segs@[k as int]@] + nonempty_segments(
                    t.skip(k as int + 1),
                ) =~= views_of(r@.drop_last()) + (seq![segs@[k as int]@] + nonempty_segments(
                    t.skip(k as int + 1),
                )));
            }
        }
        k = k + 1;
    }
    proof {
        assert(t.skip(k as int) =~= Seq::<Seq<char>>::empty());
        assert(views_of(r@) + nonempty_segments(t.skip(k as int)) =~= views_of(r@));
    }
    r
}

/// `join_underscores` of a sequence extended by one segment.
proof fn lemma_join_push(t: Seq<Seq<char>>, x: Seq<char>)
    ensures
        join_underscores(t.push(x)) == if t.len() == 0 {
            x
        } else {
            join_underscores(t) + seq!['_'] + x
        },
    decreases t.len(),
{
    if t.len() == 0 {
        assert(t.push(x)[0] == x);
    } else {
        lemma_join_push(t.drop_first(), x);
        assert(t.push(x).drop_first() =~= t.drop_first().push(x));
        assert(t.push(x)[0] == t[0]);
        if t.len() == 1 {
            assert(join_underscores(t.push(x)) == t[0] + seq!['_'] + x);
        }
    }
}

/// Joins segments with single underscores.
fn join_with_underscore(segs: &Vec<Vec<char>>) -> (r: Vec<char>)
    ensures
        r@ == join_underscores(views_of(segs@)),
{
    let ghost t = views_of(segs@);
    let mut r: Vec<char> = Vec::new();
    let mut k: usize = 0;
    proof {
        assert(t.take(0) =~= Seq::<Seq<char>>::empty());
    }
    while k < segs.len()
        invariant
            k <= segs@.len(),
            t == views_of(segs@),
            r@ == join_underscores(t.take(k as int)),
        decreases segs.len() - k,
    {
        if k > 0 {
            r.push('_');
        }
        crate::text::push_all(&mut r, &segs[k]);
        proof {
            lemma_join_push(t.take(k as int), t[k as int]);
            assert(t.take(k as int + 1) =~= t.take(k as int).push(t[k as int]));
            if k == 0 {
                assert(r@ =~= t[0]);
            } else {
                assert(r@ =~= join_underscores(t.take(k as int)) + seq!['_'] + t[k as int]);
            }
        }
        k = k + 1;
    }
    proof {
        assert(t.take(k as int) =~= t);
    }
    r
}

/// Collapses runs of underscores and strips them at the ends.
fn collapse_underscores(s: &Vec<char>) -> (r: Vec<char>)
    ensures
        r@ == spec_collapse(s@),
{
    let segs = split_from(s, 0, '_');
    proof {
        assert(s@.skip(0) =~= s@);
    }
    let kept = keep_nonempty(&segs);
    join_with_underscore(&kept)
}

/// Normalizes one raw header string into a JSON-safe key.
///
/// The trimmed header is first checked against the fixed single-symbol table;
/// any other header is lower-cased, run through the replacement chain, and
/// has its underscore runs collapsed. Normalization never fails, and an
/// all-whitespace header normalizes to the empty string.
pub fn normalize_column_name(name: &str) -> (r: String)
    ensures
        r@ == spec_normalize(name@),
        spec_trim(name@).len() == 0 ==> r@.len() == 0,
{
    let chars = str_to_chars(name);
    let trimmed = trim_chars(&chars);
    if trimmed.len() == 1 {
        let c = trimmed[0];
        proof {
            assert(trimmed@ =~= seq![trimmed@[0]]);
        }
        if c == '#' {
            let w = String::from_str("number");
            proof {
                reveal_strlit("number");
                assert(w@ =~= seq!['n', 'u', 'm', 'b', 'e', 'r']);
            }
            return w;
        }
        if c == '@' {
            let w = String::from_str("at");
            proof {
                reveal_strlit("at");
                assert(w@ =~= seq!['a', 't']);
            }
            return w;
        }
        if c == '%' {
            let w = String::from_str("percent");
            proof {
                reveal_strlit("percent");
                assert(w@ =~= seq!['p', 'e', 'r', 'c', 'e', 'n', 't']);
            }
            return w;
        }
        if c == '$' {
            let w = String::from_str("usd");
            proof {
                reveal_strlit("usd");
                assert(w@ =~= seq!['u', 's', 'd']);
            }
            return w;
        }
        if c == '/' {
            let w = String::from_str("slash");
            proof {
                reveal_strlit("slash");
                assert(w@ =~= seq!['s', 'l', 'a', 's', 'h']);
            }
            return w;
        }
        if c == '&' {
            let w = String::from_str("and");
            proof {
                reveal_strlit("and");
                assert(w@ =~= seq!['a', 'n', 'd']);
            }
            return w;
        }
    }
    let trimmed_str = chars_to_string(&trimmed);
    let lowered = lowercase(&trimmed_str);
    let lowered_chars = str_to_chars(&lowered);
    let replaced = apply_replacements(&lowered_chars);
    let collapsed = collapse_underscores(&replaced);
    proof {
        if spec_trim(name@).len() == 0 {
            assert(lowered_chars@ =~= Seq::<char>::empty());
            let rep = spec_replacements(lowered_chars@);
            assert(rep =~= Seq::<char>::empty());
            assert(split_char(rep, '_') =~= seq![Seq::<char>::empty()]);
            assert(seq![Seq::<char>::empty()].drop_first() =~= Seq::<Seq<char>>::empty());
            assert(nonempty_segments(Seq::<Seq<char>>::empty()) =~= Seq::<Seq<char>>::empty());
            assert(nonempty_segments(split_char(rep, '_')) =~= Seq::<Seq<char>>::empty());
        }
    }
    chars_to_string(&collapsed)
}

/// Whether `c` does not occur in `s`.
pub open spec fn no_char(s: Seq<char>, c: char) -> bool {
    forall|i: int| 0 <= i < s.len() ==> s[i] != c
}

/// Whether `s` holds none of the characters the replacement chain rewrites.
pub open spec fn replaced_free(s: Seq<char>) -> bool {
    no_char(s, ' ') && no_char(s, '&') && no_char(s, '/') && no_char(s, '@') && no_char(s, '#')
        && no_char(s, '%') && no_char(s, '$') && no_char(s, '(') && no_char(s, ')')
}

/// Replacement keeps a character absent when the replacement text lacks it.
proof fn lemma_replace_all_no_char(s: Seq<char>, pat: Seq<char>, to: Seq<char>, c: char)
    requires
        no_char(s, c),
        no_char(to, c),
    ensures
        no_char(replace_all(s, pat, to), c),
    decreases s.len(),
{
    if pat.len() == 0 || s.len() < pat.len() {
    } else if s.take(pat.len() as int) == pat {
        assert(no_char(s.skip(pat.len() as int), c));
        lemma_replace_all_no_char(s.skip(pat.len() as int), pat, to, c);
        let rec = replace_all(s.skip(pat.len() as int), pat, to);
        assert forall|i: int| 0 <= i < (to + rec).len() implies (to + rec)[i] != c by {
            if i < to.len() {
                assert((to + rec)[i] == to[i]);
            } else {
                assert((to + rec)[i] == rec[i - to.len()]);
            }
        }
    } else {
        assert(no_char(s.drop_first(), c));
        lemma_replace_all_no_char(s.drop_first(), pat, to, c);
        let rec = replace_all(s.drop_first(), pat, to);
        assert forall|i: int| 0 <= i < (seq![s[0]] + rec).len() implies (seq![s[0]] + rec)[i]
            != c by {
            if i >= 1 {
                assert((seq![s[0]] + rec)[i] == rec[i - 1]);
            }
        }
    }
}

/// Replacing a single character removes it when the replacement text lacks it.
proof fn lemma_replace_char_removes(s: Seq<char>, c: char, to: Seq<char>)
    requires
        no_char(to, c),
    ensures
        no_char(replace_all(s, seq![c], to), c),
    decreases s.len(),
{
    let pat = seq![c];
    if s.len() < 1 {
    } else if s.take(1) == pat {
        lemma_replace_char_removes(s.skip(1), c, to);
        let rec = replace_all(s.skip(1), pat, to);
        assert forall|i: int| 0 <= i < (to + rec).len() implies (to + rec)[i] != c by {
            if i < to.len() {
                assert((to + rec)[i] == to[i]);
            } else {
                assert((to + rec)[i] == rec[i - to.len()]);
            }
        }
    } else {
        assert(s.take(1) =~= seq![s[0]]);
        assert(s[0] != c);
        lemma_replace_char_removes(s.drop_first(), c, to);
        let rec = replace_all(s.drop_first(), pat, to);
        assert forall|i: int| 0 <= i < (seq![s[0]] + rec).len() implies (seq![s[0]] + rec)[i]
            != c by {
            if i >= 1 {
                assert((seq![s[0]] + rec)[i] == rec[i - 1]);
            }
        }
    }
}

/// Replacement changes nothing when some pattern character is absent.
proof fn lemma_replace_all_absent_id(s: Seq<char>, pat: Seq<char>, to: Seq<char>, k: int)
    requires
        0 <= k < pat.len(),
        no_char(s, pat[k]),
    ensures
        replace_all(s, pat, to) == s,
    decreases s.len(),
{
    if pat.len() == 0 || s.len() < pat.len() {
    } else if s.take(pat.len() as int) == pat {
        assert(s.take(pat.len() as int)[k] == s[k]);
        assert(false);
    } else {
        assert(no_char(s.drop_first(), pat[k]));
        lemma_replace_all_absent_id(s.drop_first(), pat, to, k);
        assert(seq![s[0]] + s.drop_first() =~= s);
    }
}

/// After the replacement chain no replaced character remains.
proof fn lemma_replacements_clean(s: Seq<char>)
    ensures
        replaced_free(spec_replacements(s)),
{
    let to_and = seq!['_', 'a', 'n', 'd', '_'];
    let to_us = seq!['_'];
    let to_at = seq!['_', 'a', 't', '_'];
    let to_pc = seq!['_', 'p', 'e', 'r', 'c', 'e', 'n', 't'];
    let to_usd = seq!['_', 'u', 's', 'd'];
    let to_e = Seq::<char>::empty();
    let s1 = replace_all(s, seq![' ', '&', ' '], to_and);
    let s2 = replace_all(s1, seq!['&'], to_and);
    let s3 = replace_all(s2, seq!['/'], to_us);
    let s4 = replace_all(s3, seq!['@'], to_at);
    let s5 = replace_all(s4, seq!['#'], to_us);
    let s6 = replace_all(s5, seq!['%'], to_pc);
    let s7 = replace_all(s6, seq!['$'], to_usd);
    let s8 = replace_all(s7, seq!['('], to_e);
    let s9 = replace_all(s8, seq![')'], to_e);
    let s10 = replace_all(s9, seq![' '], to_us);
    lemma_replace_char_removes(s1, '&', to_and);
    lemma_replace_char_removes(s2, '/', to_us);
    lemma_replace_all_no_char(s2, seq!['/'], to_us, '&');
    lemma_replace_char_removes(s3, '@', to_at);
    lemma_replace_all_no_char(s3, seq!['@'], to_at, '&');
    lemma_replace_all_no_char(s3, seq!['@'], to_at, '/');
    lemma_replace_char_removes(s4, '#', to_us);
    lemma_replace_all_no_char(s4, seq!['#'], to_us, '&');
    lemma_replace_all_no_char(s4, seq!['#'], to_us, '/');
    lemma_replace_all_no_char(s4, seq!['#'], to_us, '@');
    lemma_replace_char_removes(s5, '%', to_pc);
    lemma_replace_all_no_char(s5, seq!['%'], to_pc, '&');
    lemma_replace_all_no_char(s5, seq!['%'], to_pc, '/');
    lemma_replace_all_no_char(s5, seq!['%'], to_pc, '@');
    lemma_replace_all_no_char(s5, seq!['%'], to_pc, '#');
    lemma_replace_char_removes(s6, '$', to_usd);
    lemma_replace_all_no_char(s6, seq!['$'], to_usd, '&');
    lemma_replace_all_no_char(s6, seq!['$'], to_usd, '/');
    lemma_replace_all_no_char(s6, seq!['$'], to_usd, '@');
    lemma_replace_all_no_char(s6, seq!['$'], to_usd, '#');
    lemma_replace_all_no_char(s6, seq!['$'], to_usd, '%');
    lemma_replace_char_removes(s7, '(', to_e);
    lemma_replace_all_no_char(s7, seq!['('], to_e, '&');
    lemma_replace_all_no_char(s7, seq!['('], to_e, '/');
    lemma_replace_all_no_char(s7, seq!['('], to_e, '@');
    lemma_replace_all_no_char(s7, seq!['('], to_e, '#');
    lemma_replace_all_no_char(s7, seq!['('], to_e, '%');
    lemma_replace_all_no_char(s7, seq!['('], to_e, '$');
    lemma_replace_char_removes(s8, ')', to_e);
    lemma_replace_all_no_char(s8, seq![')'], to_e, '&');
    lemma_replace_all_no_char(s8, seq![')'], to_e, '/');
    lemma_replace_all_no_char(s8, seq![')'], to_e, '@');
    lemma_replace_all_no_char(s8, seq![')'], to_e, '#');
    lemma_replace_all_no_char(s8, seq![')'], to_e, '%');
    lemma_replace_all_no_char(s8, seq![')'], to_e, '$');
    lemma_replace_all_no_char(s8, seq![')'], to_e, '(');
    lemma_replace_char_removes(s9, ' ', to_us);
    lemma_replace_all_no_char(s9, seq![' '], to_us, '&');
    lemma_replace_all_no_char(s9, seq![' '], to_us, '/');
    lemma_replace_all_no_char(s9, seq![' '], to_us, '@');
    lemma_replace_all_no_char(s9, seq![' '], to_us, '#');
    lemma_replace_all_no_char(s9, seq![' '], to_us, '%');
    lemma_replace_all_no_char(s9, seq![' '], to_us, '$');
    lemma_replace_all_no_char(s9, seq![' '], to_us, '(');
    lemma_replace_all_no_char(s9, seq![' '], to_us, ')');
    assert(spec_replacements(s) == s10);
}

/// The segments of a split never hold the separator.
proof fn lemma_split_segments_no_sep(s: Seq<char>, sep: char)
    ensures
        forall|k: int|
            0 <= k < split_char(s, sep).len() ==> no_char(#[trigger] split_char(s, sep)[k], sep),
    decreases s.len(),
{
    if s.len() == 0 {
    } else if s[0] == sep {
        lemma_split_segments_no_sep(s.drop_first(), sep);
        let rest = split_char(s.drop_first(), sep);
        let whole = split_char(s, sep);
        assert forall|k: int| 0 <= k < whole.len() implies no_char(#[trigger] whole[k], sep) by {
            if k >= 1 {
                assert(whole[k] == rest[k - 1]);
            }
        }
    } else {
        lemma_split_segments_no_sep(s.drop_first(), sep);
        crate::text::lemma_split_char_len(s.drop_first(), sep);
        let rest = split_char(s.drop_first(), sep);
        let whole = split_char(s, sep);
        assert forall|k: int| 0 <= k < whole.len() implies no_char(#[trigger] whole[k], sep) by {
            if k == 0 {
                let head = seq![s[0]] + rest[0];
                assert(no_char(rest[0], sep));
                assert forall|i: int| 0 <= i < head.len() implies head[i] != sep by {
                    if i >= 1 {
                        assert(head[i] == rest[0][i - 1]);
                    }
                }
            } else {
                assert(whole[k] == rest[k]);
            }
        }
    }
}

/// Splitting keeps any absent character absent from every segment.
proof fn lemma_split_no_char(s: Seq<char>, sep: char, c: char)
    requires
        no_char(s, c),
    ensures
        forall|k: int|
            0 <= k < split_char(s, sep).len() ==> no_char(#[trigger] split_char(s, sep)[k], c),
    decreases s.len(),
{
    if s.len() == 0 {
    } else {
        assert(no_char(s.drop_first(), c));
        lemma_split_no_char(s.drop_first(), sep, c);
        let rest = split_char(s.drop_first(), sep);
        let whole = split_char(s, sep);
        if s[0] == sep {
            assert forall|k: int| 0 <= k < whole.len() implies no_char(#[trigger] whole[k], c) by {
                if k >= 1 {
                    assert(whole[k] == rest[k - 1]);
                }
            }
        } else {
            crate::text::lemma_split_char_len(s.drop_first(), sep);
            assert forall|k: int| 0 <= k < whole.len() implies no_char(#[trigger] whole[k], c) by {
                if k == 0 {
                    let head = seq![s[0]] + rest[0];
                    assert(no_char(rest[0], c));
                    assert forall|i: int| 0 <= i < head.len() implies head[i] != c by {
                        if i >= 1 {
                            assert(head[i] == rest[0][i - 1]);
                        }
                    }
                } else {
                    assert(whole[k] == rest[k]);
                }
            }
        }
    }
}

/// Dropping empty segments keeps any property every segment has.
proof fn lemma_nonempty_preserves(segs: Seq<Seq<char>>, p: spec_fn(Seq<char>) -> bool)
    requires
        forall|k: int| 0 <= k < segs.len() ==> p(#[trigger] segs[k]),
    ensures
        forall|k: int|
            0 <= k < nonempty_segments(segs).len() ==> p(#[trigger] nonempty_segments(segs)[k]),
    decreases segs.len(),
{
    if segs.len() > 0 {
        assert(forall|k: int|
            0 <= k < segs.drop_first().len() ==> p(#[trigger] segs.drop_first()[k]));
        lemma_nonempty_preserves(segs.drop_first(), p);
        let rest = nonempty_segments(segs.drop_first());
        let whole = nonempty_segments(segs);
        if segs[0].len() > 0 {
            assert forall|k: int| 0 <= k < whole.len() implies p(#[trigger] whole[k]) by {
                if k == 0 {
                    assert(whole[0] == segs[0]);
                } else {
                    assert(whole[k] == rest[k - 1]);
                }
            }
        }
    }
}

/// Every kept segment is non-empty.
proof fn lemma_nonempty_segments_nonempty(segs: Seq<Seq<char>>)
    ensures
        forall|k: int|
            0 <= k < nonempty_segments(segs).len() ==> (#[trigger] nonempty_segments(segs)[k]).len()
                > 0,
    decreases segs.len(),
{
    if segs.len() > 0 {
        lemma_nonempty_segments_nonempty(segs.drop_first());
        let rest = nonempty_segments(segs.drop_first());
        let whole = nonempty_segments(segs);
        if segs[0].len() > 0 {
            assert forall|k: int| 0 <= k < whole.len() implies (#[trigger] whole[k]).len() > 0 by {
                if k == 0 {
                    assert(whole[0] == segs[0]);
                } else {
                    assert(whole[k] == rest[k - 1]);
                }
            }
        }
    }
}

/// Dropping empty segments changes nothing when none is empty.
proof fn lemma_nonempty_id(segs: Seq<Seq<char>>)
    requires
        forall|k: int| 0 <= k < segs.len() ==> (#[trigger] segs[k]).len() > 0,
    ensures
        nonempty_segments(segs) == segs,
    decreases segs.len(),
{
    if segs.len() > 0 {
        assert(forall|k: int|
            0 <= k < segs.drop_first().len() ==> (#[trigger] segs.drop_first()[k]).len() > 0);
        lemma_nonempty_id(segs.drop_first());
        assert(seq![segs[0]] + segs.drop_first() =~= segs);
    }
}

/// Joining keeps any absent character other than the separator absent.
proof fn lemma_join_no_char(segs: Seq<Seq<char>>, c: char)
    requires
        c != '_',
        forall|k: int| 0 <= k < segs.len() ==> no_char(#[trigger] segs[k], c),
    ensures
        no_char(join_underscores(segs), c),
    decreases segs.len(),
{
    if segs.len() <= 1 {
    } else {
        assert(forall|k: int|
            0 <= k < segs.drop_first().len() ==> no_char(#[trigger] segs.drop_first()[k], c));
        lemma_join_no_char(segs.drop_first(), c);
        let rest = join_underscores(segs.drop_first());
        let whole = segs[0] + seq!['_'] + rest;
        assert forall|i: int| 0 <= i < whole.len() implies whole[i] != c by {
            if i < segs[0].len() {
                assert(whole[i] == segs[0][i]);
            } else if i == segs[0].len() {
                assert(whole[i] == '_');
            } else {
                assert(whole[i] == rest[i - segs[0].len() - 1]);
            }
        }
    }
}

/// A separator-free sequence splits into itself alone.
proof fn lemma_split_single(seg: Seq<char>, sep: char)
    requires
        no_char(seg, sep),
    ensures
        split_char(seg, sep) == seq![seg],
    decreases seg.len(),
{
    if seg.len() == 0 {
        assert(seg =~= Seq::<char>::empty());
        assert(split_char(seg, sep) =~= seq![seg]);
    } else {
        assert(no_char(seg.drop_first(), sep));
        lemma_split_single(seg.drop_first(), sep);
        let rest = split_char(seg.drop_first(), sep);
        assert(rest == seq![seg.drop_first()]);
        assert(seq![seg[0]] + rest[0] =~= seg);
        assert(split_char(seg, sep) =~= seq![seg]);
    }
}

/// Splitting after a separator-free prefix peels the prefix off.
proof fn lemma_split_prefix(seg: Seq<char>, t: Seq<char>, sep: char)
    requires
        no_char(seg, sep),
    ensures
        split_char(seg + seq![sep] + t, sep) == seq![seg] + split_char(t, sep),
    decreases seg.len(),
{
    let w = seg + seq![sep] + t;
    if seg.len() == 0 {
        assert(seg =~= Seq::<char>::empty());
        assert(w[0] == sep);
        assert(w.drop_first() =~= t);
        assert(split_char(w, sep) =~= seq![seg] + split_char(t, sep));
    } else {
        assert(w[0] == seg[0]);
        assert(w.drop_first() =~= seg.drop_first() + seq![sep] + t);
        assert(no_char(seg.drop_first(), sep));
        lemma_split_prefix(seg.drop_first(), t, sep);
        let rest = split_char(w.drop_first(), sep);
        assert(rest == seq![seg.drop_first()] + split_char(t, sep));
        assert(rest[0] == seg.drop_first());
        assert(seq![w[0]] + rest[0] =~= seg);
        assert(rest.drop_first() =~= split_char(t, sep));
        assert(split_char(w, sep) =~= seq![seg] + split_char(t, sep));
    }
}

/// Splitting a join of non-empty separator-free segments restores them.
proof fn lemma_split_join(segs: Seq<Seq<char>>)
    requires
        segs.len() >= 1,
        forall|k: int| 0 <= k < segs.len() ==> (#[trigger] segs[k]).len() > 0,
        forall|k: int| 0 <= k < segs.len() ==> no_char(#[trigger] segs[k], '_'),
    ensures
        split_char(join_underscores(segs), '_') == segs,
    decreases segs.len(),
{
    if segs.len() == 1 {
        lemma_split_single(segs[0], '_');
        assert(split_char(join_underscores(segs), '_') =~= segs);
    } else {
        assert(forall|k: int|
            0 <= k < segs.drop_first().len() ==> (#[trigger] segs.drop_first()[k]).len() > 0);
        assert(forall|k: int|
            0 <= k < segs.drop_first().len() ==> no_char(#[trigger] segs.drop_first()[k], '_'));
        lemma_split_join(segs.drop_first());
        let rest = join_underscores(segs.drop_first());
        lemma_split_prefix(segs[0], rest, '_');
        assert(split_char(segs[0] + seq!['_'] + rest, '_') == seq![segs[0]] + segs.drop_first());
        assert(seq![segs[0]] + segs.drop_first() =~= segs);
    }
}

/// Collapsing underscores is idempotent.
proof fn lemma_collapse_idempotent(s: Seq<char>)
    ensures
        spec_collapse(spec_collapse(s)) == spec_collapse(s),
{
    let segs0 = split_char(s, '_');
    let segs = nonempty_segments(segs0);
    lemma_split_segments_no_sep(s, '_');
    lemma_nonempty_preserves(segs0, |seg: Seq<char>| no_char(seg, '_'));
    lemma_nonempty_segments_nonempty(segs0);
    let r = join_underscores(segs);
    if segs.len() == 0 {
        assert(r =~= Seq::<char>::empty());
        assert(split_char(r, '_') =~= seq![Seq::<char>::empty()]);
        assert(seq![Seq::<char>::empty()].drop_first() =~= Seq::<Seq<char>>::empty());
        assert(nonempty_segments(Seq::<Seq<char>>::empty()) =~= Seq::<Seq<char>>::empty());
        assert(nonempty_segments(split_char(r, '_')) =~= Seq::<Seq<char>>::empty());
        assert(spec_collapse(r) == r);
    } else {
        lemma_split_join(segs);
        lemma_nonempty_id(segs);
        assert(spec_collapse(r) == r);
    }
}

/// Law: the rewriting stage of normalization is idempotent. Once a header
/// has been through the replacement chain and underscore collapse, running
/// that cleanup again changes nothing; an already-normalized key such as
/// `first_name` therefore stays itself. The full normalization also trims
/// and lower-cases, which this law does not cover: those two steps are not
/// fixed on every cleanup output (a header whose first segment starts with
/// a non-space whitespace character can shrink again on a second pass).
pub proof fn lemma_cleanup_idempotent(s: Seq<char>)
    ensures
        spec_cleanup(spec_cleanup(s)) == spec_cleanup(s),
{
    lemma_replacements_clean(s);
    let rep = spec_replacements(s);
    let col = spec_collapse(rep);
    let segs0 = split_char(rep, '_');
    lemma_split_no_char(rep, '_', ' ');
    lemma_split_no_char(rep, '_', '&');
    lemma_split_no_char(rep, '_', '/');
    lemma_split_no_char(rep, '_', '@');
    lemma_split_no_char(rep, '_', '#');
    lemma_split_no_char(rep, '_', '%');
    lemma_split_no_char(rep, '_', '$');
    lemma_split_no_char(rep, '_', '(');
    lemma_split_no_char(rep, '_', ')');
    lemma_nonempty_preserves(segs0, |seg: Seq<char>| no_char(seg, ' '));
    lemma_nonempty_preserves(segs0, |seg: Seq<char>| no_char(seg, '&'));
    lemma_nonempty_preserves(segs0, |seg: Seq<char>| no_char(seg, '/'));
    lemma_nonempty_preserves(segs0, |seg: Seq<char>| no_char(seg, '@'));
    lemma_nonempty_preserves(segs0, |seg: Seq<char>| no_char(seg, '#'));
    lemma_nonempty_preserves(segs0, |seg: Seq<char>| no_char(seg, '%'));
    lemma_nonempty_preserves(segs0, |seg: Seq<char>| no_char(seg, '$'));
    lemma_nonempty_preserves(segs0, |seg: Seq<char>| no_char(seg, '('));
    lemma_nonempty_preserves(segs0, |seg: Seq<char>| no_char(seg, ')'));
    let segs = nonempty_segments(segs0);
    lemma_join_no_char(segs, ' ');
    lemma_join_no_char(segs, '&');
    lemma_join_no_char(segs, '/');
    lemma_join_no_char(segs, '@');
    lemma_join_no_char(segs, '#');
    lemma_join_no_char(segs, '%');
    lemma_join_no_char(segs, '$');
    lemma_join_no_char(segs, '(');
    lemma_join_no_char(segs, ')');
    assert(replaced_free(col));
    let to_and = seq!['_', 'a', 'n', 'd', '_'];
    let to_us = seq!['_'];
    lemma_replace_all_absent_id(col, seq![' ', '&', ' '], to_and, 0);
    lemma_replace_all_absent_id(col, seq!['&'], to_and, 0);
    lemma_replace_all_absent_id(col, seq!['/'], to_us, 0);
    lemma_replace_all_absent_id(col, seq!['@'], seq!['_', 'a', 't', '_'], 0);
    lemma_replace_all_absent_id(col, seq!['#'], to_us, 0);
    lemma_replace_all_absent_id(col, seq!['%'], seq!['_', 'p', 'e', 'r', 'c', 'e', 'n', 't'], 0);
    lemma_replace_all_absent_id(col, seq!['$'], seq!['_', 'u', 's', 'd'], 0);
    lemma_replace_all_absent_id(col, seq!['('], Seq::<char>::empty(), 0);
    lemma_replace_all_absent_id(col, seq![')'], Seq::<char>::empty(), 0);
    lemma_replace_all_absent_id(col, seq![' '], to_us, 0);
    assert(spec_replacements(col) == col);
    lemma_collapse_idempotent(rep);
}

} // verus!
