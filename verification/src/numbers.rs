//! Base-ten reading and writing of column ordinals.

use vstd::prelude::*;

verus! {

/// Whether `c` is an ASCII decimal digit.
pub open spec fn is_digit_char(c: char) -> bool {
    48 <= c as u32 && c as u32 <= 57
}

/// The value of one decimal digit character.
pub open spec fn digit_val(c: char) -> int {
    c as u32 - 48
}

/// The value of a digit string read in base ten.
pub open spec fn digits_value(s: Seq<char>) -> int
    decreases s.len(),
{
    if s.len() == 0 {
        0
    } else {
        digits_value(s.drop_last()) * 10 + digit_val(s.last())
    }
}

/// `s` with one optional leading `+` sign stripped.
pub open spec fn strip_plus(s: Seq<char>) -> Seq<char> {
    if s.len() > 0 && s[0] == '+' {
        s.drop_first()
    } else {
        s
    }
}

/// Whether every character of `s` is a decimal digit.
pub open spec fn all_digits(s: Seq<char>) -> bool {
    forall|i: int| 0 <= i < s.len() ==> is_digit_char(s[i])
}

/// Whether `s` is what `usize` parsing accepts: an optional `+` sign, then
/// one or more decimal digits, with a value that fits in `usize`.
pub open spec fn is_number_token(s: Seq<char>) -> bool {
    strip_plus(s).len() > 0 && all_digits(strip_plus(s)) && digits_value(strip_plus(s))
        <= usize::MAX as int
}

/// The value of a digit string is never negative.
pub proof fn lemma_digits_value_nonneg(s: Seq<char>)
    requires
        all_digits(s),
    ensures
        digits_value(s) >= 0,
    decreases s.len(),
{
    if s.len() > 0 {
        assert(all_digits(s.drop_last()));
        lemma_digits_value_nonneg(s.drop_last());
    }
}

/// A digit string is worth at least any of its prefixes.
pub proof fn lemma_digits_prefix_le(s: Seq<char>, n: int)
    requires
        0 <= n <= s.len(),
        all_digits(s),
    ensures
        digits_value(s.take(n)) <= digits_value(s),
    decreases s.len() - n,
{
    if n == s.len() {
        assert(s.take(n) =~= s);
    } else {
        assert(s.take(n + 1).drop_last() =~= s.take(n));
        assert(s.take(n + 1).last() == s[n]);
        assert(all_digits(s.take(n)));
        lemma_digits_value_nonneg(s.take(n));
        assert(digits_value(s.take(n)) <= digits_value(s.take(n + 1)));
        lemma_digits_prefix_le(s, n + 1);
    }
}

/// Reads a token as a non-negative integer, as `usize` parsing does: an
/// optional `+`, then decimal digits; anything else, or a value over
/// `usize::MAX`, is rejected.
pub fn parse_usize_token(t: &Vec<char>) -> (r: Option<usize>)
    ensures
        match r {
            Some(v) => is_number_token(t@) && v as int == digits_value(strip_plus(t@)),
            None => !is_number_token(t@),
        },
{
    let ghost b = strip_plus(t@);
    let mut start: usize = 0;
    if t.len() > 0 && t[0] == '+' {
        start = 1;
    }
    proof {
        assert(b =~= t@.skip(start as int));
    }
    if start == t.len() {
        return None;
    }
    let n: usize = t.len();
    let mut v: usize = 0;
    let mut i: usize = start;
    proof {
        assert(b.take(0) =~= Seq::<char>::empty());
    }
    while i < n
        invariant
            n == t@.len(),
            start <= i <= n,
            b == strip_plus(t@),
            b == t@.skip(start as int),
            b.len() == n - start,
            forall|k: int| 0 <= k < i - start ==> is_digit_char(b[k]),
            v as int == digits_value(b.take(i - start)),
        decreases n - i,
    {
        let c = t[i];
        let u = c as u32;
        proof {
            assert(b == strip_plus(t@));
            assert(b[i - start] == t@[i as int]);
        }
        if !(48 <= u && u <= 57) {
            proof {
                assert(!is_digit_char(strip_plus(t@)[i - start]));
                assert(!all_digits(strip_plus(t@)));
            }
            return None;
        }
        let d: u32 = u - 48;
        let ghost prev = b.take(i - start);
        proof {
            assert(b.take(i - start + 1).drop_last() =~= prev);
            assert(b.take(i - start + 1).last() == b[i - start]);
        }
        if v > (usize::MAX - d as usize) / 10 {
            proof {
                assert(digits_value(b.take(i - start + 1)) == v as int * 10 + d as int);
                assert(v as int * 10 + d as int > usize::MAX as int) by (nonlinear_arith)
                    requires
                        v as int > (usize::MAX as int - d as int) / 10,
                        0 <= d as int <= 9,
                ;
                if is_number_token(t@) {
                    assert(all_digits(b));
                    lemma_digits_prefix_le(b, i - start + 1);
                }
            }
            return None;
        }
        let vnew: usize = v * 10 + (d as usize);
        proof {
            assert(vnew as int == digits_value(b.take(i - start + 1)));
        }
        v = vnew;
        i = i + 1;
    }
    proof {
        assert(b.take(b.len() as int) =~= b);
    }
    Some(v)
}

/// The decimal digit character for `d`.
pub open spec fn digit_char_of(d: int) -> char {
    if d == 0 {
        '0'
    } else if d == 1 {
        '1'
    } else if d == 2 {
        '2'
    } else if d == 3 {
        '3'
    } else if d == 4 {
        '4'
    } else if d == 5 {
        '5'
    } else if d == 6 {
        '6'
    } else if d == 7 {
        '7'
    } else if d == 8 {
        '8'
    } else {
        '9'
    }
}

/// The decimal digit characters of `n`, most significant first.
pub open spec fn dec_digits(n: nat) -> Seq<char>
    decreases n,
{
    if n < 10 {
        seq![digit_char_of(n as int)]
    } else {
        dec_digits(n / 10).push(digit_char_of((n % 10) as int))
    }
}

/// One decimal digit as a character.
fn digit_char(d: usize) -> (c: char)
    requires
        d < 10,
    ensures
        c == digit_char_of(d as int),
{
    if d == 0 {
        '0'
    } else if d == 1 {
        '1'
    } else if d == 2 {
        '2'
    } else if d == 3 {
        '3'
    } else if d == 4 {
        '4'
    } else if d == 5 {
        '5'
    } else if d == 6 {
        '6'
    } else if d == 7 {
        '7'
    } else if d == 8 {
        '8'
    } else {
        '9'
    }
}

/// Writes `n` in base ten.
pub fn render_usize(n: usize) -> (r: Vec<char>)
    ensures
        r@ == dec_digits(n as nat),
    decreases n,
{
    if n < 10 {
        let mut r: Vec<char> = Vec::new();
        r.push(digit_char(n));
        proof {
            assert(r@ =~= seq![digit_char_of(n as int)]);
        }
        r
    } else {
        let mut r = render_usize(n / 10);
        r.push(digit_char(n % 10));
        r
    }
}

} // verus!
