//! Facts about the character-level spec functions of `text`: what each
//! splitter gives on text that was put together from known pieces, and that
//! decimal digits read back as the number they were written from. The laws
//! of the subtitle formats are proved from these.
use vstd::prelude::*;

use crate::text::{
    all_digits, back_ws, blank_split, blank_split_from, char_split, char_split_from, decimal,
    digit_char, digit_val, digits_value, find_arrow, find_char, is_digit, is_ws,
    lemma_back_ws_bounds, lemma_skip_ws_bounds, lines, lines_from, lines_text, nonblank_trimmed,
    normalize_newlines, parse_u32_spec, skip_ws, starts_with, strip_cr, trim, unsigned_digits,
    word_end, zero_padded,
};

verus! {

// ---------------------------------------------------------------------------
// Decimal digits
// ---------------------------------------------------------------------------

pub proof fn lemma_decimal_digits(n: nat)
    ensures
        all_digits(decimal(n)),
        digits_value(decimal(n)) == n,
        decimal(n).len() > 0,
    decreases n,
{
    if n < 10 {
        assert(decimal(n).drop_last() =~= Seq::<char>::empty());
        assert(digit_val(digit_char(n)) == n);
        assert(digits_value(decimal(n).drop_last()) == 0);
    } else {
        lemma_decimal_digits(n / 10);
        let d = decimal(n);
        assert(d.drop_last() =~= decimal(n / 10));
        assert(all_digits(d)) by {
            assert forall|i: int| 0 <= i < d.len() implies is_digit(#[trigger] d[i]) by {
                if i < d.len() - 1 {
                    assert(d[i] == decimal(n / 10)[i]);
                }
            }
        }
        assert(digit_val(digit_char(n % 10)) == n % 10);
        assert(n == (n / 10) * 10 + n % 10);
        assert(digits_value(d) == digits_value(decimal(n / 10)) * 10 + digit_val(d.last()));
    }
}

/// `k` zeros.
pub open spec fn zeros(k: nat) -> Seq<char> {
    Seq::new(k, |i: int| '0')
}

pub proof fn lemma_leading_zeros(k: nat, t: Seq<char>)
    requires
        all_digits(t),
    ensures
        all_digits(zeros(k) + t),
        digits_value(zeros(k) + t) == digits_value(t),
    decreases t.len(),
{
    let s = zeros(k) + t;
    assert(all_digits(s)) by {
        assert forall|i: int| 0 <= i < s.len() implies is_digit(#[trigger] s[i]) by {
            if i >= k {
                assert(s[i] == t[i - k]);
            }
        }
    }
    if t.len() == 0 {
        assert(s =~= zeros(k));
        lemma_zeros_value(k);
    } else {
        let t2 = t.drop_last();
        assert(all_digits(t2)) by {
            assert forall|i: int| 0 <= i < t2.len() implies is_digit(#[trigger] t2[i]) by {
                assert(t2[i] == t[i]);
            }
        }
        lemma_leading_zeros(k, t2);
        assert(s.drop_last() =~= zeros(k) + t2);
    }
}

pub proof fn lemma_zeros_value(k: nat)
    ensures
        digits_value(zeros(k)) == 0,
    decreases k,
{
    if k > 0 {
        assert(zeros(k).drop_last() =~= zeros((k - 1) as nat));
        lemma_zeros_value((k - 1) as nat);
    }
}

pub proof fn lemma_zero_padded(n: nat, w: nat)
    ensures
        all_digits(zero_padded(n, w)),
        digits_value(zero_padded(n, w)) == n,
        zero_padded(n, w).len() > 0,
        zero_padded(n, w).len() >= w,
{
    lemma_decimal_digits(n);
    let d = decimal(n);
    if d.len() < w {
        let k = (w - d.len()) as nat;
        assert(Seq::new(k, |i: int| '0') == zeros(k));
        lemma_leading_zeros(k, d);
    }
}

/// Digits without a sign read back as their value, when it fits.
pub proof fn lemma_parse_digits(s: Seq<char>)
    requires
        s.len() > 0,
        all_digits(s),
        digits_value(s) <= u32::MAX,
    ensures
        parse_u32_spec(s) == Some(digits_value(s) as u32),
{
    assert(is_digit(s[0]));
    assert(unsigned_digits(s) == s);
}

pub proof fn lemma_parse_zero_padded(n: u32, w: nat)
    ensures
        parse_u32_spec(zero_padded(n as nat, w)) == Some(n),
{
    lemma_zero_padded(n as nat, w);
    lemma_parse_digits(zero_padded(n as nat, w));
}


// ---------------------------------------------------------------------------
// Predicates on text
// ---------------------------------------------------------------------------

/// `c` occurs nowhere in `s`.
pub open spec fn lacks(s: Seq<char>, c: char) -> bool {
    forall|i: int| 0 <= i < s.len() ==> #[trigger] s[i] != c
}

/// Whether a blank-line separator `"\n\n"` starts at `i`.
pub open spec fn blank_at(s: Seq<char>, i: int) -> bool {
    s[i] == '\n' && s[i + 1] == '\n'
}

/// No `"\n\n"` anywhere in `s`.
pub open spec fn no_blank(s: Seq<char>) -> bool {
    forall|i: int| 0 <= i < s.len() - 1 ==> !#[trigger] blank_at(s, i)
}

/// No whitespace anywhere in `s`.
pub open spec fn no_ws(s: Seq<char>) -> bool {
    forall|i: int| 0 <= i < s.len() ==> !is_ws(#[trigger] s[i])
}

/// Only whitespace in `s`.
pub open spec fn all_ws(s: Seq<char>) -> bool {
    forall|i: int| 0 <= i < s.len() ==> is_ws(#[trigger] s[i])
}

/// `s` neither begins nor ends with whitespace, and is not empty.
pub open spec fn is_trimmed(s: Seq<char>) -> bool {
    s.len() > 0 && !is_ws(s[0]) && !is_ws(s.last())
}

/// `c` occurs in neither part, so not in the whole.
pub proof fn lemma_lacks_concat(a: Seq<char>, b: Seq<char>, c: char)
    requires
        lacks(a, c),
        lacks(b, c),
    ensures
        lacks(a + b, c),
{
    assert forall|i: int| 0 <= i < (a + b).len() implies #[trigger] (a + b)[i] != c by {
        if i < a.len() {
            assert((a + b)[i] == a[i]);
        } else {
            assert((a + b)[i] == b[i - a.len()]);
        }
    }
}

/// Digits are not whitespace and none of the separators the parsers look
/// for.
pub proof fn lemma_digits_plain(s: Seq<char>)
    requires
        all_digits(s),
    ensures
        no_ws(s),
        lacks(s, '\n'),
        lacks(s, '\r'),
        lacks(s, '-'),
        lacks(s, ':'),
        lacks(s, ','),
        lacks(s, '.'),
        lacks(s, '+'),
{
    assert forall|i: int| 0 <= i < s.len() implies !is_ws(#[trigger] s[i]) by {
        assert(is_digit(s[i]));
    }
    assert forall|i: int| 0 <= i < s.len() implies #[trigger] s[i] != '\n' && s[i] != '\r'
        && s[i] != '-' && s[i] != ':' && s[i] != ',' && s[i] != '.' && s[i] != '+' by {
        assert(is_digit(s[i]));
    }
}

// ---------------------------------------------------------------------------
// Trimming
// ---------------------------------------------------------------------------

pub proof fn lemma_skip_ws_to(s: Seq<char>, i: int, k: int, hi: int)
    requires
        0 <= i <= k < hi <= s.len(),
        forall|j: int| i <= j < k ==> is_ws(#[trigger] s[j]),
        !is_ws(s[k]),
    ensures
        skip_ws(s, i, hi) == k,
    decreases k - i,
{
    if i < k {
        lemma_skip_ws_to(s, i + 1, k, hi);
    }
}

pub proof fn lemma_back_ws_to(s: Seq<char>, lo: int, k: int, j: int)
    requires
        lo < k <= j <= s.len(),
        forall|m: int| k <= m < j ==> is_ws(#[trigger] s[m]),
        !is_ws(s[k - 1]),
    ensures
        back_ws(s, lo, j) == k,
    decreases j - k,
{
    if k < j {
        lemma_back_ws_to(s, lo, k, j - 1);
    }
}

/// Trimming whitespace around a trimmed text gives that text back.
pub proof fn lemma_trim_around(a: Seq<char>, s: Seq<char>, b: Seq<char>)
    requires
        all_ws(a),
        all_ws(b),
        is_trimmed(s),
    ensures
        trim(a + s + b) == s,
{
    let t = a + s + b;
    let n = t.len() as int;
    assert(t[a.len() as int] == s[0]);
    assert forall|j: int| 0 <= j < a.len() implies is_ws(#[trigger] t[j]) by {
        assert(t[j] == a[j]);
    }
    lemma_skip_ws_to(t, 0, a.len() as int, n);
    let e = (a.len() + s.len()) as int;
    assert(t[e - 1] == s.last());
    assert forall|m: int| e <= m < n implies is_ws(#[trigger] t[m]) by {
        assert(t[m] == b[m - e]);
    }
    lemma_back_ws_to(t, a.len() as int, e, n);
    assert(t.subrange(a.len() as int, e) =~= s);
}

pub proof fn lemma_trim_trimmed(s: Seq<char>)
    requires
        is_trimmed(s),
    ensures
        trim(s) == s,
{
    lemma_trim_around(seq![], s, seq![]);
    assert(Seq::<char>::empty() + s + Seq::<char>::empty() =~= s);
}

// ---------------------------------------------------------------------------
// Line endings
// ---------------------------------------------------------------------------

pub proof fn lemma_normalize_plain(s: Seq<char>)
    requires
        lacks(s, '\r'),
    ensures
        normalize_newlines(s) == s,
    decreases s.len(),
{
    if s.len() > 0 {
        assert(s[0] != '\r');
        let t = s.skip(1);
        assert forall|i: int| 0 <= i < t.len() implies #[trigger] t[i] != '\r' by {
            assert(t[i] == s[i + 1]);
        }
        lemma_normalize_plain(t);
        assert(seq![s[0]] + t =~= s);
    }
}

// ---------------------------------------------------------------------------
// Splitting at blank lines
// ---------------------------------------------------------------------------

/// What is split from a position on depends only on the text from there on.
pub proof fn lemma_blank_shift(a: Seq<char>, b: Seq<char>, p: int, q: int)
    requires
        0 <= p <= q <= b.len(),
    ensures
        blank_split_from(a + b, a.len() + p, a.len() + q) == blank_split_from(b, p, q),
    decreases b.len() - q,
{
    let s = a + b;
    let o = a.len() as int;
    if q + 1 >= b.len() {
        assert(s.subrange(o + p, s.len() as int) =~= b.subrange(p, b.len() as int));
    } else {
        assert(s[o + q] == b[q] && s[o + q + 1] == b[q + 1]);
        if b[q] == '\n' && b[q + 1] == '\n' {
            assert(s.subrange(o + p, o + q) =~= b.subrange(p, q));
            lemma_blank_shift(a, b, q + 2, q + 2);
        } else {
            lemma_blank_shift(a, b, p, q + 1);
        }
    }
}

pub proof fn lemma_blank_none_from(s: Seq<char>, p: int, q: int)
    requires
        0 <= p <= q <= s.len(),
        forall|i: int| q <= i < s.len() - 1 ==> !#[trigger] blank_at(s, i),
    ensures
        blank_split_from(s, p, q) == seq![s.subrange(p, s.len() as int)],
    decreases s.len() - q,
{
    if q + 1 < s.len() {
        assert(!blank_at(s, q));
        lemma_blank_none_from(s, p, q + 1);
    }
}

/// Text without a blank line is one piece.
pub proof fn lemma_blank_none(s: Seq<char>)
    requires
        no_blank(s),
    ensures
        blank_split(s) == seq![s],
{
    lemma_blank_none_from(s, 0, 0);
    assert(s.subrange(0, s.len() as int) =~= s);
}

pub proof fn lemma_blank_concat_from(l: Seq<char>, r: Seq<char>, p: int, q: int)
    requires
        0 <= p <= q <= l.len(),
        l.len() == 0 || l.last() != '\n',
    ensures
        blank_split_from(l + seq!['\n', '\n'] + r, p, q) == blank_split_from(l, p, q)
            + blank_split(r),
    decreases l.len() - q,
{
    let nn = seq!['\n', '\n'];
    let s = l + nn + r;
    let m = l.len() as int;
    assert(s[m] == '\n' && s[m + 1] == '\n');
    if q + 1 >= m {
        if q == m - 1 {
            assert(s[q] == l.last());
        }
        assert(blank_split_from(s, p, q) == seq![s.subrange(p, m)] + blank_split_from(
            s,
            m + 2,
            m + 2,
        )) by {
            if q == m - 1 {
                assert(blank_split_from(s, p, q) == blank_split_from(s, p, m));
            }
        }
        assert(s =~= (l + nn) + r);
        lemma_blank_shift(l + nn, r, 0, 0);
        assert(s.subrange(p, m) =~= l.subrange(p, m));
    } else {
        assert(s[q] == l[q] && s[q + 1] == l[q + 1]);
        if l[q] == '\n' && l[q + 1] == '\n' {
            assert(s.subrange(p, q) =~= l.subrange(p, q));
            lemma_blank_concat_from(l, r, q + 2, q + 2);
        } else {
            lemma_blank_concat_from(l, r, p, q + 1);
        }
    }
}

/// Splitting at a blank line that follows text not ending in a newline
/// splits the two sides on their own.
pub proof fn lemma_blank_concat(l: Seq<char>, r: Seq<char>)
    requires
        l.len() == 0 || l.last() != '\n',
    ensures
        blank_split(l + seq!['\n', '\n'] + r) == blank_split(l) + blank_split(r),
{
    lemma_blank_concat_from(l, r, 0, 0);
}

/// The pieces joined with blank lines between them.
pub open spec fn join_blank(ps: Seq<Seq<char>>) -> Seq<char>
    decreases ps.len(),
{
    if ps.len() <= 1 {
        if ps.len() == 1 {
            ps[0]
        } else {
            seq![]
        }
    } else {
        join_blank(ps.drop_last()) + seq!['\n', '\n'] + ps.last()
    }
}

/// Pieces without blank lines, all but the last not empty and not ending in
/// a newline, split back out of their join.
pub proof fn lemma_blank_join(ps: Seq<Seq<char>>)
    requires
        ps.len() > 0,
        forall|i: int| 0 <= i < ps.len() ==> no_blank(#[trigger] ps[i]),
        forall|i: int|
            0 <= i < ps.len() - 1 ==> (#[trigger] ps[i]).len() > 0 && ps[i].last() != '\n',
    ensures
        blank_split(join_blank(ps)) == ps,
    decreases ps.len(),
{
    if ps.len() == 1 {
        lemma_blank_none(ps[0]);
        assert(ps =~= seq![ps[0]]);
    } else {
        let init = ps.drop_last();
        assert forall|i: int| 0 <= i < init.len() implies no_blank(#[trigger] init[i]) by {
            assert(init[i] == ps[i]);
        }
        assert forall|i: int| 0 <= i < init.len() - 1 implies (#[trigger] init[i]).len() > 0
            && init[i].last() != '\n' by {
            assert(init[i] == ps[i]);
        }
        lemma_blank_join(init);
        let l = join_blank(init);
        lemma_join_blank_last(init);
        assert(ps[ps.len() - 2] == init.last());
        lemma_blank_concat(l, ps.last());
        lemma_blank_none(ps.last());
        assert(init + seq![ps.last()] =~= ps);
    }
}

pub proof fn lemma_join_blank_last(ps: Seq<Seq<char>>)
    requires
        ps.len() > 0,
        ps.last().len() > 0,
    ensures
        join_blank(ps).len() > 0,
        join_blank(ps).last() == ps.last().last(),
{
}

// ---------------------------------------------------------------------------
// Splitting into lines
// ---------------------------------------------------------------------------

pub proof fn lemma_lines_shift(a: Seq<char>, b: Seq<char>, p: int, q: int)
    requires
        0 <= p <= q <= b.len(),
    ensures
        lines_from(a + b, a.len() + p, a.len() + q) == lines_from(b, p, q),
    decreases b.len() - q,
{
    let s = a + b;
    let o = a.len() as int;
    if q >= b.len() {
        if p < b.len() {
            assert(s.subrange(o + p, s.len() as int) =~= b.subrange(p, b.len() as int));
        }
    } else {
        assert(s[o + q] == b[q]);
        if b[q] == '\n' {
            assert(s.subrange(o + p, o + q) =~= b.subrange(p, q));
            lemma_lines_shift(a, b, q + 1, q + 1);
        } else {
            lemma_lines_shift(a, b, p, q + 1);
        }
    }
}

pub proof fn lemma_lines_cons_from(a: Seq<char>, b: Seq<char>, p: int, q: int)
    requires
        0 <= p <= q <= a.len(),
        lacks(a, '\n'),
    ensures
        lines_from(a + seq!['\n'] + b, p, q) == seq![strip_cr(a.subrange(p, a.len() as int))]
            + lines(b),
    decreases a.len() - q,
{
    let s = a + seq!['\n'] + b;
    let m = a.len() as int;
    if q < m {
        assert(s[q] == a[q]);
        lemma_lines_cons_from(a, b, p, q + 1);
    } else {
        assert(s[m] == '\n');
        assert(s.subrange(p, m) =~= a.subrange(p, m));
        assert(s =~= (a + seq!['\n']) + b);
        lemma_lines_shift(a + seq!['\n'], b, 0, 0);
    }
}

/// A line ended by a newline comes first, then the lines of the rest.
pub proof fn lemma_lines_cons(a: Seq<char>, b: Seq<char>)
    requires
        lacks(a, '\n'),
    ensures
        lines(a + seq!['\n'] + b) == seq![strip_cr(a)] + lines(b),
{
    lemma_lines_cons_from(a, b, 0, 0);
    assert(a.subrange(0, a.len() as int) =~= a);
}

pub proof fn lemma_lines_append_from(x: Seq<char>, y: Seq<char>, p: int, q: int)
    requires
        0 <= p <= q <= x.len(),
        q < x.len() || p == x.len(),
        x.len() == 0 || x.last() == '\n',
    ensures
        lines_from(x + y, p, q) == lines_from(x, p, q) + lines(y),
    decreases x.len() - q,
{
    let s = x + y;
    let m = x.len() as int;
    if q == m {
        lemma_lines_shift(x, y, 0, 0);
        assert(lines_from(x, p, q) =~= Seq::<Seq<char>>::empty());
    } else {
        assert(s[q] == x[q]);
        if x[q] == '\n' {
            assert(s.subrange(p, q) =~= x.subrange(p, q));
            lemma_lines_append_from(x, y, q + 1, q + 1);
        } else {
            lemma_lines_append_from(x, y, p, q + 1);
        }
    }
}

/// After a final newline the lines of the rest follow on.
pub proof fn lemma_lines_append(x: Seq<char>, y: Seq<char>)
    requires
        x.len() == 0 || x.last() == '\n',
    ensures
        lines(x + y) == lines(x) + lines(y),
{
    lemma_lines_append_from(x, y, 0, 0);
}

pub proof fn lemma_lines_drop_newline_from(s: Seq<char>, p: int, q: int)
    requires
        0 <= p <= q <= s.len(),
        p < s.len(),
        s.last() != '\n',
        s.last() != '\r',
    ensures
        lines_from(s.push('\n'), p, q) == lines_from(s, p, q),
    decreases s.len() - q,
{
    let t = s.push('\n');
    let m = s.len() as int;
    if q == m {
        assert(t[m] == '\n');
        assert(t.subrange(p, m) =~= s.subrange(p, m));
        assert(s.subrange(p, m).last() == s.last());
        assert(lines_from(t, m + 1, m + 1) =~= Seq::<Seq<char>>::empty());
    } else {
        assert(t[q] == s[q]);
        if s[q] == '\n' {
            assert(t.subrange(p, q) =~= s.subrange(p, q));
            assert(q + 1 < m);
            lemma_lines_drop_newline_from(s, q + 1, q + 1);
        } else {
            lemma_lines_drop_newline_from(s, p, q + 1);
        }
    }
}

/// A final newline after text that does not end in a line ending adds no
/// line.
pub proof fn lemma_lines_drop_newline(s: Seq<char>)
    requires
        s.len() > 0,
        s.last() != '\n',
        s.last() != '\r',
    ensures
        lines(s.push('\n')) == lines(s),
{
    lemma_lines_drop_newline_from(s, 0, 0);
}

// ---------------------------------------------------------------------------
// Splitting at a character
// ---------------------------------------------------------------------------

pub proof fn lemma_char_split_shift(a: Seq<char>, b: Seq<char>, c: char, p: int, q: int)
    requires
        0 <= p <= q <= b.len(),
    ensures
        char_split_from(a + b, c, a.len() + p, a.len() + q) == char_split_from(b, c, p, q),
    decreases b.len() - q,
{
    let s = a + b;
    let o = a.len() as int;
    if q >= b.len() {
        assert(s.subrange(o + p, s.len() as int) =~= b.subrange(p, b.len() as int));
    } else {
        assert(s[o + q] == b[q]);
        if b[q] == c {
            assert(s.subrange(o + p, o + q) =~= b.subrange(p, q));
            lemma_char_split_shift(a, b, c, q + 1, q + 1);
        } else {
            lemma_char_split_shift(a, b, c, p, q + 1);
        }
    }
}

pub proof fn lemma_char_split_cons_from(a: Seq<char>, b: Seq<char>, c: char, p: int, q: int)
    requires
        0 <= p <= q <= a.len(),
        lacks(a, c),
    ensures
        char_split_from(a + seq![c] + b, c, p, q) == seq![a.subrange(p, a.len() as int)]
            + char_split(b, c),
    decreases a.len() - q,
{
    let s = a + seq![c] + b;
    let m = a.len() as int;
    if q < m {
        assert(s[q] == a[q]);
        lemma_char_split_cons_from(a, b, c, p, q + 1);
    } else {
        assert(s[m] == c);
        assert(s.subrange(p, m) =~= a.subrange(p, m));
        assert(s =~= (a + seq![c]) + b);
        lemma_char_split_shift(a + seq![c], b, c, 0, 0);
    }
}

pub proof fn lemma_char_split_cons(a: Seq<char>, b: Seq<char>, c: char)
    requires
        lacks(a, c),
    ensures
        char_split(a + seq![c] + b, c) == seq![a] + char_split(b, c),
{
    lemma_char_split_cons_from(a, b, c, 0, 0);
    assert(a.subrange(0, a.len() as int) =~= a);
}

pub proof fn lemma_char_split_none_from(a: Seq<char>, c: char, p: int, q: int)
    requires
        0 <= p <= q <= a.len(),
        lacks(a, c),
    ensures
        char_split_from(a, c, p, q) == seq![a.subrange(p, a.len() as int)],
    decreases a.len() - q,
{
    if q < a.len() {
        lemma_char_split_none_from(a, c, p, q + 1);
    }
}

pub proof fn lemma_char_split_none(a: Seq<char>, c: char)
    requires
        lacks(a, c),
    ensures
        char_split(a, c) == seq![a],
{
    lemma_char_split_none_from(a, c, 0, 0);
    assert(a.subrange(0, a.len() as int) =~= a);
}

// ---------------------------------------------------------------------------
// Searching
// ---------------------------------------------------------------------------

pub proof fn lemma_find_char_at(s: Seq<char>, c: char, q: int, k: int)
    requires
        0 <= q <= k < s.len(),
        s[k] == c,
        forall|i: int| q <= i < k ==> #[trigger] s[i] != c,
    ensures
        find_char(s, c, q) == k,
    decreases k - q,
{
    if q < k {
        lemma_find_char_at(s, c, q + 1, k);
    }
}

pub proof fn lemma_find_char_bounds(s: Seq<char>, c: char, q: int)
    requires
        0 <= q,
    ensures
        find_char(s, c, q) == -1 || (q <= find_char(s, c, q) < s.len() && s[find_char(s, c, q)]
            == c),
    decreases s.len() - q,
{
    if q < s.len() && s[q] != c {
        lemma_find_char_bounds(s, c, q + 1);
    }
}

pub proof fn lemma_find_arrow_at(s: Seq<char>, q: int, k: int)
    requires
        0 <= q <= k,
        k + 3 <= s.len(),
        s[k] == '-' && s[k + 1] == '-' && s[k + 2] == '>',
        forall|i: int| q <= i < k ==> #[trigger] s[i] != '-',
    ensures
        find_arrow(s, q) == k,
    decreases k - q,
{
    if q < k {
        lemma_find_arrow_at(s, q + 1, k);
    }
}

pub proof fn lemma_find_arrow_none(s: Seq<char>, q: int)
    requires
        0 <= q,
        forall|i: int| q <= i < s.len() ==> #[trigger] s[i] != '-',
    ensures
        find_arrow(s, q) == -1,
    decreases s.len() - q,
{
    if q + 3 <= s.len() {
        lemma_find_arrow_none(s, q + 1);
    }
}

pub proof fn lemma_word_end_at(s: Seq<char>, i: int, k: int)
    requires
        0 <= i <= k <= s.len(),
        forall|j: int| i <= j < k ==> !is_ws(#[trigger] s[j]),
        k == s.len() || is_ws(s[k]),
    ensures
        word_end(s, i) == k,
    decreases k - i,
{
    if i < k {
        lemma_word_end_at(s, i + 1, k);
    }
}

// ---------------------------------------------------------------------------
// Dropping empty pieces
// ---------------------------------------------------------------------------

/// When no piece trims down to nothing, the pieces are kept, trimmed.
pub proof fn lemma_nonblank_trimmed_all(ps: Seq<Seq<char>>)
    requires
        forall|i: int| 0 <= i < ps.len() ==> trim(#[trigger] ps[i]).len() > 0,
    ensures
        nonblank_trimmed(ps) == ps.map_values(|p: Seq<char>| trim(p)),
    decreases ps.len(),
{
    if ps.len() > 0 {
        let init = ps.drop_last();
        assert forall|i: int| 0 <= i < init.len() implies trim(#[trigger] init[i]).len() > 0 by {
            assert(init[i] == ps[i]);
        }
        lemma_nonblank_trimmed_all(init);
        assert(ps.map_values(|p: Seq<char>| trim(p)) =~= init.map_values(|p: Seq<char>| trim(p)).push(
            trim(ps.last()),
        ));
    } else {
        assert(ps.map_values(|p: Seq<char>| trim(p)) =~= Seq::<Seq<char>>::empty());
    }
}


// ---------------------------------------------------------------------------
// Lines written out one after another
// ---------------------------------------------------------------------------

/// Lines that can be written with a newline after each and read back: not
/// empty, and without line endings.
pub open spec fn plain_lines(ls: Seq<Seq<char>>) -> bool {
    forall|i: int|
        0 <= i < ls.len() ==> (#[trigger] ls[i]).len() > 0 && lacks(ls[i], '\n') && lacks(
            ls[i],
            '\r',
        )
}

pub proof fn lemma_plain_lines_init(ls: Seq<Seq<char>>)
    requires
        plain_lines(ls),
        ls.len() > 0,
    ensures
        plain_lines(ls.drop_last()),
        ls.last().len() > 0,
        lacks(ls.last(), '\n'),
        lacks(ls.last(), '\r'),
{
    let init = ls.drop_last();
    assert forall|i: int| 0 <= i < init.len() implies (#[trigger] init[i]).len() > 0 && lacks(
        init[i],
        '\n',
    ) && lacks(init[i], '\r') by {
        assert(init[i] == ls[i]);
    }
    assert(ls.last() == ls[ls.len() - 1]);
}

pub proof fn lemma_lines_text_concat(a: Seq<Seq<char>>, b: Seq<Seq<char>>)
    ensures
        lines_text(a + b) == lines_text(a) + lines_text(b),
    decreases b.len(),
{
    if b.len() == 0 {
        assert(a + b =~= a);
        assert(lines_text(a) + lines_text(b) =~= lines_text(a));
    } else {
        assert((a + b).drop_last() =~= a + b.drop_last());
        lemma_lines_text_concat(a, b.drop_last());
        assert(lines_text(a + b) =~= lines_text(a) + lines_text(b));
    }
}

pub proof fn lemma_lines_text_shape(ls: Seq<Seq<char>>)
    requires
        plain_lines(ls),
        ls.len() > 0,
    ensures
        lines_text(ls).len() > 1,
        lines_text(ls).last() == '\n',
        lines_text(ls)[0] == ls[0][0],
        lines_text(ls)[lines_text(ls).len() - 2] == ls.last().last(),
    decreases ls.len(),
{
    lemma_plain_lines_init(ls);
    let init = ls.drop_last();
    if init.len() > 0 {
        lemma_lines_text_shape(init);
        assert(lines_text(ls)[0] == lines_text(init)[0]);
        assert(init[0] == ls[0]);
    } else {
        assert(lines_text(init) =~= Seq::<char>::empty());
        assert(lines_text(ls) =~= ls.last() + seq!['\n']);
        assert(ls.last() == ls[0]);
    }
}

/// Plain lines, each followed by a newline, hold no carriage return and no
/// blank line.
pub proof fn lemma_lines_text_plain(ls: Seq<Seq<char>>)
    requires
        plain_lines(ls),
    ensures
        lacks(lines_text(ls), '\r'),
        no_blank(lines_text(ls)),
    decreases ls.len(),
{
    if ls.len() > 0 {
        lemma_plain_lines_init(ls);
        let init = ls.drop_last();
        lemma_lines_text_plain(init);
        let x = lines_text(init);
        let l = ls.last();
        let t = lines_text(ls);
        assert(t == x + l + seq!['\n']);
        assert(lacks(seq!['\n'], '\r'));
        lemma_lacks_concat(x, l, '\r');
        lemma_lacks_concat(x + l, seq!['\n'], '\r');
        if init.len() > 0 {
            lemma_lines_text_shape(init);
        }
        let a = x.len() as int;
        let b = a + l.len();
        assert forall|i: int| 0 <= i < t.len() - 1 implies !#[trigger] blank_at(t, i) by {
            if i < a - 1 {
                assert(t[i] == x[i] && t[i + 1] == x[i + 1]);
                assert(!blank_at(x, i));
            } else if i == a - 1 {
                assert(t[i + 1] == l[0]);
            } else if i < b - 1 {
                assert(t[i] == l[i - a]);
            } else {
                assert(i == b - 1);
                assert(t[i] == l[l.len() - 1]);
            }
        }
    }
}

/// Plain lines, each followed by a newline, read back as the same lines.
pub proof fn lemma_lines_text_lines(ls: Seq<Seq<char>>)
    requires
        plain_lines(ls),
    ensures
        lines(lines_text(ls)) == ls,
    decreases ls.len(),
{
    if ls.len() == 0 {
        assert(lines_text(ls) =~= Seq::<char>::empty());
        assert(ls =~= Seq::<Seq<char>>::empty());
    } else {
        lemma_plain_lines_init(ls);
        let init = ls.drop_last();
        lemma_lines_text_lines(init);
        let x = lines_text(init);
        let l = ls.last();
        if init.len() > 0 {
            lemma_lines_text_shape(init);
        }
        assert(lines_text(ls) == x + (l + seq!['\n']));
        lemma_lines_append(x, l + seq!['\n']);
        assert(l + seq!['\n'] =~= l + seq!['\n'] + Seq::<char>::empty());
        lemma_lines_cons(l, Seq::<char>::empty());
        assert(strip_cr(l) == l) by {
            assert(l[l.len() - 1] != '\r');
        }
        assert(lines(Seq::<char>::empty()) =~= Seq::<Seq<char>>::empty());
        assert(init + seq![l] =~= ls);
    }
}

/// The same holds without the final newline.
pub proof fn lemma_lines_text_core_lines(ls: Seq<Seq<char>>)
    requires
        plain_lines(ls),
        ls.len() > 0,
    ensures
        lines(lines_text(ls).drop_last()) == ls,
{
    lemma_lines_text_lines(ls);
    lemma_lines_text_shape(ls);
    let t = lines_text(ls);
    let c = t.drop_last();
    lemma_plain_lines_init(ls);
    assert(c.last() == ls.last().last());
    assert(ls.last()[ls.last().len() - 1] != '\n' && ls.last()[ls.last().len() - 1] != '\r');
    assert(c.push('\n') =~= t);
    lemma_lines_drop_newline(c);
}

// ---------------------------------------------------------------------------
// Entries written one after another, a blank line between each two
// ---------------------------------------------------------------------------

/// The entries, each of which ends in a newline, with a newline between
/// each two: a blank line separates them.
pub open spec fn sep_join(es: Seq<Seq<char>>) -> Seq<char>
    decreases es.len(),
{
    if es.len() == 0 {
        seq![]
    } else {
        sep_join(es.drop_last()) + (if es.len() > 1 {
            seq!['\n']
        } else {
            seq![]
        }) + es.last()
    }
}

/// An entry that ends in a newline, whose text before it is trimmed, and
/// that holds no blank line and no carriage return.
pub open spec fn good_entry(e: Seq<char>) -> bool {
    &&& e.len() > 1
    &&& e.last() == '\n'
    &&& is_trimmed(e.drop_last())
    &&& no_blank(e)
    &&& lacks(e, '\r')
}

/// The pieces that splitting `sep_join(es)` at blank lines gives.
pub open spec fn entry_pieces(es: Seq<Seq<char>>) -> Seq<Seq<char>> {
    Seq::new(
        es.len(),
        |i: int|
            if i < es.len() - 1 {
                es[i].drop_last()
            } else {
                es[i]
            },
    )
}

pub proof fn lemma_sep_join_pieces(es: Seq<Seq<char>>)
    requires
        es.len() > 0,
        forall|i: int| 0 <= i < es.len() ==> good_entry(#[trigger] es[i]),
    ensures
        sep_join(es) == join_blank(entry_pieces(es)),
    decreases es.len(),
{
    let n = es.len() as int;
    let ps = entry_pieces(es);
    if n == 1 {
        assert(sep_join(es.drop_last()) =~= Seq::<char>::empty());
        assert(sep_join(es) =~= es[0]);
    } else {
        let init = es.drop_last();
        assert forall|i: int| 0 <= i < init.len() implies good_entry(#[trigger] init[i]) by {
            assert(init[i] == es[i]);
        }
        lemma_sep_join_pieces(init);
        let qs = entry_pieces(init);
        let e = es[n - 2];
        assert(good_entry(e));
        // The pieces of `es` but the last are those of `init`, with the
        // newline of the last of them dropped.
        assert(ps.drop_last() =~= qs.drop_last().push(e.drop_last()));
        assert(qs =~= qs.drop_last().push(e));
        assert(e =~= e.drop_last() + seq!['\n']);
        if n == 2 {
            assert(qs.drop_last().push(e.drop_last()) =~= seq![e.drop_last()]);
            assert(qs =~= seq![e]);
        } else {
            assert(qs.drop_last().push(e).drop_last() =~= qs.drop_last());
            assert(qs.drop_last().push(e.drop_last()).drop_last() =~= qs.drop_last());
        }
        assert(join_blank(ps.drop_last()) + seq!['\n'] =~= join_blank(qs));
        assert(sep_join(es) =~= join_blank(qs) + seq!['\n'] + es.last());
        assert(join_blank(ps) =~= join_blank(ps.drop_last()) + seq!['\n', '\n'] + ps.last());
    }
}

pub proof fn lemma_sep_join_lacks(es: Seq<Seq<char>>, c: char)
    requires
        c != '\n',
        forall|i: int| 0 <= i < es.len() ==> lacks(#[trigger] es[i], c),
    ensures
        lacks(sep_join(es), c),
    decreases es.len(),
{
    if es.len() > 0 {
        let init = es.drop_last();
        assert forall|i: int| 0 <= i < init.len() implies lacks(#[trigger] init[i], c) by {
            assert(init[i] == es[i]);
        }
        lemma_sep_join_lacks(init, c);
        let sep: Seq<char> = if es.len() > 1 {
            seq!['\n']
        } else {
            seq![]
        };
        assert(lacks(sep, c));
        assert(lacks(es.last(), c)) by {
            assert(es.last() == es[es.len() - 1]);
        }
        lemma_lacks_concat(sep_join(init), sep, c);
        lemma_lacks_concat(sep_join(init) + sep, es.last(), c);
    }
}

pub proof fn lemma_lacks_subrange(s: Seq<char>, c: char, i: int, j: int)
    requires
        lacks(s, c),
        0 <= i <= j <= s.len(),
    ensures
        lacks(s.subrange(i, j), c),
{
    assert forall|k: int| 0 <= k < j - i implies #[trigger] s.subrange(i, j)[k] != c by {
        assert(s.subrange(i, j)[k] == s[i + k]);
    }
}

pub proof fn lemma_no_blank_subrange(s: Seq<char>, i: int, j: int)
    requires
        no_blank(s),
        0 <= i <= j <= s.len(),
    ensures
        no_blank(s.subrange(i, j)),
{
    let t = s.subrange(i, j);
    assert forall|k: int| 0 <= k < t.len() - 1 implies !#[trigger] blank_at(t, k) by {
        assert(t[k] == s[i + k] && t[k + 1] == s[i + k + 1]);
        assert(!blank_at(s, i + k));
    }
}

/// Entries written with blank lines between them come back, each without
/// its final newline, as the blocks of the text: line endings normalised,
/// split at blank lines, trimmed, and empty pieces left out.
pub proof fn lemma_entries_blocks(es: Seq<Seq<char>>)
    requires
        forall|i: int| 0 <= i < es.len() ==> good_entry(#[trigger] es[i]),
    ensures
        nonblank_trimmed(blank_split(normalize_newlines(sep_join(es)))) == es.map_values(
            |e: Seq<char>| e.drop_last(),
        ),
{
    assert forall|i: int| 0 <= i < es.len() implies lacks(#[trigger] es[i], '\r') by {
        assert(good_entry(es[i]));
    }
    lemma_sep_join_lacks(es, '\r');
    lemma_normalize_plain(sep_join(es));
    if es.len() == 0 {
        let e = Seq::<char>::empty();
        assert(sep_join(es) =~= e);
        lemma_blank_none(e);
        assert(trim(e).len() == 0);
        assert(seq![e].drop_last() =~= Seq::<Seq<char>>::empty());
        assert(nonblank_trimmed(Seq::<Seq<char>>::empty()) =~= Seq::<Seq<char>>::empty());
        assert(seq![e].last() == e);
        assert(nonblank_trimmed(seq![e]) =~= Seq::<Seq<char>>::empty());
        assert(es.map_values(|e: Seq<char>| e.drop_last()) =~= Seq::<Seq<char>>::empty());
    } else {
        lemma_sep_join_pieces(es);
        let ps = entry_pieces(es);
        assert forall|i: int| 0 <= i < ps.len() implies no_blank(#[trigger] ps[i]) by {
            assert(good_entry(es[i]));
            lemma_no_blank_subrange(es[i], 0, es[i].len() - 1);
            assert(es[i].drop_last() =~= es[i].subrange(0, es[i].len() - 1));
        }
        assert forall|i: int| 0 <= i < ps.len() - 1 implies (#[trigger] ps[i]).len() > 0
            && ps[i].last() != '\n' by {
            assert(good_entry(es[i]));
            assert(is_ws('\n'));
        }
        lemma_blank_join(ps);
        assert forall|i: int| 0 <= i < ps.len() implies trim(#[trigger] ps[i]) == es[
            i
        ].drop_last() by {
            assert(good_entry(es[i]));
            if i < ps.len() - 1 {
                lemma_trim_trimmed(es[i].drop_last());
            } else {
                assert(seq!['\n'] =~= seq!['\n']);
                assert(all_ws(seq!['\n'])) by {
                    assert(is_ws(seq!['\n'][0]));
                }
                lemma_trim_around(seq![], es[i].drop_last(), seq!['\n']);
                assert(Seq::<char>::empty() + es[i].drop_last() + seq!['\n'] =~= es[i]);
            }
        }
        lemma_nonblank_trimmed_all(ps);
        assert(ps.map_values(|p: Seq<char>| trim(p)) =~= es.map_values(
            |e: Seq<char>| e.drop_last(),
        ));
    }
}


// ---------------------------------------------------------------------------
// What the blocks of any text look like
// ---------------------------------------------------------------------------

pub proof fn lemma_normalize_no_cr(s: Seq<char>)
    ensures
        lacks(normalize_newlines(s), '\r'),
    decreases s.len(),
{
    if s.len() > 0 {
        if s[0] == '\r' && s.len() > 1 && s[1] == '\n' {
            lemma_normalize_no_cr(s.skip(2));
            assert(lacks(seq!['\n'], '\r'));
            lemma_lacks_concat(seq!['\n'], normalize_newlines(s.skip(2)), '\r');
        } else if s[0] == '\r' {
            lemma_normalize_no_cr(s.skip(1));
            assert(lacks(seq!['\n'], '\r'));
            lemma_lacks_concat(seq!['\n'], normalize_newlines(s.skip(1)), '\r');
        } else {
            lemma_normalize_no_cr(s.skip(1));
            assert(lacks(seq![s[0]], '\r'));
            lemma_lacks_concat(seq![s[0]], normalize_newlines(s.skip(1)), '\r');
        }
    }
}

pub proof fn lemma_blank_pieces_from(s: Seq<char>, c: char, p: int, q: int)
    requires
        0 <= p <= q <= s.len(),
        forall|i: int| p <= i < q ==> !#[trigger] blank_at(s, i),
    ensures
        forall|k: int|
            0 <= k < blank_split_from(s, p, q).len() ==> no_blank(
                #[trigger] blank_split_from(s, p, q)[k],
            ) && (lacks(s, c) ==> lacks(blank_split_from(s, p, q)[k], c)),
    decreases s.len() - q,
{
    let r = blank_split_from(s, p, q);
    if q + 1 >= s.len() {
        let x = s.subrange(p, s.len() as int);
        assert forall|i: int| 0 <= i < x.len() - 1 implies !#[trigger] blank_at(x, i) by {
            assert(x[i] == s[p + i] && x[i + 1] == s[p + i + 1]);
            assert(!blank_at(s, p + i));
        }
        if lacks(s, c) {
            lemma_lacks_subrange(s, c, p, s.len() as int);
        }
        assert(r =~= seq![x]);
        assert forall|k: int| 0 <= k < r.len() implies no_blank(#[trigger] r[k]) && (lacks(s, c)
            ==> lacks(r[k], c)) by {
            assert(r[k] == x);
        }
    } else if s[q] == '\n' && s[q + 1] == '\n' {
        let x = s.subrange(p, q);
        assert forall|i: int| 0 <= i < x.len() - 1 implies !#[trigger] blank_at(x, i) by {
            assert(x[i] == s[p + i] && x[i + 1] == s[p + i + 1]);
            assert(!blank_at(s, p + i));
        }
        if lacks(s, c) {
            lemma_lacks_subrange(s, c, p, q);
        }
        lemma_blank_pieces_from(s, c, q + 2, q + 2);
        let rest = blank_split_from(s, q + 2, q + 2);
        assert forall|k: int| 0 <= k < r.len() implies no_blank(#[trigger] r[k]) && (lacks(s, c)
            ==> lacks(r[k], c)) by {
            if k == 0 {
                assert(r[k] == x);
            } else {
                assert(r[k] == rest[k - 1]);
            }
        }
    } else {
        assert(!blank_at(s, q));
        lemma_blank_pieces_from(s, c, p, q + 1);
        assert(r == blank_split_from(s, p, q + 1));
    }
}

/// The pieces between blank lines hold no blank line, nor any character
/// that the whole text lacks.
pub proof fn lemma_blank_pieces(s: Seq<char>, c: char)
    ensures
        forall|k: int|
            0 <= k < blank_split(s).len() ==> no_blank(#[trigger] blank_split(s)[k]) && (lacks(
                s,
                c,
            ) ==> lacks(blank_split(s)[k], c)),
{
    lemma_blank_pieces_from(s, c, 0, 0);
}

/// What trimming leaves is a part of the text, and trimmed.
pub proof fn lemma_trim_part(x: Seq<char>, c: char)
    ensures
        no_blank(x) ==> no_blank(trim(x)),
        lacks(x, c) ==> lacks(trim(x), c),
        trim(x).len() > 0 ==> is_trimmed(trim(x)),
{
    let n = x.len() as int;
    let a = skip_ws(x, 0, n);
    lemma_skip_ws_bounds(x, 0, n);
    let b = back_ws(x, a, n);
    lemma_back_ws_bounds(x, a, n);
    if no_blank(x) {
        lemma_no_blank_subrange(x, a, b);
    }
    if lacks(x, c) {
        lemma_lacks_subrange(x, c, a, b);
    }
    if a < b {
        assert(trim(x)[0] == x[a]);
        assert(trim(x).last() == x[b - 1]);
    }
}

/// The blocks of any text: trimmed, without blank lines, and holding no
/// character that the pieces lack.
pub proof fn lemma_nonblank_trimmed_parts(ps: Seq<Seq<char>>, c: char)
    requires
        forall|k: int| 0 <= k < ps.len() ==> no_blank(#[trigger] ps[k]) && lacks(ps[k], c),
    ensures
        forall|k: int|
            0 <= k < nonblank_trimmed(ps).len() ==> is_trimmed(#[trigger] nonblank_trimmed(ps)[k])
                && no_blank(nonblank_trimmed(ps)[k]) && lacks(nonblank_trimmed(ps)[k], c),
    decreases ps.len(),
{
    if ps.len() > 0 {
        let init = ps.drop_last();
        assert forall|k: int| 0 <= k < init.len() implies no_blank(#[trigger] init[k]) && lacks(
            init[k],
            c,
        ) by {
            assert(init[k] == ps[k]);
        }
        lemma_nonblank_trimmed_parts(init, c);
        let l = ps.last();
        assert(no_blank(l) && lacks(l, c)) by {
            assert(l == ps[ps.len() - 1]);
        }
        lemma_trim_part(l, c);
        let r = nonblank_trimmed(init);
        let t = nonblank_trimmed(ps);
        assert forall|k: int| 0 <= k < t.len() implies is_trimmed(#[trigger] t[k]) && no_blank(
            t[k],
        ) && lacks(t[k], c) by {
            if k < r.len() {
                assert(t[k] == r[k]);
            } else {
                assert(t[k] == trim(l));
            }
        }
    }
}

pub proof fn lemma_block_lines_from(b: Seq<char>, p: int, q: int)
    requires
        is_trimmed(b),
        no_blank(b),
        lacks(b, '\r'),
        0 <= p <= q <= b.len(),
        p < b.len(),
        b[p] != '\n',
        forall|i: int| p <= i < q ==> #[trigger] b[i] != '\n',
    ensures
        plain_lines(lines_from(b, p, q)),
        lines_from(b, p, q).len() > 0,
        lines_from(b, p, q).last().len() > 0,
        lines_from(b, p, q).last().last() == b.last(),
        p + lines_from(b, p, q)[0].len() <= b.len(),
        lines_from(b, p, q)[0] == b.subrange(p, p + lines_from(b, p, q)[0].len()),
    decreases b.len() - q,
{
    let r = lines_from(b, p, q);
    let n = b.len() as int;
    if q >= n {
        let x = b.subrange(p, n);
        lemma_lacks_subrange(b, '\r', p, n);
        assert forall|i: int| 0 <= i < x.len() implies #[trigger] x[i] != '\n' by {
            assert(x[i] == b[p + i]);
        }
        assert(r =~= seq![x]);
        assert(x.last() == b[n - 1]);
        assert(r[0] == x);
    } else if b[q] == '\n' {
        assert(is_ws('\n'));
        assert(q != n - 1);
        assert(!blank_at(b, q));
        let x = b.subrange(p, q);
        lemma_lacks_subrange(b, '\r', p, q);
        assert(x.len() > 0) by {
            assert(q != p);
        }
        assert(strip_cr(x) == x) by {
            assert(x.last() == b[q - 1]);
        }
        assert forall|i: int| 0 <= i < x.len() implies #[trigger] x[i] != '\n' by {
            assert(x[i] == b[p + i]);
        }
        lemma_block_lines_from(b, q + 1, q + 1);
        let rest = lines_from(b, q + 1, q + 1);
        assert(r == seq![x] + rest);
        assert forall|k: int| 0 <= k < r.len() implies (#[trigger] r[k]).len() > 0 && lacks(
            r[k],
            '\n',
        ) && lacks(r[k], '\r') by {
            if k == 0 {
                assert(r[k] == x);
            } else {
                assert(r[k] == rest[k - 1]);
            }
        }
        assert(r.last() == rest.last());
        assert(r[0] == x);
    } else {
        lemma_block_lines_from(b, p, q + 1);
    }
}

/// The lines of a block: none empty, none holding a line ending, and the
/// last ending where the block ends.
pub proof fn lemma_block_lines(b: Seq<char>)
    requires
        is_trimmed(b),
        no_blank(b),
        lacks(b, '\r'),
    ensures
        plain_lines(lines(b)),
        lines(b).len() > 0,
        lines(b).last().last() == b.last(),
        lines(b)[0].len() <= b.len(),
        lines(b)[0] == b.take(lines(b)[0].len() as int),
        lines(b)[0][0] == b[0],
{
    assert(is_ws('\n'));
    lemma_block_lines_from(b, 0, 0);
    assert(b.subrange(0, lines(b)[0].len() as int) =~= b.take(lines(b)[0].len() as int));
}


/// Only the first line of text can decide whether it starts with a prefix
/// that holds no newline.
pub proof fn lemma_starts_with_first_line(a: Seq<char>, b: Seq<char>, prefix: Seq<char>)
    requires
        lacks(prefix, '\n'),
        starts_with(a + seq!['\n'] + b, prefix),
    ensures
        starts_with(a, prefix),
{
    let s = a + seq!['\n'] + b;
    if prefix.len() > a.len() {
        assert(s[a.len() as int] == '\n');
        assert(s.take(prefix.len() as int)[a.len() as int] == prefix[a.len() as int]);
    } else {
        assert(a.take(prefix.len() as int) =~= s.take(prefix.len() as int));
    }
}

/// A text that starts with a prefix starts with its first character.
pub proof fn lemma_starts_with_first_char(s: Seq<char>, prefix: Seq<char>)
    requires
        prefix.len() > 0,
        starts_with(s, prefix),
    ensures
        s[0] == prefix[0],
{
    assert(s.take(prefix.len() as int)[0] == s[0]);
}

/// A text starts with every prefix of its prefixes.
pub proof fn lemma_starts_with_prefix(s: Seq<char>, k: int, prefix: Seq<char>)
    requires
        0 <= k <= s.len(),
        starts_with(s.take(k), prefix),
    ensures
        starts_with(s, prefix),
{
    assert(s.take(prefix.len() as int) =~= s.take(k).take(prefix.len() as int));
}

/// A single line with no line ending is the one line of its text.
pub proof fn lemma_lines_single(a: Seq<char>)
    requires
        a.len() > 0,
        lacks(a, '\n'),
        lacks(a, '\r'),
    ensures
        lines(a) == seq![a],
{
    lemma_lines_drop_newline(a);
    assert(a.push('\n') =~= a + seq!['\n'] + Seq::<char>::empty());
    lemma_lines_cons(a, Seq::<char>::empty());
    assert(strip_cr(a) == a) by {
        assert(a[a.len() - 1] != '\r');
    }
    assert(lines(Seq::<char>::empty()) =~= Seq::<Seq<char>>::empty());
    assert(seq![a] + Seq::<Seq<char>>::empty() =~= seq![a]);
}


// ---------------------------------------------------------------------------
// Windows line endings
// ---------------------------------------------------------------------------

/// `s` with every `'\n'` written as `"\r\n"`.
pub open spec fn to_crlf(s: Seq<char>) -> Seq<char>
    decreases s.len(),
{
    if s.len() == 0 {
        s
    } else {
        (if s[0] == '\n' {
            seq!['\r', '\n']
        } else {
            seq![s[0]]
        }) + to_crlf(s.skip(1))
    }
}

/// Normalising line endings undoes writing them as `"\r\n"`, for text
/// that held no carriage return.
pub proof fn lemma_normalize_crlf(s: Seq<char>)
    requires
        lacks(s, '\r'),
    ensures
        normalize_newlines(to_crlf(s)) == s,
    decreases s.len(),
{
    if s.len() > 0 {
        let t = s.skip(1);
        assert forall|i: int| 0 <= i < t.len() implies #[trigger] t[i] != '\r' by {
            assert(t[i] == s[i + 1]);
        }
        lemma_normalize_crlf(t);
        let c = to_crlf(s);
        if s[0] == '\n' {
            assert(c.skip(2) =~= to_crlf(t));
        } else {
            assert(s[0] != '\r');
            assert(c.skip(1) =~= to_crlf(t));
        }
        assert(seq![s[0]] + t =~= s);
    } else {
        assert(to_crlf(s) =~= s);
    }
}


/// `s` with every `'\n'` written as a lone `'\r'` (old Mac line endings).
pub open spec fn to_cr(s: Seq<char>) -> Seq<char> {
    s.map_values(
        |c: char|
            if c == '\n' {
                '\r'
            } else {
                c
            },
    )
}

/// Normalising line endings undoes writing them as lone `'\r'`, for text
/// that held no carriage return.
pub proof fn lemma_normalize_cr(s: Seq<char>)
    requires
        lacks(s, '\r'),
    ensures
        normalize_newlines(to_cr(s)) == s,
    decreases s.len(),
{
    if s.len() > 0 {
        let t = s.skip(1);
        assert forall|i: int| 0 <= i < t.len() implies #[trigger] t[i] != '\r' by {
            assert(t[i] == s[i + 1]);
        }
        lemma_normalize_cr(t);
        let c = to_cr(s);
        assert(c.skip(1) =~= to_cr(t));
        if c.len() > 1 {
            assert(c[1] == to_cr(t)[0]);
            assert(c[1] != '\n');
        }
        assert(seq![s[0]] + t =~= s);
    } else {
        assert(to_cr(s) =~= s);
    }
}


/// Trimming twice is trimming once.
pub proof fn lemma_trim_idem(x: Seq<char>)
    ensures
        trim(trim(x)) == trim(x),
{
    lemma_trim_part(x, ' ');
    if trim(x).len() > 0 {
        lemma_trim_trimmed(trim(x));
    } else {
        let e = trim(x);
        assert(skip_ws(e, 0, 0) == 0);
        assert(back_ws(e, 0, 0) == 0);
        assert(trim(e) =~= e);
    }
}

/// A word (non-empty, no whitespace) after whitespace, followed by nothing
/// or by whitespace and more: trimming and taking the first word gives the
/// word back.
pub proof fn lemma_first_word(w: Seq<char>, e: Seq<char>, h: Seq<char>)
    requires
        all_ws(w),
        e.len() > 0,
        no_ws(e),
        h.len() == 0 || is_ws(h[0]),
    ensures
        trim(w + e + h).len() > 0,
        trim(w + e + h).take(word_end(trim(w + e + h), 0)) == e,
{
    let t = w + e + h;
    let n = t.len() as int;
    let a = w.len() as int;
    let z = a + e.len();
    assert(t[a] == e[0]);
    assert forall|j: int| 0 <= j < a implies is_ws(#[trigger] t[j]) by {
        assert(t[j] == w[j]);
    }
    lemma_skip_ws_to(t, 0, a, n);
    lemma_back_ws_bounds(t, a, n);
    let b = back_ws(t, a, n);
    assert(t[z - 1] == e[e.len() - 1]);
    assert(b >= z);
    let rest = t.subrange(a, b);
    assert(trim(t) == rest);
    assert forall|j: int| 0 <= j < e.len() implies !is_ws(#[trigger] rest[j]) by {
        assert(rest[j] == e[j]);
    }
    if b > z {
        assert(rest[e.len() as int] == h[0]);
    }
    lemma_word_end_at(rest, 0, e.len() as int);
    assert(rest.take(e.len() as int) =~= e);
}

pub proof fn lemma_skip_ws_map(x: Seq<char>, y: Seq<char>, i: int, hi: int)
    requires
        x.len() == y.len(),
        0 <= i <= hi <= x.len(),
        forall|k: int| 0 <= k < x.len() ==> is_ws(#[trigger] x[k]) == is_ws(y[k]),
    ensures
        skip_ws(x, i, hi) == skip_ws(y, i, hi),
    decreases hi - i,
{
    if i < hi {
        assert(is_ws(x[i]) == is_ws(y[i]));
        lemma_skip_ws_map(x, y, i + 1, hi);
    }
}

pub proof fn lemma_back_ws_map(x: Seq<char>, y: Seq<char>, lo: int, j: int)
    requires
        x.len() == y.len(),
        0 <= lo <= j <= x.len(),
        forall|k: int| 0 <= k < x.len() ==> is_ws(#[trigger] x[k]) == is_ws(y[k]),
    ensures
        back_ws(x, lo, j) == back_ws(y, lo, j),
    decreases j - lo,
{
    if lo < j {
        assert(is_ws(x[j - 1]) == is_ws(y[j - 1]));
        lemma_back_ws_map(x, y, lo, j - 1);
    }
}

/// Trimming depends only on which characters are whitespace: two texts of
/// the same length that agree on that trim at the same places.
pub proof fn lemma_trim_same_places(x: Seq<char>, y: Seq<char>)
    requires
        x.len() == y.len(),
        forall|k: int| 0 <= k < x.len() ==> is_ws(#[trigger] x[k]) == is_ws(y[k]),
    ensures
        trim(x).len() == trim(y).len(),
        skip_ws(x, 0, x.len() as int) == skip_ws(y, 0, y.len() as int),
        0 <= skip_ws(x, 0, x.len() as int),
        skip_ws(x, 0, x.len() as int) + trim(x).len() <= x.len(),
        trim(x) == x.subrange(
            skip_ws(x, 0, x.len() as int),
            skip_ws(x, 0, x.len() as int) + trim(x).len(),
        ),
        trim(y) == y.subrange(
            skip_ws(x, 0, x.len() as int),
            skip_ws(x, 0, x.len() as int) + trim(x).len(),
        ),
{
    let n = x.len() as int;
    lemma_skip_ws_map(x, y, 0, n);
    let a = skip_ws(x, 0, n);
    lemma_skip_ws_bounds(x, 0, n);
    lemma_back_ws_map(x, y, a, n);
    lemma_back_ws_bounds(x, a, n);
}


/// Text without carriage returns is left as it is by normalisation, and
/// what follows it is normalised on its own.
pub proof fn lemma_normalize_prefix(a: Seq<char>, b: Seq<char>)
    requires
        lacks(a, '\r'),
    ensures
        normalize_newlines(a + b) == a + normalize_newlines(b),
    decreases a.len(),
{
    if a.len() == 0 {
        assert(a + b =~= b);
        assert(a + normalize_newlines(b) =~= normalize_newlines(b));
    } else {
        let t = a.skip(1);
        assert forall|i: int| 0 <= i < t.len() implies #[trigger] t[i] != '\r' by {
            assert(t[i] == a[i + 1]);
        }
        lemma_normalize_prefix(t, b);
        assert((a + b)[0] == a[0] && a[0] != '\r');
        assert((a + b).skip(1) =~= t + b);
        assert(seq![a[0]] + (t + normalize_newlines(b)) =~= a + normalize_newlines(b));
    }
}

/// Dropping empty pieces and trimming goes piece by piece.
pub proof fn lemma_nonblank_trimmed_concat(a: Seq<Seq<char>>, b: Seq<Seq<char>>)
    ensures
        nonblank_trimmed(a + b) == nonblank_trimmed(a) + nonblank_trimmed(b),
    decreases b.len(),
{
    if b.len() == 0 {
        assert(a + b =~= a);
        assert(nonblank_trimmed(b) =~= Seq::<Seq<char>>::empty());
        assert(nonblank_trimmed(a) + nonblank_trimmed(b) =~= nonblank_trimmed(a));
    } else {
        assert((a + b).drop_last() =~= a + b.drop_last());
        assert((a + b).last() == b.last());
        lemma_nonblank_trimmed_concat(a, b.drop_last());
        let t = trim(b.last());
        if t.len() > 0 {
            assert(nonblank_trimmed(a) + nonblank_trimmed(b.drop_last()).push(t) =~= (
            nonblank_trimmed(a) + nonblank_trimmed(b.drop_last())).push(t));
        }
    }
}

pub proof fn lemma_first_line_from(x: Seq<char>, k: int, q: int)
    requires
        0 < k <= x.len(),
        0 <= q <= x.len(),
        lacks(x, '\r'),
        forall|i: int| 0 <= i < k ==> #[trigger] x[i] != '\n',
        forall|i: int| 0 <= i < q ==> #[trigger] x[i] != '\n',
    ensures
        lines_from(x, 0, q).len() > 0,
        k <= lines_from(x, 0, q)[0].len() <= x.len(),
        lines_from(x, 0, q)[0] == x.take(lines_from(x, 0, q)[0].len() as int),
    decreases x.len() - q,
{
    let n = x.len() as int;
    if q >= n {
        assert(x.subrange(0, n) =~= x.take(n));
    } else if x[q] == '\n' {
        assert(q >= k);
        assert(x.subrange(0, q) =~= x.take(q));
        assert(q > 0 ==> x.subrange(0, q).last() == x[q - 1]);
        assert(strip_cr(x.subrange(0, q)) == x.subrange(0, q));
    } else {
        lemma_first_line_from(x, k, q + 1);
    }
}

/// The first line of a text holds its first `k` characters, when none of
/// them is a newline.
pub proof fn lemma_first_line_prefix(x: Seq<char>, k: int)
    requires
        0 < k <= x.len(),
        lacks(x, '\r'),
        forall|i: int| 0 <= i < k ==> #[trigger] x[i] != '\n',
    ensures
        lines(x).len() > 0,
        k <= lines(x)[0].len() <= x.len(),
        lines(x)[0] == x.take(lines(x)[0].len() as int),
{
    lemma_first_line_from(x, k, 0);
}

} // verus!
