//! Character-level building blocks shared by the subtitle formats: the
//! whitespace class, trimming, newline normalisation, the splitters that the
//! parsers use, and decimal digits in both directions.
//!
//! Text is handled as a sequence of `char`s. Every splitter is specified by a
//! scanning spec function over absolute positions, which the executable loop
//! follows step by step.
use vstd::prelude::*;

verus! {

// ---------------------------------------------------------------------------
// Whitespace and trimming
// ---------------------------------------------------------------------------

/// The Unicode `White_Space` property, which `char::is_whitespace` tests.
pub open spec fn is_ws(c: char) -> bool {
    let u = c as u32;
    ||| (0x9 <= u && u <= 0xd)
    ||| u == 0x20
    ||| u == 0x85
    ||| u == 0xa0
    ||| u == 0x1680
    ||| (0x2000 <= u && u <= 0x200a)
    ||| u == 0x2028
    ||| u == 0x2029
    ||| u == 0x202f
    ||| u == 0x205f
    ||| u == 0x3000
}

pub(crate) fn is_whitespace(c: char) -> (b: bool)
    ensures
        b == is_ws(c),
{
    let u = c as u32;
    (0x9 <= u && u <= 0xd) || u == 0x20 || u == 0x85 || u == 0xa0 || u == 0x1680 || (0x2000 <= u
        && u <= 0x200a) || u == 0x2028 || u == 0x2029 || u == 0x202f || u == 0x205f || u == 0x3000
}

/// The first position at or after `i` (and before `hi`) that does not hold
/// whitespace, or `hi`.
pub open spec fn skip_ws(s: Seq<char>, i: int, hi: int) -> int
    decreases hi - i,
{
    if 0 <= i < hi && is_ws(s[i]) {
        skip_ws(s, i + 1, hi)
    } else {
        i
    }
}

/// The end of `s[lo..j]` once trailing whitespace is taken off.
pub open spec fn back_ws(s: Seq<char>, lo: int, j: int) -> int
    decreases j - lo,
{
    if lo < j && is_ws(s[j - 1]) {
        back_ws(s, lo, j - 1)
    } else {
        j
    }
}

/// `s` without leading and trailing whitespace (`str::trim`).
pub open spec fn trim(s: Seq<char>) -> Seq<char> {
    let a = skip_ws(s, 0, s.len() as int);
    s.subrange(a, back_ws(s, a, s.len() as int))
}

pub proof fn lemma_skip_ws_bounds(s: Seq<char>, i: int, hi: int)
    requires
        0 <= i <= hi,
    ensures
        i <= skip_ws(s, i, hi) <= hi,
        skip_ws(s, i, hi) < hi ==> !is_ws(s[skip_ws(s, i, hi)]),
        forall|k: int| i <= k < skip_ws(s, i, hi) ==> is_ws(#[trigger] s[k]),
    decreases hi - i,
{
    if i < hi && is_ws(s[i]) {
        lemma_skip_ws_bounds(s, i + 1, hi);
    }
}

pub proof fn lemma_back_ws_bounds(s: Seq<char>, lo: int, j: int)
    requires
        lo <= j,
    ensures
        lo <= back_ws(s, lo, j) <= j,
        back_ws(s, lo, j) > lo ==> !is_ws(s[back_ws(s, lo, j) - 1]),
        forall|k: int| back_ws(s, lo, j) <= k < j ==> is_ws(#[trigger] s[k]),
    decreases j - lo,
{
    if lo < j && is_ws(s[j - 1]) {
        lemma_back_ws_bounds(s, lo, j - 1);
    }
}

/// A copy of `v[a..b]`.
pub(crate) fn copy_range(v: &Vec<char>, a: usize, b: usize) -> (r: Vec<char>)
    requires
        a <= b <= v.len(),
    ensures
        r@ == v@.subrange(a as int, b as int),
{
    let mut r: Vec<char> = Vec::new();
    let mut i = a;
    while i < b
        invariant
            a <= i <= b <= v.len(),
            r@ == v@.subrange(a as int, i as int),
        decreases b - i,
    {
        r.push(v[i]);
        i = i + 1;
        assert(r@ =~= v@.subrange(a as int, i as int));
    }
    r
}

/// The bounds of `v` once leading and trailing whitespace is taken off.
pub(crate) fn trim_bounds(v: &Vec<char>) -> (r: (usize, usize))
    ensures
        r.0 == skip_ws(v@, 0, v@.len() as int),
        r.1 == back_ws(v@, r.0 as int, v@.len() as int),
        r.0 <= r.1 <= v.len(),
{
    let n = v.len();
    let mut i: usize = 0;
    while i < n && is_whitespace(v[i])
        invariant
            i <= n == v.len(),
            skip_ws(v@, i as int, n as int) == skip_ws(v@, 0, n as int),
        decreases n - i,
    {
        i = i + 1;
    }
    let mut j: usize = n;
    while j > i && is_whitespace(v[j - 1])
        invariant
            i <= j <= n == v.len(),
            back_ws(v@, i as int, j as int) == back_ws(v@, i as int, n as int),
        decreases j - i,
    {
        j = j - 1;
    }
    (i, j)
}

/// `v` without leading and trailing whitespace.
pub(crate) fn trim_chars(v: &Vec<char>) -> (r: Vec<char>)
    ensures
        r@ == trim(v@),
{
    let (a, b) = trim_bounds(v);
    copy_range(v, a, b)
}

// ---------------------------------------------------------------------------
// Conversions between `str`, `String` and `Vec<char>`
// ---------------------------------------------------------------------------

/// Appends `c` to `s` (`String::push`).
#[verifier::external_body]
pub(crate) fn push_char(s: &mut String, c: char)
    ensures
        final(s)@ == old(s)@.push(c),
{
    s.push(c);
}

/// The characters of `s`, in order.
pub(crate) fn chars_of(s: &str) -> (v: Vec<char>)
    ensures
        v@ == s@,
{
    let mut v: Vec<char> = Vec::new();
    for c in it: s.chars()
        invariant
            v@ == it.seq().take(it.index() as int),
    {
        v.push(c);
    }
    v
}

/// Appends the characters of `v` to `out`.
pub(crate) fn push_chars(out: &mut String, v: &Vec<char>)
    ensures
        final(out)@ == old(out)@ + v@,
{
    let mut i: usize = 0;
    while i < v.len()
        invariant
            i <= v.len(),
            out@ == old(out)@ + v@.take(i as int),
        decreases v.len() - i,
    {
        push_char(out, v[i]);
        i = i + 1;
        assert(out@ =~= old(out)@ + v@.take(i as int));
    }
    assert(v@.take(v.len() as int) =~= v@);
}

/// A `String` holding the characters of `v`.
pub(crate) fn string_of(v: &Vec<char>) -> (s: String)
    ensures
        s@ == v@,
{
    let mut s = String::new();
    push_chars(&mut s, v);
    assert(s@ =~= v@);
    s
}

// ---------------------------------------------------------------------------
// Line endings
// ---------------------------------------------------------------------------

/// Every `"\r\n"` pair and every other `'\r'` turned into `'\n'`.
pub open spec fn normalize_newlines(s: Seq<char>) -> Seq<char>
    decreases s.len(),
{
    if s.len() == 0 {
        s
    } else if s[0] == '\r' && s.len() > 1 && s[1] == '\n' {
        seq!['\n'] + normalize_newlines(s.skip(2))
    } else if s[0] == '\r' {
        seq!['\n'] + normalize_newlines(s.skip(1))
    } else {
        seq![s[0]] + normalize_newlines(s.skip(1))
    }
}

pub(crate) fn normalize(v: &Vec<char>) -> (r: Vec<char>)
    ensures
        r@ == normalize_newlines(v@),
{
    let mut r: Vec<char> = Vec::new();
    let n = v.len();
    let mut i: usize = 0;
    assert(v@.skip(0) =~= v@);
    assert(r@ + normalize_newlines(v@) =~= normalize_newlines(v@));
    while i < n
        invariant
            i <= n == v.len(),
            r@ + normalize_newlines(v@.skip(i as int)) == normalize_newlines(v@),
        decreases n - i,
    {
        let ghost rest = v@.skip(i as int);
        if v[i] == '\r' && i + 1 < n && v[i + 1] == '\n' {
            r.push('\n');
            assert(rest.skip(2) =~= v@.skip(i + 2));
            assert(r@ + normalize_newlines(v@.skip(i + 2)) =~= normalize_newlines(v@));
            i = i + 2;
        } else {
            if v[i] == '\r' {
                r.push('\n');
            } else {
                r.push(v[i]);
            }
            assert(rest.skip(1) =~= v@.skip(i + 1));
            assert(r@ + normalize_newlines(v@.skip(i + 1)) =~= normalize_newlines(v@));
            i = i + 1;
        }
    }
    assert(v@.skip(n as int) =~= Seq::<char>::empty());
    assert(r@ =~= normalize_newlines(v@));
    r
}


/// The views of a sequence of character vectors.
pub open spec fn seqs_of(v: Seq<Vec<char>>) -> Seq<Seq<char>> {
    v.map_values(|x: Vec<char>| x@)
}

pub proof fn lemma_seqs_of_push(v: Seq<Vec<char>>, x: Vec<char>)
    ensures
        seqs_of(v.push(x)) == seqs_of(v).push(x@),
{
    assert(seqs_of(v.push(x)) =~= seqs_of(v).push(x@));
}

// ---------------------------------------------------------------------------
// Splitters
// ---------------------------------------------------------------------------

/// The pieces of `s` between non-overlapping occurrences of `"\n\n"`, taken
/// from left to right (`str::split("\n\n")`), for the piece that starts at
/// `p` with the scan at `q`.
pub open spec fn blank_split_from(s: Seq<char>, p: int, q: int) -> Seq<Seq<char>>
    decreases s.len() - q,
{
    if q + 1 >= s.len() {
        seq![s.subrange(p, s.len() as int)]
    } else if s[q] == '\n' && s[q + 1] == '\n' {
        seq![s.subrange(p, q)] + blank_split_from(s, q + 2, q + 2)
    } else {
        blank_split_from(s, p, q + 1)
    }
}

/// The pieces of `s` between blank-line separators.
pub open spec fn blank_split(s: Seq<char>) -> Seq<Seq<char>> {
    blank_split_from(s, 0, 0)
}

pub(crate) fn split_blank(v: &Vec<char>) -> (r: Vec<Vec<char>>)
    ensures
        seqs_of(r@) == blank_split(v@),
{
    let n = v.len();
    let mut r: Vec<Vec<char>> = Vec::new();
    let mut p: usize = 0;
    let mut q: usize = 0;
    assert(seqs_of(r@) + blank_split(v@) =~= blank_split(v@));
    loop
        invariant
            p <= q <= n == v.len(),
            seqs_of(r@) + blank_split_from(v@, p as int, q as int) == blank_split(v@),
        decreases n - q,
    {
        if n - q < 2 {
            let piece = copy_range(v, p, n);
            proof {
                lemma_seqs_of_push(r@, piece);
            }
            r.push(piece);
            assert(seqs_of(r@) =~= blank_split(v@));
            return r;
        } else if v[q] == '\n' && v[q + 1] == '\n' {
            let piece = copy_range(v, p, q);
            proof {
                lemma_seqs_of_push(r@, piece);
            }
            r.push(piece);
            assert(seqs_of(r@) + blank_split_from(v@, q + 2, q + 2) =~= blank_split(v@));
            p = q + 2;
            q = q + 2;
        } else {
            q = q + 1;
        }
    }
}

/// `x` without one trailing `'\r'`.
pub open spec fn strip_cr(x: Seq<char>) -> Seq<char> {
    if x.len() > 0 && x.last() == '\r' {
        x.drop_last()
    } else {
        x
    }
}

/// The lines of `s` (`str::lines`): split at each `'\n'`, a `'\r'` right
/// before it dropped, and no empty line after a final `'\n'`.
pub open spec fn lines_from(s: Seq<char>, p: int, q: int) -> Seq<Seq<char>>
    decreases s.len() - q,
{
    if q >= s.len() {
        if p >= s.len() {
            seq![]
        } else {
            seq![s.subrange(p, s.len() as int)]
        }
    } else if s[q] == '\n' {
        seq![strip_cr(s.subrange(p, q))] + lines_from(s, q + 1, q + 1)
    } else {
        lines_from(s, p, q + 1)
    }
}

pub open spec fn lines(s: Seq<char>) -> Seq<Seq<char>> {
    lines_from(s, 0, 0)
}

/// Each line followed by `'\n'`.
pub open spec fn lines_text(ls: Seq<Seq<char>>) -> Seq<char>
    decreases ls.len(),
{
    if ls.len() == 0 {
        seq![]
    } else {
        lines_text(ls.drop_last()) + ls.last() + seq!['\n']
    }
}

pub(crate) fn split_lines(v: &Vec<char>) -> (r: Vec<Vec<char>>)
    ensures
        seqs_of(r@) == lines(v@),
{
    let n = v.len();
    let mut r: Vec<Vec<char>> = Vec::new();
    let mut p: usize = 0;
    let mut q: usize = 0;
    assert(seqs_of(r@) + lines(v@) =~= lines(v@));
    loop
        invariant
            p <= q <= n == v.len(),
            seqs_of(r@) + lines_from(v@, p as int, q as int) == lines(v@),
        decreases n - q,
    {
        if q == n {
            if p < n {
                let piece = copy_range(v, p, n);
                proof {
                    lemma_seqs_of_push(r@, piece);
                }
                r.push(piece);
            }
            assert(seqs_of(r@) =~= lines(v@));
            return r;
        } else if v[q] == '\n' {
            let mut e = q;
            if e > p && v[e - 1] == '\r' {
                e = e - 1;
            }
            let piece = copy_range(v, p, e);
            assert(piece@ =~= strip_cr(v@.subrange(p as int, q as int)));
            proof {
                lemma_seqs_of_push(r@, piece);
            }
            r.push(piece);
            assert(seqs_of(r@) + lines_from(v@, q + 1, q + 1) =~= lines(v@));
            p = q + 1;
            q = q + 1;
        } else {
            q = q + 1;
        }
    }
}

/// The pieces of `s` between occurrences of `c` (`str::split(c)`): there is
/// always at least one, and empty pieces are kept.
pub open spec fn char_split_from(s: Seq<char>, c: char, p: int, q: int) -> Seq<Seq<char>>
    decreases s.len() - q,
{
    if q >= s.len() {
        seq![s.subrange(p, s.len() as int)]
    } else if s[q] == c {
        seq![s.subrange(p, q)] + char_split_from(s, c, q + 1, q + 1)
    } else {
        char_split_from(s, c, p, q + 1)
    }
}

pub open spec fn char_split(s: Seq<char>, c: char) -> Seq<Seq<char>> {
    char_split_from(s, c, 0, 0)
}

pub(crate) fn split_on(v: &Vec<char>, c: char) -> (r: Vec<Vec<char>>)
    ensures
        seqs_of(r@) == char_split(v@, c),
{
    let n = v.len();
    let mut r: Vec<Vec<char>> = Vec::new();
    let mut p: usize = 0;
    let mut q: usize = 0;
    assert(seqs_of(r@) + char_split(v@, c) =~= char_split(v@, c));
    loop
        invariant
            p <= q <= n == v.len(),
            seqs_of(r@) + char_split_from(v@, c, p as int, q as int) == char_split(v@, c),
        decreases n - q,
    {
        if q == n {
            let piece = copy_range(v, p, n);
            proof {
                lemma_seqs_of_push(r@, piece);
            }
            r.push(piece);
            assert(seqs_of(r@) =~= char_split(v@, c));
            return r;
        } else if v[q] == c {
            let piece = copy_range(v, p, q);
            proof {
                lemma_seqs_of_push(r@, piece);
            }
            r.push(piece);
            assert(seqs_of(r@) + char_split_from(v@, c, q + 1, q + 1) =~= char_split(v@, c));
            p = q + 1;
            q = q + 1;
        } else {
            q = q + 1;
        }
    }
}

/// The first position at or after `q` where `c` stands, or `-1`.
pub open spec fn find_char(s: Seq<char>, c: char, q: int) -> int
    decreases s.len() - q,
{
    if q < 0 || q >= s.len() {
        -1
    } else if s[q] == c {
        q
    } else {
        find_char(s, c, q + 1)
    }
}

pub(crate) fn find_char_exec(v: &Vec<char>, c: char) -> (r: Option<usize>)
    ensures
        match r {
            Some(k) => k as int == find_char(v@, c, 0),
            None => find_char(v@, c, 0) == -1,
        },
{
    let n = v.len();
    let mut q: usize = 0;
    while q < n
        invariant
            q <= n == v.len(),
            find_char(v@, c, q as int) == find_char(v@, c, 0),
        decreases n - q,
    {
        if v[q] == c {
            return Some(q);
        }
        q = q + 1;
    }
    None
}

/// The first position at or after `q` where `"-->"` starts, or `-1`.
pub open spec fn find_arrow(s: Seq<char>, q: int) -> int
    decreases s.len() - q,
{
    if q < 0 || q + 3 > s.len() {
        -1
    } else if s[q] == '-' && s[q + 1] == '-' && s[q + 2] == '>' {
        q
    } else {
        find_arrow(s, q + 1)
    }
}

pub(crate) fn find_arrow_exec(v: &Vec<char>) -> (r: Option<usize>)
    ensures
        match r {
            Some(k) => k as int == find_arrow(v@, 0) && k + 3 <= v.len(),
            None => find_arrow(v@, 0) == -1,
        },
{
    let n = v.len();
    let mut q: usize = 0;
    while n - q >= 3
        invariant
            q <= n == v.len(),
            find_arrow(v@, q as int) == find_arrow(v@, 0),
        decreases n - q,
    {
        if v[q] == '-' && v[q + 1] == '-' && v[q + 2] == '>' {
            return Some(q);
        }
        q = q + 1;
    }
    None
}

/// The end of the run of non-whitespace characters that starts at `i`.
pub open spec fn word_end(s: Seq<char>, i: int) -> int
    decreases s.len() - i,
{
    if 0 <= i < s.len() && !is_ws(s[i]) {
        word_end(s, i + 1)
    } else {
        i
    }
}

pub proof fn lemma_word_end_bounds(s: Seq<char>, i: int)
    requires
        0 <= i <= s.len(),
    ensures
        i <= word_end(s, i) <= s.len(),
        word_end(s, i) < s.len() ==> is_ws(s[word_end(s, i)]),
        forall|k: int| i <= k < word_end(s, i) ==> !is_ws(#[trigger] s[k]),
    decreases s.len() - i,
{
    if i < s.len() && !is_ws(s[i]) {
        lemma_word_end_bounds(s, i + 1);
    }
}

pub(crate) fn word_end_exec(v: &Vec<char>, i: usize) -> (r: usize)
    requires
        i <= v.len(),
    ensures
        r as int == word_end(v@, i as int),
        i <= r <= v.len(),
{
    proof {
        lemma_word_end_bounds(v@, i as int);
    }
    let n = v.len();
    let mut j = i;
    while j < n && !is_whitespace(v[j])
        invariant
            i <= j <= n == v.len(),
            word_end(v@, j as int) == word_end(v@, i as int),
        decreases n - j,
    {
        j = j + 1;
    }
    j
}

/// Whether `s` begins with `prefix` (`str::starts_with`).
pub open spec fn starts_with(s: Seq<char>, prefix: Seq<char>) -> bool {
    prefix.len() <= s.len() && s.take(prefix.len() as int) == prefix
}

pub(crate) fn starts_with_exec(v: &Vec<char>, prefix: &str) -> (b: bool)
    ensures
        b == starts_with(v@, prefix@),
{
    let p = chars_of(prefix);
    if p.len() > v.len() {
        return false;
    }
    let mut i: usize = 0;
    while i < p.len()
        invariant
            i <= p.len() <= v.len(),
            p@ == prefix@,
            v@.take(i as int) == p@.take(i as int),
        decreases p.len() - i,
    {
        if v[i] != p[i] {
            assert(v@.take(p.len() as int)[i as int] != p@[i as int]);
            return false;
        }
        i = i + 1;
        assert(v@.take(i as int) =~= p@.take(i as int));
    }
    assert(p@.take(p.len() as int) =~= p@);
    true
}


// ---------------------------------------------------------------------------
// Decimal numbers
// ---------------------------------------------------------------------------

pub open spec fn is_digit(c: char) -> bool {
    48 <= c as u32 && c as u32 <= 57
}

pub open spec fn digit_val(c: char) -> int {
    c as u32 - 48
}

pub open spec fn all_digits(s: Seq<char>) -> bool {
    forall|i: int| 0 <= i < s.len() ==> is_digit(#[trigger] s[i])
}

/// The number that the decimal digits `s` write, most significant first.
pub open spec fn digits_value(s: Seq<char>) -> nat
    decreases s.len(),
{
    if s.len() == 0 {
        0
    } else {
        (digits_value(s.drop_last()) * 10 + digit_val(s.last())) as nat
    }
}

/// The digits after an optional leading `'+'`.
pub open spec fn unsigned_digits(s: Seq<char>) -> Seq<char> {
    if s.len() > 0 && s[0] == '+' {
        s.skip(1)
    } else {
        s
    }
}

/// What `u32::from_str` accepts: an optional `'+'` and then one or more
/// ASCII digits whose value fits in a `u32`.
pub open spec fn parse_u32_spec(s: Seq<char>) -> Option<u32> {
    let d = unsigned_digits(s);
    if d.len() > 0 && all_digits(d) && digits_value(d) <= u32::MAX {
        Some(digits_value(d) as u32)
    } else {
        None
    }
}

pub proof fn lemma_digits_value_prefix(s: Seq<char>, k: int)
    requires
        all_digits(s),
        0 <= k <= s.len(),
    ensures
        digits_value(s.take(k)) <= digits_value(s),
    decreases s.len(),
{
    if k < s.len() {
        let t = s.drop_last();
        assert(all_digits(t)) by {
            assert forall|i: int| 0 <= i < t.len() implies is_digit(#[trigger] t[i]) by {
                assert(t[i] == s[i]);
            }
        }
        assert(t.take(k) =~= s.take(k));
        lemma_digits_value_prefix(t, k);
        assert(is_digit(s[s.len() - 1]));
    } else {
        assert(s.take(k) =~= s);
    }
}

pub(crate) fn parse_u32(v: &Vec<char>) -> (r: Option<u32>)
    ensures
        r == parse_u32_spec(v@),
{
    let n = v.len();
    let start: usize = if n > 0 && v[0] == '+' {
        1
    } else {
        0
    };
    let ghost d = unsigned_digits(v@);
    assert(d =~= v@.skip(start as int));
    if start == n {
        return None;
    }
    let mut acc: u64 = 0;
    let mut i = start;
    assert(d.take(0) =~= Seq::<char>::empty());
    while i < n
        invariant
            start <= i <= n == v.len(),
            start < n,
            d == v@.skip(start as int),
            d == unsigned_digits(v@),
            acc as int == digits_value(d.take(i - start)),
            acc <= u32::MAX,
            all_digits(d.take(i - start)),
        decreases n - i,
    {
        let c = v[i];
        let u = c as u32;
        if u < 48 || u > 57 {
            assert(d[i - start] == c);
            assert(!is_digit(d[i - start]));
            return None;
        }
        let ghost pre = d.take(i - start);
        let ghost next = d.take(i - start + 1);
        assert(next.drop_last() =~= pre);
        assert(next.last() == c);
        acc = acc * 10 + (u - 48) as u64;
        assert(acc as int == digits_value(next));
        assert(all_digits(next)) by {
            assert forall|j: int| 0 <= j < next.len() implies is_digit(#[trigger] next[j]) by {
                if j < pre.len() {
                    assert(next[j] == pre[j]);
                }
            }
        }
        if acc > 4294967295 {
            proof {
                lemma_digits_value_prefix_all(d, i - start + 1);
            }
            return None;
        }
        i = i + 1;
    }
    assert(d.take(n - start) =~= d);
    Some(acc as u32)
}

/// Taking more digits never makes the value smaller, so once a prefix of the
/// digits is too large for a `u32` the whole is too.
pub proof fn lemma_digits_value_prefix_all(d: Seq<char>, k: int)
    requires
        0 <= k <= d.len(),
        all_digits(d.take(k)),
        digits_value(d.take(k)) > u32::MAX,
    ensures
        !(all_digits(d) && digits_value(d) <= u32::MAX),
{
    if all_digits(d) {
        lemma_digits_value_prefix(d, k);
    }
}

/// The decimal digits of `n`, most significant first, with no leading zero.
pub open spec fn decimal(n: nat) -> Seq<char>
    decreases n,
{
    if n < 10 {
        seq![digit_char(n)]
    } else {
        decimal(n / 10).push(digit_char(n % 10))
    }
}

pub open spec fn digit_char(d: nat) -> char {
    (d + 48) as char
}

/// `decimal(n)` with `'0'`s in front up to `width` characters
/// (`format!("{:0width$}", n)`).
pub open spec fn zero_padded(n: nat, width: nat) -> Seq<char> {
    let d = decimal(n);
    if d.len() < width {
        Seq::new((width - d.len()) as nat, |i: int| '0') + d
    } else {
        d
    }
}

pub proof fn lemma_decimal_len(n: nat)
    ensures
        decimal(n).len() >= 1,
        n < 10 ==> decimal(n).len() == 1,
        10 <= n < 100 ==> decimal(n).len() == 2,
        n >= 10 ==> decimal(n).len() >= 2,
        n >= 100 ==> decimal(n).len() >= 3,
    decreases n,
{
    if n >= 10 {
        lemma_decimal_len(n / 10);
    }
}

fn digit_to_char(d: u32) -> (c: char)
    requires
        d < 10,
    ensures
        c == digit_char(d as nat),
{
    match d {
        0 => '0',
        1 => '1',
        2 => '2',
        3 => '3',
        4 => '4',
        5 => '5',
        6 => '6',
        7 => '7',
        8 => '8',
        _ => '9',
    }
}

/// Appends the decimal digits of `n` to `out` (`n.to_string()`).
pub(crate) fn push_decimal(out: &mut String, n: u64)
    ensures
        final(out)@ == old(out)@ + decimal(n as nat),
    decreases n,
{
    if n >= 10 {
        push_decimal(out, n / 10);
    }
    let d = digit_to_char((n % 10) as u32);
    push_char(out, d);
    if n >= 10 {
        assert(out@ =~= old(out)@ + decimal(n as nat));
    } else {
        assert(out@ =~= old(out)@ + decimal(n as nat));
    }
}

/// Appends `n` in decimal, with `'0'`s in front up to `width` characters.
pub(crate) fn push_padded(out: &mut String, n: u32, width: usize)
    requires
        width == 2 || width == 3,
    ensures
        final(out)@ == old(out)@ + zero_padded(n as nat, width as nat),
{
    proof {
        lemma_decimal_len(n as nat);
    }
    let ghost d = decimal(n as nat);
    if width == 3 && n < 10 {
        push_char(out, '0');
        push_char(out, '0');
        assert(Seq::new(2, |i: int| '0') =~= seq!['0', '0']);
    } else if (width == 3 && n < 100) || (width == 2 && n < 10) {
        push_char(out, '0');
        assert(Seq::new(1, |i: int| '0') =~= seq!['0']);
    }
    push_decimal(out, n as u64);
    assert(out@ =~= old(out)@ + zero_padded(n as nat, width as nat));
}


/// The text that `{:?}` writes for a string: the string in double quotes,
/// with quotes, backslashes and characters that do not print escaped.
pub uninterp spec fn debug_str(s: Seq<char>) -> Seq<char>;

/// `format!("{:?}", s)`: the result is `debug_str` of the characters of `s`.
#[verifier::external_body]
pub(crate) fn debug_string(s: &str) -> (r: String)
    ensures
        r@ == debug_str(s@),
{
    format!("{:?}", s)
}


/// The pieces, trimmed, with the ones that are then empty left out
/// (`.map(str::trim).filter(|b| !b.is_empty())`).
pub open spec fn nonblank_trimmed(ps: Seq<Seq<char>>) -> Seq<Seq<char>>
    decreases ps.len(),
{
    if ps.len() == 0 {
        seq![]
    } else {
        let r = nonblank_trimmed(ps.drop_last());
        let t = trim(ps.last());
        if t.len() > 0 {
            r.push(t)
        } else {
            r
        }
    }
}

pub(crate) fn trim_nonblank(ps: &Vec<Vec<char>>) -> (r: Vec<Vec<char>>)
    ensures
        seqs_of(r@) == nonblank_trimmed(seqs_of(ps@)),
{
    let mut r: Vec<Vec<char>> = Vec::new();
    let mut i: usize = 0;
    assert(seqs_of(ps@).take(0) =~= Seq::<Seq<char>>::empty());
    assert(seqs_of(r@) =~= Seq::<Seq<char>>::empty());
    while i < ps.len()
        invariant
            i <= ps.len(),
            seqs_of(r@) == nonblank_trimmed(seqs_of(ps@).take(i as int)),
        decreases ps.len() - i,
    {
        let t = trim_chars(&ps[i]);
        let ghost pre = seqs_of(ps@).take(i as int);
        let ghost next = seqs_of(ps@).take(i + 1);
        assert(next.drop_last() =~= pre);
        assert(next.last() == ps@[i as int]@);
        if t.len() > 0 {
            proof {
                lemma_seqs_of_push(r@, t);
            }
            r.push(t);
        }
        i = i + 1;
    }
    assert(seqs_of(ps@).take(ps.len() as int) =~= seqs_of(ps@));
    r
}

} // verus!
