//! Timestamps as they appear in subtitle files: `HH:MM:SS,mmm` (SubRip) and
//! `HH:MM:SS.mmm` (WebVTT).
//!
//! A `Timestamp` is stored as a single millisecond count rather than separate
//! hour/minute/second/millisecond fields. That makes shifting, comparing and
//! sorting a matter of comparing one integer instead of juggling carries
//! across four fields.
use vstd::prelude::*;

use crate::text_facts::{
    is_trimmed, lacks, lemma_char_split_cons, lemma_char_split_none, lemma_digits_plain,
    lemma_find_char_at, lemma_find_char_bounds, lemma_lacks_concat, lemma_parse_zero_padded,
    lemma_trim_same_places, lemma_trim_trimmed, lemma_zero_padded, no_ws,
};
use crate::text::{
    char_split, chars_of, copy_range, debug_str, debug_string, find_char, find_char_exec, is_ws,
    parse_u32, parse_u32_spec, push_char, push_padded, seqs_of, skip_ws, split_on, string_of, trim,
    trim_chars, zero_padded,
};

verus! {

#[derive(Debug, Clone, Copy, PartialEq, Eq, Structural, PartialOrd, Ord, Hash)]
pub struct Timestamp {
    millis: u32,
}

/// A timestamp is its millisecond count.
impl View for Timestamp {
    type V = u32;

    closed spec fn view(&self) -> u32 {
        self.millis
    }
}

/// The millisecond count that hours, minutes, seconds and milliseconds add
/// up to, with no range check on any of them.
pub open spec fn total_millis(hours: u32, minutes: u32, seconds: u32, milliseconds: u32) -> int {
    hours * 3_600_000 + minutes * 60_000 + seconds * 1_000 + milliseconds
}

/// `x` held to `[0, u32::MAX]`.
pub open spec fn clamp_u32(x: int) -> u32 {
    if x < 0 {
        0
    } else if x > u32::MAX {
        u32::MAX
    } else {
        x as u32
    }
}

/// The text of a timestamp: two-digit (or longer) hours, two-digit minutes
/// and seconds, `sep`, then three-digit milliseconds.
pub open spec fn timestamp_text(millis: u32, sep: char) -> Seq<char> {
    zero_padded((millis / 3_600_000) as nat, 2) + seq![':'] + zero_padded(
        ((millis / 60_000) % 60) as nat,
        2,
    ) + seq![':'] + zero_padded(((millis / 1_000) % 60) as nat, 2) + seq![sep] + zero_padded(
        (millis % 1_000) as nat,
        3,
    )
}

/// What went wrong when parsing a timestamp, with the trimmed input.
pub enum TimeParseErrorView {
    InvalidFormat(Seq<char>),
    OutOfRange(Seq<char>),
}

/// Every `'.'` turned into `','`.
pub open spec fn dots_to_commas(s: Seq<char>) -> Seq<char> {
    s.map_values(
        |c: char|
            if c == '.' {
                ','
            } else {
                c
            },
    )
}

/// Hours, minutes and seconds from the text before the decimal separator:
/// exactly three `':'`-separated fields, each a `u32`.
pub open spec fn hms_fields(hms: Seq<char>) -> Option<(u32, u32, u32)> {
    let f = char_split(hms, ':');
    if f.len() == 3 && parse_u32_spec(f[0]) is Some && parse_u32_spec(f[1]) is Some
        && parse_u32_spec(f[2]) is Some {
        Some((parse_u32_spec(f[0])->0, parse_u32_spec(f[1])->0, parse_u32_spec(f[2])->0))
    } else {
        None
    }
}

/// The result of parsing `input` as `HH:MM:SS,mmm` or `HH:MM:SS.mmm`: the
/// millisecond count, or the error with the trimmed input.
///
/// The input is trimmed and every `'.'` read as `','`; the text before the
/// first `','` must be three `':'`-separated `u32` fields (else the format is
/// invalid), of which the minutes and the seconds must be below 60 (else
/// they are out of range); the text after it must be a `u32` count of
/// milliseconds (else the format is invalid). The fields are added up with
/// no further range check and the total is held to `u32::MAX`.
pub open spec fn parse_timestamp(input: Seq<char>) -> Result<u32, TimeParseErrorView> {
    let t = trim(input);
    let n = dots_to_commas(t);
    let c = find_char(n, ',', 0);
    if c < 0 {
        Err(TimeParseErrorView::InvalidFormat(t))
    } else {
        match hms_fields(n.take(c)) {
            None => Err(TimeParseErrorView::InvalidFormat(t)),
            Some((h, m, s)) => {
                if m >= 60 || s >= 60 {
                    Err(TimeParseErrorView::OutOfRange(t))
                } else {
                    match parse_u32_spec(n.skip(c + 1)) {
                        None => Err(TimeParseErrorView::InvalidFormat(t)),
                        Some(ms) => Ok(clamp_u32(total_millis(h, m, s, ms))),
                    }
                }
            },
        }
    }
}

impl Timestamp {
    /// Builds a timestamp from hours/minutes/seconds/milliseconds.
    ///
    /// Values are not range-checked (minutes >= 60 will simply roll into
    /// hours) because the total millisecond count is the only thing that
    /// actually matters downstream; a total beyond `u32::MAX` is held there.
    pub fn new(hours: u32, minutes: u32, seconds: u32, milliseconds: u32) -> (r: Timestamp)
        ensures
            r@ == clamp_u32(total_millis(hours, minutes, seconds, milliseconds)),
            hours * 3_600_000 + minutes * 60_000 + seconds * 1_000 + milliseconds <= u32::MAX
                ==> r@ == hours * 3_600_000 + minutes * 60_000 + seconds * 1_000 + milliseconds,
            hours * 3_600_000 + minutes * 60_000 + seconds * 1_000 + milliseconds > u32::MAX
                ==> r@ == u32::MAX,
    {
        let total = hours as u64 * 3_600_000 + minutes as u64 * 60_000 + seconds as u64 * 1_000
            + milliseconds as u64;
        if total > 4_294_967_295 {
            Timestamp::from_millis(u32::MAX)
        } else {
            Timestamp::from_millis(total as u32)
        }
    }

    pub fn from_millis(millis: u32) -> (r: Timestamp)
        ensures
            r@ == millis,
    {
        Timestamp { millis }
    }

    pub fn as_millis(&self) -> (r: u32)
        ensures
            r == self@,
    {
        self.millis
    }

    pub fn hours(&self) -> (r: u32)
        ensures
            r == self@ / 3_600_000,
    {
        self.millis / 3_600_000
    }

    pub fn minutes(&self) -> (r: u32)
        ensures
            r == (self@ / 60_000) % 60,
    {
        (self.millis / 60_000) % 60
    }

    pub fn seconds(&self) -> (r: u32)
        ensures
            r == (self@ / 1_000) % 60,
    {
        (self.millis / 1_000) % 60
    }

    pub fn subsecond_millis(&self) -> (r: u32)
        ensures
            r == self@ % 1_000,
    {
        self.millis % 1_000
    }

    /// Returns a new timestamp offset by `offset_millis`, clamped to
    /// `[0, u32::MAX]` instead of wrapping or overflowing.
    pub fn shifted(&self, offset_millis: i64) -> (r: Timestamp)
        ensures
            r@ == clamp_u32(self@ + offset_millis),
            0 <= self@ + offset_millis <= u32::MAX ==> r@ == self@ + offset_millis,
            self@ + offset_millis < 0 ==> r@ == 0,
            self@ + offset_millis > u32::MAX ==> r@ == u32::MAX,
    {
        let total = self.millis as i128 + offset_millis as i128;
        if total < 0 {
            Timestamp::from_millis(0)
        } else if total > 4_294_967_295 {
            Timestamp::from_millis(u32::MAX)
        } else {
            Timestamp::from_millis(total as u32)
        }
    }

    /// Parses the characters of a timestamp; see `parse_timestamp`.
    pub(crate) fn parse_chars(input: &Vec<char>) -> (r: Result<Timestamp, TimeParseError>)
        ensures
            parse_result_view(r) == parse_timestamp(input@),
    {
        let t = trim_chars(input);
        let mut n: Vec<char> = Vec::new();
        let mut i: usize = 0;
        while i < t.len()
            invariant
                i <= t.len(),
                n@ == dots_to_commas(t@).take(i as int),
            decreases t.len() - i,
        {
            let c = if t[i] == '.' {
                ','
            } else {
                t[i]
            };
            n.push(c);
            i = i + 1;
            assert(n@ =~= dots_to_commas(t@).take(i as int));
        }
        assert(n@ =~= dots_to_commas(t@));
        let c = match find_char_exec(&n, ',') {
            Some(c) => c,
            None => {
                return Err(TimeParseError::InvalidFormat(string_of(&t)));
            },
        };
        proof {
            lemma_find_char_bounds(n@, ',', 0);
        }
        let hms = copy_range(&n, 0, c);
        assert(hms@ =~= n@.take(c as int));
        let fields = split_on(&hms, ':');
        assert(seqs_of(fields@).len() == fields@.len());
        if fields.len() != 3 {
            return Err(TimeParseError::InvalidFormat(string_of(&t)));
        }
        assert(seqs_of(fields@)[0] == fields@[0]@);
        assert(seqs_of(fields@)[1] == fields@[1]@);
        assert(seqs_of(fields@)[2] == fields@[2]@);
        let hours = parse_field(&fields[0], &t)?;
        let minutes = parse_field(&fields[1], &t)?;
        let seconds = parse_field(&fields[2], &t)?;
        if minutes >= 60 || seconds >= 60 {
            return Err(TimeParseError::OutOfRange(string_of(&t)));
        }
        let rest = copy_range(&n, c + 1, n.len());
        assert(rest@ =~= n@.skip(c + 1));
        let milliseconds = parse_field(&rest, &t)?;
        Ok(Timestamp::new(hours, minutes, seconds, milliseconds))
    }

    /// Parses `HH:MM:SS,mmm`. A `.` is also accepted in place of the `,`
    /// since that is what WebVTT uses and stray files show up with it.
    pub fn parse(input: &str) -> (r: Result<Timestamp, TimeParseError>)
        ensures
            parse_result_view(r) == parse_timestamp(input@),
    {
        let v = chars_of(input);
        Timestamp::parse_chars(&v)
    }

    /// Parses a WebVTT timestamp, `HH:MM:SS.mmm`; the same text as `parse`
    /// is accepted.
    pub fn parse_vtt(input: &str) -> (r: Result<Timestamp, TimeParseError>)
        ensures
            parse_result_view(r) == parse_timestamp(input@),
    {
        Timestamp::parse(input)
    }

    pub(crate) fn push_text(&self, out: &mut String, sep: char)
        ensures
            final(out)@ == old(out)@ + timestamp_text(self@, sep),
    {
        push_padded(out, self.hours(), 2);
        push_char(out, ':');
        push_padded(out, self.minutes(), 2);
        push_char(out, ':');
        push_padded(out, self.seconds(), 2);
        push_char(out, sep);
        push_padded(out, self.subsecond_millis(), 3);
        assert(out@ =~= old(out)@ + timestamp_text(self@, sep));
    }

    /// `HH:MM:SS,mmm`, the SubRip form.
    pub fn format(&self) -> (r: String)
        ensures
            r@ == timestamp_text(self@, ','),
    {
        let mut out = String::new();
        self.push_text(&mut out, ',');
        assert(out@ =~= timestamp_text(self@, ','));
        out
    }

    /// `HH:MM:SS.mmm`, the WebVTT form.
    pub fn format_vtt(&self) -> (r: String)
        ensures
            r@ == timestamp_text(self@, '.'),
    {
        let mut out = String::new();
        self.push_text(&mut out, '.');
        assert(out@ =~= timestamp_text(self@, '.'));
        out
    }
}

/// A field of a timestamp as a `u32`; if it is not one, the format of the
/// whole (trimmed) timestamp is invalid.
fn parse_field(field: &Vec<char>, whole: &Vec<char>) -> (r: Result<u32, TimeParseError>)
    ensures
        match r {
            Ok(x) => parse_u32_spec(field@) == Some(x),
            Err(e) => parse_u32_spec(field@) is None && e@ == TimeParseErrorView::InvalidFormat(
                whole@,
            ),
        },
{
    match parse_u32(field) {
        Some(x) => Ok(x),
        None => Err(TimeParseError::InvalidFormat(string_of(whole))),
    }
}

#[derive(Debug, Clone, PartialEq, Eq)]
pub enum TimeParseError {
    InvalidFormat(String),
    OutOfRange(String),
}

impl View for TimeParseError {
    type V = TimeParseErrorView;

    open spec fn view(&self) -> TimeParseErrorView {
        match self {
            TimeParseError::InvalidFormat(s) => TimeParseErrorView::InvalidFormat(s@),
            TimeParseError::OutOfRange(s) => TimeParseErrorView::OutOfRange(s@),
        }
    }
}

/// A parse result seen as the millisecond count or the error's view.
pub open spec fn parse_result_view(r: Result<Timestamp, TimeParseError>) -> Result<
    u32,
    TimeParseErrorView,
> {
    match r {
        Ok(t) => Ok(t@),
        Err(e) => Err(e@),
    }
}

/// The message that describes a timestamp error.
pub open spec fn time_error_message(e: TimeParseErrorView) -> Seq<char> {
    match e {
        TimeParseErrorView::InvalidFormat(s) => "invalid timestamp format: "@ + debug_str(s),
        TimeParseErrorView::OutOfRange(s) => "minutes or seconds out of range in timestamp: "@
            + debug_str(s),
    }
}

impl TimeParseError {
    /// The message that describes the error.
    pub fn message(&self) -> (r: String)
        ensures
            r@ == time_error_message(self@),
    {
        let mut out = String::new();
        match self {
            TimeParseError::InvalidFormat(s) => {
                out.append("invalid timestamp format: ");
                out.append(debug_string(s.as_str()).as_str());
            },
            TimeParseError::OutOfRange(s) => {
                out.append("minutes or seconds out of range in timestamp: ");
                out.append(debug_string(s.as_str()).as_str());
            },
        }
        assert(out@ =~= time_error_message(self@));
        out
    }
}


// ---------------------------------------------------------------------------
// Laws
// ---------------------------------------------------------------------------

/// The hours, minutes, seconds and milliseconds of a count add back up to it.
pub proof fn lemma_fields_add_up(m: u32)
    ensures
        total_millis(m / 3_600_000, (m / 60_000) % 60, (m / 1_000) % 60, m % 1_000) == m,
{
    assert(total_millis(m / 3_600_000, (m / 60_000) % 60, (m / 1_000) % 60, m % 1_000) == m)
        by (nonlinear_arith);
}


pub proof fn lemma_dots_to_commas_plain(s: Seq<char>)
    requires
        lacks(s, '.'),
    ensures
        dots_to_commas(s) == s,
{
    assert(dots_to_commas(s) =~= s);
}

/// The digits and separators of a timestamp text, before the separator of
/// the milliseconds.
pub open spec fn hms_text(m: u32) -> Seq<char> {
    zero_padded((m / 3_600_000) as nat, 2) + seq![':'] + zero_padded(((m / 60_000) % 60) as nat, 2)
        + seq![':'] + zero_padded(((m / 1_000) % 60) as nat, 2)
}

pub proof fn lemma_timestamp_text_parts(m: u32, sep: char)
    ensures
        timestamp_text(m, sep) == hms_text(m) + seq![sep] + zero_padded((m % 1_000) as nat, 3),
        lacks(hms_text(m), ','),
        lacks(hms_text(m), '.'),
        hms_text(m).len() > 0,
{
    let h = zero_padded((m / 3_600_000) as nat, 2);
    let mi = zero_padded(((m / 60_000) % 60) as nat, 2);
    let s = zero_padded(((m / 1_000) % 60) as nat, 2);
    lemma_zero_padded((m / 3_600_000) as nat, 2);
    lemma_zero_padded(((m / 60_000) % 60) as nat, 2);
    lemma_zero_padded(((m / 1_000) % 60) as nat, 2);
    lemma_digits_plain(h);
    lemma_digits_plain(mi);
    lemma_digits_plain(s);
    assert(lacks(seq![':'], ',') && lacks(seq![':'], '.'));
    lemma_lacks_concat(h, seq![':'], ',');
    lemma_lacks_concat(h + seq![':'], mi, ',');
    lemma_lacks_concat(h + seq![':'] + mi, seq![':'], ',');
    lemma_lacks_concat(h + seq![':'] + mi + seq![':'], s, ',');
    lemma_lacks_concat(h, seq![':'], '.');
    lemma_lacks_concat(h + seq![':'], mi, '.');
    lemma_lacks_concat(h + seq![':'] + mi, seq![':'], '.');
    lemma_lacks_concat(h + seq![':'] + mi + seq![':'], s, '.');
}

/// A timestamp text holds no whitespace, line ending or `'-'`, and begins
/// and ends with a digit.
pub proof fn lemma_timestamp_text_plain(m: u32, sep: char)
    requires
        sep == ',' || sep == '.',
    ensures
        no_ws(timestamp_text(m, sep)),
        lacks(timestamp_text(m, sep), '\n'),
        lacks(timestamp_text(m, sep), '\r'),
        lacks(timestamp_text(m, sep), '-'),
        is_trimmed(timestamp_text(m, sep)),
        crate::text::is_digit(timestamp_text(m, sep)[0]),
{
    let t = timestamp_text(m, sep);
    lemma_timestamp_text_parts(m, sep);
    let h = zero_padded((m / 3_600_000) as nat, 2);
    let mi = zero_padded(((m / 60_000) % 60) as nat, 2);
    let s = zero_padded(((m / 1_000) % 60) as nat, 2);
    let f = zero_padded((m % 1_000) as nat, 3);
    lemma_zero_padded((m / 3_600_000) as nat, 2);
    lemma_zero_padded(((m / 60_000) % 60) as nat, 2);
    lemma_zero_padded(((m / 1_000) % 60) as nat, 2);
    lemma_zero_padded((m % 1_000) as nat, 3);
    lemma_digits_plain(h);
    lemma_digits_plain(mi);
    lemma_digits_plain(s);
    lemma_digits_plain(f);
    assert(t == h + seq![':'] + mi + seq![':'] + s + seq![sep] + f);
    let a = h.len() as int;
    let b = a + 1 + mi.len();
    let c = b + 1 + s.len();
    assert forall|i: int| 0 <= i < t.len() implies !crate::text::is_ws(#[trigger] t[i]) && t[i]
        != '\n' && t[i] != '\r' && t[i] != '-' by {
        if i < a {
            assert(t[i] == h[i]);
        } else if i == a {
            assert(t[i] == ':');
        } else if i < b {
            assert(t[i] == mi[i - a - 1]);
        } else if i == b {
            assert(t[i] == ':');
        } else if i < c {
            assert(t[i] == s[i - b - 1]);
        } else if i == c {
            assert(t[i] == sep);
        } else {
            assert(t[i] == f[i - c - 1]);
        }
    }
    assert(t[0] == h[0]);
    assert(crate::text::is_digit(h[0]));
}

/// Every timestamp text reads back as the count it was written from: the
/// text that `format` writes (with `','`) and the one that `format_vtt`
/// writes (with `'.'`).
pub proof fn lemma_timestamp_text_parses(m: u32, sep: char)
    requires
        sep == ',' || sep == '.',
    ensures
        parse_timestamp(timestamp_text(m, sep)) == Ok::<u32, TimeParseErrorView>(m),
{
    let t = timestamp_text(m, sep);
    lemma_timestamp_text_plain(m, sep);
    lemma_trim_trimmed(t);
    lemma_timestamp_text_parts(m, sep);
    let hms = hms_text(m);
    let f = zero_padded((m % 1_000) as nat, 3);
    lemma_zero_padded((m % 1_000) as nat, 3);
    lemma_digits_plain(f);
    lemma_dots_to_commas_plain(hms);
    lemma_dots_to_commas_plain(f);
    let n = dots_to_commas(t);
    assert(n =~= hms + seq![','] + f);
    let k = hms.len() as int;
    assert(n[k] == ',');
    assert forall|i: int| 0 <= i < k implies #[trigger] n[i] != ',' by {
        assert(n[i] == hms[i]);
    }
    lemma_find_char_at(n, ',', 0, k);
    assert(n.take(k) =~= hms);
    assert(n.skip(k + 1) =~= f);
    let h = zero_padded((m / 3_600_000) as nat, 2);
    let mi = zero_padded(((m / 60_000) % 60) as nat, 2);
    let s = zero_padded(((m / 1_000) % 60) as nat, 2);
    lemma_zero_padded((m / 3_600_000) as nat, 2);
    lemma_zero_padded(((m / 60_000) % 60) as nat, 2);
    lemma_zero_padded(((m / 1_000) % 60) as nat, 2);
    lemma_digits_plain(h);
    lemma_digits_plain(mi);
    lemma_digits_plain(s);
    assert(hms =~= h + seq![':'] + (mi + seq![':'] + s));
    lemma_char_split_cons(h, mi + seq![':'] + s, ':');
    lemma_char_split_cons(mi, s, ':');
    lemma_char_split_none(s, ':');
    assert(char_split(hms, ':') =~= seq![h, mi, s]);
    lemma_parse_zero_padded(m / 3_600_000, 2);
    lemma_parse_zero_padded((m / 60_000) % 60, 2);
    lemma_parse_zero_padded((m / 1_000) % 60, 2);
    lemma_parse_zero_padded(m % 1_000, 3);
    lemma_fields_add_up(m);
}

/// What `format` writes, `parse` reads back as the same timestamp; the same
/// holds of `format_vtt` and `parse_vtt`.
pub proof fn law_format_then_parse(t: Timestamp)
    ensures
        parse_timestamp(timestamp_text(t@, ',')) == Ok::<u32, TimeParseErrorView>(t@),
        parse_timestamp(timestamp_text(t@, '.')) == Ok::<u32, TimeParseErrorView>(t@),
{
    lemma_timestamp_text_parses(t@, ',');
    lemma_timestamp_text_parses(t@, '.');
}

/// Building a timestamp from its own hours, minutes, seconds and
/// milliseconds gives it back.
pub proof fn law_new_from_fields(t: Timestamp)
    ensures
        clamp_u32(total_millis(t@ / 3_600_000, (t@ / 60_000) % 60, (t@ / 1_000) % 60, t@ % 1_000))
            == t@,
{
    lemma_fields_add_up(t@);
}


/// The fields of a timestamp are not range-checked: a minute's worth of
/// seconds counts as a minute, an hour's worth of minutes as an hour, and a
/// second's worth of milliseconds as a second.
pub proof fn law_fields_roll_over(h: u32, m: u32, s: u32, ms: u32)
    ensures
        s + 60 <= u32::MAX && m + 1 <= u32::MAX ==> total_millis(h, m, (s + 60) as u32, ms)
            == total_millis(h, (m + 1) as u32, s, ms),
        m + 60 <= u32::MAX && h + 1 <= u32::MAX ==> total_millis(h, (m + 60) as u32, s, ms)
            == total_millis((h + 1) as u32, m, s, ms),
        ms + 1_000 <= u32::MAX && s + 1 <= u32::MAX ==> total_millis(h, m, s, (ms + 1_000) as u32)
            == total_millis(h, m, (s + 1) as u32, ms),
        total_millis(h, m, s, ms) == h * 3_600_000 + m * 60_000 + s * 1_000 + ms,
{
}

/// A timestamp built from a number of seconds alone is that many thousand
/// milliseconds, held to `u32::MAX`.
pub proof fn law_new_from_seconds(s: u32)
    ensures
        s * 1_000 <= u32::MAX ==> clamp_u32(total_millis(0, 0, s, 0)) == s * 1_000,
        s * 1_000 > u32::MAX ==> clamp_u32(total_millis(0, 0, s, 0)) == u32::MAX,
{
}

/// Shifting moves a timestamp by exactly the offset when the result fits,
/// and holds it at `0` or `u32::MAX` otherwise.
pub proof fn law_clamp(x: int)
    ensures
        0 <= x <= u32::MAX ==> clamp_u32(x) == x,
        x < 0 ==> clamp_u32(x) == 0,
        x > u32::MAX ==> clamp_u32(x) == u32::MAX,
{
}


/// Every `','` turned into `'.'`.
pub open spec fn commas_to_dots(s: Seq<char>) -> Seq<char> {
    s.map_values(
        |c: char|
            if c == ',' {
                '.'
            } else {
                c
            },
    )
}

/// `','` and `'.'` are interchangeable as the separator of the
/// milliseconds: writing every `','` as `'.'` changes neither whether a
/// timestamp parses nor what it parses to.
pub proof fn law_comma_or_dot(x: Seq<char>)
    ensures
        parse_timestamp(commas_to_dots(x)) is Ok <==> parse_timestamp(x) is Ok,
        parse_timestamp(x) is Ok ==> parse_timestamp(commas_to_dots(x)) == parse_timestamp(x),
{
    let y = commas_to_dots(x);
    assert forall|k: int| 0 <= k < x.len() implies is_ws(#[trigger] x[k]) == is_ws(y[k]) by {
        assert(y[k] == x[k] || (x[k] == ',' && y[k] == '.'));
        assert(!is_ws(',') && !is_ws('.'));
    }
    lemma_trim_same_places(x, y);
    let tx = trim(x);
    let ty = trim(y);
    let a = skip_ws(x, 0, x.len() as int);
    assert forall|k: int| 0 <= k < tx.len() implies #[trigger] dots_to_commas(tx)[k]
        == dots_to_commas(ty)[k] by {
        assert(tx[k] == x[a + k] && ty[k] == y[a + k]);
        assert(y[a + k] == x[a + k] || (x[a + k] == ',' && y[a + k] == '.'));
    }
    assert(dots_to_commas(tx) =~= dots_to_commas(ty));
}

} // verus!
