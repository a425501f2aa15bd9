//! Parsing and formatting for the SubRip (`.srt`) subtitle format.
//!
//! Every function here takes its input as a plain string and returns a plain
//! value; nothing touches the filesystem. Reading the file and writing the
//! result back out is left to the caller.
use vstd::prelude::*;

use crate::text::{
    blank_split, chars_of, copy_range, debug_str, debug_string, decimal, find_arrow,
    find_arrow_exec, is_digit, is_ws, lines, lines_text, nonblank_trimmed, normalize,
    normalize_newlines, parse_u32, parse_u32_spec, push_char, push_decimal, seqs_of, split_blank,
    split_lines, string_of, trim, trim_chars, trim_nonblank, word_end, word_end_exec,
};
use crate::text_facts::{
    all_ws, good_entry, is_trimmed, lacks, lemma_blank_pieces, lemma_block_lines,
    lemma_decimal_digits, lemma_digits_plain, lemma_entries_blocks, lemma_find_arrow_at,
    lemma_first_word, lemma_lines_text_concat, lemma_lines_text_core_lines, lemma_lines_text_plain,
    lemma_lines_text_shape, lemma_nonblank_trimmed_parts, lemma_normalize_cr, lemma_normalize_crlf,
    lemma_normalize_no_cr, lemma_normalize_plain, lemma_parse_digits, lemma_trim_around,
    lemma_trim_idem, lemma_trim_trimmed, lemma_word_end_at, no_blank, no_ws, plain_lines, sep_join,
    to_cr, to_crlf,
};
use crate::time::{
    clamp_u32, lemma_timestamp_text_parses, lemma_timestamp_text_plain, parse_timestamp,
    time_error_message, timestamp_text, TimeParseError, TimeParseErrorView, Timestamp,
};

verus! {

#[derive(Debug, Clone, PartialEq, Eq)]
pub struct Subtitle {
    pub index: u32,
    pub start: Timestamp,
    pub end: Timestamp,
    pub lines: Vec<String>,
}

/// A subtitle as plain values: its index, its start and end in
/// milliseconds, and its lines of text.
pub struct SubtitleView {
    pub index: u32,
    pub start: u32,
    pub end: u32,
    pub lines: Seq<Seq<char>>,
}

/// The views of a sequence of strings.
pub open spec fn strings_view(v: Seq<String>) -> Seq<Seq<char>> {
    v.map_values(|s: String| s@)
}

impl View for Subtitle {
    type V = SubtitleView;

    open spec fn view(&self) -> SubtitleView {
        SubtitleView {
            index: self.index,
            start: self.start@,
            end: self.end@,
            lines: strings_view(self.lines@),
        }
    }
}

/// The views of a sequence of subtitles.
pub open spec fn subtitles_view(v: Seq<Subtitle>) -> Seq<SubtitleView> {
    v.map_values(|s: Subtitle| s@)
}

#[derive(Debug, Clone, PartialEq, Eq)]
pub enum ParseError {
    EmptyBlock,
    InvalidIndex(String),
    MissingTimingLine(u32),
    InvalidTimingLine(u32, String),
    InvalidTimestamp(u32, TimeParseError),
}

/// What went wrong when parsing a SubRip file, as plain values.
pub enum ParseErrorView {
    EmptyBlock,
    InvalidIndex(Seq<char>),
    MissingTimingLine(u32),
    InvalidTimingLine(u32, Seq<char>),
    InvalidTimestamp(u32, TimeParseErrorView),
}

impl View for ParseError {
    type V = ParseErrorView;

    open spec fn view(&self) -> ParseErrorView {
        match self {
            ParseError::EmptyBlock => ParseErrorView::EmptyBlock,
            ParseError::InvalidIndex(s) => ParseErrorView::InvalidIndex(s@),
            ParseError::MissingTimingLine(i) => ParseErrorView::MissingTimingLine(*i),
            ParseError::InvalidTimingLine(i, s) => ParseErrorView::InvalidTimingLine(*i, s@),
            ParseError::InvalidTimestamp(i, e) => ParseErrorView::InvalidTimestamp(*i, e@),
        }
    }
}

// ---------------------------------------------------------------------------
// What parsing gives
// ---------------------------------------------------------------------------

/// The blocks of a SubRip file: line endings normalised, split at blank
/// lines, each piece trimmed, and the empty ones left out.
pub open spec fn srt_blocks(input: Seq<char>) -> Seq<Seq<char>> {
    nonblank_trimmed(blank_split(normalize_newlines(input)))
}

/// The start and end of a timing line `START --> END [hints]`: the start is
/// the trimmed text before the first `"-->"`, the end the first word after
/// it (rendering hints may follow).
pub open spec fn parse_timing_line(line: Seq<char>, index: u32) -> Result<
    (u32, u32),
    ParseErrorView,
> {
    let a = find_arrow(line, 0);
    let rest = trim(line.skip(a + 3));
    if a < 0 || rest.len() == 0 {
        Err(ParseErrorView::InvalidTimingLine(index, line))
    } else {
        match parse_timestamp(trim(line.take(a))) {
            Err(e) => Err(ParseErrorView::InvalidTimestamp(index, e)),
            Ok(start) => match parse_timestamp(rest.take(word_end(rest, 0))) {
                Err(e) => Err(ParseErrorView::InvalidTimestamp(index, e)),
                Ok(end) => Ok((start, end)),
            },
        }
    }
}

/// One block: a numeric index line, a timing line, then the text lines.
pub open spec fn parse_block(block: Seq<char>) -> Result<SubtitleView, ParseErrorView> {
    let ls = lines(block);
    if ls.len() == 0 {
        Err(ParseErrorView::EmptyBlock)
    } else {
        match parse_u32_spec(trim(ls[0])) {
            None => Err(ParseErrorView::InvalidIndex(ls[0])),
            Some(index) => {
                if ls.len() < 2 {
                    Err(ParseErrorView::MissingTimingLine(index))
                } else {
                    match parse_timing_line(ls[1], index) {
                        Err(e) => Err(e),
                        Ok((start, end)) => Ok(
                            SubtitleView { index, start, end, lines: ls.skip(2) },
                        ),
                    }
                }
            },
        }
    }
}

/// The blocks parsed in order; the first block that fails gives the error.
pub open spec fn parse_blocks(bs: Seq<Seq<char>>) -> Result<Seq<SubtitleView>, ParseErrorView>
    decreases bs.len(),
{
    if bs.len() == 0 {
        Ok(seq![])
    } else {
        match parse_blocks(bs.drop_last()) {
            Err(e) => Err(e),
            Ok(r) => match parse_block(bs.last()) {
                Err(e) => Err(e),
                Ok(s) => Ok(r.push(s)),
            },
        }
    }
}

/// What `parse_srt` gives for `input`.
pub open spec fn parse_srt_spec(input: Seq<char>) -> Result<Seq<SubtitleView>, ParseErrorView> {
    parse_blocks(srt_blocks(input))
}

pub open spec fn srt_result_view(r: Result<Vec<Subtitle>, ParseError>) -> Result<
    Seq<SubtitleView>,
    ParseErrorView,
> {
    match r {
        Ok(v) => Ok(subtitles_view(v@)),
        Err(e) => Err(e@),
    }
}

// ---------------------------------------------------------------------------
// What formatting gives
// ---------------------------------------------------------------------------

/// `" --> "`
pub open spec fn arrow_sep() -> Seq<char> {
    seq![' ', '-', '-', '>', ' ']
}

/// One entry: the index, the timing line, then the text lines, each ending
/// in `'\n'`.
pub open spec fn srt_entry_text(s: SubtitleView) -> Seq<char> {
    decimal(s.index as nat) + seq!['\n'] + timestamp_text(s.start, ',') + arrow_sep()
        + timestamp_text(s.end, ',') + seq!['\n'] + lines_text(s.lines)
}

/// The entries with a blank line between each two.
pub open spec fn srt_text(subs: Seq<SubtitleView>) -> Seq<char>
    decreases subs.len(),
{
    if subs.len() == 0 {
        seq![]
    } else {
        srt_text(subs.drop_last()) + (if subs.len() > 1 {
            seq!['\n']
        } else {
            seq![]
        }) + srt_entry_text(subs.last())
    }
}

// ---------------------------------------------------------------------------
// Executable code
// ---------------------------------------------------------------------------

fn parse_timing(line: &Vec<char>, index: u32) -> (r: Result<(Timestamp, Timestamp), ParseError>)
    ensures
        match r {
            Ok((s, e)) => parse_timing_line(line@, index) == Ok::<(u32, u32), ParseErrorView>(
                (s@, e@),
            ),
            Err(e) => parse_timing_line(line@, index) == Err::<(u32, u32), ParseErrorView>(e@),
        },
{
    let a = match find_arrow_exec(line) {
        Some(a) => a,
        None => {
            return Err(ParseError::InvalidTimingLine(index, string_of(line)));
        },
    };
    let after = copy_range(line, a + 3, line.len());
    assert(after@ =~= line@.skip(a + 3));
    let rest = trim_chars(&after);
    if rest.len() == 0 {
        return Err(ParseError::InvalidTimingLine(index, string_of(line)));
    }
    let before = copy_range(line, 0, a);
    assert(before@ =~= line@.take(a as int));
    let start_text = trim_chars(&before);
    let start = match Timestamp::parse_chars(&start_text) {
        Ok(t) => t,
        Err(e) => {
            return Err(ParseError::InvalidTimestamp(index, e));
        },
    };
    let w = word_end_exec(&rest, 0);
    let end_text = copy_range(&rest, 0, w);
    assert(end_text@ =~= rest@.take(w as int));
    let end = match Timestamp::parse_chars(&end_text) {
        Ok(t) => t,
        Err(e) => {
            return Err(ParseError::InvalidTimestamp(index, e));
        },
    };
    Ok((start, end))
}

fn parse_one_block(block: &Vec<char>) -> (r: Result<Subtitle, ParseError>)
    ensures
        match r {
            Ok(s) => parse_block(block@) == Ok::<SubtitleView, ParseErrorView>(s@),
            Err(e) => parse_block(block@) == Err::<SubtitleView, ParseErrorView>(e@),
        },
{
    let ls = split_lines(block);
    let ghost lsv = seqs_of(ls@);
    assert(lsv.len() == ls.len());
    if ls.len() == 0 {
        return Err(ParseError::EmptyBlock);
    }
    assert(lsv[0] == ls@[0]@);
    let index_text = trim_chars(&ls[0]);
    let index = match parse_u32(&index_text) {
        Some(i) => i,
        None => {
            return Err(ParseError::InvalidIndex(string_of(&ls[0])));
        },
    };
    if ls.len() < 2 {
        return Err(ParseError::MissingTimingLine(index));
    }
    assert(lsv[1] == ls@[1]@);
    let (start, end) = parse_timing(&ls[1], index)?;
    let mut text: Vec<String> = Vec::new();
    let mut i: usize = 2;
    while i < ls.len()
        invariant
            2 <= i <= ls.len(),
            lsv == seqs_of(ls@),
            strings_view(text@) == lsv.subrange(2, i as int),
        decreases ls.len() - i,
    {
        let s = string_of(&ls[i]);
        assert(lsv[i as int] == ls@[i as int]@);
        let ghost before = text@;
        text.push(s);
        assert(strings_view(text@) =~= strings_view(before).push(s@));
        i = i + 1;
        assert(strings_view(text@) =~= lsv.subrange(2, i as int));
    }
    assert(lsv.subrange(2, ls.len() as int) =~= lsv.skip(2));
    Ok(Subtitle { index, start, end, lines: text })
}

/// Once the blocks up to some point fail, so do all the blocks.
pub proof fn lemma_parse_blocks_err(bs: Seq<Seq<char>>, k: int)
    requires
        0 <= k <= bs.len(),
        parse_blocks(bs.take(k)) is Err,
    ensures
        parse_blocks(bs) == parse_blocks(bs.take(k)),
    decreases bs.len() - k,
{
    if k < bs.len() {
        let next = bs.take(k + 1);
        assert(next.drop_last() =~= bs.take(k));
        lemma_parse_blocks_err(bs, k + 1);
    } else {
        assert(bs.take(k) =~= bs);
    }
}

/// Parses the full contents of an `.srt` file into an ordered list of
/// subtitles. Blocks are separated by a blank line; each block is a numeric
/// index, a timing line, and one or more lines of text.
pub fn parse_srt(input: &str) -> (r: Result<Vec<Subtitle>, ParseError>)
    ensures
        srt_result_view(r) == parse_srt_spec(input@),
{
    let chars = chars_of(input);
    let normalized = normalize(&chars);
    let pieces = split_blank(&normalized);
    let blocks = trim_nonblank(&pieces);
    let ghost bs = seqs_of(blocks@);
    assert(bs == srt_blocks(input@));
    let mut out: Vec<Subtitle> = Vec::new();
    let mut i: usize = 0;
    assert(bs.take(0) =~= Seq::<Seq<char>>::empty());
    assert(subtitles_view(out@) =~= Seq::<SubtitleView>::empty());
    while i < blocks.len()
        invariant
            i <= blocks.len(),
            bs == seqs_of(blocks@),
            bs == srt_blocks(input@),
            parse_blocks(bs.take(i as int)) == Ok::<Seq<SubtitleView>, ParseErrorView>(
                subtitles_view(out@),
            ),
        decreases blocks.len() - i,
    {
        let ghost next = bs.take(i + 1);
        assert(next.drop_last() =~= bs.take(i as int));
        assert(next.last() == blocks@[i as int]@);
        match parse_one_block(&blocks[i]) {
            Ok(s) => {
                let ghost before = out@;
                out.push(s);
                assert(subtitles_view(out@) =~= subtitles_view(before).push(s@));
            },
            Err(e) => {
                proof {
                    lemma_parse_blocks_err(bs, i + 1);
                }
                return Err(e);
            },
        }
        i = i + 1;
    }
    assert(bs.take(blocks.len() as int) =~= bs);
    Ok(out)
}


pub(crate) fn push_arrow(out: &mut String)
    ensures
        final(out)@ == old(out)@ + arrow_sep(),
{
    push_char(out, ' ');
    push_char(out, '-');
    push_char(out, '-');
    push_char(out, '>');
    push_char(out, ' ');
    assert(out@ =~= old(out)@ + arrow_sep());
}

/// Appends each line and a `'\n'` after it.
pub(crate) fn push_lines(out: &mut String, ls: &Vec<String>)
    ensures
        final(out)@ == old(out)@ + lines_text(strings_view(ls@)),
{
    let ghost lv = strings_view(ls@);
    let mut j: usize = 0;
    assert(lv.take(0) =~= Seq::<Seq<char>>::empty());
    assert(out@ =~= old(out)@ + lines_text(lv.take(0)));
    while j < ls.len()
        invariant
            j <= ls.len(),
            lv == strings_view(ls@),
            out@ == old(out)@ + lines_text(lv.take(j as int)),
        decreases ls.len() - j,
    {
        let ghost next = lv.take(j + 1);
        assert(next.drop_last() =~= lv.take(j as int));
        assert(next.last() == ls@[j as int]@);
        out.append(ls[j].as_str());
        push_char(out, '\n');
        j = j + 1;
        assert(out@ =~= old(out)@ + lines_text(lv.take(j as int)));
    }
    assert(lv.take(ls.len() as int) =~= lv);
}

/// Renders subtitles back into `.srt` text. Indices are written as given on
/// each `Subtitle`; call [`renumber`] first if they need to be sequential.
pub fn format_srt(subtitles: &[Subtitle]) -> (r: String)
    ensures
        r@ == srt_text(subtitles_view(subtitles@)),
{
    let ghost sv = subtitles_view(subtitles@);
    let mut out = String::new();
    let mut i: usize = 0;
    assert(sv.take(0) =~= Seq::<SubtitleView>::empty());
    assert(out@ =~= srt_text(sv.take(0)));
    while i < subtitles.len()
        invariant
            i <= subtitles@.len(),
            sv == subtitles_view(subtitles@),
            out@ == srt_text(sv.take(i as int)),
        decreases subtitles@.len() - i,
    {
        let ghost before = out@;
        let ghost next = sv.take(i + 1);
        assert(next.drop_last() =~= sv.take(i as int));
        let subtitle = &subtitles[i];
        assert(next.last() == subtitle@);
        if i > 0 {
            push_char(&mut out, '\n');
        }
        let ghost sep = out@;
        push_decimal(&mut out, subtitle.index as u64);
        push_char(&mut out, '\n');
        subtitle.start.push_text(&mut out, ',');
        push_arrow(&mut out);
        subtitle.end.push_text(&mut out, ',');
        push_char(&mut out, '\n');
        push_lines(&mut out, &subtitle.lines);
        assert(out@ =~= sep + srt_entry_text(subtitle@));
        i = i + 1;
        assert(out@ =~= srt_text(sv.take(i as int)));
    }
    assert(sv.take(subtitles@.len() as int) =~= sv);
    out
}

/// A subtitle with its start and end moved by `offset`, each held to
/// `[0, u32::MAX]`.
pub open spec fn shifted_view(s: SubtitleView, offset: int) -> SubtitleView {
    SubtitleView {
        index: s.index,
        start: clamp_u32(s.start + offset),
        end: clamp_u32(s.end + offset),
        lines: s.lines,
    }
}

/// Returns a copy of `subtitles` with every start and end time moved by
/// `offset_millis` (negative moves earlier). Times are clamped at zero
/// rather than going negative.
pub fn shift_by(subtitles: &[Subtitle], offset_millis: i64) -> (r: Vec<Subtitle>)
    ensures
        subtitles_view(r@) == subtitles_view(subtitles@).map_values(
            |s: SubtitleView| shifted_view(s, offset_millis as int),
        ),
        r@.len() == subtitles@.len(),
        forall|i: int|
            #![trigger r@[i]]
            0 <= i < r@.len() ==> {
                let s = subtitles@[i];
                &&& r@[i].index == s.index
                &&& r@[i].lines@ == s.lines@
                &&& (0 <= s.start@ + offset_millis <= u32::MAX ==> r@[i].start@ == s.start@
                    + offset_millis)
                &&& (s.start@ + offset_millis < 0 ==> r@[i].start@ == 0)
                &&& (s.start@ + offset_millis > u32::MAX ==> r@[i].start@ == u32::MAX)
                &&& (0 <= s.end@ + offset_millis <= u32::MAX ==> r@[i].end@ == s.end@
                    + offset_millis)
                &&& (s.end@ + offset_millis < 0 ==> r@[i].end@ == 0)
                &&& (s.end@ + offset_millis > u32::MAX ==> r@[i].end@ == u32::MAX)
            },
{
    let ghost target = subtitles_view(subtitles@).map_values(
        |s: SubtitleView| shifted_view(s, offset_millis as int),
    );
    let mut out: Vec<Subtitle> = Vec::new();
    let mut i: usize = 0;
    while i < subtitles.len()
        invariant
            i <= subtitles@.len(),
            target == subtitles_view(subtitles@).map_values(
                |s: SubtitleView| shifted_view(s, offset_millis as int),
            ),
            subtitles_view(out@) == target.take(i as int),
            out@.len() == i,
            forall|k: int| 0 <= k < i ==> (#[trigger] out@[k]).lines@ == subtitles@[k].lines@,
        decreases subtitles@.len() - i,
    {
        let subtitle = &subtitles[i];
        let lines = subtitle.lines.clone();
        assert(lines@ == subtitle.lines@);
        let shifted = Subtitle {
            index: subtitle.index,
            start: subtitle.start.shifted(offset_millis),
            end: subtitle.end.shifted(offset_millis),
            lines,
        };
        assert(shifted@ == target[i as int]);
        let ghost before = out@;
        out.push(shifted);
        assert(subtitles_view(out@) =~= subtitles_view(before).push(target[i as int]));
        assert(target.take(i + 1) =~= target.take(i as int).push(target[i as int]));
        i = i + 1;
    }
    assert(target.take(subtitles@.len() as int) =~= target);
    assert forall|k: int| 0 <= k < out@.len() implies out@[k]@ == shifted_view(
        subtitles@[k]@,
        offset_millis as int,
    ) by {
        assert(subtitles_view(out@)[k] == out@[k]@);
        assert(target[k] == shifted_view(subtitles@[k]@, offset_millis as int));
    }
    out
}

/// A subtitle with its index replaced.
pub open spec fn with_index(s: SubtitleView, index: u32) -> SubtitleView {
    SubtitleView { index, start: s.start, end: s.end, lines: s.lines }
}

/// Returns a copy of `subtitles` with indices replaced by 1, 2, 3, ... in
/// their current order. Useful after inserting, removing, or reordering
/// entries.
pub fn renumber(subtitles: &[Subtitle]) -> (r: Vec<Subtitle>)
    requires
        subtitles@.len() <= u32::MAX,
    ensures
        subtitles_view(r@) == Seq::new(
            subtitles@.len(),
            |i: int| with_index(subtitles@[i]@, (i + 1) as u32),
        ),
        r@.len() == subtitles@.len(),
        forall|i: int|
            #![trigger r@[i]]
            0 <= i < r@.len() ==> {
                &&& r@[i].index == i + 1
                &&& r@[i].start == subtitles@[i].start
                &&& r@[i].end == subtitles@[i].end
                &&& r@[i].lines@ == subtitles@[i].lines@
            },
{
    let ghost target = Seq::new(
        subtitles@.len(),
        |i: int| with_index(subtitles@[i]@, (i + 1) as u32),
    );
    let mut out: Vec<Subtitle> = Vec::new();
    let mut i: usize = 0;
    while i < subtitles.len()
        invariant
            i <= subtitles@.len() <= u32::MAX,
            target == Seq::new(
                subtitles@.len(),
                |i: int| with_index(subtitles@[i]@, (i + 1) as u32),
            ),
            subtitles_view(out@) == target.take(i as int),
            out@.len() == i,
            forall|k: int|
                #![trigger out@[k]]
                0 <= k < i ==> {
                    &&& out@[k].index == k + 1
                    &&& out@[k].start == subtitles@[k].start
                    &&& out@[k].end == subtitles@[k].end
                    &&& out@[k].lines@ == subtitles@[k].lines@
                },
        decreases subtitles@.len() - i,
    {
        let subtitle = &subtitles[i];
        let lines = subtitle.lines.clone();
        assert(lines@ == subtitle.lines@);
        let renumbered = Subtitle { index: i as u32 + 1, start: subtitle.start, end: subtitle.end, lines };
        assert(renumbered@ == target[i as int]);
        let ghost before = out@;
        out.push(renumbered);
        assert(subtitles_view(out@) =~= subtitles_view(before).push(target[i as int]));
        assert(target.take(i + 1) =~= target.take(i as int).push(target[i as int]));
        i = i + 1;
    }
    assert(target.take(subtitles@.len() as int) =~= target);
    out
}


/// The message that describes a SubRip parse error.
pub open spec fn srt_error_message(e: ParseErrorView) -> Seq<char> {
    match e {
        ParseErrorView::EmptyBlock => "found an empty subtitle block"@,
        ParseErrorView::InvalidIndex(s) => "invalid subtitle index: "@ + debug_str(s),
        ParseErrorView::MissingTimingLine(i) => "subtitle "@ + decimal(i as nat)
            + " is missing its timing line"@,
        ParseErrorView::InvalidTimingLine(i, s) => "subtitle "@ + decimal(i as nat)
            + " has an invalid timing line: "@ + debug_str(s),
        ParseErrorView::InvalidTimestamp(i, t) => "subtitle "@ + decimal(i as nat)
            + " has an invalid timestamp: "@ + time_error_message(t),
    }
}

impl ParseError {
    /// The message that describes the error.
    pub fn message(&self) -> (r: String)
        ensures
            r@ == srt_error_message(self@),
    {
        let mut out = String::new();
        match self {
            ParseError::EmptyBlock => {
                out.append("found an empty subtitle block");
            },
            ParseError::InvalidIndex(s) => {
                out.append("invalid subtitle index: ");
                out.append(debug_string(s.as_str()).as_str());
            },
            ParseError::MissingTimingLine(i) => {
                out.append("subtitle ");
                push_decimal(&mut out, *i as u64);
                out.append(" is missing its timing line");
            },
            ParseError::InvalidTimingLine(i, s) => {
                out.append("subtitle ");
                push_decimal(&mut out, *i as u64);
                out.append(" has an invalid timing line: ");
                out.append(debug_string(s.as_str()).as_str());
            },
            ParseError::InvalidTimestamp(i, t) => {
                out.append("subtitle ");
                push_decimal(&mut out, *i as u64);
                out.append(" has an invalid timestamp: ");
                out.append(t.message().as_str());
            },
        }
        assert(out@ =~= srt_error_message(self@));
        out
    }
}


// ---------------------------------------------------------------------------
// Laws
// ---------------------------------------------------------------------------

/// Text lines that come back unchanged when written out and read again: none
/// empty, none holding a line ending, and the last not ending in whitespace,
/// since reading trims each block.
pub open spec fn srt_lines_ok(ls: Seq<Seq<char>>) -> bool {
    &&& plain_lines(ls)
    &&& ls.len() > 0 ==> !is_ws(ls.last().last())
}

/// A subtitle that `format_srt` writes in a form that `parse_srt` reads back.
pub open spec fn writable_subtitle(s: SubtitleView) -> bool {
    srt_lines_ok(s.lines)
}

/// The timing line of an entry.
pub open spec fn timing_text(start: u32, end: u32, sep: char) -> Seq<char> {
    timestamp_text(start, sep) + arrow_sep() + timestamp_text(end, sep)
}

pub proof fn lemma_timing_text(start: u32, end: u32, sep: char)
    requires
        sep == ',' || sep == '.',
    ensures
        timing_text(start, end, sep).len() > 0,
        lacks(timing_text(start, end, sep), '\n'),
        lacks(timing_text(start, end, sep), '\r'),
        !is_ws(timing_text(start, end, sep)[0]),
        !is_ws(timing_text(start, end, sep).last()),
        find_arrow(timing_text(start, end, sep), 0) == timestamp_text(start, sep).len() + 1,
        trim(timing_text(start, end, sep).take(find_arrow(timing_text(start, end, sep), 0)))
            == timestamp_text(start, sep),
        timing_text(start, end, sep).skip(find_arrow(timing_text(start, end, sep), 0) + 3)
            == seq![' '] + timestamp_text(end, sep),
{
    let a = timestamp_text(start, sep);
    let b = timestamp_text(end, sep);
    let t = timing_text(start, end, sep);
    lemma_timestamp_text_plain(start, sep);
    lemma_timestamp_text_plain(end, sep);
    let k = a.len() as int;
    assert(t[k] == ' ' && t[k + 1] == '-' && t[k + 2] == '-' && t[k + 3] == '>');
    assert forall|i: int| 0 <= i < t.len() implies #[trigger] t[i] != '\n' && t[i] != '\r' by {
        if i < k {
            assert(t[i] == a[i]);
        } else if i >= k + 5 {
            assert(t[i] == b[i - k - 5]);
        }
    }
    assert forall|i: int| 0 <= i < k + 1 implies #[trigger] t[i] != '-' by {
        if i < k {
            assert(t[i] == a[i]);
        }
    }
    lemma_find_arrow_at(t, 0, k + 1);
    assert(t[0] == a[0]);
    assert(t.last() == b.last());
    assert(all_ws(seq![' '])) by {
        assert(is_ws(seq![' '][0]));
    }
    assert(all_ws(Seq::<char>::empty()));
    lemma_trim_around(seq![], a, seq![' ']);
    assert(t.take(k + 1) =~= Seq::<char>::empty() + a + seq![' ']);
    assert(t.skip(k + 4) =~= seq![' '] + b);
}

/// A timing line that `format_srt` writes reads back as its two times.
pub proof fn lemma_timing_line_parses(start: u32, end: u32, index: u32)
    ensures
        parse_timing_line(timing_text(start, end, ','), index) == Ok::<
            (u32, u32),
            ParseErrorView,
        >((start, end)),
{
    let t = timing_text(start, end, ',');
    let b = timestamp_text(end, ',');
    lemma_timing_text(start, end, ',');
    lemma_timestamp_text_plain(end, ',');
    assert(all_ws(seq![' '])) by {
        assert(is_ws(seq![' '][0]));
    }
    assert(all_ws(Seq::<char>::empty()));
    lemma_trim_around(seq![' '], b, seq![]);
    assert(seq![' '] + b + Seq::<char>::empty() =~= seq![' '] + b);
    lemma_word_end_at(b, 0, b.len() as int);
    assert(b.take(b.len() as int) =~= b);
    lemma_timestamp_text_parses(start, ',');
    lemma_timestamp_text_parses(end, ',');
}

/// The lines that an entry is written as: the index, the timing line, then
/// the text lines.
pub open spec fn entry_lines(s: SubtitleView) -> Seq<Seq<char>> {
    seq![decimal(s.index as nat), timing_text(s.start, s.end, ',')] + s.lines
}

pub proof fn lemma_entry_text_lines(s: SubtitleView)
    ensures
        srt_entry_text(s) == lines_text(entry_lines(s)),
{
    let h = seq![decimal(s.index as nat), timing_text(s.start, s.end, ',')];
    lemma_lines_text_concat(h, s.lines);
    assert(h.drop_last() =~= seq![decimal(s.index as nat)]);
    assert(h.drop_last().drop_last() =~= Seq::<Seq<char>>::empty());
    assert(lines_text(h.drop_last().drop_last()) =~= Seq::<char>::empty());
    assert(lines_text(h.drop_last()) =~= decimal(s.index as nat) + seq!['\n']);
    assert(lines_text(h) =~= decimal(s.index as nat) + seq!['\n'] + timing_text(
        s.start,
        s.end,
        ',',
    ) + seq!['\n']);
    assert(srt_entry_text(s) =~= lines_text(h) + lines_text(s.lines));
}

/// The entry of a writable subtitle is a good entry, and its block reads
/// back as the subtitle.
pub proof fn lemma_entry_round_trip(s: SubtitleView)
    requires
        writable_subtitle(s),
    ensures
        good_entry(srt_entry_text(s)),
        parse_block(srt_entry_text(s).drop_last()) == Ok::<SubtitleView, ParseErrorView>(s),
{
    let d = decimal(s.index as nat);
    let t = timing_text(s.start, s.end, ',');
    let ls = entry_lines(s);
    lemma_decimal_digits(s.index as nat);
    lemma_digits_plain(d);
    lemma_timing_text(s.start, s.end, ',');
    assert(plain_lines(ls)) by {
        assert forall|i: int| 0 <= i < ls.len() implies (#[trigger] ls[i]).len() > 0 && lacks(
            ls[i],
            '\n',
        ) && lacks(ls[i], '\r') by {
            if i >= 2 {
                assert(ls[i] == s.lines[i - 2]);
            }
        }
    }
    lemma_entry_text_lines(s);
    let e = srt_entry_text(s);
    lemma_lines_text_shape(ls);
    lemma_lines_text_plain(ls);
    lemma_lines_text_core_lines(ls);
    assert(ls[0] == d);
    assert(is_digit(d[0]));
    assert(e.drop_last()[0] == e[0]);
    assert(e.drop_last().last() == e[e.len() - 2]);
    if s.lines.len() > 0 {
        assert(ls.last() == s.lines.last());
    } else {
        assert(ls.last() == t);
    }
    // Reading the block back.
    assert(is_trimmed(d)) by {
        assert(is_digit(d[d.len() - 1]));
    }
    lemma_trim_trimmed(d);
    lemma_parse_digits(d);
    lemma_timing_line_parses(s.start, s.end, s.index);
    assert(ls.skip(2) =~= s.lines);
}

/// The entries of the subtitles joined with blank lines are what
/// `format_srt` writes.
pub proof fn lemma_srt_text_sep_join(subs: Seq<SubtitleView>)
    ensures
        srt_text(subs) == sep_join(subs.map_values(|s: SubtitleView| srt_entry_text(s))),
    decreases subs.len(),
{
    let es = subs.map_values(|s: SubtitleView| srt_entry_text(s));
    if subs.len() > 0 {
        lemma_srt_text_sep_join(subs.drop_last());
        assert(es.drop_last() =~= subs.drop_last().map_values(
            |s: SubtitleView| srt_entry_text(s),
        ));
    }
}

/// Blocks that each read back as a subtitle read back, together, as all of
/// them.
pub proof fn lemma_parse_blocks_all(bs: Seq<Seq<char>>, subs: Seq<SubtitleView>)
    requires
        bs.len() == subs.len(),
        forall|i: int|
            0 <= i < bs.len() ==> parse_block(#[trigger] bs[i]) == Ok::<
                SubtitleView,
                ParseErrorView,
            >(subs[i]),
    ensures
        parse_blocks(bs) == Ok::<Seq<SubtitleView>, ParseErrorView>(subs),
    decreases bs.len(),
{
    if bs.len() > 0 {
        let bi = bs.drop_last();
        let si = subs.drop_last();
        assert forall|i: int| 0 <= i < bi.len() implies parse_block(#[trigger] bi[i]) == Ok::<
            SubtitleView,
            ParseErrorView,
        >(si[i]) by {
            assert(bi[i] == bs[i] && si[i] == subs[i]);
        }
        lemma_parse_blocks_all(bi, si);
        assert(parse_block(bs.last()) == Ok::<SubtitleView, ParseErrorView>(subs.last()));
        assert(si.push(subs.last()) =~= subs);
    } else {
        assert(subs =~= Seq::<SubtitleView>::empty());
    }
}

/// Writing subtitles out with `format_srt` and reading the text back with
/// `parse_srt` gives the same subtitles, as long as each one's text lines
/// survive the trip (see `writable_subtitle`).
pub proof fn law_srt_format_then_parse(subs: Seq<SubtitleView>)
    requires
        forall|i: int| 0 <= i < subs.len() ==> writable_subtitle(#[trigger] subs[i]),
    ensures
        parse_srt_spec(srt_text(subs)) == Ok::<Seq<SubtitleView>, ParseErrorView>(subs),
{
    let es = subs.map_values(|s: SubtitleView| srt_entry_text(s));
    assert forall|i: int| 0 <= i < es.len() implies good_entry(#[trigger] es[i]) by {
        lemma_entry_round_trip(subs[i]);
    }
    lemma_srt_text_sep_join(subs);
    lemma_entries_blocks(es);
    let cores = es.map_values(|e: Seq<char>| e.drop_last());
    assert forall|i: int| 0 <= i < cores.len() implies parse_block(#[trigger] cores[i]) == Ok::<
        SubtitleView,
        ParseErrorView,
    >(subs[i]) by {
        lemma_entry_round_trip(subs[i]);
    }
    lemma_parse_blocks_all(cores, subs);
}


/// Every block of any text is trimmed and holds no blank line and no
/// carriage return.
pub proof fn lemma_srt_blocks_shape(input: Seq<char>)
    ensures
        forall|k: int|
            0 <= k < srt_blocks(input).len() ==> is_trimmed(#[trigger] srt_blocks(input)[k])
                && no_blank(srt_blocks(input)[k]) && lacks(srt_blocks(input)[k], '\r'),
{
    let n = normalize_newlines(input);
    lemma_normalize_no_cr(input);
    lemma_blank_pieces(n, '\r');
    lemma_nonblank_trimmed_parts(blank_split(n), '\r');
}

/// A subtitle read from a block has text lines that survive being written
/// out and read again.
pub proof fn lemma_parsed_block_writable(b: Seq<char>)
    requires
        is_trimmed(b),
        no_blank(b),
        lacks(b, '\r'),
        parse_block(b) is Ok,
    ensures
        writable_subtitle(parse_block(b)->Ok_0),
{
    let ls = lines(b);
    lemma_block_lines(b);
    let t = ls.skip(2);
    assert(parse_block(b)->Ok_0.lines == t);
    assert forall|i: int| 0 <= i < t.len() implies (#[trigger] t[i]).len() > 0 && lacks(
        t[i],
        '\n',
    ) && lacks(t[i], '\r') by {
        assert(t[i] == ls[i + 2]);
    }
    if t.len() > 0 {
        assert(t.last() == ls.last());
    }
}

pub proof fn lemma_parse_blocks_ok(bs: Seq<Seq<char>>)
    requires
        parse_blocks(bs) is Ok,
    ensures
        parse_blocks(bs)->Ok_0.len() == bs.len(),
        forall|k: int|
            0 <= k < bs.len() ==> parse_block(#[trigger] bs[k]) == Ok::<
                SubtitleView,
                ParseErrorView,
            >(parse_blocks(bs)->Ok_0[k]),
    decreases bs.len(),
{
    if bs.len() > 0 {
        let init = bs.drop_last();
        lemma_parse_blocks_ok(init);
        let r = parse_blocks(init)->Ok_0;
        let all = parse_blocks(bs)->Ok_0;
        assert forall|k: int| 0 <= k < bs.len() implies parse_block(#[trigger] bs[k]) == Ok::<
            SubtitleView,
            ParseErrorView,
        >(all[k]) by {
            if k < init.len() {
                assert(bs[k] == init[k]);
                assert(all[k] == r[k]);
            } else {
                assert(bs[k] == bs.last());
            }
        }
    }
}

/// Whatever `parse_srt` reads, `format_srt` writes in a form that
/// `parse_srt` reads back as the same subtitles.
pub proof fn law_srt_parse_format_parse(input: Seq<char>)
    requires
        parse_srt_spec(input) is Ok,
    ensures
        parse_srt_spec(srt_text(parse_srt_spec(input)->Ok_0)) == parse_srt_spec(input),
{
    let bs = srt_blocks(input);
    let subs = parse_srt_spec(input)->Ok_0;
    lemma_srt_blocks_shape(input);
    lemma_parse_blocks_ok(bs);
    assert forall|i: int| 0 <= i < subs.len() implies writable_subtitle(#[trigger] subs[i]) by {
        lemma_parsed_block_writable(bs[i]);
    }
    law_srt_format_then_parse(subs);
}


/// A file with Windows line endings reads the same as with Unix ones.
pub proof fn law_srt_crlf(input: Seq<char>)
    requires
        lacks(input, '\r'),
    ensures
        parse_srt_spec(to_crlf(input)) == parse_srt_spec(input),
{
    lemma_normalize_crlf(input);
    lemma_normalize_plain(input);
}

/// A file with lone `'\r'` line endings reads the same as with `'\n'`.
pub proof fn law_srt_cr(input: Seq<char>)
    requires
        lacks(input, '\r'),
    ensures
        parse_srt_spec(to_cr(input)) == parse_srt_spec(input),
{
    lemma_normalize_cr(input);
    lemma_normalize_plain(input);
}

/// Shifting by an offset and then back by it gives the subtitle back, when
/// neither time had to be held to the range on the way.
pub proof fn law_shift_back(s: SubtitleView, offset: int)
    requires
        0 <= s.start + offset <= u32::MAX,
        0 <= s.end + offset <= u32::MAX,
    ensures
        shifted_view(shifted_view(s, offset), -offset) == s,
{
}

/// Renumbering numbers from 1 whatever the indices were, so renumbering a
/// second time changes nothing.
pub proof fn law_renumber_twice(subs: Seq<SubtitleView>)
    requires
        subs.len() <= u32::MAX,
    ensures
        ({
            let once = Seq::new(subs.len(), |i: int| with_index(subs[i], (i + 1) as u32));
            Seq::new(once.len(), |i: int| with_index(once[i], (i + 1) as u32)) == once
        }),
{
    let once = Seq::new(subs.len(), |i: int| with_index(subs[i], (i + 1) as u32));
    assert(Seq::new(once.len(), |i: int| with_index(once[i], (i + 1) as u32)) =~= once);
}


/// Shifting moves a subtitle's start and end by exactly the offset when the
/// result fits, holds them at `0` or `u32::MAX` otherwise, and leaves its
/// index and lines alone, whatever they are.
pub proof fn law_shift_moves_times(s: SubtitleView, offset: int)
    ensures
        shifted_view(s, offset).index == s.index,
        shifted_view(s, offset).lines == s.lines,
        0 <= s.start + offset <= u32::MAX ==> shifted_view(s, offset).start == s.start + offset,
        s.start + offset < 0 ==> shifted_view(s, offset).start == 0,
        s.start + offset > u32::MAX ==> shifted_view(s, offset).start == u32::MAX,
        0 <= s.end + offset <= u32::MAX ==> shifted_view(s, offset).end == s.end + offset,
        s.end + offset < 0 ==> shifted_view(s, offset).end == 0,
        s.end + offset > u32::MAX ==> shifted_view(s, offset).end == u32::MAX,
{
}

/// Renumbering gives the `i`th subtitle the index `i + 1`, so the indices
/// are strictly increasing from 1, and keeps everything else.
pub proof fn law_renumber_indices(subs: Seq<SubtitleView>)
    requires
        subs.len() <= u32::MAX,
    ensures
        ({
            let r = Seq::new(subs.len(), |i: int| with_index(subs[i], (i + 1) as u32));
            &&& forall|i: int| 0 <= i < r.len() ==> #[trigger] r[i].index == i + 1
            &&& forall|i: int, j: int| 0 <= i < j < r.len() ==> #[trigger] r[i].index
                < #[trigger] r[j].index
            &&& forall|i: int|
                0 <= i < r.len() ==> #[trigger] r[i].start == subs[i].start && r[i].end
                    == subs[i].end && r[i].lines == subs[i].lines
        }),
{
}


/// The end time of a timing line is the timestamp that the first word after
/// `"-->"` parses to, and the start time the one that the text before it
/// parses to: for a start without `'-'`, any whitespace, an end word, and
/// nothing or hints after whitespace, the line gives what the two texts
/// give on their own.
pub proof fn law_timing_line_times(
    start: Seq<char>,
    ws: Seq<char>,
    end: Seq<char>,
    hints: Seq<char>,
    index: u32,
)
    requires
        lacks(start, '-'),
        all_ws(ws),
        end.len() > 0,
        no_ws(end),
        hints.len() == 0 || is_ws(hints[0]),
        parse_timestamp(start) is Ok,
        parse_timestamp(end) is Ok,
    ensures
        parse_timing_line(start + seq!['-', '-', '>'] + ws + end + hints, index) == Ok::<
            (u32, u32),
            ParseErrorView,
        >((parse_timestamp(start)->Ok_0, parse_timestamp(end)->Ok_0)),
{
    let line = start + seq!['-', '-', '>'] + ws + end + hints;
    let k = start.len() as int;
    assert forall|i: int| 0 <= i < k implies #[trigger] line[i] != '-' by {
        assert(line[i] == start[i]);
    }
    assert(line[k] == '-' && line[k + 1] == '-' && line[k + 2] == '>');
    lemma_find_arrow_at(line, 0, k);
    assert(line.take(k) =~= start);
    lemma_trim_idem(start);
    assert(line.skip(k + 3) =~= ws + end + hints);
    lemma_first_word(ws, end, hints);
}


/// A SubRip timing line written with `'.'` as the separator of the
/// milliseconds, as WebVTT writes it, reads as the same two times.
pub proof fn law_timing_line_with_dots(start: u32, end: u32, index: u32)
    ensures
        parse_timing_line(timing_text(start, end, '.'), index) == Ok::<
            (u32, u32),
            ParseErrorView,
        >((start, end)),
{
    let b = timestamp_text(end, '.');
    lemma_timing_text(start, end, '.');
    lemma_timestamp_text_plain(end, '.');
    assert(all_ws(seq![' '])) by {
        assert(is_ws(seq![' '][0]));
    }
    assert(all_ws(Seq::<char>::empty()));
    lemma_trim_around(seq![' '], b, seq![]);
    assert(seq![' '] + b + Seq::<char>::empty() =~= seq![' '] + b);
    lemma_word_end_at(b, 0, b.len() as int);
    assert(b.take(b.len() as int) =~= b);
    lemma_timestamp_text_parses(start, '.');
    lemma_timestamp_text_parses(end, '.');
}

} // verus!
