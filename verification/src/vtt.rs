//! Parsing and formatting for the WebVTT (`.vtt`) subtitle format.
//!
//! WebVTT looks a lot like SubRip (blocks separated by a blank line, each with
//! a timing line and lines of text) but with its own header, optional and
//! non-numeric cue identifiers, `.` instead of `,` in timestamps, and an
//! optional cue settings string after the timing line. It gets its own
//! module rather than reusing the SubRip block parser because those
//! differences run through every step, not just the edges.
use vstd::prelude::*;

use crate::srt::{
    arrow_sep, lemma_timing_text, push_arrow, push_lines, srt_lines_ok, strings_view, timing_text,
};
use crate::text_facts::{
    all_ws, blank_at, good_entry, is_trimmed, lacks, lemma_blank_concat, lemma_blank_none,
    lemma_blank_pieces, lemma_block_lines, lemma_entries_blocks, lemma_find_arrow_at,
    lemma_first_line_prefix, lemma_lacks_concat, lemma_lacks_subrange, lemma_lines_single,
    lemma_lines_text_concat, lemma_lines_text_core_lines, lemma_lines_text_plain,
    lemma_lines_text_shape, lemma_nonblank_trimmed_concat, lemma_nonblank_trimmed_parts,
    lemma_normalize_cr, lemma_normalize_crlf, lemma_normalize_no_cr, lemma_normalize_plain,
    lemma_normalize_prefix, lemma_skip_ws_to, lemma_starts_with_first_char,
    lemma_starts_with_first_line, lemma_starts_with_prefix, lemma_trim_around, lemma_trim_part,
    lemma_trim_trimmed, lemma_word_end_at, no_blank, plain_lines, sep_join, to_cr, to_crlf,
};
use crate::text::{
    back_ws, blank_split, chars_of, copy_range, debug_str, debug_string, decimal, find_arrow,
    find_arrow_exec, is_digit, is_ws, lemma_back_ws_bounds, lemma_word_end_bounds, lines,
    lines_text, nonblank_trimmed, normalize, normalize_newlines, push_char, push_decimal, seqs_of,
    split_blank, split_lines, starts_with, starts_with_exec, string_of, trim, trim_chars,
    trim_nonblank, word_end, word_end_exec,
};
use crate::time::{
    lemma_timestamp_text_parses, lemma_timestamp_text_plain, parse_timestamp, time_error_message,
    timestamp_text, TimeParseError, TimeParseErrorView, Timestamp,
};

verus! {

#[derive(Debug, Clone, PartialEq, Eq)]
pub struct Cue {
    pub identifier: Option<String>,
    pub start: Timestamp,
    pub end: Timestamp,
    pub settings: Option<String>,
    pub lines: Vec<String>,
}

/// A cue as plain values.
pub struct CueView {
    pub identifier: Option<Seq<char>>,
    pub start: u32,
    pub end: u32,
    pub settings: Option<Seq<char>>,
    pub lines: Seq<Seq<char>>,
}

pub open spec fn opt_string_view(s: Option<String>) -> Option<Seq<char>> {
    match s {
        Some(s) => Some(s@),
        None => None,
    }
}

impl View for Cue {
    type V = CueView;

    open spec fn view(&self) -> CueView {
        CueView {
            identifier: opt_string_view(self.identifier),
            start: self.start@,
            end: self.end@,
            settings: opt_string_view(self.settings),
            lines: strings_view(self.lines@),
        }
    }
}

pub open spec fn cues_view(v: Seq<Cue>) -> Seq<CueView> {
    v.map_values(|c: Cue| c@)
}

#[derive(Debug, Clone, PartialEq, Eq)]
pub enum VttParseError {
    MissingHeader,
    EmptyCueBlock(usize),
    MissingTimingLine(usize),
    InvalidTimingLine(usize, String),
    InvalidTimestamp(usize, TimeParseError),
}

/// What went wrong when parsing a WebVTT file, as plain values; cues are
/// numbered from 1 and the blocks that are skipped are not counted.
pub enum VttParseErrorView {
    MissingHeader,
    EmptyCueBlock(nat),
    MissingTimingLine(nat),
    InvalidTimingLine(nat, Seq<char>),
    InvalidTimestamp(nat, TimeParseErrorView),
}

impl View for VttParseError {
    type V = VttParseErrorView;

    open spec fn view(&self) -> VttParseErrorView {
        match self {
            VttParseError::MissingHeader => VttParseErrorView::MissingHeader,
            VttParseError::EmptyCueBlock(n) => VttParseErrorView::EmptyCueBlock(*n as nat),
            VttParseError::MissingTimingLine(n) => VttParseErrorView::MissingTimingLine(
                *n as nat,
            ),
            VttParseError::InvalidTimingLine(n, s) => VttParseErrorView::InvalidTimingLine(
                *n as nat,
                s@,
            ),
            VttParseError::InvalidTimestamp(n, e) => VttParseErrorView::InvalidTimestamp(
                *n as nat,
                e@,
            ),
        }
    }
}

// ---------------------------------------------------------------------------
// What parsing gives
// ---------------------------------------------------------------------------

/// `s` without a leading byte order mark.
pub open spec fn strip_bom(s: Seq<char>) -> Seq<char> {
    if s.len() > 0 && s[0] == '\u{feff}' {
        s.skip(1)
    } else {
        s
    }
}

/// The blocks of a WebVTT file: byte order mark dropped, line endings
/// normalised, split at blank lines, each piece trimmed, and the empty ones
/// left out.
pub open spec fn vtt_blocks(input: Seq<char>) -> Seq<Seq<char>> {
    nonblank_trimmed(blank_split(normalize_newlines(strip_bom(input))))
}

/// The first line of a block, or nothing.
pub open spec fn first_line(block: Seq<char>) -> Seq<char> {
    let ls = lines(block);
    if ls.len() > 0 {
        ls[0]
    } else {
        seq![]
    }
}

/// `NOTE`, `STYLE` and `REGION` blocks are not cues.
pub open spec fn is_skipped_block(b: Seq<char>) -> bool {
    starts_with(b, "NOTE"@) || starts_with(b, "STYLE"@) || starts_with(b, "REGION"@)
}

/// The blocks that are cues, in order.
pub open spec fn cue_blocks(bs: Seq<Seq<char>>) -> Seq<Seq<char>>
    decreases bs.len(),
{
    if bs.len() == 0 {
        seq![]
    } else {
        let r = cue_blocks(bs.drop_last());
        if is_skipped_block(bs.last()) {
            r
        } else {
            r.push(bs.last())
        }
    }
}

/// The start, end and settings of a timing line
/// `START --> END [settings]`: the start is the trimmed text before the
/// first `"-->"`; after it, trimmed, the end runs up to the first
/// whitespace and the settings are the rest, trimmed, if not empty.
pub open spec fn parse_cue_timing(line: Seq<char>, n: nat) -> Result<
    (u32, u32, Option<Seq<char>>),
    VttParseErrorView,
> {
    let a = find_arrow(line, 0);
    let rest = trim(line.skip(a + 3));
    let w = word_end(rest, 0);
    let settings = if w < rest.len() && trim(rest.skip(w + 1)).len() > 0 {
        Some(trim(rest.skip(w + 1)))
    } else {
        None
    };
    if a < 0 {
        Err(VttParseErrorView::InvalidTimingLine(n, line))
    } else {
        match parse_timestamp(trim(line.take(a))) {
            Err(e) => Err(VttParseErrorView::InvalidTimestamp(n, e)),
            Ok(start) => match parse_timestamp(rest.take(w)) {
                Err(e) => Err(VttParseErrorView::InvalidTimestamp(n, e)),
                Ok(end) => Ok((start, end, settings)),
            },
        }
    }
}

/// One cue block: an optional identifier line (a first line without
/// `"-->"`), the timing line, then the text lines.
pub open spec fn parse_cue(block: Seq<char>, n: nat) -> Result<CueView, VttParseErrorView> {
    let ls = lines(block);
    if ls.len() == 0 {
        Err(VttParseErrorView::EmptyCueBlock(n))
    } else {
        let has_id = find_arrow(ls[0], 0) < 0;
        if has_id && ls.len() < 2 {
            Err(VttParseErrorView::MissingTimingLine(n))
        } else {
            let t = if has_id {
                1int
            } else {
                0int
            };
            match parse_cue_timing(ls[t], n) {
                Err(e) => Err(e),
                Ok((start, end, settings)) => Ok(
                    CueView {
                        identifier: if has_id {
                            Some(ls[0])
                        } else {
                            None
                        },
                        start,
                        end,
                        settings,
                        lines: ls.skip(t + 1),
                    },
                ),
            }
        }
    }
}

/// The cue blocks parsed in order, the `i`th (from 1) as cue number `i`; the
/// first that fails gives the error.
pub open spec fn parse_cues(cs: Seq<Seq<char>>) -> Result<Seq<CueView>, VttParseErrorView>
    decreases cs.len(),
{
    if cs.len() == 0 {
        Ok(seq![])
    } else {
        match parse_cues(cs.drop_last()) {
            Err(e) => Err(e),
            Ok(r) => match parse_cue(cs.last(), cs.len()) {
                Err(e) => Err(e),
                Ok(c) => Ok(r.push(c)),
            },
        }
    }
}

/// What `parse_vtt` gives for `input`: the first block must begin with a
/// line that starts with `WEBVTT`; the cues are the other blocks but for
/// `NOTE`, `STYLE` and `REGION` blocks.
pub open spec fn parse_vtt_spec(input: Seq<char>) -> Result<Seq<CueView>, VttParseErrorView> {
    let bs = vtt_blocks(input);
    if bs.len() == 0 || !starts_with(first_line(bs[0]), "WEBVTT"@) {
        Err(VttParseErrorView::MissingHeader)
    } else {
        parse_cues(cue_blocks(bs.skip(1)))
    }
}

pub open spec fn vtt_result_view(r: Result<Vec<Cue>, VttParseError>) -> Result<
    Seq<CueView>,
    VttParseErrorView,
> {
    match r {
        Ok(v) => Ok(cues_view(v@)),
        Err(e) => Err(e@),
    }
}

// ---------------------------------------------------------------------------
// What formatting gives
// ---------------------------------------------------------------------------

/// One cue: a blank line, the identifier line if any, the timing line with
/// the settings if any, then the text lines, each ending in `'\n'`.
pub open spec fn cue_text(c: CueView) -> Seq<char> {
    seq!['\n'] + identifier_text(c.identifier) + timestamp_text(c.start, '.') + arrow_sep() + timestamp_text(c.end, '.') + settings_text(
        c.settings,
    ) + seq!['\n'] + lines_text(c.lines)
}

pub open spec fn cues_text(cs: Seq<CueView>) -> Seq<char>
    decreases cs.len(),
{
    if cs.len() == 0 {
        seq![]
    } else {
        cues_text(cs.drop_last()) + cue_text(cs.last())
    }
}

/// The header line, then the cues.
pub open spec fn vtt_text(cs: Seq<CueView>) -> Seq<char> {
    "WEBVTT\n"@ + cues_text(cs)
}


// ---------------------------------------------------------------------------
// Executable code
// ---------------------------------------------------------------------------

fn parse_timing(line: &Vec<char>, n: usize) -> (r: Result<
    (Timestamp, Timestamp, Option<String>),
    VttParseError,
>)
    ensures
        match r {
            Ok((s, e, st)) => parse_cue_timing(line@, n as nat) == Ok::<
                (u32, u32, Option<Seq<char>>),
                VttParseErrorView,
            >((s@, e@, opt_string_view(st))),
            Err(e) => parse_cue_timing(line@, n as nat) == Err::<
                (u32, u32, Option<Seq<char>>),
                VttParseErrorView,
            >(e@),
        },
{
    let a = match find_arrow_exec(line) {
        Some(a) => a,
        None => {
            return Err(VttParseError::InvalidTimingLine(n, string_of(line)));
        },
    };
    let after = copy_range(line, a + 3, line.len());
    assert(after@ =~= line@.skip(a + 3));
    let rest = trim_chars(&after);
    let w = word_end_exec(&rest, 0);
    let end_text = copy_range(&rest, 0, w);
    assert(end_text@ =~= rest@.take(w as int));
    let settings = if w < rest.len() {
        let tail = copy_range(&rest, w + 1, rest.len());
        assert(tail@ =~= rest@.skip(w + 1));
        let st = trim_chars(&tail);
        if st.len() > 0 {
            Some(string_of(&st))
        } else {
            None
        }
    } else {
        None
    };
    let before = copy_range(line, 0, a);
    assert(before@ =~= line@.take(a as int));
    let start_text = trim_chars(&before);
    let start = match Timestamp::parse_chars(&start_text) {
        Ok(t) => t,
        Err(e) => {
            return Err(VttParseError::InvalidTimestamp(n, e));
        },
    };
    let end = match Timestamp::parse_chars(&end_text) {
        Ok(t) => t,
        Err(e) => {
            return Err(VttParseError::InvalidTimestamp(n, e));
        },
    };
    Ok((start, end, settings))
}

fn parse_cue_block(block: &Vec<char>, n: usize) -> (r: Result<Cue, VttParseError>)
    ensures
        match r {
            Ok(c) => parse_cue(block@, n as nat) == Ok::<CueView, VttParseErrorView>(c@),
            Err(e) => parse_cue(block@, n as nat) == Err::<CueView, VttParseErrorView>(e@),
        },
{
    let ls = split_lines(block);
    let ghost lsv = seqs_of(ls@);
    assert(lsv.len() == ls.len());
    if ls.len() == 0 {
        return Err(VttParseError::EmptyCueBlock(n));
    }
    assert(lsv[0] == ls@[0]@);
    let has_id = find_arrow_exec(&ls[0]).is_none();
    if has_id && ls.len() < 2 {
        return Err(VttParseError::MissingTimingLine(n));
    }
    let t: usize = if has_id {
        1
    } else {
        0
    };
    assert(lsv[t as int] == ls@[t as int]@);
    let (start, end, settings) = parse_timing(&ls[t], n)?;
    let identifier = if has_id {
        Some(string_of(&ls[0]))
    } else {
        None
    };
    let mut text: Vec<String> = Vec::new();
    let mut i: usize = t + 1;
    assert(strings_view(text@) =~= lsv.subrange(t + 1, i as int));
    while i < ls.len()
        invariant
            t + 1 <= i <= ls.len(),
            lsv == seqs_of(ls@),
            strings_view(text@) == lsv.subrange(t + 1, i as int),
        decreases ls.len() - i,
    {
        let s = string_of(&ls[i]);
        assert(lsv[i as int] == ls@[i as int]@);
        let ghost before = text@;
        text.push(s);
        assert(strings_view(text@) =~= strings_view(before).push(s@));
        i = i + 1;
        assert(strings_view(text@) =~= lsv.subrange(t + 1, i as int));
    }
    assert(lsv.subrange(t + 1, ls.len() as int) =~= lsv.skip(t + 1));
    Ok(Cue { identifier, start, end, settings, lines: text })
}

fn is_skipped(block: &Vec<char>) -> (b: bool)
    ensures
        b == is_skipped_block(block@),
{
    starts_with_exec(block, "NOTE") || starts_with_exec(block, "STYLE") || starts_with_exec(
        block,
        "REGION",
    )
}

/// Once the cues up to some point fail, so do all the cues.
pub proof fn lemma_parse_cues_err(cs: Seq<Seq<char>>, k: int)
    requires
        0 <= k <= cs.len(),
        parse_cues(cs.take(k)) is Err,
    ensures
        parse_cues(cs) == parse_cues(cs.take(k)),
    decreases cs.len() - k,
{
    if k < cs.len() {
        let next = cs.take(k + 1);
        assert(next.drop_last() =~= cs.take(k));
        lemma_parse_cues_err(cs, k + 1);
    } else {
        assert(cs.take(k) =~= cs);
    }
}

/// Parses the full contents of a `.vtt` file into an ordered list of cues.
/// The file must start with a `WEBVTT` header block. `NOTE`, `STYLE`, and
/// `REGION` blocks are recognized and skipped rather than treated as cues.
pub fn parse_vtt(input: &str) -> (r: Result<Vec<Cue>, VttParseError>)
    ensures
        vtt_result_view(r) == parse_vtt_spec(input@),
{
    let chars = chars_of(input);
    let without_bom = if chars.len() > 0 && chars[0] == '\u{feff}' {
        copy_range(&chars, 1, chars.len())
    } else {
        chars
    };
    assert(without_bom@ =~= strip_bom(input@));
    let normalized = normalize(&without_bom);
    let pieces = split_blank(&normalized);
    let blocks = trim_nonblank(&pieces);
    let ghost bs = seqs_of(blocks@);
    assert(bs == vtt_blocks(input@));
    if blocks.len() == 0 {
        return Err(VttParseError::MissingHeader);
    }
    let header_lines = split_lines(&blocks[0]);
    assert(bs[0] == blocks@[0]@);
    assert(seqs_of(header_lines@).len() == header_lines.len());
    let is_header = if header_lines.len() > 0 {
        assert(seqs_of(header_lines@)[0] == header_lines@[0]@);
        starts_with_exec(&header_lines[0], "WEBVTT")
    } else {
        let empty: Vec<char> = Vec::new();
        assert(empty@ =~= Seq::<char>::empty());
        starts_with_exec(&empty, "WEBVTT")
    };
    if !is_header {
        return Err(VttParseError::MissingHeader);
    }
    // The blocks that are cues.
    let ghost rest = bs.skip(1);
    let mut kept: Vec<Vec<char>> = Vec::new();
    let mut i: usize = 1;
    assert(rest.take(0) =~= Seq::<Seq<char>>::empty());
    assert(seqs_of(kept@) =~= Seq::<Seq<char>>::empty());
    while i < blocks.len()
        invariant
            1 <= i <= blocks.len(),
            bs == seqs_of(blocks@),
            rest == bs.skip(1),
            seqs_of(kept@) == cue_blocks(rest.take(i - 1)),
        decreases blocks.len() - i,
    {
        let ghost next = rest.take(i as int);
        assert(next.drop_last() =~= rest.take(i - 1));
        assert(next.last() == blocks@[i as int]@);
        if !is_skipped(&blocks[i]) {
            let b = copy_range(&blocks[i], 0, blocks[i].len());
            assert(b@ =~= blocks@[i as int]@);
            proof {
                crate::text::lemma_seqs_of_push(kept@, b);
            }
            kept.push(b);
        }
        i = i + 1;
    }
    assert(rest.take(blocks.len() - 1) =~= rest);
    let ghost cs = seqs_of(kept@);
    let mut out: Vec<Cue> = Vec::new();
    let mut j: usize = 0;
    assert(cs.take(0) =~= Seq::<Seq<char>>::empty());
    assert(cues_view(out@) =~= Seq::<CueView>::empty());
    while j < kept.len()
        invariant
            j <= kept.len(),
            cs == seqs_of(kept@),
            cs == cue_blocks(bs.skip(1)),
            bs == vtt_blocks(input@),
            bs.len() > 0 && starts_with(first_line(bs[0]), "WEBVTT"@),
            parse_cues(cs.take(j as int)) == Ok::<Seq<CueView>, VttParseErrorView>(
                cues_view(out@),
            ),
        decreases kept.len() - j,
    {
        let ghost next = cs.take(j + 1);
        assert(next.drop_last() =~= cs.take(j as int));
        assert(next.last() == kept@[j as int]@);
        match parse_cue_block(&kept[j], j + 1) {
            Ok(c) => {
                let ghost before = out@;
                out.push(c);
                assert(cues_view(out@) =~= cues_view(before).push(c@));
            },
            Err(e) => {
                proof {
                    lemma_parse_cues_err(cs, j + 1);
                }
                return Err(e);
            },
        }
        j = j + 1;
    }
    assert(cs.take(kept.len() as int) =~= cs);
    Ok(out)
}

/// The identifier line of a cue, if it has one.
pub open spec fn identifier_text(id: Option<Seq<char>>) -> Seq<char> {
    match id {
        Some(id) => id + seq!['\n'],
        None => seq![],
    }
}

/// The settings of a cue after a space, if it has any.
pub open spec fn settings_text(settings: Option<Seq<char>>) -> Seq<char> {
    match settings {
        Some(s) => seq![' '] + s,
        None => seq![],
    }
}

fn push_identifier(out: &mut String, id: &Option<String>)
    ensures
        final(out)@ == old(out)@ + identifier_text(opt_string_view(*id)),
{
    match id {
        Some(identifier) => {
            out.append(identifier.as_str());
            push_char(out, '\n');
        },
        None => {},
    }
    assert(out@ =~= old(out)@ + identifier_text(opt_string_view(*id)));
}

fn push_settings(out: &mut String, settings: &Option<String>)
    ensures
        final(out)@ == old(out)@ + settings_text(opt_string_view(*settings)),
{
    match settings {
        Some(settings) => {
            push_char(out, ' ');
            out.append(settings.as_str());
        },
        None => {},
    }
    assert(out@ =~= old(out)@ + settings_text(opt_string_view(*settings)));
}

fn push_cue(out: &mut String, cue: &Cue)
    ensures
        final(out)@ == old(out)@ + cue_text(cue@),
{
    push_char(out, '\n');
    let ghost a = out@;
    push_identifier(out, &cue.identifier);
    let ghost b = out@;
    cue.start.push_text(out, '.');
    let ghost c = out@;
    push_arrow(out);
    let ghost d = out@;
    cue.end.push_text(out, '.');
    let ghost e = out@;
    push_settings(out, &cue.settings);
    let ghost f = out@;
    push_char(out, '\n');
    let ghost g = out@;
    push_lines(out, &cue.lines);
    assert(cue_text(cue@) == seq!['\n'] + identifier_text(cue@.identifier) + timestamp_text(
        cue@.start,
        '.',
    ) + arrow_sep() + timestamp_text(cue@.end, '.') + settings_text(cue@.settings) + seq!['\n']
        + lines_text(cue@.lines));
    assert(out@ =~= old(out)@ + cue_text(cue@));
}

/// Renders cues back into `.vtt` text, including the `WEBVTT` header.
pub fn format_vtt(cues: &[Cue]) -> (r: String)
    ensures
        r@ == vtt_text(cues_view(cues@)),
{
    let ghost cv = cues_view(cues@);
    let mut out = String::new();
    out.append("WEBVTT\n");
    let ghost header = out@;
    let mut i: usize = 0;
    assert(cv.take(0) =~= Seq::<CueView>::empty());
    assert(out@ =~= header + cues_text(cv.take(0)));
    while i < cues.len()
        invariant
            i <= cues@.len(),
            cv == cues_view(cues@),
            header == "WEBVTT\n"@,
            out@ == header + cues_text(cv.take(i as int)),
        decreases cues@.len() - i,
    {
        let ghost before = out@;
        let ghost next = cv.take(i + 1);
        assert(next.drop_last() =~= cv.take(i as int));
        let cue = &cues[i];
        assert(next.last() == cue@);
        push_cue(&mut out, cue);
        assert(out@ =~= before + cue_text(cue@));
        i = i + 1;
        assert(out@ =~= header + cues_text(cv.take(i as int)));
    }
    assert(cv.take(cues@.len() as int) =~= cv);
    out
}

/// The message that describes a WebVTT parse error.
pub open spec fn vtt_error_message(e: VttParseErrorView) -> Seq<char> {
    match e {
        VttParseErrorView::MissingHeader => "file does not start with a WEBVTT header"@,
        VttParseErrorView::EmptyCueBlock(n) => "cue "@ + decimal(n) + " is empty"@,
        VttParseErrorView::MissingTimingLine(n) => "cue "@ + decimal(n)
            + " is missing its timing line"@,
        VttParseErrorView::InvalidTimingLine(n, s) => "cue "@ + decimal(n)
            + " has an invalid timing line: "@ + debug_str(s),
        VttParseErrorView::InvalidTimestamp(n, t) => "cue "@ + decimal(n)
            + " has an invalid timestamp: "@ + time_error_message(t),
    }
}


impl VttParseError {
    /// The message that describes the error.
    pub fn message(&self) -> (r: String)
        ensures
            r@ == vtt_error_message(self@),
    {
        let mut out = String::new();
        match self {
            VttParseError::MissingHeader => {
                out.append("file does not start with a WEBVTT header");
            },
            VttParseError::EmptyCueBlock(n) => {
                out.append("cue ");
                push_decimal(&mut out, *n as u64);
                out.append(" is empty");
            },
            VttParseError::MissingTimingLine(n) => {
                out.append("cue ");
                push_decimal(&mut out, *n as u64);
                out.append(" is missing its timing line");
            },
            VttParseError::InvalidTimingLine(n, s) => {
                out.append("cue ");
                push_decimal(&mut out, *n as u64);
                out.append(" has an invalid timing line: ");
                out.append(debug_string(s.as_str()).as_str());
            },
            VttParseError::InvalidTimestamp(n, t) => {
                out.append("cue ");
                push_decimal(&mut out, *n as u64);
                out.append(" has an invalid timestamp: ");
                out.append(t.message().as_str());
            },
        }
        assert(out@ =~= vtt_error_message(self@));
        out
    }
}


// ---------------------------------------------------------------------------
// Laws
// ---------------------------------------------------------------------------

/// An identifier that comes back unchanged when written out and read again:
/// a single line, not starting with whitespace, holding no `"-->"` (else it
/// would be read as the timing line), and not starting like a block that is
/// skipped.
pub open spec fn writable_identifier(id: Seq<char>) -> bool {
    &&& id.len() > 0
    &&& lacks(id, '\n')
    &&& lacks(id, '\r')
    &&& !is_ws(id[0])
    &&& find_arrow(id, 0) < 0
    &&& !is_skipped_block(id)
}

/// Settings that come back unchanged: trimmed, not empty, and on one line.
pub open spec fn writable_settings(st: Seq<char>) -> bool {
    is_trimmed(st) && lacks(st, '\n') && lacks(st, '\r')
}

/// A cue that `format_vtt` writes in a form that `parse_vtt` reads back.
pub open spec fn writable_cue(c: CueView) -> bool {
    &&& srt_lines_ok(c.lines)
    &&& (c.identifier matches Some(id) ==> writable_identifier(id))
    &&& (c.settings matches Some(st) ==> writable_settings(st))
}

/// The timing line of a cue, with its settings.
pub open spec fn cue_timing_text(c: CueView) -> Seq<char> {
    timing_text(c.start, c.end, '.') + settings_text(c.settings)
}

/// The lines a cue is written as: the identifier if any, the timing line,
/// then the text lines.
pub open spec fn cue_lines(c: CueView) -> Seq<Seq<char>> {
    (match c.identifier {
        Some(id) => seq![id],
        None => seq![],
    }) + seq![cue_timing_text(c)] + c.lines
}

pub proof fn lemma_cue_text_lines(c: CueView)
    ensures
        cue_text(c) == seq!['\n'] + lines_text(cue_lines(c)),
{
    let t = cue_timing_text(c);
    let h: Seq<Seq<char>> = match c.identifier {
        Some(id) => seq![id],
        None => seq![],
    };
    lemma_lines_text_concat(h + seq![t], c.lines);
    lemma_lines_text_concat(h, seq![t]);
    assert(seq![t].drop_last() =~= Seq::<Seq<char>>::empty());
    assert(lines_text(Seq::<Seq<char>>::empty()) =~= Seq::<char>::empty());
    assert(lines_text(seq![t]) =~= t + seq!['\n']);
    match c.identifier {
        Some(id) => {
            assert(seq![id].drop_last() =~= Seq::<Seq<char>>::empty());
            assert(lines_text(h) =~= id + seq!['\n']);
        },
        None => {
            assert(lines_text(h) =~= Seq::<char>::empty());
        },
    }
    assert(cue_text(c) =~= seq!['\n'] + (lines_text(h) + lines_text(seq![t])) + lines_text(
        c.lines,
    ));
}

/// The timing line of a cue that `format_vtt` writes reads back as its
/// times and settings.
pub proof fn lemma_cue_timing_parses(c: CueView, n: nat)
    requires
        c.settings matches Some(st) ==> writable_settings(st),
    ensures
        parse_cue_timing(cue_timing_text(c), n) == Ok::<
            (u32, u32, Option<Seq<char>>),
            VttParseErrorView,
        >((c.start, c.end, c.settings)),
        find_arrow(cue_timing_text(c), 0) >= 0,
        cue_timing_text(c).len() > 0,
        lacks(cue_timing_text(c), '\n'),
        lacks(cue_timing_text(c), '\r'),
        is_digit(cue_timing_text(c)[0]),
        !is_ws(cue_timing_text(c).last()),
{
    let t = timing_text(c.start, c.end, '.');
    let x = settings_text(c.settings);
    let tl = cue_timing_text(c);
    let a = timestamp_text(c.start, '.');
    let b = timestamp_text(c.end, '.');
    lemma_timing_text(c.start, c.end, '.');
    lemma_timestamp_text_plain(c.start, '.');
    lemma_timestamp_text_plain(c.end, '.');
    lemma_timestamp_text_parses(c.start, '.');
    lemma_timestamp_text_parses(c.end, '.');
    let k = (a.len() + 1) as int;
    assert(find_arrow(t, 0) == k);
    // The first arrow of the timing line is the one after the start.
    assert(tl[k] == '-' && tl[k + 1] == '-' && tl[k + 2] == '>') by {
        assert(tl[k] == t[k] && tl[k + 1] == t[k + 1] && tl[k + 2] == t[k + 2]);
        assert(t[k] == arrow_sep()[1]);
    }
    assert forall|i: int| 0 <= i < k implies #[trigger] tl[i] != '-' by {
        assert(tl[i] == t[i]);
        if i < a.len() {
            assert(t[i] == a[i]);
        }
    }
    lemma_find_arrow_at(tl, 0, k);
    assert(tl.take(k) =~= t.take(k));
    assert(tl.skip(k + 3) =~= t.skip(k + 3) + x);
    assert(tl[0] == t[0] && t[0] == a[0]);
    assert(all_ws(seq![' '])) by {
        assert(is_ws(seq![' '][0]));
    }
    assert(all_ws(Seq::<char>::empty()));
    assert(lacks(seq![' '], '\n') && lacks(seq![' '], '\r'));
    match c.settings {
        Some(st) => {
            let y = b + seq![' '] + st;
            assert(tl.skip(k + 3) =~= seq![' '] + y + Seq::<char>::empty());
            assert(is_trimmed(y)) by {
                assert(y[0] == b[0]);
                assert(y.last() == st.last());
            }
            lemma_trim_around(seq![' '], y, seq![]);
            assert(y[b.len() as int] == ' ');
            assert(is_ws(y[b.len() as int]));
            assert forall|j: int| 0 <= j < b.len() implies !is_ws(#[trigger] y[j]) by {
                assert(y[j] == b[j]);
            }
            lemma_word_end_at(y, 0, b.len() as int);
            assert(y.take(b.len() as int) =~= b);
            assert(y.skip((b.len() + 1) as int) =~= st);
            lemma_trim_trimmed(st);
            assert(tl =~= t + (seq![' '] + st));
            lemma_lacks_concat(seq![' '], st, '\n');
            lemma_lacks_concat(seq![' '], st, '\r');
            lemma_lacks_concat(t, seq![' '] + st, '\n');
            lemma_lacks_concat(t, seq![' '] + st, '\r');
            assert(tl.last() == st.last());
        },
        None => {
            assert(x =~= Seq::<char>::empty());
            assert(tl =~= t);
            lemma_trim_around(seq![' '], b, seq![]);
            assert(seq![' '] + b + Seq::<char>::empty() =~= tl.skip(k + 3));
            lemma_word_end_at(b, 0, b.len() as int);
            assert(b.take(b.len() as int) =~= b);
        },
    }
}

/// The identifier of a cue, if it has one, heads its block; the timing
/// line does otherwise.
pub proof fn lemma_cue_round_trip(c: CueView, n: nat)
    requires
        writable_cue(c),
    ensures
        good_entry(lines_text(cue_lines(c))),
        parse_cue(lines_text(cue_lines(c)).drop_last(), n) == Ok::<CueView, VttParseErrorView>(c),
        !is_skipped_block(lines_text(cue_lines(c)).drop_last()),
{
    let ls = cue_lines(c);
    let tl = cue_timing_text(c);
    lemma_cue_timing_parses(c, n);
    let e = lines_text(ls);
    let core = e.drop_last();
    assert(plain_lines(ls)) by {
        assert forall|i: int| 0 <= i < ls.len() implies (#[trigger] ls[i]).len() > 0 && lacks(
            ls[i],
            '\n',
        ) && lacks(ls[i], '\r') by {
            match c.identifier {
                Some(id) => {
                    if i == 0 {
                        assert(ls[i] == id);
                    } else if i == 1 {
                        assert(ls[i] == tl);
                    } else {
                        assert(ls[i] == c.lines[i - 2]);
                    }
                },
                None => {
                    if i == 0 {
                        assert(ls[i] == tl);
                    } else {
                        assert(ls[i] == c.lines[i - 1]);
                    }
                },
            }
        }
    }
    lemma_lines_text_shape(ls);
    lemma_lines_text_plain(ls);
    lemma_lines_text_core_lines(ls);
    assert(core[0] == e[0]);
    assert(core.last() == e[e.len() - 2]);
    if c.lines.len() > 0 {
        assert(ls.last() == c.lines.last());
    } else {
        assert(ls.last() == tl);
    }
    reveal_strlit("NOTE");
    reveal_strlit("STYLE");
    reveal_strlit("REGION");
    assert(lacks("NOTE"@, '\n') && lacks("STYLE"@, '\n') && lacks("REGION"@, '\n'));
    match c.identifier {
        Some(id) => {
            assert(ls[0] == id);
            assert(ls[1] == tl);
            assert(ls.skip(2) =~= c.lines);
            // The block starts with the identifier line.
            let rest = ls.skip(1);
            assert(ls =~= seq![id] + rest);
            lemma_lines_text_concat(seq![id], rest);
            assert(seq![id].drop_last() =~= Seq::<Seq<char>>::empty());
            assert(lines_text(Seq::<Seq<char>>::empty()) =~= Seq::<char>::empty());
            assert(lines_text(seq![id]) =~= id + seq!['\n']);
            lemma_lines_text_shape(rest);
            let r = lines_text(rest).drop_last();
            assert(core =~= id + seq!['\n'] + r);
            if starts_with(core, "NOTE"@) {
                lemma_starts_with_first_line(id, r, "NOTE"@);
            }
            if starts_with(core, "STYLE"@) {
                lemma_starts_with_first_line(id, r, "STYLE"@);
            }
            if starts_with(core, "REGION"@) {
                lemma_starts_with_first_line(id, r, "REGION"@);
            }
        },
        None => {
            assert(ls[0] == tl);
            assert(ls.skip(1) =~= c.lines);
            assert(is_digit(core[0]));
            if starts_with(core, "NOTE"@) {
                lemma_starts_with_first_char(core, "NOTE"@);
            }
            if starts_with(core, "STYLE"@) {
                lemma_starts_with_first_char(core, "STYLE"@);
            }
            if starts_with(core, "REGION"@) {
                lemma_starts_with_first_char(core, "REGION"@);
            }
        },
    }
}


/// What a cue is written as after its blank line.
pub open spec fn cue_entry(c: CueView) -> Seq<char> {
    lines_text(cue_lines(c))
}

/// The header line and the cues, joined with blank lines, are what
/// `format_vtt` writes.
pub proof fn lemma_vtt_text_sep_join(cs: Seq<CueView>)
    ensures
        vtt_text(cs) == sep_join(
            seq!["WEBVTT\n"@] + cs.map_values(|c: CueView| cue_entry(c)),
        ),
    decreases cs.len(),
{
    let w = "WEBVTT\n"@;
    let es = cs.map_values(|c: CueView| cue_entry(c));
    let all = seq![w] + es;
    if cs.len() == 0 {
        assert(all =~= seq![w]);
        assert(all.drop_last() =~= Seq::<Seq<char>>::empty());
        assert(sep_join(all) =~= w);
        assert(vtt_text(cs) =~= w);
    } else {
        let init = cs.drop_last();
        let last = cs.last();
        lemma_vtt_text_sep_join(init);
        let ei = init.map_values(|c: CueView| cue_entry(c));
        assert(all.drop_last() =~= seq![w] + ei);
        assert(all.last() == cue_entry(last));
        assert(cue_text(last) == seq!['\n'] + cue_entry(last)) by {
            lemma_cue_text_lines(last);
        }
        assert(cues_text(cs) == cues_text(init) + cue_text(last));
        let x = sep_join(seq![w] + ei);
        assert(vtt_text(init) == x);
        assert(vtt_text(cs) == w + (cues_text(init) + cue_text(last)));
        assert(vtt_text(cs) =~= x + seq!['\n'] + cue_entry(last));
        assert(all.len() > 1);
        assert(sep_join(all) == sep_join(all.drop_last()) + seq!['\n'] + all.last());
    }
}

pub proof fn lemma_cue_blocks_all(bs: Seq<Seq<char>>)
    requires
        forall|i: int| 0 <= i < bs.len() ==> !is_skipped_block(#[trigger] bs[i]),
    ensures
        cue_blocks(bs) == bs,
    decreases bs.len(),
{
    if bs.len() > 0 {
        let init = bs.drop_last();
        assert forall|i: int| 0 <= i < init.len() implies !is_skipped_block(#[trigger] init[i]) by {
            assert(init[i] == bs[i]);
        }
        lemma_cue_blocks_all(init);
        assert(!is_skipped_block(bs[bs.len() - 1]));
        assert(init.push(bs.last()) =~= bs);
    }
}

pub proof fn lemma_parse_cues_all(bs: Seq<Seq<char>>, cs: Seq<CueView>)
    requires
        bs.len() == cs.len(),
        forall|i: int|
            0 <= i < bs.len() ==> parse_cue(#[trigger] bs[i], (i + 1) as nat) == Ok::<
                CueView,
                VttParseErrorView,
            >(cs[i]),
    ensures
        parse_cues(bs) == Ok::<Seq<CueView>, VttParseErrorView>(cs),
    decreases bs.len(),
{
    if bs.len() > 0 {
        let bi = bs.drop_last();
        let ci = cs.drop_last();
        assert forall|i: int| 0 <= i < bi.len() implies parse_cue(#[trigger] bi[i], (i + 1) as nat)
            == Ok::<CueView, VttParseErrorView>(ci[i]) by {
            assert(bi[i] == bs[i] && ci[i] == cs[i]);
        }
        lemma_parse_cues_all(bi, ci);
        assert(parse_cue(bs[bs.len() - 1], bs.len()) == Ok::<CueView, VttParseErrorView>(
            cs[cs.len() - 1],
        ));
        assert(ci.push(cs.last()) =~= cs);
    } else {
        assert(cs =~= Seq::<CueView>::empty());
    }
}

/// Writing cues out with `format_vtt` and reading the text back with
/// `parse_vtt` gives the same cues, as long as each one survives the trip
/// (see `writable_cue`).
#[verifier::rlimit(50)]
#[verifier::spinoff_prover]
pub proof fn law_vtt_format_then_parse(cs: Seq<CueView>)
    requires
        forall|i: int| 0 <= i < cs.len() ==> writable_cue(#[trigger] cs[i]),
    ensures
        parse_vtt_spec(vtt_text(cs)) == Ok::<Seq<CueView>, VttParseErrorView>(cs),
{
    reveal_strlit("WEBVTT\n");
    reveal_strlit("WEBVTT");
    let w = "WEBVTT\n"@;
    let h = "WEBVTT"@;
    assert(w =~= seq!['W', 'E', 'B', 'V', 'T', 'T', '\n']);
    assert(h =~= seq!['W', 'E', 'B', 'V', 'T', 'T']);
    let es = cs.map_values(|c: CueView| cue_entry(c));
    let all = seq![w] + es;
    assert(w.drop_last() =~= h);
    assert(good_entry(w)) by {
        assert(is_trimmed(h));
        assert forall|i: int| 0 <= i < w.len() - 1 implies !#[trigger] blank_at(w, i) by {}
        assert forall|i: int| 0 <= i < w.len() implies #[trigger] w[i] != '\r' by {}
    }
    assert forall|i: int| 0 <= i < all.len() implies good_entry(#[trigger] all[i]) by {
        if i > 0 {
            assert(all[i] == es[i - 1]);
            lemma_cue_round_trip(cs[i - 1], i as nat);
        }
    }
    lemma_vtt_text_sep_join(cs);
    let text = vtt_text(cs);
    assert(text[0] == 'W');
    assert(strip_bom(text) == text);
    lemma_entries_blocks(all);
    let bs = vtt_blocks(text);
    let cores = es.map_values(|e: Seq<char>| e.drop_last());
    assert(bs =~= seq![h] + cores);
    assert(bs[0] == h);
    assert(lacks(h, '\n') && lacks(h, '\r'));
    lemma_lines_single(h);
    assert(first_line(h) == h);
    assert(h.take(h.len() as int) =~= h);
    assert(bs.skip(1) =~= cores);
    assert forall|i: int| 0 <= i < cores.len() implies !is_skipped_block(#[trigger] cores[i]) by {
        lemma_cue_round_trip(cs[i], (i + 1) as nat);
    }
    lemma_cue_blocks_all(cores);
    assert forall|i: int| 0 <= i < cores.len() implies parse_cue(#[trigger] cores[i], (i + 1) as nat)
        == Ok::<CueView, VttParseErrorView>(cs[i]) by {
        lemma_cue_round_trip(cs[i], (i + 1) as nat);
    }
    lemma_parse_cues_all(cores, cs);
}


pub proof fn lemma_find_arrow_bounds(s: Seq<char>, q: int)
    requires
        0 <= q,
    ensures
        find_arrow(s, q) == -1 || (q <= find_arrow(s, q) && find_arrow(s, q) + 3 <= s.len()),
    decreases s.len() - q,
{
    if q + 3 <= s.len() && !(s[q] == '-' && s[q + 1] == '-' && s[q + 2] == '>') {
        lemma_find_arrow_bounds(s, q + 1);
    }
}

/// Every block of any text is trimmed and holds no blank line and no
/// carriage return.
pub proof fn lemma_vtt_blocks_shape(input: Seq<char>)
    ensures
        forall|k: int|
            0 <= k < vtt_blocks(input).len() ==> is_trimmed(#[trigger] vtt_blocks(input)[k])
                && no_blank(vtt_blocks(input)[k]) && lacks(vtt_blocks(input)[k], '\r'),
{
    let n = normalize_newlines(strip_bom(input));
    lemma_normalize_no_cr(strip_bom(input));
    lemma_blank_pieces(n, '\r');
    lemma_nonblank_trimmed_parts(blank_split(n), '\r');
}

/// The cue blocks are blocks of the text that are not skipped.
pub proof fn lemma_cue_blocks_parts(bs: Seq<Seq<char>>)
    requires
        forall|k: int|
            0 <= k < bs.len() ==> is_trimmed(#[trigger] bs[k]) && no_blank(bs[k]) && lacks(
                bs[k],
                '\r',
            ),
    ensures
        forall|k: int|
            0 <= k < cue_blocks(bs).len() ==> is_trimmed(#[trigger] cue_blocks(bs)[k])
                && no_blank(cue_blocks(bs)[k]) && lacks(cue_blocks(bs)[k], '\r')
                && !is_skipped_block(cue_blocks(bs)[k]),
    decreases bs.len(),
{
    if bs.len() > 0 {
        let init = bs.drop_last();
        assert forall|k: int| 0 <= k < init.len() implies is_trimmed(#[trigger] init[k])
            && no_blank(init[k]) && lacks(init[k], '\r') by {
            assert(init[k] == bs[k]);
        }
        lemma_cue_blocks_parts(init);
        let r = cue_blocks(init);
        let all = cue_blocks(bs);
        assert forall|k: int| 0 <= k < all.len() implies is_trimmed(#[trigger] all[k]) && no_blank(
            all[k],
        ) && lacks(all[k], '\r') && !is_skipped_block(all[k]) by {
            if k < r.len() {
                assert(all[k] == r[k]);
            } else {
                assert(all[k] == bs[bs.len() - 1]);
            }
        }
    }
}

pub proof fn lemma_parse_cues_ok(bs: Seq<Seq<char>>)
    requires
        parse_cues(bs) is Ok,
    ensures
        parse_cues(bs)->Ok_0.len() == bs.len(),
        forall|k: int|
            0 <= k < bs.len() ==> parse_cue(#[trigger] bs[k], (k + 1) as nat) == Ok::<
                CueView,
                VttParseErrorView,
            >(parse_cues(bs)->Ok_0[k]),
    decreases bs.len(),
{
    if bs.len() > 0 {
        let init = bs.drop_last();
        lemma_parse_cues_ok(init);
        let r = parse_cues(init)->Ok_0;
        let all = parse_cues(bs)->Ok_0;
        assert forall|k: int| 0 <= k < bs.len() implies parse_cue(#[trigger] bs[k], (k + 1) as nat)
            == Ok::<CueView, VttParseErrorView>(all[k]) by {
            if k < init.len() {
                assert(bs[k] == init[k]);
                assert(all[k] == r[k]);
            } else {
                assert(bs[k] == bs.last());
            }
        }
    }
}

/// A cue read from a block survives being written out and read again.
pub proof fn lemma_parsed_cue_writable(b: Seq<char>, n: nat)
    requires
        is_trimmed(b),
        no_blank(b),
        lacks(b, '\r'),
        !is_skipped_block(b),
        parse_cue(b, n) is Ok,
    ensures
        writable_cue(parse_cue(b, n)->Ok_0),
{
    let ls = lines(b);
    lemma_block_lines(b);
    let c = parse_cue(b, n)->Ok_0;
    let has_id = find_arrow(ls[0], 0) < 0;
    let t: int = if has_id {
        1
    } else {
        0
    };
    let line = ls[t];
    assert(line.len() > 0 && lacks(line, '\n') && lacks(line, '\r'));
    // The text lines.
    let tl = ls.skip(t + 1);
    assert(c.lines == tl);
    assert forall|i: int| 0 <= i < tl.len() implies (#[trigger] tl[i]).len() > 0 && lacks(
        tl[i],
        '\n',
    ) && lacks(tl[i], '\r') by {
        assert(tl[i] == ls[i + t + 1]);
    }
    if tl.len() > 0 {
        assert(tl.last() == ls.last());
    }
    // The identifier.
    if has_id {
        let id = ls[0];
        assert(c.identifier == Some(id));
        assert(id[0] == b[0]);
        if starts_with(id, "NOTE"@) {
            lemma_starts_with_prefix(b, id.len() as int, "NOTE"@);
        }
        if starts_with(id, "STYLE"@) {
            lemma_starts_with_prefix(b, id.len() as int, "STYLE"@);
        }
        if starts_with(id, "REGION"@) {
            lemma_starts_with_prefix(b, id.len() as int, "REGION"@);
        }
    } else {
        assert(c.identifier is None);
    }
    // The settings.
    let a = find_arrow(line, 0);
    lemma_find_arrow_bounds(line, 0);
    lemma_lacks_subrange(line, '\n', a + 3, line.len() as int);
    lemma_lacks_subrange(line, '\r', a + 3, line.len() as int);
    assert(line.skip(a + 3) =~= line.subrange(a + 3, line.len() as int));
    let rest = trim(line.skip(a + 3));
    lemma_trim_part(line.skip(a + 3), '\n');
    lemma_trim_part(line.skip(a + 3), '\r');
    let w = word_end(rest, 0);
    lemma_word_end_bounds(rest, 0);
    if w < rest.len() {
        let tail = rest.skip(w + 1);
        assert(tail =~= rest.subrange(w + 1, rest.len() as int));
        lemma_lacks_subrange(rest, '\n', w + 1, rest.len() as int);
        lemma_lacks_subrange(rest, '\r', w + 1, rest.len() as int);
        lemma_trim_part(tail, '\n');
        lemma_trim_part(tail, '\r');
    }
}

/// Whatever `parse_vtt` reads, `format_vtt` writes in a form that
/// `parse_vtt` reads back as the same cues.
pub proof fn law_vtt_parse_format_parse(input: Seq<char>)
    requires
        parse_vtt_spec(input) is Ok,
    ensures
        parse_vtt_spec(vtt_text(parse_vtt_spec(input)->Ok_0)) == parse_vtt_spec(input),
{
    let bs = vtt_blocks(input);
    let cbs = cue_blocks(bs.skip(1));
    let cs = parse_vtt_spec(input)->Ok_0;
    lemma_vtt_blocks_shape(input);
    let rest = bs.skip(1);
    assert forall|k: int| 0 <= k < rest.len() implies is_trimmed(#[trigger] rest[k]) && no_blank(
        rest[k],
    ) && lacks(rest[k], '\r') by {
        assert(rest[k] == bs[k + 1]);
    }
    lemma_cue_blocks_parts(rest);
    lemma_parse_cues_ok(cbs);
    assert forall|i: int| 0 <= i < cs.len() implies writable_cue(#[trigger] cs[i]) by {
        lemma_parsed_cue_writable(cbs[i], (i + 1) as nat);
    }
    law_vtt_format_then_parse(cs);
}


/// A file with Windows line endings reads the same as with Unix ones.
pub proof fn law_vtt_crlf(input: Seq<char>)
    requires
        lacks(input, '\r'),
    ensures
        parse_vtt_spec(to_crlf(input)) == parse_vtt_spec(input),
{
    let b = strip_bom(input);
    assert(lacks(b, '\r')) by {
        if input.len() > 0 && input[0] == '\u{feff}' {
            lemma_lacks_subrange(input, '\r', 1, input.len() as int);
            assert(b =~= input.subrange(1, input.len() as int));
        }
    }
    let c = to_crlf(input);
    if input.len() > 0 {
        assert(input[0] != '\n' ==> c[0] == input[0]);
        if input[0] == '\u{feff}' {
            assert(c.skip(1) =~= to_crlf(input.skip(1)));
        } else {
            assert(c.len() > 0 && c[0] != '\u{feff}');
        }
    } else {
        assert(c =~= input);
    }
    assert(strip_bom(c) == to_crlf(b));
    lemma_normalize_crlf(b);
    lemma_normalize_plain(b);
}

/// A file with lone `'\r'` line endings reads the same as with `'\n'`.
pub proof fn law_vtt_cr(input: Seq<char>)
    requires
        lacks(input, '\r'),
    ensures
        parse_vtt_spec(to_cr(input)) == parse_vtt_spec(input),
{
    let b = strip_bom(input);
    assert(lacks(b, '\r')) by {
        if input.len() > 0 && input[0] == '\u{feff}' {
            lemma_lacks_subrange(input, '\r', 1, input.len() as int);
            assert(b =~= input.subrange(1, input.len() as int));
        }
    }
    let c = to_cr(input);
    if input.len() > 0 && input[0] == '\u{feff}' {
        assert(c[0] == '\u{feff}');
        assert(c.skip(1) =~= to_cr(input.skip(1)));
    } else if input.len() > 0 {
        assert(c[0] != '\u{feff}');
    }
    assert(strip_bom(c) =~= to_cr(b));
    lemma_normalize_cr(b);
    lemma_normalize_plain(b);
}

/// A leading byte order mark is ignored.
pub proof fn law_vtt_bom(input: Seq<char>)
    requires
        input.len() == 0 || input[0] != '\u{feff}',
    ensures
        parse_vtt_spec(seq!['\u{feff}'] + input) == parse_vtt_spec(input),
{
    assert((seq!['\u{feff}'] + input).skip(1) =~= input);
}


/// A header block (a first line that starts with `WEBVTT`, no blank line,
/// no carriage return) followed by a blank line is the first block of the
/// text, whose first line starts with `WEBVTT`; the rest of the text gives
/// the other blocks on its own.
pub proof fn lemma_header_block(h: Seq<char>, c: Seq<char>)
    requires
        starts_with(h, "WEBVTT"@),
        no_blank(h),
        lacks(h, '\r'),
        h.last() != '\n',
    ensures
        vtt_blocks(h + seq!['\n', '\n'] + c) == seq![trim(h)] + nonblank_trimmed(
            blank_split(normalize_newlines(c)),
        ),
        starts_with(first_line(trim(h)), "WEBVTT"@),
{
    reveal_strlit("WEBVTT");
    let w = "WEBVTT"@;
    assert(w =~= seq!['W', 'E', 'B', 'V', 'T', 'T']);
    let nn = seq!['\n', '\n'];
    let text = h + nn + c;
    assert(h.take(6) == w);
    assert(h[0] == 'W' && h[5] == 'T');
    assert(text[0] == h[0]);
    assert(strip_bom(text) == text);
    assert(lacks(nn, '\r'));
    lemma_lacks_concat(h, nn, '\r');
    lemma_normalize_prefix(h + nn, c);
    let nc = normalize_newlines(c);
    assert(normalize_newlines(text) == h + nn + nc);
    lemma_blank_concat(h, nc);
    lemma_blank_none(h);
    lemma_nonblank_trimmed_concat(seq![h], blank_split(nc));
    // The header trims to a text that still starts with its first six
    // characters.
    let n = h.len() as int;
    lemma_skip_ws_to(h, 0, 0, n);
    lemma_back_ws_bounds(h, 0, n);
    let b = back_ws(h, 0, n);
    assert(!is_ws(h[5]));
    assert(b >= 6);
    let t = trim(h);
    assert(t == h.subrange(0, b));
    assert(seq![h].drop_last() =~= Seq::<Seq<char>>::empty());
    assert(nonblank_trimmed(Seq::<Seq<char>>::empty()) =~= Seq::<Seq<char>>::empty());
    assert(nonblank_trimmed(seq![h]) =~= seq![t]);
    lemma_lacks_subrange(h, '\r', 0, b);
    assert forall|i: int| 0 <= i < 6 implies #[trigger] t[i] != '\n' by {
        assert(t[i] == h[i] && h[i] == w[i]);
    }
    lemma_first_line_prefix(t, 6);
    let f = lines(t)[0];
    assert(f.take(6) =~= w) by {
        assert forall|i: int| 0 <= i < 6 implies #[trigger] f.take(6)[i] == w[i] by {
            assert(f[i] == t[i] && t[i] == h[i]);
        }
    }
}

/// Only the first line of the header block is looked at: a header block
/// whose first line starts with `WEBVTT` is accepted whatever lines follow
/// in it, and the file reads as if the block were `WEBVTT` alone.
pub proof fn law_vtt_header_block(h: Seq<char>, c: Seq<char>)
    requires
        starts_with(h, "WEBVTT"@),
        no_blank(h),
        lacks(h, '\r'),
        h.last() != '\n',
    ensures
        parse_vtt_spec(h + seq!['\n', '\n'] + c) == parse_vtt_spec(
            "WEBVTT"@ + seq!['\n', '\n'] + c,
        ),
{
    reveal_strlit("WEBVTT");
    let w = "WEBVTT"@;
    assert(w =~= seq!['W', 'E', 'B', 'V', 'T', 'T']);
    assert(starts_with(w, w)) by {
        assert(w.take(6) =~= w);
    }
    assert(no_blank(w));
    assert(lacks(w, '\r'));
    lemma_header_block(h, c);
    lemma_header_block(w, c);
    let r = nonblank_trimmed(blank_split(normalize_newlines(c)));
    assert((seq![trim(h)] + r).skip(1) =~= r);
    assert((seq![trim(w)] + r).skip(1) =~= r);
}

} // verus!
