# subtitle files as plain data, verified

A library for parsing, editing and writing subtitle files (SubRip `.srt` and
WebVTT `.vtt`), written in Verus: every function states what it returns in
its contract, and Verus proves the code against it.

- `src/time.rs`: `Timestamp`, a millisecond count; building one from fields,
  shifting with clamping, parsing `HH:MM:SS,mmm` / `HH:MM:SS.mmm`, formatting.
- `src/srt.rs`: `parse_srt`, `format_srt`, `shift_by`, `renumber`.
- `src/vtt.rs`: `parse_vtt`, `format_vtt`.
- `src/text.rs`: the character-level pieces the formats share (trimming,
  line endings, splitting at blank lines and into lines, decimal digits),
  each an executable function with a spec function that says what it gives.
- `src/text_facts.rs`: lemmas about those spec functions.

Each format module ends with its laws, proved as proof functions: a
timestamp, a list of subtitles or a list of cues that is written out and read
back comes back unchanged (for the SubRip and WebVTT lists, when its text
survives the trip, which everything that parsing produces does); Windows line
endings and a byte order mark do not change what is read.

`app/lib.rs` adds `Display` and `std::error::Error` on thin wrappers of the
library's error types and of `Timestamp`.
