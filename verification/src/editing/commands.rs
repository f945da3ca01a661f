//! What each editing command does to the text, stated as the replacements
//! that it makes.
use super::edits::apply_edits;
use super::text::{
    at_boundary, find_dot_space, indent_of, line_end_from, line_from, line_start_at,
    starts_numeric, starts_with2, trimmed_of};
use vstd::prelude::*;
use vstd::utf8::encode_utf8;

verus! {

/// Marker types for list items
#[derive(Debug, Clone, Copy, PartialEq, Eq)]
pub enum Marker {
    Dash,
    Asterisk,
    Plus,
    Numbered,
}

/// Commands that can be applied to the document
pub enum Cmd {
    InsertText { at: usize, text: String },
    DeleteRange { range: std::ops::Range<usize> },
    SplitListItem { at: usize },
    IndentLines { range: std::ops::Range<usize> },
    OutdentLines { range: std::ops::Range<usize> },
    ToggleMarker { line_start: usize, to: Marker },
}

/// The list marker that a line (after its indent) starts with: `-`, `*`
/// or `+` when followed by a space, or the text up to and including the
/// first `.` of a `. ` when the line starts with a numeric character.
pub open spec fn list_marker(trimmed: Seq<u8>) -> Option<Seq<u8>> {
    if starts_with2(trimmed, 45u8, 32u8) {
        Some(seq![45u8])
    } else if starts_with2(trimmed, 42u8, 32u8) {
        Some(seq![42u8])
    } else if starts_with2(trimmed, 43u8, 32u8) {
        Some(seq![43u8])
    } else if starts_numeric(trimmed) {
        match find_dot_space(trimmed) {
            Some(p) => Some(trimmed.take(p + 1)),
            None => None,
        }
    } else {
        None
    }
}

/// The text that splitting a list item at offset `at` inserts: a line feed,
/// the line's indent, and its marker followed by a space when it has one.
pub open spec fn split_insert(t: Seq<u8>, at: int) -> Seq<u8> {
    let line = line_from(t, line_start_at(t, at));
    seq![10u8] + indent_of(line) + match list_marker(trimmed_of(line)) {
        Some(m) => m + seq![32u8],
        None => Seq::empty(),
    }
}

/// The bytes of the marker that `ToggleMarker` writes.
pub open spec fn marker_text(m: Marker) -> Seq<u8> {
    match m {
        Marker::Dash => seq![45u8, 32u8],
        Marker::Asterisk => seq![42u8, 32u8],
        Marker::Plus => seq![43u8, 32u8],
        Marker::Numbered => seq![49u8, 46u8, 32u8],
    }
}

/// The length of the marker (with its space) that `ToggleMarker` replaces:
/// 2 for `- `, `* ` or `+ `; up to and including the first `. ` after a
/// leading numeric character; otherwise none.
pub open spec fn existing_marker_len(trimmed: Seq<u8>) -> int {
    if starts_with2(trimmed, 45u8, 32u8) || starts_with2(trimmed, 42u8, 32u8) || starts_with2(
        trimmed,
        43u8,
        32u8,
    ) {
        2
    } else if starts_numeric(trimmed) {
        match find_dot_space(trimmed) {
            Some(p) => p + 2,
            None => 0,
        }
    } else {
        0
    }
}

/// The lines of the text from offset `s`: the spans between line feeds,
/// where a text that ends with a line feed has no empty last line.
pub open spec fn lines_from(t: Seq<u8>, s: int) -> Seq<(int, int)>
    decreases t.len() - s,
{
    if s < 0 || s >= t.len() {
        Seq::empty()
    } else {
        let e = line_end_from(t, s);
        if e < t.len() && s < e + 1 {
            seq![(s, e)] + lines_from(t, e + 1)
        } else {
            seq![(s, t.len() as int)]
        }
    }
}

/// The edit that indenting or outdenting makes to one line, if any.
pub open spec fn line_edit(t: Seq<u8>, line: (int, int), outdent: bool) -> Option<(int, int, Seq<u8>)> {
    let (s, e) = line;
    if outdent {
        if e - s >= 2 && t[s] == 32u8 && t[s + 1] == 32u8 {
            Some((s, s + 2, Seq::empty()))
        } else if e - s >= 1 && t[s] == 32u8 {
            Some((s, s + 1, Seq::empty()))
        } else {
            None
        }
    } else {
        Some((s, s, seq![32u8, 32u8]))
    }
}

/// The edit that indenting (or outdenting) makes to one line, as a list,
/// when the line touches `lo..hi`.
pub open spec fn line_part(t: Seq<u8>, line: (int, int), lo: int, hi: int, outdent: bool) -> Seq<
    (int, int, Seq<u8>),
> {
    if line.0 < hi && line.1 >= lo {
        match line_edit(t, line, outdent) {
            Some(ed) => seq![ed],
            None => Seq::empty(),
        }
    } else {
        Seq::empty()
    }
}

/// The edits that indenting (or outdenting) the lines that touch
/// `lo..hi` makes, for the given lines.
pub open spec fn lines_edits(t: Seq<u8>, lines: Seq<(int, int)>, lo: int, hi: int, outdent: bool) -> Seq<
    (int, int, Seq<u8>),
>
    decreases lines.len(),
{
    if lines.len() == 0 {
        Seq::empty()
    } else {
        line_part(t, lines[0], lo, hi, outdent) + lines_edits(t, lines.drop_first(), lo, hi, outdent)
    }
}

/// A line ending in a line feed is followed by the lines after it.
pub proof fn lemma_lines_step(t: Seq<u8>, s: int, e: int, lo: int, hi: int, outdent: bool)
    requires
        0 <= s <= e < t.len(),
        line_end_from(t, s) == e,
    ensures
        lines_edits(t, lines_from(t, s), lo, hi, outdent) == line_part(t, (s, e), lo, hi, outdent)
            + lines_edits(t, lines_from(t, e + 1), lo, hi, outdent),
{
    let ls = lines_from(t, s);
    assert(ls == seq![(s, e)] + lines_from(t, e + 1));
    assert(ls.drop_first() =~= lines_from(t, e + 1));
}

/// The last line, when the text does not end with a line feed.
pub proof fn lemma_lines_last(t: Seq<u8>, s: int, lo: int, hi: int, outdent: bool)
    requires
        0 <= s <= t.len(),
        line_end_from(t, s) == t.len(),
    ensures
        lines_edits(t, lines_from(t, s), lo, hi, outdent) == (if s < t.len() {
            line_part(t, (s, t.len() as int), lo, hi, outdent)
        } else {
            Seq::empty()
        }),
{
    if s < t.len() {
        let ls = lines_from(t, s);
        assert(ls == seq![(s, t.len() as int)]);
        assert(ls.drop_first() =~= Seq::<(int, int)>::empty());
        assert(ls[0] == (s, t.len() as int));
        assert(lines_edits(t, ls.drop_first(), lo, hi, outdent) == Seq::<(int, int, Seq<u8>)>::empty());
        assert(lines_edits(t, ls, lo, hi, outdent) =~= line_part(t, (s, t.len() as int), lo, hi, outdent));
    }
}

/// The replacements that a command makes in the text `t`.
pub open spec fn cmd_edits(t: Seq<u8>, cmd: Cmd) -> Seq<(int, int, Seq<u8>)> {
    match cmd {
        Cmd::InsertText { at, text } => seq![(at as int, at as int, encode_utf8(text@))],
        Cmd::DeleteRange { range } => seq![(range.start as int, range.end as int, Seq::empty())],
        Cmd::SplitListItem { at } => seq![(at as int, at as int, split_insert(t, at as int))],
        Cmd::IndentLines { range } => lines_edits(
            t,
            lines_from(t, 0),
            range.start as int,
            range.end as int,
            false,
        ),
        Cmd::OutdentLines { range } => lines_edits(
            t,
            lines_from(t, 0),
            range.start as int,
            range.end as int,
            true,
        ),
        Cmd::ToggleMarker { line_start, to } => {
            let line = line_from(t, line_start as int);
            let p = line_start + indent_of(line).len();
            seq![(p, p + existing_marker_len(trimmed_of(line)), marker_text(to))]
        },
    }
}

/// The text after a command, and the room that the editor needs for it:
/// the old and the new text, and a split's measurement, fit in `usize`.
pub open spec fn cmd_fits(t: Seq<u8>, cmd: Cmd) -> bool {
    t.len() + cmd_result(t, cmd).len() + 2 <= usize::MAX
}

/// The text after a command.
pub open spec fn cmd_result(t: Seq<u8>, cmd: Cmd) -> Seq<u8> {
    apply_edits(t, cmd_edits(t, cmd))
}

/// The inputs on which a command does its work: offsets that it reads or
/// cuts at lie inside the text and on character boundaries.
pub open spec fn cmd_in_bounds(t: Seq<u8>, cmd: Cmd) -> bool {
    match cmd {
        Cmd::InsertText { at, .. } => at_boundary(t, at as int),
        Cmd::DeleteRange { range } => range.start <= range.end && at_boundary(t, range.start as int)
            && at_boundary(t, range.end as int),
        Cmd::SplitListItem { at } => at_boundary(t, at as int),
        Cmd::IndentLines { .. } => true,
        Cmd::OutdentLines { .. } => true,
        Cmd::ToggleMarker { line_start, .. } => at_boundary(t, line_start as int),
    }
}

/// How the selection moves under a command: insertions at or before it
/// shift it, insertions inside it grow it, deletions before it shift it
/// back, deletions that overlap it collapse it to the deletion's start, and
/// line commands leave it. The length of a list-item split is measured on
/// the text after the split (`t`), as the editor does.
pub open spec fn transformed_selection(t: Seq<u8>, sel: (int, int), cmd: Cmd) -> (int, int) {
    let (s, e) = sel;
    match cmd {
        Cmd::InsertText { at, text } => shift_for_insert(sel, at as int, encode_utf8(text@).len() as int),
        Cmd::SplitListItem { at } => shift_for_insert(sel, at as int, split_insert(t, at as int).len() as int),
        Cmd::DeleteRange { range } => {
            let n = range.end - range.start;
            if range.end <= s {
                (s - n, e - n)
            } else if range.start >= e {
                (s, e)
            } else {
                (range.start as int, range.start as int)
            }
        },
        _ => (s, e),
    }
}

pub open spec fn shift_for_insert(sel: (int, int), at: int, n: int) -> (int, int) {
    let (s, e) = sel;
    if at <= s {
        (s + n, e + n)
    } else if at < e {
        (s, e + n)
    } else {
        (s, e)
    }
}

} // verus!
