//! What the renderer reads from the text of a block, given the block's byte
//! range in the document: a heading's level, the range of a block's own
//! content, a list item's marker and depth, a code fence's language.
use super::commands::Marker;
use super::document::{find_dot_space_in, Document};
use super::text::{
    find_dot_space, indent_of, lemma_after_ascii, lemma_indent_split, line_start_at, starts_with2, str_trim_start,
    trimmed_of};
use crate::models::chars::{chars_to_string, str_to_chars};
use crate::parsing::text::{trim_chars, trim_range};
use vstd::prelude::*;
use vstd::string::StringSliceAdditionalSpecFns;
use vstd::utf8::*;

verus! {

broadcast use vstd::utf8::encode_utf8_valid_utf8;

/// A byte range of the document that starts and ends on character
/// boundaries.
pub open spec fn text_range(doc: Document, r: std::ops::Range<usize>) -> bool {
    &&& r.start <= r.end <= doc.bytes().len()
    &&& is_char_boundary(doc.bytes(), r.start as int)
    &&& is_char_boundary(doc.bytes(), r.end as int)
}

/// The bytes of a range of the document.
pub open spec fn range_text(doc: Document, r: std::ops::Range<usize>) -> Seq<u8> {
    doc.bytes().subrange(r.start as int, r.end as int)
}

/// The number of `#` bytes that the text starts with.
pub open spec fn hash_run(x: Seq<u8>) -> nat
    decreases x.len(),
{
    if x.len() > 0 && x[0] == 35u8 {
        1 + hash_run(x.drop_first())
    } else {
        0
    }
}

proof fn lemma_hash_run(x: Seq<u8>)
    ensures
        hash_run(x) <= x.len(),
        forall|i: int| 0 <= i < hash_run(x) ==> x[i] == 35u8,
        hash_run(x) < x.len() ==> x[hash_run(x) as int] != 35u8,
    decreases x.len(),
{
    if x.len() > 0 && x[0] == 35u8 {
        lemma_hash_run(x.drop_first());
        assert forall|i: int| 0 <= i < hash_run(x) implies x[i] == 35u8 by {
            if i > 0 {
                assert(x[i] == x.drop_first()[i - 1]);
            }
        }
    }
}

/// The number of `#` bytes at the start of `x`, counted by a loop.
fn count_hashes(x: &[u8]) -> (n: usize)
    ensures
        n == hash_run(x@),
{
    let mut i: usize = 0;
    proof {
        lemma_hash_run(x@);
    }
    while i < x.len() && x[i] == 35u8
        invariant
            0 <= i <= hash_run(x@),
            hash_run(x@) <= x@.len(),
            forall|j: int| 0 <= j < hash_run(x@) ==> x@[j] == 35u8,
            hash_run(x@) < x@.len() ==> x@[hash_run(x@) as int] != 35u8,
        decreases x@.len() - i,
    {
        i = i + 1;
    }
    i
}

/// A heading's level: its leading `#` count, taken as a byte, kept within
/// 1 to 6.
pub open spec fn heading_level(x: Seq<u8>) -> u8 {
    let c = hash_run(x) as u8;
    if c < 1 {
        1
    } else if c > 6 {
        6
    } else {
        c
    }
}

/// Extract heading level from an ATX heading's byte range
pub fn extract_heading_level(doc: &Document, range: &std::ops::Range<usize>) -> (r: u8)
    requires
        text_range(*doc, *range),
    ensures
        r == heading_level(range_text(*doc, *range)),
{
    let text = doc.slice_to_cow(range.start..range.end);
    let b = text.as_str().as_bytes();
    let n = count_hashes(b);
    let level = n as u8;
    if level < 1 {
        1
    } else if level > 6 {
        6
    } else {
        level
    }
}

/// Whether the text ends with a line feed.
pub open spec fn ends_nl(x: Seq<u8>) -> bool {
    x.len() > 0 && x.last() == 10u8
}

/// The content of a heading at `a..e`: after its `#`s and one space, up to
/// its end without a final line feed.
pub open spec fn heading_content(x: Seq<u8>, a: int, e: int) -> (int, int) {
    let h = hash_run(x) as int;
    (
        a + h + if h < x.len() && x[h] == 32u8 {
            1int
        } else {
            0int
        },
        e - if ends_nl(x) {
            1int
        } else {
            0int
        },
    )
}

/// Extract content range for a heading (after the # markers and space)
pub fn extract_heading_content_range(doc: &Document, range: &std::ops::Range<usize>) -> (r: std::ops::Range<usize>)
    requires
        text_range(*doc, *range),
    ensures
        (r.start as int, r.end as int) == heading_content(range_text(*doc, *range), range.start as int, range.end as int),
        range.start <= r.start <= r.end <= range.end,
{
    let text = doc.slice_to_cow(range.start..range.end);
    let b = text.as_str().as_bytes();
    let n = count_hashes(b);
    proof {
        lemma_hash_run(b@);
    }
    let mut content_start = range.start + n;
    if n < b.len() && b[n] == 32u8 {
        content_start = content_start + 1;
    }
    let mut content_end = range.end;
    if b.len() > 0 && b[b.len() - 1] == 10u8 {
        content_end = content_end - 1;
    }
    content_start..content_end
}

/// The content of a paragraph at `a..e`: all of it but a final line feed,
/// or a final carriage return and line feed.
pub open spec fn paragraph_content(x: Seq<u8>, a: int, e: int) -> (int, int) {
    (
        a,
        if ends_nl(x) {
            if x.len() > 1 && x[x.len() - 2] == 13u8 {
                e - 2
            } else {
                e - 1
            }
        } else {
            e
        },
    )
}

/// Extract content range for a paragraph (excluding trailing newlines)
pub fn extract_paragraph_content_range(doc: &Document, range: &std::ops::Range<usize>) -> (r: std::ops::Range<usize>)
    requires
        text_range(*doc, *range),
    ensures
        (r.start as int, r.end as int) == paragraph_content(range_text(*doc, *range), range.start as int, range.end as int),
        range.start <= r.start <= r.end <= range.end,
{
    let text = doc.slice_to_cow(range.start..range.end);
    let b = text.as_str().as_bytes();
    let mut content_end = range.end;
    if b.len() > 0 && b[b.len() - 1] == 10u8 {
        content_end = content_end - 1;
        if b.len() > 1 && b[b.len() - 2] == 13u8 {
            content_end = content_end - 1;
        }
    }
    range.start..content_end
}

/// The position of the first line feed in the text.
pub open spec fn first_nl(x: Seq<u8>) -> Option<int>
    decreases x.len(),
{
    if x.len() == 0 {
        None
    } else if x[0] == 10u8 {
        Some(0)
    } else {
        match first_nl(x.drop_first()) {
            Some(p) => Some(p + 1),
            None => None,
        }
    }
}

proof fn lemma_first_nl(x: Seq<u8>)
    ensures
        match first_nl(x) {
            Some(p) => 0 <= p < x.len() && x[p] == 10u8 && forall|j: int| 0 <= j < p ==> x[j] != 10u8,
            None => forall|j: int| 0 <= j < x.len() ==> x[j] != 10u8,
        },
    decreases x.len(),
{
    if x.len() > 0 {
        lemma_first_nl(x.drop_first());
        if x[0] != 10u8 {
            assert forall|j: int| 0 < j < x.len() implies x[j] == x.drop_first()[j - 1] by {}
        }
    }
}

/// The position of the first line feed in `x`, searched by a loop.
fn find_newline(x: &[u8]) -> (r: Option<usize>)
    ensures
        match first_nl(x@) {
            Some(p) => r == Some(p as usize),
            None => r is None,
        },
{
    proof {
        lemma_first_nl(x@);
    }
    let mut i: usize = 0;
    while i < x.len()
        invariant
            0 <= i <= x@.len(),
            forall|j: int| 0 <= j < i ==> x@[j] != 10u8,
        decreases x@.len() - i,
    {
        if x[i] == 10u8 {
            proof {
                lemma_first_nl(x@);
                match first_nl(x@) {
                    Some(p) => {
                        if p < i {
                            assert(x@[p] != 10u8);
                        }
                    },
                    None => {},
                }
            }
            return Some(i);
        }
        i = i + 1;
    }
    None
}

/// A list item's own line at `a..e`: up to its first line feed.
pub open spec fn own_line(x: Seq<u8>, a: int, e: int) -> (int, int) {
    (
        a,
        match first_nl(x) {
            Some(p) => a + p,
            None => e,
        },
    )
}

/// Extract the byte range for just the list item's own line (excluding children)
pub fn extract_list_item_own_range(doc: &Document, range: &std::ops::Range<usize>) -> (r: std::ops::Range<usize>)
    requires
        text_range(*doc, *range),
    ensures
        (r.start as int, r.end as int) == own_line(range_text(*doc, *range), range.start as int, range.end as int),
        range.start <= r.start <= r.end <= range.end,
{
    let text = doc.slice_to_cow(range.start..range.end);
    let b = text.as_str().as_bytes();
    proof {
        lemma_first_nl(b@);
    }
    let line_end = match find_newline(b) {
        Some(p) => range.start + p,
        None => range.end,
    };
    range.start..line_end
}

/// The number of spaces and tabs that the text has from offset `s` on.
pub open spec fn indent_run(t: Seq<u8>, s: int) -> nat
    decreases t.len() - s,
{
    if 0 <= s < t.len() && (t[s] == 32u8 || t[s] == 9u8) {
        1 + indent_run(t, s + 1)
    } else {
        0
    }
}

/// A list item's depth: the spaces and tabs that start its line, four to a
/// level.
pub open spec fn list_depth(t: Seq<u8>, start: int) -> nat {
    indent_run(t, line_start_at(t, start)) / 4
}

/// Calculate the depth of a list item based on indentation
pub fn calculate_list_depth(doc: &Document, start_byte: usize) -> (r: usize)
    requires
        start_byte <= doc.bytes().len(),
        is_char_boundary(doc.bytes(), start_byte as int),
    ensures
        r == list_depth(doc.bytes(), start_byte as int),
{
    let len = doc.len();
    proof {
        is_char_boundary_start_end_of_seq(doc.bytes());
    }
    let full_text = doc.slice_to_cow(0..len);
    let b = full_text.as_str().as_bytes();
    let ghost t = doc.bytes();
    assert(b@ =~= t);
    let mut line_start = start_byte;
    while line_start > 0 && b[line_start - 1] != 10u8
        invariant
            b@ == t,
            line_start <= start_byte <= t.len(),
            line_start_at(t, start_byte as int) == line_start_at(t, line_start as int),
        decreases line_start,
    {
        line_start = line_start - 1;
    }
    let mut i: usize = line_start;
    while i < b.len() && (b[i] == 32u8 || b[i] == 9u8)
        invariant
            b@ == t,
            line_start <= i <= t.len(),
            indent_run(t, line_start as int) == (i - line_start) + indent_run(t, i as int),
        decreases t.len() - i,
    {
        i = i + 1;
    }
    (i - line_start) / 4
}

/// The bytes start with an ASCII digit.
pub open spec fn starts_digit(y: Seq<u8>) -> bool {
    y.len() > 0 && 48u8 <= y[0] <= 57u8
}

/// The marker of a list item whose text is `x`, read after its leading
/// whitespace: `- `, `* `, `+ `, or a digit for a numbered item; a dash
/// where it is none of these.
pub open spec fn item_marker(x: Seq<u8>) -> Marker {
    let y = trimmed_of(x);
    if starts_with2(y, 45u8, 32u8) {
        Marker::Dash
    } else if starts_with2(y, 42u8, 32u8) {
        Marker::Asterisk
    } else if starts_with2(y, 43u8, 32u8) {
        Marker::Plus
    } else if starts_digit(y) {
        Marker::Numbered
    } else {
        Marker::Dash
    }
}

/// The text of a range after its leading whitespace, with its bytes.
fn trimmed_text(doc: &Document, range: &std::ops::Range<usize>) -> (r: String)
    requires
        text_range(*doc, *range),
    ensures
        encode_utf8(r@) == trimmed_of(range_text(*doc, *range)),
        indent_of(range_text(*doc, *range)).len() + encode_utf8(r@).len() == range_text(*doc, *range).len(),
{
    let text = doc.slice_to_cow(range.start..range.end);
    let ghost x = range_text(*doc, *range);
    proof {
        lemma_indent_split(x);
        encode_utf8_decode_utf8(text@);
    }
    let trimmed = str_trim_start(text.as_str());
    assert(trimmed.spec_bytes() == trimmed_of(x));
    String::from_str(trimmed)
}

/// Extract list marker from a list item's byte range
pub fn extract_list_marker(doc: &Document, range: &std::ops::Range<usize>) -> (r: Marker)
    requires
        text_range(*doc, *range),
    ensures
        r == item_marker(range_text(*doc, *range)),
{
    let trimmed = trimmed_text(doc, range);
    let tb = trimmed.as_str().as_bytes();
    if tb.len() >= 2 && tb[0] == 45u8 && tb[1] == 32u8 {
        Marker::Dash
    } else if tb.len() >= 2 && tb[0] == 42u8 && tb[1] == 32u8 {
        Marker::Asterisk
    } else if tb.len() >= 2 && tb[0] == 43u8 && tb[1] == 32u8 {
        Marker::Plus
    } else if tb.len() > 0 && 48u8 <= tb[0] && tb[0] <= 57u8 {
        Marker::Numbered
    } else {
        Marker::Dash
    }
}

/// The width of the marker, with its space, that a list item's text starts
/// with after its leading whitespace: two for a bullet, up to and with the
/// first `. ` for a numbered item, else none.
pub open spec fn marker_width(y: Seq<u8>) -> int {
    if starts_with2(y, 45u8, 32u8) || starts_with2(y, 42u8, 32u8) || starts_with2(y, 43u8, 32u8) {
        2
    } else if starts_digit(y) {
        match find_dot_space(y) {
            Some(d) => d + 2,
            None => 0,
        }
    } else {
        0
    }
}

/// The content of a list item at `a..e`: after its indent and marker, up to
/// the end of its first line.
pub open spec fn item_content(x: Seq<u8>, a: int, e: int) -> (int, int) {
    let k = indent_of(x).len() + marker_width(trimmed_of(x));
    (
        a + k,
        match first_nl(x.skip(k)) {
            Some(p) => a + k + p,
            None => e,
        },
    )
}

/// The position of the first line feed in `x` from offset `s` on, counted
/// from `s`.
fn find_newline_from(x: &[u8], s: usize) -> (r: Option<usize>)
    requires
        s <= x@.len(),
    ensures
        match first_nl(x@.skip(s as int)) {
            Some(p) => r == Some(p as usize),
            None => r is None,
        },
{
    let ghost y = x@.skip(s as int);
    proof {
        lemma_first_nl(y);
    }
    let mut i: usize = s;
    while i < x.len()
        invariant
            s <= i <= x@.len(),
            y == x@.skip(s as int),
            forall|j: int| 0 <= j < i - s ==> y[j] != 10u8,
        decreases x@.len() - i,
    {
        assert(y[i - s] == x@[i as int]);
        if x[i] == 10u8 {
            proof {
                lemma_first_nl(y);
                match first_nl(y) {
                    Some(p) => {
                        if p < i - s {
                            assert(y[p] != 10u8);
                        }
                    },
                    None => {},
                }
            }
            return Some(i - s);
        }
        i = i + 1;
    }
    None
}

/// Extract content range for a list item (after the marker and space)
pub fn extract_list_item_content_range(doc: &Document, range: &std::ops::Range<usize>) -> (r: std::ops::Range<usize>)
    requires
        text_range(*doc, *range),
    ensures
        (r.start as int, r.end as int) == item_content(range_text(*doc, *range), range.start as int, range.end as int),
        range.start <= r.start <= r.end <= range.end,
{
    let ghost x = range_text(*doc, *range);
    let text = doc.slice_to_cow(range.start..range.end);
    let b = text.as_str().as_bytes();
    let trimmed = trimmed_text(doc, range);
    let tb = trimmed.as_str().as_bytes();
    let indent_len = b.len() - tb.len();
    let mut marker_len: usize = 0;
    if (tb.len() >= 2 && tb[0] == 45u8 && tb[1] == 32u8) || (tb.len() >= 2 && tb[0] == 42u8 && tb[1] == 32u8) || (
    tb.len() >= 2 && tb[0] == 43u8 && tb[1] == 32u8) {
        marker_len = 2;
    } else if tb.len() > 0 && 48u8 <= tb[0] && tb[0] <= 57u8 {
        match find_dot_space_in(tb) {
            Some(dot_pos) => {
                marker_len = dot_pos + 2;
            },
            None => {},
        }
    }
    assert(marker_len as int == marker_width(trimmed_of(x)));
    assert(marker_len <= tb.len());
    let k = indent_len + marker_len;
    proof {
        lemma_indent_split(x);
        lemma_first_nl(x.skip(k as int));
    }
    let content_start = range.start + k;
    let content_end = match find_newline_from(b, k) {
        Some(p) => content_start + p,
        None => range.end,
    };
    content_start..content_end
}

/// The position of the last line feed in the text.
pub open spec fn last_nl(x: Seq<u8>) -> Option<int>
    decreases x.len(),
{
    if x.len() == 0 {
        None
    } else if x.last() == 10u8 {
        Some(x.len() - 1)
    } else {
        last_nl(x.drop_last())
    }
}

proof fn lemma_last_nl(x: Seq<u8>)
    ensures
        match last_nl(x) {
            Some(q) => 0 <= q < x.len() && x[q] == 10u8,
            None => true,
        },
    decreases x.len(),
{
    if x.len() > 0 && x.last() != 10u8 {
        lemma_last_nl(x.drop_last());
    }
}

/// The bytes start with three backquotes or three tildes.
pub open spec fn starts_fence(y: Seq<u8>) -> bool {
    ||| (y.len() >= 3 && y[0] == 96u8 && y[1] == 96u8 && y[2] == 96u8)
    ||| (y.len() >= 3 && y[0] == 126u8 && y[1] == 126u8 && y[2] == 126u8)
}

/// The code of a fenced block at `a..e`: after its opening line, up to its
/// last line where that line is a closing fence.
pub open spec fn fence_content(x: Seq<u8>, a: int, e: int) -> (int, int) {
    (
        match first_nl(x) {
            Some(p) => a + p + 1,
            None => a,
        },
        match last_nl(x) {
            Some(q) => if starts_fence(trimmed_of(x.skip(q + 1))) {
                a + q
            } else {
                e
            },
            None => e,
        },
    )
}

/// Extract content range for a fenced code block (the code inside)
pub fn extract_code_fence_content_range(doc: &Document, range: &std::ops::Range<usize>) -> (r: std::ops::Range<usize>)
    requires
        text_range(*doc, *range),
    ensures
        (r.start as int, r.end as int) == fence_content(range_text(*doc, *range), range.start as int, range.end as int),
{
    let ghost x = range_text(*doc, *range);
    let text = doc.slice_to_cow(range.start..range.end);
    let s = text.as_str();
    let b = s.as_bytes();
    assert(b@ == x);
    proof {
        lemma_first_nl(x);
    }
    let content_start = match find_newline(b) {
        Some(p) => range.start + p + 1,
        None => range.start,
    };
    let mut q: usize = b.len();
    assert(x.take(q as int) =~= x);
    while q > 0 && b[q - 1] != 10u8
        invariant
            b@ == x,
            q <= x.len(),
            last_nl(x) == last_nl(x.take(q as int)),
        decreases q,
    {
        assert(x.take(q as int).drop_last() =~= x.take(q - 1));
        q = q - 1;
    }
    if q > 0 {
        assert(x.take(q as int).last() == x[q - 1]);
    }
    let content_end = if q == 0 {
        range.end
    } else {
        let last_newline = q - 1;
        proof {
            lemma_after_ascii(x, q - 1);
        }
        let (_, potential_close) = s.split_at(q);
        assert(potential_close.spec_bytes() =~= x.skip(q as int));
        proof {
            lemma_indent_split(x.skip(q as int));
            encode_utf8_decode_utf8(potential_close@);
        }
        let close = str_trim_start(potential_close);
        let cb = close.as_bytes();
        assert(cb@ == trimmed_of(x.skip(q as int)));
        if (cb.len() >= 3 && cb[0] == 96u8 && cb[1] == 96u8 && cb[2] == 96u8) || (cb.len() >= 3 && cb[0] == 126u8
            && cb[1] == 126u8 && cb[2] == 126u8) {
            range.start + last_newline
        } else {
            range.end
        }
    };
    content_start..content_end
}

/// The position of the first `c` among the characters.
pub open spec fn first_char(cs: Seq<char>, c: char) -> Option<int>
    decreases cs.len(),
{
    if cs.len() == 0 {
        None
    } else if cs[0] == c {
        Some(0)
    } else {
        match first_char(cs.drop_first(), c) {
            Some(p) => Some(p + 1),
            None => None,
        }
    }
}

proof fn lemma_first_char(cs: Seq<char>, c: char)
    ensures
        match first_char(cs, c) {
            Some(p) => 0 <= p < cs.len() && cs[p] == c && forall|j: int| 0 <= j < p ==> cs[j] != c,
            None => forall|j: int| 0 <= j < cs.len() ==> cs[j] != c,
        },
    decreases cs.len(),
{
    if cs.len() > 0 {
        lemma_first_char(cs.drop_first(), c);
        if cs[0] != c {
            assert forall|j: int| 0 < j < cs.len() implies cs[j] == cs.drop_first()[j - 1] by {}
        }
    }
}

/// The number of `c` characters that the text starts with.
pub open spec fn lead_run(cs: Seq<char>, c: char) -> nat
    decreases cs.len(),
{
    if cs.len() > 0 && cs[0] == c {
        1 + lead_run(cs.drop_first(), c)
    } else {
        0
    }
}

/// The language of a fenced code block whose text is `cs`: its first line
/// without the leading backquotes, then without the leading tildes, trimmed;
/// none where that is empty or the text has a single line.
pub open spec fn fence_lang(cs: Seq<char>) -> Option<Seq<char>> {
    match first_char(cs, '\n') {
        Some(p) => {
            let l = cs.take(p);
            let l1 = l.skip(lead_run(l, '`') as int);
            let l2 = l1.skip(lead_run(l1, '~') as int);
            let l3 = trim_chars(l2);
            if l3.len() == 0 {
                None
            } else {
                Some(l3)
            }
        },
        None => None,
    }
}

/// The end of the run of `c` in `cs` that starts at `i`, before `end`.
fn skip_run(cs: &Vec<char>, i: usize, end: usize, c: char) -> (j: usize)
    requires
        i <= end <= cs@.len(),
    ensures
        i <= j <= end,
        j - i == lead_run(cs@.subrange(i as int, end as int), c),
{
    let ghost l = cs@.subrange(i as int, end as int);
    let mut j: usize = i;
    assert(l.skip(0) =~= l);
    while j < end && cs[j] == c
        invariant
            i <= j <= end,
            end <= cs@.len(),
            l == cs@.subrange(i as int, end as int),
            lead_run(l, c) == (j - i) + lead_run(l.skip(j - i), c),
        decreases end - j,
    {
        assert(l.skip(j - i)[0] == cs@[j as int]);
        assert(l.skip(j - i).drop_first() =~= l.skip(j - i + 1));
        j = j + 1;
    }
    if j < end {
        assert(l.skip(j - i)[0] == cs@[j as int]);
    }
    j
}

/// Extract language from a fenced code block's byte range
pub fn extract_code_fence_language(doc: &Document, range: &std::ops::Range<usize>) -> (r: Option<String>)
    requires
        text_range(*doc, *range),
    ensures
        match fence_lang(decode_utf8(range_text(*doc, *range))) {
            Some(l) => r matches Some(s) && s@ == l,
            None => r is None,
        },
{
    let text = doc.slice_to_cow(range.start..range.end);
    let cs = str_to_chars(text.as_str());
    let ghost t = cs@;
    proof {
        encode_utf8_decode_utf8(text@);
        lemma_first_char(t, '\n');
    }
    assert(t == decode_utf8(range_text(*doc, *range)));
    let mut p: usize = 0;
    while p < cs.len() && cs[p] != '\n'
        invariant
            0 <= p <= cs@.len(),
            t == cs@,
            forall|j: int| 0 <= j < p ==> cs@[j] != '\n',
        decreases cs@.len() - p,
    {
        p = p + 1;
    }
    if p == cs.len() {
        proof {
            match first_char(t, '\n') {
                Some(q) => {
                    assert(t[q] == '\n');
                },
                None => {},
            }
        }
        return None;
    }
    proof {
        match first_char(t, '\n') {
            Some(q) => {
                if q < p {
                    assert(t[q] != '\n');
                }
            },
            None => {},
        }
    }
    let ghost l = t.take(p as int);
    let i = skip_run(&cs, 0, p, '`');
    assert(cs@.subrange(0, p as int) =~= l);
    let ghost l1 = l.skip(lead_run(l, '`') as int);
    assert(l1 =~= cs@.subrange(i as int, p as int));
    let j = skip_run(&cs, i, p, '~');
    let ghost l2 = l1.skip(lead_run(l1, '~') as int);
    assert(l2 =~= cs@.subrange(j as int, p as int));
    let lang = trim_range(&cs, j, p);
    if lang.len() == 0 {
        None
    } else {
        Some(chars_to_string(lang.as_slice()))
    }
}

} // verus!
