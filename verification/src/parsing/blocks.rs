//! Reading one markdown block, or several separated by blank lines, and the
//! wiki-links in a text.
use super::text::{
    chunks, find_blank_from, find_pair, find_pair_from, lemma_find_pair, sep_len, sub_chars, sub_string, text_lines,
    trim_chars, trim_range};
use crate::models::chars::{chars_to_string, str_to_chars};
use crate::models::chars::{join_lines, lemma_split_lines_nonempty, repeat_char, split_lines};
use crate::editing::text::{is_white_space, leading_ws};
use super::text::{lemma_trailing_ws_bound, strip_cr, trailing_ws};
use crate::models::document::{
    block_md, block_view, segment_md, segments_md, items_view, item_view, lemma_items_view_index, lemma_items_view_len, segments_view,
    BlockId, BlockView, ContentBlock, ItemView, ListItem, SegmentView, TextSegment};
use vstd::prelude::*;

verus! {

/// The segments of a text: plain text, and `[[target]]` wiki-links with
/// their target trimmed; a `[[` that is not closed stays text.
pub open spec fn wiki_segments(t: Seq<char>) -> Seq<SegmentView>
    decreases t.len(),
{
    proof {
        lemma_find_pair(t, '[', '[');
    }
    match find_pair(t, '[', '[') {
        None => if t.len() > 0 {
            seq![SegmentView::Text(t)]
        } else {
            Seq::empty()
        },
        Some(s) => {
            let pre = if s > 0 {
                seq![SegmentView::Text(t.take(s))]
            } else {
                Seq::empty()
            };
            let after = t.skip(s + 2);
            proof {
                lemma_find_pair(after, ']', ']');
            }
            match find_pair(after, ']', ']') {
                Some(e) => pre + seq![SegmentView::WikiLink(trim_chars(after.take(e)))] + wiki_segments(after.skip(e + 2)),
                None => pre + seq![SegmentView::Text(seq!['[', '['])] + wiki_segments(after),
            }
        },
    }
}

/// Every wiki-link that reading a text finds encloses a target that is its
/// own trim.
pub open spec fn links_trimmed(t: Seq<char>) -> bool
    decreases t.len(),
{
    proof {
        lemma_find_pair(t, '[', '[');
    }
    match find_pair(t, '[', '[') {
        None => true,
        Some(s) => {
            let after = t.skip(s + 2);
            proof {
                lemma_find_pair(after, ']', ']');
            }
            match find_pair(after, ']', ']') {
                Some(e) => trim_chars(after.take(e)) == after.take(e) && links_trimmed(after.skip(e + 2)),
                None => links_trimmed(after),
            }
        },
    }
}

proof fn lemma_segments_md_concat(a: Seq<SegmentView>, b: Seq<SegmentView>)
    ensures
        segments_md(a + b) == segments_md(a) + segments_md(b),
    decreases b.len(),
{
    if b.len() == 0 {
        assert(a + b =~= a);
        assert(segments_md(a) + segments_md(b) =~= segments_md(a));
    } else {
        lemma_segments_md_concat(a, b.drop_last());
        assert((a + b).drop_last() =~= a + b.drop_last());
        assert(segments_md(a + b) =~= segments_md(a) + segments_md(b));
    }
}

proof fn lemma_segments_md_one(x: SegmentView)
    ensures
        segments_md(seq![x]) == segment_md(x),
{
    assert(seq![x].drop_last() =~= Seq::<SegmentView>::empty());
    assert(segments_md(Seq::<SegmentView>::empty()) == Seq::<char>::empty());
    assert(seq![x].last() == x);
    assert(segments_md(seq![x]) =~= segment_md(x));
}

/// Reading a text never gives an empty text segment.
pub proof fn law_no_empty_text_segment(t: Seq<char>)
    ensures
        forall|i: int|
            0 <= i < wiki_segments(t).len() ==> (#[trigger] wiki_segments(t)[i] matches SegmentView::Text(x) ==> x.len()
                > 0),
    decreases t.len(),
{
    lemma_find_pair(t, '[', '[');
    match find_pair(t, '[', '[') {
        None => {},
        Some(s) => {
            let pre = if s > 0 {
                seq![SegmentView::Text(t.take(s))]
            } else {
                Seq::<SegmentView>::empty()
            };
            let after = t.skip(s + 2);
            lemma_find_pair(after, ']', ']');
            let (mid, rest) = match find_pair(after, ']', ']') {
                Some(e) => (seq![SegmentView::WikiLink(trim_chars(after.take(e)))], after.skip(e + 2)),
                None => (seq![SegmentView::Text(seq!['[', '['])], after),
            };
            law_no_empty_text_segment(rest);
            assert(wiki_segments(t) == pre + mid + wiki_segments(rest));
            assert forall|i: int| 0 <= i < wiki_segments(t).len() implies (#[trigger] wiki_segments(t)[i] matches SegmentView::Text(
                y,
            ) ==> y.len() > 0) by {
                if i >= pre.len() + 1 {
                    assert(wiki_segments(t)[i] == wiki_segments(rest)[i - pre.len() - 1]);
                }
            }
        },
    }
}

/// Writing back the segments read from a text gives the text again, where
/// every wiki-link found encloses a trimmed target.
#[verifier::rlimit(40)]
pub proof fn law_wiki_links_round_trip(t: Seq<char>)
    requires
        links_trimmed(t),
    ensures
        segments_md(wiki_segments(t)) == t,
    decreases t.len(),
{
    lemma_find_pair(t, '[', '[');
    match find_pair(t, '[', '[') {
        None => {
            if t.len() > 0 {
                lemma_segments_md_one(SegmentView::Text(t));
            } else {
                assert(t =~= Seq::<char>::empty());
            }
        },
        Some(s) => {
            let pre = if s > 0 {
                seq![SegmentView::Text(t.take(s))]
            } else {
                Seq::<SegmentView>::empty()
            };
            assert(segments_md(pre) == t.take(s)) by {
                if s > 0 {
                    lemma_segments_md_one(SegmentView::Text(t.take(s)));
                } else {
                    assert(t.take(s) =~= Seq::<char>::empty());
                }
            }
            let after = t.skip(s + 2);
            lemma_find_pair(after, ']', ']');
            match find_pair(after, ']', ']') {
                Some(e) => {
                    let x = after.take(e);
                    let rest = after.skip(e + 2);
                    law_wiki_links_round_trip(rest);
                    let mid = seq![SegmentView::WikiLink(trim_chars(x))];
                    lemma_segments_md_one(SegmentView::WikiLink(trim_chars(x)));
                    lemma_segments_md_concat(pre, mid);
                    lemma_segments_md_concat(pre + mid, wiki_segments(rest));
                    assert(wiki_segments(t) == pre + mid + wiki_segments(rest));
                    assert(t =~= t.take(s) + (seq!['[', '['] + x + seq![']', ']']) + rest);
                },
                None => {
                    law_wiki_links_round_trip(after);
                    let mid = seq![SegmentView::Text(seq!['[', '['])];
                    lemma_segments_md_one(SegmentView::Text(seq!['[', '[']));
                    lemma_segments_md_concat(pre, mid);
                    lemma_segments_md_concat(pre + mid, wiki_segments(after));
                    assert(wiki_segments(t) == pre + mid + wiki_segments(after));
                    assert(t =~= t.take(s) + seq!['[', '['] + after);
                },
            }
        },
    }
}

/// The segments of `[[`.
fn open_brackets() -> (s: String)
    ensures
        s@ == seq!['[', '['],
{
    let mut v: Vec<char> = Vec::new();
    v.push('[');
    v.push('[');
    chars_to_string(v.as_slice())
}

/// Splits a text into plain text and wiki-links.
pub fn parse_wiki_links(text: &str) -> (r: Vec<TextSegment>)
    ensures
        segments_view(r@) == wiki_segments(text@),
{
    let t = str_to_chars(text);
    let ghost tv = t@;
    let mut segs: Vec<TextSegment> = Vec::new();
    let mut cur: usize = 0;
    assert(tv.skip(0) =~= tv);
    assert(segments_view(segs@) + wiki_segments(tv.skip(0)) =~= wiki_segments(tv));
    while cur <= t.len()
        invariant
            tv == t@,
            tv == text@,
            cur <= tv.len(),
            segments_view(segs@) + wiki_segments(tv.skip(cur as int)) == wiki_segments(tv),
        decreases tv.len() - cur,
    {
        let ghost rest = tv.skip(cur as int);
        let ghost before = segs@;
        proof {
            lemma_find_pair(rest, '[', '[');
        }
        match find_pair_from(&t, cur, '[', '[') {
            None => {
                if cur < t.len() {
                    let s = sub_string(&t, cur, t.len());
                    segs.push(TextSegment::Text(s));
                    assert(segments_view(segs@) =~= segments_view(before) + wiki_segments(rest));
                } else {
                    assert(segments_view(segs@) =~= segments_view(before) + wiki_segments(rest));
                }
                return segs;
            },
            Some(s_abs) => {
                if s_abs > cur {
                    let s = sub_string(&t, cur, s_abs);
                    segs.push(TextSegment::Text(s));
                }
                let ghost pre_segs = segs@;
                let ghost after = rest.skip(s_abs - cur + 2);
                assert(after =~= tv.skip(s_abs + 2));
                proof {
                    lemma_find_pair(after, ']', ']');
                }
                match find_pair_from(&t, s_abs + 2, ']', ']') {
                    Some(e_abs) => {
                        let target = trim_range(&t, s_abs + 2, e_abs);
                        assert(tv.subrange(s_abs + 2, e_abs as int) =~= after.take(e_abs - s_abs - 2));
                        segs.push(TextSegment::WikiLink { target: chars_to_string(target.as_slice()) });
                        assert(after.skip(e_abs - s_abs - 2 + 2) =~= tv.skip(e_abs + 2));
                        proof {
                            let pre = if s_abs - cur > 0 {
                                seq![SegmentView::Text(rest.take(s_abs - cur))]
                            } else {
                                Seq::<SegmentView>::empty()
                            };
                            assert(rest.take(s_abs - cur) =~= tv.subrange(cur as int, s_abs as int));
                            assert(segments_view(segs@) =~= segments_view(before) + pre + seq![SegmentView::WikiLink(trim_chars(after.take(e_abs - s_abs - 2)))]);
                        }
                        cur = e_abs + 2;
                    },
                    None => {
                        segs.push(TextSegment::Text(open_brackets()));
                        proof {
                            let pre = if s_abs - cur > 0 {
                                seq![SegmentView::Text(rest.take(s_abs - cur))]
                            } else {
                                Seq::<SegmentView>::empty()
                            };
                            assert(rest.take(s_abs - cur) =~= tv.subrange(cur as int, s_abs as int));
                            assert(segments_view(segs@) =~= segments_view(before) + pre + seq![SegmentView::Text(seq!['[', '['])]);
                        }
                        cur = s_abs + 2;
                    },
                }
            },
        }
    }
    segs
}

/// The number of leading `#`.
pub open spec fn leading_hashes(t: Seq<char>) -> nat
    decreases t.len(),
{
    if t.len() > 0 && t[0] == '#' {
        1 + leading_hashes(t.drop_first())
    } else {
        0
    }
}

/// Some segment is a wiki-link.
pub open spec fn has_link(s: Seq<SegmentView>) -> bool {
    exists|i: int| 0 <= i < s.len() && s[i] is WikiLink
}

/// A list item read from its text, at the top level: with its segments
/// where it holds a wiki-link.
pub open spec fn item_of(c: Seq<char>) -> ItemView {
    let segs = wiki_segments(c);
    ItemView {
        content: c,
        segments: if has_link(segs) {
            Some(segs)
        } else {
            None
        },
        level: 0,
        children: Seq::empty(),
        nested_content: Seq::empty(),
        marker: None,
    }
}

/// The text starts with `a` then `b`.
pub open spec fn starts2(t: Seq<char>, a: char, b: char) -> bool {
    t.len() >= 2 && t[0] == a && t[1] == b
}

/// A line that starts a bullet: `- ` or `* `.
pub open spec fn is_bullet_line(l: Seq<char>) -> bool {
    starts2(l, '-', ' ') || starts2(l, '*', ' ')
}

/// The items of the bullet lines, in order; other lines are skipped.
pub open spec fn bullet_items(lines: Seq<Seq<char>>) -> Seq<ItemView>
    decreases lines.len(),
{
    if lines.len() == 0 {
        Seq::empty()
    } else {
        let prev = bullet_items(lines.drop_last());
        let l = trim_chars(lines.last());
        if is_bullet_line(l) {
            prev.push(item_of(trim_chars(l.skip(2))))
        } else {
            prev
        }
    }
}

/// An ASCII digit.
pub open spec fn is_digit(c: char) -> bool {
    48 <= (c as u32) && (c as u32) <= 57
}

pub open spec fn all_digits(s: Seq<char>) -> bool {
    forall|i: int| 0 <= i < s.len() ==> is_digit(#[trigger] s[i])
}

/// The items of the numbered lines (digits, then `. `), in order; other
/// lines are skipped.
pub open spec fn numbered_items(lines: Seq<Seq<char>>) -> Seq<ItemView>
    decreases lines.len(),
{
    if lines.len() == 0 {
        Seq::empty()
    } else {
        let prev = numbered_items(lines.drop_last());
        let l = trim_chars(lines.last());
        match find_pair(l, '.', ' ') {
            Some(d) => if all_digits(l.take(d)) {
                prev.push(item_of(trim_chars(l.skip(d + 2))))
            } else {
                prev
            },
            None => prev,
        }
    }
}

/// The items, each with identifier 0.
pub open spec fn with_zero_ids(items: Seq<ItemView>) -> Seq<(u128, ItemView)> {
    items.map_values(|it: ItemView| (0u128, it))
}

/// The block with the identifiers of its list items set to 0.
pub open spec fn ids_zero(b: BlockView) -> BlockView {
    match b {
        BlockView::BulletList(items) => BlockView::BulletList(items.map_values(|p: (u128, ItemView)| (0u128, p.1))),
        BlockView::NumberedList(items) => BlockView::NumberedList(items.map_values(|p: (u128, ItemView)| (0u128, p.1))),
        _ => b,
    }
}

/// Three backquotes.
pub open spec fn fence() -> Seq<char> {
    seq!['`', '`', '`']
}

/// The block that a piece of markdown is read as, its list items with
/// identifier 0: a heading (`#` to `######`), a fenced code block, a quote,
/// a rule, a bullet list, a numbered list, or else a paragraph.
pub open spec fn from_md(md: Seq<char>) -> BlockView {
    let t = trim_chars(md);
    let h = leading_hashes(t);
    let lines = text_lines(t);
    let n = lines.len();
    if t.len() > 0 && t[0] == '#' && h <= 6 {
        BlockView::Heading(h as u8, trim_chars(t.skip(h as int)))
    } else if t.len() >= 3 && t.take(3) == fence() && n >= 2 && lines[n - 1] == fence() {
        BlockView::CodeBlock(
            if lines[0].len() > 3 {
                Some(lines[0].skip(3))
            } else {
                None
            },
            join_lines(lines.subrange(1, n - 1)),
        )
    } else if t.len() > 0 && t[0] == '>' {
        BlockView::Quote(trim_chars(t.skip(1)))
    } else if t == seq!['-', '-', '-'] || t == seq!['*', '*', '*'] {
        BlockView::Rule
    } else if is_bullet_line(t) && bullet_items(lines).len() > 0 {
        BlockView::BulletList(with_zero_ids(bullet_items(lines)))
    } else if t.len() > 0 && is_digit(t[0]) && find_pair(t, '.', ' ') is Some && numbered_items(lines).len() > 0 {
        BlockView::NumberedList(with_zero_ids(numbered_items(lines)))
    } else {
        BlockView::Paragraph(wiki_segments(t))
    }
}

/// The trimmed, non-empty chunks, in order.
pub open spec fn kept_chunks(cs: Seq<Seq<char>>) -> Seq<Seq<char>>
    decreases cs.len(),
{
    if cs.len() == 0 {
        Seq::empty()
    } else {
        let k = trim_chars(cs[0]);
        (if k.len() > 0 {
            seq![k]
        } else {
            Seq::empty()
        }) + kept_chunks(cs.drop_first())
    }
}

/// The blocks of markdown whose blocks are separated by blank lines.
pub open spec fn multiple_blocks(md: Seq<char>) -> Seq<BlockView> {
    if trim_chars(md).len() == 0 {
        Seq::empty()
    } else {
        kept_chunks(chunks(md)).map_values(|c: Seq<char>| from_md(c))
    }
}

proof fn lemma_leading_ws_bound(cs: Seq<char>)
    ensures
        leading_ws(cs) <= cs.len(),
    decreases cs.len(),
{
    if cs.len() > 0 && is_white_space(cs[0]) {
        lemma_leading_ws_bound(cs.drop_first());
    }
}

/// A text that starts and ends with a non-whitespace character is its own
/// trim.
proof fn lemma_trim_kept(cs: Seq<char>)
    requires
        cs.len() > 0,
        !is_white_space(cs[0]),
        !is_white_space(cs.last()),
    ensures
        trim_chars(cs) == cs,
{
    assert(leading_ws(cs) == 0);
    assert(cs.skip(0) =~= cs);
    assert(trailing_ws(cs) == 0);
    assert(cs.take(cs.len() as int) =~= cs);
}

/// A non-empty text that is its own trim starts and ends with a
/// non-whitespace character.
proof fn lemma_trimmed_ends(cs: Seq<char>)
    requires
        cs.len() > 0,
        trim_chars(cs) == cs,
    ensures
        !is_white_space(cs[0]),
        !is_white_space(cs.last()),
{
    lemma_leading_ws_bound(cs);
    let a = cs.skip(leading_ws(cs) as int);
    lemma_trailing_ws_bound(a);
    assert(trim_chars(cs).len() == cs.len() - leading_ws(cs) - trailing_ws(a));
    assert(leading_ws(cs) == 0);
    assert(a =~= cs);
    assert(trailing_ws(cs) == 0);
}

/// A space followed by a trimmed text trims to the text.
proof fn lemma_trim_after_space(text: Seq<char>)
    requires
        text == trim_chars(text),
    ensures
        trim_chars(seq![' '] + text) == text,
{
    let s = seq![' '] + text;
    assert(s.drop_first() =~= text);
    if text.len() > 0 {
        lemma_trimmed_ends(text);
        assert(leading_ws(text) == 0);
        assert(leading_ws(s) == 1);
        assert(s.skip(1) =~= text);
        assert(trailing_ws(text) == 0);
        assert(text.take(text.len() as int) =~= text);
    } else {
        assert(leading_ws(text) == 0);
        assert(leading_ws(s) == 1);
        assert(s.skip(1) =~= text);
        assert(trailing_ws(text) == 0);
    }
}

proof fn lemma_leading_hashes(n: nat, r: Seq<char>)
    ensures
        leading_hashes(repeat_char('#', n) + r) == n + leading_hashes(r),
    decreases n,
{
    if n > 0 {
        assert((repeat_char('#', n) + r).drop_first() =~= repeat_char('#', (n - 1) as nat) + r);
        lemma_leading_hashes((n - 1) as nat, r);
    } else {
        assert(repeat_char('#', n) + r =~= r);
    }
}

proof fn lemma_join_push(ls: Seq<Seq<char>>, c: char)
    requires
        ls.len() > 0,
    ensures
        join_lines(ls.update(ls.len() - 1, ls.last().push(c))) == join_lines(ls).push(c),
{
    let u = ls.update(ls.len() - 1, ls.last().push(c));
    if ls.len() > 1 {
        assert(u.drop_last() =~= ls.drop_last());
        assert(join_lines(u) =~= join_lines(ls).push(c));
    }
}

/// Joining the lines of a text gives the text back.
proof fn lemma_join_split(s: Seq<char>)
    ensures
        join_lines(split_lines(s)) == s,
    decreases s.len(),
{
    if s.len() > 0 {
        let r = split_lines(s.drop_last());
        lemma_join_split(s.drop_last());
        lemma_split_lines_nonempty(s.drop_last());
        if s.last() == '\n' {
            assert(r.push(Seq::empty()).drop_last() =~= r);
            assert(join_lines(r.push(Seq::empty())) =~= s);
        } else {
            lemma_join_push(r, s.last());
            assert(s.drop_last().push(s.last()) =~= s);
        }
    }
}

/// The lines of two texts joined by a line feed are the lines of each.
pub proof fn lemma_split_concat(a: Seq<char>, b: Seq<char>)
    ensures
        split_lines(a + seq!['\n'] + b) == split_lines(a) + split_lines(b),
    decreases b.len(),
{
    let m = a + seq!['\n'] + b;
    if b.len() == 0 {
        assert(m.drop_last() =~= a);
        assert(split_lines(m) =~= split_lines(a) + split_lines(b));
    } else {
        assert(m.drop_last() =~= a + seq!['\n'] + b.drop_last());
        lemma_split_concat(a, b.drop_last());
        lemma_split_lines_nonempty(b.drop_last());
        lemma_split_lines_nonempty(a);
        assert(split_lines(m) =~= split_lines(a) + split_lines(b));
    }
}

/// A text without line feeds is one line.
pub proof fn lemma_split_one(s: Seq<char>)
    requires
        forall|k: int| 0 <= k < s.len() ==> s[k] != '\n',
    ensures
        split_lines(s) == seq![s],
    decreases s.len(),
{
    if s.len() > 0 {
        lemma_split_one(s.drop_last());
        assert(s.drop_last().push(s.last()) =~= s);
        assert(split_lines(s) =~= seq![s]);
    } else {
        assert(s =~= Seq::<char>::empty());
        assert(split_lines(s) =~= seq![s]);
    }
}

/// No line of a text holds a character that the text does not.
proof fn lemma_split_free(s: Seq<char>, c: char)
    requires
        forall|k: int| 0 <= k < s.len() ==> s[k] != c,
    ensures
        forall|i: int, j: int|
            0 <= i < split_lines(s).len() && 0 <= j < split_lines(s)[i].len() ==> #[trigger] split_lines(s)[i][j] != c,
    decreases s.len(),
{
    if s.len() > 0 {
        lemma_split_free(s.drop_last(), c);
        lemma_split_lines_nonempty(s.drop_last());
    }
}

/// Markdown that is its own trim, opens with a fence and ends with a fence
/// line reads as a code block of its first line's language and its middle
/// lines.
proof fn lemma_from_md_fence(md: Seq<char>)
    requires
        trim_chars(md) == md,
        md.len() >= 3,
        md[0] == '`',
        md.take(3) == fence(),
        text_lines(md).len() >= 2,
        text_lines(md)[text_lines(md).len() - 1] == fence(),
    ensures
        ({
            let lines = text_lines(md);
            from_md(md) == BlockView::CodeBlock(
                if lines[0].len() > 3 {
                    Some(lines[0].skip(3))
                } else {
                    None
                },
                join_lines(lines.subrange(1, lines.len() - 1)),
            )
        }),
{
}

/// The lines of a code block's markdown: its opening line, the lines of its
/// code and the closing fence, none with a carriage return to strip.
proof fn lemma_code_lines(head: Seq<char>, code: Seq<char>)
    requires
        head.len() >= 3,
        head.last() != '\r',
        forall|k: int| 0 <= k < head.len() ==> head[k] != '\n',
        forall|k: int| 0 <= k < code.len() ==> code[k] != '\r',
    ensures
        text_lines(head + seq!['\n'] + (code + seq!['\n'] + fence())) == seq![head] + split_lines(code) + seq![fence()],
{
    let md = head + seq!['\n'] + (code + seq!['\n'] + fence());
    lemma_split_one(head);
    assert forall|k: int| 0 <= k < fence().len() implies fence()[k] != '\n' by {}
    lemma_split_one(fence());
    lemma_split_concat(head, code + seq!['\n'] + fence());
    lemma_split_concat(code, fence());
    let cl = split_lines(code);
    let sl = split_lines(md);
    assert(sl =~= seq![head] + cl + seq![fence()]);
    lemma_split_free(code, '\r');
    assert forall|i: int| 0 <= i < sl.len() implies strip_cr(#[trigger] sl[i]) == sl[i] by {
        if i == 0 {
            assert(sl[0] == head);
        } else if i < sl.len() - 1 {
            assert(sl[i] == cl[i - 1]);
            if sl[i].len() > 0 {
                assert(cl[i - 1][cl[i - 1].len() - 1] != '\r');
            }
        } else {
            assert(sl[i] == fence());
        }
    }
    assert(text_lines(md) =~= sl);
}

/// Reading back the markdown written for a code block whose language, where
/// it has one, is not empty and holds no line break, and whose code does not
/// end with a line feed and holds no carriage return, gives the block again.
#[verifier::rlimit(30)]
pub proof fn law_code_block_round_trip(language: Option<Seq<char>>, code: Seq<char>)
    requires
        match language {
            Some(l) => l.len() > 0 && forall|k: int| 0 <= k < l.len() ==> l[k] != '\n' && l[k] != '\r',
            None => true,
        },
        !(code.len() > 0 && code.last() == '\n'),
        forall|k: int| 0 <= k < code.len() ==> code[k] != '\r',
    ensures
        from_md(block_md(BlockView::CodeBlock(language, code))) == BlockView::CodeBlock(language, code),
{
    let lang = match language {
        Some(l) => l,
        None => Seq::<char>::empty(),
    };
    let head = fence() + lang;
    let md = head + seq!['\n'] + (code + seq!['\n'] + fence());
    assert(md =~= block_md(BlockView::CodeBlock(language, code)));
    assert(md[0] == '`' && md.last() == '`');
    lemma_trim_kept(md);
    assert(md.take(3) =~= fence());
    assert forall|k: int| 0 <= k < head.len() implies head[k] != '\n' by {
        if k >= 3 {
            assert(head[k] == lang[k - 3]);
        }
    }
    assert(head.last() != '\r') by {
        if lang.len() > 0 {
            assert(head.last() == lang[lang.len() - 1]);
        }
    }
    lemma_code_lines(head, code);
    let lines = text_lines(md);
    let n = lines.len();
    assert(lines[n - 1] == fence());
    assert(lines.subrange(1, n - 1) =~= split_lines(code));
    lemma_join_split(code);
    lemma_from_md_fence(md);
    if lang.len() > 0 {
        assert(lines[0].skip(3) =~= lang);
    } else {
        assert(lines[0].len() == 3);
    }
}

/// Reading back the markdown written for a heading of level 1 to 6 whose
/// text is trimmed, for a quote whose text is trimmed, or for a rule, gives
/// the block again.
pub proof fn law_block_round_trip(b: BlockView)
    requires
        match b {
            BlockView::Heading(level, text) => 1 <= level <= 6 && text == trim_chars(text),
            BlockView::Quote(text) => text == trim_chars(text),
            BlockView::Rule => true,
            _ => false,
        },
    ensures
        from_md(block_md(b)) == b,
{
    match b {
        BlockView::Heading(level, text) => {
            let hs = repeat_char('#', level as nat);
            let md = hs + seq![' '] + text;
            assert(md == block_md(b));
            lemma_leading_hashes(level as nat, seq![' '] + text);
            assert(md =~= hs + (seq![' '] + text));
            assert(leading_hashes(seq![' '] + text) == 0);
            if text.len() > 0 {
                lemma_trimmed_ends(text);
                assert(md.last() == text.last());
                assert(md[0] == '#');
                lemma_trim_kept(md);
                assert(md.skip(level as int) =~= seq![' '] + text);
                lemma_trim_after_space(text);
            } else {
                assert(md =~= hs + seq![' ']);
                assert(leading_ws(md) == 0);
                assert(md.skip(0) =~= md);
                assert(md.drop_last() =~= hs);
                assert(trailing_ws(hs) == 0);
                assert(trailing_ws(md) == 1);
                assert(trim_chars(md) =~= hs);
                lemma_leading_hashes(level as nat, Seq::<char>::empty());
                assert(hs + Seq::<char>::empty() =~= hs);
                assert(hs.skip(level as int) =~= Seq::<char>::empty());
                assert(trim_chars(Seq::<char>::empty()) =~= Seq::<char>::empty());
                assert(text =~= Seq::<char>::empty());
            }
        },
        BlockView::Quote(text) => {
            let md = seq!['>', ' '] + text;
            assert(md == block_md(b));
            let t = trim_chars(md);
            if text.len() > 0 {
                lemma_trimmed_ends(text);
                assert(md.last() == text.last());
                lemma_trim_kept(md);
                assert(t.skip(1) =~= seq![' '] + text);
                lemma_trim_after_space(text);
            } else {
                assert(leading_ws(md) == 0);
                assert(md.skip(0) =~= md);
                assert(md.drop_last() =~= seq!['>']);
                assert(trailing_ws(seq!['>']) == 0);
                assert(trailing_ws(md) == 1);
                assert(t =~= seq!['>']);
                assert(t.skip(1) =~= Seq::<char>::empty());
                assert(trim_chars(Seq::<char>::empty()) =~= Seq::<char>::empty());
                assert(text =~= Seq::<char>::empty());
            }
            assert(t[0] == '>');
            assert(t.len() >= 3 ==> t.take(3)[0] != fence()[0]);
        },
        BlockView::Rule => {
            let md = seq!['-', '-', '-'];
            assert(md == block_md(b));
            lemma_trim_kept(md);
            assert(md.take(3)[0] != fence()[0]);
        },
        _ => {},
    }
}

/// Whether some segment is a wiki-link.
pub fn any_link(segs: &Vec<TextSegment>) -> (b: bool)
    ensures
        b == has_link(segments_view(segs@)),
{
    let mut i: usize = 0;
    while i < segs.len()
        invariant
            0 <= i <= segs@.len(),
            forall|j: int| 0 <= j < i ==> !(segments_view(segs@)[j] is WikiLink),
        decreases segs@.len() - i,
    {
        match &segs[i] {
            TextSegment::WikiLink { .. } => {
                assert(segments_view(segs@)[i as int] is WikiLink);
                return true;
            },
            _ => {},
        }
        i = i + 1;
    }
    false
}

/// The top-level list item of a text.
fn make_item(c: &Vec<char>) -> (r: ListItem)
    ensures
        item_view(r) == item_of(c@),
{
    let text = chars_to_string(c.as_slice());
    let segs = parse_wiki_links(text.as_str());
    let linked = any_link(&segs);
    let r = if linked {
        ListItem::with_segments(text, segs, 0)
    } else {
        ListItem::new(text, 0)
    };
    proof {
        lemma_items_view_len(r.children@);
        assert(items_view(r.children@) =~= Seq::<(u128, ItemView)>::empty());
    }
    r
}

/// The lines of a text that does not end with a line feed.
fn lines_of(t: &Vec<char>) -> (r: Vec<Vec<char>>)
    ensures
        r@.len() == text_lines(t@).len(),
        forall|i: int| 0 <= i < r@.len() ==> (#[trigger] r@[i])@ == text_lines(t@)[i],
{
    let mut raw: Vec<Vec<char>> = Vec::new();
    let mut cur: Vec<char> = Vec::new();
    let mut i: usize = 0;
    assert(t@.take(0) =~= Seq::<char>::empty());
    while i < t.len()
        invariant
            0 <= i <= t@.len(),
            raw@.len() + 1 == crate::models::chars::split_lines(t@.take(i as int)).len(),
            forall|j: int| 0 <= j < raw@.len() ==> (#[trigger] raw@[j])@ == crate::models::chars::split_lines(t@.take(i as int))[j],
            cur@ == crate::models::chars::split_lines(t@.take(i as int)).last(),
        decreases t@.len() - i,
    {
        assert(t@.take(i + 1).drop_last() =~= t@.take(i as int));
        if t[i] == '\n' {
            raw.push(cur);
            cur = Vec::new();
        } else {
            cur.push(t[i]);
        }
        i = i + 1;
    }
    raw.push(cur);
    assert(t@.take(i as int) =~= t@);
    let mut r: Vec<Vec<char>> = Vec::new();
    let mut k: usize = 0;
    while k < raw.len()
        invariant
            0 <= k <= raw@.len(),
            raw@.len() == crate::models::chars::split_lines(t@).len(),
            forall|j: int| 0 <= j < raw@.len() ==> (#[trigger] raw@[j])@ == crate::models::chars::split_lines(t@)[j],
            r@.len() == k,
            forall|j: int| 0 <= j < k ==> (#[trigger] r@[j])@ == text_lines(t@)[j],
        decreases raw@.len() - k,
    {
        let l = &raw[k];
        let n = l.len();
        let stripped = if n > 0 && l[n - 1] == '\r' {
            sub_chars(l, 0, n - 1)
        } else {
            sub_chars(l, 0, n)
        };
        assert(l@.subrange(0, n as int) =~= l@);
        assert(l@.subrange(0, n - 1) =~= l@.drop_last());
        r.push(stripped);
        k = k + 1;
    }
    r
}

/// Whether the characters are `c` three times.
fn is_triple(t: &Vec<char>, c: char) -> (b: bool)
    ensures
        b == (t@ == seq![c, c, c]),
{
    let b = t.len() == 3 && t[0] == c && t[1] == c && t[2] == c;
    proof {
        if b {
            assert(t@ =~= seq![c, c, c]);
        }
        if t@ == seq![c, c, c] {
            assert(t@[0] == c && t@[1] == c && t@[2] == c);
        }
    }
    b
}

/// Whether the characters start with `a` then `b`.
fn starts_with_pair(t: &Vec<char>, a: char, b: char) -> (r: bool)
    ensures
        r == starts2(t@, a, b),
{
    t.len() >= 2 && t[0] == a && t[1] == b
}

/// The items of a list, each with a new identifier.
fn with_new_ids(items: Vec<ListItem>) -> (r: Vec<(BlockId, ListItem)>)
    ensures
        items_view(r@).map_values(|p: (u128, ItemView)| (0u128, p.1)) == with_zero_ids(items@.map_values(|it: ListItem| item_view(it))),
{
    let ghost orig = items@;
    let mut items = items;
    let mut r: Vec<(BlockId, ListItem)> = Vec::new();
    let n = items.len();
    let mut i: usize = 0;
    while i < n
        invariant
            n == orig.len(),
            0 <= i <= n,
            items@ == orig.skip(i as int),
            r@.len() == i,
            forall|j: int| 0 <= j < i ==> (#[trigger] r@[j]).1 == orig[j],
        decreases n - i,
    {
        assert(items@[0] == orig[i as int]);
        let it = items.remove(0);
        r.push((BlockId::new(), it));
        i = i + 1;
        assert(items@ =~= orig.skip(i as int));
    }
    proof {
        lemma_items_view_len(r@);
        assert forall|j: int| 0 <= j < r@.len() implies #[trigger] items_view(r@)[j].1 == item_view(orig[j]) by {
            lemma_items_view_index(r@, j);
        }
        assert(items_view(r@).map_values(|p: (u128, ItemView)| (0u128, p.1)) =~= with_zero_ids(
            orig.map_values(|it: ListItem| item_view(it)),
        ));
    }
    r
}

/// The text of each line.
pub open spec fn lines_seq(v: Seq<Vec<char>>) -> Seq<Seq<char>> {
    v.map_values(|l: Vec<char>| l@)
}

/// The items of the bullet lines.
fn collect_bullets(lines: &Vec<Vec<char>>) -> (r: Vec<ListItem>)
    ensures
        r@.map_values(|it: ListItem| item_view(it)) == bullet_items(lines_seq(lines@)),
{
    let ghost lv = lines_seq(lines@);
    let mut r: Vec<ListItem> = Vec::new();
    let mut i: usize = 0;
    assert(lv.take(0) =~= Seq::<Seq<char>>::empty());
    assert(r@.map_values(|it: ListItem| item_view(it)) =~= Seq::<ItemView>::empty());
    while i < lines.len()
        invariant
            lv == lines_seq(lines@),
            0 <= i <= lines@.len(),
            r@.map_values(|it: ListItem| item_view(it)) == bullet_items(lv.take(i as int)),
        decreases lines@.len() - i,
    {
        assert(lv.take(i + 1).drop_last() =~= lv.take(i as int));
        assert(lv.take(i + 1).last() == lines@[i as int]@);
        let n = lines[i].len();
        let l = trim_range(&lines[i], 0, n);
        assert(lines@[i as int]@.subrange(0, n as int) =~= lines@[i as int]@);
        if starts_with_pair(&l, '-', ' ') || starts_with_pair(&l, '*', ' ') {
            let c = trim_range(&l, 2, l.len());
            assert(l@.subrange(2, l@.len() as int) =~= l@.skip(2));
            let it = make_item(&c);
            let ghost prev = r@;
            r.push(it);
            assert(r@.map_values(|it: ListItem| item_view(it)) =~= prev.map_values(|it: ListItem| item_view(it)).push(item_view(it)));
        }
        i = i + 1;
    }
    assert(lv.take(i as int) =~= lv);
    r
}

/// Whether the characters `t[0..d]` are all ASCII digits.
fn digits_before(t: &Vec<char>, d: usize) -> (b: bool)
    requires
        d <= t@.len(),
    ensures
        b == all_digits(t@.take(d as int)),
{
    let mut i: usize = 0;
    while i < d
        invariant
            0 <= i <= d,
            d <= t@.len(),
            forall|j: int| 0 <= j < i ==> is_digit(#[trigger] t@[j]),
        decreases d - i,
    {
        let u = t[i] as u32;
        if !(48 <= u && u <= 57) {
            assert(t@.take(d as int)[i as int] == t@[i as int]);
            return false;
        }
        i = i + 1;
    }
    assert forall|j: int| 0 <= j < d implies is_digit(#[trigger] t@.take(d as int)[j]) by {
        assert(t@.take(d as int)[j] == t@[j]);
    }
    true
}

/// The items of the numbered lines.
fn collect_numbered(lines: &Vec<Vec<char>>) -> (r: Vec<ListItem>)
    ensures
        r@.map_values(|it: ListItem| item_view(it)) == numbered_items(lines_seq(lines@)),
{
    let ghost lv = lines_seq(lines@);
    let mut r: Vec<ListItem> = Vec::new();
    let mut i: usize = 0;
    assert(lv.take(0) =~= Seq::<Seq<char>>::empty());
    assert(r@.map_values(|it: ListItem| item_view(it)) =~= Seq::<ItemView>::empty());
    while i < lines.len()
        invariant
            lv == lines_seq(lines@),
            0 <= i <= lines@.len(),
            r@.map_values(|it: ListItem| item_view(it)) == numbered_items(lv.take(i as int)),
        decreases lines@.len() - i,
    {
        assert(lv.take(i + 1).drop_last() =~= lv.take(i as int));
        assert(lv.take(i + 1).last() == lines@[i as int]@);
        let n = lines[i].len();
        let l = trim_range(&lines[i], 0, n);
        assert(lines@[i as int]@.subrange(0, n as int) =~= lines@[i as int]@);
        assert(l@.skip(0) =~= l@);
        match find_pair_from(&l, 0, '.', ' ') {
            Some(d) => {
                assert(d + 2 <= l@.len()) by {
                    match find_pair(l@.skip(0), '.', ' ') {
                        Some(_) => {},
                        None => {},
                    }
                }
                if digits_before(&l, d) {
                    let c = trim_range(&l, d + 2, l.len());
                    assert(l@.subrange(d + 2, l@.len() as int) =~= l@.skip(d + 2));
                    let it = make_item(&c);
                    let ghost prev = r@;
                    r.push(it);
                    assert(r@.map_values(|it: ListItem| item_view(it)) =~= prev.map_values(|it: ListItem| item_view(it)).push(item_view(it)));
                }
            },
            None => {},
        }
        i = i + 1;
    }
    assert(lv.take(i as int) =~= lv);
    r
}

/// Reads one block of markdown. It always succeeds; list items get new
/// identifiers.
pub fn from_markdown(markdown: &str) -> (r: Result<ContentBlock, String>)
    ensures
        r matches Ok(b) && ids_zero(block_view(b)) == from_md(markdown@),
{
    let cs = str_to_chars(markdown);
    let t = trim_range(&cs, 0, cs.len());
    assert(cs@.subrange(0, cs@.len() as int) =~= markdown@);
    let ghost tv = t@;
    let lines = lines_of(&t);
    assert(lines_seq(lines@) =~= text_lines(tv));
    let mut h: usize = 0;
    assert(tv.skip(0) =~= tv);
    while h < t.len() && t[h] == '#'
        invariant
            tv == t@,
            0 <= h <= tv.len(),
            leading_hashes(tv) == h + leading_hashes(tv.skip(h as int)),
        decreases tv.len() - h,
    {
        assert(tv.skip(h as int).drop_first() =~= tv.skip(h + 1));
        h = h + 1;
    }
    if h < t.len() {
        assert(tv.skip(h as int)[0] == tv[h as int]);
    }
    if t.len() > 0 && t[0] == '#' && h <= 6 {
        let text = trim_range(&t, h, t.len());
        assert(tv.subrange(h as int, tv.len() as int) =~= tv.skip(h as int));
        let b = ContentBlock::Heading { level: h as u8, text: chars_to_string(text.as_slice()) };
        return Ok(b);
    }
    let n = lines.len();
    let is_code = t.len() >= 3 && t[0] == '`' && t[1] == '`' && t[2] == '`' && n >= 2 && is_triple(&lines[n - 1], '`');
    proof {
        if t@.len() >= 3 && t@.take(3) == fence() {
            assert(t@.take(3)[0] == '`' && t@.take(3)[1] == '`' && t@.take(3)[2] == '`');
        }
        if t@.len() >= 3 && t@[0] == '`' && t@[1] == '`' && t@[2] == '`' {
            assert(t@.take(3) =~= fence());
        }
    }
    if is_code {
        let first = &lines[0];
        let language = if first.len() > 3 {
            let l = sub_string(first, 3, first.len());
            assert(first@.subrange(3, first@.len() as int) =~= first@.skip(3));
            Some(l)
        } else {
            None
        };
        let mut mid: Vec<Vec<char>> = Vec::new();
        let mut k: usize = 1;
        while k + 1 < n
            invariant
                n == lines@.len(),
                n >= 2,
                1 <= k <= n - 1,
                mid@.len() == k - 1,
                forall|j: int| 0 <= j < mid@.len() ==> (#[trigger] mid@[j])@ == lines@[j + 1]@,
            decreases n - k,
        {
            let ln = lines[k].len();
            let copy = sub_chars(&lines[k], 0, ln);
            assert(lines@[k as int]@.subrange(0, ln as int) =~= lines@[k as int]@);
            mid.push(copy);
            k = k + 1;
        }
        assert(mid@.map_values(|l: Vec<char>| l@) =~= lines_seq(lines@).subrange(1, n - 1));
        let code = crate::models::chars::join_lines_of(&mid);
        return Ok(ContentBlock::CodeBlock { language, code: chars_to_string(code.as_slice()) });
    }
    if t.len() > 0 && t[0] == '>' {
        let text = trim_range(&t, 1, t.len());
        assert(tv.subrange(1, tv.len() as int) =~= tv.skip(1));
        return Ok(ContentBlock::Quote(chars_to_string(text.as_slice())));
    }
    if is_triple(&t, '-') || is_triple(&t, '*') {
        return Ok(ContentBlock::Rule);
    }
    if starts_with_pair(&t, '-', ' ') || starts_with_pair(&t, '*', ' ') {
        let items = collect_bullets(&lines);
        if items.len() > 0 {
            let with_ids = with_new_ids(items);
            return Ok(ContentBlock::BulletList { items: with_ids });
        }
    }
    if t.len() > 0 && (48 <= (t[0] as u32) && (t[0] as u32) <= 57) {
        assert(tv.skip(0) =~= tv);
        if find_pair_from(&t, 0, '.', ' ').is_some() {
            let items = collect_numbered(&lines);
            if items.len() > 0 {
                let with_ids = with_new_ids(items);
                return Ok(ContentBlock::NumberedList { items: with_ids });
            }
        }
    }
    let text = chars_to_string(t.as_slice());
    let segments = parse_wiki_links(text.as_str());
    Ok(ContentBlock::Paragraph { segments })
}

/// Reads markdown whose blocks are separated by blank lines: each trimmed,
/// non-empty chunk is one block.
pub fn parse_multiple_blocks(markdown: &str) -> (r: Vec<ContentBlock>)
    ensures
        r@.len() == multiple_blocks(markdown@).len(),
        forall|i: int| 0 <= i < r@.len() ==> ids_zero(block_view(#[trigger] r@[i])) == multiple_blocks(markdown@)[i],
{
    let cs = str_to_chars(markdown);
    let ghost tv = cs@;
    let whole = trim_range(&cs, 0, cs.len());
    assert(cs@.subrange(0, cs@.len() as int) =~= tv);
    if whole.len() == 0 {
        return Vec::new();
    }
    let ghost all = kept_chunks(chunks(tv));
    let mut out: Vec<ContentBlock> = Vec::new();
    let ghost mut done: Seq<Seq<char>> = Seq::empty();
    let mut cur: usize = 0;
    assert(tv.skip(0) =~= tv);
    assert(all =~= done + kept_chunks(chunks(tv.skip(0))));
    while cur <= cs.len()
        invariant
            tv == cs@,
            tv == markdown@,
            cur <= tv.len(),
            all == kept_chunks(chunks(tv)),
            trim_chars(tv).len() > 0,
            all == done + kept_chunks(chunks(tv.skip(cur as int))),
            out@.len() == done.len(),
            forall|j: int| 0 <= j < out@.len() ==> ids_zero(block_view(#[trigger] out@[j])) == from_md(done[j]),
        decreases tv.len() - cur,
    {
        let ghost rest = tv.skip(cur as int);
        let found = find_blank_from(&cs, cur);
        let end = match found {
            Some((i, _)) => i,
            None => cs.len(),
        };
        let k = trim_range(&cs, cur, end);
        let ghost chunk = tv.subrange(cur as int, end as int);
        let ghost next: Seq<Seq<char>> = match found {
            Some((i, n)) => chunks(tv.skip(i + n)),
            None => Seq::empty(),
        };
        proof {
            match found {
                Some((i, n)) => {
                    assert(rest.take(i - cur) =~= chunk);
                    assert(rest.skip(i - cur + n) =~= tv.skip(i + n));
                },
                None => {
                    assert(rest =~= chunk);
                },
            }
            assert(chunks(rest) =~= seq![chunk] + next);
            assert((seq![chunk] + next)[0] == chunk);
            assert((seq![chunk] + next).drop_first() =~= next);
        }
        if k.len() > 0 {
            let text = chars_to_string(k.as_slice());
            let block = from_markdown(text.as_str());
            match block {
                Ok(b) => {
                    out.push(b);
                },
                Err(_) => {},
            }
            proof {
                done = done.push(k@);
            }
        }
        assert(all =~= done + kept_chunks(next));
        match found {
            Some((i, n)) => {
                cur = i + n;
            },
            None => {
                assert(kept_chunks(next) =~= Seq::<Seq<char>>::empty());
                assert(all =~= done);
                return out;
            },
        }
    }
    out
}

} // verus!
