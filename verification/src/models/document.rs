//! The block model of a markdown document, and how blocks are written back
//! as markdown.
use super::chars::{
    chars_to_string, decimal, decimal_chars, join_lines, join_lines_of, nonempty_lines,
    nonempty_lines_of, push_all, push_repeat, push_str, repeat_char, split_lines, str_to_chars, digit_char,
};
use crate::parsing::blocks::{lemma_split_concat, lemma_split_one};
use vstd::prelude::*;

verus! {

/// A new random version-4 UUID, as its 128-bit value.
#[verifier::external_body]
fn new_uuid_v4() -> u128 {
    uuid::Uuid::new_v4().as_u128()
}

/// An ephemeral unique identifier so that the UI can keep track of blocks in
/// a markdown file as they move around during editing.
#[derive(Debug, Clone, Copy, PartialEq, Eq, Hash, Structural)]
pub struct BlockId(pub u128);

impl BlockId {
    /// A fresh random identifier. Nothing about its value is promised.
    pub fn new() -> BlockId {
        BlockId(new_uuid_v4())
    }
}

/// Direct operations on bullets for instant editing
#[derive(Debug, Clone)]
pub enum BulletOperation {
    /// Update bullet content instantly
    UpdateContent(BlockId, String),
    /// Split bullet at cursor position, content after cursor goes to new bullet
    SplitAtCursor(BlockId, String, usize),
    /// Indent bullet (increase nesting level)
    Indent(BlockId),
    /// Outdent bullet (decrease nesting level)
    Outdent(BlockId),
    /// Merge with previous bullet (backspace at start)
    MergeWithPrevious(BlockId),
    /// Delete empty bullet
    DeleteEmpty(BlockId),
}

#[derive(Debug, Clone, Copy, PartialEq, Eq, Structural)]
pub enum BulletMarker {
    Dash,
    Star,
    Numbered,
}

#[derive(Debug, Clone, PartialEq)]
pub enum TextSegment {
    Text(String),
    WikiLink { target: String },
}

#[derive(Debug, PartialEq)]
pub struct ListItem {
    pub content: String,
    pub segments: Option<Vec<TextSegment>>,
    pub level: usize,
    pub children: Vec<(BlockId, ListItem)>,
    pub nested_content: Vec<ContentBlock>,
    pub marker: Option<BulletMarker>,
}

/// One piece of a longer markdown document: a heading, a paragraph, a list,
/// a code block, a quote or a rule.
#[derive(Debug, PartialEq)]
pub enum ContentBlock {
    Heading { level: u8, text: String },
    Paragraph { segments: Vec<TextSegment> },
    BulletList { items: Vec<(BlockId, ListItem)> },
    NumberedList { items: Vec<(BlockId, ListItem)> },
    CodeBlock { language: Option<String>, code: String },
    Quote(String),
    Rule,
}

#[derive(Debug, PartialEq)]
pub struct Document {
    pub path: String,
    pub content: Vec<ContentBlock>,
}

/// The value of a text segment.
pub enum SegmentView {
    Text(Seq<char>),
    WikiLink(Seq<char>),
}

/// The value of a list item.
pub struct ItemView {
    pub content: Seq<char>,
    pub segments: Option<Seq<SegmentView>>,
    pub level: nat,
    pub children: Seq<(u128, ItemView)>,
    pub nested_content: Seq<BlockView>,
    pub marker: Option<BulletMarker>,
}

/// The value of a content block.
pub enum BlockView {
    Heading(u8, Seq<char>),
    Paragraph(Seq<SegmentView>),
    BulletList(Seq<(u128, ItemView)>),
    NumberedList(Seq<(u128, ItemView)>),
    CodeBlock(Option<Seq<char>>, Seq<char>),
    Quote(Seq<char>),
    Rule,
}

pub open spec fn segment_view(s: TextSegment) -> SegmentView {
    match s {
        TextSegment::Text(t) => SegmentView::Text(t@),
        TextSegment::WikiLink { target } => SegmentView::WikiLink(target@),
    }
}

pub open spec fn segments_view(s: Seq<TextSegment>) -> Seq<SegmentView> {
    s.map_values(|x: TextSegment| segment_view(x))
}

pub open spec fn item_view(item: ListItem) -> ItemView
    decreases item, 1nat,
{
    ItemView {
        content: item.content@,
        segments: match item.segments {
            Some(s) => Some(segments_view(s@)),
            None => None,
        },
        level: item.level as nat,
        children: items_view(item.children@),
        nested_content: blocks_view(item.nested_content@),
        marker: item.marker,
    }
}

pub open spec fn items_view(s: Seq<(BlockId, ListItem)>) -> Seq<(u128, ItemView)>
    decreases s, 0nat,
{
    if s.len() == 0 {
        Seq::empty()
    } else {
        seq![(s[0].0.0, item_view(s[0].1))] + items_view(s.drop_first())
    }
}

pub open spec fn block_view(b: ContentBlock) -> BlockView
    decreases b, 1nat,
{
    match b {
        ContentBlock::Heading { level, text } => BlockView::Heading(level, text@),
        ContentBlock::Paragraph { segments } => BlockView::Paragraph(segments_view(segments@)),
        ContentBlock::BulletList { items } => BlockView::BulletList(items_view(items@)),
        ContentBlock::NumberedList { items } => BlockView::NumberedList(items_view(items@)),
        ContentBlock::CodeBlock { language, code } => BlockView::CodeBlock(
            match language {
                Some(l) => Some(l@),
                None => None,
            },
            code@,
        ),
        ContentBlock::Quote(t) => BlockView::Quote(t@),
        ContentBlock::Rule => BlockView::Rule,
    }
}

pub open spec fn blocks_view(s: Seq<ContentBlock>) -> Seq<BlockView>
    decreases s, 0nat,
{
    if s.len() == 0 {
        Seq::empty()
    } else {
        seq![block_view(s[0])] + blocks_view(s.drop_first())
    }
}

/// Markdown of one text segment: its text, or `[[target]]` for a link.
pub open spec fn segment_md(s: SegmentView) -> Seq<char> {
    match s {
        SegmentView::Text(t) => t,
        SegmentView::WikiLink(x) => seq!['[', '['] + x + seq![']', ']'],
    }
}

/// Markdown of text segments: their markdown, one after the other.
pub open spec fn segments_md(s: Seq<SegmentView>) -> Seq<char>
    decreases s.len(),
{
    if s.len() == 0 {
        Seq::empty()
    } else {
        segments_md(s.drop_last()) + segment_md(s.last())
    }
}

/// The text of a bullet marker.
pub open spec fn marker_str(m: BulletMarker) -> Seq<char> {
    match m {
        BulletMarker::Dash => seq!['-'],
        BulletMarker::Star => seq!['*'],
        BulletMarker::Numbered => seq!['1', '.'],
    }
}

/// A number followed by `. `.
pub open spec fn number_marker(n: nat) -> Seq<char> {
    decimal(n) + seq!['.', ' ']
}

/// Whether any of the items carries the numbered marker.
pub open spec fn any_numbered(items: Seq<(u128, ItemView)>) -> bool {
    exists|i: int| 0 <= i < items.len() && items[i].1.marker == Some(BulletMarker::Numbered)
}

/// The marker that an item is written with, given how many numbered items
/// came before it in its list, and the count after it.
pub open spec fn item_marker(item: ItemView, numbered: bool, count: nat) -> (Seq<char>, nat) {
    if numbered {
        (number_marker(count + 1), count + 1)
    } else {
        match item.marker {
            Some(BulletMarker::Numbered) => (number_marker(count + 1), count + 1),
            Some(m) => (marker_str(m) + seq![' '], count),
            None => (seq!['-', ' '], count),
        }
    }
}

/// The text an item is written with: its segments' markdown when it has
/// segments, else its content.
pub open spec fn item_text(item: ItemView) -> Seq<char> {
    match item.segments {
        Some(s) => segments_md(s),
        None => item.content,
    }
}

/// The lines that an item is written as: its own line (tabs for its level,
/// its marker, its text), then the non-empty lines of its children's
/// markdown; and the count of numbered items after it.
pub open spec fn item_lines(item: ItemView, numbered: bool, count: nat) -> (Seq<Seq<char>>, nat)
    decreases item, 1nat,
{
    let (mk, next) = item_marker(item, numbered, count);
    let first = repeat_char('\t', item.level) + mk + item_text(item);
    let rest = if item.children.len() == 0 {
        Seq::empty()
    } else {
        nonempty_lines(join_lines(items_lines(item.children, any_numbered(item.children), 0).0))
    };
    (seq![first] + rest, next)
}

/// The lines that a list of items is written as, and the count of numbered
/// items after them.
pub open spec fn items_lines(items: Seq<(u128, ItemView)>, numbered: bool, count: nat) -> (Seq<Seq<char>>, nat)
    decreases items, 0nat,
{
    if items.len() == 0 {
        (Seq::empty(), count)
    } else {
        let (first, c1) = item_lines(items[0].1, numbered, count);
        let (rest, c2) = items_lines(items.drop_first(), numbered, c1);
        (first + rest, c2)
    }
}

/// Markdown of a list: its lines joined with line feeds.
pub open spec fn items_md(items: Seq<(u128, ItemView)>, numbered: bool) -> Seq<char> {
    join_lines(items_lines(items, numbered, 0).0)
}

/// The number of items of a list, every item below another counted too.
pub open spec fn items_count(items: Seq<(u128, ItemView)>) -> nat
    decreases items, 0nat,
{
    if items.len() == 0 {
        0
    } else {
        item_size(items[0].1) + items_count(items.drop_first())
    }
}

/// An item and all the items below it.
pub open spec fn item_size(item: ItemView) -> nat
    decreases item, 1nat,
{
    1 + items_count(item.children)
}

/// The texts of the items of a list, each item before the items below it.
pub open spec fn items_texts(items: Seq<(u128, ItemView)>) -> Seq<Seq<char>>
    decreases items, 0nat,
{
    if items.len() == 0 {
        Seq::empty()
    } else {
        item_texts(items[0].1) + items_texts(items.drop_first())
    }
}

pub open spec fn item_texts(item: ItemView) -> Seq<Seq<char>>
    decreases item, 1nat,
{
    seq![item_text(item)] + items_texts(item.children)
}

/// The line ends with the text.
pub open spec fn ends_with(l: Seq<char>, x: Seq<char>) -> bool {
    x.len() <= l.len() && l.skip(l.len() - x.len()) == x
}

/// Each line ends with the text at its position.
pub open spec fn lines_end_with(ls: Seq<Seq<char>>, xs: Seq<Seq<char>>) -> bool {
    &&& ls.len() == xs.len()
    &&& forall|i: int| 0 <= i < ls.len() ==> ends_with(#[trigger] ls[i], xs[i])
}

/// The text holds no line feed.
pub open spec fn no_newline(t: Seq<char>) -> bool {
    forall|k: int| 0 <= k < t.len() ==> t[k] != '\n'
}

/// No item of the list, nor any item below one, has a line feed in its
/// text.
pub open spec fn items_one_line(items: Seq<(u128, ItemView)>) -> bool
    decreases items, 0nat,
{
    items.len() == 0 || (item_one_line(items[0].1) && items_one_line(items.drop_first()))
}

pub open spec fn item_one_line(item: ItemView) -> bool
    decreases item, 1nat,
{
    no_newline(item_text(item)) && items_one_line(item.children)
}

/// Every line is non-empty and holds no line feed.
pub open spec fn lines_ok(ls: Seq<Seq<char>>) -> bool {
    forall|i: int| 0 <= i < ls.len() ==> (#[trigger] ls[i]).len() > 0 && no_newline(ls[i])
}

proof fn lemma_decimal_one_line(n: nat)
    ensures
        no_newline(decimal(n)),
        decimal(n).len() > 0,
    decreases n,
{
    if n < 10 {
        assert(digit_char(n) != '\n');
    } else {
        lemma_decimal_one_line(n / 10);
        assert(digit_char(n % 10) != '\n');
        let d = decimal(n / 10) + seq![digit_char(n % 10)];
        assert forall|k: int| 0 <= k < d.len() implies d[k] != '\n' by {
            if k < decimal(n / 10).len() {
                assert(d[k] == decimal(n / 10)[k]);
            }
        }
    }
}

proof fn lemma_split_join(ls: Seq<Seq<char>>)
    requires
        ls.len() > 0,
        forall|i: int| 0 <= i < ls.len() ==> no_newline(#[trigger] ls[i]),
    ensures
        split_lines(join_lines(ls)) == ls,
    decreases ls.len(),
{
    if ls.len() == 1 {
        assert(no_newline(ls[0]));
        lemma_split_one(ls[0]);
        assert(seq![ls[0]] =~= ls);
    } else {
        let init = ls.drop_last();
        assert forall|i: int| 0 <= i < init.len() implies no_newline(#[trigger] init[i]) by {
            assert(init[i] == ls[i]);
        }
        lemma_split_join(init);
        assert(no_newline(ls.last()));
        lemma_split_one(ls.last());
        lemma_split_concat(join_lines(init), ls.last());
        assert(init + seq![ls.last()] =~= ls);
    }
}

proof fn lemma_filter_keeps(s: Seq<Seq<char>>, pred: spec_fn(Seq<char>) -> bool)
    requires
        forall|i: int| 0 <= i < s.len() ==> pred(#[trigger] s[i]),
    ensures
        s.filter(pred) == s,
    decreases s.len(),
{
    reveal(Seq::filter);
    if s.len() > 0 {
        let init = s.drop_last();
        assert forall|i: int| 0 <= i < init.len() implies pred(#[trigger] init[i]) by {
            assert(init[i] == s[i]);
        }
        lemma_filter_keeps(init, pred);
        assert(pred(s[s.len() - 1]));
        assert(init.push(s.last()) =~= s);
    }
}

/// The non-empty lines of joined lines that are non-empty and hold no line
/// feed are the lines themselves.
proof fn lemma_nonempty_join(ls: Seq<Seq<char>>)
    requires
        lines_ok(ls),
    ensures
        nonempty_lines(join_lines(ls)) == ls,
{
    if ls.len() == 0 {
        reveal(Seq::filter);
        let e = split_lines(Seq::<char>::empty());
        assert(e =~= seq![Seq::<char>::empty()]);
        assert(e.drop_last() =~= Seq::<Seq<char>>::empty());
        assert(e.last().len() == 0);
        assert(Seq::<Seq<char>>::empty().filter(|l: Seq<char>| l.len() > 0) =~= Seq::<Seq<char>>::empty());
        assert(e.filter(|l: Seq<char>| l.len() > 0) =~= ls);
    } else {
        assert forall|i: int| 0 <= i < ls.len() implies no_newline(#[trigger] ls[i]) by {}
        lemma_split_join(ls);
        lemma_filter_keeps(ls, |l: Seq<char>| l.len() > 0);
    }
}

proof fn lemma_item_lines(item: ItemView, numbered: bool, count: nat)
    requires
        item_one_line(item),
    ensures
        item_lines(item, numbered, count).0.len() == item_size(item),
        lines_ok(item_lines(item, numbered, count).0),
        lines_end_with(item_lines(item, numbered, count).0, item_texts(item)),
    decreases item, 1nat,
{
    let (mk, next) = item_marker(item, numbered, count);
    let tabs = repeat_char('\t', item.level);
    let first = tabs + mk + item_text(item);
    assert(no_newline(mk) && mk.len() > 0) by {
        lemma_decimal_one_line(count + 1);
        let nm = number_marker(count + 1);
        assert forall|k: int| 0 <= k < nm.len() implies nm[k] != '\n' by {
            if k < decimal(count + 1).len() {
                assert(nm[k] == decimal(count + 1)[k]);
            }
        }
    }
    assert forall|k: int| 0 <= k < first.len() implies first[k] != '\n' by {
        if k < tabs.len() {
            assert(first[k] == tabs[k]);
        } else if k < tabs.len() + mk.len() {
            assert(first[k] == mk[k - tabs.len()]);
        } else {
            assert(first[k] == item_text(item)[k - tabs.len() - mk.len()]);
        }
    }
    assert(first.skip(first.len() - item_text(item).len()) =~= item_text(item));
    let cl = if item.children.len() == 0 {
        Seq::<Seq<char>>::empty()
    } else {
        items_lines(item.children, any_numbered(item.children), 0).0
    };
    if item.children.len() == 0 {
        assert(items_count(item.children) == 0);
        assert(items_texts(item.children) =~= Seq::<Seq<char>>::empty());
    } else {
        lemma_items_lines(item.children, any_numbered(item.children), 0);
        lemma_nonempty_join(cl);
    }
    let ls = item_lines(item, numbered, count).0;
    assert(ls =~= seq![first] + cl);
    let xs = item_texts(item);
    assert forall|i: int| 0 <= i < ls.len() implies ends_with(#[trigger] ls[i], xs[i]) by {
        if i > 0 {
            assert(ls[i] == cl[i - 1]);
            assert(xs[i] == items_texts(item.children)[i - 1]);
        }
    }
}

proof fn lemma_items_lines(items: Seq<(u128, ItemView)>, numbered: bool, count: nat)
    requires
        items_one_line(items),
    ensures
        items_lines(items, numbered, count).0.len() == items_count(items),
        lines_ok(items_lines(items, numbered, count).0),
        lines_end_with(items_lines(items, numbered, count).0, items_texts(items)),
    decreases items, 0nat,
{
    if items.len() > 0 {
        let (first, c1) = item_lines(items[0].1, numbered, count);
        lemma_item_lines(items[0].1, numbered, count);
        lemma_items_lines(items.drop_first(), numbered, c1);
        let rest = items_lines(items.drop_first(), numbered, c1).0;
        let all = first + rest;
        assert forall|i: int| 0 <= i < all.len() implies (#[trigger] all[i]).len() > 0 && no_newline(all[i]) by {
            if i < first.len() {
                assert(all[i] == first[i]);
            } else {
                assert(all[i] == rest[i - first.len()]);
            }
        }
        let xs = items_texts(items);
        let x1 = item_texts(items[0].1);
        let x2 = items_texts(items.drop_first());
        assert(xs == x1 + x2);
        assert forall|i: int| 0 <= i < all.len() implies ends_with(#[trigger] all[i], xs[i]) by {
            if i < first.len() {
                assert(all[i] == first[i]);
                assert(xs[i] == x1[i]);
            } else {
                assert(all[i] == rest[i - first.len()]);
                assert(xs[i] == x2[i - first.len()]);
            }
        }
    } else {
        assert(items_texts(items) =~= Seq::<Seq<char>>::empty());
    }
}

/// Writing a list back as markdown loses no item: where no item's text
/// holds a line feed, the markdown has one non-empty line for each item of
/// the list, the items below an item and below those included, in order,
/// each item before the items below it, and each line ends with its item's
/// text.
pub proof fn law_list_markdown_keeps_items(items: Seq<(u128, ItemView)>, numbered: bool)
    requires
        items_one_line(items),
    ensures
        nonempty_lines(items_md(items, numbered)).len() == items_count(items),
        lines_end_with(nonempty_lines(items_md(items, numbered)), items_texts(items)),
{
    lemma_items_lines(items, numbered, 0);
    lemma_nonempty_join(items_lines(items, numbered, 0).0);
}

/// Markdown of a block.
pub open spec fn block_md(b: BlockView) -> Seq<char> {
    match b {
        BlockView::Heading(level, text) => repeat_char('#', level as nat) + seq![' '] + text,
        BlockView::Paragraph(segments) => segments_md(segments),
        BlockView::BulletList(items) => items_md(items, false),
        BlockView::NumberedList(items) => items_md(items, true),
        BlockView::CodeBlock(language, code) => {
            let sep = if code.len() > 0 && code.last() == '\n' {
                Seq::empty()
            } else {
                seq!['\n']
            };
            let lang = match language {
                Some(l) => l,
                None => Seq::empty(),
            };
            seq!['`', '`', '`'] + lang + seq!['\n'] + code + sep + seq!['`', '`', '`']
        },
        BlockView::Quote(text) => seq!['>', ' '] + text,
        BlockView::Rule => seq!['-', '-', '-'],
    }
}

/// Split string at cursor position (character-aware, not byte-aware)
pub fn split_string_at_position(text: &str, cursor_pos: usize) -> (r: (String, String))
    ensures
        ({
            let k = if cursor_pos < text@.len() { cursor_pos as int } else { text@.len() as int };
            &&& r.0@ == text@.take(k)
            &&& r.1@ == text@.skip(k)
        }),
{
    let chars = str_to_chars(text);
    let split_pos = if cursor_pos < chars.len() { cursor_pos } else { chars.len() };
    let mut before: Vec<char> = Vec::new();
    let mut after: Vec<char> = Vec::new();
    let mut i: usize = 0;
    while i < chars.len()
        invariant
            chars@ == text@,
            split_pos <= chars@.len(),
            0 <= i <= chars@.len(),
            before@ == chars@.take(if i < split_pos { i as int } else { split_pos as int }),
            after@ == (if i < split_pos { Seq::empty() } else { chars@.subrange(split_pos as int, i as int) }),
        decreases chars@.len() - i,
    {
        if i < split_pos {
            before.push(chars[i]);
        } else {
            after.push(chars[i]);
        }
        i = i + 1;
        assert(before@ =~= chars@.take(if i < split_pos { i as int } else { split_pos as int }));
        assert(after@ =~= (if i < split_pos { Seq::empty() } else { chars@.subrange(split_pos as int, i as int) }));
    }
    assert(after@ =~= chars@.skip(split_pos as int));
    (chars_to_string(before.as_slice()), chars_to_string(after.as_slice()))
}

impl BulletMarker {
    pub fn to_string(&self) -> (s: &'static str)
        ensures
            s@ == marker_str(*self),
    {
        proof {
            reveal_strlit("-");
            reveal_strlit("*");
            reveal_strlit("1.");
        }
        match self {
            BulletMarker::Dash => "-",
            BulletMarker::Star => "*",
            BulletMarker::Numbered => "1.",
        }
    }
}

impl ListItem {
    pub fn new(content: String, level: usize) -> (item: ListItem)
        ensures
            item.content == content,
            item.segments is None,
            item.level == level,
            item.children@.len() == 0,
            item.nested_content@.len() == 0,
            item.marker is None,
    {
        ListItem {
            content,
            segments: None,
            level,
            children: Vec::new(),
            nested_content: Vec::new(),
            marker: None,
        }
    }

    pub fn with_segments(content: String, segments: Vec<TextSegment>, level: usize) -> (item: ListItem)
        ensures
            item.content == content,
            item.segments == Some(segments),
            item.level == level,
            item.children@.len() == 0,
            item.nested_content@.len() == 0,
            item.marker is None,
    {
        ListItem {
            content,
            segments: Some(segments),
            level,
            children: Vec::new(),
            nested_content: Vec::new(),
            marker: None,
        }
    }
}

impl Document {
    pub fn new(path: String) -> (d: Document)
        ensures
            d.path == path,
            d.content@.len() == 0,
    {
        Document { path, content: Vec::new() }
    }

    pub fn with_content(path: String, content: Vec<ContentBlock>) -> (d: Document)
        ensures
            d.path == path,
            d.content == content,
    {
        Document { path, content }
    }
}

/// Markdown of text segments.
pub fn segments_to_markdown(segments: &[TextSegment]) -> (r: Vec<char>)
    ensures
        r@ == segments_md(segments_view(segments@)),
{
    let mut r: Vec<char> = Vec::new();
    let mut i: usize = 0;
    while i < segments.len()
        invariant
            0 <= i <= segments@.len(),
            r@ == segments_md(segments_view(segments@.take(i as int))),
        decreases segments@.len() - i,
    {
        proof {
            assert(segments_view(segments@.take(i + 1)).drop_last() =~= segments_view(segments@.take(i as int)));
            assert(segments_view(segments@.take(i + 1)).last() == segment_view(segments@[i as int]));
        }
        match &segments[i] {
            TextSegment::Text(text) => {
                push_str(&mut r, text.as_str());
            },
            TextSegment::WikiLink { target } => {
                r.push('[');
                r.push('[');
                push_str(&mut r, target.as_str());
                r.push(']');
                r.push(']');
            },
        }
        i = i + 1;
        assert(r@ =~= segments_md(segments_view(segments@.take(i as int))));
    }
    assert(segments@.take(i as int) =~= segments@);
    r
}

/// Whether any item carries the numbered marker.
fn any_item_numbered(items: &[(BlockId, ListItem)]) -> (b: bool)
    ensures
        b == any_numbered(items_view(items@)),
{
    let mut i: usize = 0;
    while i < items.len()
        invariant
            0 <= i <= items@.len(),
            forall|j: int| 0 <= j < i ==> items@[j].1.marker != Some(BulletMarker::Numbered),
        decreases items@.len() - i,
    {
        if let Some(BulletMarker::Numbered) = items[i].1.marker {
            proof {
                lemma_items_view_index(items@, i as int);
            }
            return true;
        }
        i = i + 1;
    }
    proof {
        lemma_items_view_len(items@);
        assert forall|j: int| 0 <= j < items_view(items@).len() implies items_view(items@)[j].1.marker
            != Some(BulletMarker::Numbered) by {
            lemma_items_view_index(items@, j);
        }
    }
    false
}

pub proof fn lemma_items_view_index(s: Seq<(BlockId, ListItem)>, i: int)
    requires
        0 <= i < s.len(),
    ensures
        items_view(s).len() == s.len(),
        items_view(s)[i] == (s[i].0.0, item_view(s[i].1)),
    decreases s.len(),
{
    lemma_items_view_len(s);
    if i > 0 {
        lemma_items_view_index(s.drop_first(), i - 1);
    }
}

pub proof fn lemma_items_view_len(s: Seq<(BlockId, ListItem)>)
    ensures
        items_view(s).len() == s.len(),
    decreases s.len(),
{
    if s.len() > 0 {
        lemma_items_view_len(s.drop_first());
    }
}

/// The text of each line.
pub open spec fn lines_view(ls: Seq<Vec<char>>) -> Seq<Seq<char>> {
    ls.map_values(|l: Vec<char>| l@)
}

pub proof fn lemma_item_marker_count(item: ItemView, numbered: bool, count: nat)
    ensures
        count <= item_lines(item, numbered, count).1 <= count + 1,
{
}

/// Appends the lines `more` to `lines`.
fn append_lines(lines: &mut Vec<Vec<char>>, more: Vec<Vec<char>>)
    ensures
        lines_view(final(lines)@) == lines_view(old(lines)@) + lines_view(more@),
{
    let ghost start = lines_view(lines@);
    let mut more = more;
    let ghost mv = lines_view(more@);
    let n = more.len();
    let mut k: usize = 0;
    assert(mv.take(0) =~= Seq::<Seq<char>>::empty());
    assert(start + mv.take(0) =~= start);
    while k < n
        invariant
            n == mv.len(),
            0 <= k <= n,
            more@.len() == n - k,
            forall|j: int| 0 <= j < more@.len() ==> (#[trigger] more@[j])@ == mv[k + j],
            lines_view(lines@) == start + mv.take(k as int),
        decreases n - k,
    {
        let l = more.remove(0);
        assert(l@ == mv[k as int]);
        let ghost prev = lines@;
        lines.push(l);
        assert(lines_view(lines@) =~= lines_view(prev).push(l@));
        assert(mv.take(k + 1) =~= mv.take(k as int).push(mv[k as int]));
        k = k + 1;
        assert(lines_view(lines@) =~= start + mv.take(k as int));
    }
    assert(mv.take(n as int) =~= mv);
}

/// The lines of one list item and of the items below it, and the count of
/// numbered items after it.
fn render_item(item: &ListItem, numbered: bool, count: usize) -> (r: (Vec<Vec<char>>, usize))
    requires
        count < usize::MAX,
    ensures
        lines_view(r.0@) == item_lines(item_view(*item), numbered, count as nat).0,
        r.1 as nat == item_lines(item_view(*item), numbered, count as nat).1,
    decreases *item, 1nat,
{
    let ghost iv = item_view(*item);
    let mut line: Vec<char> = Vec::new();
    push_repeat(&mut line, '\t', item.level);
    let mut next = count;
    let is_num = match item.marker {
        Some(BulletMarker::Numbered) => true,
        _ => false,
    };
    if numbered || is_num {
        next = count + 1;
        let digits = decimal_chars(next);
        push_all(&mut line, digits.as_slice());
        line.push('.');
        line.push(' ');
    } else {
        match item.marker {
            Some(m) => {
                push_str(&mut line, m.to_string());
                line.push(' ');
            },
            None => {
                line.push('-');
                line.push(' ');
            },
        }
    }
    assert(line@ =~= repeat_char('\t', iv.level) + item_marker(iv, numbered, count as nat).0);
    assert(next as nat == item_marker(iv, numbered, count as nat).1);
    match &item.segments {
        Some(segs) => {
            let t = segments_to_markdown(segs.as_slice());
            push_all(&mut line, t.as_slice());
        },
        None => {
            push_str(&mut line, item.content.as_str());
        },
    }
    assert(line@ =~= repeat_char('\t', iv.level) + item_marker(iv, numbered, count as nat).0 + item_text(iv));
    let mut lines: Vec<Vec<char>> = Vec::new();
    lines.push(line);
    proof {
        lemma_items_view_len(item.children@);
    }
    if item.children.len() > 0 {
        let numbered_children = any_item_numbered(item.children.as_slice());
        assert(decreases_to!(*item => item.children));
        let (child_lines, _) = render_items(&item.children, numbered_children);
        let joined = join_lines_of(&child_lines);
        assert(child_lines@.map_values(|l: Vec<char>| l@) == lines_view(child_lines@));
        let parts = nonempty_lines_of(&joined);
        assert(lines_view(parts@) =~= nonempty_lines(joined@));
        let ghost first = lines@;
        append_lines(&mut lines, parts);
        assert(lines_view(first) =~= seq![repeat_char('\t', iv.level) + item_marker(iv, numbered, count as nat).0 + item_text(iv)]);
    } else {
        assert(lines_view(lines@) =~= item_lines(iv, numbered, count as nat).0);
    }
    (lines, next)
}

/// The lines of the items of a list, numbered from 1 where `numbered`, and
/// the count of numbered items.
fn render_items(items: &Vec<(BlockId, ListItem)>, numbered: bool) -> (r: (Vec<Vec<char>>, usize))
    ensures
        lines_view(r.0@) == items_lines(items_view(items@), numbered, 0).0,
        r.1 as nat == items_lines(items_view(items@), numbered, 0).1,
    decreases *items, 0nat,
{
    let ghost iv = items_view(items@);
    proof {
        lemma_items_view_len(items@);
    }
    let mut lines: Vec<Vec<char>> = Vec::new();
    let mut count: usize = 0;
    let mut i: usize = 0;
    assert(iv.skip(0) =~= iv);
    assert(lines_view(lines@) =~= Seq::<Seq<char>>::empty());
    assert(Seq::<Seq<char>>::empty() + items_lines(iv, numbered, 0).0 =~= items_lines(iv, numbered, 0).0);
    while i < items.len()
        invariant
            iv == items_view(items@),
            iv.len() == items@.len(),
            0 <= i <= items@.len(),
            count <= i,
            items_lines(iv, numbered, 0).0 == lines_view(lines@) + items_lines(iv.skip(i as int), numbered, count as nat).0,
            items_lines(iv, numbered, 0).1 == items_lines(iv.skip(i as int), numbered, count as nat).1,
        decreases items@.len() - i,
    {
        proof {
            lemma_items_view_index(items@, i as int);
            assert(iv.skip(i as int)[0] == iv[i as int]);
            assert(iv.skip(i as int).drop_first() =~= iv.skip(i + 1));
            lemma_item_marker_count(iv[i as int].1, numbered, count as nat);
        }
        assert(decreases_to!(*items => items@[i as int].1));
        let (item_lines_v, next) = render_item(&items[i].1, numbered, count);
        let ghost prev = lines_view(lines@);
        append_lines(&mut lines, item_lines_v);
        proof {
            let rest = items_lines(iv.skip(i + 1), numbered, next as nat).0;
            assert(prev + (lines_view(item_lines_v@) + rest) =~= (prev + lines_view(item_lines_v@)) + rest);
        }
        count = next;
        i = i + 1;
    }
    (lines, count)
}

impl ContentBlock {
    /// The items of a list block.
    pub fn items(&self) -> (r: &Vec<(BlockId, ListItem)>)
        requires
            self is BulletList || self is NumberedList,
        ensures
            match *self {
                ContentBlock::BulletList { items } => r@ == items@,
                ContentBlock::NumberedList { items } => r@ == items@,
                _ => false,
            },
    {
        match self {
            ContentBlock::BulletList { items } => items,
            ContentBlock::NumberedList { items } => items,
            _ => vstd::pervasive::unreached(),
        }
    }

    /// The items of a list block, to change in place.
    pub fn items_mut(&mut self) -> (r: &mut Vec<(BlockId, ListItem)>)
        requires
            *old(self) is BulletList || *old(self) is NumberedList,
        ensures
            match *old(self) {
                ContentBlock::BulletList { items } => *r == items && *final(self) == (ContentBlock::BulletList {
                    items: *final(r),
                }),
                ContentBlock::NumberedList { items } => *r == items && *final(self) == (ContentBlock::NumberedList {
                    items: *final(r),
                }),
                _ => false,
            },
    {
        match self {
            ContentBlock::BulletList { items } => items,
            ContentBlock::NumberedList { items } => items,
            _ => vstd::pervasive::unreached(),
        }
    }

    /// The block written as markdown.
    pub fn to_markdown(&self) -> (s: String)
        ensures
            s@ == block_md(block_view(*self)),
    {
        let mut out: Vec<char> = Vec::new();
        match self {
            ContentBlock::Heading { level, text } => {
                push_repeat(&mut out, '#', *level as usize);
                out.push(' ');
                push_str(&mut out, text.as_str());
            },
            ContentBlock::Paragraph { segments } => {
                out = segments_to_markdown(segments.as_slice());
            },
            ContentBlock::BulletList { items } => {
                let (lines, _) = render_items(items, false);
                out = join_lines_of(&lines);
            },
            ContentBlock::NumberedList { items } => {
                let (lines, _) = render_items(items, true);
                out = join_lines_of(&lines);
            },
            ContentBlock::CodeBlock { language, code } => {
                out.push('`');
                out.push('`');
                out.push('`');
                match language {
                    Some(l) => push_str(&mut out, l.as_str()),
                    None => {},
                }
                out.push('\n');
                let cc = str_to_chars(code.as_str());
                push_all(&mut out, cc.as_slice());
                if !(cc.len() > 0 && cc[cc.len() - 1] == '\n') {
                    out.push('\n');
                }
                out.push('`');
                out.push('`');
                out.push('`');
            },
            ContentBlock::Quote(text) => {
                out.push('>');
                out.push(' ');
                push_str(&mut out, text.as_str());
            },
            ContentBlock::Rule => {
                out.push('-');
                out.push('-');
                out.push('-');
            },
        }
        proof {
            match self {
                ContentBlock::Heading { level, text } => {
                    assert(out@ =~= block_md(block_view(*self)));
                },
                ContentBlock::CodeBlock { language, code } => {
                    assert(out@ =~= block_md(block_view(*self)));
                },
                ContentBlock::Quote(text) => {
                    assert(out@ =~= block_md(block_view(*self)));
                },
                ContentBlock::Rule => {
                    assert(out@ =~= block_md(block_view(*self)));
                },
                _ => {},
            }
        }
        chars_to_string(out.as_slice())
    }
}

pub proof fn lemma_items_view_update(s: Seq<(BlockId, ListItem)>, i: int, x: (BlockId, ListItem))
    requires
        0 <= i < s.len(),
    ensures
        items_view(s.update(i, x)) == items_view(s).update(i, (x.0.0, item_view(x.1))),
{
    lemma_items_view_len(s);
    lemma_items_view_len(s.update(i, x));
    assert forall|j: int| 0 <= j < s.len() implies #[trigger] items_view(s.update(i, x))[j] == items_view(s).update(i, (x.0.0, item_view(x.1)))[j] by {
        lemma_items_view_index(s, j);
        lemma_items_view_index(s.update(i, x), j);
    }
    assert(items_view(s.update(i, x)) =~= items_view(s).update(i, (x.0.0, item_view(x.1))));
}

pub proof fn lemma_items_view_insert(s: Seq<(BlockId, ListItem)>, i: int, x: (BlockId, ListItem))
    requires
        0 <= i <= s.len(),
    ensures
        items_view(s.insert(i, x)) == items_view(s).insert(i, (x.0.0, item_view(x.1))),
{
    lemma_items_view_len(s);
    lemma_items_view_len(s.insert(i, x));
    assert forall|j: int| 0 <= j < s.len() + 1 implies #[trigger] items_view(s.insert(i, x))[j] == items_view(s).insert(i, (x.0.0, item_view(x.1)))[j] by {
        lemma_items_view_index(s.insert(i, x), j);
        if j < i {
            lemma_items_view_index(s, j);
        } else if j > i {
            lemma_items_view_index(s, j - 1);
        }
    }
    assert(items_view(s.insert(i, x)) =~= items_view(s).insert(i, (x.0.0, item_view(x.1))));
}

pub proof fn lemma_items_view_remove(s: Seq<(BlockId, ListItem)>, i: int)
    requires
        0 <= i < s.len(),
    ensures
        items_view(s.remove(i)) == items_view(s).remove(i),
{
    lemma_items_view_len(s);
    lemma_items_view_len(s.remove(i));
    assert forall|j: int| 0 <= j < s.len() - 1 implies #[trigger] items_view(s.remove(i))[j] == items_view(s).remove(i)[j] by {
        lemma_items_view_index(s.remove(i), j);
        if j < i {
            lemma_items_view_index(s, j);
        } else {
            lemma_items_view_index(s, j + 1);
        }
    }
    assert(items_view(s.remove(i)) =~= items_view(s).remove(i));
}

pub proof fn lemma_items_view_concat(a: Seq<(BlockId, ListItem)>, b: Seq<(BlockId, ListItem)>)
    ensures
        items_view(a + b) == items_view(a) + items_view(b),
    decreases a.len(),
{
    if a.len() == 0 {
        assert(a + b =~= b);
        assert(items_view(a) + items_view(b) =~= items_view(b));
    } else {
        assert((a + b).drop_first() =~= a.drop_first() + b);
        assert((a + b)[0] == a[0]);
        lemma_items_view_concat(a.drop_first(), b);
        assert(items_view(a + b) =~= items_view(a) + items_view(b));
    }
}

pub proof fn lemma_blocks_view_len(s: Seq<ContentBlock>)
    ensures
        blocks_view(s).len() == s.len(),
    decreases s.len(),
{
    if s.len() > 0 {
        lemma_blocks_view_len(s.drop_first());
    }
}

pub proof fn lemma_blocks_view_index(s: Seq<ContentBlock>, i: int)
    requires
        0 <= i < s.len(),
    ensures
        blocks_view(s)[i] == block_view(s[i]),
    decreases s.len(),
{
    lemma_blocks_view_len(s);
    if i > 0 {
        lemma_blocks_view_index(s.drop_first(), i - 1);
    }
}

/// A copy of the segment.
pub fn clone_segment(s: &TextSegment) -> (r: TextSegment)
    ensures
        r == *s,
{
    match s {
        TextSegment::Text(t) => TextSegment::Text(t.clone()),
        TextSegment::WikiLink { target } => TextSegment::WikiLink { target: target.clone() },
    }
}

/// A copy of the segments.
pub fn clone_segments(s: &Vec<TextSegment>) -> (r: Vec<TextSegment>)
    ensures
        r@ == s@,
{
    let mut r: Vec<TextSegment> = Vec::new();
    let mut i: usize = 0;
    while i < s.len()
        invariant
            0 <= i <= s@.len(),
            r@ == s@.take(i as int),
        decreases s@.len() - i,
    {
        r.push(clone_segment(&s[i]));
        i = i + 1;
        assert(r@ =~= s@.take(i as int));
    }
    assert(s@.take(i as int) =~= s@);
    r
}

/// A copy of a list item and all below it.
pub fn clone_item(item: &ListItem) -> (r: ListItem)
    ensures
        item_view(r) == item_view(*item),
    decreases *item, 1nat,
{
    let segments = match &item.segments {
        Some(s) => Some(clone_segments(s)),
        None => None,
    };
    assert(decreases_to!(*item => item.children));
    let children = clone_items(&item.children);
    assert(decreases_to!(*item => item.nested_content));
    let nested_content = clone_blocks(&item.nested_content);
    ListItem {
        content: item.content.clone(),
        segments,
        level: item.level,
        children,
        nested_content,
        marker: item.marker,
    }
}

/// A copy of list items and all below them.
pub fn clone_items(items: &Vec<(BlockId, ListItem)>) -> (r: Vec<(BlockId, ListItem)>)
    ensures
        items_view(r@) == items_view(items@),
    decreases *items, 0nat,
{
    let mut r: Vec<(BlockId, ListItem)> = Vec::new();
    let mut i: usize = 0;
    proof {
        lemma_items_view_len(items@);
        lemma_items_view_len(r@);
        assert(items_view(r@) =~= items_view(items@).take(0));
    }
    while i < items.len()
        invariant
            0 <= i <= items@.len(),
            items_view(items@).len() == items@.len(),
            r@.len() == i,
            items_view(r@) == items_view(items@).take(i as int),
        decreases items@.len() - i,
    {
        assert(decreases_to!(*items => items@[i as int].1));
        let c = clone_item(&items[i].1);
        let ghost prev = r@;
        r.push((items[i].0, c));
        proof {
            lemma_items_view_insert(prev, prev.len() as int, (items@[i as int].0, c));
            assert(prev.insert(prev.len() as int, (items@[i as int].0, c)) =~= r@);
            lemma_items_view_index(items@, i as int);
            assert(items_view(items@).take(i + 1) =~= items_view(items@).take(i as int).insert(i as int, items_view(items@)[i as int]));
        }
        i = i + 1;
    }
    assert(items_view(items@).take(i as int) =~= items_view(items@));
    r
}

/// A copy of a block and all below it.
pub fn clone_block(b: &ContentBlock) -> (r: ContentBlock)
    ensures
        block_view(r) == block_view(*b),
    decreases *b, 1nat,
{
    match b {
        ContentBlock::Heading { level, text } => ContentBlock::Heading { level: *level, text: text.clone() },
        ContentBlock::Paragraph { segments } => ContentBlock::Paragraph { segments: clone_segments(segments) },
        ContentBlock::BulletList { items } => {
            assert(decreases_to!(*b => *items));
            ContentBlock::BulletList { items: clone_items(items) }
        },
        ContentBlock::NumberedList { items } => {
            assert(decreases_to!(*b => *items));
            ContentBlock::NumberedList { items: clone_items(items) }
        },
        ContentBlock::CodeBlock { language, code } => {
            let language = match language {
                Some(l) => Some(l.clone()),
                None => None,
            };
            ContentBlock::CodeBlock { language, code: code.clone() }
        },
        ContentBlock::Quote(t) => ContentBlock::Quote(t.clone()),
        ContentBlock::Rule => ContentBlock::Rule,
    }
}

/// A copy of blocks and all below them.
pub fn clone_blocks(blocks: &Vec<ContentBlock>) -> (r: Vec<ContentBlock>)
    ensures
        blocks_view(r@) == blocks_view(blocks@),
    decreases *blocks, 0nat,
{
    let mut r: Vec<ContentBlock> = Vec::new();
    let mut i: usize = 0;
    while i < blocks.len()
        invariant
            0 <= i <= blocks@.len(),
            r@.len() == i,
            forall|j: int| 0 <= j < i ==> block_view(#[trigger] r@[j]) == block_view(blocks@[j]),
        decreases blocks@.len() - i,
    {
        assert(decreases_to!(*blocks => blocks@[i as int]));
        let c = clone_block(&blocks[i]);
        r.push(c);
        i = i + 1;
    }
    proof {
        lemma_blocks_view_len(r@);
        lemma_blocks_view_len(blocks@);
        assert forall|j: int| 0 <= j < r@.len() implies blocks_view(r@)[j] == blocks_view(blocks@)[j] by {
            lemma_blocks_view_index(r@, j);
            lemma_blocks_view_index(blocks@, j);
        }
        assert(blocks_view(r@) =~= blocks_view(blocks@));
    }
    r
}

/// The item with every identifier below it set to 0.
pub open spec fn erase_item(it: ItemView) -> ItemView
    decreases it, 1nat,
{
    ItemView { children: erase_items(it.children), nested_content: erase_blocks(it.nested_content), ..it }
}

/// The items with their identifiers, and every identifier below them, set
/// to 0.
pub open spec fn erase_items(s: Seq<(u128, ItemView)>) -> Seq<(u128, ItemView)>
    decreases s, 0nat,
{
    if s.len() == 0 {
        Seq::empty()
    } else {
        seq![(0u128, erase_item(s[0].1))] + erase_items(s.drop_first())
    }
}

/// The block with every identifier in it set to 0.
pub open spec fn erase_block(b: BlockView) -> BlockView
    decreases b, 1nat,
{
    match b {
        BlockView::BulletList(items) => BlockView::BulletList(erase_items(items)),
        BlockView::NumberedList(items) => BlockView::NumberedList(erase_items(items)),
        _ => b,
    }
}

/// The blocks with every identifier in them set to 0.
pub open spec fn erase_blocks(s: Seq<BlockView>) -> Seq<BlockView>
    decreases s, 0nat,
{
    if s.len() == 0 {
        Seq::empty()
    } else {
        seq![erase_block(s[0])] + erase_blocks(s.drop_first())
    }
}

pub proof fn lemma_erase_items_concat(a: Seq<(u128, ItemView)>, b: Seq<(u128, ItemView)>)
    ensures
        erase_items(a + b) == erase_items(a) + erase_items(b),
    decreases a.len(),
{
    if a.len() == 0 {
        assert(a + b =~= b);
        assert(erase_items(a) + erase_items(b) =~= erase_items(b));
    } else {
        assert((a + b).drop_first() =~= a.drop_first() + b);
        assert((a + b)[0] == a[0]);
        lemma_erase_items_concat(a.drop_first(), b);
        assert(erase_items(a + b) =~= erase_items(a) + erase_items(b));
    }
}

pub proof fn lemma_erase_blocks_concat(a: Seq<BlockView>, b: Seq<BlockView>)
    ensures
        erase_blocks(a + b) == erase_blocks(a) + erase_blocks(b),
    decreases a.len(),
{
    if a.len() == 0 {
        assert(a + b =~= b);
        assert(erase_blocks(a) + erase_blocks(b) =~= erase_blocks(b));
    } else {
        assert((a + b).drop_first() =~= a.drop_first() + b);
        assert((a + b)[0] == a[0]);
        lemma_erase_blocks_concat(a.drop_first(), b);
        assert(erase_blocks(a + b) =~= erase_blocks(a) + erase_blocks(b));
    }
}

pub proof fn lemma_erase_items_len(s: Seq<(u128, ItemView)>)
    ensures
        erase_items(s).len() == s.len(),
    decreases s.len(),
{
    if s.len() > 0 {
        lemma_erase_items_len(s.drop_first());
    }
}

} // verus!
