//! Turning the events of a CommonMark reader into blocks: paragraphs,
//! headings, nested lists with the code blocks inside their items, code
//! blocks, quotes and rules.
use super::blocks::{any_link, has_link, parse_wiki_links, wiki_segments};
use super::events::{cmark_events, markdown_events, MdEvent, MdTag};
use super::text::{trim_chars, trim_range};
use crate::models::chars::{chars_to_string, push_str, str_to_chars};
use crate::models::document::{
    block_view, blocks_view, erase_block, erase_blocks, erase_item, erase_items, item_view, items_view,
    lemma_blocks_view_index, lemma_blocks_view_len, lemma_erase_blocks_concat, lemma_erase_items_concat,
    lemma_items_view_concat, lemma_items_view_len, BlockId, BlockView, ContentBlock, Document,
    ItemView, ListItem};
use vstd::prelude::*;

verus! {

/// The state of reading events, every identifier in it set to 0.
pub struct MdState {
    /// The blocks finished so far.
    pub blocks: Seq<BlockView>,
    /// The text of the paragraph, heading or quote being read.
    pub text: Seq<char>,
    /// The lists being read, innermost last: their items so far, and whether
    /// each is ordered.
    pub lists: Seq<(Seq<(u128, ItemView)>, bool)>,
    /// The items being read, innermost last: their text, children and the
    /// blocks inside them.
    pub items: Seq<(Seq<char>, Seq<(u128, ItemView)>, Seq<BlockView>)>,
    /// Whether text goes to the innermost item.
    pub in_item: bool,
    pub in_code: bool,
    pub code_lang: Option<Seq<char>>,
    pub code: Seq<char>,
}

/// The state before any event.
pub open spec fn md_start() -> MdState {
    MdState {
        blocks: Seq::empty(),
        text: Seq::empty(),
        lists: Seq::empty(),
        items: Seq::empty(),
        in_item: false,
        in_code: false,
        code_lang: None,
        code: Seq::empty(),
    }
}

/// The pending text, trimmed, becomes a paragraph where it is not empty.
pub open spec fn flush_para(s: MdState) -> MdState {
    let t = trim_chars(s.text);
    MdState {
        blocks: if t.len() > 0 {
            s.blocks.push(BlockView::Paragraph(wiki_segments(t)))
        } else {
            s.blocks
        },
        text: Seq::empty(),
        ..s
    }
}

/// The pending text, trimmed, becomes the block `mk(text)` where it is not
/// empty.
pub open spec fn close_text(s: MdState, heading: Option<u8>) -> MdState {
    let t = trim_chars(s.text);
    MdState {
        blocks: if t.len() > 0 {
            s.blocks.push(
                match heading {
                    Some(l) => BlockView::Heading(l, t),
                    None => BlockView::Quote(t),
                },
            )
        } else {
            s.blocks
        },
        text: Seq::empty(),
        ..s
    }
}

/// Text added to the innermost item.
pub open spec fn add_text(s: MdState, t: Seq<char>) -> MdState {
    if s.items.len() > 0 {
        let (text, ch, nested) = s.items.last();
        MdState { items: s.items.update(s.items.len() - 1, (text + t, ch, nested)), ..s }
    } else {
        s
    }
}

/// A block added inside the innermost item.
pub open spec fn add_nested(s: MdState, b: BlockView) -> MdState {
    if s.items.len() > 0 {
        let (text, ch, nested) = s.items.last();
        MdState { items: s.items.update(s.items.len() - 1, (text, ch, nested.push(b))), ..s }
    } else {
        s
    }
}

/// The list item that a finished item is read as, at its level.
pub open spec fn finished_item(text: Seq<char>, ch: Seq<(u128, ItemView)>, nested: Seq<BlockView>, level: nat) -> ItemView {
    let t = trim_chars(text);
    let segs = wiki_segments(t);
    ItemView {
        content: t,
        segments: if has_link(segs) {
            Some(segs)
        } else {
            None
        },
        level,
        children: ch,
        nested_content: nested,
        marker: None,
    }
}

/// The innermost item ends and joins the innermost list.
pub open spec fn end_item(s: MdState) -> MdState {
    if s.items.len() > 0 {
        let (text, ch, nested) = s.items.last();
        let level: nat = if s.lists.len() > 0 {
            (s.lists.len() - 1) as nat
        } else {
            0
        };
        let item = finished_item(text, ch, nested, level);
        let lists = if s.lists.len() > 0 {
            s.lists.update(s.lists.len() - 1, (s.lists.last().0.push((0u128, item)), s.lists.last().1))
        } else {
            s.lists
        };
        MdState { items: s.items.drop_last(), lists, in_item: false, ..s }
    } else {
        MdState { in_item: false, ..s }
    }
}

/// The innermost list ends: at the top it becomes a block where it has
/// items; inside an item it becomes that item's children.
pub open spec fn end_list(s: MdState) -> MdState {
    if s.lists.len() > 0 {
        let (items, ordered) = s.lists.last();
        let lists = s.lists.drop_last();
        if lists.len() == 0 {
            MdState {
                lists,
                blocks: if items.len() > 0 {
                    s.blocks.push(
                        if ordered {
                            BlockView::NumberedList(items)
                        } else {
                            BlockView::BulletList(items)
                        },
                    )
                } else {
                    s.blocks
                },
                ..s
            }
        } else if s.items.len() > 0 {
            let (text, _, nested) = s.items.last();
            MdState { lists, items: s.items.update(s.items.len() - 1, (text, items, nested)), ..s }
        } else {
            MdState { lists, ..s }
        }
    } else {
        s
    }
}

/// A code block opens, with its language if it names one.
pub open spec fn start_code(s: MdState, lang: Option<Seq<char>>) -> MdState {
    let s1 = if !s.in_item {
        flush_para(s)
    } else {
        s
    };
    MdState { in_code: true, code_lang: lang, code: Seq::empty(), ..s1 }
}

/// The state after one event.
pub open spec fn md_step(s: MdState, e: MdEvent) -> MdState {
    match e {
        MdEvent::Start(MdTag::Paragraph) => flush_para(s),
        MdEvent::End(MdTag::Paragraph) => flush_para(s),
        MdEvent::Start(MdTag::Heading(_)) => flush_para(s),
        MdEvent::End(MdTag::Heading(l)) => close_text(s, Some(l)),
        MdEvent::Start(MdTag::List(ordered)) => {
            let s1 = if s.lists.len() == 0 {
                flush_para(s)
            } else {
                s
            };
            MdState { lists: s1.lists.push((Seq::empty(), ordered)), ..s1 }
        },
        MdEvent::End(MdTag::List(_)) => end_list(s),
        MdEvent::Start(MdTag::Item) => MdState {
            items: s.items.push((Seq::empty(), Seq::empty(), Seq::empty())),
            in_item: true,
            ..s
        },
        MdEvent::End(MdTag::Item) => end_item(s),
        MdEvent::Start(MdTag::CodeBlock) => start_code(s, None),
        MdEvent::Fence(l) => start_code(s, if l@.len() > 0 { Some(l@) } else { None }),
        MdEvent::End(MdTag::CodeBlock) => {
            let b = BlockView::CodeBlock(s.code_lang, s.code);
            let s1 = MdState { in_code: false, code_lang: None, code: Seq::empty(), ..s };
            if s.in_item {
                add_nested(s1, b)
            } else {
                MdState { blocks: s1.blocks.push(b), ..s1 }
            }
        },
        MdEvent::Start(MdTag::BlockQuote) => flush_para(s),
        MdEvent::End(MdTag::BlockQuote) => close_text(s, None),
        MdEvent::Rule => {
            let s1 = flush_para(s);
            MdState { blocks: s1.blocks.push(BlockView::Rule), ..s1 }
        },
        MdEvent::Text(t) => if s.in_code {
            MdState { code: s.code + t@, ..s }
        } else if s.in_item {
            add_text(s, t@)
        } else {
            MdState { text: s.text + t@, ..s }
        },
        MdEvent::Code(c) => {
            let ct = seq!['`'] + c@ + seq!['`'];
            if s.in_item {
                add_text(s, ct)
            } else {
                MdState { text: s.text + ct, ..s }
            }
        },
        MdEvent::SoftBreak => if s.in_code {
            MdState { code: s.code.push('\n'), ..s }
        } else if s.in_item {
            add_text(s, seq![' '])
        } else {
            MdState { text: s.text.push(' '), ..s }
        },
        MdEvent::HardBreak => if s.in_code {
            MdState { code: s.code.push('\n'), ..s }
        } else if s.in_item {
            add_text(s, seq![' ', ' ', '\n'])
        } else {
            MdState { text: s.text + seq![' ', ' ', '\n'], ..s }
        },
        _ => s,
    }
}

/// Inline code reads as its code between backquotes: outside a code block,
/// a code span has the same effect as the text of the code wrapped in
/// backquotes, in a paragraph, heading, quote or list item alike. So the
/// backquotes are kept when the text is written back.
pub proof fn law_code_span_keeps_backquotes(s: MdState, c: String, t: String)
    requires
        !s.in_code,
        t@ == seq!['`'] + c@ + seq!['`'],
    ensures
        md_step(s, MdEvent::Code(c)) == md_step(s, MdEvent::Text(t)),
        !s.in_item ==> md_step(s, MdEvent::Code(c)).text == s.text + t@,
        s.in_item && s.items.len() > 0 ==> md_step(s, MdEvent::Code(c)).items.last().0 == s.items.last().0 + t@,
{
}

/// The state after the events, one after the other.
pub open spec fn md_run(events: Seq<MdEvent>) -> MdState
    decreases events.len(),
{
    if events.len() == 0 {
        md_start()
    } else {
        md_step(md_run(events.drop_last()), events.last())
    }
}

/// The blocks that the events are read as.
pub open spec fn md_blocks(events: Seq<MdEvent>) -> Seq<BlockView> {
    flush_para(md_run(events)).blocks
}

pub proof fn lemma_blocks_push(v: Seq<ContentBlock>, b: ContentBlock)
    ensures
        erase_blocks(blocks_view(v.push(b))) == erase_blocks(blocks_view(v)).push(erase_block(block_view(b))),
{
    lemma_blocks_view_len(v);
    lemma_blocks_view_len(v.push(b));
    assert forall|i: int| 0 <= i < v.len() + 1 implies #[trigger] blocks_view(v.push(b))[i] == blocks_view(v).push(
        block_view(b),
    )[i] by {
        lemma_blocks_view_index(v.push(b), i);
        if i < v.len() {
            lemma_blocks_view_index(v, i);
        }
    }
    assert(blocks_view(v.push(b)) =~= blocks_view(v) + seq![block_view(b)]);
    lemma_erase_blocks_concat(blocks_view(v), seq![block_view(b)]);
    let one = seq![block_view(b)];
    assert(one.drop_first() == Seq::<BlockView>::empty());
    assert(erase_blocks(Seq::<BlockView>::empty()) == Seq::<BlockView>::empty());
    assert(one[0] == block_view(b));
    assert(erase_blocks(one) =~= seq![erase_block(block_view(b))]);
}

pub proof fn lemma_items_push(v: Seq<(BlockId, ListItem)>, x: (BlockId, ListItem))
    ensures
        erase_items(items_view(v.push(x))) == erase_items(items_view(v)).push((0u128, erase_item(item_view(x.1)))),
{
    lemma_items_view_concat(v, seq![x]);
    assert(v + seq![x] =~= v.push(x));
    let one = seq![x];
    assert(one.drop_first() == Seq::<(BlockId, ListItem)>::empty());
    assert(items_view(Seq::<(BlockId, ListItem)>::empty()) == Seq::<(u128, ItemView)>::empty());
    assert(one[0] == x);
    assert(items_view(one) =~= seq![(x.0.0, item_view(x.1))]);
    let vone = seq![(x.0.0, item_view(x.1))];
    lemma_erase_items_concat(items_view(v), vone);
    assert(vone.drop_first() == Seq::<(u128, ItemView)>::empty());
    assert(erase_items(Seq::<(u128, ItemView)>::empty()) == Seq::<(u128, ItemView)>::empty());
    assert(vone[0] == (x.0.0, item_view(x.1)));
    assert(erase_items(vone) =~= seq![(0u128, erase_item(item_view(x.1)))]);
}

/// Appends text to a string.
fn append_str(s: &mut String, t: &str)
    ensures
        final(s)@ == old(s)@ + t@,
{
    let mut v = str_to_chars(s.as_str());
    push_str(&mut v, t);
    *s = chars_to_string(v.as_slice());
}

/// The state of reading nested lists.
struct ListParser {
    /// The lists being read, innermost last: their items so far, and whether
    /// each is ordered.
    list_stack: Vec<(Vec<(BlockId, ListItem)>, bool)>,
    /// The items being read, innermost last: their text, children and the
    /// blocks inside them.
    item_stack: Vec<(String, Vec<(BlockId, ListItem)>, Vec<ContentBlock>)>,
    /// Whether text goes to the innermost item.
    in_item: bool,
}

/// The state of reading events into blocks.
pub struct MarkdownProcessor {
    blocks: Vec<ContentBlock>,
    current_text: String,
    list_parser: ListParser,
    in_code_block: bool,
    code_language: Option<String>,
    code_content: String,
}

pub open spec fn lists_view(v: Seq<(Vec<(BlockId, ListItem)>, bool)>) -> Seq<(Seq<(u128, ItemView)>, bool)> {
    v.map_values(|e: (Vec<(BlockId, ListItem)>, bool)| (erase_items(items_view(e.0@)), e.1))
}

pub open spec fn stack_view(v: Seq<(String, Vec<(BlockId, ListItem)>, Vec<ContentBlock>)>) -> Seq<
    (Seq<char>, Seq<(u128, ItemView)>, Seq<BlockView>),
> {
    v.map_values(
        |e: (String, Vec<(BlockId, ListItem)>, Vec<ContentBlock>)|
            (e.0@, erase_items(items_view(e.1@)), erase_blocks(blocks_view(e.2@))),
    )
}

impl MarkdownProcessor {
    /// The state of reading, every identifier in it set to 0.
    pub closed spec fn view_state(&self) -> MdState {
        MdState {
            blocks: erase_blocks(blocks_view(self.blocks@)),
            text: self.current_text@,
            lists: lists_view(self.list_parser.list_stack@),
            items: stack_view(self.list_parser.item_stack@),
            in_item: self.list_parser.in_item,
            in_code: self.in_code_block,
            code_lang: match self.code_language {
                Some(l) => Some(l@),
                None => None,
            },
            code: self.code_content@,
        }
    }

    pub fn new() -> (p: MarkdownProcessor)
        ensures
            p.view_state() == md_start(),
    {
        let p = MarkdownProcessor {
            blocks: Vec::new(),
            current_text: String::new(),
            list_parser: ListParser { list_stack: Vec::new(), item_stack: Vec::new(), in_item: false },
            in_code_block: false,
            code_language: None,
            code_content: String::new(),
        };
        proof {
            lemma_blocks_view_len(p.blocks@);
            assert(erase_blocks(blocks_view(p.blocks@)) =~= Seq::<BlockView>::empty());
            assert(lists_view(p.list_parser.list_stack@) =~= Seq::<(Seq<(u128, ItemView)>, bool)>::empty());
            assert(stack_view(p.list_parser.item_stack@) =~= Seq::<(Seq<char>, Seq<(u128, ItemView)>, Seq<BlockView>)>::empty());
        }
        p
    }

    /// Open a code block in the given language
    fn start_code_block(&mut self, lang: Option<String>)
        ensures
            final(self).view_state() == start_code(
                old(self).view_state(),
                match lang {
                    Some(l) => Some(l@),
                    None => None,
                },
            ),
    {
        if !self.list_parser.in_item {
            self.flush_paragraph();
        }
        self.in_code_block = true;
        self.code_language = lang;
        self.code_content = String::new();
    }

    /// Flush any pending paragraph text to blocks
    fn flush_paragraph(&mut self)
        ensures
            final(self).view_state() == flush_para(old(self).view_state()),
    {
        let cs = str_to_chars(self.current_text.as_str());
        let t = trim_range(&cs, 0, cs.len());
        assert(cs@.subrange(0, cs@.len() as int) =~= cs@);
        if t.len() > 0 {
            let text = chars_to_string(t.as_slice());
            let segments = parse_wiki_links(text.as_str());
            let b = ContentBlock::Paragraph { segments };
            proof {
                lemma_blocks_push(self.blocks@, b);
            }
            self.blocks.push(b);
        }
        self.current_text = String::new();
    }

    /// The pending text becomes a heading of that level, or else a quote.
    fn close_text(&mut self, heading: Option<u8>)
        ensures
            final(self).view_state() == close_text(old(self).view_state(), heading),
    {
        let cs = str_to_chars(self.current_text.as_str());
        let t = trim_range(&cs, 0, cs.len());
        assert(cs@.subrange(0, cs@.len() as int) =~= cs@);
        if t.len() > 0 {
            let text = chars_to_string(t.as_slice());
            let b = match heading {
                Some(level) => ContentBlock::Heading { level, text },
                None => ContentBlock::Quote(text),
            };
            proof {
                lemma_blocks_push(self.blocks@, b);
            }
            self.blocks.push(b);
        }
        self.current_text = String::new();
    }

    /// Adds text to the innermost item.
    fn add_text(&mut self, text: &str)
        ensures
            final(self).view_state() == add_text(old(self).view_state(), text@),
    {
        let ghost before = self.list_parser.item_stack@;
        if self.list_parser.item_stack.len() > 0 {
            let (mut t, ch, nested) = self.list_parser.item_stack.pop().unwrap();
            append_str(&mut t, text);
            self.list_parser.item_stack.push((t, ch, nested));
            assert(stack_view(self.list_parser.item_stack@) =~= stack_view(before).update(
                before.len() - 1,
                (stack_view(before).last().0 + text@, stack_view(before).last().1, stack_view(before).last().2),
            ));
        }
    }

    /// Adds a block inside the innermost item.
    fn add_nested_content(&mut self, content: ContentBlock)
        ensures
            final(self).view_state() == add_nested(old(self).view_state(), erase_block(block_view(content))),
    {
        let ghost before = self.list_parser.item_stack@;
        if self.list_parser.item_stack.len() > 0 {
            let (t, ch, mut nested) = self.list_parser.item_stack.pop().unwrap();
            proof {
                lemma_blocks_push(nested@, content);
            }
            nested.push(content);
            self.list_parser.item_stack.push((t, ch, nested));
            assert(stack_view(self.list_parser.item_stack@) =~= stack_view(before).update(
                before.len() - 1,
                (
                    stack_view(before).last().0,
                    stack_view(before).last().1,
                    stack_view(before).last().2.push(erase_block(block_view(content))),
                ),
            ));
        }
    }

    /// Starts a new list (either top-level or nested).
    fn start_list(&mut self, ordered: bool)
        ensures
            final(self).view_state() == (MdState {
                lists: old(self).view_state().lists.push((Seq::empty(), ordered)),
                ..old(self).view_state()
            }),
    {
        let items: Vec<(BlockId, ListItem)> = Vec::new();
        proof {
            lemma_items_view_len(items@);
            assert(erase_items(items_view(items@)) =~= Seq::<(u128, ItemView)>::empty());
        }
        let ghost before = self.list_parser.list_stack@;
        self.list_parser.list_stack.push((items, ordered));
        assert(lists_view(self.list_parser.list_stack@) =~= lists_view(before).push((Seq::empty(), ordered)));
    }

    /// Starts a new list item.
    fn start_item(&mut self)
        ensures
            final(self).view_state() == (MdState {
                items: old(self).view_state().items.push((Seq::empty(), Seq::empty(), Seq::empty())),
                in_item: true,
                ..old(self).view_state()
            }),
    {
        let ch: Vec<(BlockId, ListItem)> = Vec::new();
        let nested: Vec<ContentBlock> = Vec::new();
        proof {
            lemma_items_view_len(ch@);
            lemma_blocks_view_len(nested@);
            assert(erase_items(items_view(ch@)) =~= Seq::<(u128, ItemView)>::empty());
            assert(erase_blocks(blocks_view(nested@)) =~= Seq::<BlockView>::empty());
        }
        let ghost before = self.list_parser.item_stack@;
        self.list_parser.item_stack.push((String::new(), ch, nested));
        assert(stack_view(self.list_parser.item_stack@) =~= stack_view(before).push(
            (Seq::empty(), Seq::empty(), Seq::empty()),
        ));
        self.list_parser.in_item = true;
    }

    /// Ends the innermost item; it joins the innermost list.
    fn end_item(&mut self)
        ensures
            final(self).view_state() == end_item(old(self).view_state()),
    {
        self.list_parser.in_item = false;
        if self.list_parser.item_stack.len() == 0 {
            return;
        }
        let ghost stack_before = self.list_parser.item_stack@;
        let ghost lists_before = self.list_parser.list_stack@;
        let (text, children, nested) = self.list_parser.item_stack.pop().unwrap();
        assert(stack_view(self.list_parser.item_stack@) =~= stack_view(stack_before).drop_last());
        let nl = self.list_parser.list_stack.len();
        let level: usize = if nl > 0 {
            nl - 1
        } else {
            0
        };
        let cs = str_to_chars(text.as_str());
        let t = trim_range(&cs, 0, cs.len());
        assert(cs@.subrange(0, cs@.len() as int) =~= cs@);
        let trimmed = chars_to_string(t.as_slice());
        let segments = parse_wiki_links(trimmed.as_str());
        let linked = any_link(&segments);
        let mut item = if linked {
            ListItem::with_segments(trimmed, segments, level)
        } else {
            ListItem::new(trimmed, level)
        };
        item.children = children;
        item.nested_content = nested;
        let ghost iv = erase_item(item_view(item));
        assert(iv == finished_item(
            text@,
            erase_items(items_view(children@)),
            erase_blocks(blocks_view(nested@)),
            level as nat,
        ));
        if nl > 0 {
            let (mut items, ordered) = self.list_parser.list_stack.pop().unwrap();
            let id = BlockId::new();
            proof {
                lemma_items_push(items@, (id, item));
            }
            items.push((id, item));
            self.list_parser.list_stack.push((items, ordered));
            assert(lists_view(self.list_parser.list_stack@) =~= lists_view(lists_before).update(
                lists_before.len() - 1,
                (lists_view(lists_before).last().0.push((0u128, iv)), lists_view(lists_before).last().1),
            ));
        }
    }

    /// Ends the innermost list: at the top it becomes a block where it has
    /// items; inside an item it becomes that item's children.
    fn end_list(&mut self)
        ensures
            final(self).view_state() == end_list(old(self).view_state()),
    {
        if self.list_parser.list_stack.len() == 0 {
            return;
        }
        let ghost lists_before = self.list_parser.list_stack@;
        let ghost stack_before = self.list_parser.item_stack@;
        let (items, ordered) = self.list_parser.list_stack.pop().unwrap();
        assert(lists_view(self.list_parser.list_stack@) =~= lists_view(lists_before).drop_last());
        if self.list_parser.list_stack.len() == 0 {
            if items.len() > 0 {
                proof {
                    lemma_items_view_len(items@);
                }
                let b = if ordered {
                    ContentBlock::NumberedList { items }
                } else {
                    ContentBlock::BulletList { items }
                };
                proof {
                    lemma_blocks_push(self.blocks@, b);
                }
                self.blocks.push(b);
            } else {
                proof {
                    lemma_items_view_len(items@);
                    crate::models::document::lemma_erase_items_len(items_view(items@));
                }
            }
        } else if self.list_parser.item_stack.len() > 0 {
            let (t, _, nested) = self.list_parser.item_stack.pop().unwrap();
            self.list_parser.item_stack.push((t, items, nested));
            assert(stack_view(self.list_parser.item_stack@) =~= stack_view(stack_before).update(
                stack_before.len() - 1,
                (stack_view(stack_before).last().0, lists_view(lists_before).last().0, stack_view(stack_before).last().2),
            ));
        }
    }

    /// Process a single markdown event
    pub fn process_event(&mut self, event: &MdEvent)
        ensures
            final(self).view_state() == md_step(old(self).view_state(), *event),
    {
        let ghost before = self.view_state();
        match event {
            MdEvent::Start(MdTag::Paragraph) => self.flush_paragraph(),
            MdEvent::End(MdTag::Paragraph) => self.flush_paragraph(),
            MdEvent::Start(MdTag::Heading(_)) => self.flush_paragraph(),
            MdEvent::End(MdTag::Heading(level)) => self.close_text(Some(*level)),
            MdEvent::Start(MdTag::List(ordered)) => {
                if self.list_parser.list_stack.len() == 0 {
                    self.flush_paragraph();
                }
                self.start_list(*ordered);
            },
            MdEvent::End(MdTag::List(_)) => self.end_list(),
            MdEvent::Start(MdTag::Item) => self.start_item(),
            MdEvent::End(MdTag::Item) => self.end_item(),
            MdEvent::Start(MdTag::CodeBlock) => self.start_code_block(None),
            MdEvent::Fence(l) => {
                let lang = if !l.as_str().is_empty() {
                    Some(l.clone())
                } else {
                    None
                };
                self.start_code_block(lang);
            },
            MdEvent::End(MdTag::CodeBlock) => {
                self.in_code_block = false;
                let language = self.code_language.take();
                let code = self.code_content.clone();
                self.code_content = String::new();
                let b = ContentBlock::CodeBlock { language, code };
                if self.list_parser.in_item {
                    self.add_nested_content(b);
                } else {
                    proof {
                        lemma_blocks_push(self.blocks@, b);
                    }
                    self.blocks.push(b);
                }
                assert(self.view_state() == md_step(before, *event));
            },
            MdEvent::Start(MdTag::BlockQuote) => self.flush_paragraph(),
            MdEvent::End(MdTag::BlockQuote) => self.close_text(None),
            MdEvent::Rule => {
                self.flush_paragraph();
                let b = ContentBlock::Rule;
                proof {
                    lemma_blocks_push(self.blocks@, b);
                }
                self.blocks.push(b);
            },
            MdEvent::Text(text) => {
                if self.in_code_block {
                    append_str(&mut self.code_content, text.as_str());
                } else if self.list_parser.in_item {
                    self.add_text(text.as_str());
                } else {
                    append_str(&mut self.current_text, text.as_str());
                }
            },
            MdEvent::Code(code) => {
                let mut v: Vec<char> = Vec::new();
                v.push('`');
                push_str(&mut v, code.as_str());
                v.push('`');
                assert(v@ =~= seq!['`'] + code@ + seq!['`']);
                let code_text = chars_to_string(v.as_slice());
                if self.list_parser.in_item {
                    self.add_text(code_text.as_str());
                } else {
                    append_str(&mut self.current_text, code_text.as_str());
                }
            },
            MdEvent::SoftBreak => {
                let mut v: Vec<char> = Vec::new();
                if self.in_code_block {
                    v.push('\n');
                    assert(v@ =~= seq!['\n']);
                    let s = chars_to_string(v.as_slice());
                    append_str(&mut self.code_content, s.as_str());
                    assert(self.code_content@ =~= before.code.push('\n'));
                } else if self.list_parser.in_item {
                    v.push(' ');
                    assert(v@ =~= seq![' ']);
                    let s = chars_to_string(v.as_slice());
                    self.add_text(s.as_str());
                } else {
                    v.push(' ');
                    assert(v@ =~= seq![' ']);
                    let s = chars_to_string(v.as_slice());
                    append_str(&mut self.current_text, s.as_str());
                    assert(self.current_text@ =~= before.text.push(' '));
                }
            },
            MdEvent::HardBreak => {
                let mut v: Vec<char> = Vec::new();
                if self.in_code_block {
                    v.push('\n');
                    assert(v@ =~= seq!['\n']);
                    let s = chars_to_string(v.as_slice());
                    append_str(&mut self.code_content, s.as_str());
                    assert(self.code_content@ =~= before.code.push('\n'));
                } else {
                    v.push(' ');
                    v.push(' ');
                    v.push('\n');
                    assert(v@ =~= seq![' ', ' ', '\n']);
                    let s = chars_to_string(v.as_slice());
                    if self.list_parser.in_item {
                        self.add_text(s.as_str());
                    } else {
                        append_str(&mut self.current_text, s.as_str());
                    }
                }
            },
            _ => {},
        }
    }

    /// Finalize processing and return all content blocks
    pub fn finalize(self) -> (r: Vec<ContentBlock>)
        ensures
            erase_blocks(blocks_view(r@)) == flush_para(self.view_state()).blocks,
    {
        let mut p = self;
        p.flush_paragraph();
        p.blocks
    }
}

/// Parse markdown content into a complete Document structure: the blocks
/// that the CommonMark events of the text are read as.
pub fn parse_markdown(content: &str, path: String) -> (d: Document)
    ensures
        d.path == path,
        erase_blocks(blocks_view(d.content@)) == md_blocks(markdown_events(content@)),
{
    let events = cmark_events(content);
    let mut processor = MarkdownProcessor::new();
    let mut i: usize = 0;
    assert(events@.take(0) =~= Seq::<MdEvent>::empty());
    while i < events.len()
        invariant
            0 <= i <= events@.len(),
            events@ == markdown_events(content@),
            processor.view_state() == md_run(events@.take(i as int)),
        decreases events@.len() - i,
    {
        assert(events@.take(i + 1).drop_last() =~= events@.take(i as int));
        assert(events@.take(i + 1).last() == events@[i as int]);
        processor.process_event(&events[i]);
        i = i + 1;
    }
    assert(events@.take(i as int) =~= events@);
    let blocks = processor.finalize();
    Document::with_content(path, blocks)
}

} // verus!
