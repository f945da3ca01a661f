//! Reading a markdown file as an outline: the text of each list item at its
//! level, nested by `build_hierarchy`.
use super::models::{Document, OutlineItem};
use super::outline::{build_hierarchy, hierarchy, lemma_outlines_view, outlines_view, OutlineView};
use crate::models::chars::{chars_to_string, push_str, str_to_chars};
use crate::parsing::events::{cmark_events, markdown_events, MdEvent, MdTag};
use crate::parsing::text::{trim_chars, trim_range};
use vstd::prelude::*;

verus! {

/// Reads markdown as a document.
pub trait MarkdownParser {
    fn parse(&self, content: &str, path: String) -> Document;
}

/// The markdown reader built on the CommonMark events.
#[derive(Debug, Default)]
pub struct PulldownMarkdownParser;

impl PulldownMarkdownParser {
    pub fn new() -> PulldownMarkdownParser {
        PulldownMarkdownParser
    }
}

/// The state of reading an outline: the items found, the texts of the
/// items being read (innermost last), how many lists are open, and whether
/// text goes to the innermost item.
pub struct OutlineState {
    pub found: Seq<(Seq<char>, nat)>,
    pub texts: Seq<Seq<char>>,
    pub lists: nat,
    pub in_item: bool,
}

/// The state after one event.
pub open spec fn outline_step(s: OutlineState, e: MdEvent) -> OutlineState {
    match e {
        MdEvent::Start(MdTag::List(_)) => OutlineState { lists: s.lists + 1, ..s },
        MdEvent::End(MdTag::List(_)) => OutlineState {
            lists: if s.lists > 0 {
                (s.lists - 1) as nat
            } else {
                0
            },
            ..s
        },
        MdEvent::Start(MdTag::Item) => OutlineState { texts: s.texts.push(Seq::empty()), in_item: true, ..s },
        MdEvent::Text(t) => if s.in_item && s.texts.len() > 0 {
            OutlineState { texts: s.texts.update(s.texts.len() - 1, s.texts.last() + t@), ..s }
        } else {
            s
        },
        MdEvent::End(MdTag::Item) => if s.texts.len() > 0 {
            let t = trim_chars(s.texts.last());
            let level: nat = if s.lists > 0 {
                (s.lists - 1) as nat
            } else {
                0
            };
            OutlineState {
                texts: s.texts.drop_last(),
                found: if t.len() > 0 {
                    s.found.push((t, level))
                } else {
                    s.found
                },
                in_item: false,
                ..s
            }
        } else {
            OutlineState { in_item: false, ..s }
        },
        _ => s,
    }
}

/// The state after the events.
pub open spec fn outline_run(events: Seq<MdEvent>) -> OutlineState
    decreases events.len(),
{
    if events.len() == 0 {
        OutlineState { found: Seq::empty(), texts: Seq::empty(), lists: 0, in_item: false }
    } else {
        outline_step(outline_run(events.drop_last()), events.last())
    }
}

/// The outline item of a found text at its level.
pub open spec fn found_item(f: (Seq<char>, nat)) -> OutlineView {
    OutlineView { content: f.0, level: f.1, children: Seq::empty(), metadata: Map::empty() }
}

/// The outline that a markdown text is read as.
pub open spec fn outline_of(content: Seq<char>) -> Seq<OutlineView> {
    hierarchy(outline_run(markdown_events(content)).found.map_values(|f: (Seq<char>, nat)| found_item(f)))
}

impl MarkdownParser for PulldownMarkdownParser {
    fn parse(&self, content: &str, path: String) -> (d: Document)
        ensures
            d.path == path,
            outlines_view(d.outline@) == outline_of(content@),
            d.frontmatter@.len() == 0,
    {
        let events = cmark_events(content);
        let mut items: Vec<OutlineItem> = Vec::new();
        let mut texts: Vec<String> = Vec::new();
        let mut lists: usize = 0;
        let mut in_item = false;
        let mut i: usize = 0;
        proof {
            lemma_outlines_view(items@);
            assert(events@.take(0) =~= Seq::<MdEvent>::empty());
        }
        while i < events.len()
            invariant
                0 <= i <= events@.len(),
                events@ == markdown_events(content@),
                lists <= i,
                ({
                    let st = outline_run(events@.take(i as int));
                    &&& outlines_view(items@) == st.found.map_values(|f: (Seq<char>, nat)| found_item(f))
                    &&& texts@.map_values(|t: String| t@) == st.texts
                    &&& lists as nat == st.lists
                    &&& in_item == st.in_item
                }),
            decreases events@.len() - i,
        {
            let ghost st = outline_run(events@.take(i as int));
            assert(events@.take(i + 1).drop_last() =~= events@.take(i as int));
            assert(events@.take(i + 1).last() == events@[i as int]);
            let ghost prev_items = items@;
            let ghost prev_texts = texts@;
            match &events[i] {
                MdEvent::Start(MdTag::List(_)) => {
                    lists = lists + 1;
                },
                MdEvent::End(MdTag::List(_)) => {
                    if lists > 0 {
                        lists = lists - 1;
                    }
                },
                MdEvent::Start(MdTag::Item) => {
                    texts.push(String::new());
                    in_item = true;
                    assert(texts@.map_values(|t: String| t@) =~= st.texts.push(Seq::empty()));
                },
                MdEvent::Text(t) => {
                    if in_item && texts.len() > 0 {
                        let last = texts.pop().unwrap();
                        let mut v = str_to_chars(last.as_str());
                        push_str(&mut v, t.as_str());
                        texts.push(chars_to_string(v.as_slice()));
                        assert(texts@.map_values(|t: String| t@) =~= st.texts.update(
                            st.texts.len() - 1,
                            st.texts.last() + t@,
                        ));
                    }
                },
                MdEvent::End(MdTag::Item) => {
                    in_item = false;
                    if texts.len() > 0 {
                        let last = texts.pop().unwrap();
                        assert(texts@.map_values(|t: String| t@) =~= st.texts.drop_last());
                        let cs = str_to_chars(last.as_str());
                        let tr = trim_range(&cs, 0, cs.len());
                        assert(cs@.subrange(0, cs@.len() as int) =~= cs@);
                        if tr.len() > 0 {
                            let level: usize = if lists > 0 {
                                lists - 1
                            } else {
                                0
                            };
                            let item = OutlineItem::new(chars_to_string(tr.as_slice()), level);
                            proof {
                                super::outline::lemma_outlines_view_push(items@, item);
                                lemma_outlines_view(item.children@);
                                assert(outlines_view(item.children@) =~= Seq::<OutlineView>::empty());
                                assert(super::models::assoc_map(item.metadata@) =~= Map::<Seq<char>, Seq<char>>::empty());
                            }
                            items.push(item);
                            assert(outlines_view(items@) =~= st.found.push((trim_chars(last@), level as nat)).map_values(
                                |f: (Seq<char>, nat)| found_item(f),
                            ));
                        }
                    }
                },
                _ => {},
            }
            i = i + 1;
        }
        assert(events@.take(i as int) =~= events@);
        let outline = build_hierarchy(items);
        Document::with_outline(path, outline)
    }
}

} // verus!
