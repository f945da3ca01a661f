//! The blocks a document is drawn as, read from its syntax tree: each
//! heading, list item, paragraph outside a list item and code block, with
//! its kind, byte range, content range, depth, text and anchor identifier.
//!
//! The tree's nodes are walked as the tree is: a node's children are the
//! nodes after it that are deeper than it, each child followed by its own
//! subtree, up to the next node that is not deeper than it.
use super::anchors::{default_hash4, generate_dynamic_anchor_id, Anchor, AnchorId, DYNAMIC_MAGIC};
use super::commands::Marker;
use super::document::Document;
use super::extract::{
    calculate_list_depth, extract_code_fence_content_range, extract_code_fence_language, extract_heading_content_range,
    extract_heading_level, extract_list_item_content_range, extract_list_item_own_range, extract_list_marker,
    extract_paragraph_content_range, fence_content, fence_lang, heading_content, heading_level, item_content,
    item_marker, list_depth, own_line, paragraph_content};
use super::snapshot::{group_blocks_for_rendering, group_view, groups_from, BlockKind, ContentGroup, RenderBlock, Snapshot};
use super::syntax::{document_nodes, markdown_syntax, syntax_views, SyntaxNode};
use crate::models::chars::{chars_to_string, str_to_chars};
use crate::parsing::text::{trim_chars, trim_range};
use crate::paths::str_eq;
use vstd::prelude::*;
use vstd::utf8::*;

verus! {

broadcast use vstd::utf8::encode_utf8_valid_utf8;

/// A node of the tree as its kind, start byte, end byte and depth.
pub type TreeNode = (Seq<char>, usize, usize, usize);

/// The kind of a drawn block, as a value.
pub enum KindView {
    Paragraph,
    Heading(u8),
    ListItem(Marker, int),
    CodeFence(Option<Seq<char>>),
}

/// A drawn block, as a value.
pub struct RenderView {
    pub id: AnchorId,
    pub kind: KindView,
    pub byte_range: (int, int),
    pub content_range: (int, int),
    pub depth: int,
    pub content: Seq<char>,
}

pub open spec fn kind_view(k: BlockKind) -> KindView {
    match k {
        BlockKind::Paragraph => KindView::Paragraph,
        BlockKind::Heading { level } => KindView::Heading(level),
        BlockKind::ListItem { marker, depth } => KindView::ListItem(marker, depth as int),
        BlockKind::CodeFence { lang } => KindView::CodeFence(
            match lang {
                Some(s) => Some(s@),
                None => None,
            },
        ),
    }
}

pub open spec fn render_view(b: RenderBlock) -> RenderView {
    RenderView {
        id: b.id,
        kind: kind_view(b.kind),
        byte_range: (b.byte_range.start as int, b.byte_range.end as int),
        content_range: (b.content_range.start as int, b.content_range.end as int),
        depth: b.depth as int,
        content: b.content@,
    }
}

pub open spec fn render_views(s: Seq<RenderBlock>) -> Seq<RenderView> {
    s.map_values(|b: RenderBlock| render_view(b))
}

/// The first anchor from position `i` on whose range overlaps `r`.
pub open spec fn first_overlap(an: Seq<Anchor>, r: (int, int), i: int) -> Option<int>
    decreases an.len() - i,
{
    if i < 0 || i >= an.len() {
        None
    } else if an[i].range.start < r.1 && r.0 < an[i].range.end {
        Some(i)
    } else {
        first_overlap(an, r, i + 1)
    }
}

/// The identifier that the block at `r`, read from node `k`, is drawn
/// with: that of the first anchor whose range overlaps the block; where none
/// does, the dynamic identifier of the node's position and the range.
pub open spec fn anchor_for(an: Seq<Anchor>, r: (int, int), k: int) -> AnchorId {
    match first_overlap(an, r, 0) {
        Some(i) => an[i].id,
        None => AnchorId(default_hash4(DYNAMIC_MAGIC, k as usize, r.0 as usize, r.1 as usize) as u128),
    }
}

/// The text of a byte range.
pub open spec fn text_of(b: Seq<u8>, r: (int, int)) -> Seq<char> {
    decode_utf8(b.subrange(r.0, r.1))
}

/// The bytes of node `n`.
pub open spec fn node_text(b: Seq<u8>, n: TreeNode) -> Seq<u8> {
    b.subrange(n.1 as int, n.2 as int)
}

/// A heading: its level, the text after its `#`s, trimmed.
pub open spec fn heading_block(b: Seq<u8>, an: Seq<Anchor>, n: TreeNode, k: int, cur: int) -> RenderView {
    let (s, e) = (n.1 as int, n.2 as int);
    let x = node_text(b, n);
    let cr = heading_content(x, s, e);
    RenderView {
        id: anchor_for(an, (s, e), k),
        kind: KindView::Heading(heading_level(x)),
        byte_range: (s, e),
        content_range: cr,
        depth: cur,
        content: trim_chars(text_of(b, cr)),
    }
}

/// A list item: its marker and depth, drawn over its own first line, with
/// the text after its marker, trimmed.
pub open spec fn item_block(b: Seq<u8>, an: Seq<Anchor>, n: TreeNode, k: int) -> RenderView {
    let (s, e) = (n.1 as int, n.2 as int);
    let x = node_text(b, n);
    let d = list_depth(b, s) as int;
    let own = own_line(x, s, e);
    let cr = item_content(x, s, e);
    RenderView {
        id: anchor_for(an, own, k),
        kind: KindView::ListItem(item_marker(x), d),
        byte_range: own,
        content_range: cr,
        depth: d,
        content: trim_chars(text_of(b, cr)),
    }
}

/// A paragraph, drawn over its text without its final line break.
pub open spec fn para_block(b: Seq<u8>, an: Seq<Anchor>, n: TreeNode, k: int, cur: int) -> RenderView {
    let (s, e) = (n.1 as int, n.2 as int);
    let cr = paragraph_content(node_text(b, n), s, e);
    RenderView {
        id: anchor_for(an, (s, e), k),
        kind: KindView::Paragraph,
        byte_range: cr,
        content_range: cr,
        depth: cur,
        content: trim_chars(text_of(b, cr)),
    }
}

/// A fenced code block: its language and its code, untrimmed; no code where
/// the closing fence directly follows the opening line at the end of the
/// text, which leaves the code's range reversed.
pub open spec fn fence_block(b: Seq<u8>, an: Seq<Anchor>, n: TreeNode, k: int, cur: int) -> RenderView {
    let (s, e) = (n.1 as int, n.2 as int);
    let x = node_text(b, n);
    let cr = fence_content(x, s, e);
    RenderView {
        id: anchor_for(an, (s, e), k),
        kind: KindView::CodeFence(fence_lang(decode_utf8(x))),
        byte_range: (s, e),
        content_range: cr,
        depth: cur,
        content: if cr.0 <= cr.1 {
            text_of(b, cr)
        } else {
            Seq::empty()
        },
    }
}

/// An indented code block: all of its text, with no language.
pub open spec fn indented_block(b: Seq<u8>, an: Seq<Anchor>, n: TreeNode, k: int, cur: int) -> RenderView {
    let (s, e) = (n.1 as int, n.2 as int);
    RenderView {
        id: anchor_for(an, (s, e), k),
        kind: KindView::CodeFence(None),
        byte_range: (s, e),
        content_range: (s, e),
        depth: cur,
        content: text_of(b, (s, e)),
    }
}

/// The position after the subtree of node `j`, looking from `i` on: the
/// first node that is not deeper than `j`.
pub open spec fn after_subtree(ns: Seq<TreeNode>, j: int, i: int) -> int
    decreases ns.len() - i,
{
    if i < 0 || i >= ns.len() {
        ns.len() as int
    } else if ns[i].3 <= ns[j].3 {
        i
    } else {
        after_subtree(ns, j, i + 1)
    }
}

pub proof fn lemma_after_subtree(ns: Seq<TreeNode>, j: int, i: int)
    requires
        0 <= i <= ns.len(),
    ensures
        i <= after_subtree(ns, j, i) <= ns.len(),
    decreases ns.len() - i,
{
    if i < ns.len() && !(ns[i].3 <= ns[j].3) {
        lemma_after_subtree(ns, j, i + 1);
    }
}

/// The blocks drawn for node `k` and its subtree, `cur` being the depth of
/// the enclosing list item (0 outside one) and `in_item` whether the node's
/// parent is a list item. A node with an empty range draws nothing; a
/// heading, paragraph or code block draws itself alone; a list item draws
/// itself and then its children at its own depth; a paragraph whose parent
/// is a list item draws nothing; any other node draws its children.
pub open spec fn node_blocks(b: Seq<u8>, ns: Seq<TreeNode>, an: Seq<Anchor>, k: int, cur: int, in_item: bool) -> Seq<
    RenderView,
>
    decreases ns.len() - k, 0int,
{
    if k < 0 || k >= ns.len() {
        Seq::empty()
    } else {
        let n = ns[k];
        if !(n.1 < n.2) {
            Seq::empty()
        } else if n.0 == "atx_heading"@ {
            seq![heading_block(b, an, n, k, cur)]
        } else if n.0 == "list_item"@ {
            let d = list_depth(b, n.1 as int) as int;
            seq![item_block(b, an, n, k)] + children_blocks(b, ns, an, k + 1, k, d, true)
        } else if n.0 == "paragraph"@ {
            if in_item {
                Seq::empty()
            } else {
                seq![para_block(b, an, n, k, cur)]
            }
        } else if n.0 == "fenced_code_block"@ {
            seq![fence_block(b, an, n, k, cur)]
        } else if n.0 == "indented_code_block"@ {
            seq![indented_block(b, an, n, k, cur)]
        } else {
            children_blocks(b, ns, an, k + 1, k, cur, false)
        }
    }
}

/// The blocks drawn for the children of node `p` from node `j` on.
pub open spec fn children_blocks(
    b: Seq<u8>,
    ns: Seq<TreeNode>,
    an: Seq<Anchor>,
    j: int,
    p: int,
    cur: int,
    in_item: bool,
) -> Seq<RenderView>
    decreases ns.len() - j, 1int,
{
    if p < 0 || j <= p || j >= ns.len() || ns[j].3 <= ns[p].3 {
        Seq::empty()
    } else {
        proof {
            lemma_after_subtree(ns, j, j + 1);
        }
        node_blocks(b, ns, an, j, cur, in_item) + children_blocks(b, ns, an, after_subtree(ns, j, j + 1), p, cur, in_item)
    }
}

/// The blocks a text is drawn as, from the nodes of its tree.
pub open spec fn render_blocks(b: Seq<u8>, ns: Seq<TreeNode>, an: Seq<Anchor>) -> Seq<RenderView> {
    node_blocks(b, ns, an, 0, 0, false)
}

/// A byte range of the text that starts and ends on character boundaries.
pub open spec fn range_ok(b: Seq<u8>, r: (int, int)) -> bool {
    &&& 0 <= r.0 <= r.1 <= b.len()
    &&& is_char_boundary(b, r.0)
    &&& is_char_boundary(b, r.1)
}

/// The ranges that drawing a non-empty node of one of the drawn kinds
/// reads all start and end on character boundaries.
pub open spec fn node_ok(b: Seq<u8>, n: TreeNode) -> bool {
    let (s, e) = (n.1 as int, n.2 as int);
    let x = b.subrange(s, e);
    if !(s < e) {
        true
    } else if n.0 == "atx_heading"@ {
        range_ok(b, (s, e)) && range_ok(b, heading_content(x, s, e))
    } else if n.0 == "list_item"@ {
        range_ok(b, (s, e)) && range_ok(b, own_line(x, s, e)) && range_ok(b, item_content(x, s, e))
    } else if n.0 == "paragraph"@ {
        range_ok(b, (s, e)) && range_ok(b, paragraph_content(x, s, e))
    } else if n.0 == "fenced_code_block"@ {
        range_ok(b, (s, e)) && (fence_content(x, s, e).0 <= fence_content(x, s, e).1 ==> range_ok(
            b,
            fence_content(x, s, e),
        ))
    } else if n.0 == "indented_code_block"@ {
        range_ok(b, (s, e))
    } else {
        true
    }
}

/// Every node can be drawn.
pub open spec fn nodes_ok(b: Seq<u8>, ns: Seq<TreeNode>) -> bool {
    forall|k: int| 0 <= k < ns.len() ==> #[trigger] node_ok(b, ns[k])
}

proof fn lemma_views_push(s: Seq<RenderBlock>, x: RenderBlock)
    ensures
        render_views(s.push(x)) == render_views(s).push(render_view(x)),
{
    assert(render_views(s.push(x)) =~= render_views(s).push(render_view(x)));
}

/// Whether `start..end` is a range of the text that starts and ends on
/// character boundaries.
fn range_fits(bytes: &Vec<u8>, start: usize, end: usize) -> (r: bool)
    requires
        valid_utf8(bytes@),
    ensures
        r == range_ok(bytes@, (start as int, end as int)),
{
    proof {
        is_char_boundary_start_end_of_seq(bytes@);
    }
    if !(start <= end && end <= bytes.len()) {
        return false;
    }
    let a = start == 0 || start == bytes.len() || !(0x80u8 <= bytes[start] && bytes[start] <= 0xbfu8);
    let z = end == 0 || end == bytes.len() || !(0x80u8 <= bytes[end] && bytes[end] <= 0xbfu8);
    proof {
        if 0 < start < bytes@.len() {
            is_char_boundary_iff_not_is_continuation_byte(bytes@, start as int);
        }
        if 0 < end < bytes@.len() {
            is_char_boundary_iff_not_is_continuation_byte(bytes@, end as int);
        }
    }
    a && z
}

/// Whether a node can be drawn.
fn node_fits(doc: &Document, bytes: &Vec<u8>, n: &SyntaxNode) -> (r: bool)
    requires
        bytes@ == doc.bytes(),
    ensures
        r == node_ok(doc.bytes(), (n.kind@, n.start, n.end, n.depth)),
{
    let _ = doc.len();
    if !(n.start < n.end) {
        return true;
    }
    let kind = n.kind.as_str();
    let range = n.start..n.end;
    if str_eq(kind, "atx_heading") {
        if !range_fits(bytes, n.start, n.end) {
            return false;
        }
        let cr = extract_heading_content_range(doc, &range);
        range_fits(bytes, cr.start, cr.end)
    } else if str_eq(kind, "list_item") {
        if !range_fits(bytes, n.start, n.end) {
            return false;
        }
        let own = extract_list_item_own_range(doc, &range);
        let cr = extract_list_item_content_range(doc, &range);
        range_fits(bytes, own.start, own.end) && range_fits(bytes, cr.start, cr.end)
    } else if str_eq(kind, "paragraph") {
        if !range_fits(bytes, n.start, n.end) {
            return false;
        }
        let cr = extract_paragraph_content_range(doc, &range);
        range_fits(bytes, cr.start, cr.end)
    } else if str_eq(kind, "fenced_code_block") {
        if !range_fits(bytes, n.start, n.end) {
            return false;
        }
        let cr = extract_code_fence_content_range(doc, &range);
        cr.start > cr.end || range_fits(bytes, cr.start, cr.end)
    } else if str_eq(kind, "indented_code_block") {
        range_fits(bytes, n.start, n.end)
    } else {
        true
    }
}

/// Whether every node can be drawn.
pub fn nodes_fit(doc: &Document, nodes: &Vec<SyntaxNode>) -> (r: bool)
    ensures
        r == nodes_ok(doc.bytes(), syntax_views(nodes@)),
{
    let bytes = doc.to_bytes();
    let _ = doc.len();
    let ghost vs = syntax_views(nodes@);
    let mut k: usize = 0;
    while k < nodes.len()
        invariant
            0 <= k <= nodes@.len(),
            bytes@ == doc.bytes(),
            vs == syntax_views(nodes@),
            forall|i: int| 0 <= i < k ==> #[trigger] node_ok(doc.bytes(), vs[i]),
        decreases nodes@.len() - k,
    {
        if !node_fits(doc, &bytes, &nodes[k]) {
            assert(!node_ok(doc.bytes(), vs[k as int]));
            return false;
        }
        k = k + 1;
    }
    true
}

/// The identifier of the block at `start..end`, read from node `k`.
fn anchor_for_range(anchors: &Vec<Anchor>, start: usize, end: usize, k: usize) -> (id: AnchorId)
    ensures
        id == anchor_for(anchors@, (start as int, end as int), k as int),
{
    let ghost r = (start as int, end as int);
    let mut i: usize = 0;
    while i < anchors.len()
        invariant
            0 <= i <= anchors@.len(),
            r == (start as int, end as int),
            first_overlap(anchors@, r, 0) == first_overlap(anchors@, r, i as int),
        decreases anchors@.len() - i,
    {
        let a = &anchors[i];
        if a.range.start < end && start < a.range.end {
            assert(first_overlap(anchors@, r, i as int) == Some(i as int));
            return a.id;
        }
        assert(first_overlap(anchors@, r, i as int) == first_overlap(anchors@, r, i + 1));
        i = i + 1;
    }
    generate_dynamic_anchor_id(k, start..end)
}

/// The text of a range of the document.
fn range_string(doc: &Document, r: &std::ops::Range<usize>) -> (s: String)
    requires
        range_ok(doc.bytes(), (r.start as int, r.end as int)),
    ensures
        s@ == text_of(doc.bytes(), (r.start as int, r.end as int)),
{
    let s = doc.slice_to_cow(r.start..r.end);
    proof {
        encode_utf8_decode_utf8(s@);
    }
    s
}

/// The text of a range of the document, trimmed.
fn trimmed_string(doc: &Document, r: &std::ops::Range<usize>) -> (s: String)
    requires
        range_ok(doc.bytes(), (r.start as int, r.end as int)),
    ensures
        s@ == trim_chars(text_of(doc.bytes(), (r.start as int, r.end as int))),
{
    let t = range_string(doc, r);
    let cs = str_to_chars(t.as_str());
    let k = trim_range(&cs, 0, cs.len());
    assert(cs@.subrange(0, cs@.len() as int) =~= cs@);
    chars_to_string(k.as_slice())
}

/// Draws node `k` and its subtree after the blocks in `out`.
fn collect_node(
    doc: &Document,
    nodes: &Vec<SyntaxNode>,
    anchors: &Vec<Anchor>,
    k: usize,
    cur: usize,
    in_item: bool,
    out: &mut Vec<RenderBlock>,
)
    requires
        k < nodes@.len(),
        nodes_ok(doc.bytes(), syntax_views(nodes@)),
    ensures
        render_views(final(out)@) == render_views(old(out)@) + node_blocks(
            doc.bytes(),
            syntax_views(nodes@),
            anchors@,
            k as int,
            cur as int,
            in_item,
        ),
    decreases nodes@.len() - k, 0int,
{
    let ghost b = doc.bytes();
    let ghost ns = syntax_views(nodes@);
    let ghost nv = ns[k as int];
    let ghost out0 = out@;
    let _ = doc.len();
    let _ = nodes.len();
    assert(node_ok(b, nv));
    let n = &nodes[k];
    let s = n.start;
    let e = n.end;
    if !(s < e) {
        assert(render_views(out@) =~= render_views(out0) + Seq::<RenderView>::empty());
        return;
    }
    let range = s..e;
    let kind = n.kind.as_str();
    if str_eq(kind, "atx_heading") {
        let level = extract_heading_level(doc, &range);
        let cr = extract_heading_content_range(doc, &range);
        let id = anchor_for_range(anchors, s, e, k);
        let content = trimmed_string(doc, &cr);
        let block = RenderBlock { id, kind: BlockKind::Heading { level }, byte_range: s..e, content_range: cr, depth: cur, content };
        proof {
            lemma_views_push(out@, block);
            assert(render_view(block) == heading_block(b, anchors@, nv, k as int, cur as int));
        }
        out.push(block);
    } else if str_eq(kind, "list_item") {
        let marker = extract_list_marker(doc, &range);
        let d = calculate_list_depth(doc, s);
        let cr = extract_list_item_content_range(doc, &range);
        let own = extract_list_item_own_range(doc, &range);
        let id = anchor_for_range(anchors, own.start, own.end, k);
        let content = trimmed_string(doc, &cr);
        let block = RenderBlock {
            id,
            kind: BlockKind::ListItem { marker, depth: d },
            byte_range: own,
            content_range: cr,
            depth: d,
            content,
        };
        proof {
            lemma_views_push(out@, block);
            assert(render_view(block) == item_block(b, anchors@, nv, k as int));
        }
        out.push(block);
        let ghost out1 = out@;
        collect_children(doc, nodes, anchors, k + 1, k, d, true, out);
        assert(render_views(out@) =~= render_views(out0) + (seq![item_block(b, anchors@, nv, k as int)]
            + children_blocks(b, ns, anchors@, k + 1, k as int, d as int, true)));
    } else if str_eq(kind, "paragraph") {
        if !in_item {
            let cr = extract_paragraph_content_range(doc, &range);
            let id = anchor_for_range(anchors, s, e, k);
            let content = trimmed_string(doc, &cr);
            let block = RenderBlock {
                id,
                kind: BlockKind::Paragraph,
                byte_range: cr.start..cr.end,
                content_range: cr,
                depth: cur,
                content,
            };
            proof {
                lemma_views_push(out@, block);
                assert(render_view(block) == para_block(b, anchors@, nv, k as int, cur as int));
            }
            out.push(block);
        } else {
            assert(render_views(out@) =~= render_views(out0) + Seq::<RenderView>::empty());
        }
    } else if str_eq(kind, "fenced_code_block") {
        let lang = extract_code_fence_language(doc, &range);
        let cr = extract_code_fence_content_range(doc, &range);
        let id = anchor_for_range(anchors, s, e, k);
        let content = if cr.start <= cr.end {
            range_string(doc, &cr)
        } else {
            String::new()
        };
        let block = RenderBlock { id, kind: BlockKind::CodeFence { lang }, byte_range: s..e, content_range: cr, depth: cur, content };
        proof {
            lemma_views_push(out@, block);
            assert(render_view(block) == fence_block(b, anchors@, nv, k as int, cur as int));
        }
        out.push(block);
    } else if str_eq(kind, "indented_code_block") {
        let id = anchor_for_range(anchors, s, e, k);
        let content = range_string(doc, &range);
        let block = RenderBlock {
            id,
            kind: BlockKind::CodeFence { lang: None },
            byte_range: s..e,
            content_range: s..e,
            depth: cur,
            content,
        };
        proof {
            lemma_views_push(out@, block);
            assert(render_view(block) == indented_block(b, anchors@, nv, k as int, cur as int));
        }
        out.push(block);
    } else {
        collect_children(doc, nodes, anchors, k + 1, k, cur, false, out);
    }
}

/// Draws the children of node `p` from node `j0` on after the blocks in
/// `out`.
fn collect_children(
    doc: &Document,
    nodes: &Vec<SyntaxNode>,
    anchors: &Vec<Anchor>,
    j0: usize,
    p: usize,
    cur: usize,
    in_item: bool,
    out: &mut Vec<RenderBlock>,
)
    requires
        p < j0 <= nodes@.len(),
        nodes_ok(doc.bytes(), syntax_views(nodes@)),
    ensures
        render_views(final(out)@) == render_views(old(out)@) + children_blocks(
            doc.bytes(),
            syntax_views(nodes@),
            anchors@,
            j0 as int,
            p as int,
            cur as int,
            in_item,
        ),
    decreases nodes@.len() - j0, 1int,
{
    let ghost b = doc.bytes();
    let ghost ns = syntax_views(nodes@);
    let ghost an = anchors@;
    let ghost out0 = out@;
    let mut j = j0;
    assert(render_views(out@) + children_blocks(b, ns, an, j as int, p as int, cur as int, in_item) =~= render_views(out0)
        + children_blocks(b, ns, an, j0 as int, p as int, cur as int, in_item));
    while j < nodes.len() && nodes[j].depth > nodes[p].depth
        invariant
            p < j0 <= j <= nodes@.len(),
            b == doc.bytes(),
            ns == syntax_views(nodes@),
            an == anchors@,
            nodes_ok(b, ns),
            render_views(out@) + children_blocks(b, ns, an, j as int, p as int, cur as int, in_item) == render_views(out0)
                + children_blocks(b, ns, an, j0 as int, p as int, cur as int, in_item),
        decreases nodes@.len() - j,
    {
        let ghost before = out@;
        proof {
            lemma_after_subtree(ns, j as int, j + 1);
        }
        collect_node(doc, nodes, anchors, j, cur, in_item, out);
        let next = subtree_end(nodes, j);
        assert(children_blocks(b, ns, an, j as int, p as int, cur as int, in_item) == node_blocks(b, ns, an, j as int, cur as int, in_item)
            + children_blocks(b, ns, an, next as int, p as int, cur as int, in_item));
        assert(render_views(out@) + children_blocks(b, ns, an, next as int, p as int, cur as int, in_item) =~= render_views(before)
            + children_blocks(b, ns, an, j as int, p as int, cur as int, in_item));
        j = next;
    }
    assert(children_blocks(b, ns, an, j as int, p as int, cur as int, in_item) =~= Seq::<RenderView>::empty());
    assert(render_views(out@) =~= render_views(out@) + Seq::<RenderView>::empty());
}

/// The position after the subtree of node `j`.
fn subtree_end(nodes: &Vec<SyntaxNode>, j: usize) -> (r: usize)
    requires
        j < nodes@.len(),
    ensures
        r == after_subtree(syntax_views(nodes@), j as int, j + 1),
        j < r <= nodes@.len(),
{
    let ghost ns = syntax_views(nodes@);
    proof {
        lemma_after_subtree(ns, j as int, j + 1);
    }
    let _ = nodes.len();
    let mut i = j + 1;
    while i < nodes.len() && nodes[i].depth > nodes[j].depth
        invariant
            j < i <= nodes@.len(),
            ns == syntax_views(nodes@),
            after_subtree(ns, j as int, j + 1) == after_subtree(ns, j as int, i as int),
        decreases nodes@.len() - i,
    {
        i = i + 1;
    }
    i
}

/// The blocks a document is drawn as, from the nodes of its syntax tree,
/// each with the identifier of the first of `anchors` that overlaps it.
pub fn collect_render_blocks(doc: &Document, nodes: &Vec<SyntaxNode>, anchors: &Vec<Anchor>) -> (r: Vec<RenderBlock>)
    requires
        nodes_ok(doc.bytes(), syntax_views(nodes@)),
    ensures
        render_views(r@) == render_blocks(doc.bytes(), syntax_views(nodes@), anchors@),
{
    let mut out: Vec<RenderBlock> = Vec::new();
    if nodes.len() == 0 {
        assert(render_views(out@) =~= Seq::<RenderView>::empty());
        return out;
    }
    collect_node(doc, nodes, anchors, 0, 0, false, &mut out);
    assert(render_views(Seq::<RenderBlock>::empty()) =~= Seq::<RenderView>::empty());
    assert(render_views(out@) =~= render_blocks(doc.bytes(), syntax_views(nodes@), anchors@));
    out
}

/// A snapshot of the document for drawing: its version, the blocks of its
/// syntax tree with the identifiers of its anchors, and the blocks grouped.
/// Where tree-sitter gives no tree, or the tree has a node whose ranges do
/// not fall on character boundaries, there are no blocks.
pub open spec fn snapshot_of(doc: Document, s: Snapshot) -> bool {
    &&& s.version == doc.ver()
    &&& match markdown_syntax(decode_utf8(doc.bytes())) {
        Some(ns) => if nodes_ok(doc.bytes(), ns) {
            render_views(s.blocks@) == render_blocks(doc.bytes(), ns, doc.anchor_seq())
        } else {
            s.blocks@.len() == 0
        },
        None => s.blocks@.len() == 0,
    }
    &&& s.content_groups@.map_values(|g: ContentGroup| group_view(g)) == groups_from(s.blocks@, 0)
}

/// A snapshot of the document for drawing, as `snapshot_of` says.
pub fn create_snapshot(doc: &Document) -> (s: Snapshot)
    ensures
        snapshot_of(*doc, s),
{
    let blocks = match document_nodes(doc) {
        Some(nodes) => {
            if nodes_fit(doc, &nodes) {
                collect_render_blocks(doc, &nodes, doc.anchors())
            } else {
                Vec::new()
            }
        },
        None => Vec::new(),
    };
    let content_groups = group_blocks_for_rendering(blocks.as_slice());
    Snapshot { version: doc.version(), blocks, content_groups }
}

} // verus!
