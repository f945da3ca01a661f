//! The block syntax tree of a document, as tree-sitter's markdown grammar
//! reads it, and the anchors that the document's blocks get from it.
//!
//! The tree is read into plain nodes, each node before its children and
//! with its depth, so that a node's children are the nodes after it one
//! level deeper, up to the next node that is not deeper than it.
use super::anchors::{default_hash4, generate_static_anchor_id, Anchor, AnchorData, AnchorId, STATIC_MAGIC};
use super::document::Document;
use crate::paths::str_eq;
use tree_sitter::Tree;
use vstd::prelude::*;
use vstd::utf8::*;

verus! {

#[verifier::external_type_specification]
#[verifier::external_body]
pub struct ExTree(tree_sitter::Tree);

/// The nodes, each as its kind, start byte, end byte and depth, of the tree
/// that tree-sitter's markdown block grammar (`tree_sitter_md::LANGUAGE`)
/// gives for a text; none where tree-sitter refuses the grammar or gives no
/// tree.
pub uninterp spec fn markdown_syntax(text: Seq<char>) -> Option<Seq<(Seq<char>, usize, usize, usize)>>;

/// The nodes of a tree, each node before its children, in the same form.
pub uninterp spec fn tree_nodes(t: Tree) -> Seq<(Seq<char>, usize, usize, usize)>;

/// A `tree_sitter::Parser` given the markdown block grammar with
/// `Parser::set_language`, then `Parser::parse` of the text. The tree holds
/// the nodes that the grammar gives for the text; none comes back where
/// tree-sitter refuses the grammar or gives no tree.
#[verifier::external_body]
fn parse_markdown_tree(text: &str) -> (r: Option<Tree>)
    ensures
        match r {
            Some(t) => markdown_syntax(text@) == Some(tree_nodes(t)),
            None => markdown_syntax(text@) is None,
        },
{
    let mut parser = tree_sitter::Parser::new();
    parser.set_language(&tree_sitter_md::LANGUAGE.into()).ok()?;
    parser.parse(text, None)
}

/// `Node::descendant_count` of the root: the number of nodes of the tree.
#[verifier::external_body]
fn tree_node_count(t: &Tree) -> (n: usize)
    ensures
        n == tree_nodes(*t).len(),
{
    t.root_node().descendant_count()
}

/// Node `i` of the tree, each node before its children
/// (`TreeCursor::goto_descendant`): its kind, byte range and depth.
#[verifier::external_body]
fn tree_node_at(t: &Tree, i: usize) -> (r: (String, usize, usize, usize))
    requires
        i < tree_nodes(*t).len(),
    ensures
        (r.0@, r.1, r.2, r.3) == tree_nodes(*t)[i as int],
{
    let mut c = t.walk();
    c.goto_descendant(i);
    let n = c.node();
    (n.kind().to_string(), n.start_byte(), n.end_byte(), c.depth() as usize)
}

/// `Node::id` of node `i`: tree-sitter derives it from where the node is
/// held, so nothing is promised of its value.
#[verifier::external_body]
fn tree_node_id(t: &Tree, i: usize) -> usize
    requires
        i < tree_nodes(*t).len(),
{
    let mut c = t.walk();
    c.goto_descendant(i);
    c.node().id()
}

/// A node of the syntax tree: its kind, byte range, depth below the root
/// and tree-sitter's identity for it.
#[derive(Debug)]
pub struct SyntaxNode {
    pub kind: String,
    pub start: usize,
    pub end: usize,
    pub depth: usize,
    pub id: usize,
}

/// A node as its kind, byte range and depth.
pub open spec fn syntax_view(n: SyntaxNode) -> (Seq<char>, usize, usize, usize) {
    (n.kind@, n.start, n.end, n.depth)
}

/// The nodes as kinds, byte ranges and depths.
pub open spec fn syntax_views(s: Seq<SyntaxNode>) -> Seq<(Seq<char>, usize, usize, usize)> {
    s.map_values(|n: SyntaxNode| syntax_view(n))
}

/// The nodes of the markdown block tree of a text, each node before its
/// children; none where tree-sitter gives no tree.
pub fn syntax_nodes(text: &str) -> (r: Option<Vec<SyntaxNode>>)
    ensures
        match markdown_syntax(text@) {
            Some(s) => r matches Some(v) && syntax_views(v@) == s,
            None => r is None,
        },
{
    let tree = parse_markdown_tree(text)?;
    let n = tree_node_count(&tree);
    let mut nodes: Vec<SyntaxNode> = Vec::new();
    let mut i: usize = 0;
    while i < n
        invariant
            0 <= i <= n,
            n == tree_nodes(tree).len(),
            markdown_syntax(text@) == Some(tree_nodes(tree)),
            syntax_views(nodes@) == tree_nodes(tree).take(i as int),
        decreases n - i,
    {
        let (kind, start, end, depth) = tree_node_at(&tree, i);
        let id = tree_node_id(&tree, i);
        let node = SyntaxNode { kind, start, end, depth, id };
        proof {
            assert(syntax_views(nodes@.push(node)) =~= syntax_views(nodes@).push(syntax_view(node)));
            assert(tree_nodes(tree).take(i + 1) =~= tree_nodes(tree).take(i as int).push(tree_nodes(tree)[i as int]));
        }
        nodes.push(node);
        i = i + 1;
    }
    assert(tree_nodes(tree).take(i as int) =~= tree_nodes(tree));
    Some(nodes)
}

/// Whether a node of this kind gets an anchor: headings, list items and
/// code blocks (not paragraphs).
pub open spec fn anchored_kind(k: Seq<char>) -> bool {
    k == "atx_heading"@ || k == "list_item"@ || k == "fenced_code_block"@ || k == "indented_code_block"@
}

/// The first child of node `i` from node `j` on that is a list.
pub open spec fn list_child(ns: Seq<SyntaxNode>, i: int, j: int) -> Option<int>
    decreases ns.len() - j,
{
    if j < 0 || j >= ns.len() || i < 0 || i >= ns.len() || ns[j].depth <= ns[i].depth {
        None
    } else if ns[j].depth == ns[i].depth + 1 && ns[j].kind@ == "list"@ {
        Some(j)
    } else {
        list_child(ns, i, j + 1)
    }
}

/// The range that node `i`'s anchor covers: for a list item, its own
/// lines, up to the start of its first child list; for another node, its
/// whole range.
pub open spec fn anchor_range(ns: Seq<SyntaxNode>, i: int) -> std::ops::Range<usize> {
    if ns[i].kind@ == "list_item"@ {
        match list_child(ns, i, i + 1) {
            Some(j) => std::ops::Range { start: ns[i].start, end: ns[j].start },
            None => std::ops::Range { start: ns[i].start, end: ns[i].end },
        }
    } else {
        std::ops::Range { start: ns[i].start, end: ns[i].end }
    }
}

/// The blocks that get anchors, from node `k` on, in tree order: each
/// non-empty heading, list item or code block, with its anchor's range, its
/// node and its kind.
pub open spec fn found_blocks(ns: Seq<SyntaxNode>, k: int) -> Seq<(std::ops::Range<usize>, usize, Seq<char>)>
    decreases ns.len() - k,
{
    if k < 0 || k >= ns.len() {
        Seq::empty()
    } else {
        let rest = found_blocks(ns, k + 1);
        if anchored_kind(ns[k].kind@) && ns[k].start < ns[k].end {
            seq![(anchor_range(ns, k), ns[k].id, ns[k].kind@)] + rest
        } else {
            rest
        }
    }
}

/// The anchors made for the blocks when a document is first read: each
/// with the static identifier of its position and range.
pub open spec fn static_anchors(f: Seq<(std::ops::Range<usize>, usize, Seq<char>)>) -> Seq<Anchor> {
    Seq::new(
        f.len(),
        |i: int|
            Anchor {
                id: AnchorId(default_hash4(STATIC_MAGIC, i as usize, f[i].0.start, f[i].0.end) as u128),
                range: f[i].0,
                node_id: Some(f[i].1),
            },
    )
}

/// Calculate the range for just the list item's own content (excluding
/// children): up to where its first child list starts.
fn calculate_list_item_own_range(nodes: &Vec<SyntaxNode>, i: usize) -> (r: std::ops::Range<usize>)
    requires
        i < nodes@.len(),
        nodes@[i as int].kind@ == "list_item"@,
    ensures
        r == anchor_range(nodes@, i as int),
{
    let ghost ns = nodes@;
    let d = nodes[i].depth;
    let n = nodes.len();
    let mut j: usize = i + 1;
    while j < n && nodes[j].depth > d
        invariant
            i < j <= nodes@.len(),
            n == nodes@.len(),
            ns == nodes@,
            ns[i as int].kind@ == "list_item"@,
            d == ns[i as int].depth,
            list_child(ns, i as int, i + 1) == list_child(ns, i as int, j as int),
        decreases nodes@.len() - j,
    {
        if nodes[j].depth == d + 1 && str_eq(nodes[j].kind.as_str(), "list") {
            return nodes[i].start..nodes[j].start;
        }
        j = j + 1;
    }
    nodes[i].start..nodes[i].end
}

/// Whether a node of this kind gets an anchor.
fn is_anchored_kind(kind: &str) -> (b: bool)
    ensures
        b == anchored_kind(kind@),
{
    str_eq(kind, "atx_heading") || str_eq(kind, "list_item") || str_eq(kind, "fenced_code_block") || str_eq(
        kind,
        "indented_code_block",
    )
}

proof fn lemma_found_step(ns: Seq<SyntaxNode>, k: int)
    requires
        0 <= k < ns.len(),
    ensures
        found_blocks(ns, k) == if anchored_kind(ns[k].kind@) && ns[k].start < ns[k].end {
            seq![(anchor_range(ns, k), ns[k].id, ns[k].kind@)] + found_blocks(ns, k + 1)
        } else {
            found_blocks(ns, k + 1)
        },
{
}

/// The range of node `k`'s anchor.
fn node_anchor_range(nodes: &Vec<SyntaxNode>, k: usize) -> (r: std::ops::Range<usize>)
    requires
        k < nodes@.len(),
    ensures
        r == anchor_range(nodes@, k as int),
{
    if str_eq(nodes[k].kind.as_str(), "list_item") {
        calculate_list_item_own_range(nodes, k)
    } else {
        nodes[k].start..nodes[k].end
    }
}

/// Collect anchors for block-level nodes in the tree: one for each
/// non-empty heading, list item and code block, in tree order, with the
/// static identifier of its position and range.
pub fn anchors_from_nodes(nodes: &Vec<SyntaxNode>) -> (r: Vec<Anchor>)
    ensures
        r@ == static_anchors(found_blocks(nodes@, 0)),
{
    let ghost ns = nodes@;
    let ghost mut done: Seq<(std::ops::Range<usize>, usize, Seq<char>)> = Seq::empty();
    let mut anchors: Vec<Anchor> = Vec::new();
    let mut k: usize = 0;
    while k < nodes.len()
        invariant
            0 <= k <= nodes@.len(),
            ns == nodes@,
            found_blocks(ns, 0) == done + found_blocks(ns, k as int),
            anchors@ == static_anchors(done),
        decreases nodes@.len() - k,
    {
        proof {
            lemma_found_step(ns, k as int);
        }
        if is_anchored_kind(nodes[k].kind.as_str()) && nodes[k].start < nodes[k].end {
            let range = node_anchor_range(nodes, k);
            let id = generate_static_anchor_id(anchors.len(), range.start..range.end);
            let a = Anchor { id, range, node_id: Some(nodes[k].id) };
            proof {
                let f = (anchor_range(ns, k as int), ns[k as int].id, ns[k as int].kind@);
                assert(done.push(f) + found_blocks(ns, k + 1) =~= done + (seq![f] + found_blocks(ns, k + 1)));
                assert(static_anchors(done.push(f)) =~= static_anchors(done).push(a));
                done = done.push(f);
            }
            anchors.push(a);
        }
        k = k + 1;
    }
    assert(done + found_blocks(ns, k as int) =~= done);
    anchors
}

/// The blocks found in the tree as anchor data: each block's anchor range,
/// its node and its kind, in tree order.
pub fn anchor_data_from_nodes(nodes: &Vec<SyntaxNode>) -> (r: Vec<AnchorData>)
    ensures
        r@.len() == found_blocks(nodes@, 0).len(),
        forall|i: int|
            0 <= i < r@.len() ==> {
                let f = #[trigger] found_blocks(nodes@, 0)[i];
                &&& r@[i].0 == f.0
                &&& r@[i].1 == Some(f.1)
                &&& r@[i].2@ == f.2
            },
{
    let ghost ns = nodes@;
    let ghost mut done: Seq<(std::ops::Range<usize>, usize, Seq<char>)> = Seq::empty();
    let mut out: Vec<AnchorData> = Vec::new();
    let mut k: usize = 0;
    while k < nodes.len()
        invariant
            0 <= k <= nodes@.len(),
            ns == nodes@,
            found_blocks(ns, 0) == done + found_blocks(ns, k as int),
            out@.len() == done.len(),
            forall|i: int| 0 <= i < out@.len() ==> out@[i].0 == done[i].0 && out@[i].1 == Some(done[i].1) && out@[i].2@ == done[i].2,
        decreases nodes@.len() - k,
    {
        proof {
            lemma_found_step(ns, k as int);
        }
        if is_anchored_kind(nodes[k].kind.as_str()) && nodes[k].start < nodes[k].end {
            let range = node_anchor_range(nodes, k);
            let d: AnchorData = (range, Some(nodes[k].id), nodes[k].kind.clone());
            proof {
                let f = (anchor_range(ns, k as int), ns[k as int].id, ns[k as int].kind@);
                assert(done.push(f) + found_blocks(ns, k + 1) =~= done + (seq![f] + found_blocks(ns, k + 1)));
                done = done.push(f);
            }
            out.push(d);
        }
        k = k + 1;
    }
    assert(done + found_blocks(ns, k as int) =~= done);
    out
}

/// The syntax nodes of the document's text.
pub(crate) fn document_nodes(doc: &Document) -> (r: Option<Vec<SyntaxNode>>)
    ensures
        match markdown_syntax(decode_utf8(doc.bytes())) {
            Some(s) => r matches Some(v) && syntax_views(v@) == s,
            None => r is None,
        },
{
    let text = doc.text();
    proof {
        encode_utf8_decode_utf8(text@);
    }
    syntax_nodes(text.as_str())
}

/// The anchor data match the blocks found, one for one.
pub open spec fn data_found(d: Seq<AnchorData>, f: Seq<(std::ops::Range<usize>, usize, Seq<char>)>) -> bool {
    &&& d.len() == f.len()
    &&& forall|i: int| 0 <= i < d.len() ==> {
        &&& (#[trigger] d[i]).0 == f[i].0
        &&& d[i].1 == Some(f[i].1)
        &&& d[i].2@ == f[i].2
    }
}

/// The blocks found in the document's parse tree, as anchor data and as
/// static anchors, both from one parse; none where tree-sitter gives no
/// tree.
pub fn document_blocks(doc: &Document) -> (r: Option<(Vec<AnchorData>, Vec<Anchor>)>)
    ensures
        match markdown_syntax(decode_utf8(doc.bytes())) {
            Some(s) => r matches Some((d, a)) && exists|ns: Seq<SyntaxNode>|
                syntax_views(ns) == s && data_found(d@, #[trigger] found_blocks(ns, 0)) && a@ == static_anchors(
                    found_blocks(ns, 0),
                ),
            None => r is None,
        },
{
    match document_nodes(doc) {
        Some(nodes) => {
            let d = anchor_data_from_nodes(&nodes);
            let a = anchors_from_nodes(&nodes);
            assert(syntax_views(nodes@) == syntax_views(nodes@) && data_found(d@, found_blocks(nodes@, 0)));
            Some((d, a))
        },
        None => None,
    }
}

/// Create anchors from the document's parse tree: one for each non-empty
/// heading, list item and code block, in tree order, with the static
/// identifier of its position and range; none where tree-sitter gives no
/// tree.
pub fn create_anchors_from_tree(doc: &Document) -> (r: Vec<Anchor>)
    ensures
        match markdown_syntax(decode_utf8(doc.bytes())) {
            Some(s) => exists|ns: Seq<SyntaxNode>|
                syntax_views(ns) == s && r@ == static_anchors(#[trigger] found_blocks(ns, 0)),
            None => r@.len() == 0,
        },
{
    match document_nodes(doc) {
        Some(nodes) => anchors_from_nodes(&nodes),
        None => Vec::new(),
    }
}

/// Whether an anchor stands for another: it was made for the same node, or
/// the ranges overlap.
pub open spec fn stands_for(e: Anchor, a: Anchor) -> bool {
    (e.node_id is Some && e.node_id == a.node_id) || (e.range.start < a.range.end && a.range.start < e.range.end)
}

/// Whether an existing anchor already stands for the new one.
pub open spec fn covered(existing: Seq<Anchor>, a: Anchor) -> bool {
    exists|j: int| 0 <= j < existing.len() && stands_for(#[trigger] existing[j], a)
}

/// The anchors after each new anchor in turn is added where no anchor
/// stands for it yet.
pub open spec fn with_new_blocks(existing: Seq<Anchor>, new: Seq<Anchor>) -> Seq<Anchor>
    decreases new.len(),
{
    if new.len() == 0 {
        existing
    } else {
        let e = with_new_blocks(existing, new.drop_last());
        if covered(e, new.last()) {
            e
        } else {
            e.push(new.last())
        }
    }
}

/// Adding the anchors of new blocks keeps the anchors there were, first and
/// in order, and adds nothing but new anchors.
pub proof fn law_new_blocks_keep_anchors(existing: Seq<Anchor>, new: Seq<Anchor>)
    ensures
        with_new_blocks(existing, new).len() >= existing.len(),
        with_new_blocks(existing, new).take(existing.len() as int) == existing,
        forall|i: int|
            existing.len() <= i < with_new_blocks(existing, new).len() ==> new.contains(
                #[trigger] with_new_blocks(existing, new)[i],
            ),
    decreases new.len(),
{
    if new.len() > 0 {
        let front = new.drop_last();
        law_new_blocks_keep_anchors(existing, front);
        let e = with_new_blocks(existing, front);
        let r = with_new_blocks(existing, new);
        assert forall|i: int| existing.len() <= i < e.len() implies new.contains(#[trigger] e[i]) by {
            let w = choose|w: int| 0 <= w < front.len() && front[w] == e[i];
            assert(new[w] == e[i]);
        }
        if !covered(e, new.last()) {
            assert(r.take(existing.len() as int) =~= e.take(existing.len() as int));
            assert forall|i: int| existing.len() <= i < r.len() implies new.contains(#[trigger] r[i]) by {
                if i == r.len() - 1 {
                    assert(new[new.len() - 1] == r[i]);
                } else {
                    assert(r[i] == e[i]);
                }
            }
        }
    }
}

/// Whether an anchor in the list stands for `a`.
fn has_anchor(anchors: &Vec<Anchor>, a: &Anchor) -> (b: bool)
    ensures
        b == covered(anchors@, *a),
{
    let mut j: usize = 0;
    while j < anchors.len()
        invariant
            0 <= j <= anchors@.len(),
            forall|m: int| 0 <= m < j ==> !stands_for(#[trigger] anchors@[m], *a),
        decreases anchors@.len() - j,
    {
        let e = &anchors[j];
        let same_node = match (e.node_id, a.node_id) {
            (Some(x), Some(y)) => x == y,
            _ => false,
        };
        if same_node || (e.range.start < a.range.end && a.range.start < e.range.end) {
            assert(stands_for(anchors@[j as int], *a));
            return true;
        }
        j = j + 1;
    }
    false
}

/// Adds each new anchor in turn where no anchor stands for it yet.
pub fn add_anchors_for_new_blocks(anchors: &mut Vec<Anchor>, new_anchors: Vec<Anchor>)
    ensures
        final(anchors)@ == with_new_blocks(old(anchors)@, new_anchors@),
{
    let ghost start = anchors@;
    let mut k: usize = 0;
    assert(new_anchors@.take(0) =~= Seq::<Anchor>::empty());
    while k < new_anchors.len()
        invariant
            0 <= k <= new_anchors@.len(),
            anchors@ == with_new_blocks(start, new_anchors@.take(k as int)),
        decreases new_anchors@.len() - k,
    {
        let a = &new_anchors[k];
        proof {
            assert(new_anchors@.take(k + 1).drop_last() =~= new_anchors@.take(k as int));
            assert(new_anchors@.take(k + 1).last() == new_anchors@[k as int]);
        }
        if !has_anchor(anchors, a) {
            anchors.push(Anchor { id: a.id, range: a.range.start..a.range.end, node_id: a.node_id });
        }
        k = k + 1;
    }
    assert(new_anchors@.take(k as int) =~= new_anchors@);
}

/// Create anchors for any new blocks that don't have anchors yet: the
/// anchors of the document's parse tree are added in turn where no anchor
/// stands for them; nothing changes where tree-sitter gives no tree.
pub fn create_anchors_for_new_blocks(anchors: &mut Vec<Anchor>, doc: &Document)
    ensures
        match markdown_syntax(decode_utf8(doc.bytes())) {
            Some(s) => exists|ns: Seq<SyntaxNode>|
                syntax_views(ns) == s && final(anchors)@ == with_new_blocks(
                    old(anchors)@,
                    static_anchors(#[trigger] found_blocks(ns, 0)),
                ),
            None => final(anchors)@ == old(anchors)@,
        },
{
    match document_nodes(doc) {
        Some(nodes) => {
            let found = anchors_from_nodes(&nodes);
            add_anchors_for_new_blocks(anchors, found);
        },
        None => {},
    }
}

} // verus!
