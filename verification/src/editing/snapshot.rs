//! What a document looks like to the renderer: its blocks, and the blocks
//! grouped so that consecutive list items of one kind form one nested list.
use super::anchors::AnchorId;
use super::commands::Marker;
use vstd::prelude::*;

verus! {

/// Block types for rendering
#[derive(Debug)]
pub enum BlockKind {
    Paragraph,
    Heading { level: u8 },
    ListItem { marker: Marker, depth: usize },
    CodeFence { lang: Option<String> },
}

/// A renderable block in the document
#[derive(Debug)]
pub struct RenderBlock {
    pub id: AnchorId,
    pub kind: BlockKind,
    pub byte_range: std::ops::Range<usize>,
    pub content_range: std::ops::Range<usize>,
    pub depth: usize,
    pub content: String,
}

/// A list item that can contain nested sub-lists
#[derive(Debug)]
pub struct ListItem {
    pub block: RenderBlock,
    pub children: Vec<ListItem>,
}

/// Represents a grouped content structure for proper HTML ul/ol rendering
#[derive(Debug)]
pub enum ContentGroup {
    /// A single non-list block
    SingleBlock(RenderBlock),
    /// A group of consecutive bullet list items that should be rendered as ul/li
    BulletListGroup { items: Vec<ListItem> },
    /// A group of consecutive numbered list items that should be rendered as ol/li
    NumberedListGroup { items: Vec<ListItem> },
}

/// Snapshot of the document for rendering
pub struct Snapshot {
    pub version: u64,
    pub blocks: Vec<RenderBlock>,
    pub content_groups: Vec<ContentGroup>,
}

/// True when a marker belongs to a numbered list.
pub open spec fn is_numbered_marker(m: Marker) -> bool {
    m is Numbered
}

/// Check if two markers represent the same list type (numbered vs bullet)
pub fn is_same_list_type(marker1: &Marker, marker2: &Marker) -> (same: bool)
    ensures
        same == (is_numbered_marker(*marker1) == is_numbered_marker(*marker2)),
{
    match (marker1, marker2) {
        (Marker::Numbered, Marker::Numbered) => true,
        (Marker::Numbered, _) => false,
        (_, Marker::Numbered) => false,
        _ => true,
    }
}

/// A copy of a block.
pub fn copy_block(b: &RenderBlock) -> (r: RenderBlock)
    ensures
        r == *b,
{
    let kind = match &b.kind {
        BlockKind::Paragraph => BlockKind::Paragraph,
        BlockKind::Heading { level } => BlockKind::Heading { level: *level },
        BlockKind::ListItem { marker, depth } => BlockKind::ListItem { marker: *marker, depth: *depth },
        BlockKind::CodeFence { lang } => BlockKind::CodeFence {
            lang: match lang {
                Some(l) => Some(l.clone()),
                None => None,
            },
        },
    };
    RenderBlock {
        id: b.id,
        kind,
        byte_range: std::ops::Range { start: b.byte_range.start, end: b.byte_range.end },
        content_range: std::ops::Range { start: b.content_range.start, end: b.content_range.end },
        depth: b.depth,
        content: b.content.clone(),
    }
}

/// The value of a list item: its block and the items below it.
pub struct LView {
    pub block: RenderBlock,
    pub children: Seq<LView>,
}

pub open spec fn litem_view(it: ListItem) -> LView
    decreases it, 1nat,
{
    LView { block: it.block, children: litems_view(it.children@) }
}

pub open spec fn litems_view(s: Seq<ListItem>) -> Seq<LView>
    decreases s, 0nat,
{
    if s.len() == 0 {
        Seq::empty()
    } else {
        seq![litem_view(s[0])] + litems_view(s.drop_first())
    }
}

pub proof fn lemma_litems_view(s: Seq<ListItem>)
    ensures
        litems_view(s).len() == s.len(),
        forall|i: int| 0 <= i < s.len() ==> #[trigger] litems_view(s)[i] == litem_view(s[i]),
    decreases s.len(),
{
    if s.len() > 0 {
        lemma_litems_view(s.drop_first());
        assert forall|i: int| 0 <= i < s.len() implies #[trigger] litems_view(s)[i] == litem_view(s[i]) by {
            if i > 0 {
                assert(s.drop_first()[i - 1] == s[i]);
            }
        }
    }
}

pub proof fn lemma_litems_view_push(s: Seq<ListItem>, x: ListItem)
    ensures
        litems_view(s.push(x)) == litems_view(s).push(litem_view(x)),
{
    lemma_litems_view(s);
    lemma_litems_view(s.push(x));
    assert(litems_view(s.push(x)) =~= litems_view(s).push(litem_view(x)));
}

/// The items after `x` is placed `d` levels down: under the last item at
/// each level, or at the top where there is no item to go under.
pub open spec fn insert_at_depth(items: Seq<LView>, x: LView, d: nat) -> Seq<LView>
    decreases d,
{
    if d == 0 || items.len() == 0 {
        items.push(x)
    } else {
        let last = items.last();
        items.update(items.len() - 1, LView { children: insert_at_depth(last.children, x, (d - 1) as nat), ..last })
    }
}

/// A list item with nothing below it.
pub open spec fn leaf(b: RenderBlock) -> LView {
    LView { block: b, children: Seq::empty() }
}

/// The nested list of the list item blocks, each placed at its depth in
/// turn; other blocks are skipped.
pub open spec fn nest(blocks: Seq<RenderBlock>) -> Seq<LView>
    decreases blocks.len(),
{
    if blocks.len() == 0 {
        Seq::empty()
    } else {
        let prev = nest(blocks.drop_last());
        let b = blocks.last();
        if b.kind is ListItem {
            insert_at_depth(prev, leaf(b), b.depth as nat)
        } else {
            prev
        }
    }
}

/// Helper function to insert a list item at the correct depth
pub fn insert_list_item_at_depth(items: &mut Vec<ListItem>, new_item: ListItem, target_depth: usize)
    ensures
        litems_view(final(items)@) == insert_at_depth(litems_view(old(items)@), litem_view(new_item), target_depth as nat),
    decreases target_depth,
{
    proof {
        lemma_litems_view(items@);
    }
    if target_depth == 0 || items.len() == 0 {
        proof {
            lemma_litems_view_push(items@, new_item);
        }
        items.push(new_item);
    } else {
        let ghost before = items@;
        let mut last = items.pop().unwrap();
        assert(before =~= items@.push(last));
        let ghost old_last = last;
        insert_list_item_at_depth(&mut last.children, new_item, target_depth - 1);
        proof {
            lemma_litems_view_push(items@, last);
            lemma_litems_view(before);
            lemma_litems_view(items@);
            assert(litems_view(items@.push(last)) =~= litems_view(before).update(
                before.len() - 1,
                LView { children: litems_view(last.children@), ..litem_view(old_last) },
            ));
        }
        items.push(last);
    }
}

/// Builds a nested list structure from flat list blocks
pub fn build_nested_list_structure(blocks: &[RenderBlock]) -> (r: Vec<ListItem>)
    ensures
        litems_view(r@) == nest(blocks@),
{
    let mut result: Vec<ListItem> = Vec::new();
    let mut i: usize = 0;
    proof {
        lemma_litems_view(result@);
        assert(blocks@.take(0) =~= Seq::<RenderBlock>::empty());
    }
    while i < blocks.len()
        invariant
            0 <= i <= blocks@.len(),
            litems_view(result@) == nest(blocks@.take(i as int)),
        decreases blocks@.len() - i,
    {
        assert(blocks@.take(i + 1).drop_last() =~= blocks@.take(i as int));
        assert(blocks@.take(i + 1).last() == blocks@[i as int]);
        match &blocks[i].kind {
            BlockKind::ListItem { .. } => {
                let item = ListItem { block: copy_block(&blocks[i]), children: Vec::new() };
                proof {
                    lemma_litems_view(item.children@);
                    assert(litem_view(item) =~= leaf(blocks@[i as int]));
                }
                let d = blocks[i].depth;
                insert_list_item_at_depth(&mut result, item, d);
            },
            _ => {},
        }
        i = i + 1;
    }
    assert(blocks@.take(i as int) =~= blocks@);
    result
}

/// The marker of a list item block.
pub open spec fn list_marker_of(b: RenderBlock) -> Option<Marker> {
    match b.kind {
        BlockKind::ListItem { marker, .. } => Some(marker),
        _ => None,
    }
}

/// Where the run of list items of the kind of `m` (numbered or bullet)
/// that goes on at `k` ends.
pub open spec fn run_end(bs: Seq<RenderBlock>, k: int, m: Marker) -> int
    decreases bs.len() - k,
{
    if 0 <= k < bs.len() && list_marker_of(bs[k]) is Some && is_numbered_marker(list_marker_of(bs[k])->0)
        == is_numbered_marker(m) {
        run_end(bs, k + 1, m)
    } else {
        k
    }
}

pub proof fn lemma_run_end(bs: Seq<RenderBlock>, k: int, m: Marker)
    requires
        0 <= k <= bs.len(),
    ensures
        k <= run_end(bs, k, m) <= bs.len(),
    decreases bs.len() - k,
{
    if 0 <= k < bs.len() && list_marker_of(bs[k]) is Some && is_numbered_marker(list_marker_of(bs[k])->0)
        == is_numbered_marker(m) {
        lemma_run_end(bs, k + 1, m);
    }
}

/// The value of a content group.
pub enum GView {
    Single(RenderBlock),
    Bullets(Seq<LView>),
    Numbered(Seq<LView>),
}

pub open spec fn group_view(g: ContentGroup) -> GView {
    match g {
        ContentGroup::SingleBlock(b) => GView::Single(b),
        ContentGroup::BulletListGroup { items } => GView::Bullets(litems_view(items@)),
        ContentGroup::NumberedListGroup { items } => GView::Numbered(litems_view(items@)),
    }
}

/// The groups of the blocks from `i` on: each run of list items of one kind
/// (numbered or bullet) is one nested list, of the kind of its first item;
/// every other block stands alone.
pub open spec fn groups_from(bs: Seq<RenderBlock>, i: int) -> Seq<GView>
    decreases bs.len() - i,
{
    if i < 0 || i >= bs.len() {
        Seq::empty()
    } else {
        match list_marker_of(bs[i]) {
            Some(m) => {
                let j = run_end(bs, i, m);
                proof {
                    lemma_run_end(bs, i + 1, m);
                }
                let items = nest(bs.subrange(i, j));
                seq![
                    if is_numbered_marker(m) {
                        GView::Numbered(items)
                    } else {
                        GView::Bullets(items)
                    },
                ] + groups_from(bs, j)
            },
            None => seq![GView::Single(bs[i])] + groups_from(bs, i + 1),
        }
    }
}

/// The blocks of a list item and of the items below it, each item before
/// the items below it.
pub open spec fn flat_item(x: LView) -> Seq<RenderBlock>
    decreases x, 1nat,
{
    seq![x.block] + flat_items(x.children)
}

/// The blocks of the items, in order, each item before the items below it.
pub open spec fn flat_items(s: Seq<LView>) -> Seq<RenderBlock>
    decreases s, 0nat,
{
    if s.len() == 0 {
        Seq::empty()
    } else {
        flat_item(s[0]) + flat_items(s.drop_first())
    }
}

/// The blocks of a group, in order.
pub open spec fn group_blocks(g: GView) -> Seq<RenderBlock> {
    match g {
        GView::Single(b) => seq![b],
        GView::Bullets(items) => flat_items(items),
        GView::Numbered(items) => flat_items(items),
    }
}

/// The blocks of the groups, in order.
pub open spec fn flat_groups(gs: Seq<GView>) -> Seq<RenderBlock>
    decreases gs.len(),
{
    if gs.len() == 0 {
        Seq::empty()
    } else {
        group_blocks(gs[0]) + flat_groups(gs.drop_first())
    }
}

proof fn lemma_flat_items_push(s: Seq<LView>, x: LView)
    ensures
        flat_items(s.push(x)) == flat_items(s) + flat_item(x),
    decreases s.len(),
{
    if s.len() == 0 {
        let one = s.push(x);
        assert(one.drop_first() =~= Seq::<LView>::empty());
        assert(one[0] == x);
        assert(flat_items(one.drop_first()) == Seq::<RenderBlock>::empty());
        assert(flat_items(one) == flat_item(x) + flat_items(one.drop_first()));
        assert(flat_items(one) =~= flat_item(x));
        assert(flat_items(s) == Seq::<RenderBlock>::empty());
    } else {
        assert(s.push(x).drop_first() =~= s.drop_first().push(x));
        lemma_flat_items_push(s.drop_first(), x);
        assert(flat_items(s.push(x)) =~= flat_items(s) + flat_item(x));
    }
}

proof fn lemma_flat_insert(items: Seq<LView>, x: LView, d: nat)
    ensures
        flat_items(insert_at_depth(items, x, d)) == flat_items(items) + flat_item(x),
    decreases d,
{
    if d == 0 || items.len() == 0 {
        lemma_flat_items_push(items, x);
    } else {
        let last = items.last();
        let new_last = LView { children: insert_at_depth(last.children, x, (d - 1) as nat), ..last };
        let front = items.drop_last();
        lemma_flat_insert(last.children, x, (d - 1) as nat);
        assert(items =~= front.push(last));
        assert(insert_at_depth(items, x, d) =~= front.push(new_last));
        lemma_flat_items_push(front, last);
        lemma_flat_items_push(front, new_last);
        assert(flat_item(new_last) =~= flat_item(last) + flat_item(x));
        assert(flat_items(front.push(new_last)) =~= flat_items(front.push(last)) + flat_item(x));
    }
}

proof fn lemma_flat_nest(bs: Seq<RenderBlock>)
    requires
        forall|k: int| 0 <= k < bs.len() ==> (#[trigger] bs[k]).kind is ListItem,
    ensures
        flat_items(nest(bs)) == bs,
    decreases bs.len(),
{
    if bs.len() > 0 {
        let front = bs.drop_last();
        assert forall|k: int| 0 <= k < front.len() implies (#[trigger] front[k]).kind is ListItem by {
            assert(front[k] == bs[k]);
        }
        lemma_flat_nest(front);
        let b = bs.last();
        assert(bs[bs.len() - 1].kind is ListItem);
        lemma_flat_insert(nest(front), leaf(b), b.depth as nat);
        assert(flat_items(leaf(b).children) =~= Seq::<RenderBlock>::empty());
        assert(flat_item(leaf(b)) =~= seq![b]);
        assert(bs =~= front.push(b));
    }
}

proof fn lemma_run_items(bs: Seq<RenderBlock>, k: int, m: Marker)
    requires
        0 <= k <= bs.len(),
    ensures
        forall|t: int| k <= t < run_end(bs, k, m) ==> (#[trigger] bs[t]).kind is ListItem,
    decreases bs.len() - k,
{
    if 0 <= k < bs.len() && list_marker_of(bs[k]) is Some && is_numbered_marker(list_marker_of(bs[k])->0)
        == is_numbered_marker(m) {
        lemma_run_items(bs, k + 1, m);
    }
}

proof fn lemma_flat_groups_from(bs: Seq<RenderBlock>, i: int)
    requires
        0 <= i <= bs.len(),
    ensures
        flat_groups(groups_from(bs, i)) == bs.subrange(i, bs.len() as int),
    decreases bs.len() - i,
{
    if i < bs.len() {
        let gs = groups_from(bs, i);
        match list_marker_of(bs[i]) {
            Some(m) => {
                let j = run_end(bs, i, m);
                lemma_run_end(bs, i + 1, m);
                lemma_run_items(bs, i, m);
                let sub = bs.subrange(i, j);
                assert forall|k: int| 0 <= k < sub.len() implies (#[trigger] sub[k]).kind is ListItem by {
                    assert(sub[k] == bs[i + k]);
                }
                lemma_flat_nest(sub);
                lemma_flat_groups_from(bs, j);
                assert(gs.drop_first() == groups_from(bs, j));
                assert(group_blocks(gs[0]) == sub);
                assert(bs.subrange(i, bs.len() as int) =~= sub + bs.subrange(j, bs.len() as int));
            },
            None => {
                lemma_flat_groups_from(bs, i + 1);
                assert(gs.drop_first() == groups_from(bs, i + 1));
                assert(bs.subrange(i, bs.len() as int) =~= seq![bs[i]] + bs.subrange(i + 1, bs.len() as int));
            },
        }
    }
}

/// Grouping the blocks for rendering keeps every block, once and in order:
/// reading the groups, each list item before the items nested below it,
/// gives back the blocks.
pub proof fn law_grouping_keeps_blocks(bs: Seq<RenderBlock>)
    ensures
        flat_groups(groups_from(bs, 0)) == bs,
{
    lemma_flat_groups_from(bs, 0);
    assert(bs.subrange(0, bs.len() as int) =~= bs);
}

/// Whether the block at `i` is a list item of the kind of `m`.
fn same_kind_at(blocks: &[RenderBlock], i: usize, m: Marker) -> (b: bool)
    requires
        i < blocks@.len(),
    ensures
        b == (list_marker_of(blocks@[i as int]) is Some && is_numbered_marker(list_marker_of(blocks@[i as int])->0)
            == is_numbered_marker(m)),
{
    match &blocks[i].kind {
        BlockKind::ListItem { marker, .. } => is_same_list_type(&m, marker),
        _ => false,
    }
}

/// Groups consecutive list items into proper nested HTML structure
pub fn group_blocks_for_rendering(blocks: &[RenderBlock]) -> (r: Vec<ContentGroup>)
    ensures
        r@.map_values(|g: ContentGroup| group_view(g)) == groups_from(blocks@, 0),
{
    let ghost bs = blocks@;
    let mut groups: Vec<ContentGroup> = Vec::new();
    let mut i: usize = 0;
    assert(groups@.map_values(|g: ContentGroup| group_view(g)) + groups_from(bs, 0) =~= groups_from(bs, 0));
    while i < blocks.len()
        invariant
            bs == blocks@,
            0 <= i <= bs.len(),
            groups@.map_values(|g: ContentGroup| group_view(g)) + groups_from(bs, i as int) == groups_from(bs, 0),
        decreases bs.len() - i,
    {
        let ghost before = groups@;
        match &blocks[i].kind {
            BlockKind::ListItem { marker, .. } => {
                let first_marker = *marker;
                let list_start = i;
                proof {
                    lemma_run_end(bs, i as int, first_marker);
                }
                while i < blocks.len() && same_kind_at(blocks, i, first_marker)
                    invariant
                        bs == blocks@,
                        list_start <= i <= bs.len(),
                        run_end(bs, list_start as int, first_marker) == run_end(bs, i as int, first_marker),
                    decreases bs.len() - i,
                {
                    i = i + 1;
                }
                let j = i;
                let items = build_nested_list_structure(&blocks[list_start..j]);
                let group = match first_marker {
                    Marker::Numbered => ContentGroup::NumberedListGroup { items },
                    _ => ContentGroup::BulletListGroup { items },
                };
                groups.push(group);
                proof {
                    assert(run_end(bs, list_start as int, first_marker) == j);
                    assert(groups@.map_values(|g: ContentGroup| group_view(g)) =~= before.map_values(
                        |g: ContentGroup| group_view(g),
                    ).push(group_view(group)));
                }
            },
            _ => {
                groups.push(ContentGroup::SingleBlock(copy_block(&blocks[i])));
                assert(groups@.map_values(|g: ContentGroup| group_view(g)) =~= before.map_values(
                    |g: ContentGroup| group_view(g),
                ).push(GView::Single(bs[i as int])));
                i = i + 1;
            },
        }
    }
    groups
}

/// The first block with identifier `id` among the items from position `k`
/// on, each item before the items below it.
pub open spec fn focus_from(items: Seq<LView>, id: AnchorId, k: int) -> Option<RenderBlock>
    decreases items, 0nat, items.len() - k,
{
    if k < 0 || k >= items.len() {
        None
    } else if items[k].block.id == id {
        Some(items[k].block)
    } else {
        match focus_from(items[k].children, id, 0) {
            Some(b) => Some(b),
            None => focus_from(items, id, k + 1),
        }
    }
}

/// Helper function to find a focused block within a list group
pub fn find_focused_block_in_list<'a>(items: &'a [ListItem], focused_id: &Option<AnchorId>) -> (r: Option<&'a RenderBlock>)
    ensures
        match focused_id {
            Some(id) => match focus_from(litems_view(items@), *id, 0) {
                Some(b) => r is Some && *r->0 == b,
                None => r is None,
            },
            None => r is None,
        },
    decreases items@,
{
    match focused_id {
        None => None,
        Some(target) => {
            let ghost v = litems_view(items@);
            proof {
                lemma_litems_view(items@);
            }
            let mut k: usize = 0;
            while k < items.len()
                invariant
                    v == litems_view(items@),
                    *focused_id == Some(*target),
                    v.len() == items@.len(),
                    forall|j: int| 0 <= j < v.len() ==> #[trigger] v[j] == litem_view(items@[j]),
                    0 <= k <= items@.len(),
                    focus_from(v, *target, 0) == focus_from(v, *target, k as int),
                decreases items@.len() - k,
            {
                assert(v[k as int].block == items@[k as int].block);
                assert(v[k as int].children == litems_view(items@[k as int].children@));
                if items[k].block.id.0 == target.0 {
                    assert(items@[k as int].block.id == *target);
                    return Some(&items[k].block);
                }
                assert(decreases_to!(items@ => items@[k as int].children@));
                let found = find_focused_block_in_list(items[k].children.as_slice(), focused_id);
                if found.is_some() {
                    return found;
                }
                k = k + 1;
            }
            None
        },
    }
}

} // verus!
