//! The editing state of an open document: its blocks with their
//! identifiers, the block being edited, the selected block, and the direct
//! operations on bullets.
use super::document::{
    block_md, block_view, blocks_view, clone_block, lemma_blocks_view_index, lemma_blocks_view_len, item_view, items_view, lemma_items_view_index, lemma_items_view_insert,
    lemma_items_view_len, lemma_items_view_remove, lemma_items_view_update, BlockId, BlockView,
    BulletMarker, BulletOperation, ContentBlock, Document, ItemView, ListItem, lemma_items_view_concat,
    split_string_at_position,
};
use crate::parsing::blocks::{ids_zero, multiple_blocks, parse_multiple_blocks};
use super::document::{item_size, items_count};
use vstd::prelude::*;

verus! {

/// The items of a list block.
pub open spec fn list_items(b: BlockView) -> Option<Seq<(u128, ItemView)>> {
    match b {
        BlockView::BulletList(items) => Some(items),
        BlockView::NumberedList(items) => Some(items),
        _ => None,
    }
}

/// A list block with other items.
pub open spec fn with_items(b: BlockView, items: Seq<(u128, ItemView)>) -> BlockView {
    match b {
        BlockView::BulletList(_) => BlockView::BulletList(items),
        BlockView::NumberedList(_) => BlockView::NumberedList(items),
        _ => b,
    }
}

/// The position of the first item with identifier `id`.
pub open spec fn first_pos(l: Seq<(u128, ItemView)>, id: u128) -> Option<int>
    decreases l.len(),
{
    if l.len() == 0 {
        None
    } else if l[0].0 == id {
        Some(0)
    } else {
        match first_pos(l.drop_first(), id) {
            Some(p) => Some(p + 1),
            None => None,
        }
    }
}

pub proof fn lemma_first_pos(l: Seq<(u128, ItemView)>, id: u128)
    ensures
        match first_pos(l, id) {
            Some(p) => 0 <= p < l.len() && l[p].0 == id && forall|j: int| 0 <= j < p ==> l[j].0 != id,
            None => forall|j: int| 0 <= j < l.len() ==> l[j].0 != id,
        },
    decreases l.len(),
{
    if l.len() > 0 {
        lemma_first_pos(l.drop_first(), id);
        assert forall|j: int| 0 < j < l.len() implies l[j] == l.drop_first()[j - 1] by {}
    }
}

/// Where the bullet operations find the item `id` in a list: the path of
/// item positions down to the list that holds it, and its position there.
/// The list itself is searched first (where `skip_first`, a match at its
/// first position does not count), then each item's children in turn.
pub open spec fn find_list(l: Seq<(u128, ItemView)>, id: u128, skip_first: bool) -> Option<(Seq<int>, int)>
    decreases l, 1nat, 0nat,
{
    match first_pos(l, id) {
        Some(p) => if skip_first && p == 0 {
            find_below(l, id, skip_first, 0)
        } else {
            Some((Seq::empty(), p))
        },
        None => find_below(l, id, skip_first, 0),
    }
}

/// `find_list` in the children of the items from position `i` on.
pub open spec fn find_below(l: Seq<(u128, ItemView)>, id: u128, skip_first: bool, i: int) -> Option<(Seq<int>, int)>
    decreases l, 0nat, l.len() - i,
{
    if i < 0 || i >= l.len() {
        None
    } else {
        match find_list(l[i].1.children, id, skip_first) {
            Some((p, pos)) => Some((seq![i] + p, pos)),
            None => find_below(l, id, skip_first, i + 1),
        }
    }
}

/// Where editing finds the item `id` below a list: each item, then the
/// items below it, then the next item.
pub open spec fn find_pre(l: Seq<(u128, ItemView)>, id: u128, k: int) -> Option<(Seq<int>, int)>
    decreases l, 0nat, l.len() - k,
{
    if k < 0 || k >= l.len() {
        None
    } else if l[k].0 == id {
        Some((Seq::empty(), k))
    } else {
        match find_pre(l[k].1.children, id, 0) {
            Some((p, pos)) => Some((seq![k] + p, pos)),
            None => find_pre(l, id, k + 1),
        }
    }
}

/// Where editing finds the item `id` in a list block: the list itself
/// first, then below each item in turn.
pub open spec fn find_for_edit(l: Seq<(u128, ItemView)>, id: u128) -> Option<(Seq<int>, int)> {
    match first_pos(l, id) {
        Some(p) => Some((Seq::empty(), p)),
        None => find_pre_children(l, id, 0),
    }
}

/// `find_pre` below each item from position `k` on.
pub open spec fn find_pre_children(l: Seq<(u128, ItemView)>, id: u128, k: int) -> Option<(Seq<int>, int)>
    decreases l.len() - k,
{
    if k < 0 || k >= l.len() {
        None
    } else {
        match find_pre(l[k].1.children, id, 0) {
            Some((p, pos)) => Some((seq![k] + p, pos)),
            None => find_pre_children(l, id, k + 1),
        }
    }
}

/// The path leads through items that exist.
pub open spec fn valid_path(l: Seq<(u128, ItemView)>, path: Seq<int>) -> bool
    decreases path.len(),
{
    path.len() == 0 || (0 <= path[0] < l.len() && valid_path(l[path[0]].1.children, path.drop_first()))
}

/// The list that the path leads to.
pub open spec fn at_path(l: Seq<(u128, ItemView)>, path: Seq<int>) -> Seq<(u128, ItemView)>
    decreases path.len(),
{
    if path.len() == 0 {
        l
    } else {
        at_path(l[path[0]].1.children, path.drop_first())
    }
}

/// The items with the list that the path leads to replaced by `new_list`.
pub open spec fn replace_at(l: Seq<(u128, ItemView)>, path: Seq<int>, new_list: Seq<(u128, ItemView)>) -> Seq<(u128, ItemView)>
    decreases path.len(),
{
    if path.len() == 0 {
        new_list
    } else {
        let i = path[0];
        l.update(i, (l[i].0, ItemView { children: replace_at(l[i].1.children, path.drop_first(), new_list), ..l[i].1 }))
    }
}

pub proof fn lemma_find_list(l: Seq<(u128, ItemView)>, id: u128, sf: bool)
    ensures
        match find_list(l, id, sf) {
            Some((p, pos)) => valid_path(l, p) && 0 <= pos < at_path(l, p).len() && at_path(l, p)[pos].0 == id
                && (sf ==> pos > 0),
            None => true,
        },
    decreases l, 1nat, 0nat,
{
    lemma_first_pos(l, id);
    lemma_find_below(l, id, sf, 0);
}

pub proof fn lemma_find_below(l: Seq<(u128, ItemView)>, id: u128, sf: bool, i: int)
    ensures
        match find_below(l, id, sf, i) {
            Some((p, pos)) => valid_path(l, p) && 0 <= pos < at_path(l, p).len() && at_path(l, p)[pos].0 == id
                && (sf ==> pos > 0),
            None => true,
        },
    decreases l, 0nat, l.len() - i,
{
    if 0 <= i < l.len() {
        lemma_find_list(l[i].1.children, id, sf);
        lemma_find_below(l, id, sf, i + 1);
        match find_list(l[i].1.children, id, sf) {
            Some((p, pos)) => {
                assert((seq![i] + p)[0] == i);
                assert((seq![i] + p).drop_first() =~= p);
            },
            None => {},
        }
    }
}

pub proof fn lemma_find_pre(l: Seq<(u128, ItemView)>, id: u128, k: int)
    ensures
        match find_pre(l, id, k) {
            Some((p, pos)) => valid_path(l, p) && 0 <= pos < at_path(l, p).len() && at_path(l, p)[pos].0 == id,
            None => true,
        },
    decreases l, 0nat, l.len() - k,
{
    if 0 <= k < l.len() && l[k].0 != id {
        lemma_find_pre(l[k].1.children, id, 0);
        lemma_find_pre(l, id, k + 1);
        match find_pre(l[k].1.children, id, 0) {
            Some((p, pos)) => {
                assert((seq![k] + p)[0] == k);
                assert((seq![k] + p).drop_first() =~= p);
            },
            None => {},
        }
    }
}

pub proof fn lemma_find_for_edit(l: Seq<(u128, ItemView)>, id: u128)
    ensures
        match find_for_edit(l, id) {
            Some((p, pos)) => valid_path(l, p) && 0 <= pos < at_path(l, p).len() && at_path(l, p)[pos].0 == id,
            None => true,
        },
{
    lemma_first_pos(l, id);
    lemma_find_pre_children(l, id, 0);
}

pub proof fn lemma_find_pre_children(l: Seq<(u128, ItemView)>, id: u128, k: int)
    ensures
        match find_pre_children(l, id, k) {
            Some((p, pos)) => valid_path(l, p) && 0 <= pos < at_path(l, p).len() && at_path(l, p)[pos].0 == id,
            None => true,
        },
    decreases l.len() - k,
{
    if 0 <= k < l.len() {
        lemma_find_pre(l[k].1.children, id, 0);
        lemma_find_pre_children(l, id, k + 1);
        match find_pre(l[k].1.children, id, 0) {
            Some((p, pos)) => {
                assert((seq![k] + p)[0] == k);
                assert((seq![k] + p).drop_first() =~= p);
            },
            None => {},
        }
    }
}

/// The value of each position.
pub open spec fn ints(v: Seq<usize>) -> Seq<int> {
    v.map_values(|x: usize| x as int)
}

/// The order in which an item is looked for.
#[derive(Clone, Copy, Debug, PartialEq, Eq, Structural)]
pub enum Search {
    /// As the bullet operations look.
    Bullets,
    /// As the bullet operations look, where a match at the first position of
    /// a list does not count.
    BulletsAfterFirst,
    /// As editing looks.
    Editing,
}

pub open spec fn search(l: Seq<(u128, ItemView)>, id: u128, s: Search) -> Option<(Seq<int>, int)> {
    match s {
        Search::Bullets => find_list(l, id, false),
        Search::BulletsAfterFirst => find_list(l, id, true),
        Search::Editing => find_for_edit(l, id),
    }
}

pub proof fn lemma_search(l: Seq<(u128, ItemView)>, id: u128, s: Search)
    ensures
        match search(l, id, s) {
            Some((p, pos)) => valid_path(l, p) && 0 <= pos < at_path(l, p).len() && at_path(l, p)[pos].0 == id
                && (s == Search::BulletsAfterFirst ==> pos > 0),
            None => true,
        },
{
    match s {
        Search::Bullets => lemma_find_list(l, id, false),
        Search::BulletsAfterFirst => lemma_find_list(l, id, true),
        Search::Editing => lemma_find_for_edit(l, id),
    }
}

proof fn lemma_child_view(items: Seq<(BlockId, ListItem)>, i: int)
    requires
        0 <= i < items.len(),
    ensures
        items_view(items).len() == items.len(),
        items_view(items)[i].1.children == items_view(items[i].1.children@),
        items_view(items)[i] == (items[i].0.0, item_view(items[i].1)),
{
    lemma_items_view_index(items, i);
}

/// The position of the first item with identifier `id`.
fn find_pos(items: &Vec<(BlockId, ListItem)>, id: BlockId) -> (r: Option<usize>)
    ensures
        match first_pos(items_view(items@), id.0) {
            Some(p) => r is Some && r->0 as int == p,
            None => r is None,
        },
{
    let ghost v = items_view(items@);
    proof {
        lemma_items_view_len(items@);
        lemma_first_pos(v, id.0);
    }
    let mut i: usize = 0;
    while i < items.len()
        invariant
            v == items_view(items@),
            v.len() == items@.len(),
            0 <= i <= items@.len(),
            forall|j: int| 0 <= j < i ==> v[j].0 != id.0,
            match first_pos(v, id.0) {
                Some(p) => 0 <= p < v.len() && v[p].0 == id.0 && forall|j: int| 0 <= j < p ==> v[j].0 != id.0,
                None => forall|j: int| 0 <= j < v.len() ==> v[j].0 != id.0,
            },
        decreases items@.len() - i,
    {
        proof {
            lemma_items_view_index(items@, i as int);
        }
        if items[i].0.0 == id.0 {
            return Some(i);
        }
        i = i + 1;
    }
    None
}

/// Looks for `id` as the bullet operations do.
fn find_bullet(items: &Vec<(BlockId, ListItem)>, id: BlockId, skip_first: bool) -> (r: Option<(Vec<usize>, usize)>)
    ensures
        match find_list(items_view(items@), id.0, skip_first) {
            Some((p, pos)) => r matches Some((rp, rpos)) && ints(rp@) == p && rpos as int == pos,
            None => r is None,
        },
    decreases *items,
{
    let ghost v = items_view(items@);
    let fp = find_pos(items, id);
    match fp {
        Some(p) => {
            if !(skip_first && p == 0) {
                let path: Vec<usize> = Vec::new();
                assert(ints(path@) =~= Seq::<int>::empty());
                return Some((path, p));
            }
        },
        None => {},
    }
    proof {
        lemma_items_view_len(items@);
    }
    let mut i: usize = 0;
    while i < items.len()
        invariant
            v == items_view(items@),
            v.len() == items@.len(),
            0 <= i <= items@.len(),
            find_list(v, id.0, skip_first) == find_below(v, id.0, skip_first, i as int),
        decreases items@.len() - i,
    {
        proof {
            lemma_child_view(items@, i as int);
        }
        assert(decreases_to!(*items => items@[i as int].1.children));
        let sub = find_bullet(&items[i].1.children, id, skip_first);
        match sub {
            Some((p, pos)) => {
                let ghost pv = ints(p@);
                let mut path = p;
                path.insert(0, i);
                assert(ints(path@) =~= seq![i as int] + pv);
                return Some((path, pos));
            },
            None => {},
        }
        i = i + 1;
    }
    None
}

/// Looks for `id` below the items from position `k` on, each item before
/// the items below it.
fn find_preorder(items: &Vec<(BlockId, ListItem)>, id: BlockId) -> (r: Option<(Vec<usize>, usize)>)
    ensures
        match find_pre(items_view(items@), id.0, 0) {
            Some((p, pos)) => r matches Some((rp, rpos)) && ints(rp@) == p && rpos as int == pos,
            None => r is None,
        },
    decreases *items,
{
    let ghost v = items_view(items@);
    proof {
        lemma_items_view_len(items@);
    }
    let mut k: usize = 0;
    while k < items.len()
        invariant
            v == items_view(items@),
            v.len() == items@.len(),
            0 <= k <= items@.len(),
            find_pre(v, id.0, 0) == find_pre(v, id.0, k as int),
        decreases items@.len() - k,
    {
        proof {
            lemma_child_view(items@, k as int);
        }
        if items[k].0.0 == id.0 {
            let path: Vec<usize> = Vec::new();
            assert(ints(path@) =~= Seq::<int>::empty());
            return Some((path, k));
        }
        assert(decreases_to!(*items => items@[k as int].1.children));
        let sub = find_preorder(&items[k].1.children, id);
        match sub {
            Some((p, pos)) => {
                let ghost pv = ints(p@);
                let mut path = p;
                path.insert(0, k);
                assert(ints(path@) =~= seq![k as int] + pv);
                return Some((path, pos));
            },
            None => {},
        }
        k = k + 1;
    }
    None
}

/// Looks for `id` as editing does.
fn find_editing(items: &Vec<(BlockId, ListItem)>, id: BlockId) -> (r: Option<(Vec<usize>, usize)>)
    ensures
        match find_for_edit(items_view(items@), id.0) {
            Some((p, pos)) => r matches Some((rp, rpos)) && ints(rp@) == p && rpos as int == pos,
            None => r is None,
        },
{
    let ghost v = items_view(items@);
    match find_pos(items, id) {
        Some(p) => {
            let path: Vec<usize> = Vec::new();
            assert(ints(path@) =~= Seq::<int>::empty());
            return Some((path, p));
        },
        None => {},
    }
    proof {
        lemma_items_view_len(items@);
    }
    let mut k: usize = 0;
    while k < items.len()
        invariant
            v == items_view(items@),
            v.len() == items@.len(),
            0 <= k <= items@.len(),
            find_pre_children(v, id.0, 0) == find_pre_children(v, id.0, k as int),
            first_pos(v, id.0) is None,
        decreases items@.len() - k,
    {
        proof {
            lemma_child_view(items@, k as int);
        }
        let sub = find_preorder(&items[k].1.children, id);
        match sub {
            Some((p, pos)) => {
                let ghost pv = ints(p@);
                let mut path = p;
                path.insert(0, k);
                assert(ints(path@) =~= seq![k as int] + pv);
                return Some((path, pos));
            },
            None => {},
        }
        k = k + 1;
    }
    None
}

/// Looks for `id` in a list in the given order.
fn locate(items: &Vec<(BlockId, ListItem)>, id: BlockId, s: Search) -> (r: Option<(Vec<usize>, usize)>)
    ensures
        match search(items_view(items@), id.0, s) {
            Some((p, pos)) => r matches Some((rp, rpos)) && ints(rp@) == p && rpos as int == pos,
            None => r is None,
        },
{
    match s {
        Search::Bullets => find_bullet(items, id, false),
        Search::BulletsAfterFirst => find_bullet(items, id, true),
        Search::Editing => find_editing(items, id),
    }
}

/// A change to one item of a list, or to the list at that item.
pub enum ListOp {
    /// The item's text becomes this, without segments.
    SetContent(String),
    /// The item's text becomes this; its segments stay.
    Replace(String),
    /// The item's text becomes the first text, and a new item with the
    /// second text, the identifier and the item's level and marker follows
    /// it.
    Split(String, String, BlockId),
    /// The item's text and children are added to those of the item before
    /// it, and the item leaves the list.
    Merge,
    /// The item leaves the list.
    Delete,
}

/// The value of a list change.
pub enum OpView {
    SetContent(Seq<char>),
    Replace(Seq<char>),
    Split(Seq<char>, Seq<char>, u128),
    Merge,
    Delete,
}

pub open spec fn op_view(op: ListOp) -> OpView {
    match op {
        ListOp::SetContent(c) => OpView::SetContent(c@),
        ListOp::Replace(c) => OpView::Replace(c@),
        ListOp::Split(b, a, id) => OpView::Split(b@, a@, id.0),
        ListOp::Merge => OpView::Merge,
        ListOp::Delete => OpView::Delete,
    }
}

/// A new item with text `c`, the given level and marker, nothing below it.
pub open spec fn fresh_item(c: Seq<char>, level: nat, marker: Option<BulletMarker>) -> ItemView {
    ItemView {
        content: c,
        segments: None,
        level,
        children: Seq::empty(),
        nested_content: Seq::empty(),
        marker,
    }
}

/// The list after the change at position `pos`.
pub open spec fn apply_op(l: Seq<(u128, ItemView)>, pos: int, op: OpView) -> Seq<(u128, ItemView)> {
    match op {
        OpView::SetContent(c) => l.update(pos, (l[pos].0, ItemView { content: c, segments: None, ..l[pos].1 })),
        OpView::Replace(c) => l.update(pos, (l[pos].0, ItemView { content: c, ..l[pos].1 })),
        OpView::Split(b, a, id) => l.update(pos, (l[pos].0, ItemView { content: b, segments: None, ..l[pos].1 })).insert(
            pos + 1,
            (id, fresh_item(a, l[pos].1.level, l[pos].1.marker)),
        ),
        OpView::Merge => l.update(
            pos - 1,
            (
                l[pos - 1].0,
                ItemView {
                    content: l[pos - 1].1.content + l[pos].1.content,
                    children: l[pos - 1].1.children + l[pos].1.children,
                    ..l[pos - 1].1
                },
            ),
        ).remove(pos),
        OpView::Delete => l.remove(pos),
    }
}

proof fn lemma_count_concat(a: Seq<(u128, ItemView)>, b: Seq<(u128, ItemView)>)
    ensures
        items_count(a + b) == items_count(a) + items_count(b),
    decreases a.len(),
{
    if a.len() > 0 {
        lemma_count_concat(a.drop_first(), b);
        assert((a + b).drop_first() =~= a.drop_first() + b);
        assert((a + b)[0] == a[0]);
    } else {
        assert(a + b =~= b);
    }
}

proof fn lemma_count_one(x: (u128, ItemView))
    ensures
        items_count(seq![x]) == item_size(x.1),
{
    assert(seq![x].drop_first() =~= Seq::<(u128, ItemView)>::empty());
    assert(items_count(Seq::<(u128, ItemView)>::empty()) == 0);
    assert(seq![x][0] == x);
}

/// Merging a bullet into the one before it loses no item: the list is one
/// item shorter, the items below the list (at any depth) are one fewer, the
/// merged item's text is the two texts one after the other, its children
/// are the previous item's children followed by the removed item's, and the
/// other items stay, in order.
pub proof fn law_merge_keeps_items(l: Seq<(u128, ItemView)>, pos: int)
    requires
        0 < pos < l.len(),
    ensures
        apply_op(l, pos, OpView::Merge).len() + 1 == l.len(),
        items_count(apply_op(l, pos, OpView::Merge)) + 1 == items_count(l),
        apply_op(l, pos, OpView::Merge)[pos - 1].1.content == l[pos - 1].1.content + l[pos].1.content,
        apply_op(l, pos, OpView::Merge)[pos - 1].1.children.take(l[pos - 1].1.children.len() as int) == l[pos
            - 1].1.children,
        apply_op(l, pos, OpView::Merge)[pos - 1].1.children.skip(l[pos - 1].1.children.len() as int) == l[pos].1.children,
        forall|i: int| 0 <= i < pos - 1 ==> #[trigger] apply_op(l, pos, OpView::Merge)[i] == l[i],
        forall|i: int| pos <= i < l.len() - 1 ==> #[trigger] apply_op(l, pos, OpView::Merge)[i] == l[i + 1],
{
    let r = apply_op(l, pos, OpView::Merge);
    let a = l.take(pos - 1);
    let b = l.skip(pos + 1);
    let x = l[pos - 1];
    let y = l[pos];
    let m = r[pos - 1];
    assert(l =~= a + seq![x] + seq![y] + b);
    assert(r =~= a + seq![m] + b);
    lemma_count_concat(a + seq![x] + seq![y], b);
    lemma_count_concat(a + seq![x], seq![y]);
    lemma_count_concat(a, seq![x]);
    lemma_count_concat(a + seq![m], b);
    lemma_count_concat(a, seq![m]);
    lemma_count_one(x);
    lemma_count_one(y);
    lemma_count_one(m);
    lemma_count_concat(x.1.children, y.1.children);
    assert(m.1.children == x.1.children + y.1.children);
    assert(m.1.children.take(x.1.children.len() as int) =~= x.1.children);
    assert(m.1.children.skip(x.1.children.len() as int) =~= y.1.children);
}

/// Appends the items `src` to `dst`.
fn append_items(dst: &mut Vec<(BlockId, ListItem)>, src: Vec<(BlockId, ListItem)>)
    ensures
        final(dst)@ == old(dst)@ + src@,
{
    let ghost start = dst@;
    let ghost orig = src@;
    let mut src = src;
    let n = src.len();
    let mut k: usize = 0;
    while k < n
        invariant
            n == orig.len(),
            0 <= k <= n,
            src@ == orig.skip(k as int),
            dst@ == start + orig.take(k as int),
        decreases n - k,
    {
        assert(src@[0] == orig[k as int]);
        let x = src.remove(0);
        dst.push(x);
        k = k + 1;
        assert(src@ =~= orig.skip(k as int));
        assert(dst@ =~= start + orig.take(k as int));
    }
    assert(orig.take(n as int) =~= orig);
}

/// Text `a` followed by text `b`.
fn concat_strings(a: &String, b: &String) -> (r: String)
    ensures
        r@ == a@ + b@,
{
    let mut v = crate::models::chars::str_to_chars(a.as_str());
    crate::models::chars::push_str(&mut v, b.as_str());
    crate::models::chars::chars_to_string(v.as_slice())
}

/// Makes the change at position `pos` of the list.
fn apply_list_op(items: &mut Vec<(BlockId, ListItem)>, pos: usize, op: ListOp)
    requires
        pos < old(items)@.len(),
        op is Merge ==> pos > 0,
    ensures
        items_view(final(items)@) == apply_op(items_view(old(items)@), pos as int, op_view(op)),
{
    let ghost v = items_view(items@);
    proof {
        lemma_items_view_len(items@);
        lemma_items_view_index(items@, pos as int);
    }
    match op {
        ListOp::SetContent(c) => {
            let ghost before = items@;
            let (id, mut it) = items.remove(pos);
            it.content = c;
            it.segments = None;
            items.insert(pos, (id, it));
            proof {
                assert(items@ =~= before.update(pos as int, (id, it)));
                lemma_items_view_update(before, pos as int, (id, it));
            }
        },
        ListOp::Replace(c) => {
            let ghost before = items@;
            let (id, mut it) = items.remove(pos);
            it.content = c;
            items.insert(pos, (id, it));
            proof {
                assert(items@ =~= before.update(pos as int, (id, it)));
                lemma_items_view_update(before, pos as int, (id, it));
            }
        },
        ListOp::Split(b, a, nid) => {
            let ghost before = items@;
            let (id, mut it) = items.remove(pos);
            let level = it.level;
            let marker = it.marker;
            it.content = b;
            it.segments = None;
            items.insert(pos, (id, it));
            proof {
                assert(items@ =~= before.update(pos as int, (id, it)));
                lemma_items_view_update(before, pos as int, (id, it));
            }
            let fresh = ListItem {
                content: a,
                segments: None,
                level,
                children: Vec::new(),
                nested_content: Vec::new(),
                marker,
            };
            proof {
                lemma_items_view_len(fresh.children@);
                assert(items_view(fresh.children@) =~= Seq::<(u128, ItemView)>::empty());
                assert(item_view(fresh) == fresh_item(a@, level as nat, marker));
            }
            let ghost mid = items@;
            let n = items.len();
            assert(pos < n);
            items.insert(pos + 1, (nid, fresh));
            proof {
                lemma_items_view_insert(mid, pos + 1, (nid, fresh));
            }
        },
        ListOp::Merge => {
            let ghost before = items@;
            proof {
                lemma_items_view_index(items@, pos - 1);
            }
            let (cid, cur) = items.remove(pos);
            let (pid, mut prev) = items.remove(pos - 1);
            let merged_content = concat_strings(&prev.content, &cur.content);
            prev.content = merged_content;
            let ghost prev_children = prev.children@;
            append_items(&mut prev.children, cur.children);
            proof {
                lemma_items_view_concat(prev_children, cur.children@);
            }
            items.insert(pos - 1, (pid, prev));
            proof {
                assert(items@ =~= before.update(pos - 1, (pid, prev)).remove(pos as int));
                lemma_items_view_update(before, pos - 1, (pid, prev));
                lemma_items_view_remove(before.update(pos - 1, (pid, prev)), pos as int);
            }
        },
        ListOp::Delete => {
            let ghost before = items@;
            items.remove(pos);
            proof {
                lemma_items_view_remove(before, pos as int);
            }
        },
    }
}

/// Makes the change at position `pos` of the list that the path
/// `path[k..]` leads to.
fn modify_at(items: &mut Vec<(BlockId, ListItem)>, path: &Vec<usize>, k: usize, pos: usize, op: ListOp)
    requires
        k <= path@.len(),
        valid_path(items_view(old(items)@), ints(path@).skip(k as int)),
        0 <= pos < at_path(items_view(old(items)@), ints(path@).skip(k as int)).len(),
        op is Merge ==> pos > 0,
    ensures
        items_view(final(items)@) == replace_at(
            items_view(old(items)@),
            ints(path@).skip(k as int),
            apply_op(at_path(items_view(old(items)@), ints(path@).skip(k as int)), pos as int, op_view(op)),
        ),
    decreases path@.len() - k,
{
    let ghost v = items_view(items@);
    let ghost p = ints(path@).skip(k as int);
    proof {
        lemma_items_view_len(items@);
    }
    if k == path.len() {
        assert(p.len() == 0);
        apply_list_op(items, pos, op);
        return;
    }
    let i = path[k];
    assert(p[0] == i as int);
    assert(p.drop_first() =~= ints(path@).skip(k + 1));
    proof {
        lemma_child_view(items@, i as int);
    }
    let ghost before = items@;
    let (cid, mut child) = items.remove(i);
    let ghost old_child = child;
    modify_at(&mut child.children, path, k + 1, pos, op);
    items.insert(i, (cid, child));
    proof {
        assert(items@ =~= before.update(i as int, (cid, child)));
        lemma_items_view_update(before, i as int, (cid, child));
        assert(item_view(child) == ItemView { children: items_view(child.children@), ..item_view(old_child) });
    }
}

/// The state of an open document.
#[derive(Debug)]
pub struct DocumentState {
    pub path: String,
    pub blocks: Vec<(BlockId, ContentBlock)>,
    /// The block being edited and its raw markdown.
    pub editing_block: Option<(BlockId, String)>,
    /// The block selected for keyboard navigation.
    pub selected_block: Option<BlockId>,
}

/// The identifier and value of each block.
pub open spec fn entries_view(s: Seq<(BlockId, ContentBlock)>) -> Seq<(u128, BlockView)> {
    s.map_values(|e: (BlockId, ContentBlock)| (e.0.0, block_view(e.1)))
}

/// The block and, in its items, the path and position where `id` is found,
/// looking at the blocks from `j` on.
pub open spec fn doc_find(bs: Seq<(u128, BlockView)>, id: u128, s: Search, j: int) -> Option<(int, Seq<int>, int)>
    decreases bs.len() - j,
{
    if j < 0 || j >= bs.len() {
        None
    } else {
        match list_items(bs[j].1) {
            Some(items) => match search(items, id, s) {
                Some((p, pos)) => Some((j, p, pos)),
                None => doc_find(bs, id, s, j + 1),
            },
            None => doc_find(bs, id, s, j + 1),
        }
    }
}

/// The blocks after the change at the item found at block `j`, path `p`,
/// position `pos`.
pub open spec fn doc_apply(bs: Seq<(u128, BlockView)>, j: int, p: Seq<int>, pos: int, op: OpView) -> Seq<(u128, BlockView)> {
    let items = list_items(bs[j].1)->0;
    bs.update(j, (bs[j].0, with_items(bs[j].1, replace_at(items, p, apply_op(at_path(items, p), pos, op)))))
}

/// The item found at block `j`, path `p`, position `pos`.
pub open spec fn doc_item(bs: Seq<(u128, BlockView)>, j: int, p: Seq<int>, pos: int) -> ItemView {
    at_path(list_items(bs[j].1)->0, p)[pos].1
}

/// The position of the first block with identifier `id`.
pub open spec fn entry_pos(bs: Seq<(u128, BlockView)>, id: u128) -> Option<int>
    decreases bs.len(),
{
    if bs.len() == 0 {
        None
    } else if bs[0].0 == id {
        Some(0)
    } else {
        match entry_pos(bs.drop_first(), id) {
            Some(p) => Some(p + 1),
            None => None,
        }
    }
}

pub proof fn lemma_entry_pos(bs: Seq<(u128, BlockView)>, id: u128)
    ensures
        match entry_pos(bs, id) {
            Some(p) => 0 <= p < bs.len() && bs[p].0 == id && forall|j: int| 0 <= j < p ==> bs[j].0 != id,
            None => forall|j: int| 0 <= j < bs.len() ==> bs[j].0 != id,
        },
    decreases bs.len(),
{
    if bs.len() > 0 {
        lemma_entry_pos(bs.drop_first(), id);
        assert forall|j: int| 0 < j < bs.len() implies bs[j] == bs.drop_first()[j - 1] by {}
    }
}

pub proof fn lemma_doc_find(bs: Seq<(u128, BlockView)>, id: u128, s: Search, j: int)
    ensures
        match doc_find(bs, id, s, j) {
            Some((b, p, pos)) => 0 <= b < bs.len() && list_items(bs[b].1) is Some && valid_path(
                list_items(bs[b].1)->0,
                p,
            ) && 0 <= pos < at_path(list_items(bs[b].1)->0, p).len() && (s == Search::BulletsAfterFirst ==> pos
                > 0) && at_path(list_items(bs[b].1)->0, p)[pos].0 == id,
            None => true,
        },
    decreases bs.len() - j,
{
    if 0 <= j < bs.len() {
        lemma_doc_find(bs, id, s, j + 1);
        match list_items(bs[j].1) {
            Some(items) => lemma_search(items, id, s),
            None => {},
        }
    }
}

/// The position of the first block with identifier `id`.
fn find_entry(blocks: &Vec<(BlockId, ContentBlock)>, id: BlockId) -> (r: Option<usize>)
    ensures
        match entry_pos(entries_view(blocks@), id.0) {
            Some(p) => r is Some && r->0 as int == p,
            None => r is None,
        },
{
    let ghost v = entries_view(blocks@);
    proof {
        lemma_entry_pos(v, id.0);
    }
    let mut i: usize = 0;
    while i < blocks.len()
        invariant
            v == entries_view(blocks@),
            0 <= i <= blocks@.len(),
            forall|j: int| 0 <= j < i ==> v[j].0 != id.0,
            match entry_pos(v, id.0) {
                Some(p) => 0 <= p < v.len() && v[p].0 == id.0 && forall|j: int| 0 <= j < p ==> v[j].0 != id.0,
                None => forall|j: int| 0 <= j < v.len() ==> v[j].0 != id.0,
            },
        decreases blocks@.len() - i,
    {
        assert(v[i as int].0 == blocks@[i as int].0.0);
        if blocks[i].0.0 == id.0 {
            return Some(i);
        }
        i = i + 1;
    }
    None
}

/// The items of a list block.
fn block_items(b: &ContentBlock) -> (r: Option<&Vec<(BlockId, ListItem)>>)
    ensures
        match list_items(block_view(*b)) {
            Some(items) => r is Some && items_view(r->0@) == items,
            None => r is None,
        },
{
    match b {
        ContentBlock::BulletList { items } => Some(items),
        ContentBlock::NumberedList { items } => Some(items),
        _ => None,
    }
}

/// Finds `id` in the items of the blocks, in the given order.
fn locate_in_blocks(blocks: &Vec<(BlockId, ContentBlock)>, id: BlockId, s: Search) -> (r: Option<(usize, Vec<usize>, usize)>)
    ensures
        match doc_find(entries_view(blocks@), id.0, s, 0) {
            Some((j, p, pos)) => r matches Some((rj, rp, rpos)) && rj as int == j && ints(rp@) == p && rpos as int
                == pos,
            None => r is None,
        },
{
    let ghost v = entries_view(blocks@);
    let mut j: usize = 0;
    while j < blocks.len()
        invariant
            v == entries_view(blocks@),
            0 <= j <= blocks@.len(),
            doc_find(v, id.0, s, 0) == doc_find(v, id.0, s, j as int),
        decreases blocks@.len() - j,
    {
        match block_items(&blocks[j].1) {
            Some(items) => {
                match locate(items, id, s) {
                    Some((p, pos)) => {
                        return Some((j, p, pos));
                    },
                    None => {},
                }
            },
            None => {},
        }
        j = j + 1;
    }
    None
}

/// The block with its items changed at the found place.
fn change_block(block: ContentBlock, path: &Vec<usize>, pos: usize, op: ListOp) -> (r: ContentBlock)
    requires
        list_items(block_view(block)) is Some,
        valid_path(list_items(block_view(block))->0, ints(path@)),
        0 <= pos < at_path(list_items(block_view(block))->0, ints(path@)).len(),
        op is Merge ==> pos > 0,
    ensures
        ({
            let items = list_items(block_view(block))->0;
            block_view(r) == with_items(
                block_view(block),
                replace_at(items, ints(path@), apply_op(at_path(items, ints(path@)), pos as int, op_view(op))),
            )
        }),
{
    assert(ints(path@).skip(0) =~= ints(path@));
    match block {
        ContentBlock::BulletList { items } => {
            let mut items = items;
            modify_at(&mut items, path, 0, pos, op);
            ContentBlock::BulletList { items }
        },
        ContentBlock::NumberedList { items } => {
            let mut items = items;
            modify_at(&mut items, path, 0, pos, op);
            ContentBlock::NumberedList { items }
        },
        _ => block,
    }
}

/// Makes the change at the item `id`, found in the given order; whether it
/// was found.
fn change_in_blocks(blocks: &mut Vec<(BlockId, ContentBlock)>, id: BlockId, s: Search, op: ListOp) -> (found: bool)
    requires
        op is Merge ==> s == Search::BulletsAfterFirst,
    ensures
        match doc_find(entries_view(old(blocks)@), id.0, s, 0) {
            Some((j, p, pos)) => found && entries_view(final(blocks)@) == doc_apply(
                entries_view(old(blocks)@),
                j,
                p,
                pos,
                op_view(op),
            ),
            None => !found && final(blocks)@ == old(blocks)@,
        },
{
    let ghost v = entries_view(blocks@);
    proof {
        lemma_doc_find(v, id.0, s, 0);
    }
    match locate_in_blocks(blocks, id, s) {
        Some((j, path, pos)) => {
            let ghost before = blocks@;
            let (bid, block) = blocks.remove(j);
            assert(v[j as int] == (bid.0, block_view(block)));
            let changed = change_block(block, &path, pos, op);
            blocks.insert(j, (bid, changed));
            assert(entries_view(blocks@) =~= doc_apply(v, j as int, ints(path@), pos as int, op_view(op)));
            true
        },
        None => false,
    }
}

/// The item at the end of the path `path[k..]`, position `pos`.
fn item_at<'a>(items: &'a Vec<(BlockId, ListItem)>, path: &Vec<usize>, k: usize, pos: usize) -> (r: &'a ListItem)
    requires
        k <= path@.len(),
        valid_path(items_view(items@), ints(path@).skip(k as int)),
        0 <= pos < at_path(items_view(items@), ints(path@).skip(k as int)).len(),
    ensures
        item_view(*r) == at_path(items_view(items@), ints(path@).skip(k as int))[pos as int].1,
    decreases path@.len() - k,
{
    let ghost p = ints(path@).skip(k as int);
    proof {
        lemma_items_view_len(items@);
    }
    if k == path.len() {
        assert(p.len() == 0);
        proof {
            lemma_items_view_index(items@, pos as int);
        }
        return &items[pos].1;
    }
    let i = path[k];
    assert(p[0] == i as int);
    assert(p.drop_first() =~= ints(path@).skip(k + 1));
    proof {
        lemma_child_view(items@, i as int);
    }
    item_at(&items[i].1.children, path, k + 1, pos)
}

/// The blocks with the block at `pos` replaced by the new blocks, each with
/// its identifier.
pub open spec fn spliced(
    ev: Seq<(u128, BlockView)>,
    pos: int,
    ids: Seq<BlockId>,
    blocks: Seq<ContentBlock>,
) -> Seq<(u128, BlockView)> {
    ev.take(pos) + Seq::new(blocks.len(), |i: int| (ids[i].0, block_view(blocks[i]))) + ev.skip(pos + 1)
}

/// What a bullet operation looks for and changes, given the identifier of
/// a new bullet.
pub open spec fn bullet_search(op: BulletOperation) -> Search {
    match op {
        BulletOperation::MergeWithPrevious(_) => Search::BulletsAfterFirst,
        _ => Search::Bullets,
    }
}

pub open spec fn bullet_target(op: BulletOperation) -> BlockId {
    match op {
        BulletOperation::UpdateContent(id, _) => id,
        BulletOperation::SplitAtCursor(id, _, _) => id,
        BulletOperation::Indent(id) => id,
        BulletOperation::Outdent(id) => id,
        BulletOperation::MergeWithPrevious(id) => id,
        BulletOperation::DeleteEmpty(id) => id,
    }
}

/// The text before and after a cursor at a character position (clamped to
/// the end).
pub open spec fn split_text(text: Seq<char>, cursor: int) -> (Seq<char>, Seq<char>) {
    let k = if cursor < text.len() { cursor } else { text.len() as int };
    (text.take(k), text.skip(k))
}

pub open spec fn bullet_change(op: BulletOperation, new_id: u128) -> OpView {
    match op {
        BulletOperation::UpdateContent(_, c) => OpView::SetContent(c@),
        BulletOperation::SplitAtCursor(_, c, cursor) => OpView::Split(
            split_text(c@, cursor as int).0,
            split_text(c@, cursor as int).1,
            new_id,
        ),
        BulletOperation::MergeWithPrevious(_) => OpView::Merge,
        _ => OpView::Delete,
    }
}

/// The selection after moving down: the block after the selected one; the
/// first block where none is selected; unchanged at the last block, where
/// the selected block is not there, or where there are no blocks.
pub open spec fn next_selection(blocks: Seq<(BlockId, ContentBlock)>, sel: Option<BlockId>) -> Option<BlockId> {
    let ev = entries_view(blocks);
    if ev.len() == 0 {
        sel
    } else {
        match sel {
            Some(cur) => match entry_pos(ev, cur.0) {
                Some(p) => if p + 1 < ev.len() {
                    Some(blocks[p + 1].0)
                } else {
                    sel
                },
                None => sel,
            },
            None => Some(blocks[0].0),
        }
    }
}

/// The selection after moving up: the block before the selected one; the
/// last block where none is selected; unchanged at the first block, where
/// the selected block is not there, or where there are no blocks.
pub open spec fn previous_selection(blocks: Seq<(BlockId, ContentBlock)>, sel: Option<BlockId>) -> Option<BlockId> {
    let ev = entries_view(blocks);
    if ev.len() == 0 {
        sel
    } else {
        match sel {
            Some(cur) => match entry_pos(ev, cur.0) {
                Some(p) => if p > 0 {
                    Some(blocks[p - 1].0)
                } else {
                    sel
                },
                None => sel,
            },
            None => Some(blocks[ev.len() - 1].0),
        }
    }
}

/// No two blocks share an identifier.
pub open spec fn ids_distinct(blocks: Seq<(BlockId, ContentBlock)>) -> bool {
    forall|i: int, j: int| 0 <= i < j < blocks.len() ==> (#[trigger] blocks[i]).0 != (#[trigger] blocks[j]).0
}

proof fn lemma_entry_pos_distinct(blocks: Seq<(BlockId, ContentBlock)>, k: int)
    requires
        ids_distinct(blocks),
        0 <= k < blocks.len(),
    ensures
        entry_pos(entries_view(blocks), blocks[k].0.0) == Some(k),
{
    let ev = entries_view(blocks);
    lemma_entry_pos(ev, blocks[k].0.0);
    match entry_pos(ev, blocks[k].0.0) {
        Some(p) => {
            if p != k {
                assert(ev[p].0 == blocks[p].0.0);
                assert(blocks[p].0 == blocks[k].0);
            }
        },
        None => {
            assert(ev[k].0 == blocks[k].0.0);
        },
    }
}

/// Moving the selection down and then up comes back to the selected block,
/// where it is not the last block and no two blocks share an identifier.
pub proof fn law_next_then_previous(blocks: Seq<(BlockId, ContentBlock)>, cur: BlockId)
    requires
        ids_distinct(blocks),
        entry_pos(entries_view(blocks), cur.0) matches Some(p) && p + 1 < blocks.len(),
    ensures
        previous_selection(blocks, next_selection(blocks, Some(cur))) == Some(cur),
{
    let ev = entries_view(blocks);
    lemma_entry_pos(ev, cur.0);
    let p = entry_pos(ev, cur.0)->0;
    lemma_entry_pos_distinct(blocks, p + 1);
    assert(ev[p].0 == blocks[p].0.0);
}

/// Moving the selection up and then down comes back to the selected block,
/// where it is not the first block and no two blocks share an identifier.
pub proof fn law_previous_then_next(blocks: Seq<(BlockId, ContentBlock)>, cur: BlockId)
    requires
        ids_distinct(blocks),
        entry_pos(entries_view(blocks), cur.0) matches Some(p) && p > 0,
    ensures
        next_selection(blocks, previous_selection(blocks, Some(cur))) == Some(cur),
{
    let ev = entries_view(blocks);
    lemma_entry_pos(ev, cur.0);
    let p = entry_pos(ev, cur.0)->0;
    lemma_entry_pos_distinct(blocks, p - 1);
    assert(ev[p].0 == blocks[p].0.0);
}

/// Splitting a bullet at a cursor and then merging the new bullet back
/// into it leaves the bullet as setting its whole text would: the text
/// before and after the cursor joined again, its children and the rest of
/// the list unchanged.
pub proof fn law_split_then_merge(l: Seq<(u128, ItemView)>, pos: int, text: Seq<char>, cursor: int, new_id: u128)
    requires
        0 <= pos < l.len(),
        0 <= cursor,
    ensures
        apply_op(
            apply_op(l, pos, OpView::Split(split_text(text, cursor).0, split_text(text, cursor).1, new_id)),
            pos + 1,
            OpView::Merge,
        ) == apply_op(l, pos, OpView::SetContent(text)),
{
    let (b, a) = split_text(text, cursor);
    assert(b + a =~= text);
    let l1 = apply_op(l, pos, OpView::Split(b, a, new_id));
    assert(l1[pos].1.children + l1[pos + 1].1.children =~= l[pos].1.children);
    assert(apply_op(l1, pos + 1, OpView::Merge) =~= apply_op(l, pos, OpView::SetContent(text)));
}

/// Opening a document for editing and saving it again gives back its path
/// and its blocks.
pub proof fn law_document_roundtrip(d: Document, st: DocumentState, d2: Document)
    requires
        st.path == d.path,
        st.blocks@.len() == d.content@.len(),
        forall|i: int| 0 <= i < st.blocks@.len() ==> (#[trigger] st.blocks@[i]).1 == d.content@[i],
        d2.path == st.path,
        d2.content@.len() == st.blocks@.len(),
        forall|i: int| 0 <= i < d2.content@.len() ==> block_view(#[trigger] d2.content@[i]) == block_view(st.blocks@[i].1),
    ensures
        d2.path == d.path,
        blocks_view(d2.content@) == blocks_view(d.content@),
{
    lemma_blocks_view_len(d.content@);
    lemma_blocks_view_len(d2.content@);
    assert forall|i: int| 0 <= i < d.content@.len() implies blocks_view(d2.content@)[i] == blocks_view(d.content@)[i] by {
        lemma_blocks_view_index(d.content@, i);
        lemma_blocks_view_index(d2.content@, i);
    }
    assert(blocks_view(d2.content@) =~= blocks_view(d.content@));
}

/// What finishing an edit of `id` with `content`, read as `new_blocks`,
/// leaves: a block is replaced by the new blocks, each with a new
/// identifier, the first selected, where there are any; else the list item
/// `id`, found as editing finds it, takes the text. The identifiers of what
/// now stands there are `r`; editing ends.
pub open spec fn finish_outcome(
    before: DocumentState,
    after: DocumentState,
    id: BlockId,
    content: Seq<char>,
    new_blocks: Seq<ContentBlock>,
    r: Seq<BlockId>,
) -> bool {
    let ev = entries_view(before.blocks@);
    &&& after.editing_block is None
    &&& after.path == before.path
    &&& if entry_pos(ev, id.0) is Some && new_blocks.len() > 0 {
        &&& r.len() == new_blocks.len()
        &&& entries_view(after.blocks@) == spliced(ev, entry_pos(ev, id.0)->0, r, new_blocks)
        &&& after.selected_block == Some(r[0])
    } else {
        &&& after.selected_block == before.selected_block
        &&& match doc_find(ev, id.0, Search::Editing, 0) {
            Some((j, p, pos)) => r == seq![id] && entries_view(after.blocks@) == doc_apply(
                ev,
                j,
                p,
                pos,
                OpView::Replace(content),
            ),
            None => r.len() == 0 && after.blocks@ == before.blocks@,
        }
    }
}

impl DocumentState {
    pub fn from_document(document: Document) -> (st: DocumentState)
        ensures
            st.path == document.path,
            st.editing_block is None,
            st.selected_block is None,
            st.blocks@.len() == document.content@.len(),
            forall|i: int| 0 <= i < st.blocks@.len() ==> (#[trigger] st.blocks@[i]).1 == document.content@[i],
    {
        let Document { path, content } = document;
        let ghost orig = content@;
        let mut content = content;
        let mut blocks: Vec<(BlockId, ContentBlock)> = Vec::new();
        let n = content.len();
        let mut i: usize = 0;
        while i < n
            invariant
                n == orig.len(),
                0 <= i <= n,
                content@ == orig.skip(i as int),
                blocks@.len() == i,
                forall|k: int| 0 <= k < i ==> (#[trigger] blocks@[k]).1 == orig[k],
            decreases n - i,
        {
            assert(content@[0] == orig[i as int]);
            let b = content.remove(0);
            blocks.push((BlockId::new(), b));
            i = i + 1;
            assert(content@ =~= orig.skip(i as int));
        }
        DocumentState { path, blocks, editing_block: None, selected_block: None }
    }

    pub fn to_document(&self) -> (d: Document)
        ensures
            d.path == self.path,
            d.content@.len() == self.blocks@.len(),
            forall|i: int| 0 <= i < d.content@.len() ==> block_view(#[trigger] d.content@[i]) == block_view(self.blocks@[i].1),
    {
        let mut content: Vec<ContentBlock> = Vec::new();
        let mut i: usize = 0;
        while i < self.blocks.len()
            invariant
                0 <= i <= self.blocks@.len(),
                content@.len() == i,
                forall|k: int| 0 <= k < i ==> block_view(#[trigger] content@[k]) == block_view(self.blocks@[k].1),
            decreases self.blocks@.len() - i,
        {
            content.push(clone_block(&self.blocks[i].1));
            i = i + 1;
        }
        Document { path: self.path.clone(), content }
    }

    /// Starts editing the block `block_id` with its markdown, or the list
    /// item `block_id` with its text; nothing happens where there is none.
    pub fn start_editing(&mut self, block_id: BlockId)
        ensures
            final(self).blocks == old(self).blocks,
            final(self).path == old(self).path,
            final(self).selected_block == old(self).selected_block,
            ({
                let ev = entries_view(old(self).blocks@);
                match entry_pos(ev, block_id.0) {
                    Some(j) => final(self).editing_block matches Some((eid, c)) && eid == block_id && c@ == block_md(ev[j].1),
                    None => match doc_find(ev, block_id.0, Search::Editing, 0) {
                        Some((j, p, pos)) => final(self).editing_block matches Some((eid, c)) && eid == block_id
                            && c@ == doc_item(ev, j, p, pos).content,
                        None => final(self).editing_block == old(self).editing_block,
                    },
                }
            }),
    {
        let ghost ev = entries_view(self.blocks@);
        proof {
            lemma_entry_pos(ev, block_id.0);
        }
        match find_entry(&self.blocks, block_id) {
            Some(j) => {
                let md = self.blocks[j].1.to_markdown();
                self.editing_block = Some((block_id, md));
                return;
            },
            None => {},
        }
        proof {
            lemma_doc_find(ev, block_id.0, Search::Editing, 0);
        }
        match locate_in_blocks(&self.blocks, block_id, Search::Editing) {
            Some((j, path, pos)) => {
                let items = block_items(&self.blocks[j].1).unwrap();
                assert(ints(path@).skip(0) =~= ints(path@));
                let item = item_at(items, &path, 0, pos);
                let c = item.content.clone();
                self.editing_block = Some((block_id, c));
            },
            None => {},
        }
    }

    /// Finishes editing `block_id` with `new_content`, whose blocks are
    /// `new_blocks`: a block is replaced by the new blocks, each with a new
    /// identifier, the first selected, where there are any; else the list
    /// item `block_id` takes the text. The identifiers of what now stands
    /// there; editing ends.
    pub fn finish_editing_with(&mut self, block_id: BlockId, new_content: String, new_blocks: Vec<ContentBlock>) -> (r: Vec<BlockId>)
        ensures
            finish_outcome(*old(self), *final(self), block_id, new_content@, new_blocks@, r@),
    {
        let ghost ev = entries_view(self.blocks@);
        proof {
            lemma_entry_pos(ev, block_id.0);
        }
        let found = find_entry(&self.blocks, block_id);
        if found.is_some() && new_blocks.len() > 0 {
            let pos = found.unwrap();
            let ghost orig = new_blocks@;
            let mut new_blocks = new_blocks;
            self.blocks.remove(pos);
            assert(entries_view(self.blocks@) =~= ev.take(pos as int) + ev.skip(pos + 1));
            let mut ids: Vec<BlockId> = Vec::new();
            let n = new_blocks.len();
            let mut i: usize = 0;
            while i < n
                invariant
                    n == orig.len(),
                    0 <= i <= n,
                    pos < ev.len(),
                    new_blocks@ == orig.skip(i as int),
                    ids@.len() == i,
                    self.blocks@.len() == ev.len() - 1 + i,
                    self.path == old(self).path,
                    entries_view(self.blocks@) == ev.take(pos as int) + Seq::new(
                        i as nat,
                        |k: int| (ids@[k].0, block_view(orig[k])),
                    ) + ev.skip(pos + 1),
                decreases n - i,
            {
                assert(new_blocks@[0] == orig[i as int]);
                let b = new_blocks.remove(0);
                let nid = BlockId::new();
                let ghost prev_blocks = self.blocks@;
                let ghost mid = Seq::new(i as nat, |k: int| (ids@[k].0, block_view(orig[k])));
                let cur_len = self.blocks.len();
                assert(pos + i <= cur_len);
                self.blocks.insert(pos + i, (nid, b));
                ids.push(nid);
                proof {
                    let x = (nid.0, block_view(b));
                    let mid2 = Seq::new((i + 1) as nat, |k: int| (ids@[k].0, block_view(orig[k])));
                    assert(mid2 =~= mid.push(x));
                    assert(entries_view(self.blocks@) =~= entries_view(prev_blocks).insert(pos + i, x));
                    assert((ev.take(pos as int) + mid + ev.skip(pos + 1)).insert(pos + i, x) =~= ev.take(pos as int)
                        + mid.push(x) + ev.skip(pos + 1));
                }
                i = i + 1;
                assert(new_blocks@ =~= orig.skip(i as int));
            }
            self.editing_block = None;
            self.selected_block = Some(ids[0]);
            return ids;
        }
        proof {
            lemma_doc_find(ev, block_id.0, Search::Editing, 0);
        }
        let changed = change_in_blocks(&mut self.blocks, block_id, Search::Editing, ListOp::Replace(new_content));
        self.editing_block = None;
        if changed {
            let mut r: Vec<BlockId> = Vec::new();
            r.push(block_id);
            assert(r@ =~= seq![block_id]);
            r
        } else {
            Vec::new()
        }
    }

    /// Finishes editing `block_id` with `new_content`: a block is replaced
    /// by the blocks the text is read as, each with a new identifier, the
    /// first selected, where there are any; else the list item `block_id`
    /// takes the text. The identifiers of what now stands there; editing
    /// ends.
    pub fn finish_editing(&mut self, block_id: BlockId, new_content: String) -> (r: Vec<BlockId>)
        ensures
            exists|nb: Seq<ContentBlock>|
                {
                    &&& nb.len() == multiple_blocks(new_content@).len()
                    &&& forall|i: int| 0 <= i < nb.len() ==> ids_zero(block_view(#[trigger] nb[i])) == multiple_blocks(new_content@)[i]
                    &&& finish_outcome(*old(self), *final(self), block_id, new_content@, nb, r@)
                },
    {
        let new_blocks = parse_multiple_blocks(new_content.as_str());
        let ghost nb = new_blocks@;
        let r = self.finish_editing_with(block_id, new_content, new_blocks);
        assert(finish_outcome(*old(self), *self, block_id, new_content@, nb, r@));
        r
    }

    /// The raw markdown being edited, where `block_id` is being edited.
    pub fn is_editing(&self, block_id: BlockId) -> (r: Option<&String>)
        ensures
            match self.editing_block {
                Some((eid, c)) => if eid == block_id {
                    r == Some(&c)
                } else {
                    r is None
                },
                None => r is None,
            },
    {
        match &self.editing_block {
            Some((eid, c)) => if eid.0 == block_id.0 {
                Some(c)
            } else {
                None
            },
            None => None,
        }
    }

    /// Adds a block at the end, with a new identifier.
    pub fn insert_block_at_end(&mut self, new_block: ContentBlock) -> (r: BlockId)
        ensures
            final(self).blocks@ == old(self).blocks@.push((r, new_block)),
            final(self).path == old(self).path,
            final(self).editing_block == old(self).editing_block,
            final(self).selected_block == old(self).selected_block,
    {
        let block_id = BlockId::new();
        self.blocks.push((block_id, new_block));
        block_id
    }

    /// Adds a block at the start, with a new identifier.
    pub fn insert_block_at_start(&mut self, new_block: ContentBlock) -> (r: BlockId)
        ensures
            final(self).blocks@ == old(self).blocks@.insert(0, (r, new_block)),
            final(self).path == old(self).path,
            final(self).editing_block == old(self).editing_block,
            final(self).selected_block == old(self).selected_block,
    {
        let block_id = BlockId::new();
        self.blocks.insert(0, (block_id, new_block));
        block_id
    }

    /// Adds a block, with a new identifier, after the block `after_id`;
    /// nothing happens where there is none.
    pub fn insert_block_after(&mut self, after_id: BlockId, new_block: ContentBlock) -> (r: Option<BlockId>)
        ensures
            final(self).path == old(self).path,
            final(self).editing_block == old(self).editing_block,
            final(self).selected_block == old(self).selected_block,
            match entry_pos(entries_view(old(self).blocks@), after_id.0) {
                Some(p) => r matches Some(id) && final(self).blocks@ == old(self).blocks@.insert(p + 1, (id, new_block)),
                None => r is None && final(self).blocks@ == old(self).blocks@,
            },
    {
        proof {
            lemma_entry_pos(entries_view(self.blocks@), after_id.0);
        }
        match find_entry(&self.blocks, after_id) {
            Some(p) => {
                let block_id = BlockId::new();
                let n = self.blocks.len();
                assert(p < n);
                self.blocks.insert(p + 1, (block_id, new_block));
                Some(block_id)
            },
            None => None,
        }
    }

    /// Adds a block, with a new identifier, before the block `before_id`;
    /// nothing happens where there is none.
    pub fn insert_block_before(&mut self, before_id: BlockId, new_block: ContentBlock) -> (r: Option<BlockId>)
        ensures
            final(self).path == old(self).path,
            final(self).editing_block == old(self).editing_block,
            final(self).selected_block == old(self).selected_block,
            match entry_pos(entries_view(old(self).blocks@), before_id.0) {
                Some(p) => r matches Some(id) && final(self).blocks@ == old(self).blocks@.insert(p, (id, new_block)),
                None => r is None && final(self).blocks@ == old(self).blocks@,
            },
    {
        proof {
            lemma_entry_pos(entries_view(self.blocks@), before_id.0);
        }
        match find_entry(&self.blocks, before_id) {
            Some(p) => {
                let block_id = BlockId::new();
                self.blocks.insert(p, (block_id, new_block));
                Some(block_id)
            },
            None => None,
        }
    }

    pub fn select_block(&mut self, block_id: BlockId)
        ensures
            final(self).selected_block == Some(block_id),
            final(self).blocks == old(self).blocks,
            final(self).path == old(self).path,
            final(self).editing_block == old(self).editing_block,
    {
        self.selected_block = Some(block_id);
    }

    pub fn selected_block(&self) -> (r: Option<BlockId>)
        ensures
            r == self.selected_block,
    {
        self.selected_block
    }

    /// Moves the selection to the next block; with none selected, to the
    /// first block.
    pub fn select_next_block(&mut self)
        ensures
            final(self).blocks == old(self).blocks,
            final(self).path == old(self).path,
            final(self).editing_block == old(self).editing_block,
            final(self).selected_block == next_selection(old(self).blocks@, old(self).selected_block),
    {
        if self.blocks.len() == 0 {
            return;
        }
        proof {
            lemma_entry_pos(entries_view(self.blocks@), 0);
        }
        match self.selected_block {
            Some(cur) => {
                proof {
                    lemma_entry_pos(entries_view(self.blocks@), cur.0);
                }
                match find_entry(&self.blocks, cur) {
                    Some(p) => {
                        if p + 1 < self.blocks.len() {
                            self.selected_block = Some(self.blocks[p + 1].0);
                        }
                    },
                    None => {},
                }
            },
            None => {
                self.selected_block = Some(self.blocks[0].0);
            },
        }
    }

    /// Moves the selection to the previous block; with none selected, to the
    /// last block.
    pub fn select_previous_block(&mut self)
        ensures
            final(self).blocks == old(self).blocks,
            final(self).path == old(self).path,
            final(self).editing_block == old(self).editing_block,
            final(self).selected_block == previous_selection(old(self).blocks@, old(self).selected_block),
    {
        if self.blocks.len() == 0 {
            return;
        }
        match self.selected_block {
            Some(cur) => {
                proof {
                    lemma_entry_pos(entries_view(self.blocks@), cur.0);
                }
                match find_entry(&self.blocks, cur) {
                    Some(p) => {
                        if p > 0 {
                            self.selected_block = Some(self.blocks[p - 1].0);
                        }
                    },
                    None => {},
                }
            },
            None => {
                let last = self.blocks.len() - 1;
                self.selected_block = Some(self.blocks[last].0);
            },
        }
    }

    /// Starts editing the selected block; whether one is selected.
    pub fn start_editing_selected(&mut self) -> (r: bool)
        ensures
            r == old(self).selected_block is Some,
            final(self).path == old(self).path,
            final(self).blocks == old(self).blocks,
            final(self).selected_block == old(self).selected_block,
            ({
                let ev = entries_view(old(self).blocks@);
                match old(self).selected_block {
                    Some(id) => match entry_pos(ev, id.0) {
                        Some(j) => final(self).editing_block matches Some((eid, c)) && eid == id && c@ == block_md(ev[j].1),
                        None => match doc_find(ev, id.0, Search::Editing, 0) {
                            Some((j, p, pos)) => final(self).editing_block matches Some((eid, c)) && eid == id
                                && c@ == doc_item(ev, j, p, pos).content,
                            None => final(self).editing_block == old(self).editing_block,
                        },
                    },
                    None => final(self).editing_block == old(self).editing_block,
                }
            }),
    {
        match self.selected_block {
            Some(id) => {
                self.start_editing(id);
                true
            },
            None => false,
        }
    }

    /// Carries out a bullet operation; whether its bullet was found.
    /// Indenting and outdenting are not available.
    pub fn execute_bullet_operation(&mut self, operation: BulletOperation) -> (r: bool)
        requires
            !(operation is Indent),
            !(operation is Outdent),
        ensures
            final(self).path == old(self).path,
            final(self).selected_block == old(self).selected_block,
            operation is SplitAtCursor ==> final(self).editing_block == old(self).editing_block,
            !(operation is SplitAtCursor) ==> final(self).editing_block is None,
            ({
                let ev = entries_view(old(self).blocks@);
                match doc_find(ev, bullet_target(operation).0, bullet_search(operation), 0) {
                    Some((j, p, pos)) => r && exists|nid: u128| entries_view(final(self).blocks@) == doc_apply(
                        ev,
                        j,
                        p,
                        pos,
                        #[trigger] bullet_change(operation, nid),
                    ),
                    None => !r && final(self).blocks@ == old(self).blocks@,
                }
            }),
    {
        let ghost ev = entries_view(self.blocks@);
        let ghost opv = operation;
        match operation {
            BulletOperation::UpdateContent(block_id, content) => {
                self.editing_block = None;
                change_in_blocks(&mut self.blocks, block_id, Search::Bullets, ListOp::SetContent(content))
            },
            BulletOperation::SplitAtCursor(block_id, content, cursor_pos) => {
                let (before, after) = split_string_at_position(content.as_str(), cursor_pos);
                let new_id = BlockId::new();
                assert(op_view(ListOp::Split(before, after, new_id)) == bullet_change(opv, new_id.0));
                change_in_blocks(&mut self.blocks, block_id, Search::Bullets, ListOp::Split(before, after, new_id))
            },
            BulletOperation::MergeWithPrevious(block_id) => {
                self.editing_block = None;
                assert(op_view(ListOp::Merge) == bullet_change(opv, 0));
                change_in_blocks(&mut self.blocks, block_id, Search::BulletsAfterFirst, ListOp::Merge)
            },
            BulletOperation::DeleteEmpty(block_id) => {
                self.editing_block = None;
                assert(op_view(ListOp::Delete) == bullet_change(opv, 0));
                change_in_blocks(&mut self.blocks, block_id, Search::Bullets, ListOp::Delete)
            },
            _ => false,
        }
    }
}

} // verus!
