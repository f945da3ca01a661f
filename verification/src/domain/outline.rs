//! Putting outline items in a hierarchy.
use super::models::{assoc_map, OutlineItem};
use vstd::prelude::*;

verus! {

/// The value of an outline item.
pub struct OutlineView {
    pub content: Seq<char>,
    pub level: nat,
    pub children: Seq<OutlineView>,
    pub metadata: Map<Seq<char>, Seq<char>>,
}

pub open spec fn outline_view(item: OutlineItem) -> OutlineView
    decreases item, 1nat,
{
    OutlineView {
        content: item.content@,
        level: item.level as nat,
        children: outlines_view(item.children@),
        metadata: assoc_map(item.metadata@),
    }
}

pub open spec fn outlines_view(s: Seq<OutlineItem>) -> Seq<OutlineView>
    decreases s, 0nat,
{
    if s.len() == 0 {
        Seq::empty()
    } else {
        seq![outline_view(s[0])] + outlines_view(s.drop_first())
    }
}

pub proof fn lemma_outlines_view(s: Seq<OutlineItem>)
    ensures
        outlines_view(s).len() == s.len(),
        forall|i: int| 0 <= i < s.len() ==> #[trigger] outlines_view(s)[i] == outline_view(s[i]),
    decreases s.len(),
{
    if s.len() > 0 {
        lemma_outlines_view(s.drop_first());
        assert forall|i: int| 0 <= i < s.len() implies #[trigger] outlines_view(s)[i] == outline_view(s[i]) by {
            if i > 0 {
                assert(s.drop_first()[i - 1] == s[i]);
            }
        }
    }
}

pub proof fn lemma_outlines_view_push(s: Seq<OutlineItem>, x: OutlineItem)
    ensures
        outlines_view(s.push(x)) == outlines_view(s).push(outline_view(x)),
{
    lemma_outlines_view(s);
    lemma_outlines_view(s.push(x));
    assert(outlines_view(s.push(x)) =~= outlines_view(s).push(outline_view(x)));
}

/// The parent with the items gathered for it as its children.
pub open spec fn with_children(p: OutlineView, children: Seq<OutlineView>) -> OutlineView {
    OutlineView { children, ..p }
}

/// After reading `items` in turn: the finished top-level items, the
/// top-level item still open, and the deeper items gathered since the last
/// top-level item was finished.
pub open spec fn hierarchy_fold(items: Seq<OutlineView>) -> (Seq<OutlineView>, Option<OutlineView>, Seq<OutlineView>)
    decreases items.len(),
{
    if items.len() == 0 {
        (Seq::empty(), None, Seq::empty())
    } else {
        let (done, open, pending) = hierarchy_fold(items.drop_last());
        let it = items.last();
        if it.level > 0 {
            (done, open, pending.push(it))
        } else {
            match open {
                Some(p) => (done.push(with_children(p, pending)), Some(it), Seq::empty()),
                None => (done, Some(it), pending),
            }
        }
    }
}

/// The top-level items (level 0) in their order, each with the deeper items
/// that were gathered for it as its children, in place of the children it
/// had.
pub open spec fn hierarchy(items: Seq<OutlineView>) -> Seq<OutlineView> {
    let (done, open, pending) = hierarchy_fold(items);
    match open {
        Some(p) => done.push(with_children(p, pending)),
        None => done,
    }
}

/// Every item that the fold finishes or keeps open is a top-level item.
proof fn lemma_fold_top(items: Seq<OutlineView>)
    ensures
        forall|i: int| 0 <= i < hierarchy_fold(items).0.len() ==> (#[trigger] hierarchy_fold(items).0[i]).level == 0,
        hierarchy_fold(items).1 matches Some(p) ==> p.level == 0,
    decreases items.len(),
{
    if items.len() > 0 {
        lemma_fold_top(items.drop_last());
    }
}

/// Nesting leaves only top-level items at the top.
pub proof fn law_hierarchy_top_level(items: Seq<OutlineView>)
    ensures
        forall|i: int| 0 <= i < hierarchy(items).len() ==> (#[trigger] hierarchy(items)[i]).level == 0,
{
    lemma_fold_top(items);
}

/// Nests the flat list of items: each item of a level above 0 becomes a
/// child of a top-level item.
pub fn build_hierarchy(items: Vec<OutlineItem>) -> (r: Vec<OutlineItem>)
    ensures
        outlines_view(r@) == hierarchy(outlines_view(items@)),
{
    let ghost orig = items@;
    let ghost ov = outlines_view(orig);
    proof {
        lemma_outlines_view(orig);
        lemma_outlines_view(Seq::<OutlineItem>::empty());
        assert(ov.take(0) =~= Seq::<OutlineView>::empty());
    }
    let mut items = items;
    let mut result: Vec<OutlineItem> = Vec::new();
    let mut open: Option<OutlineItem> = None;
    let mut pending: Vec<OutlineItem> = Vec::new();
    let mut i: usize = 0;
    let n = items.len();
    while i < n
        invariant
            ov == outlines_view(orig),
            ov.len() == orig.len(),
            forall|j: int| 0 <= j < orig.len() ==> #[trigger] ov[j] == outline_view(orig[j]),
            n == orig.len(),
            0 <= i <= n,
            items@ == orig.skip(i as int),
            ({
                let (done, o, p) = hierarchy_fold(ov.take(i as int));
                &&& outlines_view(result@) == done
                &&& outlines_view(pending@) == p
                &&& match open {
                    Some(x) => o == Some(outline_view(x)),
                    None => o is None,
                }
            }),
        decreases n - i,
    {
        assert(items@[0] == orig[i as int]);
        let item = items.remove(0);
        assert(items@ =~= orig.skip(i + 1));
        proof {
            assert(ov.take(i + 1).drop_last() =~= ov.take(i as int));
            assert(ov.take(i + 1).last() == outline_view(item));
        }
        if item.level > 0 {
            proof {
                lemma_outlines_view_push(pending@, item);
            }
            pending.push(item);
        } else {
            match open.take() {
                Some(mut parent) => {
                    parent.children = pending;
                    proof {
                        lemma_outlines_view_push(result@, parent);
                    }
                    result.push(parent);
                    pending = Vec::new();
                    proof {
                        lemma_outlines_view(pending@);
                    }
                },
                None => {},
            }
            open = Some(item);
        }
        i = i + 1;
    }
    assert(ov.take(n as int) =~= ov);
    match open.take() {
        Some(mut parent) => {
            parent.children = pending;
            proof {
                lemma_outlines_view_push(result@, parent);
            }
            result.push(parent);
        },
        None => {},
    }
    result
}

} // verus!
