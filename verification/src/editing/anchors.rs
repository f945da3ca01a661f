//! Anchors: identifiers of text ranges that are kept across edits, and how
//! an identifier is chosen when the blocks of a document are found again.
use super::rope::{delta_steps, delta_transform, offset_from, transformed_offset, DeltaStep, EditDelta};
use std::hash::{Hash, Hasher};
use vstd::prelude::*;

verus! {

/// Unique identifier for an anchor
#[derive(Clone, Copy, Debug, PartialEq, Eq, Hash, Structural)]
pub struct AnchorId(pub u128);

/// Stable identifier for a text range that survives edits
#[derive(Debug, PartialEq)]
pub struct Anchor {
    pub id: AnchorId,
    /// Byte range in the text.
    pub range: std::ops::Range<usize>,
    /// The parse tree node that the anchor was made for.
    pub node_id: Option<usize>,
}

/// Marks identifiers made when a document is first read.
pub const STATIC_MAGIC: u64 = 0x1234567890abcdefu64;

/// Marks identifiers made for blocks that appear while editing.
pub const DYNAMIC_MAGIC: u64 = 0xfedcba0987654321u64;

/// What `std::collections::hash_map::DefaultHasher::new()` finishes with
/// after the four numbers are hashed in turn.
pub uninterp spec fn default_hash4(a: u64, b: usize, c: usize, d: usize) -> u64;

/// `DefaultHasher::new()`, fed `a`, `b`, `c`, `d` in turn with
/// `Hash::hash`, then `Hasher::finish`.
#[verifier::external_body]
fn hash4(a: u64, b: usize, c: usize, d: usize) -> (r: u64)
    ensures
        r == default_hash4(a, b, c, d),
{
    let mut h = std::collections::hash_map::DefaultHasher::new();
    a.hash(&mut h);
    b.hash(&mut h);
    c.hash(&mut h);
    d.hash(&mut h);
    h.finish()
}

/// The length of the part that two byte ranges share.
pub open spec fn range_overlap(a: std::ops::Range<usize>, b: std::ops::Range<usize>) -> int {
    let s = if a.start >= b.start { a.start } else { b.start };
    let e = if a.end <= b.end { a.end } else { b.end };
    if s < e { e - s } else { 0 }
}

/// The overlap of two ranges does not depend on their order, and is no
/// longer than either range.
pub proof fn law_overlap_symmetric(a: std::ops::Range<usize>, b: std::ops::Range<usize>)
    ensures
        range_overlap(a, b) == range_overlap(b, a),
        a.start <= a.end ==> range_overlap(a, b) <= a.end - a.start,
        b.start <= b.end ==> range_overlap(a, b) <= b.end - b.start,
        range_overlap(a, b) >= 0,
{
}

/// Calculate the overlap between two byte ranges
/// Returns the overlapping portion length, or 0 if they don't overlap
pub fn calculate_range_overlap(range1: &std::ops::Range<usize>, range2: &std::ops::Range<usize>) -> (r: usize)
    ensures
        r == range_overlap(*range1, *range2),
{
    let start = if range1.start >= range2.start { range1.start } else { range2.start };
    let end = if range1.end <= range2.end { range1.end } else { range2.end };
    if start < end {
        end - start
    } else {
        0
    }
}

/// Generate a static anchor ID for initial tree creation
pub fn generate_static_anchor_id(index: usize, byte_range: std::ops::Range<usize>) -> (r: AnchorId)
    ensures
        r.0 == default_hash4(STATIC_MAGIC, index, byte_range.start, byte_range.end) as u128,
{
    AnchorId(hash4(STATIC_MAGIC, index, byte_range.start, byte_range.end) as u128)
}

/// Generate a dynamic anchor ID for new blocks created during editing
pub fn generate_dynamic_anchor_id(index: usize, byte_range: std::ops::Range<usize>) -> (r: AnchorId)
    ensures
        r.0 == default_hash4(DYNAMIC_MAGIC, index, byte_range.start, byte_range.end) as u128,
{
    AnchorId(hash4(DYNAMIC_MAGIC, index, byte_range.start, byte_range.end) as u128)
}

/// The identifiers in a list of identifiers.
pub open spec fn id_set(v: Seq<AnchorId>) -> Set<AnchorId> {
    Set::new(|a: AnchorId| exists|j: int| 0 <= j < v.len() && v[j] == a)
}

pub proof fn lemma_id_set_push(v: Seq<AnchorId>, x: AnchorId)
    ensures
        id_set(v.push(x)) == id_set(v).insert(x),
{
    assert forall|y: AnchorId| id_set(v.push(x)).contains(y) <==> id_set(v).insert(x).contains(y) by {
        if id_set(v.push(x)).contains(y) {
            let j = choose|j: int| 0 <= j < v.push(x).len() && v.push(x)[j] == y;
            if j < v.len() {
                assert(v[j] == y);
            }
        }
        if id_set(v).contains(y) {
            let j = choose|j: int| 0 <= j < v.len() && v[j] == y;
            assert(v.push(x)[j] == y);
        }
        if y == x {
            assert(v.push(x)[v.len() as int] == y);
        }
    }
    assert(id_set(v.push(x)) =~= id_set(v).insert(x));
}

/// The first old anchor, from position `k` on, made for node `n` whose
/// identifier is not used yet.
pub open spec fn node_match(old: Seq<Anchor>, n: usize, used: Set<AnchorId>, k: int) -> Option<int>
    decreases old.len() - k,
{
    if k < 0 || k >= old.len() {
        None
    } else if old[k].node_id == Some(n) && !used.contains(old[k].id) {
        Some(k)
    } else {
        node_match(old, n, used, k + 1)
    }
}

/// The identifier that a block found again gets, and whether it reuses an
/// old one: first the old anchor of the same node whose identifier is not
/// used yet; else the old anchor at the same position (by start) if its
/// identifier is not used yet; else a new identifier from the position and
/// range.
pub open spec fn chosen_id(
    node: Option<usize>,
    index: usize,
    old: Seq<Anchor>,
    by_position: Seq<Anchor>,
    range: std::ops::Range<usize>,
    used: Set<AnchorId>,
) -> (AnchorId, bool) {
    let m = match node {
        Some(n) => node_match(old, n, used, 0),
        None => None,
    };
    match m {
        Some(k) => (old[k].id, true),
        None => if index < by_position.len() && !used.contains(by_position[index as int].id) {
            (by_position[index as int].id, true)
        } else {
            (AnchorId(default_hash4(DYNAMIC_MAGIC, index, range.start, range.end) as u128), false)
        },
    }
}

/// Whether `id` is in the list.
fn contains_id(v: &Vec<AnchorId>, id: AnchorId) -> (b: bool)
    ensures
        b == id_set(v@).contains(id),
{
    let mut i: usize = 0;
    while i < v.len()
        invariant
            0 <= i <= v@.len(),
            forall|j: int| 0 <= j < i ==> v@[j] != id,
        decreases v@.len() - i,
    {
        if v[i].0 == id.0 {
            assert(v@[i as int] == id);
            return true;
        }
        i = i + 1;
    }
    false
}

/// Determine anchor ID using completely deterministic rules; a reused
/// identifier is added to `used_old_ids`.
pub fn determine_anchor_id_deterministic(
    new_node_id: Option<usize>,
    position_index: usize,
    old_anchors: &[Anchor],
    old_anchors_by_position: &[Anchor],
    new_range: &std::ops::Range<usize>,
    _semantic_type: &str,
    used_old_ids: &mut Vec<AnchorId>,
) -> (r: AnchorId)
    ensures
        ({
            let (id, reused) = chosen_id(
                new_node_id,
                position_index,
                old_anchors@,
                old_anchors_by_position@,
                *new_range,
                id_set(old(used_old_ids)@),
            );
            &&& r == id
            &&& id_set(final(used_old_ids)@) == if reused {
                id_set(old(used_old_ids)@).insert(id)
            } else {
                id_set(old(used_old_ids)@)
            }
        }),
{
    let ghost used = id_set(used_old_ids@);
    if let Some(node_id) = new_node_id {
        let mut k: usize = 0;
        while k < old_anchors.len()
            invariant
                0 <= k <= old_anchors@.len(),
                used == id_set(used_old_ids@),
                used_old_ids@ == old(used_old_ids)@,
                new_node_id == Some(node_id),
                node_match(old_anchors@, node_id, used, 0) == node_match(old_anchors@, node_id, used, k as int),
            decreases old_anchors@.len() - k,
        {
            let matches_node = match old_anchors[k].node_id {
                Some(n) => n == node_id,
                None => false,
            };
            if matches_node && !contains_id(used_old_ids, old_anchors[k].id) {
                let id = old_anchors[k].id;
                proof {
                    lemma_id_set_push(used_old_ids@, id);
                }
                used_old_ids.push(id);
                return id;
            }
            k = k + 1;
        }
    }
    if position_index < old_anchors_by_position.len() {
        let candidate = old_anchors_by_position[position_index].id;
        if !contains_id(used_old_ids, candidate) {
            proof {
                lemma_id_set_push(used_old_ids@, candidate);
            }
            used_old_ids.push(candidate);
            return candidate;
        }
    }
    let range = new_range.start..new_range.end;
    generate_dynamic_anchor_id(position_index, range)
}

/// Where an entry of key `k` goes into `o`, an order of positions of
/// `keys`: after the last entry whose key is not greater than `k`.
pub open spec fn back_pos(o: Seq<usize>, keys: Seq<usize>, k: usize) -> int
    decreases o.len(),
{
    if o.len() == 0 {
        0
    } else if keys[o.last() as int] > k {
        back_pos(o.drop_last(), keys, k)
    } else {
        o.len() as int
    }
}

/// The positions of `keys` in the order of their keys, equal keys in their
/// own order (the order a stable sort by key gives).
pub open spec fn order_by_key(keys: Seq<usize>) -> Seq<usize>
    decreases keys.len(),
{
    if keys.len() == 0 {
        Seq::empty()
    } else {
        let o = order_by_key(keys.drop_last());
        let i = (keys.len() - 1) as usize;
        o.insert(back_pos(o, keys, keys[i as int]), i)
    }
}

proof fn lemma_back_pos(o: Seq<usize>, keys: Seq<usize>, k: usize)
    ensures
        0 <= back_pos(o, keys, k) <= o.len(),
    decreases o.len(),
{
    if o.len() > 0 {
        lemma_back_pos(o.drop_last(), keys, k);
    }
}

proof fn lemma_back_pos_prefix(o: Seq<usize>, keys: Seq<usize>, k: usize, p: int)
    requires
        0 <= p <= o.len(),
        forall|j: int| p <= j < o.len() ==> keys[o[j] as int] > k,
    ensures
        back_pos(o, keys, k) == back_pos(o.take(p), keys, k),
    decreases o.len() - p,
{
    if p < o.len() {
        assert(o.drop_last().take(p) =~= o.take(p));
        lemma_back_pos_prefix(o.drop_last(), keys, k, p);
    } else {
        assert(o.take(p) =~= o);
    }
}

proof fn lemma_back_pos_keys(o: Seq<usize>, keys: Seq<usize>, keys2: Seq<usize>, k: usize)
    requires
        forall|j: int| 0 <= j < o.len() ==> o[j] < keys.len() && o[j] < keys2.len() && keys[o[j] as int] == keys2[o[j] as int],
    ensures
        back_pos(o, keys, k) == back_pos(o, keys2, k),
    decreases o.len(),
{
    if o.len() > 0 {
        lemma_back_pos_keys(o.drop_last(), keys, keys2, k);
    }
}

/// Positions in the order of their keys, equal keys by position.
pub open spec fn key_sorted(o: Seq<usize>, keys: Seq<usize>) -> bool {
    forall|i: int, j: int|
        0 <= i < j < o.len() ==> keys[#[trigger] o[i] as int] < keys[#[trigger] o[j] as int] || (keys[o[i] as int]
            == keys[o[j] as int] && o[i] < o[j])
}

proof fn lemma_back_pos_split(o: Seq<usize>, keys: Seq<usize>, k: usize)
    requires
        key_sorted(o, keys),
    ensures
        forall|t: int| 0 <= t < back_pos(o, keys, k) ==> keys[#[trigger] o[t] as int] <= k,
        forall|t: int| back_pos(o, keys, k) <= t < o.len() ==> keys[#[trigger] o[t] as int] > k,
    decreases o.len(),
{
    lemma_back_pos(o, keys, k);
    if o.len() > 0 {
        let f = o.drop_last();
        assert(key_sorted(f, keys)) by {
            assert forall|i: int, j: int| 0 <= i < j < f.len() implies keys[#[trigger] f[i] as int] < keys[#[trigger] f[j] as int] || (
            keys[f[i] as int] == keys[f[j] as int] && f[i] < f[j]) by {
                assert(f[i] == o[i] && f[j] == o[j]);
            }
        }
        lemma_back_pos_split(f, keys, k);
        if keys[o.last() as int] > k {
            assert forall|t: int| 0 <= t < back_pos(o, keys, k) implies keys[#[trigger] o[t] as int] <= k by {
                assert(o[t] == f[t]);
            }
            assert forall|t: int| back_pos(o, keys, k) <= t < o.len() implies keys[#[trigger] o[t] as int] > k by {
                if t < o.len() - 1 {
                    assert(o[t] == f[t]);
                }
            }
        } else {
            assert forall|t: int| 0 <= t < o.len() implies keys[#[trigger] o[t] as int] <= k by {
                if t < o.len() - 1 {
                    assert(keys[o[t] as int] < keys[o[o.len() - 1] as int] || keys[o[t] as int] == keys[o[o.len() - 1] as int]);
                }
            }
        }
    }
}

/// The order of positions by key is what a stable sort by key gives: it
/// lists each position once, in the order of their keys, equal keys in the
/// order of their positions.
pub proof fn law_stable_order(keys: Seq<usize>)
    requires
        keys.len() <= usize::MAX,
    ensures
        order_by_key(keys).len() == keys.len(),
        forall|i: int| 0 <= i < keys.len() ==> #[trigger] order_by_key(keys)[i] < keys.len(),
        key_sorted(order_by_key(keys), keys),
    decreases keys.len(),
{
    if keys.len() > 0 {
        let f = keys.drop_last();
        let o = order_by_key(f);
        let n = (keys.len() - 1) as usize;
        let k = keys[n as int];
        law_stable_order(f);
        assert(n == keys.len() - 1);
        assert(key_sorted(o, keys)) by {
            assert forall|i: int, j: int| 0 <= i < j < o.len() implies keys[#[trigger] o[i] as int] < keys[#[trigger] o[j] as int] || (
            keys[o[i] as int] == keys[o[j] as int] && o[i] < o[j]) by {
                assert(o[i] < f.len() && o[j] < f.len());
                assert(keys[o[i] as int] == f[o[i] as int] && keys[o[j] as int] == f[o[j] as int]);
            }
        }
        lemma_back_pos(o, keys, k);
        lemma_back_pos_split(o, keys, k);
        let p = back_pos(o, keys, k);
        let r = o.insert(p, n);
        assert(r == order_by_key(keys));
        assert forall|i: int| 0 <= i < keys.len() implies #[trigger] r[i] < keys.len() by {
            if i < p {
                assert(r[i] == o[i]);
            } else if i > p {
                assert(r[i] == o[i - 1]);
            }
        }
        assert forall|i: int, j: int| 0 <= i < j < r.len() implies keys[#[trigger] r[i] as int] < keys[#[trigger] r[j] as int] || (
        keys[r[i] as int] == keys[r[j] as int] && r[i] < r[j]) by {
            if j < p {
                assert(r[i] == o[i] && r[j] == o[j]);
                assert(keys[o[i] as int] < keys[o[j] as int] || (keys[o[i] as int] == keys[o[j] as int] && o[i] < o[j]));
            } else if j == p {
                assert(r[i] == o[i] && r[j] == n);
                assert(o[i] < f.len());
                assert(keys[o[i] as int] <= k);
            } else if i < p {
                assert(r[i] == o[i] && r[j] == o[j - 1]);
                assert(keys[o[i] as int] <= k);
                assert(keys[o[j - 1] as int] > k);
            } else if i == p {
                assert(r[i] == n && r[j] == o[j - 1]);
                assert(keys[o[j - 1] as int] > k);
            } else {
                assert(r[i] == o[i - 1] && r[j] == o[j - 1]);
                assert(keys[o[i - 1] as int] < keys[o[j - 1] as int] || (keys[o[i - 1] as int] == keys[o[j - 1] as int]
                    && o[i - 1] < o[j - 1]));
            }
        }
    }
}

/// The positions of the keys in the order of their keys, equal keys in their
/// own order.
pub fn stable_order(keys: &Vec<usize>) -> (r: Vec<usize>)
    ensures
        r@ == order_by_key(keys@),
        r@.len() == keys@.len(),
        forall|j: int| 0 <= j < r@.len() ==> r@[j] < keys@.len(),
{
    let mut o: Vec<usize> = Vec::new();
    let mut i: usize = 0;
    assert(keys@.take(0) =~= Seq::<usize>::empty());
    while i < keys.len()
        invariant
            0 <= i <= keys@.len(),
            o@ == order_by_key(keys@.take(i as int)),
            o@.len() == i,
            forall|j: int| 0 <= j < o@.len() ==> o@[j] < i,
        decreases keys@.len() - i,
    {
        let ghost ks = keys@.take(i + 1);
        assert(ks.drop_last() =~= keys@.take(i as int));
        let k = keys[i];
        let mut p: usize = o.len();
        while p > 0 && keys[o[p - 1]] > k
            invariant
                0 <= p <= o@.len(),
                forall|j: int| 0 <= j < o@.len() ==> o@[j] < i,
                i < keys@.len(),
                k == keys@[i as int],
                forall|j: int| p <= j < o@.len() ==> keys@[o@[j] as int] > k,
            decreases p,
        {
            p = p - 1;
        }
        proof {
            lemma_back_pos_prefix(o@, keys@, k, p as int);
            assert(back_pos(o@.take(p as int), keys@, k) == p) by {
                if p > 0 {
                    assert(o@.take(p as int).last() == o@[p - 1]);
                }
            }
            lemma_back_pos_keys(o@, keys@, ks, k);
            assert(ks[i as int] == k);
        }
        o.insert(p, i);
        proof {
            assert(o@ == order_by_key(ks));
        }
        i = i + 1;
    }
    assert(keys@.take(i as int) =~= keys@);
    o
}

/// The start of each anchor's range.
pub open spec fn anchor_starts(s: Seq<Anchor>) -> Seq<usize> {
    s.map_values(|a: Anchor| a.range.start)
}

/// What is known of a block found in the parse tree: its byte range, its
/// node and its kind.
pub type AnchorData = (std::ops::Range<usize>, Option<usize>, String);

/// The start of each block's range.
pub open spec fn data_starts(s: Seq<AnchorData>) -> Seq<usize> {
    s.map_values(|d: AnchorData| d.0.start)
}

/// The anchors in the order of their starts, equal starts in their own order.
pub open spec fn anchors_by_start(s: Seq<Anchor>) -> Seq<Anchor> {
    order_by_key(anchor_starts(s)).map_values(|i: usize| s[i as int])
}

/// The blocks in the order of their starts, equal starts in their own order.
pub open spec fn data_by_start(s: Seq<AnchorData>) -> Seq<AnchorData> {
    order_by_key(data_starts(s)).map_values(|i: usize| s[i as int])
}

/// The anchors made for the blocks from position `k` on, each with the
/// identifier chosen for it, the identifiers reused so far being `used`.
pub open spec fn rebound(
    old: Seq<Anchor>,
    by_position: Seq<Anchor>,
    data: Seq<AnchorData>,
    k: int,
    used: Set<AnchorId>,
) -> Seq<Anchor>
    decreases data.len() - k,
{
    if k < 0 || k >= data.len() {
        Seq::empty()
    } else {
        let (id, reused) = chosen_id(data[k].1, k as usize, old, by_position, data[k].0, used);
        seq![Anchor { id, range: data[k].0, node_id: data[k].1 }] + rebound(
            old,
            by_position,
            data,
            k + 1,
            if reused {
                used.insert(id)
            } else {
                used
            },
        )
    }
}

/// A copy of an anchor.
fn copy_anchor(a: &Anchor) -> (r: Anchor)
    ensures
        r == *a,
{
    Anchor { id: a.id, range: a.range.start..a.range.end, node_id: a.node_id }
}

/// Apply deterministic rebinding when structural changes have occurred: the
/// anchors become one per block found, in the order of the blocks' starts,
/// each keeping an old identifier where the rules allow.
pub fn apply_deterministic_rebinding(anchors: &mut Vec<Anchor>, new_anchor_data: Vec<AnchorData>)
    ensures
        final(anchors)@ == rebound(
            old(anchors)@,
            anchors_by_start(old(anchors)@),
            data_by_start(new_anchor_data@),
            0,
            Set::empty(),
        ),
{
    let ghost old_seq = anchors@;
    let mut old_anchors: Vec<Anchor> = Vec::new();
    let mut starts: Vec<usize> = Vec::new();
    let mut i: usize = 0;
    while i < anchors.len()
        invariant
            0 <= i <= anchors@.len(),
            anchors@ == old_seq,
            old_anchors@ == old_seq.take(i as int),
            starts@ == anchor_starts(old_seq.take(i as int)),
        decreases anchors@.len() - i,
    {
        let a = copy_anchor(&anchors[i]);
        starts.push(anchors[i].range.start);
        old_anchors.push(a);
        proof {
            assert(old_seq.take(i + 1) =~= old_seq.take(i as int).push(old_seq[i as int]));
            assert(anchor_starts(old_seq.take(i + 1)) =~= anchor_starts(old_seq.take(i as int)).push(old_seq[i as int].range.start));
        }
        i = i + 1;
    }
    assert(old_seq.take(i as int) =~= old_seq);
    let order = stable_order(&starts);
    let mut by_position: Vec<Anchor> = Vec::new();
    let mut j: usize = 0;
    while j < order.len()
        invariant
            0 <= j <= order@.len(),
            old_anchors@ == old_seq,
            order@ == order_by_key(anchor_starts(old_seq)),
            forall|m: int| 0 <= m < order@.len() ==> order@[m] < old_seq.len(),
            by_position@ == anchors_by_start(old_seq).take(j as int),
        decreases order@.len() - j,
    {
        by_position.push(copy_anchor(&old_anchors[order[j]]));
        proof {
            assert(anchors_by_start(old_seq).take(j + 1) =~= anchors_by_start(old_seq).take(j as int).push(
                old_seq[order@[j as int] as int],
            ));
        }
        j = j + 1;
    }
    assert(anchors_by_start(old_seq).take(j as int) =~= anchors_by_start(old_seq));
    let ghost data_seq = new_anchor_data@;
    let mut data_keys: Vec<usize> = Vec::new();
    let mut d: usize = 0;
    while d < new_anchor_data.len()
        invariant
            0 <= d <= new_anchor_data@.len(),
            new_anchor_data@ == data_seq,
            data_keys@ == data_starts(data_seq.take(d as int)),
        decreases new_anchor_data@.len() - d,
    {
        data_keys.push(new_anchor_data[d].0.start);
        proof {
            assert(data_starts(data_seq.take(d + 1)) =~= data_starts(data_seq.take(d as int)).push(data_seq[d as int].0.start));
        }
        d = d + 1;
    }
    assert(data_seq.take(d as int) =~= data_seq);
    let data_order = stable_order(&data_keys);
    let ghost sorted = data_by_start(data_seq);
    let mut used: Vec<AnchorId> = Vec::new();
    let mut out: Vec<Anchor> = Vec::new();
    let mut k: usize = 0;
    assert(id_set(used@) =~= Set::<AnchorId>::empty());
    while k < data_order.len()
        invariant
            0 <= k <= data_order@.len(),
            new_anchor_data@ == data_seq,
            old_anchors@ == old_seq,
            by_position@ == anchors_by_start(old_seq),
            data_order@ == order_by_key(data_starts(data_seq)),
            forall|m: int| 0 <= m < data_order@.len() ==> data_order@[m] < data_seq.len(),
            sorted == data_by_start(data_seq),
            sorted.len() == data_order@.len(),
            rebound(old_seq, anchors_by_start(old_seq), sorted, 0, Set::empty()) == out@ + rebound(
                old_seq,
                anchors_by_start(old_seq),
                sorted,
                k as int,
                id_set(used@),
            ),
        decreases data_order@.len() - k,
    {
        let item = &new_anchor_data[data_order[k]];
        assert(*item == sorted[k as int]);
        let range = item.0.start..item.0.end;
        let id = determine_anchor_id_deterministic(
            item.1,
            k,
            old_anchors.as_slice(),
            by_position.as_slice(),
            &range,
            item.2.as_str(),
            &mut used,
        );
        let a = Anchor { id, range, node_id: item.1 };
        proof {
            let ghost rest = rebound(old_seq, anchors_by_start(old_seq), sorted, k + 1, id_set(used@));
            assert(out@.push(a) + rest =~= out@ + (seq![a] + rest));
        }
        out.push(a);
        k = k + 1;
    }
    *anchors = out;
}

/// The range an anchor is moved to by a delta, in a text of `len` bytes:
/// its start lands after text inserted there, its end before; a range that
/// comes out reversed or past the end is clamped into the text.
pub open spec fn moved_range(steps: Seq<DeltaStep>, r: std::ops::Range<usize>, len: int) -> (int, int) {
    let s = transformed_offset(steps, r.start as int, true);
    let e = transformed_offset(steps, r.end as int, false);
    if s <= e && e <= len {
        (s, e)
    } else {
        let cs = if s < len { s } else { len };
        let ce = if e < len { e } else { len };
        (cs, if ce < cs { cs } else { ce })
    }
}

/// The anchors moved by a delta, in order, each keeping its identifier and
/// node; those whose moved range is empty or past the end are dropped.
pub open spec fn moved_anchors(steps: Seq<DeltaStep>, anchors: Seq<Anchor>, len: int) -> Seq<Anchor>
    decreases anchors.len(),
{
    if anchors.len() == 0 {
        Seq::empty()
    } else {
        let prev = moved_anchors(steps, anchors.drop_last(), len);
        let a = anchors.last();
        let m = moved_range(steps, a.range, len);
        if m.0 < m.1 && m.1 <= len {
            prev.push(Anchor { id: a.id, range: (m.0 as usize)..(m.1 as usize), node_id: a.node_id })
        } else {
            prev
        }
    }
}

/// Each offset of a text lands where it was through a delta that copies
/// the whole text.
pub proof fn law_copy_keeps_offsets(len: int, ix: int, after: bool)
    requires
        0 <= ix <= len,
    ensures
        transformed_offset(seq![DeltaStep::Copy(0, len)], ix, after) == ix,
{
    let steps = seq![DeltaStep::Copy(0, len)];
    assert(steps[0] == DeltaStep::Copy(0, len));
    if !(ix == 0 && !after) {
        if !(ix <= 0) && !(ix < len || (ix == len && !after)) {
            assert(offset_from(steps, ix, after, 1, len) == len);
        }
    }
}

/// Anchors within a text are kept as they are through a delta that copies
/// the whole text.
pub proof fn law_copy_keeps_anchors(anchors: Seq<Anchor>, len: int)
    requires
        forall|i: int| 0 <= i < anchors.len() ==> (#[trigger] anchors[i]).range.start < anchors[i].range.end <= len,
    ensures
        moved_anchors(seq![DeltaStep::Copy(0, len)], anchors, len) == anchors,
    decreases anchors.len(),
{
    if anchors.len() > 0 {
        let a = anchors.last();
        assert(a == anchors[anchors.len() - 1]);
        law_copy_keeps_anchors(anchors.drop_last(), len);
        law_copy_keeps_offsets(len, a.range.start as int, true);
        law_copy_keeps_offsets(len, a.range.end as int, false);
        let b = Anchor { id: a.id, range: (a.range.start as usize)..(a.range.end as usize), node_id: a.node_id };
        assert(b == a);
        assert(anchors.drop_last().push(a) =~= anchors);
    }
}

/// Moves the anchors through a delta whose new text is `doc_len` bytes
/// long, and drops those left empty.
pub fn transform_anchors(anchors: &mut Vec<Anchor>, delta: &EditDelta, doc_len: usize)
    ensures
        final(anchors)@ == moved_anchors(delta_steps(*delta), old(anchors)@, doc_len as int),
{
    let ghost steps = delta_steps(*delta);
    let mut out: Vec<Anchor> = Vec::new();
    let mut i: usize = 0;
    while i < anchors.len()
        invariant
            0 <= i <= anchors@.len(),
            steps == delta_steps(*delta),
            out@ == moved_anchors(steps, anchors@.take(i as int), doc_len as int),
        decreases anchors@.len() - i,
    {
        assert(anchors@.take(i + 1).drop_last() =~= anchors@.take(i as int));
        let a = &anchors[i];
        let new_start = delta_transform(delta, a.range.start, true);
        let new_end = delta_transform(delta, a.range.end, false);
        let (s, e) = if new_start <= new_end && new_end <= doc_len {
            (new_start, new_end)
        } else {
            let cs = if new_start < doc_len { new_start } else { doc_len };
            let ce = if new_end < doc_len { new_end } else { doc_len };
            (cs, if ce < cs { cs } else { ce })
        };
        if s < e && e <= doc_len {
            out.push(Anchor { id: a.id, range: s..e, node_id: a.node_id });
        }
        i = i + 1;
    }
    assert(anchors@.take(i as int) =~= anchors@);
    *anchors = out;
}

/// Whether a change starts strictly inside an anchor's range.
pub open spec fn starts_inside(c: std::ops::Range<usize>, a: Anchor) -> bool {
    c.start > a.range.start && c.start < a.range.end
}

/// Whether a change lies before or after an anchor's range, or starts at
/// one of its ends.
pub open spec fn clear_of(c: std::ops::Range<usize>, a: Anchor) -> bool {
    c.end <= a.range.start || c.start >= a.range.end || c.start == a.range.start || c.start == a.range.end
}

/// Whether some change starts strictly inside some anchor.
pub open spec fn any_inside(changed: Seq<std::ops::Range<usize>>, anchors: Seq<Anchor>) -> bool {
    exists|i: int, j: int| 0 <= i < changed.len() && 0 <= j < anchors.len() && starts_inside(changed[i], anchors[j])
}

/// Whether every change is clear of every anchor.
pub open spec fn all_clear(changed: Seq<std::ops::Range<usize>>, anchors: Seq<Anchor>) -> bool {
    forall|i: int, j: int| 0 <= i < changed.len() && 0 <= j < anchors.len() ==> clear_of(changed[i], anchors[j])
}

/// Whether the anchors are made again from the blocks found after an edit:
/// when a change starts inside an anchor, or when the number of blocks
/// changed and some change is not clear of the anchors.
pub open spec fn needs_rebinding(changed: Seq<std::ops::Range<usize>>, anchors: Seq<Anchor>, found: nat) -> bool {
    changed.len() > 0 && (any_inside(changed, anchors) || (found != anchors.len() && !all_clear(changed, anchors)))
}

/// The anchors after an edit's changes `changed`, the blocks found after
/// it being `data`: made again from the blocks where rebinding is needed,
/// kept otherwise.
pub open spec fn after_rebinding(changed: Seq<std::ops::Range<usize>>, anchors: Seq<Anchor>, data: Seq<AnchorData>) -> Seq<Anchor> {
    if needs_rebinding(changed, anchors, data.len()) {
        rebound(anchors, anchors_by_start(anchors), data_by_start(data), 0, Set::empty())
    } else {
        anchors
    }
}

/// Rebind anchors in changed regions to maintain stable block associations.
/// `new_anchor_data` holds the blocks found in the document's new parse
/// tree, where it has one.
pub fn rebind_anchors_in_changed_regions(
    anchors: &mut Vec<Anchor>,
    changed: &[std::ops::Range<usize>],
    new_anchor_data: Option<Vec<AnchorData>>,
)
    ensures
        match new_anchor_data {
            Some(data) => if needs_rebinding(changed@, old(anchors)@, data@.len()) {
                final(anchors)@ == rebound(
                    old(anchors)@,
                    anchors_by_start(old(anchors)@),
                    data_by_start(data@),
                    0,
                    Set::empty(),
                )
            } else {
                final(anchors)@ == old(anchors)@
            },
            None => final(anchors)@ == old(anchors)@,
        },
{
    let data = match new_anchor_data {
        Some(d) => d,
        None => {
            return;
        },
    };
    if changed.len() == 0 {
        return;
    }
    let mut affects = false;
    let mut outside = true;
    let mut i: usize = 0;
    while i < changed.len()
        invariant
            0 <= i <= changed@.len(),
            affects == exists|a: int, b: int| 0 <= a < i && 0 <= b < anchors@.len() && starts_inside(changed@[a], anchors@[b]),
            outside == forall|a: int, b: int| 0 <= a < i && 0 <= b < anchors@.len() ==> clear_of(changed@[a], anchors@[b]),
        decreases changed@.len() - i,
    {
        let c = &changed[i];
        let mut j: usize = 0;
        let ghost affects0 = affects;
        let ghost outside0 = outside;
        while j < anchors.len()
            invariant
                0 <= i < changed@.len(),
                0 <= j <= anchors@.len(),
                *c == changed@[i as int],
                affects0 == exists|a: int, b: int| 0 <= a < i && 0 <= b < anchors@.len() && starts_inside(changed@[a], anchors@[b]),
                outside0 == forall|a: int, b: int| 0 <= a < i && 0 <= b < anchors@.len() ==> clear_of(changed@[a], anchors@[b]),
                affects == (affects0 || exists|b: int| 0 <= b < j && starts_inside(*c, anchors@[b])),
                outside == (outside0 && forall|b: int| 0 <= b < j ==> clear_of(*c, anchors@[b])),
            decreases anchors@.len() - j,
        {
            let a = &anchors[j];
            if c.start > a.range.start && c.start < a.range.end {
                affects = true;
            }
            if !(c.end <= a.range.start || c.start >= a.range.end || c.start == a.range.start || c.start == a.range.end) {
                outside = false;
            }
            j = j + 1;
        }
        proof {
            if affects {
                if !affects0 {
                    let b = choose|b: int| 0 <= b < j && starts_inside(*c, anchors@[b]);
                    assert(starts_inside(changed@[i as int], anchors@[b]));
                }
            } else {
                assert forall|a: int, b: int| 0 <= a < i + 1 && 0 <= b < anchors@.len() implies !starts_inside(changed@[a], anchors@[b]) by {
                    if a == i {
                        assert(!starts_inside(*c, anchors@[b]));
                    }
                }
            }
            if !outside {
                if outside0 {
                    let b = choose|b: int| 0 <= b < j && !clear_of(*c, anchors@[b]);
                    assert(!clear_of(changed@[i as int], anchors@[b]));
                } else {
                    let (a, b) = choose|a: int, b: int| 0 <= a < i && 0 <= b < anchors@.len() && !clear_of(changed@[a], anchors@[b]);
                    assert(!clear_of(changed@[a], anchors@[b]));
                }
            }
        }
        i = i + 1;
    }
    if affects || (data.len() != anchors.len() && !outside) {
        apply_deterministic_rebinding(anchors, data);
    }
}

} // verus!
