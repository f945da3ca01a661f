//! Sorted replacements of byte ranges, and their translation into a delta of
//! the rope crate.
use super::rope::{
    apply_steps, builder_base_len, builder_build, builder_delete, builder_new, builder_offset,
    builder_replace, builder_steps, delta_base_len, delta_len, delta_step_at, delta_steps,
    rope_bytes, rope_from_str, rope_len, steps_fit, DeltaStep, EditDelta, TextRope,
};
use super::text::{at_boundary, lemma_at_boundary};
use vstd::utf8::valid_utf8_concat;
use vstd::prelude::*;
use vstd::utf8::*;

verus! {

broadcast use vstd::utf8::encode_utf8_valid_utf8;

/// Replace the bytes `start..end` of the base text with `text`.
pub struct TextEdit {
    pub start: usize,
    pub end: usize,
    pub text: String,
}

impl TextEdit {
    pub open spec fn spec(self) -> (int, int, Seq<u8>) {
        (self.start as int, self.end as int, encode_utf8(self.text@))
    }
}

pub open spec fn edit_views(es: Seq<TextEdit>) -> Seq<(int, int, Seq<u8>)> {
    es.map_values(|e: TextEdit| e.spec())
}

/// The end of the edit before edit `k`, or 0.
pub open spec fn prev_end(es: Seq<(int, int, Seq<u8>)>, k: int) -> int {
    if k <= 0 {
        0
    } else {
        es[k - 1].1
    }
}

/// The edits lie inside the text, on character boundaries, in order and
/// without overlap.
pub open spec fn edits_ordered(t: Seq<u8>, es: Seq<(int, int, Seq<u8>)>) -> bool {
    &&& forall|i: int|
        0 <= i < es.len() ==> {
            &&& prev_end(es, i) <= (#[trigger] es[i]).0 <= es[i].1 <= t.len()
            &&& at_boundary(t, es[i].0)
            &&& at_boundary(t, es[i].1)
            &&& valid_utf8(es[i].2)
        }
}

/// The edited text up to the end of the last edit.
pub open spec fn edited_prefix(t: Seq<u8>, es: Seq<(int, int, Seq<u8>)>) -> Seq<u8>
    decreases es.len(),
{
    if es.len() == 0 {
        Seq::empty()
    } else {
        let k = es.len() - 1;
        edited_prefix(t, es.drop_last()) + t.subrange(prev_end(es, k), es[k].0) + es[k].2
    }
}

/// The text after all edits.
pub open spec fn apply_edits(t: Seq<u8>, es: Seq<(int, int, Seq<u8>)>) -> Seq<u8> {
    edited_prefix(t, es) + t.subrange(prev_end(es, es.len() as int), t.len() as int)
}

/// The delta elements that the builder makes for the edits, before the
/// copy of the rest of the text.
pub open spec fn prefix_steps(es: Seq<(int, int, Seq<u8>)>) -> Seq<DeltaStep>
    decreases es.len(),
{
    if es.len() == 0 {
        Seq::empty()
    } else {
        let k = es.len() - 1;
        let before = prefix_steps(es.drop_last());
        let copied = if es[k].0 > prev_end(es, k) {
            before.push(DeltaStep::Copy(prev_end(es, k), es[k].0))
        } else {
            before
        };
        if es[k].2.len() > 0 {
            copied.push(DeltaStep::Insert(es[k].2))
        } else {
            copied
        }
    }
}

/// The delta elements that the builder makes for the edits on a text of
/// `len` bytes.
pub open spec fn edit_steps(len: int, es: Seq<(int, int, Seq<u8>)>) -> Seq<DeltaStep> {
    let pre = prefix_steps(es);
    let off = prev_end(es, es.len() as int);
    if off < len {
        pre.push(DeltaStep::Copy(off, len))
    } else {
        pre
    }
}

/// Every prefix of the delta elements leaves the editor's cursor at most
/// `bound`.
pub open spec fn cursor_bounded(steps: Seq<DeltaStep>, bound: int) -> bool {
    forall|i: int| 0 <= i <= steps.len() ==> 0 <= #[trigger] step_cursor(steps.take(i)) <= bound
}

/// Base offset reached after a list of delta elements, as the editor
/// tracks it: a copy moves it to the end of the copied base range, an
/// insertion moves it past the inserted bytes.
pub open spec fn step_cursor(steps: Seq<DeltaStep>) -> int
    decreases steps.len(),
{
    if steps.len() == 0 {
        0
    } else {
        match steps.last() {
            DeltaStep::Copy(_, e) => e,
            DeltaStep::Insert(bytes) => step_cursor(steps.drop_last()) + bytes.len(),
        }
    }
}

/// The ranges that the editor reports as changed for a list of delta
/// elements: one per insertion, from the cursor on.
pub open spec fn changed_ranges(steps: Seq<DeltaStep>) -> Seq<(int, int)>
    decreases steps.len(),
{
    if steps.len() == 0 {
        Seq::empty()
    } else {
        let rest = changed_ranges(steps.drop_last());
        match steps.last() {
            DeltaStep::Copy(_, _) => rest,
            DeltaStep::Insert(bytes) => {
                let c = step_cursor(steps.drop_last());
                rest.push((c, c + bytes.len()))
            },
        }
    }
}

proof fn lemma_edits_take(es: Seq<(int, int, Seq<u8>)>, k: int)
    requires
        0 <= k < es.len(),
    ensures
        es.take(k + 1).drop_last() =~= es.take(k),
        es.take(k + 1)[k] == es[k],
        prev_end(es.take(k + 1), k) == prev_end(es, k),
{
}

/// A range of valid UTF-8 between character boundaries is valid UTF-8.
pub proof fn lemma_subrange_valid(t: Seq<u8>, b: int, e: int)
    requires
        valid_utf8(t),
        0 <= b <= e <= t.len(),
        is_char_boundary(t, b),
        is_char_boundary(t, e),
    ensures
        valid_utf8(t.subrange(b, e)),
{
    valid_utf8_split(t, e);
    let p = t.subrange(0, e);
    if 0 < b < t.len() {
        is_char_boundary_iff_not_is_continuation_byte(t, b);
    }
    if 0 < b < e {
        assert(p[b] == t[b]);
    }
    lemma_at_boundary(p, b);
    valid_utf8_split(p, b);
    assert(p.subrange(b, p.len() as int) =~= t.subrange(b, e));
}

/// Delta elements that fit a valid text produce valid text.
pub proof fn lemma_apply_steps_valid(steps: Seq<DeltaStep>, t: Seq<u8>)
    requires
        valid_utf8(t),
        steps_fit(steps, t),
    ensures
        valid_utf8(apply_steps(steps, t)),
    decreases steps.len(),
{
    if steps.len() > 0 {
        let rest = steps.drop_last();
        assert(steps_fit(rest, t)) by {
            assert forall|i: int| 0 <= i < rest.len() implies match #[trigger] rest[i] {
                DeltaStep::Copy(b, e) => 0 <= b <= e <= t.len() && is_char_boundary(t, b)
                    && is_char_boundary(t, e),
                DeltaStep::Insert(bytes) => valid_utf8(bytes),
            } by {
                assert(rest[i] == steps[i]);
            }
        }
        lemma_apply_steps_valid(rest, t);
        let last = steps[steps.len() - 1];
        match last {
            DeltaStep::Copy(b, e) => {
                lemma_subrange_valid(t, b, e);
            },
            DeltaStep::Insert(bytes) => {},
        }
        valid_utf8_concat(apply_steps(rest, t), match last {
            DeltaStep::Copy(b, e) => t.subrange(b, e),
            DeltaStep::Insert(bytes) => bytes,
        });
    } else {
        assert(apply_steps(steps, t) =~= Seq::<u8>::empty());
    }
}

/// The delta that performs the edits on a text of `base_len` bytes.
pub fn build_delta(base: &TextRope, edits: &Vec<TextEdit>) -> (d: EditDelta)
    requires
        valid_utf8(rope_bytes(*base)),
        edits_ordered(rope_bytes(*base), edit_views(edits@)),
    ensures
        delta_base_len(d) == rope_bytes(*base).len(),
        steps_fit(delta_steps(d), rope_bytes(*base)),
        apply_steps(delta_steps(d), rope_bytes(*base)) == apply_edits(
            rope_bytes(*base),
            edit_views(edits@),
        ),
        delta_steps(d) == edit_steps(rope_bytes(*base).len() as int, edit_views(edits@)),
        cursor_bounded(
            delta_steps(d),
            (rope_bytes(*base).len() + apply_edits(rope_bytes(*base), edit_views(edits@)).len()) as int,
        ),
{
    let ghost t = rope_bytes(*base);
    let ghost es = edit_views(edits@);
    let len = rope_len(base);
    let mut b = builder_new(len);
    let mut k: usize = 0;
    while k < edits.len()
        invariant
            t == rope_bytes(*base),
            es == edit_views(edits@),
            valid_utf8(t),
            edits_ordered(t, es),
            len == t.len(),
            0 <= k <= edits.len(),
            builder_base_len(b) == len,
            builder_offset(b) == prev_end(es, k as int),
            steps_fit(builder_steps(b), t),
            apply_steps(builder_steps(b), t) == edited_prefix(t, es.take(k as int)),
            builder_steps(b) == prefix_steps(es.take(k as int)),
            cursor_bounded(
                builder_steps(b),
                prev_end(es, k as int) + edited_prefix(t, es.take(k as int)).len(),
            ),
        decreases edits.len() - k,
    {
        let ghost old_steps = builder_steps(b);
        let ghost off = builder_offset(b);
        assert(es[k as int] == edits@[k as int].spec());
        let e = &edits[k];
        proof {
            lemma_edits_take(es, k as int);
        }
        if e.text.as_str().is_empty() {
            builder_delete(&mut b, e.start, e.end);
            proof {
                assert(encode_utf8(e.text@).len() == 0);
                assert(encode_utf8(e.text@) =~= Seq::<u8>::empty());
            }
        } else {
            let r = rope_from_str(e.text.as_str());
            builder_replace(&mut b, e.start, e.end, r);
        }
        proof {
            let s1 = if e.start > off {
                old_steps.push(DeltaStep::Copy(off, e.start as int))
            } else {
                old_steps
            };
            assert(apply_steps(s1, t) == apply_steps(old_steps, t) + t.subrange(
                off,
                e.start as int,
            )) by {
                if e.start > off {
                    assert(s1.drop_last() =~= old_steps);
                } else {
                    assert(t.subrange(off, e.start as int) =~= Seq::<u8>::empty());
                }
            }
            if encode_utf8(e.text@).len() > 0 {
                assert(builder_steps(b).drop_last() =~= s1);
            }
            assert(apply_steps(builder_steps(b), t) =~= edited_prefix(t, es.take(k + 1)));
            assert(builder_steps(b) =~= prefix_steps(es.take(k + 1)));
            let nb = prev_end(es, k + 1) + edited_prefix(t, es.take(k + 1)).len();
            let ob = prev_end(es, k as int) + edited_prefix(t, es.take(k as int)).len();
            let ins = encode_utf8(e.text@);
            assert(edited_prefix(t, es.take(k + 1)).len() == edited_prefix(t, es.take(k as int)).len()
                + (e.start - off) + ins.len());
            assert(ob <= nb);
            assert(off <= e.start <= e.end);
            assert(old_steps.take(old_steps.len() as int) =~= old_steps);
            assert(0 <= step_cursor(old_steps.take(old_steps.len() as int)) <= ob);
            assert forall|i: int| 0 <= i <= builder_steps(b).len() implies 0 <= #[trigger] step_cursor(
                builder_steps(b).take(i),
            ) <= nb by {
                let ns = builder_steps(b);
                if i <= old_steps.len() {
                    assert(ns.take(i) =~= old_steps.take(i));
                    assert(0 <= step_cursor(old_steps.take(i)) <= ob);
                } else if i <= s1.len() {
                    assert(ns.take(i) =~= s1);
                    assert(s1.drop_last() =~= old_steps);
                    assert(step_cursor(s1) == e.start);
                } else {
                    assert(ns.take(i) =~= ns);
                    assert(ns.drop_last() =~= s1);
                    assert(step_cursor(ns) == step_cursor(s1) + ins.len());
                    if s1.len() > old_steps.len() {
                        assert(s1.drop_last() =~= old_steps);
                        assert(step_cursor(s1) == e.start);
                    } else {
                        assert(s1 == old_steps);
                    }
                }
            }
            assert forall|i: int| 0 <= i < builder_steps(b).len() implies match #[trigger] builder_steps(b)[i] {
                DeltaStep::Copy(x, y) => 0 <= x <= y <= t.len() && is_char_boundary(t, x)
                    && is_char_boundary(t, y),
                DeltaStep::Insert(bytes) => valid_utf8(bytes),
            } by {
                if i < old_steps.len() {
                    assert(builder_steps(b)[i] == old_steps[i]);
                } else if i < s1.len() {
                    lemma_at_boundary(t, e.start as int);
                    if k > 0 {
                        lemma_at_boundary(t, off);
                    } else {
                        is_char_boundary_start_end_of_seq(t);
                    }
                }
            }
        }
        k = k + 1;
    }
    let ghost pre = builder_steps(b);
    let ghost off = builder_offset(b);
    let d = builder_build(b);
    proof {
        assert(es.take(es.len() as int) =~= es);
        is_char_boundary_start_end_of_seq(t);
        if off < len {
            assert(delta_steps(d).drop_last() =~= pre);
            if k > 0 {
                lemma_at_boundary(t, off);
            }
            assert forall|i: int| 0 <= i < delta_steps(d).len() implies match #[trigger] delta_steps(d)[i] {
                DeltaStep::Copy(x, y) => 0 <= x <= y <= t.len() && is_char_boundary(t, x)
                    && is_char_boundary(t, y),
                DeltaStep::Insert(bytes) => valid_utf8(bytes),
            } by {
                if i < pre.len() {
                    assert(delta_steps(d)[i] == pre[i]);
                }
            }
        } else {
            assert(t.subrange(off, t.len() as int) =~= Seq::<u8>::empty());
        }
        assert(apply_steps(delta_steps(d), t) =~= apply_edits(t, es));
        let ds = delta_steps(d);
        let bound = t.len() + apply_edits(t, es).len();
        assert(prev_end(es, es.len() as int) <= t.len());
        assert forall|i: int| 0 <= i <= ds.len() implies 0 <= #[trigger] step_cursor(ds.take(i))
            <= bound by {
            if i <= pre.len() {
                assert(ds.take(i) =~= pre.take(i));
            } else {
                assert(ds.take(i) =~= ds);
                assert(ds.drop_last() =~= pre);
            }
        }
    }
    d
}

/// The ranges of the new text that a delta inserts, as the editor reports
/// them.
pub fn changed_of(d: &EditDelta) -> (changed: Vec<std::ops::Range<usize>>)
    requires
        cursor_bounded(delta_steps(*d), usize::MAX as int),
    ensures
        changed@.len() == changed_ranges(delta_steps(*d)).len(),
        forall|i: int|
            0 <= i < changed@.len() ==> (#[trigger] changed@[i]).start == changed_ranges(
                delta_steps(*d),
            )[i].0 && changed@[i].end == changed_ranges(delta_steps(*d))[i].1,
{
    let ghost steps = delta_steps(*d);
    let n = delta_len(d);
    let mut changed: Vec<std::ops::Range<usize>> = Vec::new();
    let mut cursor: usize = 0;
    let mut i: usize = 0;
    while i < n
        invariant
            steps == delta_steps(*d),
            n == steps.len(),
            0 <= i <= n,
            forall|j: int|
                0 <= j <= steps.len() ==> 0 <= step_cursor(#[trigger] steps.take(j)) <= usize::MAX,
            cursor == step_cursor(steps.take(i as int)),
            changed@.len() == changed_ranges(steps.take(i as int)).len(),
            forall|j: int|
                0 <= j < changed@.len() ==> (#[trigger] changed@[j]).start == changed_ranges(
                    steps.take(i as int),
                )[j].0 && changed@[j].end == changed_ranges(steps.take(i as int))[j].1,
        decreases n - i,
    {
        let step = delta_step_at(d, i);
        proof {
            assert(steps.take(i + 1).drop_last() =~= steps.take(i as int));
            assert(steps.take(i + 1).last() == steps[i as int]);
            let _ = step_cursor(steps.take(i + 1));
        }
        if step.0 {
            let start = cursor;
            let end = cursor + step.2;
            changed.push(start..end);
            cursor = end;
        } else {
            cursor = step.1;
        }
        i = i + 1;
    }
    proof {
        assert(steps.take(n as int) =~= steps);
    }
    changed
}

} // verus!
