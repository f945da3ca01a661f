//! The text buffer of a document is an `xi_rope` rope. Edits are built with
//! the rope crate's delta builder and applied by it; this file states what
//! those calls do, over the bytes that a rope holds.
use vstd::prelude::*;
use vstd::utf8::*;
use xi_rope::delta::Builder;
use xi_rope::{Delta, Rope, RopeInfo};

verus! {

/// The rope that holds a document's text, in an opaque struct: the rope
/// crate's node type carries a trait bound that a declared type cannot
/// state. What it holds is known through `rope_bytes`.
#[verifier::external_body]
pub struct TextRope {
    rope: Rope,
}

/// A delta builder of the rope crate, in an opaque struct. What it holds
/// is known through `builder_steps`, `builder_offset` and
/// `builder_base_len`.
#[verifier::external_body]
pub struct EditBuilder {
    builder: Builder<RopeInfo>,
}

/// A delta of the rope crate, in an opaque struct. What it holds is known
/// through `delta_steps` and `delta_base_len`.
#[verifier::external_body]
pub struct EditDelta {
    delta: Delta<RopeInfo>,
}

/// One element of a delta: a byte range copied from the base text, or
/// newly inserted bytes.
pub enum DeltaStep {
    Copy(int, int),
    Insert(Seq<u8>),
}

/// The text that a rope holds, as UTF-8 bytes.
pub uninterp spec fn rope_bytes(r: TextRope) -> Seq<u8>;

/// The elements pushed so far into a delta builder.
pub uninterp spec fn builder_steps(b: EditBuilder) -> Seq<DeltaStep>;

/// The end of the last interval given to a delta builder.
pub uninterp spec fn builder_offset(b: EditBuilder) -> int;

/// The base length that a delta builder was made with.
pub uninterp spec fn builder_base_len(b: EditBuilder) -> int;

/// The elements of a delta.
pub uninterp spec fn delta_steps(d: EditDelta) -> Seq<DeltaStep>;

/// The base length that a delta applies to.
pub uninterp spec fn delta_base_len(d: EditDelta) -> int;

/// The text that a list of delta elements produces from a base text.
pub open spec fn apply_steps(steps: Seq<DeltaStep>, base: Seq<u8>) -> Seq<u8>
    decreases steps.len(),
{
    if steps.len() == 0 {
        Seq::empty()
    } else {
        let rest = apply_steps(steps.drop_last(), base);
        match steps.last() {
            DeltaStep::Copy(b, e) => rest + base.subrange(b, e),
            DeltaStep::Insert(bytes) => rest + bytes,
        }
    }
}

/// Every copied range lies inside the base text and starts and ends on
/// character boundaries of it.
pub open spec fn steps_fit(steps: Seq<DeltaStep>, base: Seq<u8>) -> bool {
    forall|i: int|
        0 <= i < steps.len() ==> match #[trigger] steps[i] {
            DeltaStep::Copy(b, e) => 0 <= b <= e <= base.len() && is_char_boundary(base, b)
                && is_char_boundary(base, e),
            DeltaStep::Insert(bytes) => valid_utf8(bytes),
        }
}

/// Where offset `ix` of the base text lands in the new text, walking the
/// delta's elements from element `k` on with `result` bytes of new text
/// before them: in a copied range it keeps its distance from the range's
/// start; before one it stops; an offset at the end of a copied range stays
/// in it unless `after`; inserted text pushes it on.
pub open spec fn offset_from(steps: Seq<DeltaStep>, ix: int, after: bool, k: int, result: int) -> int
    decreases steps.len() - k,
{
    if k < 0 || k >= steps.len() {
        result
    } else {
        match steps[k] {
            DeltaStep::Copy(b, e) => if ix <= b {
                result
            } else if ix < e || (ix == e && !after) {
                result + ix - b
            } else {
                offset_from(steps, ix, after, k + 1, result + e - b)
            },
            DeltaStep::Insert(bytes) => offset_from(steps, ix, after, k + 1, result + bytes.len()),
        }
    }
}

/// Where offset `ix` of the base text lands after a delta; `after` says
/// whether an offset where text is inserted lands after the insertion.
pub open spec fn transformed_offset(steps: Seq<DeltaStep>, ix: int, after: bool) -> int {
    if ix == 0 && !after {
        0
    } else {
        offset_from(steps, ix, after, 0, 0)
    }
}

/// `Transformer::transform` of the rope crate on a delta: where base offset
/// `ix` lands in the new text.
#[verifier::external_body]
pub(crate) fn delta_transform(d: &EditDelta, ix: usize, after: bool) -> (r: usize)
    ensures
        r == transformed_offset(delta_steps(*d), ix as int, after),
{
    xi_rope::delta::Transformer::new(&d.delta).transform(ix, after)
}

/// `Rope::from` on a string slice: the rope holds exactly the bytes of the
/// string.
#[verifier::external_body]
pub(crate) fn rope_from_str(s: &str) -> (r: TextRope)
    ensures
        rope_bytes(r) == encode_utf8(s@),
{
    TextRope { rope: Rope::from(s) }
}

/// `Rope::len`: the number of bytes that the rope holds.
#[verifier::external_body]
pub(crate) fn rope_len(r: &TextRope) -> (n: usize)
    ensures
        n == rope_bytes(*r).len(),
{
    r.rope.len()
}

/// `String::from(&Rope)`: the text of the whole rope.
#[verifier::external_body]
pub(crate) fn rope_to_string(r: &TextRope) -> (s: String)
    ensures
        encode_utf8(s@) == rope_bytes(*r),
{
    String::from(&r.rope)
}

/// `Rope::slice_to_cow` on a byte range, made an owned string. The rope
/// crate slices its text chunks there, which panics off a character
/// boundary.
#[verifier::external_body]
pub(crate) fn rope_slice(r: &TextRope, start: usize, end: usize) -> (s: String)
    requires
        start <= end <= rope_bytes(*r).len(),
        is_char_boundary(rope_bytes(*r), start as int),
        is_char_boundary(rope_bytes(*r), end as int),
    ensures
        encode_utf8(s@) == rope_bytes(*r).subrange(start as int, end as int),
{
    r.rope.slice_to_cow(start..end).into_owned()
}

/// `Builder::new`: an empty builder for a base text of `base_len` bytes.
#[verifier::external_body]
pub(crate) fn builder_new(base_len: usize) -> (b: EditBuilder)
    ensures
        builder_steps(b) == Seq::<DeltaStep>::empty(),
        builder_offset(b) == 0,
        builder_base_len(b) == base_len,
{
    EditBuilder { builder: Builder::new(base_len) }
}

/// `Builder::delete`: copies the base text between the previous interval
/// and this one (when there is any), and skips the interval. It asserts
/// that the intervals come in order.
#[verifier::external_body]
pub(crate) fn builder_delete(b: &mut EditBuilder, start: usize, end: usize)
    requires
        builder_offset(*old(b)) <= start <= end,
    ensures
        builder_base_len(*final(b)) == builder_base_len(*old(b)),
        builder_offset(*final(b)) == end,
        builder_steps(*final(b)) == (if start > builder_offset(*old(b)) {
            builder_steps(*old(b)).push(DeltaStep::Copy(builder_offset(*old(b)), start as int))
        } else {
            builder_steps(*old(b))
        }),
{
    b.builder.delete(start..end)
}

/// `Builder::replace`: as `Builder::delete`, then the rope's bytes are
/// inserted when the rope is not empty.
#[verifier::external_body]
pub(crate) fn builder_replace(b: &mut EditBuilder, start: usize, end: usize, rope: TextRope)
    requires
        builder_offset(*old(b)) <= start <= end,
    ensures
        builder_base_len(*final(b)) == builder_base_len(*old(b)),
        builder_offset(*final(b)) == end,
        builder_steps(*final(b)) == ({
            let copied = if start > builder_offset(*old(b)) {
                builder_steps(*old(b)).push(DeltaStep::Copy(builder_offset(*old(b)), start as int))
            } else {
                builder_steps(*old(b))
            };
            if rope_bytes(rope).len() > 0 {
                copied.push(DeltaStep::Insert(rope_bytes(rope)))
            } else {
                copied
            }
        }),
{
    b.builder.replace(start..end, rope.rope)
}

/// `Builder::build`: the delta copies the rest of the base text after the
/// last interval, when there is any.
#[verifier::external_body]
pub(crate) fn builder_build(b: EditBuilder) -> (d: EditDelta)
    ensures
        delta_base_len(d) == builder_base_len(b),
        delta_steps(d) == (if builder_offset(b) < builder_base_len(b) {
            builder_steps(b).push(DeltaStep::Copy(builder_offset(b), builder_base_len(b)))
        } else {
            builder_steps(b)
        }),
{
    EditDelta { delta: b.builder.build() }
}

/// `Delta::apply`: the new rope is the concatenation of the copied ranges
/// of the base and of the inserted texts, in order. Copying slices the base
/// text, which panics off a character boundary.
#[verifier::external_body]
pub(crate) fn delta_apply(d: &EditDelta, base: &TextRope) -> (r: TextRope)
    requires
        rope_bytes(*base).len() == delta_base_len(*d),
        steps_fit(delta_steps(*d), rope_bytes(*base)),
    ensures
        rope_bytes(r) == apply_steps(delta_steps(*d), rope_bytes(*base)),
{
    TextRope { rope: d.delta.apply(&base.rope) }
}

/// The number of elements of a delta.
#[verifier::external_body]
pub(crate) fn delta_len(d: &EditDelta) -> (n: usize)
    ensures
        n == delta_steps(*d).len(),
{
    d.delta.els.len()
}

/// Element `i` of a delta, as `(is_insert, copy_end, inserted_len)`.
#[verifier::external_body]
pub(crate) fn delta_step_at(d: &EditDelta, i: usize) -> (step: (bool, usize, usize))
    requires
        i < delta_steps(*d).len(),
    ensures
        match delta_steps(*d)[i as int] {
            DeltaStep::Copy(_, e) => !step.0 && step.1 == e,
            DeltaStep::Insert(bytes) => step.0 && step.2 == bytes.len(),
        },
{
    match &d.delta.els[i] {
        xi_rope::DeltaElement::Copy(_, to) => (false, *to, 0),
        xi_rope::DeltaElement::Insert(n) => (true, 0, n.len()),
    }
}

} // verus!
