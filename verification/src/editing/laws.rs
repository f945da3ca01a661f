//! Properties that hold across commands.
use super::commands::{cmd_edits, cmd_result, split_insert, transformed_selection, Cmd};
use super::text::{is_newline, lemma_line_bounds, lemma_line_end_at, line_from, line_start_at};
use super::edits::{edited_prefix, prev_end};
use vstd::prelude::*;
use vstd::utf8::{encode_utf8, valid_utf8};

verus! {

/// Inserting a text and then deleting the range it occupies gives back
/// the original text.
pub proof fn law_delete_undoes_insert(t: Seq<u8>, at: usize, text: String, end: usize)
    requires
        at <= t.len(),
        end == at + encode_utf8(text@).len(),
    ensures
        cmd_result(
            cmd_result(t, Cmd::InsertText { at, text }),
            Cmd::DeleteRange { range: at..end },
        ) == t,
{
    let ins = encode_utf8(text@);
    let e1 = cmd_edits(t, Cmd::InsertText { at, text });
    assert(e1 =~= seq![(at as int, at as int, ins)]);
    assert(e1.drop_last() =~= Seq::<(int, int, Seq<u8>)>::empty());
    assert(edited_prefix(t, e1.drop_last()) =~= Seq::<u8>::empty());
    assert(prev_end(e1, 0) == 0);
    assert(prev_end(e1, 1) == at);
    assert(edited_prefix(t, e1) =~= t.subrange(0, at as int) + ins);
    let r1 = cmd_result(t, Cmd::InsertText { at, text });
    assert(r1 =~= t.subrange(0, at as int) + ins + t.subrange(at as int, t.len() as int));
    let e2 = cmd_edits(r1, Cmd::DeleteRange { range: at..end });
    assert(e2 =~= seq![(at as int, end as int, Seq::<u8>::empty())]);
    assert(e2.drop_last() =~= Seq::<(int, int, Seq<u8>)>::empty());
    assert(edited_prefix(r1, e2.drop_last()) =~= Seq::<u8>::empty());
    assert(prev_end(e2, 0) == 0);
    assert(prev_end(e2, 1) == end);
    assert(edited_prefix(r1, e2) =~= r1.subrange(0, at as int));
    assert(r1.subrange(end as int, r1.len() as int) =~= t.subrange(at as int, t.len() as int));
    assert(cmd_result(r1, Cmd::DeleteRange { range: at..end }) =~= t);
}

proof fn lemma_line_start_prefix(t: Seq<u8>, u: Seq<u8>, at: int)
    requires
        0 <= at <= t.len(),
        at <= u.len(),
        forall|k: int| 0 <= k < at ==> t[k] == u[k],
    ensures
        line_start_at(t, at) == line_start_at(u, at),
    decreases at,
{
    if at > 0 {
        assert(t[at - 1] == u[at - 1]);
        lemma_line_start_prefix(t, u, at - 1);
    }
}

/// Splitting a list item at the end of its line (Enter at the end of a
/// bullet) moves a selection that starts at or after the split right by
/// exactly the number of bytes the split inserted: the new text's length
/// less the old one's.
pub proof fn law_split_moves_selection_by_inserted(t: Seq<u8>, at: usize, sel: (int, int))
    requires
        valid_utf8(t),
        at <= t.len(),
        at == t.len() || is_newline(t[at as int]),
        at <= sel.0,
    ensures
        ({
            let cmd = Cmd::SplitListItem { at };
            let nt = cmd_result(t, cmd);
            let d = nt.len() - t.len();
            transformed_selection(nt, sel, cmd) == (sel.0 + d, sel.1 + d)
        }),
{
    let cmd = Cmd::SplitListItem { at };
    let ins = split_insert(t, at as int);
    let e = cmd_edits(t, cmd);
    assert(e =~= seq![(at as int, at as int, ins)]);
    assert(e.drop_last() =~= Seq::<(int, int, Seq<u8>)>::empty());
    assert(edited_prefix(t, e.drop_last()) =~= Seq::<u8>::empty());
    assert(prev_end(e, 0) == 0);
    assert(prev_end(e, 1) == at);
    assert(edited_prefix(t, e) =~= t.subrange(0, at as int) + ins);
    let nt = cmd_result(t, cmd);
    assert(nt =~= t.subrange(0, at as int) + ins + t.subrange(at as int, t.len() as int));
    assert(nt.len() - t.len() == ins.len());
    // The line that holds the split is the same before and after it.
    lemma_line_bounds(t, at as int);
    let ls = line_start_at(t, at as int);
    assert forall|k: int| 0 <= k < at implies t[k] == nt[k] by {}
    lemma_line_start_prefix(t, nt, at as int);
    lemma_line_end_at(t, ls, at as int);
    assert(nt[at as int] == 10u8);
    assert forall|j: int| ls <= j < at implies !is_newline(#[trigger] nt[j]) by {
        assert(nt[j] == t[j]);
    }
    lemma_line_end_at(nt, ls, at as int);
    assert(line_from(nt, ls) =~= line_from(t, ls));
    assert(split_insert(nt, at as int) == ins);
}

/// Deleting an empty range changes nothing.
pub proof fn law_empty_delete_is_identity(t: Seq<u8>, at: usize)
    requires
        at <= t.len(),
    ensures
        cmd_result(t, Cmd::DeleteRange { range: at..at }) == t,
{
    let e = cmd_edits(t, Cmd::DeleteRange { range: at..at });
    assert(e =~= seq![(at as int, at as int, Seq::<u8>::empty())]);
    assert(e.drop_last() =~= Seq::<(int, int, Seq<u8>)>::empty());
    assert(edited_prefix(t, e.drop_last()) =~= Seq::<u8>::empty());
    assert(prev_end(e, 0) == 0);
    assert(prev_end(e, 1) == at);
    assert(edited_prefix(t, e) =~= t.subrange(0, at as int));
    assert(cmd_result(t, Cmd::DeleteRange { range: at..at }) =~= t);
}

} // verus!
