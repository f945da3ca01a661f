//! The editable document: a rope of UTF-8 text, a selection and a version.
use super::commands::{
    cmd_edits, cmd_fits, cmd_in_bounds, cmd_result, existing_marker_len, lemma_lines_last, lemma_lines_step, line_part, lines_edits, lines_from,
    list_marker, marker_text, split_insert, transformed_selection, Cmd, Marker};
use super::edits::{
    build_delta, changed_of, changed_ranges, edit_steps, edit_views, edits_ordered,
    edited_prefix, lemma_apply_steps_valid, lemma_subrange_valid, prev_end, TextEdit};
use super::anchors::{after_rebinding, moved_anchors, rebind_anchors_in_changed_regions, transform_anchors, Anchor, AnchorData};
use super::rope::{delta_apply, delta_steps};
use super::anchors::AnchorId;
use super::points::{block_with_id, located, point_in, PointDescription};
use super::render::{create_snapshot, snapshot_of};
use super::snapshot::Snapshot;
use super::syntax::{
    add_anchors_for_new_blocks, data_found, document_blocks, found_blocks, markdown_syntax, static_anchors, syntax_views,
    with_new_blocks, SyntaxNode};
use super::rope::{rope_bytes, rope_from_str, rope_len, rope_slice, rope_to_string, TextRope};
use super::text::{
    at_boundary, dot_space_at, find_dot_space, indent_of, is_newline, lemma_ascii_not_continuation,
    lemma_after_ascii, lemma_at_boundary, lemma_encode_ascii, lemma_encode_concat,
    lemma_indent_split, lemma_line_bounds, lemma_line_end_at, lemma_marker_bounds, ascii_bytes, ascii_string, newline_string, two_spaces, line_end_from, line_from, line_start_at,
    starts_with2, str_from_utf8, str_starts_numeric, str_trim_start, string_into_bytes, trimmed_of, lemma_starts_numeric, lemma_first_dot_space,
    lemma_no_dot_space, lemma_find_dot_space_in_range};
use vstd::prelude::*;
use vstd::string::StringSliceAdditionalSpecFns;
use vstd::utf8::*;

verus! {

broadcast use vstd::utf8::encode_utf8_valid_utf8;



/// Why a document could not be made.
#[derive(Debug, Clone, Copy, PartialEq, Eq)]
pub enum DocumentError {
    /// The bytes are not valid UTF-8.
    InvalidUtf8,
}

/// Result of applying a command
pub struct Patch {
    pub changed: Vec<std::ops::Range<usize>>,
    pub new_selection: std::ops::Range<usize>,
    pub version: u64,
}

/// Core document structure that holds the text buffer and provides editing
/// operations.
pub struct Document {
    buffer: TextRope,
    selection: std::ops::Range<usize>,
    version: u64,
    /// Anchors for stable block identifiers that are kept across edits.
    anchors: Vec<Anchor>,
}

impl Document {
    #[verifier::type_invariant]
    closed spec fn inv(self) -> bool {
        &&& valid_utf8(rope_bytes(self.buffer))
        &&& rope_bytes(self.buffer).len() <= usize::MAX
    }

    /// The document's text, as UTF-8 bytes.
    pub closed spec fn bytes(self) -> Seq<u8> {
        rope_bytes(self.buffer)
    }

    /// The selection, as a pair of byte offsets.
    pub closed spec fn sel(self) -> (int, int) {
        (self.selection.start as int, self.selection.end as int)
    }

    /// The number of edits applied so far.
    pub closed spec fn ver(self) -> int {
        self.version as int
    }

    /// The document's anchors, in order.
    pub closed spec fn anchor_seq(self) -> Seq<Anchor> {
        self.anchors@
    }

    /// The document's anchors.
    pub fn anchors(&self) -> (r: &Vec<Anchor>)
        ensures
            r@ == self.anchor_seq(),
    {
        &self.anchors
    }

    /// A snapshot of the document for drawing: its version, its blocks and
    /// the blocks grouped, as `render::snapshot_of` says.
    pub fn snapshot(&self) -> (s: Snapshot)
        ensures
            snapshot_of(*self, s),
    {
        create_snapshot(self)
    }

    /// Hit-testing: the block of the document's snapshot that holds the byte
    /// position, and the position's offset from the start of the block's
    /// content.
    pub fn locate_in_block(&self, byte_position: usize) -> (r: Option<(AnchorId, usize)>)
        ensures
            exists|s: Snapshot|
                #[trigger] snapshot_of(*self, s) && match located(s.blocks@, byte_position as int) {
                    Some((id, off)) => r matches Some((rid, roff)) && rid == id && roff == off,
                    None => r is None,
                },
    {
        let s = self.snapshot();
        let r = super::points::locate_in_block(&s, byte_position);
        assert(snapshot_of(*self, s));
        r
    }

    /// Hit-testing: the position's block, offset, and row and column in the
    /// block's text, in the document's snapshot.
    pub fn describe_point(&self, byte_position: usize) -> (r: Option<PointDescription>)
        ensures
            exists|s: Snapshot|
                #[trigger] snapshot_of(*self, s) && match located(s.blocks@, byte_position as int) {
                    Some((id, off)) => match block_with_id(s.blocks@, id) {
                        Some(b) => r matches Some(d) && d.block_id == id && d.local_byte_offset == off
                            && d.textarea_cursor_pos == off && (d.local_line as int, d.local_col as int) == point_in(
                            encode_utf8(b.content@),
                            off,
                        ),
                        None => r is None,
                    },
                    None => r is None,
                },
    {
        let s = self.snapshot();
        let r = super::points::describe_point(&s, byte_position);
        assert(snapshot_of(*self, s));
        r
    }

    /// Sets the anchors to those made from the document's parse tree.
    pub fn create_anchors_from_tree(&mut self)
        ensures
            final(self).bytes() == old(self).bytes(),
            final(self).sel() == old(self).sel(),
            final(self).ver() == old(self).ver(),
            match markdown_syntax(decode_utf8(old(self).bytes())) {
                Some(s) => exists|ns: Seq<SyntaxNode>|
                    syntax_views(ns) == s && final(self).anchor_seq() == super::syntax::static_anchors(#[trigger] found_blocks(ns, 0)),
                None => final(self).anchor_seq().len() == 0,
            },
    {
        proof {
            use_type_invariant(&*self);
        }
        let a = super::syntax::create_anchors_from_tree(self);
        self.anchors = a;
    }

    /// Create a new document from raw bytes
    pub fn from_bytes(bytes: &[u8]) -> (res: Result<Document, DocumentError>)
        ensures
            res is Ok <==> valid_utf8(bytes@),
            res matches Ok(doc) ==> {
                &&& doc.bytes() == bytes@
                &&& doc.sel() == (bytes@.len() as int, bytes@.len() as int)
                &&& doc.ver() == 0
                &&& doc.anchor_seq().len() == 0
            },
            res matches Err(e) ==> e == DocumentError::InvalidUtf8,
    {
        match str_from_utf8(bytes) {
            Some(text) => {
                let buffer = rope_from_str(text);
                let len = rope_len(&buffer);
                Ok(Document { buffer, selection: len..len, version: 0, anchors: Vec::new() })
            },
            None => Err(DocumentError::InvalidUtf8),
        }
    }

    /// Get the document's content as raw bytes (exact round-trip)
    pub fn to_bytes(&self) -> (b: Vec<u8>)
        ensures
            b@ == self.bytes(),
    {
        string_into_bytes(rope_to_string(&self.buffer))
    }

    /// Get the current selection range
    pub fn selection(&self) -> (r: std::ops::Range<usize>)
        ensures
            (r.start as int, r.end as int) == self.sel(),
    {
        self.selection.start..self.selection.end
    }

    /// Set the selection range
    pub fn set_selection(&mut self, selection: std::ops::Range<usize>)
        ensures
            final(self).sel() == (selection.start as int, selection.end as int),
            final(self).bytes() == old(self).bytes(),
            final(self).ver() == old(self).ver(),
    {
        proof {
            use_type_invariant(&*self);
        }
        self.selection = selection;
    }

    /// Get the current version
    pub fn version(&self) -> (v: u64)
        ensures
            v == self.ver(),
    {
        self.version
    }

    /// The length of the text in bytes; the text is valid UTF-8.
    pub fn len(&self) -> (n: usize)
        ensures
            n == self.bytes().len(),
            valid_utf8(self.bytes()),
    {
        proof {
            use_type_invariant(self);
        }
        rope_len(&self.buffer)
    }

    /// The text of a byte range, whose ends lie on character boundaries.
    pub fn slice_to_cow(&self, range: std::ops::Range<usize>) -> (s: String)
        requires
            range.start <= range.end <= self.bytes().len(),
            is_char_boundary(self.bytes(), range.start as int),
            is_char_boundary(self.bytes(), range.end as int),
        ensures
            encode_utf8(s@) == self.bytes().subrange(range.start as int, range.end as int),
    {
        rope_slice(&self.buffer, range.start, range.end)
    }

    /// Get the current text content
    pub fn text(&self) -> (s: String)
        ensures
            encode_utf8(s@) == self.bytes(),
    {
        rope_to_string(&self.buffer)
    }

    /// Find the start of the line containing the given offset
    fn find_line_start(&self, offset: usize) -> (r: usize)
        requires
            at_boundary(self.bytes(), offset as int),
        ensures
            r == line_start_at(self.bytes(), offset as int),
    {
        proof {
            use_type_invariant(self);
            lemma_at_boundary(self.bytes(), offset as int);
            is_char_boundary_start_end_of_seq(self.bytes());
        }
        let ghost t = self.bytes();
        let text = rope_slice(&self.buffer, 0, offset);
        let b = text.as_str().as_bytes();
        assert(b@ == t.subrange(0, offset as int));
        let mut j = offset;
        while j > 0
            invariant
                t == self.bytes(),
                0 <= j <= offset,
                b@ == t.subrange(0, offset as int),
                offset <= t.len(),
                line_start_at(t, j as int) == line_start_at(t, offset as int),
            decreases j,
        {
            assert(b@[j - 1] == t[j - 1]);
            if b[j - 1] == 10u8 {
                assert(line_start_at(t, j as int) == j);
                return j;
            }
            j = j - 1;
        }
        0
    }

    /// Get the text of the line starting at the given offset
    fn get_line_at(&self, line_start: usize) -> (line: String)
        requires
            at_boundary(self.bytes(), line_start as int),
        ensures
            encode_utf8(line@) == line_from(self.bytes(), line_start as int),
    {
        proof {
            use_type_invariant(self);
            lemma_at_boundary(self.bytes(), line_start as int);
            is_char_boundary_start_end_of_seq(self.bytes());
        }
        let ghost t = self.bytes();
        let len = rope_len(&self.buffer);
        let text = rope_slice(&self.buffer, line_start, len);
        let s = text.as_str();
        let b = s.as_bytes();
        assert(b@ == t.subrange(line_start as int, len as int));
        assert(valid_utf8(encode_utf8(s@)));
        let mut j: usize = 0;
        while j < b.len()
            invariant
                t == self.bytes(),
                b@ == t.subrange(line_start as int, len as int),
                valid_utf8(b@),
                b@ == encode_utf8(s@),
                len == t.len(),
                line_start <= len,
                0 <= j <= b@.len(),
                line_end_from(t, line_start + j) == line_end_from(t, line_start as int),
            decreases b@.len() - j,
        {
            assert(b@[j as int] == t[line_start + j]);
            if b[j] == 10u8 {
                proof {
                    lemma_ascii_not_continuation(b@[j as int]);
                    lemma_at_boundary(b@, j as int);
                }
                let (first, _) = s.split_at(j);
                assert(first.spec_bytes() =~= line_from(t, line_start as int));
                let r = first.to_owned();
                assert(encode_utf8(r@) == first.spec_bytes());
                return r;
            }
            j = j + 1;
        }
        assert(b@ =~= line_from(t, line_start as int));
        text
    }

    /// Extract indentation and list marker from a line
    fn extract_list_info(&self, line: &str) -> (info: (Option<String>, Option<String>))
        requires
            encode_utf8(line@).len() <= usize::MAX,
        ensures
            ({
                let l = encode_utf8(line@);
                &&& match info.0 {
                    Some(ind) => indent_of(l).len() > 0 && encode_utf8(ind@) == indent_of(l),
                    None => indent_of(l).len() == 0,
                }
                &&& match info.1 {
                    Some(m) => list_marker(trimmed_of(l)) == Some(encode_utf8(m@)),
                    None => list_marker(trimmed_of(l)) is None,
                }
            }),
    {
        let ghost l = encode_utf8(line@);
        proof {
            lemma_indent_split(l);
            encode_utf8_decode_utf8(line@);
        }
        let trimmed = str_trim_start(line);
        assert(trimmed.spec_bytes() == trimmed_of(l));
        let indent_len = line.len() - trimmed.len();
        assert(indent_len == indent_of(l).len());
        let indent = if indent_len > 0 {
            let (first, _) = line.split_at(indent_len);
            assert(first.spec_bytes() =~= indent_of(l));
            Some(first.to_owned())
        } else {
            None
        };
        let tb = trimmed.as_bytes();
        assert(tb@ == trimmed_of(l));
        proof {
            lemma_starts_numeric(trimmed@);
            reveal_strlit("-");
            reveal_strlit("*");
            reveal_strlit("+");
            lemma_encode_ascii('-');
            lemma_encode_ascii('*');
            lemma_encode_ascii('+');
        }
        let marker = if tb.len() >= 2 && tb[0] == 45u8 && tb[1] == 32u8 {
            let m = String::from_str("-");
            assert(m@ == seq!['-']);
            assert(('-' as u32) as u8 == 45u8);
            assert(encode_utf8(m@) == seq![45u8]);
            Some(m)
        } else if tb.len() >= 2 && tb[0] == 42u8 && tb[1] == 32u8 {
            let m = String::from_str("*");
            assert(m@ == seq!['*']);
            assert(('*' as u32) as u8 == 42u8);
            assert(encode_utf8(m@) == seq![42u8]);
            Some(m)
        } else if tb.len() >= 2 && tb[0] == 43u8 && tb[1] == 32u8 {
            let m = String::from_str("+");
            assert(m@ == seq!['+']);
            assert(('+' as u32) as u8 == 43u8);
            assert(encode_utf8(m@) == seq![43u8]);
            Some(m)
        } else if str_starts_numeric(trimmed) {
            match find_dot_space_in(tb) {
                Some(p) => {
                    proof {
                        lemma_ascii_not_continuation(tb@[p + 1]);
                        lemma_at_boundary(tb@, p + 1);
                    }
                    let (first, _) = trimmed.split_at(p + 1);
                    assert(first.spec_bytes() =~= tb@.take(p + 1));
                    let m = first.to_owned();
                    assert(encode_utf8(m@) == tb@.take(p + 1));
                    Some(m)
                },
                None => None,
            }
        } else {
            None
        };
        (indent, marker)
    }

    /// Apply a command to the document. The anchors are moved through the
    /// edit, made again from the blocks found after it where the edit reaches
    /// into them, and blocks that no anchor stands for get one.
    pub fn apply(&mut self, cmd: Cmd) -> (patch: Patch)
        requires
            cmd_in_bounds(old(self).bytes(), cmd),
            cmd_fits(old(self).bytes(), cmd),
            old(self).ver() < u64::MAX,
            ({
                let ns = transformed_selection(cmd_result(old(self).bytes(), cmd), old(self).sel(), cmd);
                0 <= ns.0 <= usize::MAX && 0 <= ns.1 <= usize::MAX
            }),
        ensures
            final(self).bytes() == cmd_result(old(self).bytes(), cmd),
            final(self).sel() == transformed_selection(final(self).bytes(), old(self).sel(), cmd),
            final(self).ver() == old(self).ver() + 1,
            patch.version == final(self).ver(),
            (patch.new_selection.start as int, patch.new_selection.end as int) == final(self).sel(),
            ranges_match(
                patch.changed@,
                changed_ranges(
                    edit_steps(
                        old(self).bytes().len() as int,
                        cmd_edits(old(self).bytes(), cmd),
                    ),
                ),
            ),
            ({
                let moved = moved_anchors(
                    edit_steps(old(self).bytes().len() as int, cmd_edits(old(self).bytes(), cmd)),
                    old(self).anchor_seq(),
                    final(self).bytes().len() as int,
                );
                match markdown_syntax(decode_utf8(final(self).bytes())) {
                    Some(s) => exists|ns: Seq<SyntaxNode>, d: Seq<AnchorData>|
                        #![trigger found_blocks(ns, 0), after_rebinding(patch.changed@, moved, d)]
                        syntax_views(ns) == s && data_found(d, found_blocks(ns, 0))
                            && final(self).anchor_seq() == with_new_blocks(
                            after_rebinding(patch.changed@, moved, d),
                            static_anchors(found_blocks(ns, 0)),
                        ),
                    None => final(self).anchor_seq() == moved,
                }
            }),
    {
        proof {
            use_type_invariant(&*self);
        }
        let ghost t = self.bytes();
        let edits = self.compile_command(&cmd);
        let delta = build_delta(&self.buffer, &edits);
        let changed = changed_of(&delta);
        let new_buffer = delta_apply(&delta, &self.buffer);
        proof {
            lemma_apply_steps_valid(delta_steps(delta), t);
        }
        self.buffer = new_buffer;
        let ghost nt = self.bytes();
        let new_len = rope_len(&self.buffer);
        let mut anchors = Vec::new();
        std::mem::swap(&mut anchors, &mut self.anchors);
        transform_anchors(&mut anchors, &delta, new_len);
        let ghost moved = anchors@;
        let blocks = document_blocks(self);
        let ghost gblocks = blocks;
        match blocks {
            Some((data, found)) => {
                rebind_anchors_in_changed_regions(&mut anchors, changed.as_slice(), Some(data));
                add_anchors_for_new_blocks(&mut anchors, found);
            },
            None => {},
        }
        proof {
            assert(moved == moved_anchors(
                edit_steps(t.len() as int, cmd_edits(t, cmd)),
                old(self).anchor_seq(),
                nt.len() as int,
            ));
            match gblocks {
                Some((d, a)) => {
                    let ns = choose|ns: Seq<SyntaxNode>|
                        syntax_views(ns) == markdown_syntax(decode_utf8(nt))->0 && data_found(d@, #[trigger] found_blocks(ns, 0))
                            && a@ == static_anchors(found_blocks(ns, 0));
                    assert(syntax_views(ns) == markdown_syntax(decode_utf8(nt))->0 && data_found(d@, found_blocks(ns, 0))
                        && anchors@ == with_new_blocks(after_rebinding(changed@, moved, d@), static_anchors(found_blocks(ns, 0))));
                },
                None => {},
            }
        }
        self.anchors = anchors;
        let new_selection = self.transform_selection_for_command(&self.selection, &cmd, Ghost(t));
        self.selection = new_selection.start..new_selection.end;
        self.version = self.version + 1;
        Patch { changed, new_selection, version: self.version }
    }

    /// Transform selection based on the command being applied, measured on
    /// the text after the command.
    fn transform_selection_for_command(
        &self,
        range: &std::ops::Range<usize>,
        cmd: &Cmd,
        Ghost(before): Ghost<Seq<u8>>,
    ) -> (r: std::ops::Range<usize>)
        requires
            cmd_in_bounds(before, *cmd),
            self.bytes() == cmd_result(before, *cmd),
            self.bytes().len() + 2 <= usize::MAX,
            ({
                let ns = transformed_selection(self.bytes(), (range.start as int, range.end as int), *cmd);
                0 <= ns.0 <= usize::MAX && 0 <= ns.1 <= usize::MAX
            }),
        ensures
            (r.start as int, r.end as int) == transformed_selection(
                self.bytes(),
                (range.start as int, range.end as int),
                *cmd,
            ),
    {
        proof {
            use_type_invariant(self);
        }
        match cmd {
            Cmd::InsertText { at, text } => {
                let text_len = text.as_str().len();
                if *at <= range.start {
                    (range.start + text_len)..(range.end + text_len)
                } else if *at < range.end {
                    range.start..(range.end + text_len)
                } else {
                    range.start..range.end
                }
            },
            Cmd::DeleteRange { range: del_range } => {
                let del_len = del_range.end - del_range.start;
                if del_range.end <= range.start {
                    (range.start - del_len)..(range.end - del_len)
                } else if del_range.start >= range.end {
                    range.start..range.end
                } else {
                    let collapse_point = del_range.start;
                    collapse_point..collapse_point
                }
            },
            Cmd::SplitListItem { at } => {
                proof {
                    lemma_split_point(before, *at as int, self.bytes());
                    lemma_split_insert_len(self.bytes(), *at as int);
                }
                let insert_len = self.calculate_split_insert_length(*at);
                if *at <= range.start {
                    (range.start + insert_len)..(range.end + insert_len)
                } else if *at < range.end {
                    range.start..(range.end + insert_len)
                } else {
                    range.start..range.end
                }
            },
            _ => range.start..range.end,
        }
    }

    /// The text that splitting a list item at `at` inserts.
    #[verifier::rlimit(40)]
    fn split_insert_text(&self, at: usize) -> (r: String)
        requires
            at_boundary(self.bytes(), at as int),
        ensures
            encode_utf8(r@) == split_insert(self.bytes(), at as int),
    {
        proof {
            use_type_invariant(self);
            lemma_line_bounds(self.bytes(), at as int);
        }
        let ghost t = self.bytes();
        let line_start = self.find_line_start(at);
        let line_text = self.get_line_at(line_start);
        proof {
            lemma_line_bounds(t, line_start as int);
        }
        let (indent, marker) = self.extract_list_info(line_text.as_str());
        let ghost l = encode_utf8(line_text@);
        let mut insert_text = newline_string();
        proof {
            reveal_strlit(" ");
            lemma_encode_ascii(' ');
        }
        if let Some(indent_str) = indent {
            let ghost before = insert_text@;
            insert_text.append(indent_str.as_str());
            proof {
                lemma_encode_concat(before, indent_str@);
            }
        } else {
            assert(encode_utf8(insert_text@) == seq![10u8] + indent_of(l));
        }
        let ghost mid = insert_text@;
        assert(encode_utf8(mid) == seq![10u8] + indent_of(l));
        if let Some(m) = marker {
            insert_text.append(m.as_str());
            proof {
                lemma_encode_concat(mid, m@);
            }
            let ghost mid2 = insert_text@;
            insert_text.append(" ");
            proof {
                lemma_encode_concat(mid2, " "@);
                assert(" "@ == seq![' ']);
                assert(encode_utf8(" "@) == seq![32u8]);
                assert(l == line_from(t, line_start_at(t, at as int)));
                assert(list_marker(trimmed_of(l)) == Some(encode_utf8(m@)));
            }
            assert(encode_utf8(insert_text@) =~= split_insert(t, at as int));
        } else {
            assert(l == line_from(t, line_start_at(t, at as int)));
            assert(encode_utf8(insert_text@) =~= split_insert(t, at as int));
        }
        insert_text
    }

    /// Calculate how many bytes will be inserted by a split operation
    fn calculate_split_insert_length(&self, at: usize) -> (n: usize)
        requires
            at_boundary(self.bytes(), at as int),
            split_insert(self.bytes(), at as int).len() <= usize::MAX,
        ensures
            n == split_insert(self.bytes(), at as int).len(),
    {
        proof {
            use_type_invariant(self);
            lemma_line_bounds(self.bytes(), at as int);
        }
        let ghost t = self.bytes();
        let line_start = self.find_line_start(at);
        let line_text = self.get_line_at(line_start);
        proof {
            lemma_line_bounds(t, line_start as int);
        }
        let (indent, marker) = self.extract_list_info(line_text.as_str());
        let mut len: usize = 1;
        if let Some(indent_str) = indent {
            len = len + indent_str.as_str().len();
        }
        if let Some(marker_str) = marker {
            len = len + marker_str.as_str().len() + 1;
        }
        len
    }

    /// The replacement that changing a line's list marker makes.
    #[verifier::rlimit(40)]
    fn toggle_marker_edit(&self, line_start: usize, to: Marker) -> (e: TextEdit)
        requires
            at_boundary(self.bytes(), line_start as int),
        ensures
            ({
                let line = line_from(self.bytes(), line_start as int);
                let p = line_start + indent_of(line).len();
                e.spec() == (p, p + existing_marker_len(trimmed_of(line)), marker_text(to))
            }),
            edits_ordered(self.bytes(), seq![e.spec()]),
    {
        proof {
            use_type_invariant(self);
            lemma_line_bounds(self.bytes(), line_start as int);
        }
        let ghost t = self.bytes();
        let line_text = self.get_line_at(line_start);
        let ghost l = encode_utf8(line_text@);
        proof {
            lemma_indent_split(l);
            encode_utf8_decode_utf8(line_text@);
        }
        let trimmed = str_trim_start(line_text.as_str());
        let indent_len = line_text.as_str().len() - trimmed.len();
        let tb = trimmed.as_bytes();
        assert(tb@ == trimmed_of(l));
        let marker_len = existing_marker_len_in(trimmed);
        let start = line_start + indent_len;
        let text = marker_string(to);
        let e = TextEdit { start, end: start + marker_len, text };
        proof {
            assert(l == indent_of(l) + tb@);
            lemma_marker_bounds(t, line_start as int, l, tb@, indent_len as int, marker_len as int);
            assert(edits_ordered(t, seq![e.spec()]));
        }
        e
    }

    /// The edits that indent or outdent the lines touching `range`.
    #[verifier::rlimit(80)]
    fn modify_line_starts(&self, range: &std::ops::Range<usize>, outdent: bool) -> (r: Vec<TextEdit>)
        ensures
            edit_views(r@) == lines_edits(
                self.bytes(),
                lines_from(self.bytes(), 0),
                range.start as int,
                range.end as int,
                outdent,
            ),
            edits_ordered(self.bytes(), edit_views(r@)),
    {
        proof {
            use_type_invariant(self);
        }
        let ghost t = self.bytes();
        let ghost lo = range.start as int;
        let ghost hi = range.end as int;
        let ghost full = lines_edits(t, lines_from(t, 0), lo, hi, outdent);
        let text = rope_to_string(&self.buffer);
        let b = text.as_str().as_bytes();
        assert(b@ == t);
        let mut edits: Vec<TextEdit> = Vec::new();
        let mut line_start: usize = 0;
        let mut i: usize = 0;
        while i < b.len()
            invariant
                b@ == t,
                valid_utf8(t),
                full == lines_edits(t, lines_from(t, 0), lo, hi, outdent),
                lo == range.start,
                hi == range.end,
                0 <= line_start <= i <= t.len(),
                line_start == 0 || is_newline(t[line_start - 1]),
                forall|j: int| line_start <= j < i ==> !is_newline(#[trigger] t[j]),
                edit_views(edits@) + lines_edits(t, lines_from(t, line_start as int), lo, hi, outdent)
                    == full,
                edits_ordered(t, edit_views(edits@)),
                prev_end(edit_views(edits@), edits@.len() as int) <= line_start,
            decreases t.len() - i,
        {
            if b[i] == 10u8 {
                let ghost before = edit_views(edits@);
                proof {
                    lemma_line_end_at(t, line_start as int, i as int);
                    lemma_lines_step(t, line_start as int, i as int, lo, hi, outdent);
                }
                push_line_edit(&mut edits, b, line_start, i, range, outdent);
                proof {
                    assert(edit_views(edits@) + lines_edits(t, lines_from(t, i + 1), lo, hi, outdent)
                        =~= before + lines_edits(t, lines_from(t, line_start as int), lo, hi, outdent));
                }
                line_start = i + 1;
            }
            i = i + 1;
        }
        let ghost before = edit_views(edits@);
        proof {
            lemma_line_end_at(t, line_start as int, t.len() as int);
            lemma_lines_last(t, line_start as int, lo, hi, outdent);
        }
        if line_start < b.len() {
            push_line_edit(&mut edits, b, line_start, b.len(), range, outdent);
        }
        assert(edit_views(edits@) =~= full);
        edits
    }

    /// The replacements that a command makes.
    fn compile_command(&self, cmd: &Cmd) -> (r: Vec<TextEdit>)
        requires
            cmd_in_bounds(self.bytes(), *cmd),
        ensures
            edit_views(r@) == cmd_edits(self.bytes(), *cmd),
            edits_ordered(self.bytes(), edit_views(r@)),
    {
        proof {
            use_type_invariant(self);
        }
        let ghost t = self.bytes();
        let r = match cmd {
            Cmd::InsertText { at, text } => {
                vec![TextEdit { start: *at, end: *at, text: text.clone() }]
            },
            Cmd::DeleteRange { range } => {
                vec![TextEdit { start: range.start, end: range.end, text: String::new() }]
            },
            Cmd::SplitListItem { at } => {
                let insert_text = self.split_insert_text(*at);
                vec![TextEdit { start: *at, end: *at, text: insert_text }]
            },
            Cmd::IndentLines { range } => self.modify_line_starts(range, false),
            Cmd::OutdentLines { range } => self.modify_line_starts(range, true),
            Cmd::ToggleMarker { line_start, to } => {
                let e = self.toggle_marker_edit(*line_start, *to);
                vec![e]
            },
        };
        proof {
            assert(encode_utf8(Seq::<char>::empty()) =~= Seq::<u8>::empty());
            assert(edit_views(r@) =~= cmd_edits(t, *cmd));
        }
        r
    }
}

/// The changed ranges match their model, one for one.
pub open spec fn ranges_match(v: Seq<std::ops::Range<usize>>, r: Seq<(int, int)>) -> bool {
    &&& v.len() == r.len()
    &&& forall|i: int| 0 <= i < v.len() ==> (#[trigger] v[i]).start == r[i].0 && v[i].end == r[i].1
}

/// Splitting at `at` puts a line feed at `at`, so `at` stays a character
/// boundary of the new text.
proof fn lemma_split_point(t: Seq<u8>, at: int, nt: Seq<u8>)
    requires
        at_boundary(t, at),
        nt == cmd_result(t, Cmd::SplitListItem { at: at as usize }),
        0 <= at <= usize::MAX,
    ensures
        at_boundary(nt, at),
{
    let es = cmd_edits(t, Cmd::SplitListItem { at: at as usize });
    assert(es =~= seq![(at, at, split_insert(t, at))]);
    assert(es.drop_last() =~= Seq::<(int, int, Seq<u8>)>::empty());
    assert(edited_prefix(t, es.drop_last()) =~= Seq::<u8>::empty());
    assert(prev_end(es, 0) == 0);
    assert(prev_end(es, 1) == at);
    assert(edited_prefix(t, es) =~= t.subrange(0, at) + split_insert(t, at));
    assert(nt == t.subrange(0, at) + split_insert(t, at) + t.subrange(at, t.len() as int));
    assert(nt[at] == 10u8);
    lemma_ascii_not_continuation(nt[at]);
}

/// A split inserts at most two bytes more than the line it splits.
proof fn lemma_split_insert_len(t: Seq<u8>, at: int)
    requires
        valid_utf8(t),
        at_boundary(t, at),
    ensures
        split_insert(t, at).len() <= t.len() + 2,
{
    lemma_line_bounds(t, at);
    let ls = line_start_at(t, at);
    lemma_line_bounds(t, ls);
    let line = line_from(t, ls);
    lemma_at_boundary(t, ls);
    lemma_at_boundary(t, line_end_from(t, ls));
    lemma_subrange_valid(t, ls, line_end_from(t, ls));
    lemma_indent_split(line);
    let tr = trimmed_of(line);
    match list_marker(tr) {
        Some(m) => {
            if !(starts_with2(tr, 45u8, 32u8) || starts_with2(tr, 42u8, 32u8) || starts_with2(tr, 43u8, 32u8)) {
                let p = find_dot_space(tr).unwrap();
                lemma_find_dot_space_in_range(tr);
            }
        },
        None => {},
    }
}

/// The marker text that `ToggleMarker` writes.
fn marker_string(to: Marker) -> (s: String)
    ensures
        encode_utf8(s@) == marker_text(to),
{
    match to {
        Marker::Dash => {
            proof {
                reveal_strlit("- ");
            }
            let s = ascii_string("- ");
            assert(ascii_bytes(s@) =~= seq![45u8, 32u8]);
            s
        },
        Marker::Asterisk => {
            proof {
                reveal_strlit("* ");
            }
            let s = ascii_string("* ");
            assert(ascii_bytes(s@) =~= seq![42u8, 32u8]);
            s
        },
        Marker::Plus => {
            proof {
                reveal_strlit("+ ");
            }
            let s = ascii_string("+ ");
            assert(ascii_bytes(s@) =~= seq![43u8, 32u8]);
            s
        },
        Marker::Numbered => {
            proof {
                reveal_strlit("1. ");
            }
            let s = ascii_string("1. ");
            assert(ascii_bytes(s@) =~= seq![49u8, 46u8, 32u8]);
            s
        },
    }
}

/// The length of the list marker (with its space) that a line, after its
/// indent, starts with.
fn existing_marker_len_in(trimmed: &str) -> (n: usize)
    ensures
        n == existing_marker_len(encode_utf8(trimmed@)),
        n <= encode_utf8(trimmed@).len(),
        n == 0 || encode_utf8(trimmed@)[n - 1] == 32u8,
{
    let tb = trimmed.as_bytes();
    proof {
        lemma_starts_numeric(trimmed@);
    }
    if (tb.len() >= 2 && tb[0] == 45u8 && tb[1] == 32u8) || (tb.len() >= 2 && tb[0] == 42u8 && tb[1]
        == 32u8) || (tb.len() >= 2 && tb[0] == 43u8 && tb[1] == 32u8) {
        2
    } else if str_starts_numeric(trimmed) {
        match find_dot_space_in(tb) {
            Some(dot_pos) => dot_pos + 2,
            None => 0,
        }
    } else {
        0
    }
}

/// Record the edit that indenting or outdenting makes to the line
/// `line_start..line_end`, when the line touches `range`.
fn push_line_edit(
    edits: &mut Vec<TextEdit>,
    b: &[u8],
    line_start: usize,
    line_end: usize,
    range: &std::ops::Range<usize>,
    outdent: bool,
)
    requires
        valid_utf8(b@),
        0 <= line_start <= line_end <= b@.len(),
        line_start == 0 || is_newline(b@[line_start - 1]),
        edits_ordered(b@, edit_views(old(edits)@)),
        prev_end(edit_views(old(edits)@), old(edits)@.len() as int) <= line_start,
    ensures
        edit_views(final(edits)@) == edit_views(old(edits)@) + line_part(
            b@,
            (line_start as int, line_end as int),
            range.start as int,
            range.end as int,
            outdent,
        ),
        edits_ordered(b@, edit_views(final(edits)@)),
        prev_end(edit_views(final(edits)@), final(edits)@.len() as int) <= line_end,
{
    let ghost t = b@;
    let ghost before = edit_views(edits@);
    let ghost old_edits = edits@;
    proof {
        assert(encode_utf8(Seq::<char>::empty()) =~= Seq::<u8>::empty());
        if line_start > 0 {
            lemma_after_ascii(t, line_start - 1);
        }
    }
    if line_start < range.end && line_end >= range.start {
        if outdent {
            if line_end - line_start >= 2 && b[line_start] == 32u8 && b[line_start + 1] == 32u8 {
                proof {
                    lemma_after_ascii(t, line_start + 1);
                }
                edits.push(TextEdit { start: line_start, end: line_start + 2, text: String::new() });
            } else if line_end - line_start >= 1 && b[line_start] == 32u8 {
                proof {
                    lemma_after_ascii(t, line_start as int);
                }
                edits.push(TextEdit { start: line_start, end: line_start + 1, text: String::new() });
            }
        } else {
            edits.push(TextEdit { start: line_start, end: line_start, text: two_spaces() });
        }
    }
    proof {
        if edits@.len() > old_edits.len() {
            assert(edits@ == old_edits.push(edits@.last()));
            assert(edit_views(edits@) =~= before.push(edits@.last().spec()));
        } else {
            assert(edits@ == old_edits);
        }
        assert(edit_views(edits@) =~= before + line_part(
            t,
            (line_start as int, line_end as int),
            range.start as int,
            range.end as int,
            outdent,
        ));
    }
}

/// The byte offset of the first `. ` in `b`, if any.
pub(crate) fn find_dot_space_in(b: &[u8]) -> (r: Option<usize>)
    ensures
        match r {
            Some(p) => find_dot_space(b@) == Some(p as int) && dot_space_at(b@, p as int),
            None => find_dot_space(b@) is None,
        },
{
    let mut i: usize = 0;
    while i < b.len()
        invariant
            0 <= i <= b@.len(),
            forall|j: int| 0 <= j < i ==> !#[trigger] dot_space_at(b@, j),
        decreases b@.len() - i,
    {
        if i + 1 < b.len() && b[i] == 46u8 && b[i + 1] == 32u8 {
            proof {
                lemma_first_dot_space(b@, i as int);
            }
            return Some(i);
        }
        i = i + 1;
    }
    assert forall|j: int| !#[trigger] dot_space_at(b@, j) by {
        if 0 <= j < i {
        }
    }
    proof {
        lemma_no_dot_space(b@);
    }
    None
}

} // verus!
