//! The notes folder on disk: where the markdown files are, in which order,
//! and whether a folder is laid out as notes.
//!
//! Walking the disk is left to the caller; the decisions on what it found
//! are made here.
use crate::domain::models::{path_exists, path_is_dir};
use crate::models::file_tree::{node_view, open_root, str_lt, text_lt, with_files, FileTree};
use crate::paths::{components, extension, extension_spec, join_spec, path_comps, path_join, strs};
use vstd::prelude::*;

verus! {

/// Why reading the notes folder failed.
#[derive(Debug, Clone, PartialEq, Eq)]
pub enum IoError {
    /// Nothing is at the path.
    NotFound(String),
    /// The system failed, with its message.
    Io(String),
    /// The folder is not laid out as notes, with the reason.
    InvalidNotesDir(String),
}

/// `pages`.
pub open spec fn pages() -> Seq<char> {
    seq!['p', 'a', 'g', 'e', 's']
}

/// The message when the pages folder is missing.
pub open spec fn no_pages_msg() -> Seq<char> {
    "pages directory not found"@
}

/// The message when the notes folder is missing.
pub open spec fn no_dir_msg() -> Seq<char> {
    "Directory does not exist"@
}

/// Order of path components: the root first, then by text.
pub open spec fn comp_lt(x: Seq<char>, y: Seq<char>) -> bool {
    if x == seq!['/'] {
        y != seq!['/']
    } else if y == seq!['/'] {
        false
    } else {
        text_lt(x, y)
    }
}

/// Order of paths: component by component.
pub open spec fn comps_lt(a: Seq<Seq<char>>, b: Seq<Seq<char>>) -> bool
    decreases a.len(),
{
    if a.len() == 0 {
        b.len() > 0
    } else if b.len() == 0 {
        false
    } else if a[0] != b[0] {
        comp_lt(a[0], b[0])
    } else {
        comps_lt(a.drop_first(), b.drop_first())
    }
}

pub open spec fn path_lt(a: Seq<char>, b: Seq<char>) -> bool {
    comps_lt(path_comps(a), path_comps(b))
}

/// Where `x` joins paths: before the first one it comes before.
pub open spec fn path_pos(s: Seq<Seq<char>>, x: Seq<char>) -> int
    decreases s.len(),
{
    if s.len() == 0 {
        0
    } else if path_lt(x, s[0]) {
        0
    } else {
        1 + path_pos(s.drop_first(), x)
    }
}

/// The paths in order; equal ones keep their order.
pub open spec fn sorted_paths(s: Seq<Seq<char>>) -> Seq<Seq<char>>
    decreases s.len(),
{
    if s.len() == 0 {
        s
    } else {
        let t = sorted_paths(s.drop_last());
        t.insert(path_pos(t, s.last()), s.last())
    }
}

/// The paths whose extension is `md`, in their order.
pub open spec fn md_only(s: Seq<Seq<char>>) -> Seq<Seq<char>>
    decreases s.len(),
{
    if s.len() == 0 {
        s
    } else if extension_spec(s.last()) == Some(seq!['m', 'd']) {
        md_only(s.drop_last()).push(s.last())
    } else {
        md_only(s.drop_last())
    }
}

pub proof fn lemma_path_pos(s: Seq<Seq<char>>, x: Seq<char>)
    ensures
        0 <= path_pos(s, x) <= s.len(),
    decreases s.len(),
{
    if s.len() > 0 {
        lemma_path_pos(s.drop_first(), x);
    }
}

/// Whether the components `a` come before `b`.
fn comps_before(a: &Vec<String>, b: &Vec<String>) -> (r: bool)
    ensures
        r == comps_lt(strs(a@), strs(b@)),
{
    let ghost sa = strs(a@);
    let ghost sb = strs(b@);
    let mut i: usize = 0;
    assert(sa.skip(0) =~= sa);
    assert(sb.skip(0) =~= sb);
    while i < a.len() && i < b.len() && a[i] == b[i]
        invariant
            sa == strs(a@),
            sb == strs(b@),
            0 <= i <= a@.len(),
            i <= b@.len(),
            comps_lt(sa, sb) == comps_lt(sa.skip(i as int), sb.skip(i as int)),
        decreases a@.len() - i,
    {
        proof {
            assert(sa.skip(i as int).drop_first() =~= sa.skip(i + 1));
            assert(sb.skip(i as int).drop_first() =~= sb.skip(i + 1));
            assert(sa.skip(i as int)[0] == sb.skip(i as int)[0]);
        }
        i = i + 1;
    }
    if i == a.len() {
        return i < b.len();
    }
    if i == b.len() {
        return false;
    }
    assert(sa.skip(i as int)[0] == a@[i as int]@);
    assert(sb.skip(i as int)[0] == b@[i as int]@);
    let x = a[i].as_str();
    let y = b[i].as_str();
    let root_x = is_root_comp(x);
    let root_y = is_root_comp(y);
    if root_x {
        !root_y
    } else if root_y {
        false
    } else {
        str_lt(x, y)
    }
}

/// Whether a component is the root.
fn is_root_comp(x: &str) -> (r: bool)
    ensures
        r == (x@ == seq!['/']),
{
    let c = crate::models::chars::str_to_chars(x);
    let r = c.len() == 1 && c[0] == '/';
    proof {
        if r {
            assert(x@ =~= seq!['/']);
        }
        if x@ == seq!['/'] {
            assert(c@[0] == '/');
        }
    }
    r
}

/// Whether path `a` comes before path `b`.
pub fn path_before(a: &str, b: &str) -> (r: bool)
    ensures
        r == path_lt(a@, b@),
{
    let ca = components(a);
    let cb = components(b);
    comps_before(&ca, &cb)
}

/// The paths, sorted component by component.
pub fn sort_paths(v: Vec<String>) -> (r: Vec<String>)
    ensures
        strs(r@) == sorted_paths(strs(v@)),
{
    let ghost sv = strs(v@);
    let mut r: Vec<String> = Vec::new();
    let mut i: usize = 0;
    assert(sv.take(0) =~= Seq::<Seq<char>>::empty());
    assert(strs(r@) =~= Seq::<Seq<char>>::empty());
    while i < v.len()
        invariant
            sv == strs(v@),
            0 <= i <= v@.len(),
            strs(r@) == sorted_paths(sv.take(i as int)),
        decreases v@.len() - i,
    {
        let ghost t = strs(r@);
        let mut p: usize = 0;
        assert(t.skip(0) =~= t);
        while p < r.len() && !path_before(v[i].as_str(), r[p].as_str())
            invariant
                t == strs(r@),
                0 <= p <= r@.len(),
                i < v@.len(),
                path_pos(t, v@[i as int]@) == p + path_pos(t.skip(p as int), v@[i as int]@),
            decreases r@.len() - p,
        {
            assert(t.skip(p as int)[0] == r@[p as int]@);
            assert(t.skip(p as int).drop_first() =~= t.skip(p + 1));
            p = p + 1;
        }
        if p < r.len() {
            assert(t.skip(p as int)[0] == r@[p as int]@);
        }
        proof {
            lemma_path_pos(t, v@[i as int]@);
            assert(sv.take(i + 1).drop_last() =~= sv.take(i as int));
            assert(sv.take(i + 1).last() == v@[i as int]@);
        }
        let x = v[i].clone();
        r.insert(p, x);
        assert(strs(r@) =~= t.insert(p as int, v@[i as int]@));
        i = i + 1;
    }
    assert(sv.take(i as int) =~= sv);
    r
}

/// The paths whose extension is `md`.
pub fn markdown_only(v: &Vec<String>) -> (r: Vec<String>)
    ensures
        strs(r@) == md_only(strs(v@)),
{
    let ghost sv = strs(v@);
    let mut r: Vec<String> = Vec::new();
    let mut i: usize = 0;
    assert(sv.take(0) =~= Seq::<Seq<char>>::empty());
    assert(strs(r@) =~= Seq::<Seq<char>>::empty());
    while i < v.len()
        invariant
            sv == strs(v@),
            0 <= i <= v@.len(),
            strs(r@) == md_only(sv.take(i as int)),
        decreases v@.len() - i,
    {
        proof {
            assert(sv.take(i + 1).drop_last() =~= sv.take(i as int));
            assert(sv.take(i + 1).last() == v@[i as int]@);
        }
        let is_md = match extension(v[i].as_str()) {
            Some(e) => {
                let md = String::from_str("md");
                proof {
                    reveal_strlit("md");
                    assert(md@ =~= seq!['m', 'd']);
                }
                e == md
            },
            None => false,
        };
        if is_md {
            r.push(v[i].clone());
            assert(strs(r@) =~= md_only(sv.take(i as int)).push(v@[i as int]@));
        }
        i = i + 1;
    }
    assert(sv.take(i as int) =~= sv);
    r
}

/// The verdict on what was found at a notes folder: whether something is
/// there, whether it is a folder, and whether its pages folder is there.
pub fn notes_dir_verdict(present: bool, is_dir: bool, pages_exists: bool) -> (r: Result<(), IoError>)
    ensures
        !present || !is_dir ==> (r matches Err(IoError::InvalidNotesDir(m)) && m@ == no_dir_msg()),
        present && is_dir && !pages_exists ==> (r matches Err(IoError::InvalidNotesDir(m)) && m@ == no_pages_msg()),
        present && is_dir && pages_exists ==> r is Ok,
{
    if !present || !is_dir {
        return Err(IoError::InvalidNotesDir(String::from_str("Directory does not exist")));
    }
    if !pages_exists {
        return Err(IoError::InvalidNotesDir(String::from_str("pages directory not found")));
    }
    Ok(())
}

/// Checks that a folder is laid out as notes: it is a folder, with a
/// `pages` folder in it.
pub fn validate_notes_dir(path: &str) -> (r: Result<(), IoError>)
    ensures
        r is Ok || (r matches Err(IoError::InvalidNotesDir(m)) && (m@ == no_dir_msg() || m@ == no_pages_msg())),
{
    let present = path_exists(path);
    let is_dir = path_is_dir(path);
    if !present || !is_dir {
        return notes_dir_verdict(present, is_dir, false);
    }
    let pages_dir = path_join(path, "pages");
    let pages_exists = path_exists(pages_dir.as_str());
    notes_dir_verdict(present, is_dir, pages_exists)
}

/// The verdict of a scan of a notes folder, given whether its pages folder
/// is there and every file that was found below it (`listing`): the
/// markdown files, sorted, where it is there; an error where it is not.
pub fn scan_verdict(pages_exists: bool, listing: &Vec<String>) -> (r: Result<Vec<String>, IoError>)
    ensures
        pages_exists ==> (r matches Ok(v) && strs(v@) == sorted_paths(md_only(strs(listing@)))),
        !pages_exists ==> (r matches Err(IoError::InvalidNotesDir(m)) && m@ == no_pages_msg()),
{
    if !pages_exists {
        return Err(IoError::InvalidNotesDir(String::from_str("pages directory not found")));
    }
    let md = markdown_only(listing);
    Ok(sort_paths(md))
}

/// The markdown files of the notes below `notes_root`, sorted, given every
/// file that was found below its pages folder (`listing`). Fails where the
/// pages folder is missing on disk; `scan_verdict` decides on the answer.
pub fn scan_markdown_files(notes_root: &str, listing: &Vec<String>) -> (r: Result<Vec<String>, IoError>)
    ensures
        match r {
            Ok(v) => strs(v@) == sorted_paths(md_only(strs(listing@))),
            Err(e) => e matches IoError::InvalidNotesDir(m) && m@ == no_pages_msg(),
        },
{
    let pages_dir = path_join(notes_root, "pages");
    let pages_exists = path_exists(pages_dir.as_str());
    scan_verdict(pages_exists, listing)
}

/// The verdict of building the file tree of the notes below `notes_root`,
/// given whether its pages folder is there and every file that was found
/// below it (`listing`): the tree of the sorted markdown files under the
/// pages folder where it is there; an error where it is not.
pub fn file_tree_verdict(notes_root: &str, pages_exists: bool, listing: &Vec<String>) -> (r: Result<FileTree, IoError>)
    ensures
        pages_exists ==> (r matches Ok(t) && node_view(t.root) == with_files(
            open_root(join_spec(notes_root@, pages())),
            join_spec(notes_root@, pages()),
            sorted_paths(md_only(strs(listing@))),
        )),
        !pages_exists ==> (r matches Err(IoError::InvalidNotesDir(m)) && m@ == no_pages_msg()),
{
    proof {
        reveal_strlit("pages");
        assert("pages"@ =~= pages());
    }
    let pages_dir = path_join(notes_root, "pages");
    let files = scan_verdict(pages_exists, listing)?;
    Ok(FileTree::build_from_files(pages_dir, files.as_slice()))
}

/// The file tree of the notes below `notes_root`, given every file that
/// was found below its pages folder (`listing`). Fails where the pages
/// folder is missing on disk; `file_tree_verdict` decides on the answer.
pub fn build_file_tree(notes_root: &str, listing: &Vec<String>) -> (r: Result<FileTree, IoError>)
    ensures
        match r {
            Ok(t) => node_view(t.root) == with_files(
                open_root(join_spec(notes_root@, pages())),
                join_spec(notes_root@, pages()),
                sorted_paths(md_only(strs(listing@))),
            ),
            Err(e) => e matches IoError::InvalidNotesDir(m) && m@ == no_pages_msg(),
        },
{
    let pages_dir = path_join(notes_root, "pages");
    let pages_exists = path_exists(pages_dir.as_str());
    file_tree_verdict(notes_root, pages_exists, listing)
}

} // verus!
