//! A markdown file of the notes, by its path relative to the notes folder,
//! with the names it is shown with.
use super::chars::{chars_to_string, str_to_chars};
use crate::paths::path_comps;
use vstd::prelude::*;

verus! {

/// Represents a markdown file with a relative path and display-friendly name
#[derive(Debug)]
pub struct MarkdownFile {
    relative_path: String,
    display_name: String,
    display_path: String,
}

/// The components of a relative path: the pieces between `/` that are
/// neither empty nor `.`.
pub open spec fn rel_comps(p: Seq<char>) -> Seq<Seq<char>> {
    let c = path_comps(p);
    if c.len() > 0 && c[0] == seq!['/'] {
        c.drop_first()
    } else {
        c
    }
}

/// The file name of a relative path: its last component, unless that is
/// `..` or there is none.
pub open spec fn rel_file_name(p: Seq<char>) -> Option<Seq<char>> {
    let c = rel_comps(p);
    if c.len() > 0 && c.last() != seq!['.', '.'] {
        Some(c.last())
    } else {
        None
    }
}

/// `relative_path::RelativePath::file_name`: the last component of the path
/// that is not `.`, unless it is `..` or there is none.
#[verifier::external_body]
fn relative_file_name(p: &str) -> (r: Option<String>)
    ensures
        match r {
            Some(n) => rel_file_name(p@) == Some(n@),
            None => rel_file_name(p@) is None,
        },
{
    relative_path::RelativePath::new(p).file_name().map(|n| n.to_string())
}

/// `.md`
pub open spec fn md_suffix() -> Seq<char> {
    seq!['.', 'm', 'd']
}

/// The text without a final `.md`.
pub open spec fn strip_md(s: Seq<char>) -> Seq<char> {
    if s.len() >= 3 && s.skip(s.len() - 3) == md_suffix() {
        s.take(s.len() - 3)
    } else {
        s
    }
}

/// The text without a final `.md`.
fn strip_md_suffix(s: &str) -> (r: String)
    ensures
        r@ == strip_md(s@),
{
    let cs = str_to_chars(s);
    let n = cs.len();
    if n >= 3 && cs[n - 3] == '.' && cs[n - 2] == 'm' && cs[n - 1] == 'd' {
        assert(cs@.skip(n - 3) =~= md_suffix());
        let mut v: Vec<char> = Vec::new();
        let mut i: usize = 0;
        while i < n - 3
            invariant
                n == cs@.len(),
                n >= 3,
                0 <= i <= n - 3,
                v@ == cs@.take(i as int),
            decreases n - 3 - i,
        {
            v.push(cs[i]);
            i = i + 1;
            assert(v@ =~= cs@.take(i as int));
        }
        chars_to_string(v.as_slice())
    } else {
        proof {
            if n >= 3 && cs@.skip(n - 3) == md_suffix() {
                assert(cs@.skip(n - 3)[0] == cs@[n - 3]);
                assert(cs@.skip(n - 3)[1] == cs@[n - 2]);
                assert(cs@.skip(n - 3)[2] == cs@[n - 1]);
            }
        }
        chars_to_string(cs.as_slice())
    }
}

/// The name a file is shown with: its file name without `.md`, or
/// `Untitled` where it has none.
pub open spec fn display_name_of(p: Seq<char>) -> Seq<char> {
    match rel_file_name(p) {
        Some(n) => strip_md(n),
        None => "Untitled"@,
    }
}

impl MarkdownFile {
    /// The relative path.
    pub closed spec fn path_spec(&self) -> Seq<char> {
        self.relative_path@
    }

    /// The display name.
    pub closed spec fn name_spec(&self) -> Seq<char> {
        self.display_name@
    }

    /// The display path.
    pub closed spec fn display_path_spec(&self) -> Seq<char> {
        self.display_path@
    }

    /// Create a new MarkdownFile from a relative path
    pub fn new(relative_path: String) -> (f: MarkdownFile)
        ensures
            f.path_spec() == relative_path@,
            f.name_spec() == display_name_of(relative_path@),
            f.display_path_spec() == strip_md(relative_path@),
    {
        let display_name = match relative_file_name(relative_path.as_str()) {
            Some(n) => strip_md_suffix(n.as_str()),
            None => String::from_str("Untitled"),
        };
        let display_path = strip_md_suffix(relative_path.as_str());
        MarkdownFile { relative_path, display_name, display_path }
    }

    /// Create from a relative path string
    pub fn from_relative_str(path: &str) -> (f: MarkdownFile)
        ensures
            f.path_spec() == path@,
            f.name_spec() == display_name_of(path@),
            f.display_path_spec() == strip_md(path@),
    {
        MarkdownFile::new(path.to_owned())
    }

    /// Get the relative path
    pub fn relative_path(&self) -> (r: &str)
        ensures
            r@ == self.path_spec(),
    {
        self.relative_path.as_str()
    }

    /// Get the display name (without .md extension)
    pub fn display_name(&self) -> (r: &str)
        ensures
            r@ == self.name_spec(),
    {
        self.display_name.as_str()
    }

    /// Get the display path (relative path without .md extension, for use in titles)
    pub fn display_path(&self) -> (r: &str)
        ensures
            r@ == self.display_path_spec(),
    {
        self.display_path.as_str()
    }
}

} // verus!
