//! Outline items, outline documents, file entries and the notes layout.
use crate::paths::{extension, extension_spec, file_name, file_name_spec, join_spec, path_join};
use vstd::prelude::*;

verus! {

/// The map that a list of key and value pairs stands for: a later pair for
/// a key wins over an earlier one.
pub open spec fn assoc_map(s: Seq<(String, String)>) -> Map<Seq<char>, Seq<char>>
    decreases s.len(),
{
    if s.len() == 0 {
        Map::empty()
    } else {
        assoc_map(s.drop_last()).insert(s.last().0@, s.last().1@)
    }
}

/// No key occurs twice.
pub open spec fn keys_unique(s: Seq<(String, String)>) -> bool {
    forall|i: int, j: int| 0 <= i < j < s.len() ==> s[i].0@ != s[j].0@
}

/// The pairs whose key is not `k`, in their order.
pub open spec fn without_key(s: Seq<(String, String)>, k: Seq<char>) -> Seq<(String, String)>
    decreases s.len(),
{
    if s.len() == 0 {
        s
    } else {
        let t = without_key(s.drop_last(), k);
        if s.last().0@ == k {
            t
        } else {
            t.push(s.last())
        }
    }
}

pub proof fn lemma_without_key(s: Seq<(String, String)>, k: Seq<char>)
    ensures
        assoc_map(without_key(s, k)) == assoc_map(s).remove(k),
        forall|i: int| 0 <= i < without_key(s, k).len() ==> (#[trigger] without_key(s, k)[i]).0@ != k,
        forall|i: int| 0 <= i < without_key(s, k).len() ==> exists|j: int| 0 <= j < s.len() && #[trigger] without_key(s, k)[i] == s[j],
        keys_unique(s) ==> keys_unique(without_key(s, k)),
    decreases s.len(),
{
    if s.len() == 0 {
        assert(assoc_map(s).remove(k) =~= Map::empty());
    } else {
        let dl = s.drop_last();
        lemma_without_key(dl, k);
        let t = without_key(dl, k);
        assert forall|i: int| 0 <= i < t.len() implies exists|j: int| 0 <= j < s.len() && #[trigger] t[i] == s[j] by {
            let j = choose|j: int| 0 <= j < dl.len() && t[i] == dl[j];
            assert(t[i] == s[j]);
        }
        if s.last().0@ == k {
            assert(assoc_map(s).remove(k) =~= assoc_map(dl).remove(k));
            if keys_unique(s) {
                assert(keys_unique(dl));
            }
        } else {
            let w = t.push(s.last());
            assert(w.drop_last() =~= t);
            assert(assoc_map(w) =~= assoc_map(s).remove(k));
            assert forall|i: int| 0 <= i < w.len() implies exists|j: int| 0 <= j < s.len() && #[trigger] w[i] == s[j] by {
                if i < t.len() {
                    assert(w[i] == t[i]);
                } else {
                    assert(w[i] == s[s.len() - 1]);
                }
            }
            if keys_unique(s) {
                assert(keys_unique(dl));
                assert forall|a: int, b: int| 0 <= a < b < w.len() implies w[a].0@ != w[b].0@ by {
                    if b == w.len() - 1 {
                        assert(w[a] == t[a]);
                        let j = choose|j: int| 0 <= j < dl.len() && t[a] == dl[j];
                        assert(t[a] == s[j]);
                    } else {
                        assert(w[a] == t[a] && w[b] == t[b]);
                    }
                }
            }
        }
    }
}

/// One item of an outline, with the items nested below it.
#[derive(Debug)]
pub struct OutlineItem {
    pub content: String,
    pub level: usize,
    pub children: Vec<OutlineItem>,
    /// Key and value pairs; no key occurs twice.
    pub metadata: Vec<(String, String)>,
}

/// A markdown file seen as an outline.
#[derive(Debug)]
pub struct Document {
    pub path: String,
    pub outline: Vec<OutlineItem>,
    /// Key and value pairs; no key occurs twice.
    pub frontmatter: Vec<(String, String)>,
}

impl OutlineItem {
    pub fn new(content: String, level: usize) -> (r: OutlineItem)
        ensures
            r.content == content,
            r.level == level,
            r.children@.len() == 0,
            r.metadata@.len() == 0,
    {
        OutlineItem { content, level, children: Vec::new(), metadata: Vec::new() }
    }

    pub fn with_children(content: String, level: usize, children: Vec<OutlineItem>) -> (r: OutlineItem)
        ensures
            r.content == content,
            r.level == level,
            r.children == children,
            r.metadata@.len() == 0,
    {
        OutlineItem { content, level, children, metadata: Vec::new() }
    }

    pub fn add_child(&mut self, child: OutlineItem)
        ensures
            final(self).children@ == old(self).children@.push(child),
            final(self).content == old(self).content,
            final(self).level == old(self).level,
            final(self).metadata == old(self).metadata,
    {
        self.children.push(child);
    }

    /// Sets the value of `key`, replacing its old value.
    pub fn set_metadata(&mut self, key: String, value: String)
        ensures
            assoc_map(final(self).metadata@) == assoc_map(old(self).metadata@).insert(key@, value@),
            keys_unique(old(self).metadata@) ==> keys_unique(final(self).metadata@),
            final(self).content == old(self).content,
            final(self).level == old(self).level,
            final(self).children == old(self).children,
    {
        let ghost old_meta = self.metadata@;
        let mut kept: Vec<(String, String)> = Vec::new();
        let mut i: usize = 0;
        assert(old_meta.take(0) =~= Seq::<(String, String)>::empty());
        while i < self.metadata.len()
            invariant
                old_meta == self.metadata@,
                0 <= i <= old_meta.len(),
                kept@ == without_key(old_meta.take(i as int), key@),
            decreases old_meta.len() - i,
        {
            proof {
                assert(old_meta.take(i + 1).drop_last() =~= old_meta.take(i as int));
            }
            if self.metadata[i].0 != key {
                let k = self.metadata[i].0.clone();
                let v = self.metadata[i].1.clone();
                kept.push((k, v));
                assert(kept@ =~= without_key(old_meta.take(i + 1), key@));
            } else {
                assert(kept@ =~= without_key(old_meta.take(i + 1), key@));
            }
            i = i + 1;
        }
        assert(old_meta.take(i as int) =~= old_meta);
        proof {
            lemma_without_key(old_meta, key@);
        }
        let ghost kv = key@;
        let ghost vv = value@;
        kept.push((key, value));
        proof {
            assert(kept@.drop_last() =~= without_key(old_meta, kv));
            assert(assoc_map(kept@) =~= assoc_map(old_meta).insert(kv, vv));
        }
        self.metadata = kept;
    }
}

impl Document {
    pub fn new(path: String) -> (d: Document)
        ensures
            d.path == path,
            d.outline@.len() == 0,
            d.frontmatter@.len() == 0,
    {
        Document { path, outline: Vec::new(), frontmatter: Vec::new() }
    }

    pub fn with_outline(path: String, outline: Vec<OutlineItem>) -> (d: Document)
        ensures
            d.path == path,
            d.outline == outline,
            d.frontmatter@.len() == 0,
    {
        Document { path, outline, frontmatter: Vec::new() }
    }

    pub fn add_outline_item(&mut self, item: OutlineItem)
        ensures
            final(self).outline@ == old(self).outline@.push(item),
            final(self).path == old(self).path,
            final(self).frontmatter == old(self).frontmatter,
    {
        self.outline.push(item);
    }
}

/// A file or folder of the notes.
#[derive(Debug, Clone)]
pub struct FileEntry {
    pub path: String,
    pub is_directory: bool,
    pub name: String,
}

/// The name an entry is shown with: the file name of its path, else
/// `Unknown`.
pub open spec fn entry_name(p: Seq<char>) -> Seq<char> {
    match file_name_spec(p) {
        Some(n) => n,
        None => seq!['U', 'n', 'k', 'n', 'o', 'w', 'n'],
    }
}

impl FileEntry {
    pub fn new(path: String, is_directory: bool) -> (e: FileEntry)
        ensures
            e.path == path,
            e.is_directory == is_directory,
            e.name@ == entry_name(path@),
    {
        let name = match file_name(path.as_str()) {
            Some(n) => n,
            None => {
                let u = String::from_str("Unknown");
                proof {
                    reveal_strlit("Unknown");
                }
                u
            },
        };
        FileEntry { path, is_directory, name }
    }

    /// A file whose extension is `md`.
    pub fn is_markdown(&self) -> (b: bool)
        ensures
            b == (!self.is_directory && extension_spec(self.path@) == Some(seq!['m', 'd'])),
    {
        if self.is_directory {
            return false;
        }
        match extension(self.path.as_str()) {
            Some(e) => {
                let md = String::from_str("md");
                proof {
                    reveal_strlit("md");
                    assert(md@ =~= seq!['m', 'd']);
                }
                e == md
            },
            None => false,
        }
    }
}

/// The layout of a notes folder: `pages`, `journal` and `assets` below the
/// root.
#[derive(Debug, Clone)]
pub struct NotesStructure {
    pub root: String,
    pub pages_dir: String,
    pub journal_dir: String,
    pub assets_dir: String,
}

/// `std::path::Path::exists`: whether something is at the path. It reads the
/// disk, so nothing is stated of the result.
#[verifier::external_body]
pub(crate) fn path_exists(p: &str) -> bool {
    std::path::Path::new(p).exists()
}

/// `std::path::Path::is_dir`: whether a folder is at the path. It reads the
/// disk, so nothing is stated of the result.
#[verifier::external_body]
pub(crate) fn path_is_dir(p: &str) -> bool {
    std::path::Path::new(p).is_dir()
}

/// The layout below the root `root`.
pub open spec fn notes_layout(n: NotesStructure, root: Seq<char>) -> bool {
    &&& n.root@ == root
    &&& n.pages_dir@ == join_spec(root, seq!['p', 'a', 'g', 'e', 's'])
    &&& n.journal_dir@ == join_spec(root, seq!['j', 'o', 'u', 'r', 'n', 'a', 'l'])
    &&& n.assets_dir@ == join_spec(root, seq!['a', 's', 's', 'e', 't', 's'])
}

impl NotesStructure {
    pub fn new(root: String) -> (n: NotesStructure)
        ensures
            n.root == root,
            notes_layout(n, root@),
    {
        proof {
            reveal_strlit("pages");
            reveal_strlit("journal");
            reveal_strlit("assets");
            assert("pages"@ =~= seq!['p', 'a', 'g', 'e', 's']);
            assert("journal"@ =~= seq!['j', 'o', 'u', 'r', 'n', 'a', 'l']);
            assert("assets"@ =~= seq!['a', 's', 's', 'e', 't', 's']);
        }
        let pages_dir = path_join(root.as_str(), "pages");
        let journal_dir = path_join(root.as_str(), "journal");
        let assets_dir = path_join(root.as_str(), "assets");
        NotesStructure { root, pages_dir, journal_dir, assets_dir }
    }

    /// Whether the pages folder is on disk.
    pub fn is_valid(&self) -> bool {
        path_exists(self.pages_dir.as_str())
    }
}

} // verus!
