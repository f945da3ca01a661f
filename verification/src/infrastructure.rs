//! File services: one over the disk, one over files held in memory.
use crate::domain::models::{entry_name, notes_layout, FileEntry, NotesStructure};
use crate::domain::services::{FileService, FileServiceError};
use crate::paths::{components, extension_spec, path_comps, strings_eq, strs};
use vstd::prelude::*;

verus! {

/// The file service over the disk.
#[derive(Debug, Default)]
pub struct RealFileService;

impl RealFileService {
    pub fn new() -> RealFileService {
        RealFileService
    }
}

/// A file service over files held in memory, for tests.
#[derive(Debug)]
pub struct MockFileService {
    /// Each path with its text; no two paths are the same path.
    pub files: Vec<(String, String)>,
}

/// The text of each path and content.
pub open spec fn files_view(s: Seq<(String, String)>) -> Seq<(Seq<char>, Seq<char>)> {
    s.map_values(|e: (String, String)| (e.0@, e.1@))
}

/// The position of the first entry at the same path as `p`.
pub open spec fn entry_index(s: Seq<(Seq<char>, Seq<char>)>, p: Seq<char>) -> Option<int>
    decreases s.len(),
{
    if s.len() == 0 {
        None
    } else if path_comps(s[0].0) == path_comps(p) {
        Some(0)
    } else {
        match entry_index(s.drop_first(), p) {
            Some(i) => Some(i + 1),
            None => None,
        }
    }
}

pub proof fn lemma_entry_index(s: Seq<(Seq<char>, Seq<char>)>, p: Seq<char>)
    ensures
        match entry_index(s, p) {
            Some(i) => 0 <= i < s.len() && path_comps(s[i].0) == path_comps(p) && forall|j: int|
                0 <= j < i ==> path_comps(#[trigger] s[j].0) != path_comps(p),
            None => forall|j: int| 0 <= j < s.len() ==> path_comps(#[trigger] s[j].0) != path_comps(p),
        },
    decreases s.len(),
{
    if s.len() > 0 {
        lemma_entry_index(s.drop_first(), p);
        assert forall|j: int| 0 < j < s.len() implies s[j] == s.drop_first()[j - 1] by {}
    }
}

/// The files after `content` is stored at `path`: the text of the entry at
/// that path is replaced, its path kept; else the entry is added at the end.
pub open spec fn stored(s: Seq<(Seq<char>, Seq<char>)>, path: Seq<char>, content: Seq<char>) -> Seq<(Seq<char>, Seq<char>)> {
    match entry_index(s, path) {
        Some(i) => s.update(i, (s[i].0, content)),
        None => s.push((path, content)),
    }
}

/// The paths of the entries whose extension is `md`, in their order.
pub open spec fn markdown_paths(s: Seq<(Seq<char>, Seq<char>)>) -> Seq<Seq<char>>
    decreases s.len(),
{
    if s.len() == 0 {
        Seq::empty()
    } else if extension_spec(s.last().0) == Some(seq!['m', 'd']) {
        markdown_paths(s.drop_last()).push(s.last().0)
    } else {
        markdown_paths(s.drop_last())
    }
}

/// The position of the entry at the same path as `path`.
fn find_entry(files: &Vec<(String, String)>, path: &str) -> (r: Option<usize>)
    ensures
        match entry_index(files_view(files@), path@) {
            Some(i) => r is Some && r->0 as int == i && 0 <= i < files@.len(),
            None => r is None,
        },
{
    let ghost fv = files_view(files@);
    proof {
        lemma_entry_index(fv, path@);
    }
    let pc = components(path);
    let mut i: usize = 0;
    while i < files.len()
        invariant
            strs(pc@) == path_comps(path@),
            0 <= i <= files@.len(),
            fv == files_view(files@),
            fv.len() == files@.len(),
            forall|j: int| 0 <= j < i ==> path_comps(#[trigger] fv[j].0) != path_comps(path@),
            match entry_index(fv, path@) {
                Some(c) => 0 <= c < fv.len() && path_comps(fv[c].0) == path_comps(path@)
                    && forall|j: int| 0 <= j < c ==> path_comps(#[trigger] fv[j].0) != path_comps(path@),
                None => forall|j: int| 0 <= j < fv.len() ==> path_comps(#[trigger] fv[j].0) != path_comps(path@),
            },
        decreases files@.len() - i,
    {
        let fc = components(files[i].0.as_str());
        assert(fv[i as int].0 == files@[i as int].0@);
        if strings_eq(&fc, &pc) {
            return Some(i);
        }
        i = i + 1;
    }
    None
}

impl MockFileService {
    pub fn new() -> (m: MockFileService)
        ensures
            m.files@.len() == 0,
    {
        MockFileService { files: Vec::new() }
    }

    /// Stores `content` at `path`.
    pub fn add_file(&mut self, path: &str, content: &str)
        ensures
            files_view(final(self).files@) == stored(files_view(old(self).files@), path@, content@),
    {
        let p = path.to_owned();
        let c = content.to_owned();
        match find_entry(&self.files, path) {
            Some(i) => {
                let key = self.files[i].0.clone();
                self.files.set(i, (key, c));
                assert(files_view(self.files@) =~= stored(files_view(old(self).files@), path@, content@));
            },
            None => {
                self.files.push((p, c));
                assert(files_view(self.files@) =~= stored(files_view(old(self).files@), path@, content@));
            },
        }
    }

    /// A service holding the files, each stored in turn.
    pub fn with_files(files: Vec<(String, String)>) -> (m: MockFileService)
        ensures
            files_view(m.files@) == stored_all(Seq::empty(), files_view(files@)),
    {
        let mut service = MockFileService::new();
        assert(files_view(service.files@) =~= Seq::<(Seq<char>, Seq<char>)>::empty());
        let mut i: usize = 0;
        while i < files.len()
            invariant
                0 <= i <= files@.len(),
                files_view(service.files@) == stored_all(Seq::empty(), files_view(files@).take(i as int)),
            decreases files@.len() - i,
        {
            assert(files_view(files@).take(i + 1).drop_last() =~= files_view(files@).take(i as int));
            let (p, c) = (files[i].0.clone(), files[i].1.clone());
            service.add_file(p.as_str(), c.as_str());
            i = i + 1;
        }
        assert(files_view(files@).take(i as int) =~= files_view(files@));
        service
    }
}

/// The files after each pair is stored in turn.
pub open spec fn stored_all(s: Seq<(Seq<char>, Seq<char>)>, pairs: Seq<(Seq<char>, Seq<char>)>) -> Seq<(Seq<char>, Seq<char>)>
    decreases pairs.len(),
{
    if pairs.len() == 0 {
        s
    } else {
        let prev = stored_all(s, pairs.drop_last());
        stored(prev, pairs.last().0, pairs.last().1)
    }
}

impl FileService for MockFileService {
    /// The stored text where a file is stored at `path`; not found
    /// otherwise.
    open spec fn reads(&self, path: Seq<char>, r: Result<String, FileServiceError>) -> bool {
        match entry_index(files_view(self.files@), path) {
            Some(i) => r matches Ok(c) && c@ == self.files@[i].1@,
            None => r matches Err(FileServiceError::NotFound(p)) && p@ == path,
        }
    }

    /// The entries of the stored markdown files, in the order they were
    /// stored.
    open spec fn scans(&self, root: Seq<char>, r: Result<Vec<FileEntry>, FileServiceError>) -> bool {
        r matches Ok(v) && {
            let m = markdown_paths(files_view(self.files@));
            &&& v@.len() == m.len()
            &&& forall|i: int| 0 <= i < v@.len() ==> {
                &&& (#[trigger] v@[i]).path@ == m[i]
                &&& !v@[i].is_directory
                &&& v@[i].name@ == entry_name(v@[i].path@)
            }
        }
    }

    /// A layout of the usual folders below `root`.
    open spec fn validates(&self, root: Seq<char>, r: Result<NotesStructure, FileServiceError>) -> bool {
        r matches Ok(n) && notes_layout(n, root)
    }

    fn read_file(&self, path: &str) -> (r: Result<String, FileServiceError>)
        ensures
            match entry_index(files_view(self.files@), path@) {
                Some(i) => r matches Ok(c) && c@ == self.files@[i].1@,
                None => r matches Err(FileServiceError::NotFound(p)) && p@ == path@,
            },
    {
        match find_entry(&self.files, path) {
            Some(i) => Ok(self.files[i].1.clone()),
            None => Err(FileServiceError::NotFound(path.to_owned())),
        }
    }

    /// The entries of the stored files whose extension is `md`, in the
    /// order they were stored.
    fn scan_markdown_files(&self, root: &str) -> (r: Result<Vec<FileEntry>, FileServiceError>)
        ensures
            r is Ok,
            ({
                let v = r->Ok_0@;
                let m = markdown_paths(files_view(self.files@));
                &&& v.len() == m.len()
                &&& forall|i: int| 0 <= i < v.len() ==> {
                    &&& (#[trigger] v[i]).path@ == m[i]
                    &&& !v[i].is_directory
                    &&& v[i].name@ == entry_name(v[i].path@)
                }
            }),
    {
        let mut out: Vec<FileEntry> = Vec::new();
        let mut i: usize = 0;
        while i < self.files.len()
            invariant
                0 <= i <= self.files@.len(),
                out@.len() == markdown_paths(files_view(self.files@).take(i as int)).len(),
                forall|j: int| 0 <= j < out@.len() ==> {
                    &&& (#[trigger] out@[j]).path@ == markdown_paths(files_view(self.files@).take(i as int))[j]
                    &&& !out@[j].is_directory
                    &&& out@[j].name@ == entry_name(out@[j].path@)
                },
            decreases self.files@.len() - i,
        {
            assert(files_view(self.files@).take(i + 1).drop_last() =~= files_view(self.files@).take(i as int));
            assert(files_view(self.files@).take(i + 1).last().0 == self.files@[i as int].0@);
            let e = FileEntry::new(self.files[i].0.clone(), false);
            if e.is_markdown() {
                out.push(e);
            }
            i = i + 1;
        }
        assert(files_view(self.files@).take(i as int) =~= files_view(self.files@));
        Ok(out)
    }

    fn file_exists(&self, path: &str) -> (b: bool)
        ensures
            b == entry_index(files_view(self.files@), path@) is Some,
    {
        match find_entry(&self.files, path) {
            Some(_) => true,
            None => false,
        }
    }

    fn validate_notes_structure(&self, root: &str) -> (r: Result<NotesStructure, FileServiceError>)
        ensures
            r matches Ok(n) && notes_layout(n, root@),
    {
        Ok(NotesStructure::new(root.to_owned()))
    }
}

/// No two entries are at the same path.
pub open spec fn paths_distinct(s: Seq<(Seq<char>, Seq<char>)>) -> bool {
    forall|i: int, j: int| 0 <= i < j < s.len() ==> path_comps((#[trigger] s[i]).0) != path_comps((#[trigger] s[j]).0)
}

/// After a file is stored at a path, reading that path finds the entry
/// with the stored text.
pub proof fn law_read_after_add(s: Seq<(Seq<char>, Seq<char>)>, path: Seq<char>, content: Seq<char>)
    ensures
        entry_index(stored(s, path, content), path) matches Some(i) && stored(s, path, content)[i].1 == content,
{
    lemma_entry_index(s, path);
    let t = stored(s, path, content);
    lemma_entry_index(t, path);
    match entry_index(s, path) {
        Some(i) => {
            match entry_index(t, path) {
                Some(k) => {
                    if k < i {
                        assert(t[k] == s[k]);
                    }
                    if k > i {
                        assert(path_comps(t[i].0) == path_comps(path));
                    }
                },
                None => {
                    assert(path_comps(t[i].0) == path_comps(path));
                },
            }
        },
        None => {
            match entry_index(t, path) {
                Some(k) => {
                    if k < s.len() {
                        assert(t[k] == s[k]);
                    }
                },
                None => {
                    assert(path_comps(t[s.len() as int].0) == path_comps(path));
                },
            }
        },
    }
}

/// Storing a file keeps the entries at distinct paths.
pub proof fn law_add_keeps_paths_distinct(s: Seq<(Seq<char>, Seq<char>)>, path: Seq<char>, content: Seq<char>)
    requires
        paths_distinct(s),
    ensures
        paths_distinct(stored(s, path, content)),
{
    lemma_entry_index(s, path);
    let t = stored(s, path, content);
    assert forall|i: int, j: int| 0 <= i < j < t.len() implies path_comps((#[trigger] t[i]).0) != path_comps((#[trigger] t[j]).0) by {
        match entry_index(s, path) {
            Some(k) => {
                assert(t[i].0 == s[i].0 && t[j].0 == s[j].0);
            },
            None => {
                if j == s.len() {
                    assert(t[i] == s[i]);
                } else {
                    assert(t[i] == s[i] && t[j] == s[j]);
                }
            },
        }
    }
}

} // verus!
