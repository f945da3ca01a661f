//! Paths as `/`-separated text, and the few operations on them that the
//! notes layout needs: components, joining, the file name and its extension.
use crate::models::chars::{chars_to_string, str_to_chars};
use vstd::prelude::*;

verus! {

/// The text of each string.
pub open spec fn strs(v: Seq<String>) -> Seq<Seq<char>> {
    v.map_values(|x: String| x@)
}

/// The component list after the piece `cur` ends: a piece that is empty or
/// `.` adds nothing.
pub open spec fn flush(acc: Seq<Seq<char>>, cur: Seq<char>) -> Seq<Seq<char>> {
    if cur.len() == 0 || cur == seq!['.'] {
        acc
    } else {
        acc.push(cur)
    }
}

/// The components of `s[i..]`, reading on from a current piece `cur` and the
/// components `acc` found before it.
pub open spec fn comps_from(s: Seq<char>, i: int, cur: Seq<char>, acc: Seq<Seq<char>>) -> Seq<Seq<char>>
    decreases s.len() - i,
{
    if i >= s.len() {
        flush(acc, cur)
    } else if s[i] == '/' {
        comps_from(s, i + 1, Seq::empty(), flush(acc, cur))
    } else {
        comps_from(s, i + 1, cur.push(s[i]), acc)
    }
}

/// The components of a path: `/` for the root where the path starts with a
/// separator, then each piece between separators that is neither empty nor
/// `.`.
pub open spec fn path_comps(s: Seq<char>) -> Seq<Seq<char>> {
    comps_from(s, 0, Seq::empty(), if s.len() > 0 && s[0] == '/' { seq![seq!['/']] } else { Seq::empty() })
}

/// Two paths are the same path when their components are.
pub open spec fn same_path_spec(a: Seq<char>, b: Seq<char>) -> bool {
    path_comps(a) == path_comps(b)
}

/// `name` appended to `base`: `name` itself where it is absolute or `base` is
/// empty, else with one separator between them.
pub open spec fn join_spec(base: Seq<char>, name: Seq<char>) -> Seq<char> {
    if name.len() > 0 && name[0] == '/' {
        name
    } else if base.len() > 0 && base.last() != '/' {
        base + seq!['/'] + name
    } else {
        base + name
    }
}

/// The final component of a path, where it names a file or folder (not the
/// root, not `..`).
pub open spec fn file_name_spec(s: Seq<char>) -> Option<Seq<char>> {
    let c = path_comps(s);
    if c.len() > 0 && c.last() != seq!['/'] && c.last() != seq!['.', '.'] {
        Some(c.last())
    } else {
        None
    }
}

/// Whether `d` is the position of the last `.` in `f`.
pub open spec fn is_last_dot(f: Seq<char>, d: int) -> bool {
    0 <= d < f.len() && f[d] == '.' && forall|j: int| d < j < f.len() ==> f[j] != '.'
}

/// The extension of a file name: what follows its last `.`, where that dot
/// is not its first character.
pub open spec fn name_extension(f: Seq<char>) -> Option<Seq<char>> {
    if exists|d: int| 0 < d && is_last_dot(f, d) {
        let d = choose|d: int| 0 < d && is_last_dot(f, d);
        Some(f.skip(d + 1))
    } else {
        None
    }
}

/// The extension of a path's file name.
pub open spec fn extension_spec(s: Seq<char>) -> Option<Seq<char>> {
    match file_name_spec(s) {
        Some(f) => name_extension(f),
        None => None,
    }
}

/// Whether `a` and `b` hold the same text.
pub fn chars_eq(a: &[char], b: &[char]) -> (r: bool)
    ensures
        r == (a@ == b@),
{
    if a.len() != b.len() {
        return false;
    }
    let mut i: usize = 0;
    while i < a.len()
        invariant
            a@.len() == b@.len(),
            0 <= i <= a@.len(),
            forall|j: int| 0 <= j < i ==> a@[j] == b@[j],
        decreases a@.len() - i,
    {
        if a[i] != b[i] {
            return false;
        }
        i = i + 1;
    }
    assert(a@ =~= b@);
    true
}

/// Whether two strings hold the same text.
pub fn str_eq(a: &str, b: &str) -> (r: bool)
    ensures
        r == (a@ == b@),
{
    let ac = str_to_chars(a);
    let bc = str_to_chars(b);
    chars_eq(ac.as_slice(), bc.as_slice())
}

fn flush_into(acc: &mut Vec<String>, cur: &Vec<char>)
    ensures
        strs(final(acc)@) == flush(strs(old(acc)@), cur@),
{
    if cur.len() == 0 || (cur.len() == 1 && cur[0] == '.') {
        proof {
            if cur.len() == 1 {
                assert(cur@ =~= seq!['.']);
            }
        }
    } else {
        proof {
            if cur@ == seq!['.'] {
                assert(cur@[0] == '.');
            }
        }
        let s = chars_to_string(cur.as_slice());
        acc.push(s);
        assert(strs(acc@) =~= strs(old(acc)@).push(cur@));
    }
}

/// The components of a path.
pub fn components(s: &str) -> (r: Vec<String>)
    ensures
        strs(r@) == path_comps(s@),
{
    let chars = str_to_chars(s);
    let mut acc: Vec<String> = Vec::new();
    if chars.len() > 0 && chars[0] == '/' {
        let mut root: Vec<char> = Vec::new();
        root.push('/');
        acc.push(chars_to_string(root.as_slice()));
        assert(strs(acc@) =~= seq![seq!['/']]);
    } else {
        assert(strs(acc@) =~= Seq::<Seq<char>>::empty());
    }
    let mut cur: Vec<char> = Vec::new();
    let mut i: usize = 0;
    while i < chars.len()
        invariant
            chars@ == s@,
            0 <= i <= chars@.len(),
            comps_from(s@, i as int, cur@, strs(acc@)) == path_comps(s@),
        decreases chars@.len() - i,
    {
        if chars[i] == '/' {
            flush_into(&mut acc, &cur);
            cur = Vec::new();
            assert(cur@ =~= Seq::<char>::empty());
        } else {
            cur.push(chars[i]);
        }
        i = i + 1;
    }
    flush_into(&mut acc, &cur);
    acc
}

/// Whether two lists of strings hold the same texts.
pub fn strings_eq(a: &Vec<String>, b: &Vec<String>) -> (r: bool)
    ensures
        r == (strs(a@) == strs(b@)),
{
    if a.len() != b.len() {
        assert(strs(a@).len() != strs(b@).len());
        return false;
    }
    let mut i: usize = 0;
    while i < a.len()
        invariant
            a@.len() == b@.len(),
            0 <= i <= a@.len(),
            forall|j: int| 0 <= j < i ==> a@[j]@ == b@[j]@,
        decreases a@.len() - i,
    {
        if a[i] != b[i] {
            assert(strs(a@)[i as int] != strs(b@)[i as int]);
            return false;
        }
        i = i + 1;
    }
    assert(strs(a@) =~= strs(b@));
    true
}

/// Whether two paths are the same path.
pub fn same_path(a: &str, b: &str) -> (r: bool)
    ensures
        r == same_path_spec(a@, b@),
{
    let ca = components(a);
    let cb = components(b);
    strings_eq(&ca, &cb)
}

/// `name` appended to `base` as a path.
pub fn path_join(base: &str, name: &str) -> (r: String)
    ensures
        r@ == join_spec(base@, name@),
{
    let bc = str_to_chars(base);
    let nc = str_to_chars(name);
    let mut out: Vec<char> = Vec::new();
    if nc.len() > 0 && nc[0] == '/' {
        return chars_to_string(nc.as_slice());
    }
    let mut i: usize = 0;
    while i < bc.len()
        invariant
            0 <= i <= bc@.len(),
            out@ == bc@.take(i as int),
        decreases bc@.len() - i,
    {
        out.push(bc[i]);
        i = i + 1;
        assert(out@ =~= bc@.take(i as int));
    }
    assert(out@ =~= bc@);
    if bc.len() > 0 && bc[bc.len() - 1] != '/' {
        out.push('/');
    }
    let ghost before = out@;
    let mut k: usize = 0;
    while k < nc.len()
        invariant
            0 <= k <= nc@.len(),
            out@ == before + nc@.take(k as int),
        decreases nc@.len() - k,
    {
        out.push(nc[k]);
        k = k + 1;
        assert(out@ =~= before + nc@.take(k as int));
    }
    assert(nc@.take(k as int) =~= nc@);
    chars_to_string(out.as_slice())
}

/// The final component of a path, where it names a file or folder.
pub fn file_name(s: &str) -> (r: Option<String>)
    ensures
        match r {
            Some(n) => file_name_spec(s@) == Some(n@),
            None => file_name_spec(s@) is None,
        },
{
    let mut c = components(s);
    if c.len() == 0 {
        return None;
    }
    let last = c.pop().unwrap();
    assert(strs(c@.push(last)).last() == last@);
    let lc = str_to_chars(last.as_str());
    if lc.len() == 1 && lc[0] == '/' {
        assert(last@ =~= seq!['/']);
        return None;
    }
    if lc.len() == 2 && lc[0] == '.' && lc[1] == '.' {
        assert(last@ =~= seq!['.', '.']);
        return None;
    }
    proof {
        if last@ == seq!['/'] {
            assert(lc@[0] == '/');
        }
        if last@ == seq!['.', '.'] {
            assert(lc@[0] == '.' && lc@[1] == '.');
        }
    }
    Some(last)
}

/// The extension of a file name.
pub fn extension_of_name(f: &str) -> (r: Option<String>)
    ensures
        match r {
            Some(e) => name_extension(f@) == Some(e@),
            None => name_extension(f@) is None,
        },
{
    let fc = str_to_chars(f);
    let mut i: usize = fc.len();
    while i > 0
        invariant
            0 <= i <= fc@.len(),
            fc@ == f@,
            forall|j: int| i <= j < fc@.len() ==> fc@[j] != '.',
        decreases i,
    {
        if fc[i - 1] == '.' {
            let d = i - 1;
            assert(is_last_dot(f@, d as int));
            proof {
                assert forall|e: int| 0 < e && is_last_dot(f@, e) implies e == d by {
                    if e < d {
                        assert(f@[d as int] == '.');
                    }
                    if e > d {
                        assert(fc@[e] != '.');
                    }
                }
            }
            if d == 0 {
                return None;
            }
            let mut out: Vec<char> = Vec::new();
            let mut k: usize = i;
            while k < fc.len()
                invariant
                    i <= k <= fc@.len(),
                    out@ == fc@.subrange(i as int, k as int),
                decreases fc@.len() - k,
            {
                out.push(fc[k]);
                k = k + 1;
                assert(out@ =~= fc@.subrange(i as int, k as int));
            }
            assert(out@ =~= f@.skip(d + 1));
            return Some(chars_to_string(out.as_slice()));
        }
        i = i - 1;
    }
    proof {
        assert forall|d: int| 0 < d implies !is_last_dot(f@, d) by {
            if is_last_dot(f@, d) {
                assert(fc@[d] == '.');
            }
        }
    }
    None
}

/// The extension of a path's file name.
pub fn extension(s: &str) -> (r: Option<String>)
    ensures
        match r {
            Some(e) => extension_spec(s@) == Some(e@),
            None => extension_spec(s@) is None,
        },
{
    match file_name(s) {
        Some(f) => extension_of_name(f.as_str()),
        None => None,
    }
}

} // verus!
