//! Character-level pieces of markdown reading: trimming, finding a pair of
//! characters, lines and chunks.
use crate::editing::text::{is_white_space, leading_ws};
use crate::models::chars::{chars_to_string, split_lines};
use vstd::prelude::*;

verus! {

/// The number of trailing whitespace characters.
pub open spec fn trailing_ws(cs: Seq<char>) -> nat
    decreases cs.len(),
{
    if cs.len() > 0 && is_white_space(cs.last()) {
        1 + trailing_ws(cs.drop_last())
    } else {
        0
    }
}

/// The text without its leading and trailing Unicode whitespace (as
/// `str::trim` gives it).
pub open spec fn trim_chars(cs: Seq<char>) -> Seq<char> {
    let a = cs.skip(leading_ws(cs) as int);
    a.take(a.len() - trailing_ws(a))
}

pub proof fn lemma_trailing_ws_bound(cs: Seq<char>)
    ensures
        trailing_ws(cs) <= cs.len(),
    decreases cs.len(),
{
    if cs.len() > 0 && is_white_space(cs.last()) {
        lemma_trailing_ws_bound(cs.drop_last());
    }
}

/// Whether the character is Unicode whitespace.
pub fn is_ws(c: char) -> (b: bool)
    ensures
        b == is_white_space(c),
{
    let u = c as u32;
    u == 9 || u == 10 || u == 11 || u == 12 || u == 13 || u == 32 || u == 0x85 || u == 0xA0 || u == 0x1680 || (
    0x2000 <= u && u <= 0x200A) || u == 0x2028 || u == 0x2029 || u == 0x202F || u == 0x205F || u == 0x3000
}

/// The characters `cs[a..b]` as a string.
pub fn sub_string(cs: &Vec<char>, a: usize, b: usize) -> (r: String)
    requires
        a <= b <= cs@.len(),
    ensures
        r@ == cs@.subrange(a as int, b as int),
{
    let v = sub_chars(cs, a, b);
    chars_to_string(v.as_slice())
}

/// The characters `cs[a..b]`.
pub fn sub_chars(cs: &Vec<char>, a: usize, b: usize) -> (r: Vec<char>)
    requires
        a <= b <= cs@.len(),
    ensures
        r@ == cs@.subrange(a as int, b as int),
{
    let mut v: Vec<char> = Vec::new();
    let mut i: usize = a;
    while i < b
        invariant
            a <= i <= b,
            b <= cs@.len(),
            v@ == cs@.subrange(a as int, i as int),
        decreases b - i,
    {
        v.push(cs[i]);
        i = i + 1;
        assert(v@ =~= cs@.subrange(a as int, i as int));
    }
    v
}

/// The characters of `cs[a..b]` without leading and trailing whitespace.
pub fn trim_range(cs: &Vec<char>, a: usize, b: usize) -> (r: Vec<char>)
    requires
        a <= b <= cs@.len(),
    ensures
        r@ == trim_chars(cs@.subrange(a as int, b as int)),
{
    let ghost s = cs@.subrange(a as int, b as int);
    let mut i: usize = a;
    assert(s.skip(0) =~= s);
    while i < b && is_ws(cs[i])
        invariant
            a <= i <= b,
            b <= cs@.len(),
            s == cs@.subrange(a as int, b as int),
            leading_ws(s) == (i - a) + leading_ws(s.skip(i - a)),
        decreases b - i,
    {
        assert(s.skip(i - a)[0] == cs@[i as int]);
        assert(s.skip(i - a).drop_first() =~= s.skip(i - a + 1));
        i = i + 1;
    }
    if i < b {
        assert(s.skip(i - a)[0] == cs@[i as int]);
    }
    let ghost l = s.skip(i - a);
    assert(leading_ws(s) == i - a);
    assert(l =~= cs@.subrange(i as int, b as int));
    let mut j: usize = b;
    assert(l.take(l.len() as int) =~= l);
    while j > i && is_ws(cs[j - 1])
        invariant
            a <= i <= j <= b,
            b <= cs@.len(),
            l == cs@.subrange(i as int, b as int),
            trailing_ws(l) == (b - j) + trailing_ws(l.take(j - i)),
        decreases j,
    {
        assert(l.take(j - i).last() == cs@[j - 1]);
        assert(l.take(j - i).drop_last() =~= l.take(j - i - 1));
        j = j - 1;
    }
    if j > i {
        assert(l.take(j - i).last() == cs@[j - 1]);
    }
    assert(trailing_ws(l) == b - j);
    let r = sub_chars(cs, i, j);
    assert(r@ =~= l.take(l.len() - trailing_ws(l)));
    r
}

/// The position of the first `a` directly followed by `b`.
pub open spec fn find_pair(t: Seq<char>, a: char, b: char) -> Option<int>
    decreases t.len(),
{
    if t.len() < 2 {
        None
    } else if t[0] == a && t[1] == b {
        Some(0)
    } else {
        match find_pair(t.drop_first(), a, b) {
            Some(i) => Some(i + 1),
            None => None,
        }
    }
}

pub proof fn lemma_find_pair(t: Seq<char>, a: char, b: char)
    ensures
        match find_pair(t, a, b) {
            Some(i) => 0 <= i && i + 2 <= t.len() && t[i] == a && t[i + 1] == b && forall|j: int|
                0 <= j < i ==> !(#[trigger] t[j] == a && t[j + 1] == b),
            None => forall|j: int| 0 <= j && j + 1 < t.len() ==> !(#[trigger] t[j] == a && t[j + 1] == b),
        },
    decreases t.len(),
{
    if t.len() >= 2 {
        lemma_find_pair(t.drop_first(), a, b);
        assert forall|j: int| 0 < j < t.len() implies t[j] == t.drop_first()[j - 1] by {}
    }
}

/// The position of the first `a` directly followed by `b` from `start` on.
pub fn find_pair_from(cs: &Vec<char>, start: usize, a: char, b: char) -> (r: Option<usize>)
    requires
        start <= cs@.len(),
    ensures
        match find_pair(cs@.skip(start as int), a, b) {
            Some(i) => r is Some && r->0 as int == start + i && start + i + 2 <= cs@.len(),
            None => r is None,
        },
{
    let ghost t = cs@.skip(start as int);
    proof {
        lemma_find_pair(t, a, b);
    }
    let mut i: usize = start;
    while i < cs.len() && i + 1 < cs.len()
        invariant
            start <= i <= cs@.len(),
            t == cs@.skip(start as int),
            forall|j: int| start <= j < i && j + 1 < cs@.len() ==> !(#[trigger] cs@[j] == a && cs@[j + 1] == b),
            match find_pair(t, a, b) {
                Some(k) => 0 <= k && k + 2 <= t.len() && t[k] == a && t[k + 1] == b && forall|j: int|
                    0 <= j < k ==> !(#[trigger] t[j] == a && t[j + 1] == b),
                None => forall|j: int| 0 <= j && j + 1 < t.len() ==> !(#[trigger] t[j] == a && t[j + 1] == b),
            },
        decreases cs@.len() - i,
    {
        if cs[i] == a && cs[i + 1] == b {
            proof {
                assert(t[i - start] == a && t[i - start + 1] == b);
                match find_pair(t, a, b) {
                    Some(k) => {
                        if k < i - start {
                            assert(cs@[start + k] == a && cs@[start + k + 1] == b);
                        }
                        if k > i - start {
                        }
                    },
                    None => {},
                }
            }
            return Some(i);
        }
        i = i + 1;
    }
    proof {
        match find_pair(t, a, b) {
            Some(k) => {
                assert(cs@[start + k] == a && cs@[start + k + 1] == b);
            },
            None => {},
        }
    }
    None
}

/// A line without one trailing carriage return.
pub open spec fn strip_cr(l: Seq<char>) -> Seq<char> {
    if l.len() > 0 && l.last() == '\r' {
        l.drop_last()
    } else {
        l
    }
}

/// The lines of a text that does not end with a line feed (as
/// `str::lines` gives them).
pub open spec fn text_lines(t: Seq<char>) -> Seq<Seq<char>> {
    split_lines(t).map_values(|l: Seq<char>| strip_cr(l))
}

/// The length of the blank-line separator at `i`: a line feed, an optional
/// carriage return and a line feed (`\n\n`, or `\n\r\n` as inside
/// `\r\n\r\n`); 0 where none starts at `i`.
pub open spec fn sep_len(t: Seq<char>, i: int) -> int {
    if 0 <= i && i + 1 < t.len() && t[i] == '\n' && t[i + 1] == '\n' {
        2
    } else if 0 <= i && i + 2 < t.len() && t[i] == '\n' && t[i + 1] == '\r' && t[i + 2] == '\n' {
        3
    } else {
        0
    }
}

/// The position of the first blank-line separator at or after `i`.
pub open spec fn first_blank(t: Seq<char>, i: int) -> Option<int>
    decreases t.len() - i,
{
    if i < 0 || i + 1 >= t.len() {
        None
    } else if sep_len(t, i) > 0 {
        Some(i)
    } else {
        first_blank(t, i + 1)
    }
}

pub proof fn lemma_first_blank(t: Seq<char>, i: int)
    requires
        0 <= i,
    ensures
        match first_blank(t, i) {
            Some(k) => i <= k && sep_len(t, k) >= 2 && k + sep_len(t, k) <= t.len() && forall|j: int|
                i <= j < k ==> #[trigger] sep_len(t, j) == 0,
            None => forall|j: int| i <= j ==> #[trigger] sep_len(t, j) == 0,
        },
    decreases t.len() - i,
{
    if i + 1 < t.len() && sep_len(t, i) == 0 {
        lemma_first_blank(t, i + 1);
    }
}

/// The first blank-line separator from `start` on, with its length.
pub fn find_blank_from(cs: &Vec<char>, start: usize) -> (r: Option<(usize, usize)>)
    requires
        start <= cs@.len(),
    ensures
        match first_blank(cs@.skip(start as int), 0) {
            Some(k) => match r {
                Some((p, n)) => start <= p && p == start + k && n == sep_len(cs@.skip(start as int), k) && p + n
                    <= cs@.len(),
                None => false,
            },
            None => r is None,
        },
{
    let ghost t = cs@.skip(start as int);
    proof {
        lemma_first_blank(t, 0);
    }
    let mut i: usize = start;
    while i < cs.len() && i + 1 < cs.len()
        invariant
            start <= i <= cs@.len(),
            t == cs@.skip(start as int),
            first_blank(t, 0) == first_blank(t, i - start),
            match first_blank(t, 0) {
                Some(k) => sep_len(t, k) >= 2 && k + sep_len(t, k) <= t.len(),
                None => true,
            },
        decreases cs@.len() - i,
    {
        let j: Ghost<int> = Ghost(i - start);
        assert(t[j@] == cs@[i as int] && t[j@ + 1] == cs@[i + 1]);
        if cs[i] == '\n' && cs[i + 1] == '\n' {
            assert(sep_len(t, j@) == 2);
            return Some((i, 2));
        }
        if i + 2 < cs.len() && cs[i] == '\n' && cs[i + 1] == '\r' && cs[i + 2] == '\n' {
            assert(t[j@ + 2] == cs@[i + 2]);
            assert(sep_len(t, j@) == 3);
            return Some((i, 3));
        }
        if i + 2 < cs.len() {
            assert(t[j@ + 2] == cs@[i + 2]);
        }
        assert(sep_len(t, j@) == 0);
        i = i + 1;
    }
    assert(first_blank(t, i - start) is None);
    None
}

/// The pieces of a text between blank-line separators.
pub open spec fn chunks(t: Seq<char>) -> Seq<Seq<char>>
    decreases t.len(),
{
    match first_blank(t, 0) {
        Some(i) => {
            proof {
                lemma_first_blank(t, 0);
            }
            seq![t.take(i)] + chunks(t.skip(i + sep_len(t, i)))
        },
        None => seq![t],
    }
}

} // verus!
