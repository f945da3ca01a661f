//! Character-level helpers: conversions between strings and character
//! vectors, decimal numbers, lines and joins.
use vstd::prelude::*;

verus! {

/// `str::chars`, collected: the characters of the string.
#[verifier::external_body]
pub(crate) fn str_to_chars(s: &str) -> (v: Vec<char>)
    ensures
        v@ == s@,
{
    s.chars().collect()
}

/// `String::from_iter` over characters: the string of the characters.
#[verifier::external_body]
pub(crate) fn chars_to_string(v: &[char]) -> (s: String)
    ensures
        s@ == v@,
{
    v.iter().collect()
}

/// The decimal digit for `d < 10`.
pub open spec fn digit_char(d: nat) -> char {
    ((d + 48) as u32) as char
}

/// The decimal representation of a number, without leading zeros.
pub open spec fn decimal(n: nat) -> Seq<char>
    decreases n,
{
    if n < 10 {
        seq![digit_char(n)]
    } else {
        decimal(n / 10) + seq![digit_char(n % 10)]
    }
}

/// The decimal representation of a number.
pub fn decimal_chars(n: usize) -> (v: Vec<char>)
    ensures
        v@ == decimal(n as nat),
    decreases n,
{
    let d = (n % 10) as u32;
    let c = char_from_digit(d);
    if n < 10 {
        vec![c]
    } else {
        let mut v = decimal_chars(n / 10);
        v.push(c);
        v
    }
}

fn char_from_digit(d: u32) -> (c: char)
    requires
        d < 10,
    ensures
        c == digit_char(d as nat),
{
    match d {
        0 => '0',
        1 => '1',
        2 => '2',
        3 => '3',
        4 => '4',
        5 => '5',
        6 => '6',
        7 => '7',
        8 => '8',
        _ => '9',
    }
}

/// `n` copies of `c`.
pub open spec fn repeat_char(c: char, n: nat) -> Seq<char> {
    Seq::new(n, |i: int| c)
}

/// Append `n` copies of `c`.
pub fn push_repeat(v: &mut Vec<char>, c: char, n: usize)
    ensures
        final(v)@ == old(v)@ + repeat_char(c, n as nat),
{
    let mut i: usize = 0;
    while i < n
        invariant
            0 <= i <= n,
            v@ == old(v)@ + repeat_char(c, i as nat),
        decreases n - i,
    {
        v.push(c);
        i = i + 1;
        assert(v@ =~= old(v)@ + repeat_char(c, i as nat));
    }
}

/// Append the characters of `s`.
pub fn push_all(v: &mut Vec<char>, s: &[char])
    ensures
        final(v)@ == old(v)@ + s@,
{
    let mut i: usize = 0;
    while i < s.len()
        invariant
            0 <= i <= s@.len(),
            v@ == old(v)@ + s@.take(i as int),
        decreases s@.len() - i,
    {
        v.push(s[i]);
        i = i + 1;
        assert(v@ =~= old(v)@ + s@.take(i as int));
    }
    assert(s@.take(s@.len() as int) =~= s@);
}

/// Append the characters of a string.
pub fn push_str(v: &mut Vec<char>, s: &str)
    ensures
        final(v)@ == old(v)@ + s@,
{
    let cs = str_to_chars(s);
    push_all(v, cs.as_slice());
}

/// The lines joined with line feeds between them.
pub open spec fn join_lines(ls: Seq<Seq<char>>) -> Seq<char>
    decreases ls.len(),
{
    if ls.len() == 0 {
        Seq::empty()
    } else if ls.len() == 1 {
        ls[0]
    } else {
        join_lines(ls.drop_last()) + seq!['\n'] + ls.last()
    }
}

/// The pieces of `s` between line feeds (as `str::split('\n')` gives them).
pub open spec fn split_lines(s: Seq<char>) -> Seq<Seq<char>>
    decreases s.len(),
{
    if s.len() == 0 {
        seq![Seq::empty()]
    } else {
        let rest = split_lines(s.drop_last());
        if s.last() == '\n' {
            rest.push(Seq::empty())
        } else {
            rest.update(rest.len() - 1, rest.last().push(s.last()))
        }
    }
}

/// The non-empty pieces of `s` between line feeds.
pub open spec fn nonempty_lines(s: Seq<char>) -> Seq<Seq<char>> {
    split_lines(s).filter(|l: Seq<char>| l.len() > 0)
}

pub proof fn lemma_split_lines_nonempty(s: Seq<char>)
    ensures
        split_lines(s).len() > 0,
    decreases s.len(),
{
    if s.len() > 0 {
        lemma_split_lines_nonempty(s.drop_last());
    }
}

/// The non-empty pieces between line feeds of a character vector.
pub fn nonempty_lines_of(s: &Vec<char>) -> (r: Vec<Vec<char>>)
    ensures
        r@.len() == nonempty_lines(s@).len(),
        forall|i: int| 0 <= i < r@.len() ==> (#[trigger] r@[i])@ == nonempty_lines(s@)[i],
{
    let mut r: Vec<Vec<char>> = Vec::new();
    let mut cur: Vec<char> = Vec::new();
    let mut i: usize = 0;
    proof {
        lemma_split_lines_nonempty(Seq::<char>::empty());
        assert(s@.take(0) =~= Seq::<char>::empty());
        assert(split_lines(Seq::<char>::empty()).drop_last().filter(|l: Seq<char>| l.len() > 0)
            =~= Seq::<Seq<char>>::empty()) by {
            assert(split_lines(Seq::<char>::empty()).drop_last() =~= Seq::<Seq<char>>::empty());
            reveal_with_fuel(Seq::filter, 1);
        }
    }
    while i < s.len()
        invariant
            0 <= i <= s@.len(),
            split_lines(s@.take(i as int)).len() > 0,
            cur@ == split_lines(s@.take(i as int)).last(),
            r@.len() == split_lines(s@.take(i as int)).drop_last().filter(|l: Seq<char>| l.len() > 0).len(),
            forall|j: int|
                0 <= j < r@.len() ==> (#[trigger] r@[j])@ == split_lines(s@.take(i as int)).drop_last().filter(
                    |l: Seq<char>| l.len() > 0,
                )[j],
        decreases s@.len() - i,
    {
        let ghost prev = split_lines(s@.take(i as int));
        proof {
            assert(s@.take(i + 1).drop_last() =~= s@.take(i as int));
            assert(s@.take(i + 1).last() == s@[i as int]);
        }
        if s[i] == '\n' {
            let ghost cur_v = cur@;
            if cur.len() > 0 {
                r.push(cur);
            }
            cur = Vec::new();
            proof {
                let next = split_lines(s@.take(i + 1));
                assert(next == prev.push(Seq::<char>::empty()));
                assert(next.drop_last() =~= prev);
                assert(prev =~= prev.drop_last().push(cur_v));
                reveal_with_fuel(Seq::filter, 1);
                assert(prev.drop_last().push(cur_v).filter(|l: Seq<char>| l.len() > 0) == if cur_v.len()
                    > 0 {
                    prev.drop_last().filter(|l: Seq<char>| l.len() > 0).push(cur_v)
                } else {
                    prev.drop_last().filter(|l: Seq<char>| l.len() > 0)
                });
            }
        } else {
            cur.push(s[i]);
            proof {
                let next = split_lines(s@.take(i + 1));
                assert(next.drop_last() =~= prev.drop_last());
            }
        }
        i = i + 1;
    }
    proof {
        let fin = split_lines(s@.take(i as int));
        assert(s@.take(i as int) =~= s@);
        assert(fin =~= fin.drop_last().push(cur@));
        reveal_with_fuel(Seq::filter, 1);
    }
    if cur.len() > 0 {
        r.push(cur);
    }
    r
}

/// Join lines with line feeds between them.
pub fn join_lines_of(ls: &Vec<Vec<char>>) -> (r: Vec<char>)
    ensures
        r@ == join_lines(ls@.map_values(|l: Vec<char>| l@)),
{
    let ghost views = ls@.map_values(|l: Vec<char>| l@);
    let mut r: Vec<char> = Vec::new();
    let mut i: usize = 0;
    while i < ls.len()
        invariant
            0 <= i <= ls@.len(),
            views == ls@.map_values(|l: Vec<char>| l@),
            r@ == join_lines(views.take(i as int)),
        decreases ls@.len() - i,
    {
        proof {
            assert(views.take(i + 1).drop_last() =~= views.take(i as int));
            assert(views.take(i + 1).last() == ls@[i as int]@);
        }
        if i > 0 {
            r.push('\n');
        } else {
            assert(views.take(0) =~= Seq::<Seq<char>>::empty());
        }
        push_all(&mut r, ls[i].as_slice());
        i = i + 1;
        assert(r@ =~= join_lines(views.take(i as int)));
    }
    assert(views.take(i as int) =~= views);
    r
}

} // verus!
