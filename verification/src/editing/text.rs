//! Byte-level facts about UTF-8 text: lines, leading whitespace and list
//! markers, with the few calls into `str` that the editor makes.
use vstd::prelude::*;
use vstd::utf8::*;

verus! {

broadcast use vstd::utf8::encode_utf8_valid_utf8;

/// The byte of a line feed.
pub open spec fn is_newline(b: u8) -> bool {
    b == 10u8
}

/// A byte offset that starts a character of `t`, or its end; for valid
/// UTF-8 this is exactly a character boundary.
pub open spec fn at_boundary(t: Seq<u8>, i: int) -> bool {
    0 <= i <= t.len() && (i == 0 || i == t.len() || !is_continuation_byte(t[i]))
}

/// The offset where the line holding offset `at` starts: just after the
/// last line feed before `at`, or 0.
pub open spec fn line_start_at(t: Seq<u8>, at: int) -> int
    decreases at,
{
    if at <= 0 {
        0
    } else if is_newline(t[at - 1]) {
        at
    } else {
        line_start_at(t, at - 1)
    }
}

/// The offset of the first line feed at or after `s`, or the end of `t`.
pub open spec fn line_end_from(t: Seq<u8>, s: int) -> int
    decreases t.len() - s,
{
    if s >= t.len() {
        t.len() as int
    } else if is_newline(t[s]) {
        s
    } else {
        line_end_from(t, s + 1)
    }
}

/// The text of the line that starts at offset `s`, without its line feed.
pub open spec fn line_from(t: Seq<u8>, s: int) -> Seq<u8> {
    t.subrange(s, line_end_from(t, s))
}

/// Unicode `White_Space`, the set of characters that `str::trim_start`
/// removes.
pub open spec fn is_white_space(c: char) -> bool {
    ||| c == '\t'
    ||| c == '\n'
    ||| c == '\x0B'
    ||| c == '\x0C'
    ||| c == '\r'
    ||| c == ' '
    ||| c == '\u{85}'
    ||| c == '\u{A0}'
    ||| c == '\u{1680}'
    ||| ('\u{2000}' <= c && c <= '\u{200A}')
    ||| c == '\u{2028}'
    ||| c == '\u{2029}'
    ||| c == '\u{202F}'
    ||| c == '\u{205F}'
    ||| c == '\u{3000}'
}

/// The number of leading whitespace characters.
pub open spec fn leading_ws(cs: Seq<char>) -> nat
    decreases cs.len(),
{
    if cs.len() > 0 && is_white_space(cs[0]) {
        1 + leading_ws(cs.drop_first())
    } else {
        0
    }
}

/// The bytes of a line's leading whitespace.
pub open spec fn indent_of(line: Seq<u8>) -> Seq<u8> {
    let cs = decode_utf8(line);
    encode_utf8(cs.take(leading_ws(cs) as int))
}

/// The bytes of a line after its leading whitespace.
pub open spec fn trimmed_of(line: Seq<u8>) -> Seq<u8> {
    let cs = decode_utf8(line);
    encode_utf8(cs.skip(leading_ws(cs) as int))
}

/// `b` starts with the two bytes `x`, `y`.
pub open spec fn starts_with2(b: Seq<u8>, x: u8, y: u8) -> bool {
    b.len() >= 2 && b[0] == x && b[1] == y
}

/// What `char::is_numeric` returns for a character (Unicode general
/// categories Nd, Nl and No).
pub uninterp spec fn char_numeric(c: char) -> bool;

/// The text starts with a numeric character.
pub open spec fn starts_numeric(b: Seq<u8>) -> bool {
    b.len() > 0 && char_numeric(decode_first_scalar(b) as char)
}

/// An encoded text starts with a numeric character when its first
/// character is numeric.
pub proof fn lemma_starts_numeric(cs: Seq<char>)
    ensures
        starts_numeric(encode_utf8(cs)) == (cs.len() > 0 && char_numeric(cs[0])),
{
    if cs.len() > 0 {
        encode_utf8_first_scalar(cs);
        char_u32_cast(cs[0], decode_first_scalar(encode_utf8(cs)));
        assert(encode_utf8(cs).len() > 0);
    } else {
        assert(encode_utf8(cs) =~= Seq::<u8>::empty());
    }
}

/// There is a `. ` at byte offset `i`.
pub open spec fn dot_space_at(b: Seq<u8>, i: int) -> bool {
    0 <= i && i + 1 < b.len() && b[i] == 46u8 && b[i + 1] == 32u8
}

/// The byte offset of the first `. ` at or after offset `i`, if any.
pub open spec fn find_dot_space_from(b: Seq<u8>, i: int) -> Option<int>
    decreases b.len() - i,
{
    if i < 0 || i + 1 >= b.len() {
        None
    } else if dot_space_at(b, i) {
        Some(i)
    } else {
        find_dot_space_from(b, i + 1)
    }
}

/// The byte offset of the first `. ` in `b`, if any.
pub open spec fn find_dot_space(b: Seq<u8>) -> Option<int> {
    find_dot_space_from(b, 0)
}

/// A search from `i` finds the first `. ` from there.
pub proof fn lemma_dot_space_from(b: Seq<u8>, i: int)
    requires
        0 <= i,
    ensures
        match find_dot_space_from(b, i) {
            Some(p) => i <= p && dot_space_at(b, p) && forall|j: int| i <= j < p ==> !#[trigger] dot_space_at(b, j),
            None => forall|j: int| i <= j ==> !#[trigger] dot_space_at(b, j),
        },
    decreases b.len() - i,
{
    if i + 1 < b.len() && !dot_space_at(b, i) {
        lemma_dot_space_from(b, i + 1);
    }
}

/// The first `. ` found by a search from the start.
pub proof fn lemma_first_dot_space(b: Seq<u8>, i: int)
    requires
        dot_space_at(b, i),
        forall|j: int| 0 <= j < i ==> !#[trigger] dot_space_at(b, j),
    ensures
        find_dot_space(b) == Some(i),
{
    lemma_dot_space_from(b, 0);
}

/// The offset that the search finds holds a `. `.
pub proof fn lemma_find_dot_space_in_range(b: Seq<u8>)
    ensures
        find_dot_space(b) matches Some(p) ==> dot_space_at(b, p),
{
    lemma_dot_space_from(b, 0);
}

/// No `. ` at all.
pub proof fn lemma_no_dot_space(b: Seq<u8>)
    requires
        forall|j: int| !#[trigger] dot_space_at(b, j),
    ensures
        find_dot_space(b) is None,
{
    lemma_dot_space_from(b, 0);
}

/// The UTF-8 encoding of a concatenation is the concatenation of the
/// encodings.
pub proof fn lemma_encode_concat(a: Seq<char>, b: Seq<char>)
    ensures
        encode_utf8(a + b) == encode_utf8(a) + encode_utf8(b),
    decreases a.len(),
{
    if a.len() == 0 {
        assert(a + b =~= b);
    } else {
        assert((a + b).drop_first() =~= a.drop_first() + b);
        assert((a + b)[0] == a[0]);
        lemma_encode_concat(a.drop_first(), b);
    }
}

/// The end of an encoded prefix is a character boundary.
pub proof fn lemma_encode_boundary(a: Seq<char>, b: Seq<char>)
    ensures
        is_char_boundary(encode_utf8(a + b), encode_utf8(a).len() as int),
    decreases a.len(),
{
    lemma_encode_concat(a, b);
    if a.len() > 0 {
        let ab = a + b;
        encode_utf8_first_scalar(ab);
        assert(ab.drop_first() =~= a.drop_first() + b);
        assert(ab[0] == a[0]);
        lemma_encode_concat(a.drop_first(), b);
        lemma_encode_boundary(a.drop_first(), b);
        assert(pop_first_scalar(encode_utf8(ab)) =~= encode_utf8(ab.drop_first()));
    }
}

/// An offset that is not inside a character's encoding is a character
/// boundary of valid UTF-8.
pub proof fn lemma_at_boundary(t: Seq<u8>, i: int)
    requires
        valid_utf8(t),
        at_boundary(t, i),
    ensures
        is_char_boundary(t, i),
{
    is_char_boundary_start_end_of_seq(t);
    if 0 < i < t.len() {
        is_char_boundary_iff_not_is_continuation_byte(t, i);
    }
}

/// An ASCII byte is never inside a character's encoding.
pub proof fn lemma_ascii_not_continuation(b: u8)
    requires
        b < 128,
    ensures
        !is_continuation_byte(b),
{
    assert(b < 128 ==> !is_continuation_byte(b)) by (bit_vector);
}

/// The UTF-8 encoding of one ASCII character is its code.
pub proof fn lemma_encode_ascii(c: char)
    requires
        (c as u32) < 128,
    ensures
        encode_utf8(seq![c]) == seq![(c as u32) as u8],
{
    let v = c as u32;
    assert(v < 128 ==> (v & 0x7F) == v) by (bit_vector);
    assert(has_width_1_encoding(v));
    assert(leading_byte_width_1(v) == v as u8);
    assert(seq![c][0] == c);
    assert(seq![c].drop_first() =~= Seq::<char>::empty());
    assert(encode_utf8(Seq::<char>::empty()) =~= Seq::<u8>::empty());
    assert(encode_utf8(seq![c]) == encode_scalar(v) + encode_utf8(seq![c].drop_first()));
    assert(encode_utf8(seq![c]) =~= seq![v as u8]);
}

/// Right after an ASCII byte of valid UTF-8 a character starts (or the
/// text ends).
pub proof fn lemma_after_ascii(t: Seq<u8>, i: int)
    requires
        valid_utf8(t),
        0 <= i < t.len(),
        t[i] < 128,
    ensures
        at_boundary(t, i + 1),
        is_char_boundary(t, i + 1),
{
    lemma_ascii_not_continuation(t[i]);
    is_char_boundary_iff_not_is_continuation_byte(t, i);
    lemma_boundary_step(t, i);
    is_char_boundary_start_end_of_seq(t);
    if i + 1 < t.len() {
        is_char_boundary_iff_not_is_continuation_byte(t, i + 1);
    }
}

proof fn lemma_boundary_step(t: Seq<u8>, i: int)
    requires
        valid_utf8(t),
        is_char_boundary(t, i),
        0 <= i < t.len(),
        t[i] < 128,
    ensures
        is_char_boundary(t, i + 1),
    decreases t.len(),
{
    reveal_with_fuel(is_char_boundary, 2);
    let l = length_of_first_scalar(t);
    let rest = pop_first_scalar(t);
    if i == 0 {
        assert(is_leading_byte_width_1(t[0])) by {
            let b = t[0];
            assert(b < 128 ==> is_leading_byte_width_1(b)) by (bit_vector);
        }
        assert(l == 1);
        assert(is_char_boundary(rest, 0));
    } else {
        assert(valid_utf8(rest));
        assert(is_char_boundary(rest, i - l));
        assert(l >= 1) by {
            let b = t[0];
            assert(is_leading_byte_width_1(b) || is_leading_byte_width_2(b) || is_leading_byte_width_3(
                b,
            ) || is_leading_byte_width_4(b));
        }
        if i - l < 0 {
            assert(false);
        }
        assert(rest[i - l] == t[i]);
        lemma_boundary_step(rest, i - l);
    }
}

/// Facts about where lines start and end.
pub proof fn lemma_line_bounds(t: Seq<u8>, at: int)
    requires
        valid_utf8(t),
        0 <= at <= t.len(),
    ensures
        0 <= line_start_at(t, at) <= at,
        at_boundary(t, line_start_at(t, at)),
        at <= line_end_from(t, at) <= t.len(),
        at_boundary(t, line_end_from(t, at)),
        forall|j: int| line_start_at(t, at) <= j < at ==> !is_newline(#[trigger] t[j]),
        forall|j: int| at <= j < line_end_from(t, at) ==> !is_newline(#[trigger] t[j]),
    decreases t.len() - at,
{
    lemma_line_start_bounds(t, at);
    lemma_line_end_bounds(t, at);
    let s = line_start_at(t, at);
    if s > 0 {
        lemma_after_ascii(t, s - 1);
    }
    let e = line_end_from(t, at);
    if e < t.len() {
        lemma_ascii_not_continuation(t[e]);
    }
}

proof fn lemma_line_start_bounds(t: Seq<u8>, at: int)
    requires
        0 <= at <= t.len(),
    ensures
        0 <= line_start_at(t, at) <= at,
        line_start_at(t, at) > 0 ==> is_newline(t[line_start_at(t, at) - 1]),
        forall|j: int| line_start_at(t, at) <= j < at ==> !is_newline(#[trigger] t[j]),
    decreases at,
{
    if at > 0 && !is_newline(t[at - 1]) {
        lemma_line_start_bounds(t, at - 1);
    }
}

proof fn lemma_line_end_bounds(t: Seq<u8>, s: int)
    requires
        0 <= s <= t.len(),
    ensures
        s <= line_end_from(t, s) <= t.len(),
        line_end_from(t, s) < t.len() ==> is_newline(t[line_end_from(t, s)]),
        forall|j: int| s <= j < line_end_from(t, s) ==> !is_newline(#[trigger] t[j]),
    decreases t.len() - s,
{
    if s < t.len() && !is_newline(t[s]) {
        lemma_line_end_bounds(t, s + 1);
    }
}

/// A line ends at the first line feed after its start.
pub proof fn lemma_line_end_at(t: Seq<u8>, s: int, e: int)
    requires
        0 <= s <= e <= t.len(),
        e == t.len() || is_newline(t[e]),
        forall|j: int| s <= j < e ==> !is_newline(#[trigger] t[j]),
    ensures
        line_end_from(t, s) == e,
    decreases e - s,
{
    if s < e {
        assert(!is_newline(t[s]));
        lemma_line_end_at(t, s + 1, e);
    }
}

/// Where a line's indent and marker end, a character of the text starts.
pub proof fn lemma_marker_bounds(
    t: Seq<u8>,
    ls: int,
    l: Seq<u8>,
    tb: Seq<u8>,
    indent_len: int,
    marker_len: int,
)
    requires
        valid_utf8(t),
        0 <= ls <= t.len(),
        l == line_from(t, ls),
        l == indent_of(l) + tb,
        indent_len == indent_of(l).len(),
        is_char_boundary(l, indent_len),
        valid_utf8(l),
        valid_utf8(tb),
        0 <= marker_len <= tb.len(),
        marker_len == 0 || tb[marker_len - 1] < 128,
    ensures
        at_boundary(t, ls + indent_len),
        at_boundary(t, ls + indent_len + marker_len),
{
    lemma_line_bounds(t, ls);
    let le = line_end_from(t, ls);
    assert(l.len() == le - ls);
    if indent_len < l.len() {
        is_char_boundary_iff_not_is_continuation_byte(l, indent_len);
        assert(t[ls + indent_len] == l[indent_len]);
    }
    if marker_len > 0 {
        lemma_after_ascii(tb, marker_len - 1);
        if marker_len < tb.len() {
            assert(l[indent_len + marker_len] == tb[marker_len]);
            assert(t[ls + indent_len + marker_len] == l[indent_len + marker_len]);
        }
    }
}

/// A line's text splits into its indent and the rest.
pub proof fn lemma_indent_split(line: Seq<u8>)
    requires
        valid_utf8(line),
    ensures
        line == indent_of(line) + trimmed_of(line),
        is_char_boundary(line, indent_of(line).len() as int),
        valid_utf8(trimmed_of(line)),
        valid_utf8(indent_of(line)),
{
    let cs = decode_utf8(line);
    let k = leading_ws(cs) as int;
    lemma_leading_ws_bound(cs);
    decode_utf8_encode_utf8(line);
    assert(cs =~= cs.take(k) + cs.skip(k));
    lemma_encode_concat(cs.take(k), cs.skip(k));
    lemma_encode_boundary(cs.take(k), cs.skip(k));
}

pub proof fn lemma_leading_ws_bound(cs: Seq<char>)
    ensures
        leading_ws(cs) <= cs.len(),
        forall|i: int| 0 <= i < leading_ws(cs) ==> is_white_space(#[trigger] cs[i]),
        leading_ws(cs) < cs.len() ==> !is_white_space(cs[leading_ws(cs) as int]),
    decreases cs.len(),
{
    if cs.len() > 0 && is_white_space(cs[0]) {
        lemma_leading_ws_bound(cs.drop_first());
        assert forall|i: int| 0 <= i < leading_ws(cs) implies is_white_space(#[trigger] cs[i]) by {
            if i > 0 {
                assert(cs[i] == cs.drop_first()[i - 1]);
            }
        }
    }
}

/// `str::trim_start`: the string without its leading Unicode whitespace.
#[verifier::external_body]
pub(crate) fn str_trim_start(s: &str) -> (r: &str)
    ensures
        r@ == s@.skip(leading_ws(s@) as int),
{
    s.trim_start()
}

/// `str::starts_with` with `char::is_numeric` as the pattern: whether the
/// first character is numeric.
#[verifier::external_body]
pub(crate) fn str_starts_numeric(s: &str) -> (b: bool)
    ensures
        b == (s@.len() > 0 && char_numeric(s@[0])),
{
    s.starts_with(char::is_numeric)
}

/// `String::into_bytes`: the UTF-8 bytes of the string.
#[verifier::external_body]
pub(crate) fn string_into_bytes(s: String) -> (b: Vec<u8>)
    ensures
        b@ == encode_utf8(s@),
{
    s.into_bytes()
}

/// `std::str::from_utf8`: the text that the bytes encode, or `None` when
/// they are not valid UTF-8.
#[verifier::external_body]
pub(crate) fn str_from_utf8(bytes: &[u8]) -> (r: Option<&str>)
    ensures
        r is Some <==> valid_utf8(bytes@),
        r matches Some(s) ==> encode_utf8(s@) == bytes@,
{
    std::str::from_utf8(bytes).ok()
}

} // verus!
verus! {

/// A string of one or more ASCII characters and its bytes.
pub open spec fn ascii_bytes(cs: Seq<char>) -> Seq<u8> {
    cs.map_values(|c: char| (c as u32) as u8)
}

/// The UTF-8 encoding of ASCII text is its character codes.
pub proof fn lemma_encode_ascii_seq(cs: Seq<char>)
    requires
        forall|i: int| 0 <= i < cs.len() ==> (#[trigger] cs[i] as u32) < 128,
    ensures
        encode_utf8(cs) == ascii_bytes(cs),
    decreases cs.len(),
{
    if cs.len() > 0 {
        lemma_encode_ascii(cs[0]);
        assert(cs =~= seq![cs[0]] + cs.drop_first());
        lemma_encode_concat(seq![cs[0]], cs.drop_first());
        lemma_encode_ascii_seq(cs.drop_first());
        assert(ascii_bytes(cs) =~= seq![(cs[0] as u32) as u8] + ascii_bytes(cs.drop_first()));
    } else {
        assert(ascii_bytes(cs) =~= Seq::<u8>::empty());
    }
}

/// A new string holding a line feed.
pub fn newline_string() -> (s: String)
    ensures
        encode_utf8(s@) == seq![10u8],
{
    let s = String::from_str("\n");
    proof {
        reveal_strlit("\n");
        lemma_encode_ascii('\n');
        assert(('\n' as u32) == 10);
        assert(s@ == seq!['\n']);
    }
    s
}

/// A new string holding two spaces.
pub fn two_spaces() -> (s: String)
    ensures
        encode_utf8(s@) == seq![32u8, 32u8],
{
    let s = String::from_str("  ");
    proof {
        reveal_strlit("  ");
        lemma_encode_ascii_seq(s@);
        assert(ascii_bytes(s@) =~= seq![32u8, 32u8]);
    }
    s
}

/// A new string holding ASCII text given by its literal.
pub fn ascii_string(lit: &str) -> (s: String)
    requires
        forall|i: int| 0 <= i < lit@.len() ==> (#[trigger] lit@[i] as u32) < 128,
    ensures
        s@ == lit@,
        encode_utf8(s@) == ascii_bytes(lit@),
{
    let s = String::from_str(lit);
    proof {
        lemma_encode_ascii_seq(s@);
    }
    s
}

} // verus!
