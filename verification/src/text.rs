//! Comparing, splitting and joining strings, with contracts over their characters.

use vstd::prelude::*;
use vstd::string::*;
use vstd::utf8::*;

verus! {

/// The characters with the Unicode property `White_Space`.
pub open spec fn is_white_space(c: char) -> bool {
    ||| '\u{9}' <= c <= '\u{d}'
    ||| c == ' '
    ||| c == '\u{85}'
    ||| c == '\u{a0}'
    ||| c == '\u{1680}'
    ||| '\u{2000}' <= c <= '\u{200a}'
    ||| c == '\u{2028}'
    ||| c == '\u{2029}'
    ||| c == '\u{202f}'
    ||| c == '\u{205f}'
    ||| c == '\u{3000}'
}

/// `s` without the white space at its end.
pub open spec fn trimmed(s: Seq<char>) -> Seq<char>
    decreases s.len(),
{
    if s.len() > 0 && is_white_space(s.last()) {
        trimmed(s.drop_last())
    } else {
        s
    }
}

/// Whether `s` ends in `suffix`.
pub open spec fn has_suffix(s: Seq<char>, suffix: Seq<char>) -> bool {
    suffix.len() <= s.len() && s.skip(s.len() - suffix.len()) == suffix
}

/// The characters of each string of a list.
pub open spec fn views(list: Seq<String>) -> Seq<Seq<char>> {
    Seq::new(list.len(), |i: int| list[i]@)
}

/// The strings of `list` one behind the other, with `sep` between each two.
pub open spec fn joined(list: Seq<Seq<char>>, sep: Seq<char>) -> Seq<char>
    decreases list.len(),
{
    if list.len() == 0 {
        Seq::empty()
    } else if list.len() == 1 {
        list[0]
    } else {
        joined(list.drop_last(), sep) + sep + list.last()
    }
}

/// `String::clear` takes every character out of a string. That it keeps the buffer of the string
/// for what is put in next is not said: a contract speaks of characters only.
pub assume_specification[ String::clear ](s: &mut String)
    ensures
        final(s)@ == Seq::<char>::empty(),
;

/// Puts `value` in the place of what `s` holds, in the same buffer.
pub fn replace(s: &mut String, value: &str)
    ensures
        final(s)@ == value@,
{
    s.clear();
    s.append(value);
    assert(s@ =~= value@);
}

/// The encoding of a text is that of its parts, one behind the other.
pub proof fn lemma_encode_concat(a: Seq<char>, b: Seq<char>)
    ensures
        encode_utf8(a + b) == encode_utf8(a) + encode_utf8(b),
    decreases a.len(),
{
    if a.len() == 0 {
        assert(a + b =~= b);
        assert(encode_utf8(a) + encode_utf8(b) =~= encode_utf8(b));
    } else {
        lemma_encode_concat(a.drop_first(), b);
        assert((a + b).drop_first() =~= a.drop_first() + b);
        assert(encode_utf8(a + b) =~= encode_utf8(a) + encode_utf8(b));
    }
}

/// Two texts with the same encoding are the same.
pub proof fn lemma_encode_injective(a: Seq<char>, b: Seq<char>)
    requires
        encode_utf8(a) == encode_utf8(b),
    ensures
        a == b,
{
    encode_utf8_decode_utf8(a);
    encode_utf8_decode_utf8(b);
}

/// An ASCII character is encoded as the byte with its number.
pub proof fn lemma_encode_ascii(c: char)
    requires
        c <= '\u{7f}',
    ensures
        encode_utf8(seq![c]) == seq![c as u8],
{
    let s = seq![c];
    assert(is_ascii_chars(s));
    is_ascii_chars_encode_utf8(s);
    assert(encode_utf8(s) =~= seq![c as u8]);
}

/// The encoding of one character.
proof fn lemma_encode_one(c: char)
    ensures
        encode_utf8(seq![c]) == encode_scalar(c as u32),
{
    assert(seq![c].drop_first() =~= Seq::<char>::empty());
    assert(encode_utf8(Seq::<char>::empty()) =~= Seq::<u8>::empty());
    assert(encode_utf8(seq![c]) =~= encode_scalar(c as u32));
}

/// The bytes of an encoding of more than one byte are not ASCII.
proof fn lemma_wide_scalar(v: u32)
    by (bit_vector)
    ensures
        last_continuation_byte(v) >= 0x80,
        second_last_continuation_byte(v) >= 0x80,
        third_last_continuation_byte(v) >= 0x80,
        leading_byte_width_2(v) >= 0x80,
        leading_byte_width_3(v) >= 0x80,
        leading_byte_width_4(v) >= 0x80,
{
}

/// An ASCII byte stands in the encoding of its own character and of no other.
proof fn lemma_scalar_contains(d: char, c: char)
    requires
        c <= '\u{7f}',
    ensures
        encode_scalar(d as u32).contains(c as u8) == (d == c),
{
    let bytes = encode_scalar(d as u32);
    if d <= '\u{7f}' {
        lemma_encode_ascii(d);
        lemma_encode_one(d);
        assert(bytes[0] == d as u8);
    } else {
        char_is_scalar(d);
        lemma_wide_scalar(d as u32);
        if bytes.contains(c as u8) {
            let k = choose|k: int| 0 <= k < bytes.len() && bytes[k] == c as u8;
            assert(k == 0 || k == 1 || k == 2 || k == 3);
            assert(bytes[k] >= 0x80);
        }
    }
}

/// An ASCII byte stands in the encoding of a text just where the text holds its character.
pub proof fn lemma_encode_contains(s: Seq<char>, c: char)
    requires
        c <= '\u{7f}',
    ensures
        encode_utf8(s).contains(c as u8) == s.contains(c),
    decreases s.len(),
{
    if s.len() > 0 {
        let first = encode_scalar(s[0] as u32);
        let rest = s.drop_first();
        let bytes = encode_utf8(s);
        lemma_encode_contains(rest, c);
        assert(bytes =~= first + encode_utf8(rest));
        assert(s =~= seq![s[0]] + rest);
        assert(s.contains(c) == (s[0] == c || rest.contains(c))) by {
            if rest.contains(c) {
                let k = choose|k: int| 0 <= k < rest.len() && rest[k] == c;
                assert(s[k + 1] == c);
            }
            if s.contains(c) && s[0] != c {
                let k = choose|k: int| 0 <= k < s.len() && s[k] == c;
                assert(rest[k - 1] == c);
            }
        }
        assert(bytes.contains(c as u8) == (first.contains(c as u8) || encode_utf8(rest).contains(
            c as u8,
        ))) by {
            if first.contains(c as u8) {
                let k = choose|k: int| 0 <= k < first.len() && first[k] == c as u8;
                assert(bytes[k] == c as u8);
            }
            if encode_utf8(rest).contains(c as u8) {
                let k = choose|k: int|
                    0 <= k < encode_utf8(rest).len() && encode_utf8(rest)[k] == c as u8;
                assert(bytes[first.len() + k] == c as u8);
            }
            if bytes.contains(c as u8) {
                let k = choose|k: int| 0 <= k < bytes.len() && bytes[k] == c as u8;
                if k < first.len() {
                    assert(first[k] == c as u8);
                } else {
                    assert(encode_utf8(rest)[k - first.len()] == c as u8);
                }
            }
        }
        lemma_scalar_contains(s[0], c);
    }
}

/// A place between two characters is a boundary in the encoding.
pub proof fn lemma_boundary(a: Seq<char>, b: Seq<char>)
    ensures
        is_char_boundary(encode_utf8(a + b), encode_utf8(a).len() as int),
    decreases a.len(),
{
    let bytes = encode_utf8(a + b);
    encode_utf8_valid_utf8(a + b);
    if a.len() == 0 {
        is_char_boundary_start_end_of_seq(bytes);
    } else {
        encode_utf8_first_scalar(a + b);
        encode_utf8_first_scalar(a);
        lemma_boundary(a.drop_first(), b);
        assert((a + b).drop_first() =~= a.drop_first() + b);
        assert(pop_first_scalar(bytes) =~= encode_utf8(a.drop_first() + b));
        lemma_encode_concat(a, b);
    }
}

/// Splits a string between two of its characters.
pub fn split(s: &str, mid: usize) -> (r: (&str, &str))
    requires
        is_char_boundary(encode_utf8(s@), mid as int),
    ensures
        s@ == r.0@ + r.1@,
        encode_utf8(r.0@) == encode_utf8(s@).subrange(0, mid as int),
        encode_utf8(r.1@) == encode_utf8(s@).subrange(mid as int, encode_utf8(s@).len() as int),
{
    let r = s.split_at(mid);
    proof {
        let bytes = encode_utf8(s@);
        lemma_in_bounds(s@, mid as int);
        lemma_encode_concat(r.0@, r.1@);
        assert(encode_utf8(r.0@ + r.1@) =~= bytes);
        lemma_encode_injective(r.0@ + r.1@, s@);
    }
    r
}

proof fn lemma_in_bounds(s: Seq<char>, mid: int)
    requires
        is_char_boundary(encode_utf8(s), mid),
    ensures
        0 <= mid <= encode_utf8(s).len(),
{
    encode_utf8_valid_utf8(s);
}

/// The number of a character is a Unicode scalar value, and so a `u32`.
pub proof fn lemma_char_number(c: char)
    ensures
        0 <= c as int <= 0x10ffff,
        (c as u32) as int == c as int,
{
}

/// An encoding that starts with an ASCII byte starts with that character.
pub proof fn lemma_first_byte(s: Seq<char>)
    requires
        encode_utf8(s).len() > 0,
        encode_utf8(s)[0] < 0x80,
    ensures
        s.len() > 0,
        s[0] <= '\u{7f}',
        s[0] as int == encode_utf8(s)[0] as int,
        s == seq![s[0]] + s.drop_first(),
        encode_utf8(s.drop_first()) == encode_utf8(s).skip(1),
{
    let bytes = encode_utf8(s);
    let b = bytes[0];
    encode_utf8_first_scalar(s);
    lemma_char_number(s[0]);
    assert(b & 0x7f == b) by (bit_vector)
        requires
            b < 0x80,
    ;
    assert(s =~= seq![s[0]] + s.drop_first());
    lemma_encode_ascii(s[0]);
    lemma_encode_concat(seq![s[0]], s.drop_first());
    assert(bytes.skip(1) =~= encode_utf8(s.drop_first()));
}

/// Splits a string before one of its ASCII characters.
pub fn split_before(s: &str, at: usize) -> (r: (&str, &str))
    requires
        at < encode_utf8(s@).len(),
        encode_utf8(s@)[at as int] < 0x80,
    ensures
        s@ == r.0@ + r.1@,
        encode_utf8(r.0@) == encode_utf8(s@).take(at as int),
        encode_utf8(r.1@) == encode_utf8(s@).skip(at as int),
        r.1@.len() > 0,
        r.1@[0] <= '\u{7f}',
        r.1@[0] as int == encode_utf8(s@)[at as int] as int,
{
    proof {
        encode_utf8_valid_utf8(s@);
        is_char_boundary_iff_not_is_continuation_byte(encode_utf8(s@), at as int);
    }
    let r = split(s, at);
    proof {
        lemma_first_byte(r.1@);
    }
    r
}

/// A string without its first character, which is ASCII.
pub fn behind_first(s: &str) -> (r: &str)
    requires
        encode_utf8(s@).len() > 0,
        encode_utf8(s@)[0] < 0x80,
    ensures
        s@.len() > 0,
        s@ == seq![s@[0]] + r@,
        s@[0] <= '\u{7f}',
        s@[0] as int == encode_utf8(s@)[0] as int,
        encode_utf8(r@) == encode_utf8(s@).skip(1),
{
    proof {
        lemma_first_byte(s@);
        lemma_boundary(seq![s@[0]], s@.drop_first());
        lemma_encode_ascii(s@[0]);
    }
    let (_, tail) = split(s, 1);
    proof {
        assert(encode_utf8(tail@) =~= encode_utf8(s@).skip(1));
        lemma_encode_injective(tail@, s@.drop_first());
    }
    tail
}

/// Tells whether two strings are the same.
pub fn same(a: &str, b: &str) -> (r: bool)
    ensures
        r == (a@ == b@),
{
    let x = a.as_bytes();
    let y = b.as_bytes();
    if x.len() != y.len() {
        return false;
    }
    let mut i: usize = 0;
    while i < x.len()
        invariant
            i <= x@.len(),
            x@.len() == y@.len(),
            x@ == encode_utf8(a@),
            y@ == encode_utf8(b@),
            forall|k: int| 0 <= k < i ==> x@[k] == y@[k],
        decreases x@.len() - i,
    {
        if x[i] != y[i] {
            return false;
        }
        i += 1;
    }
    proof {
        assert(x@ =~= y@);
        lemma_encode_injective(a@, b@);
    }
    true
}

/// Tells whether `s` starts with `prefix`.
pub fn starts_with(s: &str, prefix: &str) -> (r: bool)
    ensures
        r == prefix@.is_prefix_of(s@),
{
    let n: usize = prefix.as_bytes().len();
    proof {
        if prefix@.is_prefix_of(s@) {
            let rest = s@.skip(prefix@.len() as int);
            assert(s@ =~= prefix@ + rest);
            lemma_boundary(prefix@, rest);
            lemma_encode_concat(prefix@, rest);
        }
    }
    if n > s.as_bytes().len() || !s.is_char_boundary(n) {
        return false;
    }
    let (head, _) = split(s, n);
    proof {
        if prefix@.is_prefix_of(s@) {
            assert(encode_utf8(head@) =~= encode_utf8(prefix@));
            lemma_encode_injective(head@, prefix@);
        } else if head@ == prefix@ {
            assert(s@.subrange(0, prefix@.len() as int) =~= prefix@);
        }
    }
    same(head, prefix)
}

/// Tells whether `s` ends with `suffix`.
pub fn ends_with(s: &str, suffix: &str) -> (r: bool)
    ensures
        r == has_suffix(s@, suffix@),
{
    let n: usize = suffix.as_bytes().len();
    let len: usize = s.as_bytes().len();
    proof {
        if has_suffix(s@, suffix@) {
            let rest = s@.take(s@.len() - suffix@.len());
            assert(s@ =~= rest + suffix@);
            lemma_boundary(rest, suffix@);
            lemma_encode_concat(rest, suffix@);
        }
    }
    if n > len || !s.is_char_boundary(len - n) {
        return false;
    }
    let (_, tail) = split(s, len - n);
    proof {
        if has_suffix(s@, suffix@) {
            assert(encode_utf8(tail@) =~= encode_utf8(suffix@));
            lemma_encode_injective(tail@, suffix@);
        } else if tail@ == suffix@ {
            assert(s@.skip(s@.len() - suffix@.len()) =~= suffix@);
        }
    }
    same(tail, suffix)
}

/// Tells whether a character is white space.
pub fn white_space(c: char) -> (r: bool)
    ensures
        r == is_white_space(c),
{
    ('\u{9}' <= c && c <= '\u{d}') || c == ' ' || c == '\u{85}' || c == '\u{a0}' || c == '\u{1680}'
        || ('\u{2000}' <= c && c <= '\u{200a}') || c == '\u{2028}' || c == '\u{2029}' || c
        == '\u{202f}' || c == '\u{205f}' || c == '\u{3000}'
}

/// The number of bytes that a character takes.
fn width(c: char) -> (n: usize)
    ensures
        n == encode_utf8(seq![c]).len(),
        1 <= n <= 4,
{
    proof {
        char_is_scalar(c);
        lemma_encode_one(c);
    }
    if c <= '\u{7f}' {
        1
    } else if c <= '\u{7ff}' {
        2
    } else if c <= '\u{ffff}' {
        3
    } else {
        4
    }
}

/// Cuts the white space off the end of a string.
pub fn trim_end(s: &str) -> (r: &str)
    ensures
        r@ == trimmed(s@),
{
    let total: usize = s.as_bytes().len();
    let mut pos: usize = 0;
    let mut kept: usize = 0;
    let ghost mut n: int = 0;
    for c in it: s.chars()
        invariant
            it.seq() == s@,
            total == encode_utf8(s@).len(),
            pos == encode_utf8(s@.take(it.index() as int)).len(),
            kept == encode_utf8(s@.take(n)).len(),
            0 <= n <= it.index() <= s@.len(),
            s@.take(n) == trimmed(s@.take(it.index() as int)),
    {
        let ghost i = it.index() as int;
        proof {
            assert(s@.take(i + 1) =~= s@.take(i) + seq![c]);
            assert(s@.take(i + 1).drop_last() =~= s@.take(i));
            lemma_encode_concat(s@.take(i), seq![c]);
            assert(s@ =~= s@.take(i + 1) + s@.skip(i + 1));
            lemma_encode_concat(s@.take(i + 1), s@.skip(i + 1));
        }
        pos = pos + width(c);
        if !white_space(c) {
            kept = pos;
            proof {
                n = i + 1;
            }
        }
    }
    proof {
        assert(s@.take(s@.len() as int) =~= s@);
        assert(s@ =~= s@.take(n) + s@.skip(n));
        lemma_boundary(s@.take(n), s@.skip(n));
        lemma_encode_concat(s@.take(n), s@.skip(n));
    }
    let (head, _) = split(s, kept);
    proof {
        assert(encode_utf8(head@) =~= encode_utf8(s@.take(n)));
        lemma_encode_injective(head@, s@.take(n));
    }
    head
}

/// Joins the strings of `list` with `sep` between each two.
pub fn join(list: &Vec<String>, sep: &str) -> (r: String)
    ensures
        r@ == joined(views(list@), sep@),
{
    let mut r = String::new();
    let mut i: usize = 0;
    while i < list.len()
        invariant
            i <= list@.len(),
            r@ == joined(views(list@).take(i as int), sep@),
        decreases list@.len() - i,
    {
        proof {
            let next = views(list@).take(i + 1);
            assert(next.drop_last() =~= views(list@).take(i as int));
            assert(next.last() == list@[i as int]@);
        }
        if i > 0 {
            r.append(sep);
        }
        r.append(list[i].as_str());
        i += 1;
    }
    assert(views(list@).take(i as int) =~= views(list@));
    r
}

/// What is cut off the end of a text is white space, all of it, and nothing else.
pub proof fn trimming_cuts_just_white_space(s: Seq<char>)
    ensures
        trimmed(s).len() <= s.len(),
        s.take(trimmed(s).len() as int) == trimmed(s),
        forall|k: int| trimmed(s).len() <= k < s.len() ==> is_white_space(#[trigger] s[k]),
        trimmed(s).len() > 0 ==> !is_white_space(trimmed(s).last()),
    decreases s.len(),
{
    if s.len() > 0 && is_white_space(s.last()) {
        let front = s.drop_last();
        trimming_cuts_just_white_space(front);
        assert(s.take(trimmed(s).len() as int) =~= front.take(trimmed(s).len() as int));
        assert forall|k: int| trimmed(s).len() <= k < s.len() implies is_white_space(
            #[trigger] s[k],
        ) by {
            if k < front.len() {
                assert(front[k] == s[k]);
            }
        }
    } else {
        assert(s.take(s.len() as int) =~= s);
    }
}

/// A text that ends in no white space keeps its place whatever white space is put behind it: a
/// line is the same with any line end.
pub proof fn line_ends_are_cut(line: Seq<char>, end: Seq<char>)
    requires
        line.len() > 0 ==> '!' <= line.last() <= '~',
        forall|k: int|
            0 <= k < end.len() ==> #[trigger] end[k] == ' ' || end[k] == '\t' || end[k] == '\n'
                || end[k] == '\r',
    ensures
        trimmed(line + end) == line,
    decreases end.len(),
{
    if end.len() == 0 {
        assert(line + end =~= line);
    } else {
        assert((line + end).drop_last() =~= line + end.drop_last());
        assert((line + end).last() == end[end.len() - 1]);
        line_ends_are_cut(line, end.drop_last());
    }
}

/// A text ends in what was put behind it, and in nothing else of that length.
pub proof fn suffix_is_what_stands_behind(front: Seq<char>, a: Seq<char>, b: Seq<char>)
    ensures
        has_suffix(front + a, a),
        a.len() == b.len() && has_suffix(front + a, b) ==> a == b,
        a.len() > front.len() ==> !has_suffix(front, a),
{
    assert((front + a).skip(front.len() as int) =~= a);
}

/// A list joined is its two halves joined, with the separator between them; a single string is
/// itself, and no string is nothing.
pub proof fn joining_goes_by_parts(a: Seq<Seq<char>>, b: Seq<Seq<char>>, sep: Seq<char>)
    ensures
        joined(Seq::empty(), sep).len() == 0,
        a.len() == 1 ==> joined(a, sep) == a[0],
        a.len() > 0 && b.len() > 0 ==> joined(a + b, sep) == joined(a, sep) + sep + joined(b, sep),
    decreases b.len(),
{
    if a.len() > 0 && b.len() > 0 {
        let ab = a + b;
        assert(ab.drop_last() =~= a + b.drop_last());
        assert(ab.last() == b.last());
        if b.len() == 1 {
            assert(a + b.drop_last() =~= a);
        } else {
            joining_goes_by_parts(a, b.drop_last(), sep);
            assert(joined(ab, sep) =~= joined(a, sep) + sep + joined(b, sep));
        }
    }
}

/// The views of a list are those of its strings, each in its place.
pub proof fn views_are_in_place(list: Seq<String>, i: int)
    requires
        0 <= i < list.len(),
    ensures
        views(list).len() == list.len(),
        views(list)[i] == list[i]@,
{
}

} // verus!
