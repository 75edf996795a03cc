//! Numbers in decimal: reading ratings, writing counts, and columns of them.

use vstd::prelude::*;
use vstd::string::*;
use vstd::utf8::*;

use crate::ascii::{MINUS, NINE, PLUS, ZERO};

verus! {

/// The digit `d`.
pub open spec fn digit_char(d: nat) -> char {
    (48 + d) as char
}

/// `n` in decimal.
pub open spec fn digits(n: nat) -> Seq<char>
    decreases n,
{
    if n < 10 {
        seq![digit_char(n)]
    } else {
        digits(n / 10).push(digit_char(n % 10))
    }
}

/// `n` in decimal, with a `-` before it if it is negative.
pub open spec fn signed(n: int) -> Seq<char> {
    if n < 0 {
        seq!['-'] + digits((-n) as nat)
    } else {
        digits(n as nat)
    }
}

/// Whether `s` is made of decimal digits only.
pub open spec fn all_digits(s: Seq<char>) -> bool {
    forall|k: int| 0 <= k < s.len() ==> '0' <= #[trigger] s[k] <= '9'
}

/// The number that `s` writes in decimal.
pub open spec fn value(s: Seq<char>) -> int
    decreases s.len(),
{
    if s.len() == 0 {
        0
    } else {
        10 * value(s.drop_last()) + (s.last() as int - '0' as int)
    }
}

/// `s` without the sign that it may start with.
pub open spec fn unsigned(s: Seq<char>) -> Seq<char> {
    if s.len() > 0 && (s[0] == '+' || s[0] == '-') {
        s.drop_first()
    } else {
        s
    }
}

/// The number that `s` writes, sign included.
pub open spec fn signed_value(s: Seq<char>) -> int {
    if s.len() > 0 && s[0] == '-' {
        -value(unsigned(s))
    } else {
        value(unsigned(s))
    }
}

/// The `i32` that `s` stands for: a sign or none, then digits, at least one, and nothing else; and
/// the number fits.
pub open spec fn read_i32(s: Seq<char>) -> Option<i32> {
    let n = signed_value(s);
    if unsigned(s).len() > 0 && all_digits(unsigned(s)) && i32::MIN <= n <= i32::MAX {
        Some(n as i32)
    } else {
        None
    }
}

/// `n` spaces.
pub open spec fn spaces(n: nat) -> Seq<char> {
    Seq::new(n, |i: int| ' ')
}

/// The spaces that a column of `width` characters has left beside `s`.
pub open spec fn padding(s: Seq<char>, width: nat) -> Seq<char> {
    if s.len() < width {
        spaces((width - s.len()) as nat)
    } else {
        Seq::empty()
    }
}

/// `s` at the left of a column.
pub open spec fn left(s: Seq<char>, width: nat) -> Seq<char> {
    s + padding(s, width)
}

/// `s` at the right of a column.
pub open spec fn right(s: Seq<char>, width: nat) -> Seq<char> {
    padding(s, width) + s
}

/// More digits make no smaller number.
proof fn lemma_value_grows(s: Seq<char>, i: int)
    requires
        0 <= i <= s.len(),
        all_digits(s),
    ensures
        0 <= value(s.take(i)) <= value(s),
    decreases s.len(),
{
    if s.len() == 0 {
        assert(s.take(i) =~= s);
    } else if i == s.len() {
        assert(s.take(i) =~= s);
        assert(s.drop_last().take(0) =~= Seq::<char>::empty());
        lemma_value_grows(s.drop_last(), 0);
    } else {
        lemma_value_grows(s.drop_last(), i);
        assert(s.drop_last().take(i) =~= s.take(i));
    }
}

/// Reads an `i32`: a sign or none, and digits.
pub fn parse_i32(s: &str) -> (r: Option<i32>)
    ensures
        r == read_i32(s@),
{
    if !s.is_ascii() {
        proof {
            let k = choose|k: int| 0 <= k < s@.len() && !('\0' <= #[trigger] s@[k] <= '\u{7f}');
            if s@[0] == '+' || s@[0] == '-' {
                assert(unsigned(s@)[k - 1] == s@[k]);
            }
        }
        return None;
    }
    let b = s.as_bytes();
    proof {
        is_ascii_chars_encode_utf8(s@);
        assert forall|k: int| 0 <= k < s@.len() implies b@[k] as int == #[trigger] s@[k] as int by {
            assert(s@[k] as u8 == b@[k]);
        }
    }
    let negative = b.len() > 0 && b[0] == MINUS;
    let start: usize = if negative || (b.len() > 0 && b[0] == PLUS) {
        1
    } else {
        0
    };
    let ghost u = unsigned(s@);
    assert(u =~= s@.skip(start as int));
    if start == b.len() {
        return None;
    }
    let mut acc: u64 = 0;
    let mut i: usize = start;
    while i < b.len()
        invariant
            start <= i <= b@.len(),
            b@.len() == s@.len(),
            forall|k: int| 0 <= k < s@.len() ==> b@[k] as int == #[trigger] s@[k] as int,
            u == unsigned(s@),
            u == s@.skip(start as int),
            acc == value(u.take(i - start)),
            acc <= 0x8000_0000,
            all_digits(u.take(i - start)),
        decreases b@.len() - i,
    {
        let c: u8 = b[i];
        let ghost p = i - start;
        assert(u[p] as int == c as int);
        if c < ZERO || c > NINE {
            return None;
        }
        let d: u8 = c - ZERO;
        acc = 10 * acc + d as u64;
        proof {
            let next = u.take(p + 1);
            assert(next.drop_last() =~= u.take(p));
            assert(next.last() == u[p]);
            assert forall|k: int| 0 <= k < next.len() implies '0' <= #[trigger] next[k] <= '9' by {
                if k < p {
                    assert(u.take(p)[k] == next[k]);
                }
            }
        }
        if acc > 0x8000_0000 {
            proof {
                if all_digits(u) {
                    lemma_value_grows(u, p + 1);
                }
            }
            return None;
        }
        i += 1;
    }
    assert(u.take(i - start) =~= u);
    if negative {
        Some((0 - acc as i64) as i32)
    } else if acc <= 0x7fff_ffff {
        Some(acc as i32)
    } else {
        None
    }
}

/// The digit `d` as a string.
fn digit_str(d: u64) -> (r: &'static str)
    requires
        d < 10,
    ensures
        r@ == seq![digit_char(d as nat)],
{
    proof {
        reveal_strlit("0");
        reveal_strlit("1");
        reveal_strlit("2");
        reveal_strlit("3");
        reveal_strlit("4");
        reveal_strlit("5");
        reveal_strlit("6");
        reveal_strlit("7");
        reveal_strlit("8");
        reveal_strlit("9");
    }
    let r = if d == 0 {
        "0"
    } else if d == 1 {
        "1"
    } else if d == 2 {
        "2"
    } else if d == 3 {
        "3"
    } else if d == 4 {
        "4"
    } else if d == 5 {
        "5"
    } else if d == 6 {
        "6"
    } else if d == 7 {
        "7"
    } else if d == 8 {
        "8"
    } else {
        "9"
    };
    assert(r@ =~= seq![digit_char(d as nat)]);
    r
}

/// Appends a number in decimal.
pub fn push_number(out: &mut String, n: u64)
    ensures
        final(out)@ == old(out)@ + digits(n as nat),
    decreases n,
{
    if n >= 10 {
        push_number(out, n / 10);
    }
    out.append(digit_str(n % 10));
    assert(out@ =~= old(out)@ + digits(n as nat));
}

/// Appends a number in decimal, with its sign if it is negative.
pub fn push_signed(out: &mut String, n: i32)
    ensures
        final(out)@ == old(out)@ + signed(n as int),
{
    let m: i64 = n as i64;
    if m < 0 {
        proof {
            reveal_strlit("-");
            assert("-"@ =~= seq!['-']);
        }
        out.append("-");
        push_number(out, (0 - m) as u64);
        assert(out@ =~= old(out)@ + signed(n as int));
    } else {
        push_number(out, m as u64);
    }
}

/// A number in decimal.
pub fn number(n: u64) -> (r: String)
    ensures
        r@ == digits(n as nat),
{
    let mut r = String::new();
    push_number(&mut r, n);
    assert(r@ =~= digits(n as nat));
    r
}

/// Appends the spaces that a column of `width` characters has left beside `s`.
fn push_padding(out: &mut String, s: &str, width: usize)
    ensures
        final(out)@ == old(out)@ + padding(s@, width as nat),
{
    let len: usize = s.unicode_len();
    let mut i: usize = len;
    proof {
        reveal_strlit(" ");
        assert(out@ =~= old(out)@ + Seq::<char>::empty());
    }
    if len >= width {
        return;
    }
    while i < width
        invariant
            len <= i <= width,
            " "@ == seq![' '],
            out@ == old(out)@ + spaces((i - len) as nat),
        decreases width - i,
    {
        out.append(" ");
        i += 1;
        assert(out@ =~= old(out)@ + spaces((i - len) as nat));
    }
}

/// Appends `s` at the left of a column.
pub fn push_left(out: &mut String, s: &str, width: usize)
    ensures
        final(out)@ == old(out)@ + left(s@, width as nat),
{
    out.append(s);
    push_padding(out, s, width);
    assert(out@ =~= old(out)@ + left(s@, width as nat));
}

/// Appends `s` at the right of a column.
pub fn push_right(out: &mut String, s: &str, width: usize)
    ensures
        final(out)@ == old(out)@ + right(s@, width as nat),
{
    push_padding(out, s, width);
    out.append(s);
    assert(out@ =~= old(out)@ + right(s@, width as nat));
}

/// A number in decimal is its number of tens in decimal, if there is any, and a digit behind it.
pub proof fn digits_go_by_tens(tens: nat, d: nat)
    requires
        d < 10,
    ensures
        tens > 0 ==> digits(10 * tens + d) == digits(tens).push(('0' as int + d) as char),
        digits(d) == seq![('0' as int + d) as char],
        tens > 0 ==> value(digits(tens).push(('0' as int + d) as char)) == 10 * value(digits(tens))
            + d,
        value(seq![('0' as int + d) as char]) == d,
{
    let c = ('0' as int + d) as char;
    if tens > 0 {
        assert((10 * tens + d) / 10 == tens);
        assert((10 * tens + d) % 10 == d);
    }
    assert(digits(tens).push(c).drop_last() =~= digits(tens));
    assert(seq![c].drop_last() =~= Seq::<char>::empty());
    assert(value(seq![c].drop_last()) == 0);
}

/// What is written in decimal is one digit or more, without a zero in front, and has the value of
/// the number.
pub proof fn digits_have_their_value(n: nat)
    ensures
        value(digits(n)) == n,
        digits(n).len() > 0,
        all_digits(digits(n)),
        forall|k: int| 0 <= k < digits(n).len() ==> '0' <= #[trigger] digits(n)[k] <= '9',
        n > 0 ==> digits(n)[0] != '0',
    decreases n,
{
    let s = digits(n);
    if n < 10 {
        assert(s.drop_last() =~= Seq::<char>::empty());
        assert(value(s.drop_last()) == 0);
    } else {
        digits_have_their_value(n / 10);
        assert(s.drop_last() =~= digits(n / 10));
        assert forall|k: int| 0 <= k < s.len() implies '0' <= #[trigger] s[k] <= '9' by {
            if k < s.len() - 1 {
                assert(s[k] == digits(n / 10)[k]);
            }
        }
        assert(s[0] == digits(n / 10)[0]);
    }
}

/// Every rating is read back as it is written, with a plus in front too if it is not negative.
pub proof fn ratings_read_back(n: i32)
    ensures
        read_i32(signed(n as int)) == Some(n),
        n >= 0 ==> read_i32(seq!['+'] + signed(n as int)) == Some(n),
        n >= 0 ==> signed(n as int) == digits(n as nat),
        n < 0 ==> signed(n as int) == seq!['-'] + digits((-n) as nat),
{
    let m = if n < 0 {
        (-n) as nat
    } else {
        n as nat
    };
    let d = digits(m);
    digits_have_their_value(m);
    assert('0' <= d[0] <= '9');
    assert((seq!['-'] + d).drop_first() =~= d);
    assert((seq!['+'] + d).drop_first() =~= d);
    assert((seq!['-'] + d)[0] == '-' && (seq!['+'] + d)[0] == '+');
}

/// Zeros in front of a number make no difference.
pub proof fn leading_zeros_make_no_difference(s: Seq<char>)
    requires
        s.len() > 0,
        '0' <= s[0] <= '9',
    ensures
        read_i32(seq!['0'] + s) == read_i32(s),
{
    let z = seq!['0'] + s;
    lemma_leading_zero(s);
    assert(z[0] == '0');
    if all_digits(s) {
        assert forall|k: int| 0 <= k < z.len() implies '0' <= #[trigger] z[k] <= '9' by {
            if k > 0 {
                assert(z[k] == s[k - 1]);
            }
        }
    }
    if all_digits(z) {
        assert forall|k: int| 0 <= k < s.len() implies '0' <= #[trigger] s[k] <= '9' by {
            assert(z[k + 1] == s[k]);
        }
    }
}

proof fn lemma_leading_zero(s: Seq<char>)
    ensures
        value(seq!['0'] + s) == value(s),
    decreases s.len(),
{
    let z = seq!['0'] + s;
    if s.len() == 0 {
        assert(z.drop_last() =~= Seq::<char>::empty());
        assert(value(z.drop_last()) == 0);
        assert(z.last() == '0');
    } else {
        lemma_leading_zero(s.drop_last());
        assert(z.drop_last() =~= seq!['0'] + s.drop_last());
    }
}

/// What is read as a rating is digits, at least one, with a sign in front or none; anything else is
/// not read, and nor is a number that does not fit.
pub proof fn only_numbers_are_read(s: Seq<char>, k: int)
    ensures
        read_i32(s) is Some ==> s.len() > 0,
        read_i32(s) is Some && 0 < k < s.len() ==> '0' <= s[k] <= '9',
        read_i32(s) is Some && s.len() == 1 ==> '0' <= s[0] <= '9',
        read_i32(s) is Some ==> '0' <= s[0] <= '9' || s[0] == '-' || s[0] == '+',
        read_i32(s) is Some && s[0] == '-' ==> read_i32(s)->0 <= 0,
        read_i32(s) is Some && s[0] != '-' ==> read_i32(s)->0 >= 0,
{
    if read_i32(s) is Some {
        let u = unsigned(s);
        lemma_value_grows(u, 0);
        if s[0] == '+' || s[0] == '-' {
            if 0 < k < s.len() {
                assert(u[k - 1] == s[k]);
            }
        } else {
            assert('0' <= u[0] <= '9');
            if 0 < k < s.len() {
                assert(u[k] == s[k]);
            }
        }
    }
}

/// A number above the largest rating, or below the smallest, is not read.
pub proof fn numbers_that_do_not_fit_are_not_read(n: nat)
    ensures
        n > i32::MAX ==> read_i32(digits(n)) is None,
        n > i32::MAX + 1 ==> read_i32(seq!['-'] + digits(n)) is None,
{
    let d = digits(n);
    digits_have_their_value(n);
    assert('0' <= d[0] <= '9');
    assert((seq!['-'] + d).drop_first() =~= d);
    assert((seq!['-'] + d)[0] == '-');
}

/// A column holds its text, at its left or at its right, and spaces; it is as wide as is asked for,
/// or as wide as the text where that is wider.
pub proof fn columns_hold_their_text(s: Seq<char>, width: nat)
    ensures
        left(s, width).len() == (if s.len() < width {
            width
        } else {
            s.len()
        }),
        right(s, width).len() == left(s, width).len(),
        left(s, width).take(s.len() as int) == s,
        right(s, width).skip(right(s, width).len() - s.len()) == s,
        forall|k: int| s.len() <= k < left(s, width).len() ==> #[trigger] left(s, width)[k] == ' ',
        forall|k: int|
            0 <= k < right(s, width).len() - s.len() ==> #[trigger] right(s, width)[k] == ' ',
{
    assert(left(s, width).take(s.len() as int) =~= s);
    assert(right(s, width).skip(right(s, width).len() - s.len()) =~= s);
}

} // verus!
