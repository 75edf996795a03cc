//! The tag pairs at the head of a PGN game.

use vstd::prelude::*;
use vstd::utf8::*;

use crate::ascii::{CLOSE_BRACKET, QUOTE, SPACE};
use crate::text;

verus! {

/// `line` is a tag pair: one character (the `[`), a key without spaces, a space, a value in
/// double quotes, and `]`.
pub open spec fn is_header(line: Seq<char>, key: Seq<char>, value: Seq<char>) -> bool {
    &&& line.len() > 0
    &&& !key.contains(' ')
    &&& line == seq![line[0]] + key + seq![' ', '"'] + value + seq!['"', ']']
}

/// `line` is a key as in a tag pair, and for its value a single double quote.
pub open spec fn is_lone_quote(line: Seq<char>, key: Seq<char>) -> bool {
    &&& line.len() > 0
    &&& !key.contains(' ')
    &&& line == seq![line[0]] + key + seq![' ', '"', ']']
}

/// A line that can be looked at as a tag pair. Of the lines of four bytes or more that end in `]`,
/// that leaves out those with a first character of more than one byte, and those where a single
/// quote would have to open the value and close it too.
pub open spec fn is_readable(line: Seq<char>) -> bool {
    encode_utf8(line).len() >= 4 && line.last() == ']' ==> line[0] <= '\u{7f}' && forall|
        key: Seq<char>,
    | !is_lone_quote(line, key)
}

/// Cutting at the first space gives the same two parts however it is written.
proof fn lemma_first_space(a: Seq<char>, x: Seq<char>, b: Seq<char>, y: Seq<char>)
    requires
        !a.contains(' '),
        !b.contains(' '),
        a + seq![' '] + x == b + seq![' '] + y,
    ensures
        a == b,
        x == y,
{
    let s = a + seq![' '] + x;
    assert(s[a.len() as int] == ' ');
    assert(s[b.len() as int] == ' ') by {
        assert((b + seq![' '] + y)[b.len() as int] == ' ');
    }
    if a.len() < b.len() {
        assert(b[a.len() as int] == s[a.len() as int]);
    } else if b.len() < a.len() {
        assert(a[b.len() as int] == s[b.len() as int]);
    }
    assert(a =~= s.take(a.len() as int));
    assert(b =~= s.take(a.len() as int));
    assert(x =~= s.skip(a.len() as int + 1));
    assert(y =~= s.skip(a.len() as int + 1));
}

/// What a tag pair looks like once its first character and its `]` are gone.
proof fn lemma_inner(line: Seq<char>, inner: Seq<char>, key: Seq<char>, value: Seq<char>)
    requires
        line.len() > 0,
        line == seq![line[0]] + inner + seq![']'],
        is_header(line, key, value),
    ensures
        inner == key + seq![' '] + (seq!['"'] + value + seq!['"']),
{
    let other = key + seq![' '] + (seq!['"'] + value + seq!['"']);
    assert(line =~= seq![line[0]] + other + seq![']']);
    assert(inner =~= line.subrange(1, line.len() - 1));
    assert(other =~= line.subrange(1, line.len() - 1));
}

/// The same of a line whose value is a single quote.
proof fn lemma_lone_inner(line: Seq<char>, inner: Seq<char>, key: Seq<char>)
    requires
        line.len() > 0,
        line == seq![line[0]] + inner + seq![']'],
        is_lone_quote(line, key),
    ensures
        inner == key + seq![' '] + seq!['"'],
{
    let other = key + seq![' '] + seq!['"'];
    assert(line =~= seq![line[0]] + other + seq![']']);
    assert(inner =~= line.subrange(1, line.len() - 1));
    assert(other =~= line.subrange(1, line.len() - 1));
}

/// The encoding of a tag pair has five bytes at least and ends in `]`.
proof fn lemma_header_bytes(line: Seq<char>, key: Seq<char>, value: Seq<char>)
    requires
        is_header(line, key, value),
    ensures
        encode_utf8(line).len() >= 5,
        encode_utf8(line).last() == CLOSE_BRACKET,
        line.last() == ']',
{
    let front = seq![line[0]] + key + seq![' ', '"'] + value + seq!['"'];
    assert(line =~= front + seq![']']);
    text::lemma_encode_concat(front, seq![']']);
    text::lemma_encode_ascii(']');
    let body = seq![line[0]] + key;
    text::lemma_encode_concat(body + seq![' ', '"'] + value, seq!['"']);
    text::lemma_encode_concat(body + seq![' ', '"'], value);
    text::lemma_encode_concat(body, seq![' ', '"']);
    text::lemma_encode_concat(seq![line[0]], key);
    text::lemma_encode_ascii('"');
    assert(is_ascii_chars(seq![' ', '"']));
    is_ascii_chars_encode_utf8(seq![' ', '"']);
    encode_utf8_first_scalar(seq![line[0]]);
}

/// A line is a tag pair in one way only.
pub proof fn header_is_unique(
    line: Seq<char>,
    key1: Seq<char>,
    value1: Seq<char>,
    key2: Seq<char>,
    value2: Seq<char>,
)
    requires
        is_header(line, key1, value1),
        is_header(line, key2, value2),
    ensures
        key1 == key2,
        value1 == value2,
{
    let inner = line.subrange(1, line.len() - 1);
    assert(line =~= seq![line[0]] + inner + seq![']']);
    lemma_inner(line, inner, key1, value1);
    lemma_inner(line, inner, key2, value2);
    let x1 = seq!['"'] + value1 + seq!['"'];
    let x2 = seq!['"'] + value2 + seq!['"'];
    lemma_first_space(key1, x1, key2, x2);
    assert(value1 =~= x1.subrange(1, x1.len() - 1));
    assert(value2 =~= x2.subrange(1, x2.len() - 1));
}

/// Every key without spaces and every value can be written as a line that is read back as that
/// key and that value.
pub proof fn header_reads_back(key: Seq<char>, value: Seq<char>)
    requires
        !key.contains(' '),
    ensures
        ({
            let line = seq!['['] + key + seq![' ', '"'] + value + seq!['"', ']'];
            is_readable(line) && is_header(line, key, value)
        }),
{
    let line = seq!['['] + key + seq![' ', '"'] + value + seq!['"', ']'];
    assert(line[0] == '[');
    assert forall|k: Seq<char>| !is_lone_quote(line, k) by {
        if is_lone_quote(line, k) {
            let inner = line.subrange(1, line.len() - 1);
            assert(line =~= seq![line[0]] + inner + seq![']']);
            lemma_inner(line, inner, key, value);
            assert(line =~= seq![line[0]] + (k + seq![' '] + seq!['"']) + seq![']']);
            assert(inner =~= k + seq![' '] + seq!['"']);
            lemma_first_space(k, seq!['"'], key, seq!['"'] + value + seq!['"']);
            assert(seq!['"'].len() == (seq!['"'] + value + seq!['"']).len());
        }
    }
}

/// Finds the first space byte.
fn find_space(s: &str) -> (r: Option<usize>)
    ensures
        match r {
            Some(i) => i < encode_utf8(s@).len() && encode_utf8(s@)[i as int] == SPACE && forall|
                k: int,
            |
                0 <= k < i ==> encode_utf8(s@)[k] != SPACE,
            None => !encode_utf8(s@).contains(SPACE),
        },
{
    let b = s.as_bytes();
    let mut i: usize = 0;
    while i < b.len()
        invariant
            i <= b@.len(),
            b@ == encode_utf8(s@),
            forall|k: int| 0 <= k < i ==> b@[k] != SPACE,
        decreases b@.len() - i,
    {
        if b[i] == SPACE {
            return Some(i);
        }
        i += 1;
    }
    None
}

/// A text of one byte, which is ASCII, is that character.
proof fn lemma_one_byte(s: Seq<char>, c: char)
    requires
        c <= '\u{7f}',
        encode_utf8(s) == seq![c as u8],
    ensures
        s == seq![c],
{
    text::lemma_encode_ascii(c);
    text::lemma_encode_injective(s, seq![c]);
}

/// Reads a line as a tag pair, or gives `None` where the line is not readable as one.
fn scan_header<'a>(line: &'a str) -> (r: Option<Option<(&'a str, &'a str)>>)
    ensures
        match r {
            None => !is_readable(line@),
            Some(Some((key, value))) => is_readable(line@) && is_header(line@, key@, value@),
            Some(None) => is_readable(line@) && forall|key: Seq<char>, value: Seq<char>|
                !is_header(line@, key, value),
        },
{
    let b = line.as_bytes();
    let n: usize = b.len();
    proof {
        assert forall|key: Seq<char>, value: Seq<char>| #[trigger]
            is_header(line@, key, value) implies n >= 5 && b@[n - 1] == CLOSE_BRACKET by {
            lemma_header_bytes(line@, key, value);
        }
    }
    if n < 4 {
        return Some(None);
    }
    if b[n - 1] != CLOSE_BRACKET {
        proof {
            if line@.last() == ']' {
                let front = line@.drop_last();
                assert(line@ =~= front + seq![']']);
                text::lemma_encode_concat(front, seq![']']);
                text::lemma_encode_ascii(']');
            }
        }
        return Some(None);
    }
    let (front, bracket) = text::split_before(line, n - 1);
    proof {
        assert(encode_utf8(bracket@) =~= seq![']' as u8]);
        lemma_one_byte(bracket@, ']');
        assert(line@.last() == ']');
        assert(front@.len() > 0) by {
            if front@.len() == 0 {
                assert(encode_utf8(front@).len() == 0);
            }
        }
        assert(line@[0] == front@[0]);
        assert(encode_utf8(front@)[0] == b@[0]);
        if line@[0] <= '\u{7f}' {
            text::lemma_char_number(front@[0]);
            text::lemma_encode_ascii(front@[0]);
            assert(front@ =~= seq![front@[0]] + front@.drop_first());
            text::lemma_encode_concat(seq![front@[0]], front@.drop_first());
        }
    }
    if b[0] >= 0x80 {
        return None;
    }
    let inner = text::behind_first(front);
    assert(line@ =~= seq![line@[0]] + inner@ + seq![']']);
    proof {
        assert forall|key: Seq<char>, value: Seq<char>| #[trigger]
            is_header(line@, key, value) implies inner@ == key + seq![' '] + (seq!['"'] + value
            + seq!['"']) by {
            lemma_inner(line@, inner@, key, value);
        }
        assert forall|key: Seq<char>| #[trigger]
            is_lone_quote(line@, key) implies inner@ == key + seq![' '] + seq!['"'] by {
            lemma_lone_inner(line@, inner@, key);
        }
    }
    match find_space(inner) {
        None => {
            proof {
                text::lemma_encode_contains(inner@, ' ');
                assert forall|key: Seq<char>, value: Seq<char>| !is_header(line@, key, value) by {
                    if is_header(line@, key, value) {
                        assert(inner@[key.len() as int] == ' ');
                    }
                }
                assert forall|key: Seq<char>| !is_lone_quote(line@, key) by {
                    if is_lone_quote(line@, key) {
                        assert(inner@[key.len() as int] == ' ');
                    }
                }
            }
            Some(None)
        },
        Some(i) => {
            let (key, tail) = text::split_before(inner, i);
            let quoted = text::behind_first(tail);
            proof {
                text::lemma_encode_contains(key@, ' ');
                assert(inner@ =~= key@ + seq![' '] + quoted@);
                assert forall|k: Seq<char>, v: Seq<char>| #[trigger]
                    is_header(line@, k, v) implies quoted@ == seq!['"'] + v + seq!['"'] by {
                    lemma_first_space(key@, quoted@, k, seq!['"'] + v + seq!['"']);
                }
                assert forall|k: Seq<char>| #[trigger] is_lone_quote(line@, k) implies quoted@
                    == seq!['"'] by {
                    lemma_first_space(key@, quoted@, k, seq!['"']);
                }
            }
            let q = quoted.as_bytes();
            let m: usize = q.len();
            proof {
                text::lemma_encode_ascii('"');
                assert forall|k: Seq<char>, v: Seq<char>| #[trigger]
                    is_header(line@, k, v) implies m > 1 && q@[0] == QUOTE && q@[m - 1]
                    == QUOTE by {
                    text::lemma_encode_concat(seq!['"'] + v, seq!['"']);
                    text::lemma_encode_concat(seq!['"'], v);
                }
                assert forall|k: Seq<char>| #[trigger] is_lone_quote(line@, k) implies m == 1
                    && q@[0] == QUOTE by {}
            }
            if m == 0 || q[0] != QUOTE || q[m - 1] != QUOTE {
                return Some(None);
            }
            if m == 1 {
                proof {
                    assert(q@ =~= seq!['"' as u8]);
                    lemma_one_byte(quoted@, '"');
                    assert(line@ =~= seq![line@[0]] + key@ + seq![' ', '"', ']']);
                    assert(is_lone_quote(line@, key@));
                }
                return None;
            }
            let rest = text::behind_first(quoted);
            let (value, quote) = text::split_before(rest, m - 2);
            proof {
                assert(encode_utf8(quote@) =~= seq!['"' as u8]);
                lemma_one_byte(quote@, '"');
                assert(line@ =~= seq![line@[0]] + key@ + seq![' ', '"'] + value@ + seq!['"', ']']);
            }
            Some(Some((key, value)))
        },
    }
}

/// Tells whether a line can be read by `parse_header`.
pub fn can_parse_header(line: &str) -> (r: bool)
    ensures
        r == is_readable(line@),
{
    scan_header(line).is_some()
}

/// Reads a line as a tag pair, `[Key "Value"]`. The first character is not looked at: the line is
/// known to start with `[`.
pub fn parse_header<'a>(line: &'a str) -> (r: Option<(&'a str, &'a str)>)
    requires
        is_readable(line@),
    ensures
        match r {
            Some((key, value)) => is_header(line@, key@, value@),
            None => forall|key: Seq<char>, value: Seq<char>| !is_header(line@, key, value),
        },
{
    match scan_header(line) {
        Some(pair) => pair,
        None => None,
    }
}

/// The header values that the filters look at.
pub struct GameHeaders {
    pub event: String,
    pub time_control: String,
    pub white_title: String,
    pub black_title: String,
    pub white: String,
    pub black: String,
    pub white_elo: String,
    pub black_elo: String,
}

/// The characters of the header values. A header that a game does not have is empty.
pub struct HeaderValues {
    pub event: Seq<char>,
    pub time_control: Seq<char>,
    pub white_title: Seq<char>,
    pub black_title: Seq<char>,
    pub white: Seq<char>,
    pub black: Seq<char>,
    pub white_elo: Seq<char>,
    pub black_elo: Seq<char>,
}

impl HeaderValues {
    /// No header at all.
    pub open spec fn none() -> HeaderValues {
        HeaderValues {
            event: Seq::empty(),
            time_control: Seq::empty(),
            white_title: Seq::empty(),
            black_title: Seq::empty(),
            white: Seq::empty(),
            black: Seq::empty(),
            white_elo: Seq::empty(),
            black_elo: Seq::empty(),
        }
    }

    /// The values once the header `key` is `value`. Only eight keys matter.
    pub open spec fn with(self, key: Seq<char>, value: Seq<char>) -> HeaderValues {
        if key == "Event"@ {
            HeaderValues { event: value, ..self }
        } else if key == "TimeControl"@ {
            HeaderValues { time_control: value, ..self }
        } else if key == "WhiteTitle"@ {
            HeaderValues { white_title: value, ..self }
        } else if key == "BlackTitle"@ {
            HeaderValues { black_title: value, ..self }
        } else if key == "White"@ {
            HeaderValues { white: value, ..self }
        } else if key == "Black"@ {
            HeaderValues { black: value, ..self }
        } else if key == "WhiteElo"@ {
            HeaderValues { white_elo: value, ..self }
        } else if key == "BlackElo"@ {
            HeaderValues { black_elo: value, ..self }
        } else {
            self
        }
    }

    /// The values once `line` has been read: those of its tag pair, if it is one.
    pub open spec fn after_line(self, line: Seq<char>) -> HeaderValues {
        if exists|key: Seq<char>, value: Seq<char>| is_header(line, key, value) {
            let (key, value) = choose|key: Seq<char>, value: Seq<char>|
                is_header(line, key, value);
            self.with(key, value)
        } else {
            self
        }
    }
}

impl View for GameHeaders {
    type V = HeaderValues;

    open spec fn view(&self) -> HeaderValues {
        HeaderValues {
            event: self.event@,
            time_control: self.time_control@,
            white_title: self.white_title@,
            black_title: self.black_title@,
            white: self.white@,
            black: self.black@,
            white_elo: self.white_elo@,
            black_elo: self.black_elo@,
        }
    }
}

impl GameHeaders {
    /// The headers of a game of which nothing has been read.
    pub fn new() -> (r: GameHeaders)
        ensures
            r@ == HeaderValues::none(),
    {
        GameHeaders {
            event: String::new(),
            time_control: String::new(),
            white_title: String::new(),
            black_title: String::new(),
            white: String::new(),
            black: String::new(),
            white_elo: String::new(),
            black_elo: String::new(),
        }
    }

    /// Forgets everything that has been read.
    pub fn clear(&mut self)
        ensures
            final(self)@ == HeaderValues::none(),
    {
        self.event.clear();
        self.time_control.clear();
        self.white_title.clear();
        self.black_title.clear();
        self.white.clear();
        self.black.clear();
        self.white_elo.clear();
        self.black_elo.clear();
    }

    /// Takes over the value of one header, in place of what it was.
    pub fn set(&mut self, key: &str, value: &str)
        ensures
            final(self)@ == old(self)@.with(key@, value@),
    {
        if text::same(key, "Event") {
            text::replace(&mut self.event, value);
        } else if text::same(key, "TimeControl") {
            text::replace(&mut self.time_control, value);
        } else if text::same(key, "WhiteTitle") {
            text::replace(&mut self.white_title, value);
        } else if text::same(key, "BlackTitle") {
            text::replace(&mut self.black_title, value);
        } else if text::same(key, "White") {
            text::replace(&mut self.white, value);
        } else if text::same(key, "Black") {
            text::replace(&mut self.black, value);
        } else if text::same(key, "WhiteElo") {
            text::replace(&mut self.white_elo, value);
        } else if text::same(key, "BlackElo") {
            text::replace(&mut self.black_elo, value);
        }
    }

    /// Takes over the header that `line` holds, if it holds one.
    pub fn read_line(&mut self, line: &str)
        requires
            is_readable(line@),
        ensures
            final(self)@ == old(self)@.after_line(line@),
    {
        if let Some((key, value)) = parse_header(line) {
            proof {
                let (k, v) = choose|k: Seq<char>, v: Seq<char>| is_header(line@, k, v);
                header_is_unique(line@, key@, value@, k, v);
            }
            self.set(key, value);
        }
    }
}

/// No two of the eight keys are the same.
proof fn lemma_keys_differ()
    ensures
        forall|i: int, j: int|
            0 <= i < j < 8 ==> #[trigger] keys()[i] != #[trigger] keys()[j],
{
    reveal_strlit("Event");
    reveal_strlit("TimeControl");
    reveal_strlit("WhiteTitle");
    reveal_strlit("BlackTitle");
    reveal_strlit("White");
    reveal_strlit("Black");
    reveal_strlit("WhiteElo");
    reveal_strlit("BlackElo");
    let k = keys();
    assert(k[0][0] == 'E' && k[1].len() == 11 && k[2][0] == 'W' && k[3][0] == 'B');
    assert(k[4][0] == 'W' && k[5][0] == 'B' && k[6][0] == 'W' && k[7][0] == 'B');
    assert(k[0].len() == 5 && k[2].len() == 10 && k[3].len() == 10 && k[4].len() == 5);
    assert(k[5].len() == 5 && k[6].len() == 8 && k[7].len() == 8);
}

/// The eight keys that matter.
spec fn keys() -> Seq<Seq<char>> {
    seq![
        "Event"@,
        "TimeControl"@,
        "WhiteTitle"@,
        "BlackTitle"@,
        "White"@,
        "Black"@,
        "WhiteElo"@,
        "BlackElo"@,
    ]
}

/// A line that is a tag pair sets the header that its key names to its value, and leaves the other
/// seven as they were; one with another key sets nothing.
pub proof fn tag_pair_sets_its_header(h: HeaderValues, c: char, key: Seq<char>, value: Seq<char>)
    requires
        !key.contains(' '),
    ensures
        ({
            let after = h.after_line(seq![c] + key + seq![' ', '"'] + value + seq!['"', ']']);
            &&& after.event == (if key == "Event"@ {
                value
            } else {
                h.event
            })
            &&& after.time_control == (if key == "TimeControl"@ {
                value
            } else {
                h.time_control
            })
            &&& after.white_title == (if key == "WhiteTitle"@ {
                value
            } else {
                h.white_title
            })
            &&& after.black_title == (if key == "BlackTitle"@ {
                value
            } else {
                h.black_title
            })
            &&& after.white == (if key == "White"@ {
                value
            } else {
                h.white
            })
            &&& after.black == (if key == "Black"@ {
                value
            } else {
                h.black
            })
            &&& after.white_elo == (if key == "WhiteElo"@ {
                value
            } else {
                h.white_elo
            })
            &&& after.black_elo == (if key == "BlackElo"@ {
                value
            } else {
                h.black_elo
            })
        }),
{
    let line = seq![c] + key + seq![' ', '"'] + value + seq!['"', ']'];
    assert(line[0] == c);
    assert(is_header(line, key, value));
    let (k, v) = choose|k: Seq<char>, v: Seq<char>| is_header(line, k, v);
    header_is_unique(line, key, value, k, v);
    lemma_keys_differ();
    let all = keys();
    assert(all[0] == "Event"@);
    assert(all[1] == "TimeControl"@);
    assert(all[2] == "WhiteTitle"@);
    assert(all[3] == "BlackTitle"@);
    assert(all[4] == "White"@);
    assert(all[5] == "Black"@);
    assert(all[6] == "WhiteElo"@);
    assert(all[7] == "BlackElo"@);
}

/// A line that is no tag pair sets nothing: one that does not end in `"]`, or has no `"` of its own
/// behind its first space, or no space behind its first character.
pub proof fn other_lines_set_nothing(h: HeaderValues, line: Seq<char>, space: int)
    requires
        line.len() > 0 ==> 1 <= space <= line.len(),
        forall|k: int| 1 <= k < space ==> #[trigger] line[k] != ' ',
        0 < space < line.len() ==> line[space] == ' ',
        line.len() < space + 4 || line[space + 1] != '"' || line[line.len() - 2] != '"'
            || line.last() != ']',
    ensures
        h.after_line(line) == h,
{
    assert forall|key: Seq<char>, value: Seq<char>| !is_header(line, key, value) by {
        if is_header(line, key, value) {
            let n = key.len() as int;
            assert(line[n + 1] == ' ' && line[n + 2] == '"');
            assert(line[line.len() - 2] == '"' && line.last() == ']');
            if space < n + 1 {
                assert(line[space] == key[space - 1]);
            }
        }
    }
}

/// Lines that a source is made of can be looked at: those that do not end in `]`, those of fewer
/// than four bytes, and those that start with an ASCII character and have no lone quote for their
/// value.
pub proof fn plain_lines_are_readable(line: Seq<char>)
    ensures
        line.len() == 0 || line.last() != ']' ==> is_readable(line),
        encode_utf8(line).len() < 4 ==> is_readable(line),
        line.len() > 0 && line[0] <= '\u{7f}' && !text::has_suffix(line, seq![' ', '"', ']'])
            ==> is_readable(line),
{
    let lone = seq![' ', '"', ']'];
    assert forall|key: Seq<char>| is_lone_quote(line, key) implies text::has_suffix(line, lone) by {
        assert(line.skip(line.len() - lone.len()) =~= lone);
    }
}

/// A line of four bytes or more cannot be looked at where a character of more than one byte is in
/// the place of its `[`, or a lone quote in that of its value.
pub proof fn some_lines_are_unreadable(c: char, key: Seq<char>, rest: Seq<char>)
    requires
        !key.contains(' '),
    ensures
        encode_utf8(seq![c] + key + seq![' ', '"', ']']).len() >= 4 && !is_readable(
            seq![c] + key + seq![' ', '"', ']'],
        ),
        c > '\u{7f}' && encode_utf8(seq![c] + rest + seq![']']).len() >= 4 ==> !is_readable(
            seq![c] + rest + seq![']'],
        ),
{
    let lone = seq![c] + key + seq![' ', '"', ']'];
    let end = seq![' ', '"', ']'];
    text::lemma_encode_concat(seq![c] + key, end);
    text::lemma_encode_concat(seq![c], key);
    assert(is_ascii_chars(end));
    is_ascii_chars_encode_utf8(end);
    encode_utf8_first_scalar(seq![c]);
    assert(lone[0] == c && lone.last() == ']');
    assert(is_lone_quote(lone, key));
    let other = seq![c] + rest + seq![']'];
    assert(other[0] == c && other.last() == ']');
}

/// Before anything is read all headers are empty, and the headers of a game are what its fields
/// hold.
pub proof fn headers_are_their_fields(h: GameHeaders)
    ensures
        h@.event == h.event@,
        h@.time_control == h.time_control@,
        h@.white_title == h.white_title@,
        h@.black_title == h.black_title@,
        h@.white == h.white@,
        h@.black == h.black@,
        h@.white_elo == h.white_elo@,
        h@.black_elo == h.black_elo@,
        HeaderValues::none().event.len() == 0,
        HeaderValues::none().time_control.len() == 0,
        HeaderValues::none().white_title.len() == 0,
        HeaderValues::none().black_title.len() == 0,
        HeaderValues::none().white.len() == 0,
        HeaderValues::none().black.len() == 0,
        HeaderValues::none().white_elo.len() == 0,
        HeaderValues::none().black_elo.len() == 0,
{
}

} // verus!
