//! Half-moves ("plies") in the movetext of a PGN game.
//!
//! Movetext is read as bytes: everything that separates its items is ASCII, so the bytes of a
//! longer character only ever stand inside a word or a comment.

use vstd::prelude::*;
use vstd::utf8::*;

use crate::ascii::{
    CARRIAGE_RETURN, CLOSE_BRACE, CLOSE_PAREN, DOLLAR, DOT, FORM_FEED, LINE_FEED, MINUS, NINE, ONE,
    OPEN_BRACE, OPEN_PAREN, SEMICOLON, SLASH, SPACE, STAR, TAB, TWO, ZERO,
};

verus! {

/// The five bytes that count as ASCII whitespace.
pub open spec fn is_space(c: u8) -> bool {
    c == SPACE || c == TAB || c == LINE_FEED || c == FORM_FEED || c == CARRIAGE_RETURN
}

/// The bytes at which a word of movetext ends.
pub open spec fn is_delimiter(c: u8) -> bool {
    is_space(c) || c == OPEN_BRACE || c == CLOSE_BRACE || c == OPEN_PAREN || c == CLOSE_PAREN || c
        == SEMICOLON
}

pub open spec fn is_digit(c: u8) -> bool {
    ZERO <= c <= NINE
}

/// The position of the first `c` in `b` from `i` on, or the length of `b` if there is none.
pub open spec fn find_byte(b: Seq<u8>, i: int, c: u8) -> int
    decreases b.len() - i,
{
    if i >= b.len() || b[i] == c {
        i
    } else {
        find_byte(b, i + 1, c)
    }
}

/// The position of the first delimiter in `b` from `i` on, or the length of `b`.
pub open spec fn word_end(b: Seq<u8>, i: int) -> int
    decreases b.len() - i,
{
    if i >= b.len() || is_delimiter(b[i]) {
        i
    } else {
        word_end(b, i + 1)
    }
}

/// Where the item of movetext that starts at `i` ends: a `{ ... }` comment behind its brace (at
/// the end of the text if nothing closes it), a `;` comment before its line feed, a word before
/// the next delimiter; a parenthesis or a whitespace byte is an item by itself.
pub open spec fn item_end(b: Seq<u8>, i: int) -> int {
    if b[i] == OPEN_BRACE {
        let close = find_byte(b, i + 1, CLOSE_BRACE);
        if close < b.len() {
            close + 1
        } else {
            close
        }
    } else if b[i] == SEMICOLON {
        find_byte(b, i + 1, LINE_FEED)
    } else if is_delimiter(b[i]) {
        i + 1
    } else {
        word_end(b, i + 1)
    }
}

/// How deep in variations the text is behind a byte `c` that stands outside comments.
pub open spec fn depth_after(c: u8, depth: nat) -> nat {
    if c == OPEN_PAREN {
        depth + 1
    } else if c == CLOSE_PAREN && depth > 0 {
        (depth - 1) as nat
    } else {
        depth
    }
}

/// The marker that ends a game.
pub open spec fn is_result(w: Seq<u8>) -> bool {
    ||| w == seq![ONE, MINUS, ZERO]
    ||| w == seq![ZERO, MINUS, ONE]
    ||| w == seq![ONE, SLASH, TWO, MINUS, ONE, SLASH, TWO]
    ||| w == seq![STAR]
}

/// A move number: one digit or more, and nothing but dots, one or more, behind them.
pub open spec fn is_move_number(w: Seq<u8>) -> bool {
    exists|d: int| #[trigger] is_number_split(w, d)
}

/// `w` is `d` digits, at least one, and then dots, at least one.
pub open spec fn is_number_split(w: Seq<u8>, d: int) -> bool {
    &&& 0 < d < w.len()
    &&& forall|k: int| 0 <= k < d ==> is_digit(#[trigger] w[k])
    &&& forall|k: int| d <= k < w.len() ==> #[trigger] w[k] == DOT
}

/// A word that is a ply: not a `$` annotation, not a result, not a bare move number. A move with
/// its number glued to it (`12.e4`) is one.
pub open spec fn is_move(w: Seq<u8>) -> bool {
    w.len() > 0 && w[0] != DOLLAR && !is_result(w) && !is_move_number(w)
}

/// The plies of the item at `i`, `depth` variations deep: one for a move of the main line.
pub open spec fn plies_at(b: Seq<u8>, i: int, depth: nat) -> nat {
    if depth == 0 && !is_delimiter(b[i]) && is_move(b.subrange(i, item_end(b, i))) {
        1
    } else {
        0
    }
}

/// The plies of the main line from `i` on, where the text is `depth` variations deep, up to the
/// end of the text or to a `}` that closes nothing.
pub open spec fn plies_from(b: Seq<u8>, i: int, depth: nat) -> nat
    decreases b.len() - i,
    via plies_from_decreases
{
    if i < 0 || i >= b.len() || b[i] == CLOSE_BRACE {
        0
    } else {
        plies_at(b, i, depth) + plies_from(b, item_end(b, i), depth_after(b[i], depth))
    }
}

#[via_fn]
proof fn plies_from_decreases(b: Seq<u8>, i: int, depth: nat) {
    if 0 <= i < b.len() {
        lemma_item_end(b, i);
    }
}

/// Whether a `}` that closes nothing stands in the text from `i` on.
pub open spec fn stray_from(b: Seq<u8>, i: int) -> bool
    decreases b.len() - i,
    via stray_from_decreases
{
    0 <= i < b.len() && (b[i] == CLOSE_BRACE || stray_from(b, item_end(b, i)))
}

#[via_fn]
proof fn stray_from_decreases(b: Seq<u8>, i: int) {
    if 0 <= i < b.len() {
        lemma_item_end(b, i);
    }
}

/// The plies of the main line of a movetext.
pub open spec fn ply_count(b: Seq<u8>) -> nat {
    plies_from(b, 0, 0)
}

/// Whether counting up to `limit` comes to an end: no stray `}` stands in the text, or the limit
/// is reached before the first one.
pub open spec fn countable(b: Seq<u8>, limit: nat) -> bool {
    !stray_from(b, 0) || ply_count(b) >= limit
}

/// `n`, but no more than `limit`.
pub open spec fn capped(n: nat, limit: nat) -> nat {
    if n <= limit {
        n
    } else {
        limit
    }
}

proof fn lemma_find_byte(b: Seq<u8>, i: int, c: u8)
    requires
        0 <= i <= b.len(),
    ensures
        i <= find_byte(b, i, c) <= b.len(),
        forall|k: int| i <= k < find_byte(b, i, c) ==> b[k] != c,
        find_byte(b, i, c) < b.len() ==> b[find_byte(b, i, c)] == c,
    decreases b.len() - i,
{
    if i < b.len() && b[i] != c {
        lemma_find_byte(b, i + 1, c);
    }
}

/// `j` is where the search for `c` from `i` stops.
proof fn lemma_find_byte_is(b: Seq<u8>, i: int, c: u8, j: int)
    requires
        0 <= i <= j <= b.len(),
        forall|k: int| i <= k < j ==> b[k] != c,
        j < b.len() ==> b[j] == c,
    ensures
        find_byte(b, i, c) == j,
    decreases b.len() - i,
{
    if i < j {
        lemma_find_byte_is(b, i + 1, c, j);
    }
}

proof fn lemma_word_end(b: Seq<u8>, i: int)
    requires
        0 <= i <= b.len(),
    ensures
        i <= word_end(b, i) <= b.len(),
        forall|k: int| i <= k < word_end(b, i) ==> !is_delimiter(b[k]),
        word_end(b, i) < b.len() ==> is_delimiter(b[word_end(b, i)]),
    decreases b.len() - i,
{
    if i < b.len() && !is_delimiter(b[i]) {
        lemma_word_end(b, i + 1);
    }
}

/// `j` is where the word from `i` stops.
proof fn lemma_word_end_is(b: Seq<u8>, i: int, j: int)
    requires
        0 <= i <= j <= b.len(),
        forall|k: int| i <= k < j ==> !is_delimiter(b[k]),
        j < b.len() ==> is_delimiter(b[j]),
    ensures
        word_end(b, i) == j,
    decreases b.len() - i,
{
    if i < j {
        lemma_word_end_is(b, i + 1, j);
    }
}

proof fn lemma_item_end(b: Seq<u8>, i: int)
    requires
        0 <= i < b.len(),
    ensures
        i < item_end(b, i) <= b.len(),
{
    lemma_find_byte(b, i + 1, CLOSE_BRACE);
    lemma_find_byte(b, i + 1, LINE_FEED);
    lemma_word_end(b, i + 1);
}

/// Tells ASCII whitespace from other bytes.
fn space(c: u8) -> (r: bool)
    ensures
        r == is_space(c),
{
    c == SPACE || c == TAB || c == LINE_FEED || c == FORM_FEED || c == CARRIAGE_RETURN
}

fn delimiter(c: u8) -> (r: bool)
    ensures
        r == is_delimiter(c),
{
    space(c) || c == OPEN_BRACE || c == CLOSE_BRACE || c == OPEN_PAREN || c == CLOSE_PAREN || c
        == SEMICOLON
}

/// Finds the first `c` from `i` on.
fn find_in(b: &[u8], i: usize, c: u8) -> (j: usize)
    requires
        i <= b@.len(),
    ensures
        j == find_byte(b@, i as int, c),
        i <= j <= b@.len(),
{
    let mut j: usize = i;
    while j < b.len() && b[j] != c
        invariant
            i <= j <= b@.len(),
            forall|k: int| i <= k < j ==> b@[k] != c,
        decreases b@.len() - j,
    {
        j += 1;
    }
    proof {
        lemma_find_byte_is(b@, i as int, c, j as int);
    }
    j
}

/// Finds the end of the item at `i`.
fn find_item_end(b: &[u8], i: usize) -> (j: usize)
    requires
        i < b@.len(),
    ensures
        j == item_end(b@, i as int),
        i < j <= b@.len(),
{
    proof {
        lemma_item_end(b@, i as int);
    }
    let c: u8 = b[i];
    if c == OPEN_BRACE {
        let close: usize = find_in(b, i + 1, CLOSE_BRACE);
        if close < b.len() {
            close + 1
        } else {
            close
        }
    } else if c == SEMICOLON {
        find_in(b, i + 1, LINE_FEED)
    } else if delimiter(c) {
        i + 1
    } else {
        let mut j: usize = i + 1;
        while j < b.len() && !delimiter(b[j])
            invariant
                i < j <= b@.len(),
                forall|k: int| i < k < j ==> !is_delimiter(b@[k]),
            decreases b@.len() - j,
        {
            j += 1;
        }
        proof {
            lemma_word_end_is(b@, i + 1, j as int);
        }
        j
    }
}

/// Tells whether the bytes from `start` to `end` are a move number.
fn move_number(b: &[u8], start: usize, end: usize) -> (r: bool)
    requires
        start <= end <= b@.len(),
    ensures
        r == is_move_number(b@.subrange(start as int, end as int)),
{
    let ghost w = b@.subrange(start as int, end as int);
    let mut i: usize = start;
    while i < end && ZERO <= b[i] && b[i] <= NINE
        invariant
            start <= i <= end <= b@.len(),
            w == b@.subrange(start as int, end as int),
            forall|k: int| 0 <= k < i - start ==> is_digit(#[trigger] w[k]),
        decreases end - i,
    {
        assert(w[i - start] == b@[i as int]);
        i += 1;
    }
    let ghost d = i - start;
    assert(i < end ==> w[d] == b@[i as int]);
    if i == start || i == end {
        assert forall|e: int| !is_number_split(w, e) by {
            if is_number_split(w, e) {
                assert(w[w.len() - 1] == DOT);
                if i == end {
                    assert(is_digit(w[w.len() - 1]));
                } else {
                    assert(is_digit(w[0]));
                }
            }
        }
        return false;
    }
    let mut j: usize = i;
    while j < end && b[j] == DOT
        invariant
            start < i <= j <= end <= b@.len(),
            d == i - start,
            w == b@.subrange(start as int, end as int),
            forall|k: int| d <= k < j - start ==> #[trigger] w[k] == DOT,
        decreases end - j,
    {
        assert(w[j - start] == b@[j as int]);
        j += 1;
    }
    proof {
        if j == end {
            assert(is_number_split(w, d));
        } else {
            let p = j - start;
            assert(w[p] == b@[j as int]);
            assert forall|e: int| !is_number_split(w, e) by {
                if is_number_split(w, e) {
                    if e > d {
                        assert(is_digit(w[d]));
                    } else {
                        assert(w[p] == DOT);
                    }
                }
            }
        }
    }
    j == end
}

/// Tells whether the bytes from `start` to `end` are one of the result markers.
fn result_marker(b: &[u8], start: usize, end: usize) -> (r: bool)
    requires
        start <= end <= b@.len(),
    ensures
        r == is_result(b@.subrange(start as int, end as int)),
{
    let ghost w = b@.subrange(start as int, end as int);
    let n: usize = end - start;
    assert(forall|k: int| 0 <= k < n ==> #[trigger] w[k] == b@[start + k]);
    let ghost white = seq![ONE, MINUS, ZERO];
    let ghost black = seq![ZERO, MINUS, ONE];
    let ghost draw = seq![ONE, SLASH, TWO, MINUS, ONE, SLASH, TWO];
    if n == 1 {
        let r = b[start] == STAR;
        assert((w[0] == STAR) == (w =~= seq![STAR]));
        r
    } else if n == 3 {
        let r = b[start + 1] == MINUS && ((b[start] == ONE && b[start + 2] == ZERO) || (b[start]
            == ZERO && b[start + 2] == ONE));
        assert((w[0] == ONE && w[1] == MINUS && w[2] == ZERO) == (w =~= white));
        assert((w[0] == ZERO && w[1] == MINUS && w[2] == ONE) == (w =~= black));
        r
    } else if n == 7 {
        let r = b[start] == ONE && b[start + 1] == SLASH && b[start + 2] == TWO && b[start + 3]
            == MINUS && b[start + 4] == ONE && b[start + 5] == SLASH && b[start + 6] == TWO;
        assert(r == (w =~= draw));
        r
    } else {
        assert(w.len() != seq![STAR].len() && w.len() != white.len() && w.len() != draw.len());
        false
    }
}

/// Tells whether the word from `start` to `end` is a ply.
fn move_word(b: &[u8], start: usize, end: usize) -> (r: bool)
    requires
        start < end <= b@.len(),
    ensures
        r == is_move(b@.subrange(start as int, end as int)),
{
    b[start] != DOLLAR && !result_marker(b, start, end) && !move_number(b, start, end)
}

/// Counts the plies of the main line from `from` on, up to `limit`. Gives `None` where a `}` that
/// closes nothing is met before the limit.
pub fn scan_plies(b: &[u8], from: usize, limit: u32) -> (r: Option<u32>)
    requires
        from <= b@.len(),
    ensures
        r == (if stray_from(b@, from as int) && plies_from(b@, from as int, 0) < limit {
            None::<u32>
        } else {
            Some(capped(plies_from(b@, from as int, 0), limit as nat) as u32)
        }),
{
    let mut i: usize = from;
    let mut plies: u32 = 0;
    let mut depth: usize = 0;
    let ghost total = plies_from(b@, from as int, 0);
    let ghost stray = stray_from(b@, from as int);
    while i < b.len() && plies < limit
        invariant
            from <= i <= b@.len(),
            depth <= i,
            plies <= limit,
            total == plies + plies_from(b@, i as int, depth as nat),
            stray == stray_from(b@, i as int),
            total == plies_from(b@, from as int, 0),
            stray == stray_from(b@, from as int),
        decreases b@.len() - i,
    {
        let c: u8 = b[i];
        if c == CLOSE_BRACE {
            return None;
        }
        let end: usize = find_item_end(b, i);
        if c == OPEN_PAREN {
            depth += 1;
        } else if c == CLOSE_PAREN {
            if depth > 0 {
                depth -= 1;
            }
        } else if depth == 0 && !delimiter(c) && move_word(b, i, end) {
            plies += 1;
        }
        i = end;
    }
    Some(plies)
}

/// Tells whether counting the plies of `movetext` up to `limit` comes to an end.
pub fn can_count(movetext: &str, limit: u32) -> (r: bool)
    ensures
        r == countable(encode_utf8(movetext@), limit as nat),
{
    scan_plies(movetext.as_bytes(), 0, limit).is_some()
}

/// Counts SAN plies in a movetext, ignoring move numbers ("1.", "1..."), comments ({ ... } and ;
/// to end of line), variations ( ... ), NAGs ($1) and the game termination marker (1-0, 0-1,
/// 1/2-1/2, *). Stops early once `limit` is reached (pass `u32::MAX` for a full count).
pub fn count_plies(movetext: &str, limit: u32) -> (r: u32)
    requires
        countable(encode_utf8(movetext@), limit as nat),
    ensures
        r == capped(ply_count(encode_utf8(movetext@)), limit as nat),
{
    match scan_plies(movetext.as_bytes(), 0, limit) {
        Some(plies) => plies,
        None => 0,
    }
}

/// Whether the item at `i` is over before the text ends, whatever may follow the text: a comment
/// is closed, a word has a delimiter behind it.
pub open spec fn item_closed(b: Seq<u8>, i: int) -> bool {
    if b[i] == OPEN_BRACE {
        find_byte(b, i + 1, CLOSE_BRACE) < b.len()
    } else {
        is_delimiter(b[i]) && b[i] != SEMICOLON || item_end(b, i) < b.len()
    }
}

/// Whether the text from `i` on, where it is `depth` variations deep, ends on the main line,
/// outside comments and words, with no `}` that closes nothing.
pub open spec fn settled_from(b: Seq<u8>, i: int, depth: nat) -> bool
    decreases b.len() - i,
    via settled_from_decreases
{
    if i < 0 || i >= b.len() {
        depth == 0
    } else {
        &&& b[i] != CLOSE_BRACE
        &&& item_closed(b, i)
        &&& settled_from(b, item_end(b, i), depth_after(b[i], depth))
    }
}

#[via_fn]
proof fn settled_from_decreases(b: Seq<u8>, i: int, depth: nat) {
    if 0 <= i < b.len() {
        lemma_item_end(b, i);
    }
}

/// Text behind which an item of the main line can start.
pub open spec fn settled(b: Seq<u8>) -> bool {
    settled_from(b, 0, 0)
}

/// Whether the text from `i` on is the inside of a variation: it is `depth` variations deep at
/// `i`, never less than one deep, and one deep at its end.
pub open spec fn inside_from(b: Seq<u8>, i: int, depth: nat) -> bool
    decreases b.len() - i,
    via inside_from_decreases
{
    if i < 0 || i >= b.len() {
        depth == 1
    } else {
        &&& b[i] != CLOSE_BRACE
        &&& item_closed(b, i)
        &&& depth_after(b[i], depth) > 0
        &&& inside_from(b, item_end(b, i), depth_after(b[i], depth))
    }
}

#[via_fn]
proof fn inside_from_decreases(b: Seq<u8>, i: int, depth: nat) {
    if 0 <= i < b.len() {
        lemma_item_end(b, i);
    }
}

/// A word: no delimiter in it, and something in it.
pub open spec fn is_word(w: Seq<u8>) -> bool {
    w.len() > 0 && forall|k: int| 0 <= k < w.len() ==> !is_delimiter(#[trigger] w[k])
}

/// Text that can stand behind a word without becoming part of it.
pub open spec fn ends_word(b: Seq<u8>) -> bool {
    b.len() == 0 || is_delimiter(b[0])
}

/// An item that is closed ends in the same place whatever follows the text.
proof fn lemma_item_closed(a: Seq<u8>, b: Seq<u8>, i: int)
    requires
        0 <= i < a.len(),
        item_closed(a, i),
    ensures
        item_end(a + b, i) == item_end(a, i),
        (a + b)[i] == a[i],
        (a + b).subrange(i, item_end(a, i)) == a.subrange(i, item_end(a, i)),
{
    let ab = a + b;
    lemma_item_end(a, i);
    lemma_find_byte(a, i + 1, CLOSE_BRACE);
    lemma_find_byte(a, i + 1, LINE_FEED);
    lemma_word_end(a, i + 1);
    if a[i] == OPEN_BRACE {
        lemma_find_byte_is(ab, i + 1, CLOSE_BRACE, find_byte(a, i + 1, CLOSE_BRACE));
    } else if a[i] == SEMICOLON {
        lemma_find_byte_is(ab, i + 1, LINE_FEED, find_byte(a, i + 1, LINE_FEED));
    } else if !is_delimiter(a[i]) {
        lemma_word_end_is(ab, i + 1, word_end(a, i + 1));
    }
    assert(ab.subrange(i, item_end(a, i)) =~= a.subrange(i, item_end(a, i)));
}

/// What stands before a text does not change how its items end.
proof fn lemma_item_shift(a: Seq<u8>, b: Seq<u8>, i: int)
    requires
        0 <= i < b.len(),
    ensures
        item_end(a + b, a.len() + i) == a.len() + item_end(b, i),
        (a + b)[a.len() + i] == b[i],
        (a + b).subrange(a.len() + i, a.len() + item_end(b, i)) == b.subrange(i, item_end(b, i)),
{
    let ab = a + b;
    let n = a.len() as int;
    lemma_item_end(b, i);
    lemma_find_byte(b, i + 1, CLOSE_BRACE);
    lemma_find_byte(b, i + 1, LINE_FEED);
    lemma_word_end(b, i + 1);
    lemma_find_byte_is(ab, n + i + 1, CLOSE_BRACE, n + find_byte(b, i + 1, CLOSE_BRACE));
    lemma_find_byte_is(ab, n + i + 1, LINE_FEED, n + find_byte(b, i + 1, LINE_FEED));
    lemma_word_end_is(ab, n + i + 1, n + word_end(b, i + 1));
    assert(ab.subrange(n + i, n + item_end(b, i)) =~= b.subrange(i, item_end(b, i)));
}

/// The count from a place on depends on nothing before that place.
pub proof fn lemma_plies_shift(a: Seq<u8>, b: Seq<u8>, i: int, depth: nat)
    requires
        0 <= i <= b.len(),
    ensures
        plies_from(a + b, a.len() + i, depth) == plies_from(b, i, depth),
        stray_from(a + b, a.len() + i) == stray_from(b, i),
    decreases b.len() - i,
{
    if i < b.len() {
        lemma_item_end(b, i);
        lemma_item_shift(a, b, i);
        lemma_plies_shift(a, b, item_end(b, i), depth_after(b[i], depth));
    }
}

proof fn lemma_settled(a: Seq<u8>, b: Seq<u8>, i: int, depth: nat)
    requires
        0 <= i <= a.len(),
        settled_from(a, i, depth),
    ensures
        plies_from(a + b, i, depth) == plies_from(a, i, depth) + plies_from(b, 0, 0),
        stray_from(a + b, i) == stray_from(b, 0),
    decreases a.len() - i,
{
    if i < a.len() {
        lemma_item_end(a, i);
        lemma_item_closed(a, b, i);
        lemma_settled(a, b, item_end(a, i), depth_after(a[i], depth));
    } else {
        lemma_plies_shift(a, b, 0, 0);
    }
}

proof fn lemma_inside(v: Seq<u8>, b: Seq<u8>, i: int, depth: nat)
    requires
        0 <= i <= v.len(),
        depth > 0,
        inside_from(v, i, depth),
    ensures
        plies_from(v + b, i, depth) == plies_from(b, 0, 1),
        stray_from(v + b, i) == stray_from(b, 0),
    decreases v.len() - i,
{
    if i < v.len() {
        lemma_item_end(v, i);
        lemma_item_closed(v, b, i);
        lemma_inside(v, b, item_end(v, i), depth_after(v[i], depth));
    } else {
        lemma_plies_shift(v, b, 0, 1);
    }
}

proof fn lemma_plies_bounded(b: Seq<u8>, i: int, depth: nat)
    requires
        0 <= i <= b.len(),
    ensures
        plies_from(b, i, depth) <= b.len() - i,
    decreases b.len() - i,
{
    if i < b.len() {
        lemma_item_end(b, i);
        lemma_plies_bounded(b, item_end(b, i), depth_after(b[i], depth));
    }
}

/// With `u32::MAX` as its limit the count is the full count, of any text of fewer than 2^32 bytes.
pub proof fn largest_limit_gives_full_count(b: Seq<u8>)
    requires
        b.len() <= u32::MAX,
    ensures
        capped(ply_count(b), u32::MAX as nat) == ply_count(b),
{
    lemma_plies_bounded(b, 0, 0);
}

/// The plies of a text are those of its two parts, wherever an item of the main line can start
/// behind the first part.
pub proof fn plies_add_up(a: Seq<u8>, b: Seq<u8>)
    requires
        settled(a),
    ensures
        ply_count(a + b) == ply_count(a) + ply_count(b),
        stray_from(a + b, 0) == stray_from(b, 0),
{
    lemma_settled(a, b, 0, 0);
}

/// A comment in braces changes nothing.
pub proof fn comment_is_ignored(a: Seq<u8>, comment: Seq<u8>, b: Seq<u8>)
    requires
        settled(a),
        !comment.contains(CLOSE_BRACE),
    ensures
        ply_count(a + (seq![OPEN_BRACE] + comment + seq![CLOSE_BRACE] + b)) == ply_count(a + b),
{
    let item = seq![OPEN_BRACE] + comment + seq![CLOSE_BRACE];
    let rest = item + b;
    plies_add_up(a, b);
    plies_add_up(a, rest);
    assert forall|k: int| 1 <= k < item.len() - 1 implies rest[k] != CLOSE_BRACE by {
        assert(rest[k] == comment[k - 1]);
    }
    lemma_find_byte_is(rest, 1, CLOSE_BRACE, item.len() - 1);
    lemma_plies_shift(item, b, 0, 0);
    assert(rest[0] == OPEN_BRACE);
    assert(item_end(rest, 0) == item.len());
}

/// A comment to the end of its line changes nothing.
pub proof fn line_comment_is_ignored(a: Seq<u8>, comment: Seq<u8>, b: Seq<u8>)
    requires
        settled(a),
        !comment.contains(LINE_FEED),
    ensures
        ply_count(a + (seq![SEMICOLON] + comment + seq![LINE_FEED] + b)) == ply_count(a + b),
{
    let head = seq![SEMICOLON] + comment;
    let item = head + seq![LINE_FEED];
    let rest = item + b;
    plies_add_up(a, b);
    plies_add_up(a, rest);
    assert forall|k: int| 1 <= k < head.len() implies rest[k] != LINE_FEED by {
        assert(rest[k] == comment[k - 1]);
    }
    lemma_find_byte_is(rest, 1, LINE_FEED, head.len() as int);
    lemma_plies_shift(item, b, 0, 0);
    assert(rest[0] == SEMICOLON);
    assert(rest[head.len() as int] == LINE_FEED);
    assert(item_end(rest, 0) == head.len());
    assert(item_end(rest, head.len() as int) == item.len());
    assert(plies_from(rest, 0, 0) == plies_from(rest, head.len() as int, 0));
    assert(plies_from(rest, head.len() as int, 0) == plies_from(rest, item.len() as int, 0));
}

/// A variation changes nothing.
pub proof fn variation_is_ignored(a: Seq<u8>, variation: Seq<u8>, b: Seq<u8>)
    requires
        settled(a),
        inside_from(variation, 0, 1),
    ensures
        ply_count(a + (seq![OPEN_PAREN] + (variation + (seq![CLOSE_PAREN] + b)))) == ply_count(
            a + b,
        ),
{
    let tail = seq![CLOSE_PAREN] + b;
    let body = variation + tail;
    let rest = seq![OPEN_PAREN] + body;
    plies_add_up(a, b);
    plies_add_up(a, rest);
    lemma_inside(variation, tail, 0, 1);
    lemma_plies_shift(seq![OPEN_PAREN], body, 0, 1);
    lemma_plies_shift(seq![CLOSE_PAREN], b, 0, 0);
    assert(rest[0] == OPEN_PAREN);
    assert(tail[0] == CLOSE_PAREN);
}

/// A word of the main line adds one ply if it is a move, and none otherwise.
pub proof fn word_counts_once(a: Seq<u8>, w: Seq<u8>, b: Seq<u8>)
    requires
        settled(a),
        is_word(w),
        ends_word(b),
    ensures
        ply_count(a + (w + b)) == ply_count(a + b) + if is_move(w) {
            1nat
        } else {
            0nat
        },
{
    let rest = w + b;
    plies_add_up(a, b);
    plies_add_up(a, rest);
    assert forall|k: int| 0 <= k < w.len() implies !is_delimiter(#[trigger] rest[k]) by {
        assert(rest[k] == w[k]);
    }
    lemma_word_end_is(rest, 1, w.len() as int);
    lemma_plies_shift(w, b, 0, 0);
    assert(item_end(rest, 0) == w.len());
    assert(rest.subrange(0, w.len() as int) =~= w);
}

/// A NAG, a move number on its own and a game termination marker change nothing.
pub proof fn annotation_is_ignored(a: Seq<u8>, w: Seq<u8>, b: Seq<u8>)
    requires
        settled(a),
        is_word(w),
        ends_word(b),
        w[0] == DOLLAR || is_move_number(w) || is_result(w),
    ensures
        ply_count(a + (w + b)) == ply_count(a + b),
{
    word_counts_once(a, w, b);
}

/// A move counts the same with its number glued to it. (A word of nothing but dots is left out:
/// behind a number it only makes the number longer.)
pub proof fn glued_number_is_ignored(number: Seq<u8>, w: Seq<u8>)
    requires
        is_move_number(number),
        is_move(w),
        exists|k: int| 0 <= k < w.len() && #[trigger] w[k] != DOT,
    ensures
        is_move(number + w),
{
    let both = number + w;
    let n = number.len() as int;
    let d = choose|d: int| #[trigger] is_number_split(number, d);
    let k = choose|k: int| 0 <= k < w.len() && #[trigger] w[k] != DOT;
    assert(both[0] == number[0] && is_digit(number[0]));
    assert(both[n + k] == w[k]);
    assert(both[d] == number[d] && number[d] == DOT);
    assert forall|e: int| !is_number_split(both, e) by {
        if is_number_split(both, e) {
            if e > d {
                assert(is_digit(both[d]));
            }
            assert(both[n + k] == DOT);
        }
    }
    if is_result(both) {
        assert(seq![ONE, MINUS, ZERO][1] == MINUS);
        assert(both.len() == 7 || both.len() == 3 || both.len() == 1);
        assert(both.contains(DOT)) by {
            assert(both[d] == DOT);
        }
    }
}

/// The bytes at which words end: white space, braces, parentheses and the semicolon.
pub open spec fn separators() -> Seq<u8> {
    seq![
        ' ' as u8,
        '\t' as u8,
        '\n' as u8,
        '\u{c}' as u8,
        '\r' as u8,
        '{' as u8,
        '}' as u8,
        '(' as u8,
        ')' as u8,
        ';' as u8,
    ]
}

/// Whether `w` can be a word, and `b` can stand behind it.
pub open spec fn is_word_before(w: Seq<u8>, b: Seq<u8>) -> bool {
    &&& w.len() > 0
    &&& forall|k: int| 0 <= k < w.len() ==> !separators().contains(#[trigger] w[k])
    &&& b.len() > 0 ==> separators().contains(b[0])
}

proof fn lemma_separators(c: u8)
    ensures
        separators().contains(c) == is_delimiter(c),
{
    let s = separators();
    if is_delimiter(c) {
        assert(s[0] == 32 && s[1] == 9 && s[2] == 10 && s[3] == 12 && s[4] == 13);
        assert(s[5] == 123 && s[6] == 125 && s[7] == 40 && s[8] == 41 && s[9] == 59);
    }
    if s.contains(c) {
        let k = choose|k: int| 0 <= k < s.len() && s[k] == c;
        assert(k == 0 || k == 1 || k == 2 || k == 3 || k == 4 || k == 5 || k == 6 || k == 7 || k
            == 8 || k == 9);
    }
}

proof fn lemma_word_before(w: Seq<u8>, b: Seq<u8>)
    requires
        is_word_before(w, b),
    ensures
        is_word(w),
        ends_word(b),
{
    assert forall|k: int| 0 <= k < w.len() implies !is_delimiter(#[trigger] w[k]) by {
        lemma_separators(w[k]);
    }
    if b.len() > 0 {
        lemma_separators(b[0]);
    }
}

/// Where there is no text, there are no plies, and nothing is stray.
pub proof fn no_text_has_no_plies(depth: nat)
    ensures
        plies_from(Seq::empty(), 0, depth) == 0,
        !stray_from(Seq::empty(), 0),
        ply_count(Seq::empty()) == 0,
{
}

/// White space at the head of a text changes nothing, at any depth.
pub proof fn leading_space_is_ignored(c: u8, b: Seq<u8>, depth: nat)
    requires
        c == ' ' as u8 || c == '\t' as u8 || c == '\n' as u8 || c == '\r' as u8 || c
            == '\u{c}' as u8,
    ensures
        plies_from(seq![c] + b, 0, depth) == plies_from(b, 0, depth),
        stray_from(seq![c] + b, 0) == stray_from(b, 0),
{
    let x = seq![c] + b;
    lemma_plies_shift(seq![c], b, 0, depth);
    assert(x[0] == c);
}

/// A comment in braces at the head of a text changes nothing, at any depth, whatever it holds; one
/// that nothing closes takes all the rest.
pub proof fn leading_comment_is_ignored(comment: Seq<u8>, b: Seq<u8>, depth: nat)
    requires
        !comment.contains('}' as u8),
    ensures
        plies_from(seq!['{' as u8] + comment + seq!['}' as u8] + b, 0, depth) == plies_from(
            b,
            0,
            depth,
        ),
        stray_from(seq!['{' as u8] + comment + seq!['}' as u8] + b, 0) == stray_from(b, 0),
        plies_from(seq!['{' as u8] + comment, 0, depth) == 0,
        !stray_from(seq!['{' as u8] + comment, 0),
{
    let open = seq!['{' as u8] + comment;
    let item = open + seq!['}' as u8];
    let x = item + b;
    assert forall|k: int| 1 <= k < open.len() implies open[k] != CLOSE_BRACE by {
        assert(open[k] == comment[k - 1]);
    }
    assert forall|k: int| 1 <= k < open.len() implies x[k] != CLOSE_BRACE by {
        assert(x[k] == open[k]);
    }
    lemma_find_byte_is(x, 1, CLOSE_BRACE, open.len() as int);
    lemma_find_byte_is(open, 1, CLOSE_BRACE, open.len() as int);
    lemma_plies_shift(item, b, 0, depth);
    assert(x[0] == OPEN_BRACE && open[0] == OPEN_BRACE);
    assert(item_end(x, 0) == item.len());
    assert(item_end(open, 0) == open.len());
    assert(plies_from(open, open.len() as int, depth) == 0);
    assert(!stray_from(open, open.len() as int));
}

/// A comment to the end of its line changes nothing, at any depth, whatever it holds; on the last
/// line it takes all the rest.
pub proof fn leading_line_comment_is_ignored(comment: Seq<u8>, b: Seq<u8>, depth: nat)
    requires
        !comment.contains('\n' as u8),
    ensures
        plies_from(seq![';' as u8] + comment + seq!['\n' as u8] + b, 0, depth) == plies_from(
            b,
            0,
            depth,
        ),
        stray_from(seq![';' as u8] + comment + seq!['\n' as u8] + b, 0) == stray_from(b, 0),
        plies_from(seq![';' as u8] + comment, 0, depth) == 0,
        !stray_from(seq![';' as u8] + comment, 0),
{
    let open = seq![';' as u8] + comment;
    let item = open + seq!['\n' as u8];
    let x = item + b;
    assert forall|k: int| 1 <= k < open.len() implies open[k] != LINE_FEED by {
        assert(open[k] == comment[k - 1]);
    }
    assert forall|k: int| 1 <= k < open.len() implies x[k] != LINE_FEED by {
        assert(x[k] == open[k]);
    }
    let n = open.len() as int;
    lemma_find_byte_is(x, 1, LINE_FEED, n);
    lemma_find_byte_is(open, 1, LINE_FEED, n);
    lemma_plies_shift(item, b, 0, depth);
    assert(x[0] == SEMICOLON && open[0] == SEMICOLON && x[n] == LINE_FEED);
    assert(item_end(x, 0) == n);
    assert(item_end(x, n) == n + 1);
    assert(item_end(open, 0) == n);
    assert(plies_from(x, 0, depth) == plies_from(x, n, depth));
    assert(plies_from(x, n, depth) == plies_from(x, n + 1, depth));
    assert(stray_from(x, 0) == stray_from(x, n));
    assert(stray_from(x, n) == stray_from(x, n + 1));
    assert(plies_from(open, n, depth) == 0);
    assert(!stray_from(open, n));
}

/// An opening parenthesis leads one variation deeper; a closing one leads out again, and means
/// nothing where there is no variation.
pub proof fn parentheses_nest(b: Seq<u8>, depth: nat)
    ensures
        plies_from(seq!['(' as u8] + b, 0, depth) == plies_from(b, 0, depth + 1),
        plies_from(seq![')' as u8] + b, 0, depth + 1) == plies_from(b, 0, depth),
        plies_from(seq![')' as u8] + b, 0, 0) == plies_from(b, 0, 0),
        stray_from(seq!['(' as u8] + b, 0) == stray_from(b, 0),
        stray_from(seq![')' as u8] + b, 0) == stray_from(b, 0),
{
    let x = seq!['(' as u8] + b;
    let y = seq![')' as u8] + b;
    lemma_plies_shift(seq!['(' as u8], b, 0, depth + 1);
    lemma_plies_shift(seq![')' as u8], b, 0, depth);
    lemma_plies_shift(seq![')' as u8], b, 0, 0);
    assert(x[0] == OPEN_PAREN && y[0] == CLOSE_PAREN);
}

/// A closing brace that closes nothing is stray, and no ply is counted from it on.
pub proof fn leading_closing_brace_is_stray(b: Seq<u8>, depth: nat)
    ensures
        stray_from(seq!['}' as u8] + b, 0),
        plies_from(seq!['}' as u8] + b, 0, depth) == 0,
{
    assert((seq!['}' as u8] + b)[0] == CLOSE_BRACE);
}

/// A word inside a variation is no ply, whatever it is; nor is any word a stray brace.
pub proof fn words_in_variations_are_ignored(w: Seq<u8>, b: Seq<u8>, depth: nat)
    requires
        is_word_before(w, b),
        depth > 0,
    ensures
        plies_from(w + b, 0, depth) == plies_from(b, 0, depth),
        stray_from(w + b, 0) == stray_from(b, 0),
{
    let x = w + b;
    lemma_word_before(w, b);
    assert forall|k: int| 0 <= k < w.len() implies !is_delimiter(#[trigger] x[k]) by {
        assert(x[k] == w[k]);
    }
    lemma_word_end_is(x, 1, w.len() as int);
    lemma_plies_shift(w, b, 0, depth);
    assert(item_end(x, 0) == w.len());
}

proof fn lemma_leading_word(w: Seq<u8>, b: Seq<u8>)
    requires
        is_word_before(w, b),
    ensures
        ply_count(w + b) == ply_count(b) + if is_move(w) {
            1nat
        } else {
            0nat
        },
        stray_from(w + b, 0) == stray_from(b, 0),
{
    let none = Seq::<u8>::empty();
    lemma_word_before(w, b);
    word_counts_once(none, w, b);
    assert(none + (w + b) =~= w + b);
    assert(none + b =~= b);
    words_in_variations_are_ignored(w, b, 1);
}

/// A word of the main line is no ply if it starts with `$`.
pub proof fn dollar_words_are_ignored(w: Seq<u8>, b: Seq<u8>)
    requires
        is_word_before(w, b),
        w[0] == '$' as u8,
    ensures
        ply_count(w + b) == ply_count(b),
{
    lemma_leading_word(w, b);
}

/// A result is no ply.
pub proof fn results_are_ignored(w: Seq<u8>, b: Seq<u8>)
    requires
        is_word_before(w, b),
        w == seq!['1' as u8, '-' as u8, '0' as u8] || w == seq!['0' as u8, '-' as u8, '1' as u8]
            || w == seq![
            '1' as u8,
            '/' as u8,
            '2' as u8,
            '-' as u8,
            '1' as u8,
            '/' as u8,
            '2' as u8,
        ] || w == seq!['*' as u8],
    ensures
        ply_count(w + b) == ply_count(b),
{
    lemma_leading_word(w, b);
    assert(seq!['1' as u8, '-' as u8, '0' as u8] =~= seq![ONE, MINUS, ZERO]);
    assert(seq!['0' as u8, '-' as u8, '1' as u8] =~= seq![ZERO, MINUS, ONE]);
    assert(seq![
        '1' as u8,
        '/' as u8,
        '2' as u8,
        '-' as u8,
        '1' as u8,
        '/' as u8,
        '2' as u8,
    ] =~= seq![ONE, SLASH, TWO, MINUS, ONE, SLASH, TWO]);
    assert(seq!['*' as u8] =~= seq![STAR]);
}

/// Digits with dots behind them are no ply.
pub proof fn move_numbers_are_ignored(number: Seq<u8>, dots: Seq<u8>, b: Seq<u8>)
    requires
        number.len() > 0,
        dots.len() > 0,
        forall|k: int| 0 <= k < number.len() ==> '0' as u8 <= #[trigger] number[k] <= '9' as u8,
        forall|k: int| 0 <= k < dots.len() ==> #[trigger] dots[k] == '.' as u8,
        b.len() > 0 ==> separators().contains(b[0]),
    ensures
        ply_count((number + dots) + b) == ply_count(b),
{
    let w = number + dots;
    assert forall|k: int| 0 <= k < w.len() implies !separators().contains(#[trigger] w[k]) by {
        lemma_separators(w[k]);
        if k < number.len() {
            assert(w[k] == number[k]);
        } else {
            assert(w[k] == dots[k - number.len()]);
        }
    }
    lemma_leading_word(w, b);
    assert forall|k: int| 0 <= k < number.len() implies is_digit(#[trigger] w[k]) by {
        assert(w[k] == number[k]);
    }
    assert forall|k: int| number.len() <= k < w.len() implies #[trigger] w[k] == DOT by {
        assert(w[k] == dots[k - number.len()]);
    }
    assert(is_number_split(w, number.len() as int));
}

/// Whether `w` is none of the words that are left out: it does not start with `$`, it is no
/// result, and it is not digits with dots behind them.
pub open spec fn is_left_in(w: Seq<u8>) -> bool {
    &&& w[0] != '$' as u8
    &&& w != seq!['1' as u8, '-' as u8, '0' as u8]
    &&& w != seq!['0' as u8, '-' as u8, '1' as u8]
    &&& w != seq![
        '1' as u8,
        '/' as u8,
        '2' as u8,
        '-' as u8,
        '1' as u8,
        '/' as u8,
        '2' as u8,
    ]
    &&& w != seq!['*' as u8]
    &&& forall|number: Seq<u8>, dots: Seq<u8>|
        #[trigger] (number + dots) == w && number.len() > 0 && dots.len() > 0 ==> (exists|k: int|
            0 <= k < number.len() && !('0' as u8 <= #[trigger] number[k] <= '9' as u8)) || (exists|
            k: int,
        |
            0 <= k < dots.len() && #[trigger] dots[k] != '.' as u8)
}

proof fn lemma_left_in(w: Seq<u8>)
    requires
        w.len() > 0,
        is_left_in(w),
    ensures
        is_move(w),
{
    if is_result(w) {
        assert(seq!['1' as u8, '-' as u8, '0' as u8] =~= seq![ONE, MINUS, ZERO]);
        assert(seq!['0' as u8, '-' as u8, '1' as u8] =~= seq![ZERO, MINUS, ONE]);
        assert(seq![
            '1' as u8,
            '/' as u8,
            '2' as u8,
            '-' as u8,
            '1' as u8,
            '/' as u8,
            '2' as u8,
        ] =~= seq![ONE, SLASH, TWO, MINUS, ONE, SLASH, TWO]);
        assert(seq!['*' as u8] =~= seq![STAR]);
    }
    if is_move_number(w) {
        let d = choose|d: int| #[trigger] is_number_split(w, d);
        let number = w.take(d);
        let dots = w.skip(d);
        assert(number + dots =~= w);
        assert forall|k: int| 0 <= k < number.len() implies '0' as u8 <= #[trigger] number[k]
            <= '9' as u8 by {
            assert(is_digit(w[k]));
        }
        assert forall|k: int| 0 <= k < dots.len() implies #[trigger] dots[k] == '.' as u8 by {
            assert(w[d + k] == DOT);
        }
    }
}

/// Every word of the main line that is not left out is one ply.
pub proof fn every_other_word_is_a_ply(w: Seq<u8>, b: Seq<u8>)
    requires
        is_word_before(w, b),
        is_left_in(w),
    ensures
        ply_count(w + b) == ply_count(b) + 1,
{
    lemma_left_in(w);
    lemma_leading_word(w, b);
}

/// The same wherever in the main line the word stands.
pub proof fn every_other_word_is_a_ply_anywhere(a: Seq<u8>, w: Seq<u8>, b: Seq<u8>)
    requires
        settled(a),
        is_word_before(w, b),
        is_left_in(w),
    ensures
        ply_count(a + (w + b)) == ply_count(a + b) + 1,
{
    lemma_left_in(w);
    lemma_word_before(w, b);
    word_counts_once(a, w, b);
}

/// A word that starts with a letter is one ply: every move is, castling included.
pub proof fn words_with_a_letter_in_front_are_plies(w: Seq<u8>, b: Seq<u8>)
    requires
        is_word_before(w, b),
        'A' as u8 <= w[0] <= 'Z' as u8 || 'a' as u8 <= w[0] <= 'z' as u8,
    ensures
        ply_count(w + b) == ply_count(b) + 1,
{
    lemma_leading_word(w, b);
    assert(!is_result(w)) by {
        if is_result(w) {
            assert(w[0] == ONE || w[0] == ZERO || w[0] == STAR);
        }
    }
    assert(!is_move_number(w)) by {
        if is_move_number(w) {
            let d = choose|d: int| #[trigger] is_number_split(w, d);
            assert(is_digit(w[0]));
        }
    }
}

/// Text behind which a word of the main line can stand: nothing, a space behind such text, or a
/// word and a space behind such text.
pub proof fn spaces_settle(a: Seq<u8>, w: Seq<u8>)
    requires
        settled(a),
        w.len() > 0 ==> is_word_before(w, Seq::empty()),
    ensures
        settled(Seq::empty()),
        settled(a + w + seq![' ' as u8]),
{
    let tail = w + seq![' ' as u8];
    assert(a + w + seq![' ' as u8] =~= a + tail);
    if w.len() > 0 {
        lemma_word_before(w, Seq::empty());
        assert forall|k: int| 0 <= k < w.len() implies !is_delimiter(#[trigger] tail[k]) by {
            assert(tail[k] == w[k]);
        }
        assert(tail[w.len() as int] == SPACE);
        lemma_word_end_is(tail, 1, w.len() as int);
        assert(item_end(tail, 0) == w.len());
        assert(item_end(tail, w.len() as int) == tail.len());
        assert(settled_from(tail, tail.len() as int, 0));
        assert(settled_from(tail, w.len() as int, 0));
        assert(settled_from(tail, 0, 0));
    } else {
        assert(tail =~= seq![' ' as u8]);
        assert(tail[0] == SPACE);
        assert(settled_from(tail, 1, 0));
        assert(settled_from(tail, 0, 0));
    }
    lemma_settled_concat(a, tail, 0, 0);
}

proof fn lemma_settled_shift(a: Seq<u8>, b: Seq<u8>, i: int, depth: nat)
    requires
        0 <= i <= b.len(),
    ensures
        settled_from(a + b, a.len() + i, depth) == settled_from(b, i, depth),
    decreases b.len() - i,
{
    if i < b.len() {
        let n = a.len() as int;
        lemma_item_end(b, i);
        lemma_item_shift(a, b, i);
        lemma_settled_shift(a, b, item_end(b, i), depth_after(b[i], depth));
        lemma_find_byte(b, i + 1, CLOSE_BRACE);
        lemma_find_byte_is(a + b, n + i + 1, CLOSE_BRACE, n + find_byte(b, i + 1, CLOSE_BRACE));
    }
}

proof fn lemma_settled_concat(a: Seq<u8>, b: Seq<u8>, i: int, depth: nat)
    requires
        0 <= i <= a.len(),
        settled_from(a, i, depth),
        settled(b),
    ensures
        settled_from(a + b, i, depth),
    decreases a.len() - i,
{
    if i < a.len() {
        lemma_item_end(a, i);
        lemma_item_closed(a, b, i);
        lemma_find_byte(a, i + 1, CLOSE_BRACE);
        if a[i] == OPEN_BRACE {
            lemma_find_byte_is(a + b, i + 1, CLOSE_BRACE, find_byte(a, i + 1, CLOSE_BRACE));
        }
        lemma_settled_concat(a, b, item_end(a, i), depth_after(a[i], depth));
    } else {
        lemma_settled_shift(a, b, 0, depth);
    }
}

/// Counting comes to an end where no closing brace is in the text, and where no ply is asked for;
/// if it does, the count is that of the text, or the limit where there are more plies.
pub proof fn counts_are_capped(b: Seq<u8>, limit: nat)
    ensures
        !b.contains('}' as u8) ==> countable(b, limit),
        countable(b, 0),
        stray_from(b, 0) && ply_count(b) < limit ==> !countable(b, limit),
        ply_count(b) <= limit ==> capped(ply_count(b), limit) == ply_count(b),
        ply_count(b) > limit ==> capped(ply_count(b), limit) == limit,
{
    if !b.contains('}' as u8) {
        lemma_no_stray(b, 0);
    }
}

proof fn lemma_no_stray(b: Seq<u8>, i: int)
    requires
        0 <= i <= b.len(),
        !b.contains(CLOSE_BRACE),
    ensures
        !stray_from(b, i),
    decreases b.len() - i,
{
    if i < b.len() {
        lemma_item_end(b, i);
        lemma_no_stray(b, item_end(b, i));
    }
}

} // verus!
