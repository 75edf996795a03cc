//! What a verdict tells of a game, in terms of the game, the configuration and the games before it.

use vstd::prelude::*;

use crate::config::{Config, GroupsConfig};
use crate::decimal;
use crate::headers::HeaderValues;
use crate::movetext;
use crate::reject::Reject;
use crate::rules;
use crate::rules::{Game, Tally};
use crate::text;

verus! {

/// Whether a verdict says that a game passed a filter: it was taken, or a later filter turned it
/// down.
pub open spec fn passed(v: Result<u32, Reject>, filter: Reject) -> bool {
    match v {
        Ok(_) => true,
        Err(f) => f.rank() > filter.rank(),
    }
}

/// The filters are numbered in the order in which they are looked at.
pub proof fn filters_have_their_places()
    ensures
        Reject::Event.rank() == 0,
        Reject::TimeControl.rank() == 1,
        Reject::BannedTitle.rank() == 2,
        Reject::RequiredTitle.rank() == 3,
        Reject::InvalidHeaders.rank() == 4,
        Reject::Delta.rank() == 5,
        Reject::DifferentBrackets.rank() == 6,
        Reject::OutOfRange.rank() == 7,
        Reject::BracketFull.rank() == 8,
        Reject::PlayerQuota.rank() == 9,
        Reject::MinPlies.rank() == 10,
{
}

/// A string is in the views of a list just if it is one of its strings.
proof fn lemma_listed(list: Seq<String>, s: Seq<char>)
    ensures
        text::views(list).contains(s) <==> exists|i: int|
            0 <= i < list.len() && #[trigger] list[i]@ == s,
{
    let v = text::views(list);
    if v.contains(s) {
        let i = choose|i: int| 0 <= i < v.len() && v[i] == s;
        assert(list[i]@ == s);
    }
    if exists|i: int| 0 <= i < list.len() && #[trigger] list[i]@ == s {
        let i = choose|i: int| 0 <= i < list.len() && #[trigger] list[i]@ == s;
        assert(v[i] == s);
    }
}

/// A game gets past the first filter just if any event is accepted, or its event is one of those
/// that are.
pub proof fn event_filter_goes_by_the_list(config: Config, t: Tally, game: Game)
    ensures
        rules::verdict(config, t, game) != Err::<u32, Reject>(Reject::Event) <==> (
        config.groups.events@.len() == 0 || exists|i: int|
            0 <= i < config.groups.events@.len() && #[trigger] config.groups.events@[i]@
                == game.headers.event),
        passed(rules::verdict(config, t, game), Reject::Event) <==> rules::verdict(config, t, game)
            != Err::<u32, Reject>(Reject::Event),
{
    lemma_listed(config.groups.events@, game.headers.event);
}

/// A game gets past the second filter only if any time control is accepted, or its own is one of
/// those that are, and is turned down by it only if not.
pub proof fn time_control_filter_goes_by_the_list(config: Config, t: Tally, game: Game)
    ensures
        ({
            let v = rules::verdict(config, t, game);
            let accepted = config.groups.time_controls@.len() == 0 || exists|i: int|
                0 <= i < config.groups.time_controls@.len()
                    && #[trigger] config.groups.time_controls@[i]@ == game.headers.time_control;
            &&& passed(v, Reject::TimeControl) ==> accepted
            &&& v == Err::<u32, Reject>(Reject::TimeControl) ==> !accepted
        }),
{
    lemma_listed(config.groups.time_controls@, game.headers.time_control);
}

/// A game gets past the third filter only if no title and no name of its players is banned, and is
/// turned down by it only if one is.
pub proof fn banned_players_are_turned_down(config: Config, t: Tally, game: Game)
    ensures
        ({
            let v = rules::verdict(config, t, game);
            let h = game.headers;
            let banned = config.player.banned_string@;
            &&& passed(v, Reject::BannedTitle) ==> forall|i: int|
                0 <= i < banned.len() ==> #[trigger] banned[i]@ != h.white_title && banned[i]@
                    != h.black_title && banned[i]@ != h.white && banned[i]@ != h.black
            &&& v == Err::<u32, Reject>(Reject::BannedTitle) ==> exists|i: int|
                0 <= i < banned.len() && (#[trigger] banned[i]@ == h.white_title || banned[i]@
                    == h.black_title || banned[i]@ == h.white || banned[i]@ == h.black)
        }),
{
    let banned = config.player.banned_string@;
    lemma_listed(banned, game.headers.white_title);
    lemma_listed(banned, game.headers.black_title);
    lemma_listed(banned, game.headers.white);
    lemma_listed(banned, game.headers.black);
}

/// A game gets past the fourth filter only if no title is required, or one of its players has one
/// of those that are, and is turned down by it only if neither has.
pub proof fn one_required_title_is_enough(config: Config, t: Tally, game: Game)
    ensures
        ({
            let v = rules::verdict(config, t, game);
            let h = game.headers;
            let required = config.player.required_string@;
            &&& passed(v, Reject::RequiredTitle) ==> required.len() == 0 || exists|i: int|
                0 <= i < required.len() && (#[trigger] required[i]@ == h.white_title
                    || required[i]@ == h.black_title)
            &&& v == Err::<u32, Reject>(Reject::RequiredTitle) ==> required.len() > 0 && forall|
                i: int,
            |
                0 <= i < required.len() ==> #[trigger] required[i]@ != h.white_title
                    && required[i]@ != h.black_title
        }),
{
    let required = config.player.required_string@;
    lemma_listed(required, game.headers.white_title);
    lemma_listed(required, game.headers.black_title);
}

/// A game gets past the fifth filter only if both players have a name and a rating, and is turned
/// down by it only if one of these is missing.
pub proof fn players_need_names_and_ratings(config: Config, t: Tally, game: Game)
    ensures
        ({
            let v = rules::verdict(config, t, game);
            let h = game.headers;
            let valid = h.white.len() > 0 && h.black.len() > 0 && decimal::read_i32(
                h.white_elo,
            ) is Some && decimal::read_i32(h.black_elo) is Some;
            &&& passed(v, Reject::InvalidHeaders) ==> valid
            &&& v == Err::<u32, Reject>(Reject::InvalidHeaders) ==> !valid
        }),
{
}

/// A game has two ratings.
pub open spec fn rated(game: Game, white: int, black: int) -> bool {
    &&& decimal::read_i32(game.headers.white_elo) == Some(white as i32)
    &&& decimal::read_i32(game.headers.black_elo) == Some(black as i32)
    &&& i32::MIN <= white <= i32::MAX
    &&& i32::MIN <= black <= i32::MAX
}

/// A game gets past the sixth filter only if neither player leads the other by more than is
/// accepted, and is turned down by it only if one does.
pub proof fn no_player_leads_by_more_than_delta(
    config: Config,
    t: Tally,
    game: Game,
    white: int,
    black: int,
)
    requires
        rated(game, white, black),
    ensures
        ({
            let v = rules::verdict(config, t, game);
            let delta = config.groups.delta;
            &&& passed(v, Reject::Delta) ==> white - black <= delta && black - white <= delta
            &&& v == Err::<u32, Reject>(Reject::Delta) ==> white - black > delta || black - white
                > delta
        }),
{
}

/// The rating points that a bracket spans.
pub open spec fn span(g: GroupsConfig) -> int {
    if g.interval == 0 {
        200
    } else {
        g.interval as int
    }
}

/// Whether one of the brackets, which lie `span` apart from `start` on, starts at `end`.
pub open spec fn reaches_end(g: GroupsConfig) -> bool {
    g.start <= g.end && (g.end - g.start) % span(g) == 0
}

/// Whether a rating that is not negative belongs to the bracket at `b`: the open one at `end` has
/// every rating from `end` on; the others start at a multiple of their span and have the ratings
/// up to the next one.
pub open spec fn belongs(g: GroupsConfig, rating: int, b: int) -> bool {
    if reaches_end(g) && rating >= g.end {
        b == g.end
    } else {
        b % span(g) == 0 && 0 <= b <= rating < b + span(g) && b <= g.end
    }
}

proof fn lemma_contains(g: GroupsConfig, b: u32)
    ensures
        g.layout().contains(b) <==> g.start <= b <= g.end && (b - g.start) % span(g) == 0,
{
    crate::config::brackets_are_steps_from_start(g, b);
}

proof fn lemma_belongs(g: GroupsConfig, rating: int, b: int)
    requires
        rating >= 0,
        belongs(g, rating, b),
    ensures
        rules::bracket_of(g, rating) == b,
{
    let m = span(g);
    lemma_contains(g, g.end);
    rules::lemma_rounded(rating, m);
    if !(reaches_end(g) && rating >= g.end) {
        let q = rating / m;
        let p = b / m;
        vstd::arithmetic::div_mod::lemma_fundamental_div_mod(b, m);
        assert(p == q) by (nonlinear_arith)
            requires
                m * p <= rating < m * p + m,
                m * q <= rating < m * q + m,
                m > 0,
        ;
    }
}

/// A game that is taken goes to a bracket that is some spans behind `start` and not behind `end`,
/// and both its players belong to it. A negative rating counts as zero if it is less than a span
/// below.
pub proof fn taken_game_belongs_to_its_bracket(
    config: Config,
    t: Tally,
    game: Game,
    white: int,
    black: int,
    b: u32,
)
    requires
        rated(game, white, black),
        rules::verdict(config, t, game) == Ok::<u32, Reject>(b),
    ensures
        config.groups.start <= b <= config.groups.end,
        (b - config.groups.start) % span(config.groups) == 0,
        white >= 0 ==> belongs(config.groups, white, b as int),
        black >= 0 ==> belongs(config.groups, black, b as int),
        white < 0 ==> b == 0 && white > -span(config.groups),
        black < 0 ==> b == 0 && black > -span(config.groups),
{
    let g = config.groups;
    assert(!rules::fails(config, t, game, Reject::DifferentBrackets));
    assert(!rules::fails(config, t, game, Reject::OutOfRange));
    lemma_contains(g, b);
    lemma_taken(g, white, b);
    lemma_taken(g, black, b);
}

proof fn lemma_taken(g: GroupsConfig, rating: int, b: u32)
    requires
        rules::bracket_of(g, rating) == b,
        g.layout().contains(b),
    ensures
        rating >= 0 ==> belongs(g, rating, b as int),
        rating < 0 ==> b == 0 && rating > -span(g),
{
    let m = span(g);
    lemma_contains(g, g.end);
    lemma_contains(g, b);
    if rating >= 0 {
        rules::lemma_rounded(rating, m);
    } else {
        let q = (-rating) / m;
        vstd::arithmetic::div_mod::lemma_fundamental_div_mod(-rating, m);
        vstd::arithmetic::mul::lemma_mul_is_commutative(m, q);
        assert(q >= 0) by (nonlinear_arith)
            requires
                -rating >= 0,
                m > 0,
                q == (-rating) / m,
        ;
        assert(q * m >= 0) by (nonlinear_arith)
            requires
                q >= 0,
                m > 0,
        ;
        assert(q > 0 ==> q * m > 0) by (nonlinear_arith)
            requires
                m > 0,
        ;
    }
}

/// A game whose players both belong to one bracket is not turned down for being in two.
pub proof fn players_of_one_bracket_are_in_the_same(
    config: Config,
    t: Tally,
    game: Game,
    white: int,
    black: int,
    b: u32,
)
    requires
        rated(game, white, black),
        white >= 0,
        black >= 0,
        belongs(config.groups, white, b as int),
        belongs(config.groups, black, b as int),
    ensures
        rules::verdict(config, t, game) != Err::<u32, Reject>(Reject::DifferentBrackets),
{
    lemma_belongs(config.groups, white, b as int);
    lemma_belongs(config.groups, black, b as int);
}

/// A game is turned down for being in two brackets only if its players belong to different ones,
/// and gets past that filter only if not.
pub proof fn players_of_two_brackets_are_turned_down(
    config: Config,
    t: Tally,
    game: Game,
    white: int,
    black: int,
    b1: u32,
    b2: u32,
)
    requires
        rated(game, white, black),
        white >= 0,
        black >= 0,
        belongs(config.groups, white, b1 as int),
        belongs(config.groups, black, b2 as int),
    ensures
        b1 != b2 ==> !passed(rules::verdict(config, t, game), Reject::DifferentBrackets),
        rules::verdict(config, t, game) == Err::<u32, Reject>(Reject::DifferentBrackets) ==> b1
            != b2,
{
    lemma_belongs(config.groups, white, b1 as int);
    lemma_belongs(config.groups, black, b2 as int);
}

/// Every rating below `end` belongs to a bracket, though that may not be laid out, and so does one
/// at or above `end` where a bracket starts there.
pub proof fn ratings_belong_somewhere(g: GroupsConfig, rating: int)
    requires
        0 <= rating <= i32::MAX,
        rating < g.end || reaches_end(g),
    ensures
        exists|b: int| 0 <= b <= g.end && #[trigger] belongs(g, rating, b),
{
    lemma_contains(g, g.end);
    rules::lemma_rounded(rating, span(g));
    assert(belongs(g, rating, rules::bracket_of(g, rating)));
}

/// A game whose players belong to a bracket is turned down as out of range only if that bracket is
/// not laid out, and gets past that filter only if it is: it is some spans behind `start`, and not
/// behind `end`.
pub proof fn brackets_that_are_not_laid_out_are_out_of_range(
    config: Config,
    t: Tally,
    game: Game,
    white: int,
    black: int,
    b: u32,
)
    requires
        rated(game, white, black),
        white >= 0,
        belongs(config.groups, white, b as int),
    ensures
        ({
            let v = rules::verdict(config, t, game);
            let g = config.groups;
            let laid_out = g.start <= b <= g.end && (b - g.start) % span(g) == 0;
            &&& passed(v, Reject::OutOfRange) ==> laid_out
            &&& v == Err::<u32, Reject>(Reject::OutOfRange) ==> !laid_out
        }),
{
    lemma_belongs(config.groups, white, b as int);
    lemma_contains(config.groups, b);
}

/// A game is turned down because its bracket is full only if the sample so far holds as many games
/// of that bracket as it is to hold, and gets past that filter only if it holds fewer, or any
/// number is wanted.
pub proof fn brackets_can_be_filled(
    config: Config,
    games: Seq<Game>,
    game: Game,
    white: int,
    black: int,
    b: u32,
)
    requires
        rated(game, white, black),
        white >= 0,
        belongs(config.groups, white, b as int),
    ensures
        ({
            let v = rules::verdict(config, rules::after_all(config, Tally::start(), games), game);
            let full = config.groups.size > 0 && rules::games_in(rules::sample(config, games), b)
                >= config.groups.size;
            &&& passed(v, Reject::BracketFull) ==> !full
            &&& v == Err::<u32, Reject>(Reject::BracketFull) ==> full
        }),
{
    let t = rules::after_all(config, Tally::start(), games);
    lemma_belongs(config.groups, white, b as int);
    rules::tally_counts_the_sample(config, games);
    assert(t.counts[b] == rules::games_in(rules::sample(config, games), b));
}

/// A game is turned down by the quota only if one of its players alone has used it up in the sample
/// so far, and gets past that filter only if neither has, or there is no quota.
pub proof fn quota_can_be_used(config: Config, games: Seq<Game>, game: Game)
    ensures
        ({
            let v = rules::verdict(config, rules::after_all(config, Tally::start(), games), game);
            let sample = rules::sample(config, games);
            let used_up = config.player.quota > 0 && (rules::appearances_in(
                sample,
                game.headers.white,
            ) >= config.player.quota || rules::appearances_in(sample, game.headers.black)
                >= config.player.quota);
            &&& passed(v, Reject::PlayerQuota) ==> !used_up
            &&& v == Err::<u32, Reject>(Reject::PlayerQuota) ==> used_up
        }),
{
    let t = rules::after_all(config, Tally::start(), games);
    let sample = rules::sample(config, games);
    rules::tally_counts_the_sample(config, games);
    if config.player.quota > 0 {
        assert(t.appearances[game.headers.white] == rules::appearances_in(
            sample,
            game.headers.white,
        ));
        assert(t.appearances[game.headers.black] == rules::appearances_in(
            sample,
            game.headers.black,
        ));
    }
}

/// A game is taken only if what stands behind its first blank line has the plies that are asked
/// for, and is turned down by the last filter only if not. Without a blank line it has none.
pub proof fn taken_game_has_its_plies(
    config: Config,
    t: Tally,
    game: Game,
    head: Seq<u8>,
    moves: Seq<u8>,
)
    requires
        vstd::utf8::encode_utf8(game.text) == head + seq!['\n' as u8, '\n' as u8] + moves,
        forall|k: int|
            0 <= k < head.len() && #[trigger] head[k] == '\n' as u8 ==> k + 1 < head.len()
                && head[k + 1] != '\n' as u8,
    ensures
        ({
            let v = rules::verdict(config, t, game);
            &&& v is Ok ==> movetext::ply_count(moves) >= config.groups.min_plies
            &&& v == Err::<u32, Reject>(Reject::MinPlies) ==> movetext::ply_count(moves)
                < config.groups.min_plies
            &&& !moves.contains('}' as u8) ==> rules::decidable(config, t, game)
        }),
{
    let bytes = vstd::utf8::encode_utf8(game.text);
    lemma_blank_line(bytes, head, moves, 0);
    assert(bytes.skip(head.len() as int + 2) =~= moves);
    movetext::counts_are_capped(moves, config.groups.min_plies as nat);
}

proof fn lemma_blank_line(bytes: Seq<u8>, head: Seq<u8>, moves: Seq<u8>, i: int)
    requires
        bytes == head + seq!['\n' as u8, '\n' as u8] + moves,
        forall|k: int|
            0 <= k < head.len() && #[trigger] head[k] == '\n' as u8 ==> k + 1 < head.len()
                && head[k + 1] != '\n' as u8,
        0 <= i <= head.len(),
    ensures
        rules::blank_line(bytes, i) == head.len(),
    decreases head.len() - i,
{
    let n = head.len() as int;
    assert(bytes[n] == 10 && bytes[n + 1] == 10);
    if i < n {
        assert(bytes[i] == head[i]);
        if i + 1 < n {
            assert(bytes[i + 1] == head[i + 1]);
        }
        lemma_blank_line(bytes, head, moves, i + 1);
    }
}

/// A game without a blank line has no plies.
pub proof fn without_a_blank_line_there_are_no_plies(config: Config, t: Tally, game: Game)
    requires
        forall|k: int|
            0 <= k < vstd::utf8::encode_utf8(game.text).len() - 1
                && #[trigger] vstd::utf8::encode_utf8(game.text)[k] == '\n' as u8
                ==> vstd::utf8::encode_utf8(game.text)[k + 1] != '\n' as u8,
    ensures
        rules::verdict(config, t, game) is Ok ==> config.groups.min_plies == 0,
        rules::decidable(config, t, game),
{
    let bytes = vstd::utf8::encode_utf8(game.text);
    lemma_no_blank_line(bytes, 0);
    assert(game.movetext() =~= Seq::<u8>::empty());
    movetext::no_text_has_no_plies(0);
    assert(movetext::ply_count(game.movetext()) == 0);
}

proof fn lemma_no_blank_line(bytes: Seq<u8>, i: int)
    requires
        0 <= i,
        forall|k: int|
            0 <= k < bytes.len() - 1 && #[trigger] bytes[k] == '\n' as u8 ==> bytes[k + 1]
                != '\n' as u8,
    ensures
        rules::blank_line(bytes, i) == bytes.len(),
    decreases bytes.len() - i,
{
    if i + 1 < bytes.len() {
        lemma_no_blank_line(bytes, i + 1);
    }
}

/// The same headers with the two players exchanged.
pub open spec fn exchanged(h: HeaderValues) -> HeaderValues {
    HeaderValues {
        white: h.black,
        black: h.white,
        white_title: h.black_title,
        black_title: h.white_title,
        white_elo: h.black_elo,
        black_elo: h.white_elo,
        ..h
    }
}

/// It makes no difference which player has which side.
pub proof fn sides_make_no_difference(config: Config, t: Tally, game: Game)
    ensures
        rules::verdict(
            config,
            t,
            (Game { headers: exchanged(game.headers), text: game.text }),
        ) == rules::verdict(config, t, game),
{
    let other = Game { headers: exchanged(game.headers), text: game.text };
    assert(other.white_rating() == game.black_rating());
    assert(other.black_rating() == game.white_rating());
    assert(rules::fails(config, t, other, Reject::Event) == rules::fails(
        config,
        t,
        game,
        Reject::Event,
    ));
}

/// How many of `games` a filter turns down.
pub open spec fn turned_down_by(config: Config, games: Seq<Game>, filter: Reject) -> nat
    decreases games.len(),
{
    if games.len() == 0 {
        0
    } else {
        let t = rules::after_all(config, Tally::start(), games.drop_last());
        turned_down_by(config, games.drop_last(), filter) + if rules::verdict(
            config,
            t,
            games.last(),
        ) == Err::<u32, Reject>(filter) {
            1nat
        } else {
            0nat
        }
    }
}

/// The tally of a run says of each filter how many games it turned down.
pub proof fn tally_counts_what_is_turned_down(config: Config, games: Seq<Game>, filter: Reject)
    ensures
        rules::after_all(config, Tally::start(), games).rejects[filter.rank()] == turned_down_by(
            config,
            games,
            filter,
        ),
    decreases games.len(),
{
    if games.len() > 0 {
        let front = games.drop_last();
        tally_counts_what_is_turned_down(config, front, filter);
        rules::every_game_is_counted_once(config, front);
        let t = rules::after_all(config, Tally::start(), front);
        if let Err(f) = rules::verdict(config, t, games.last()) {
            lemma_ranks_differ(f, filter);
        }
    }
}

proof fn lemma_ranks_differ(f: Reject, g: Reject)
    ensures
        f.rank() == g.rank() ==> f == g,
        0 <= f.rank() < 11,
        0 <= g.rank() < 11,
{
}

/// A run has all it wants just if there is a size, and every bracket, some spans behind `start` and
/// not behind `end`, has that many games in the sample.
pub proof fn run_is_full_when_every_bracket_is(config: Config, games: Seq<Game>)
    ensures
        rules::all_full(config, rules::after_all(config, Tally::start(), games)) <==> (
        config.groups.size > 0 && forall|b: u32|
            config.groups.start <= b <= config.groups.end && (b - config.groups.start) % span(
                config.groups,
            ) == 0 ==> #[trigger] rules::games_in(rules::sample(config, games), b)
                >= config.groups.size),
{
    let g = config.groups;
    let t = rules::after_all(config, Tally::start(), games);
    let sample = rules::sample(config, games);
    rules::tally_counts_the_sample(config, games);
    if rules::all_full(config, t) {
        assert forall|b: u32|
            g.start <= b <= g.end && (b - g.start) % span(g) == 0 implies
            #[trigger] rules::games_in(sample, b) >= g.size by {
            lemma_contains(g, b);
            let k = choose|k: int| 0 <= k < g.layout().len() && g.layout()[k] == b;
            assert(t.counts[g.layout()[k]] >= g.size);
        }
    } else if g.size > 0 {
        let k = choose|k: int|
            0 <= k < g.layout().len() && t.counts[#[trigger] g.layout()[k]] < g.size;
        let b = g.layout()[k];
        lemma_contains(g, b);
        assert(t.counts[b] == rules::games_in(sample, b));
    }
}

/// A verdict can be reached wherever a filter that looks at the headers turns a game down, or no
/// plies are asked for.
pub proof fn plies_matter_last(config: Config, t: Tally, game: Game)
    ensures
        rules::verdict(config, t, game) is Err && rules::verdict(config, t, game)->Err_0
            != Reject::MinPlies ==> rules::decidable(config, t, game),
        config.groups.min_plies == 0 ==> rules::decidable(config, t, game)
            && rules::verdict(config, t, game) != Err::<u32, Reject>(Reject::MinPlies),
{
}

} // verus!
