//! The rules by which games are sampled, and what follows from them.
//!
//! A run looks at one game after the other. What it has done so far is its tally; the rules say
//! which filter, if any, turns a game down under a tally, and what the tally is afterwards.

use vstd::prelude::*;
use vstd::utf8::*;

use crate::ascii::LINE_FEED;
use crate::config;
use crate::config::{Config, GroupsConfig};
use crate::decimal;
use crate::headers::HeaderValues;
use crate::movetext;
use crate::reject::{Reject, REJECT_COUNT};
use crate::text;

verus! {

/// A game as it was read: its header values, and its whole text.
pub struct Game {
    pub headers: HeaderValues,
    pub text: Seq<char>,
}

/// What a run has done so far.
#[verifier::ext_equal]
pub struct Tally {
    /// Accepted games per bracket.
    pub counts: Map<u32, nat>,
    /// Appearances per player in the accepted games. Kept only where there is a quota.
    pub appearances: Map<Seq<char>, nat>,
    /// Rejected games per filter.
    pub rejects: Seq<nat>,
}

pub open spec fn abs(x: int) -> int {
    if x >= 0 {
        x
    } else {
        -x
    }
}

/// The multiple of `m` next to `r` on the side of zero.
pub open spec fn toward_zero(r: int, m: int) -> int {
    if r >= 0 {
        r / m * m
    } else {
        -((-r) / m * m)
    }
}

/// The bracket of a player with rating `r`: a multiple of the interval, but ratings at or above
/// `end` go to the bracket at `end`. Where none starts there, they are rounded like the others, and
/// no higher than to `end`.
pub open spec fn bracket_of(g: GroupsConfig, r: int) -> int {
    let b = toward_zero(r, g.spec_step() as int);
    if r >= g.end && g.layout().contains(g.end) || b > g.end {
        g.end as int
    } else {
        b
    }
}

/// Where the first blank line of a text starts: the first of two line feeds, or the length of the
/// text.
pub open spec fn blank_line(b: Seq<u8>, i: int) -> int
    decreases b.len() - i,
{
    if i + 1 >= b.len() {
        b.len() as int
    } else if b[i] == LINE_FEED && b[i + 1] == LINE_FEED {
        i
    } else {
        blank_line(b, i + 1)
    }
}

/// The movetext of a game: what stands behind the first blank line.
pub open spec fn movetext_of(b: Seq<u8>) -> Seq<u8> {
    let i = blank_line(b, 0);
    if i < b.len() {
        b.skip(i + 2)
    } else {
        Seq::empty()
    }
}

impl Game {
    pub open spec fn white_rating(self) -> Option<i32> {
        decimal::read_i32(self.headers.white_elo)
    }

    pub open spec fn black_rating(self) -> Option<i32> {
        decimal::read_i32(self.headers.black_elo)
    }

    /// The bracket of the first player.
    pub open spec fn bracket(self, g: GroupsConfig) -> int {
        bracket_of(g, self.white_rating()->0 as int)
    }

    pub open spec fn movetext(self) -> Seq<u8> {
        movetext_of(encode_utf8(self.text))
    }
}

impl Tally {
    /// Nothing done yet.
    pub open spec fn start() -> Tally {
        Tally {
            counts: Map::total(|b: u32| 0nat),
            appearances: Map::total(|p: Seq<char>| 0nat),
            rejects: Seq::new(REJECT_COUNT as nat, |i: int| 0nat),
        }
    }

    /// The tally with one more appearance of `player`.
    pub open spec fn seeing(self, player: Seq<char>) -> Tally {
        Tally {
            appearances: self.appearances.insert(player, self.appearances[player] + 1),
            ..self
        }
    }

    /// The tally once a game with these headers is in the sample of bracket `b`.
    pub open spec fn accepting(self, config: Config, headers: HeaderValues, b: u32) -> Tally {
        let seen = if config.player.quota > 0 {
            self.seeing(headers.white).seeing(headers.black)
        } else {
            self
        };
        Tally { counts: seen.counts.insert(b, seen.counts[b] + 1), ..seen }
    }

    /// The tally once a game has been turned down.
    pub open spec fn rejecting(self, reason: Reject) -> Tally {
        Tally {
            rejects: self.rejects.update(reason.rank(), self.rejects[reason.rank()] + 1),
            ..self
        }
    }
}

/// Whether a list of accepted strings has something to say about `s`, and does not hold it.
pub open spec fn not_listed(list: Seq<String>, s: Seq<char>) -> bool {
    list.len() > 0 && !text::views(list).contains(s)
}

/// Whether a game fails a filter, the filters before it aside.
pub open spec fn fails(config: Config, t: Tally, game: Game, filter: Reject) -> bool {
    let h = game.headers;
    let groups = config.groups;
    let player = config.player;
    match filter {
        Reject::Event => not_listed(groups.events@, h.event),
        Reject::TimeControl => not_listed(groups.time_controls@, h.time_control),
        Reject::BannedTitle => {
            let banned = text::views(player.banned_string@);
            ||| banned.contains(h.white_title)
            ||| banned.contains(h.black_title)
            ||| banned.contains(h.white)
            ||| banned.contains(h.black)
        },
        Reject::RequiredTitle => not_listed(player.required_string@, h.white_title) && not_listed(
            player.required_string@,
            h.black_title,
        ),
        Reject::InvalidHeaders => {
            ||| h.white.len() == 0
            ||| h.black.len() == 0
            ||| game.white_rating() is None
            ||| game.black_rating() is None
        },
        Reject::Delta => abs(game.white_rating()->0 - game.black_rating()->0) > groups.delta,
        Reject::DifferentBrackets => bracket_of(groups, game.white_rating()->0 as int)
            != bracket_of(groups, game.black_rating()->0 as int),
        Reject::OutOfRange => game.bracket(groups) < groups.start || !groups.layout().contains(
            game.bracket(groups) as u32,
        ),
        Reject::BracketFull => groups.size > 0 && t.counts[game.bracket(groups) as u32]
            >= groups.size,
        Reject::PlayerQuota => player.quota > 0 && (t.appearances[h.white] >= player.quota
            || t.appearances[h.black] >= player.quota),
        Reject::MinPlies => groups.min_plies > 0 && movetext::ply_count(game.movetext())
            < groups.min_plies,
    }
}

/// The first of the filters that look at the headers alone which a game fails.
pub open spec fn first_header_failure(config: Config, t: Tally, game: Game) -> Option<Reject> {
    if fails(config, t, game, Reject::Event) {
        Some(Reject::Event)
    } else if fails(config, t, game, Reject::TimeControl) {
        Some(Reject::TimeControl)
    } else if fails(config, t, game, Reject::BannedTitle) {
        Some(Reject::BannedTitle)
    } else if fails(config, t, game, Reject::RequiredTitle) {
        Some(Reject::RequiredTitle)
    } else if fails(config, t, game, Reject::InvalidHeaders) {
        Some(Reject::InvalidHeaders)
    } else if fails(config, t, game, Reject::Delta) {
        Some(Reject::Delta)
    } else if fails(config, t, game, Reject::DifferentBrackets) {
        Some(Reject::DifferentBrackets)
    } else if fails(config, t, game, Reject::OutOfRange) {
        Some(Reject::OutOfRange)
    } else if fails(config, t, game, Reject::BracketFull) {
        Some(Reject::BracketFull)
    } else if fails(config, t, game, Reject::PlayerQuota) {
        Some(Reject::PlayerQuota)
    } else {
        None
    }
}

/// The first filter that a game fails.
pub open spec fn first_failure(config: Config, t: Tally, game: Game) -> Option<Reject> {
    match first_header_failure(config, t, game) {
        Some(filter) => Some(filter),
        None => if fails(config, t, game, Reject::MinPlies) {
            Some(Reject::MinPlies)
        } else {
            None
        },
    }
}

/// What becomes of a game: the bracket that it is taken into, or the filter that turns it down.
pub open spec fn verdict(config: Config, t: Tally, game: Game) -> Result<u32, Reject> {
    match first_failure(config, t, game) {
        Some(filter) => Err(filter),
        None => Ok(game.bracket(config.groups) as u32),
    }
}

/// Whether a verdict on a game can be reached: where its plies matter, they can be counted.
pub open spec fn decidable(config: Config, t: Tally, game: Game) -> bool {
    first_header_failure(config, t, game) is None && config.groups.min_plies > 0
        ==> movetext::countable(game.movetext(), config.groups.min_plies as nat)
}

/// The tally once a game has been looked at.
pub open spec fn after(config: Config, t: Tally, game: Game) -> Tally {
    match verdict(config, t, game) {
        Ok(b) => t.accepting(config, game.headers, b),
        Err(filter) => t.rejecting(filter),
    }
}

/// Whether every bracket holds all the games that it is to hold.
pub open spec fn all_full(config: Config, t: Tally) -> bool {
    &&& config.groups.size > 0
    &&& forall|k: int|
        0 <= k < config.groups.layout().len() ==> t.counts[#[trigger] config.groups.layout()[k]]
            >= config.groups.size
}

/// The tally once all of `games` have been looked at, one after the other.
pub open spec fn after_all(config: Config, t: Tally, games: Seq<Game>) -> Tally
    decreases games.len(),
{
    if games.len() == 0 {
        t
    } else {
        after(config, after_all(config, t, games.drop_last()), games.last())
    }
}

/// The games out of `games` that are taken into the sample, each with its bracket.
pub open spec fn sample(config: Config, games: Seq<Game>) -> Seq<(u32, Game)>
    decreases games.len(),
{
    if games.len() == 0 {
        Seq::empty()
    } else {
        let before = sample(config, games.drop_last());
        let t = after_all(config, Tally::start(), games.drop_last());
        match verdict(config, t, games.last()) {
            Ok(b) => before.push((b, games.last())),
            Err(_) => before,
        }
    }
}

/// How many games of a sample are in bracket `b`.
pub open spec fn games_in(s: Seq<(u32, Game)>, b: u32) -> nat
    decreases s.len(),
{
    if s.len() == 0 {
        0
    } else {
        games_in(s.drop_last(), b) + if s.last().0 == b {
            1nat
        } else {
            0nat
        }
    }
}

/// How many times `player` appears in the games of a sample.
pub open spec fn appearances_in(s: Seq<(u32, Game)>, player: Seq<char>) -> nat
    decreases s.len(),
{
    if s.len() == 0 {
        0
    } else {
        appearances_in(s.drop_last(), player) + if s.last().1.headers.white == player {
            1nat
        } else {
            0nat
        } + if s.last().1.headers.black == player {
            1nat
        } else {
            0nat
        }
    }
}

/// How many games of a sample `player` is in, on either side.
pub open spec fn games_with(s: Seq<(u32, Game)>, player: Seq<char>) -> nat
    decreases s.len(),
{
    if s.len() == 0 {
        0
    } else {
        games_with(s.drop_last(), player) + if s.last().1.headers.white == player
            || s.last().1.headers.black == player {
            1nat
        } else {
            0nat
        }
    }
}

/// The sum of a list of numbers.
pub open spec fn sum(s: Seq<nat>) -> nat
    decreases s.len(),
{
    if s.len() == 0 {
        0
    } else {
        sum(s.drop_last()) + s.last()
    }
}

/// A game is taken that has the same player on both sides, and that player has one appearance
/// left.
pub open spec fn overdraws(config: Config, t: Tally, game: Game) -> bool {
    &&& verdict(config, t, game) is Ok
    &&& game.headers.white == game.headers.black
    &&& t.appearances[game.headers.white] + 1 == config.player.quota
}

/// A game is turned down by the first filter that it fails, and by no other; one that fails none
/// is taken into its bracket.
pub proof fn verdict_is_first_failure(config: Config, t: Tally, game: Game)
    ensures
        forall|filter: Reject|
            verdict(config, t, game) == Err::<u32, Reject>(filter) <==> #[trigger] fails(
                config,
                t,
                game,
                filter,
            ) && forall|earlier: Reject|
                earlier.rank() < filter.rank() ==> !#[trigger] fails(config, t, game, earlier),
        verdict(config, t, game) is Ok <==> forall|filter: Reject|
            !#[trigger] fails(config, t, game, filter),
        verdict(config, t, game) matches Ok(b) ==> b == game.bracket(config.groups) as u32,
{
    let v = verdict(config, t, game);
    assert forall|filter: Reject|
        v == Err::<u32, Reject>(filter) <==> #[trigger] fails(config, t, game, filter) && forall|
            earlier: Reject,
        |
            earlier.rank() < filter.rank() ==> !#[trigger] fails(config, t, game, earlier) by {
        if fails(config, t, game, filter) && forall|earlier: Reject|
            earlier.rank() < filter.rank() ==> !#[trigger] fails(config, t, game, earlier) {
            assert(v == Err::<u32, Reject>(filter));
        }
    }
}

/// Adding one to one of the numbers adds one to their sum.
pub proof fn lemma_sum_update(s: Seq<nat>, i: int)
    requires
        0 <= i < s.len(),
    ensures
        sum(s.update(i, s[i] + 1)) == sum(s) + 1,
    decreases s.len(),
{
    let u = s.update(i, s[i] + 1);
    if i == s.len() - 1 {
        assert(u.drop_last() =~= s.drop_last());
    } else {
        lemma_sum_update(s.drop_last(), i);
        assert(u.drop_last() =~= s.drop_last().update(i, s.drop_last()[i] + 1));
    }
}

/// Zeros add up to zero.
pub proof fn lemma_sum_zero(s: Seq<nat>)
    requires
        forall|i: int| 0 <= i < s.len() ==> s[i] == 0,
    ensures
        sum(s) == 0,
    decreases s.len(),
{
    if s.len() > 0 {
        lemma_sum_zero(s.drop_last());
    }
}

/// The tally of a run says how many games of its sample are in each bracket, and, where there is a
/// quota, how often each player appears in the sample.
pub proof fn tally_counts_the_sample(config: Config, games: Seq<Game>)
    ensures
        forall|b: u32|
            #![trigger after_all(config, Tally::start(), games).counts[b]]
            #![trigger games_in(sample(config, games), b)]
            after_all(config, Tally::start(), games).counts[b] == games_in(
                sample(config, games),
                b,
            ),
        config.player.quota > 0 ==> forall|p: Seq<char>|
            #![trigger after_all(config, Tally::start(), games).appearances[p]]
            #![trigger appearances_in(sample(config, games), p)]
            after_all(config, Tally::start(), games).appearances[p] == appearances_in(
                sample(config, games),
                p,
            ),
    decreases games.len(),
{
    if games.len() > 0 {
        tally_counts_the_sample(config, games.drop_last());
        let before = sample(config, games.drop_last());
        let now = sample(config, games);
        if now != before {
            assert(now.drop_last() =~= before);
        }
    }
}

/// Every game that is looked at is either in the sample or counted under one filter.
pub proof fn every_game_is_counted_once(config: Config, games: Seq<Game>)
    ensures
        sum(after_all(config, Tally::start(), games).rejects) + sample(config, games).len()
            == games.len(),
        after_all(config, Tally::start(), games).rejects.len() == REJECT_COUNT,
    decreases games.len(),
{
    if games.len() > 0 {
        every_game_is_counted_once(config, games.drop_last());
        let t = after_all(config, Tally::start(), games.drop_last());
        match verdict(config, t, games.last()) {
            Ok(_) => {},
            Err(filter) => {
                lemma_sum_update(t.rejects, filter.rank());
            },
        }
    } else {
        lemma_sum_zero(Tally::start().rejects);
    }
}

/// Where a bracket has a size, no more games than that are in its sample.
pub proof fn size_is_never_exceeded(config: Config, games: Seq<Game>, b: u32)
    requires
        config.groups.size > 0,
    ensures
        games_in(sample(config, games), b) <= config.groups.size,
    decreases games.len(),
{
    if games.len() > 0 {
        let front = games.drop_last();
        size_is_never_exceeded(config, front, b);
        tally_counts_the_sample(config, front);
        let t = after_all(config, Tally::start(), front);
        match verdict(config, t, games.last()) {
            Ok(c) => {
                assert(!fails(config, t, games.last(), Reject::BracketFull));
                assert(t.counts[b] == games_in(sample(config, front), b));
                assert(sample(config, games).drop_last() =~= sample(config, front));
            },
            Err(_) => {},
        }
    }
}

/// Where there is a quota, no player appears in the sample more often than that, unless a game is
/// taken that has the player on both sides when the player has a single appearance left.
pub proof fn quota_is_never_exceeded(config: Config, games: Seq<Game>, player: Seq<char>)
    requires
        config.player.quota > 0,
        forall|i: int|
            0 <= i < games.len() && #[trigger] games[i].headers.white == player ==> !overdraws(
                config,
                after_all(config, Tally::start(), games.take(i)),
                games[i],
            ),
    ensures
        appearances_in(sample(config, games), player) <= config.player.quota,
    decreases games.len(),
{
    if games.len() > 0 {
        let front = games.drop_last();
        assert forall|i: int|
            0 <= i < front.len() && #[trigger] front[i].headers.white == player implies !overdraws(
            config,
            after_all(config, Tally::start(), front.take(i)),
            front[i],
        ) by {
            assert(front.take(i) =~= games.take(i));
            assert(games[i].headers.white == player);
        }
        quota_is_never_exceeded(config, front, player);
        tally_counts_the_sample(config, front);
        let t = after_all(config, Tally::start(), front);
        let last = games.last();
        assert(games.take(games.len() - 1) =~= front);
        assert(last == games[games.len() - 1]);
        assert(last.headers.white == player ==> !overdraws(config, t, last));
        match verdict(config, t, last) {
            Ok(c) => {
                assert(!fails(config, t, last, Reject::PlayerQuota));
                assert(t.appearances[player] == appearances_in(sample(config, front), player));
                assert(sample(config, games).drop_last() =~= sample(config, front));
            },
            Err(_) => {},
        }
    }
}

/// Where there is a quota, no player is in more games of the sample than that.
pub proof fn quota_bounds_the_games_of_a_player(
    config: Config,
    games: Seq<Game>,
    player: Seq<char>,
)
    requires
        config.player.quota > 0,
    ensures
        games_with(sample(config, games), player) <= config.player.quota,
    decreases games.len(),
{
    if games.len() > 0 {
        let front = games.drop_last();
        quota_bounds_the_games_of_a_player(config, front, player);
        lemma_games_with(sample(config, front), player);
        tally_counts_the_sample(config, front);
        let t = after_all(config, Tally::start(), front);
        match verdict(config, t, games.last()) {
            Ok(c) => {
                assert(!fails(config, t, games.last(), Reject::PlayerQuota));
                assert(t.appearances[player] == appearances_in(sample(config, front), player));
                assert(sample(config, games).drop_last() =~= sample(config, front));
            },
            Err(_) => {},
        }
    }
}

/// A player is in no more games than the player appears in all.
proof fn lemma_games_with(s: Seq<(u32, Game)>, player: Seq<char>)
    ensures
        games_with(s, player) <= appearances_in(s, player),
    decreases s.len(),
{
    if s.len() > 0 {
        lemma_games_with(s.drop_last(), player);
    }
}

/// Whatever the games are, no player appears in the sample more often than once above the quota.
pub proof fn quota_is_overrun_by_one_at_most(config: Config, games: Seq<Game>, player: Seq<char>)
    requires
        config.player.quota > 0,
    ensures
        appearances_in(sample(config, games), player) <= config.player.quota + 1,
    decreases games.len(),
{
    if games.len() > 0 {
        let front = games.drop_last();
        quota_is_overrun_by_one_at_most(config, front, player);
        tally_counts_the_sample(config, front);
        let t = after_all(config, Tally::start(), front);
        match verdict(config, t, games.last()) {
            Ok(c) => {
                assert(!fails(config, t, games.last(), Reject::PlayerQuota));
                assert(t.appearances[player] == appearances_in(sample(config, front), player));
                assert(sample(config, games).drop_last() =~= sample(config, front));
            },
            Err(_) => {},
        }
    }
}

/// Once every bracket is full, every further game is turned down, and every bracket stays full.
pub proof fn full_run_takes_nothing_more(config: Config, t: Tally, game: Game)
    requires
        all_full(config, t),
    ensures
        verdict(config, t, game) is Err,
        all_full(config, after(config, t, game)),
{
    let layout = config.groups.layout();
    let b = game.bracket(config.groups) as u32;
    if verdict(config, t, game) is Ok {
        assert(!fails(config, t, game, Reject::OutOfRange));
        assert(!fails(config, t, game, Reject::BracketFull));
        let k = choose|k: int| 0 <= k < layout.len() && layout[k] == b;
        assert(t.counts[layout[k]] >= config.groups.size);
    }
    assert(after(config, t, game).counts == t.counts);
}

/// A run that stops as soon as every bracket is full has the sample of the whole run.
pub proof fn stopping_early_loses_nothing(config: Config, games: Seq<Game>, more: Seq<Game>)
    requires
        all_full(config, after_all(config, Tally::start(), games)),
    ensures
        sample(config, games + more) == sample(config, games),
        all_full(config, after_all(config, Tally::start(), games + more)),
    decreases more.len(),
{
    if more.len() == 0 {
        assert(games + more =~= games);
    } else {
        let all = games + more;
        stopping_early_loses_nothing(config, games, more.drop_last());
        assert(all.drop_last() =~= games + more.drop_last());
        full_run_takes_nothing_more(
            config,
            after_all(config, Tally::start(), all.drop_last()),
            all.last(),
        );
    }
}

/// Without a size and without a quota each game is judged by itself.
pub proof fn without_limits_games_are_judged_alone(config: Config, t1: Tally, t2: Tally, game: Game)
    requires
        config.groups.size == 0,
        config.player.quota == 0,
    ensures
        verdict(config, t1, game) == verdict(config, t2, game),
{
}

/// A game in the sample is in one of the brackets, both its players are in that bracket, and
/// their ratings are no further apart than is accepted.
pub proof fn sampled_game_fits_its_bracket(config: Config, t: Tally, game: Game)
    requires
        verdict(config, t, game) is Ok,
    ensures
        config.groups.layout().contains(verdict(config, t, game)->Ok_0),
        game.white_rating() is Some,
        game.black_rating() is Some,
        bracket_of(config.groups, game.white_rating()->0 as int) == bracket_of(
            config.groups,
            game.black_rating()->0 as int,
        ),
        verdict(config, t, game)->Ok_0 == bracket_of(
            config.groups,
            game.white_rating()->0 as int,
        ),
        abs(game.white_rating()->0 - game.black_rating()->0) <= config.groups.delta,
{
    assert(!fails(config, t, game, Reject::InvalidHeaders));
    assert(!fails(config, t, game, Reject::Delta));
    assert(!fails(config, t, game, Reject::DifferentBrackets));
    assert(!fails(config, t, game, Reject::OutOfRange));
}

/// Ratings at or above `end` go to the bracket at `end`, wherever one starts there.
pub proof fn top_ratings_share_the_last_bracket(g: GroupsConfig, rating: i32)
    requires
        rating >= g.end,
        g.layout().contains(g.end),
    ensures
        bracket_of(g, rating as int) == g.end,
{
}

/// The multiple of `m` next to a number, on the side of zero, is not above it, and less than `m`
/// away.
pub proof fn lemma_rounded(r: int, m: int)
    requires
        r >= 0,
        m > 0,
    ensures
        toward_zero(r, m) == m * (r / m),
        toward_zero(r, m) <= r < toward_zero(r, m) + m,
        toward_zero(r, m) % m == 0,
{
    let q = r / m;
    vstd::arithmetic::div_mod::lemma_fundamental_div_mod(r, m);
    vstd::arithmetic::mul::lemma_mul_is_commutative(m, q);
    vstd::arithmetic::div_mod::lemma_mod_multiples_basic(q, m);
}

/// A rating below `end`, and not negative, lies in the interval of its bracket, which starts at a
/// multiple of the interval.
pub proof fn rating_lies_in_its_bracket(g: GroupsConfig, rating: i32)
    requires
        0 <= rating < g.end,
    ensures
        bracket_of(g, rating as int) <= rating < bracket_of(g, rating as int) + g.spec_step(),
        bracket_of(g, rating as int) % g.spec_step() as int == 0,
{
    lemma_rounded(rating as int, g.spec_step() as int);
}

/// Where `start` is a multiple of the interval, every rating from `start` on has its bracket among
/// those that are laid out. (Where no bracket starts at `end`, that leaves out the ratings whose
/// multiple is above `end`.) A rating below `start` has none (a negative one may be taken for
/// zero).
pub proof fn ratings_from_start_have_a_bracket(g: GroupsConfig, rating: i32)
    requires
        g.start <= g.end,
        g.start as int % g.spec_step() as int == 0,
        g.layout().contains(g.end) || toward_zero(rating as int, g.spec_step() as int) <= g.end,
        rating >= 0,
    ensures
        rating >= g.start ==> g.start <= bracket_of(g, rating as int) && g.layout().contains(
            bracket_of(g, rating as int) as u32,
        ),
        rating < g.start ==> bracket_of(g, rating as int) < g.start,
{
    let m = g.spec_step() as int;
    let r = rating as int;
    let b = bracket_of(g, r);
    lemma_rounded(r, m);
    if r >= g.start && b == toward_zero(r, m) {
        let p = g.start as int / m;
        let q = r / m;
        let k = q - p;
        vstd::arithmetic::div_mod::lemma_fundamental_div_mod(g.start as int, m);
        vstd::arithmetic::div_mod::lemma_div_is_ordered(g.start as int, r, m);
        assert(m * q == m * p + k * m) by (nonlinear_arith)
            requires
                k == q - p,
        ;
        assert(0 <= k * m) by (nonlinear_arith)
            requires
                0 <= k,
                0 < m,
        ;
        config::lemma_laid_out(g, k);
        assert(g.layout()[k] == b as u32);
    }
}

/// A negative rating less than an interval below zero is in the bracket at zero; one further down
/// is in none.
pub proof fn negative_ratings_round_up(g: GroupsConfig, rating: i32)
    requires
        rating < 0,
    ensures
        ({
            let span = if g.interval == 0 {
                200int
            } else {
                g.interval as int
            };
            &&& rating > -span ==> bracket_of(g, rating as int) == 0
            &&& rating <= -span ==> bracket_of(g, rating as int) < 0
        }),
{
    let m = g.spec_step() as int;
    let r = -(rating as int);
    let q = r / m;
    vstd::arithmetic::div_mod::lemma_fundamental_div_mod(r, m);
    vstd::arithmetic::mul::lemma_mul_is_commutative(m, q);
    assert(q == 0 <==> r < m) by (nonlinear_arith)
        requires
            r == m * q + r % m,
            0 <= r % m < m,
            r > 0,
            m > 0,
    ;
    assert(q >= 0) by (nonlinear_arith)
        requires
            r == m * q + r % m,
            0 <= r % m < m,
            r > 0,
            m > 0,
    ;
    assert(q > 0 ==> q * m > 0) by (nonlinear_arith)
        requires
            m > 0,
    ;
    assert(q == 0 ==> q * m == 0) by (nonlinear_arith);
}

} // verus!
