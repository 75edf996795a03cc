//! The sampler: it judges games by the rules and keeps the tally.

use std::collections::HashMap;
use vstd::hash_map::StringHashMap;
use vstd::prelude::*;
use vstd::utf8::*;

use crate::ascii::LINE_FEED;
use crate::config::{Config, GroupsConfig};
use crate::decimal;
use crate::headers::{GameHeaders, HeaderValues};
use crate::movetext;
use crate::reject::{Reject, REJECT_COUNT};
use crate::rules;
use crate::rules::{Game, Tally};
use crate::text;

verus! {

broadcast use vstd::std_specs::hash::group_hash_axioms;

/// The state of a run: how many games each bracket has, how often each player has appeared, and
/// how many games each filter has turned down.
pub struct Sampler<'a> {
    config: &'a Config,
    brackets: Vec<u32>,
    current_counts: HashMap<u32, u32>,
    player_counts: StringHashMap<u32>,
    rejects: [u64; REJECT_COUNT],
}

/// Whether the tally has room for what becomes of a game: no counter is at its end.
pub open spec fn has_room(config: Config, t: Tally, game: Game) -> bool {
    match rules::verdict(config, t, game) {
        Ok(b) => can_accept(config, t, game.headers, b),
        Err(filter) => t.rejects[filter.rank()] < u64::MAX,
    }
}

/// Whether the counters that go up when a game is taken into bracket `b` can go up.
pub open spec fn can_accept(config: Config, t: Tally, headers: HeaderValues, b: u32) -> bool {
    let next = t.accepting(config, headers, b);
    &&& next.counts[b] <= u32::MAX
    &&& config.player.quota > 0 ==> next.appearances[headers.white] <= u32::MAX
        && next.appearances[headers.black] <= u32::MAX
}

/// Tells whether a list holds a string.
fn listed(list: &Vec<String>, s: &String) -> (r: bool)
    ensures
        r == text::views(list@).contains(s@),
{
    let mut i: usize = 0;
    while i < list.len()
        invariant
            i <= list@.len(),
            forall|k: int| 0 <= k < i ==> #[trigger] text::views(list@)[k] != s@,
        decreases list@.len() - i,
    {
        if text::same(list[i].as_str(), s.as_str()) {
            assert(text::views(list@)[i as int] == s@);
            return true;
        }
        i += 1;
    }
    false
}

/// The bracket of a player with the given rating.
fn bracket_for(groups: &GroupsConfig, rating: i32) -> (r: i64)
    ensures
        r == rules::bracket_of(*groups, rating as int),
        r <= i32::MAX,
{
    let m: u64 = groups.step() as u64;
    let size: u64 = if rating >= 0 {
        rating as u64
    } else {
        (0 - rating as i64) as u64
    };
    let q: u64 = size / m;
    proof {
        vstd::arithmetic::div_mod::lemma_fundamental_div_mod(size as int, m as int);
        assert(m * q == q * m) by (nonlinear_arith);
    }
    let multiple: u64 = q * m;
    let b: i64 = if rating >= 0 {
        multiple as i64
    } else {
        0 - multiple as i64
    };
    let end: i64 = groups.end as i64;
    if b > end || (rating as i64 >= end && groups.has_end_bracket()) {
        end
    } else {
        b
    }
}

/// The place where the movetext of a game starts, behind the first blank line.
fn movetext_start(b: &[u8]) -> (r: usize)
    ensures
        r <= b@.len(),
        b@.skip(r as int) == rules::movetext_of(b@),
{
    let mut i: usize = 0;
    while i < b.len() && i + 1 < b.len()
        invariant
            i <= b@.len(),
            rules::blank_line(b@, 0) == rules::blank_line(b@, i as int),
        decreases b@.len() - i,
    {
        if b[i] == LINE_FEED && b[i + 1] == LINE_FEED {
            return i + 2;
        }
        i += 1;
    }
    assert(b@.skip(b@.len() as int) =~= Seq::<u8>::empty());
    b.len()
}

/// Counts the plies of a game up to `limit`, or gives `None` where they cannot be counted.
fn count_game_plies(game_buffer: &str, limit: u32) -> (r: Option<u32>)
    ensures
        ({
            let m = rules::movetext_of(encode_utf8(game_buffer@));
            match r {
                Some(n) => movetext::countable(m, limit as nat) && n == movetext::capped(
                    movetext::ply_count(m),
                    limit as nat,
                ),
                None => !movetext::countable(m, limit as nat),
            }
        }),
{
    let b = game_buffer.as_bytes();
    let start: usize = movetext_start(b);
    proof {
        let head = b@.take(start as int);
        let tail = b@.skip(start as int);
        assert(b@ =~= head + tail);
        movetext::lemma_plies_shift(head, tail, 0, 0);
    }
    movetext::scan_plies(b, start, limit)
}

impl<'a> Sampler<'a> {
    /// The configuration that the sampler goes by.
    pub closed spec fn spec_config(&self) -> Config {
        *self.config
    }

    /// What the sampler has done so far.
    pub closed spec fn tally(&self) -> Tally {
        Tally {
            counts: Map::total(
                |b: u32|
                    if self.current_counts@.contains_key(b) {
                        self.current_counts@[b] as nat
                    } else {
                        0
                    },
            ),
            appearances: Map::total(
                |p: Seq<char>|
                    if self.player_counts@.contains_key(p) {
                        self.player_counts@[p] as nat
                    } else {
                        0
                    },
            ),
            rejects: Seq::new(REJECT_COUNT as nat, |i: int| self.rejects@[i] as nat),
        }
    }

    /// The brackets are those of the configuration.
    pub closed spec fn wf(&self) -> bool {
        &&& self.config.groups.layout_fits()
        &&& self.brackets@ == self.config.groups.layout()
    }

    /// There is a counter for every filter.
    pub proof fn lemma_reject_count(&self)
        ensures
            self.tally().rejects.len() == REJECT_COUNT,
    {
    }

    /// The brackets of the configuration can be laid out.
    pub proof fn lemma_layout_fits(&self)
        requires
            self.wf(),
        ensures
            self.spec_config().groups.layout_fits(),
    {
    }

    /// A sampler that has done nothing yet.
    pub fn new(config: &'a Config) -> (r: Sampler<'a>)
        requires
            config.groups.layout_fits(),
        ensures
            r.wf(),
            r.spec_config() == *config,
            r.tally() == Tally::start(),
    {
        let r = Sampler {
            config,
            brackets: config.groups.bracket_starts(),
            current_counts: HashMap::new(),
            player_counts: StringHashMap::new(),
            rejects: [0;REJECT_COUNT],
        };
        assert(r.tally() =~= Tally::start());
        r
    }

    /// Where the brackets start.
    pub fn brackets(&self) -> (r: &Vec<u32>)
        requires
            self.wf(),
        ensures
            r@ == self.spec_config().groups.layout(),
    {
        &self.brackets
    }

    /// The configuration that the sampler goes by.
    pub fn config(&self) -> (r: &'a Config)
        ensures
            *r == self.spec_config(),
    {
        self.config
    }

    /// How many games the bracket that starts at `b` has.
    pub fn count(&self, b: u32) -> (r: u32)
        ensures
            r == self.tally().counts[b],
    {
        match self.current_counts.get(&b) {
            Some(n) => *n,
            None => 0,
        }
    }

    /// How often a player has appeared.
    fn appearances(&self, player: &str) -> (r: u32)
        ensures
            r == self.tally().appearances[player@],
    {
        match self.player_counts.get(player) {
            Some(n) => *n,
            None => 0,
        }
    }

    /// How many games filter number `i` has turned down.
    pub fn rejected(&self, i: usize) -> (r: u64)
        requires
            i < REJECT_COUNT,
        ensures
            r == self.tally().rejects[i as int],
    {
        self.rejects[i]
    }

    /// Tells whether every bracket has all the games that it is to have.
    pub fn all_done(&self) -> (r: bool)
        requires
            self.wf(),
        ensures
            r == rules::all_full(self.spec_config(), self.tally()),
    {
        if self.config.groups.size == 0 {
            return false;
        }
        let mut i: usize = 0;
        while i < self.brackets.len()
            invariant
                self.wf(),
                i <= self.brackets@.len(),
                forall|k: int|
                    0 <= k < i ==> self.tally().counts[#[trigger] self.brackets@[k]]
                        >= self.config.groups.size,
            decreases self.brackets@.len() - i,
        {
            if self.count(self.brackets[i]) < self.config.groups.size {
                assert(self.config.groups.layout()[i as int] == self.brackets@[i as int]);
                return false;
            }
            i += 1;
        }
        true
    }

    /// Runs the filters that look at the headers alone, and gives the bracket of a game that
    /// passes them.
    fn screen(&self, hdrs: &GameHeaders) -> (r: Result<u32, Reject>)
        requires
            self.wf(),
        ensures
            forall|game: Game|
                game.headers == hdrs@ ==> #[trigger] rules::first_header_failure(
                    self.spec_config(),
                    self.tally(),
                    game,
                ) == (match r {
                    Ok(_) => None,
                    Err(filter) => Some(filter),
                }),
            forall|game: Game|
                #![trigger game.bracket(self.spec_config().groups)]
                game.headers == hdrs@ ==> (r matches Ok(b) ==> b == game.bracket(
                    self.spec_config().groups,
                ) as u32),
    {
        let groups = &self.config.groups;
        let player = &self.config.player;

        if groups.events.len() > 0 && !listed(&groups.events, &hdrs.event) {
            return Err(Reject::Event);
        }
        if groups.time_controls.len() > 0 && !listed(&groups.time_controls, &hdrs.time_control) {
            return Err(Reject::TimeControl);
        }
        if listed(&player.banned_string, &hdrs.white_title) || listed(
            &player.banned_string,
            &hdrs.black_title,
        ) || listed(&player.banned_string, &hdrs.white) || listed(
            &player.banned_string,
            &hdrs.black,
        ) {
            return Err(Reject::BannedTitle);
        }
        if player.required_string.len() > 0 && !listed(&player.required_string, &hdrs.white_title)
            && !listed(&player.required_string, &hdrs.black_title) {
            return Err(Reject::RequiredTitle);
        }
        if hdrs.white.as_str().is_empty() || hdrs.black.as_str().is_empty() {
            return Err(Reject::InvalidHeaders);
        }
        let w_rating: i32 = match decimal::parse_i32(hdrs.white_elo.as_str()) {
            Some(rating) => rating,
            None => return Err(Reject::InvalidHeaders),
        };
        let b_rating: i32 = match decimal::parse_i32(hdrs.black_elo.as_str()) {
            Some(rating) => rating,
            None => return Err(Reject::InvalidHeaders),
        };

        let difference: i64 = if w_rating >= b_rating {
            w_rating as i64 - b_rating as i64
        } else {
            b_rating as i64 - w_rating as i64
        };
        if difference > groups.delta as i64 {
            return Err(Reject::Delta);
        }
        let w_bracket: i64 = bracket_for(groups, w_rating);
        let b_bracket: i64 = bracket_for(groups, b_rating);
        if w_bracket != b_bracket {
            return Err(Reject::DifferentBrackets);
        }
        if w_bracket < groups.start as i64 {
            return Err(Reject::OutOfRange);
        }
        let bracket: u32 = w_bracket as u32;
        if !self.has_bracket(bracket) {
            return Err(Reject::OutOfRange);
        }
        if groups.size > 0 && self.count(bracket) >= groups.size {
            return Err(Reject::BracketFull);
        }
        if player.quota > 0 && (self.appearances(hdrs.white.as_str()) >= player.quota
            || self.appearances(hdrs.black.as_str()) >= player.quota) {
            return Err(Reject::PlayerQuota);
        }
        Ok(bracket)
    }

    /// Tells whether a bracket starts at `b`.
    fn has_bracket(&self, b: u32) -> (r: bool)
        requires
            self.wf(),
        ensures
            r == self.spec_config().groups.layout().contains(b),
    {
        let mut i: usize = 0;
        while i < self.brackets.len()
            invariant
                self.wf(),
                i <= self.brackets@.len(),
                forall|k: int| 0 <= k < i ==> self.brackets@[k] != b,
            decreases self.brackets@.len() - i,
        {
            if self.brackets[i] == b {
                assert(self.config.groups.layout()[i as int] == b);
                return true;
            }
            i += 1;
        }
        false
    }

    /// Runs every filter without side effects, or gives `None` where no verdict can be reached.
    /// Cheap header checks come first; the movetext is only scanned for games that passed all of
    /// them.
    fn judge(&self, game_buffer: &str, hdrs: &GameHeaders) -> (r: Option<Result<u32, Reject>>)
        requires
            self.wf(),
        ensures
            ({
                let game = Game { headers: hdrs@, text: game_buffer@ };
                match r {
                    Some(v) => rules::decidable(self.spec_config(), self.tally(), game) && v
                        == rules::verdict(self.spec_config(), self.tally(), game),
                    None => !rules::decidable(self.spec_config(), self.tally(), game),
                }
            }),
    {
        match self.screen(hdrs) {
            Err(filter) => Some(Err(filter)),
            Ok(bracket) => {
                let min_plies: u32 = self.config.groups.min_plies;
                if min_plies > 0 {
                    match count_game_plies(game_buffer, min_plies) {
                        None => {
                            return None;
                        },
                        Some(plies) => {
                            if plies < min_plies {
                                return Some(Err(Reject::MinPlies));
                            }
                        },
                    }
                }
                Some(Ok(bracket))
            },
        }
    }

    /// Tells whether a verdict on a game can be reached, and recorded.
    pub fn can_process(&self, game_buffer: &str, hdrs: &GameHeaders) -> (r: bool)
        requires
            self.wf(),
        ensures
            ({
                let game = Game { headers: hdrs@, text: game_buffer@ };
                r == (rules::decidable(self.spec_config(), self.tally(), game) && has_room(
                    self.spec_config(),
                    self.tally(),
                    game,
                ))
            }),
    {
        match self.judge(game_buffer, hdrs) {
            None => false,
            Some(Err(filter)) => self.rejects[filter.index()] < u64::MAX,
            Some(Ok(bracket)) => self.room_in(hdrs, bracket),
        }
    }

    /// Tells whether the counters that go up when a game is taken into a bracket can go up.
    fn room_in(&self, hdrs: &GameHeaders, bracket: u32) -> (r: bool)
        ensures
            r == can_accept(self.spec_config(), self.tally(), hdrs@, bracket),
    {
        if self.count(bracket) == u32::MAX {
            return false;
        }
        if self.config.player.quota > 0 {
            let white: u32 = self.appearances(hdrs.white.as_str());
            let black: u32 = self.appearances(hdrs.black.as_str());
            if white == u32::MAX || black == u32::MAX {
                return false;
            }
            if text::same(hdrs.white.as_str(), hdrs.black.as_str()) && white == u32::MAX - 1 {
                return false;
            }
        }
        true
    }

    /// Runs every filter without side effects. Cheap header checks come first; the movetext is
    /// only scanned for games that passed all of them.
    pub fn evaluate(&self, game_buffer: &str, hdrs: &GameHeaders) -> (r: Result<u32, Reject>)
        requires
            self.wf(),
            rules::decidable(
                self.spec_config(),
                self.tally(),
                (Game { headers: hdrs@, text: game_buffer@ }),
            ),
        ensures
            r == rules::verdict(
                self.spec_config(),
                self.tally(),
                (Game { headers: hdrs@, text: game_buffer@ }),
            ),
    {
        match self.judge(game_buffer, hdrs) {
            Some(verdict) => verdict,
            None => Err(Reject::MinPlies),
        }
    }

    /// Tells whether every bracket will have all its games once this one has been recorded.
    pub fn fills_up(&self, game_buffer: &str, hdrs: &GameHeaders) -> (r: bool)
        requires
            self.wf(),
            rules::decidable(
                self.spec_config(),
                self.tally(),
                (Game { headers: hdrs@, text: game_buffer@ }),
            ),
        ensures
            r == rules::all_full(
                self.spec_config(),
                rules::after(
                    self.spec_config(),
                    self.tally(),
                    (Game { headers: hdrs@, text: game_buffer@ }),
                ),
            ),
    {
        let ghost game = Game { headers: hdrs@, text: game_buffer@ };
        let ghost next = rules::after(self.spec_config(), self.tally(), game);
        match self.evaluate(game_buffer, hdrs) {
            Err(_) => self.all_done(),
            Ok(bracket) => {
                let size: u32 = self.config.groups.size;
                if size == 0 {
                    return false;
                }
                let mut i: usize = 0;
                while i < self.brackets.len()
                    invariant
                        self.wf(),
                        size == self.config.groups.size,
                        i <= self.brackets@.len(),
                        game == (Game { headers: hdrs@, text: game_buffer@ }),
                        next == rules::after(self.spec_config(), self.tally(), game),
                        next.counts == self.tally().counts.insert(
                            bracket,
                            self.tally().counts[bracket] + 1,
                        ),
                        forall|k: int|
                            0 <= k < i ==> next.counts[#[trigger] self.brackets@[k]] >= size,
                    decreases self.brackets@.len() - i,
                {
                    let b: u32 = self.brackets[i];
                    let n: u64 = self.count(b) as u64 + if b == bracket {
                        1
                    } else {
                        0
                    };
                    if n < size as u64 {
                        assert(self.config.groups.layout()[i as int] == self.brackets@[i as int]);
                        return false;
                    }
                    i += 1;
                }
                true
            },
        }
    }

    /// Adds one appearance of a player.
    fn see(&mut self, player: &String)
        requires
            old(self).tally().appearances[player@] < u32::MAX,
        ensures
            final(self).tally() == old(self).tally().seeing(player@),
            final(self).spec_config() == old(self).spec_config(),
            final(self).wf() == old(self).wf(),
    {
        let n: u32 = self.appearances(player.as_str());
        self.player_counts.insert(player.clone(), n + 1);
        assert(self.tally() =~= old(self).tally().seeing(player@));
    }

    /// Commits an accepted game: consumes player quota and counts it for its single bracket.
    pub fn accept(&mut self, hdrs: &GameHeaders, bracket: u32)
        requires
            old(self).wf(),
            can_accept(old(self).spec_config(), old(self).tally(), hdrs@, bracket),
        ensures
            final(self).wf(),
            final(self).spec_config() == old(self).spec_config(),
            final(self).tally() == old(self).tally().accepting(
                old(self).spec_config(),
                hdrs@,
                bracket,
            ),
    {
        if self.config.player.quota > 0 {
            self.see(&hdrs.white);
            self.see(&hdrs.black);
        }
        let ghost seen = self.tally();
        let n: u32 = self.count(bracket);
        self.current_counts.insert(bracket, n + 1);
        assert(self.tally().counts =~= seen.counts.insert(bracket, seen.counts[bracket] + 1));
        assert(self.tally().appearances =~= seen.appearances);
        assert(self.tally().rejects =~= seen.rejects);
    }

    /// Judges a game and records what becomes of it: the bracket whose sample it belongs to, or
    /// the filter that turned it down. Gives `None`, and changes nothing, where no verdict can be
    /// reached or a counter is at its end.
    pub fn try_process_game(&mut self, game_buffer: &str, hdrs: &GameHeaders) -> (r: Option<
        Result<u32, Reject>,
    >)
        requires
            old(self).wf(),
        ensures
            final(self).wf(),
            final(self).spec_config() == old(self).spec_config(),
            ({
                let config = old(self).spec_config();
                let t = old(self).tally();
                let game = Game { headers: hdrs@, text: game_buffer@ };
                &&& r is Some == (rules::decidable(config, t, game) && has_room(config, t, game))
                &&& match r {
                    Some(v) => v == rules::verdict(config, t, game) && final(self).tally()
                        == rules::after(config, t, game),
                    None => final(self).tally() == t,
                }
            }),
    {
        match self.judge(game_buffer, hdrs) {
            None => None,
            Some(Ok(bracket)) => {
                if !self.room_in(hdrs, bracket) {
                    return None;
                }
                self.accept(hdrs, bracket);
                Some(Ok(bracket))
            },
            Some(Err(filter)) => {
                let i: usize = filter.index();
                if self.rejects[i] == u64::MAX {
                    return None;
                }
                self.rejects[i] = self.rejects[i] + 1;
                assert(self.tally().rejects =~= old(self).tally().rejecting(filter).rejects);
                assert(self.tally() =~= old(self).tally().rejecting(filter));
                Some(Err(filter))
            },
        }
    }

    /// Judges a game and records what becomes of it: the bracket whose sample it belongs to, or
    /// the filter that turned it down.
    pub fn process_game(&mut self, game_buffer: &str, hdrs: &GameHeaders) -> (r: Result<
        u32,
        Reject,
    >)
        requires
            old(self).wf(),
            rules::decidable(
                old(self).spec_config(),
                old(self).tally(),
                (Game { headers: hdrs@, text: game_buffer@ }),
            ),
            has_room(
                old(self).spec_config(),
                old(self).tally(),
                (Game { headers: hdrs@, text: game_buffer@ }),
            ),
        ensures
            final(self).wf(),
            final(self).spec_config() == old(self).spec_config(),
            r == rules::verdict(
                old(self).spec_config(),
                old(self).tally(),
                (Game { headers: hdrs@, text: game_buffer@ }),
            ),
            final(self).tally() == rules::after(
                old(self).spec_config(),
                old(self).tally(),
                (Game { headers: hdrs@, text: game_buffer@ }),
            ),
    {
        match self.try_process_game(game_buffer, hdrs) {
            Some(verdict) => verdict,
            None => Err(Reject::MinPlies),
        }
    }
}

} // verus!
