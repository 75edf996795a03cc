//! Reading games off a stream of lines.
//!
//! A session is told of sources, of their lines and of their ends. It collects lines until a game
//! is complete, which is when the next game starts or the source ends, and hands the game to the
//! sampler.

use vstd::prelude::*;
use vstd::string::*;

use crate::config::Config;
use crate::headers;
use crate::headers::{GameHeaders, HeaderValues};
use crate::reject::Reject;
use crate::rules;
use crate::rules::{Game, Tally};
use crate::sampler;
use crate::sampler::Sampler;
use crate::summary;
use crate::text;

verus! {

/// How many games lie between two reports of progress.
pub const REPORT_INTERVAL: u64 = 5000;

/// How far a session has come.
#[verifier::ext_equal]
pub struct Reading {
    /// What the sampler has done.
    pub tally: Tally,
    /// The lines of the game that is being read.
    pub text: Seq<char>,
    /// The headers of that game so far.
    pub headers: HeaderValues,
    /// Whether its headers go on.
    pub in_headers: bool,
    /// How many games have been complete.
    pub games: nat,
    /// Whether every bracket was full behind one of them.
    pub complete: bool,
}

/// Whether a line, its white space at the end cut off, is the first of a game.
pub open spec fn starts_game(line: Seq<char>) -> bool {
    "[Event "@.is_prefix_of(line)
}

impl Reading {
    /// Nothing read yet.
    pub open spec fn start() -> Reading {
        Reading {
            tally: Tally::start(),
            text: Seq::empty(),
            headers: HeaderValues::none(),
            in_headers: true,
            games: 0,
            complete: false,
        }
    }

    /// The game that is being read, as it is so far.
    pub open spec fn game(self) -> Game {
        Game { headers: self.headers, text: self.text }
    }

    /// Nothing is left of earlier games: where no line of a game has been read, no header has, and
    /// headers may come.
    pub open spec fn is_tidy(self) -> bool {
        self.text.len() == 0 ==> self.headers == HeaderValues::none() && self.in_headers
    }

    /// Whether there is a game to finish, or none at all.
    pub open spec fn can_finish(self, config: Config) -> bool {
        self.text.len() > 0 ==> self.games < u64::MAX && rules::decidable(
            config,
            self.tally,
            self.game(),
        ) && sampler::has_room(config, self.tally, self.game())
    }

    /// Once the game that is being read, if there is one, has been judged.
    pub open spec fn finished(self, config: Config) -> Reading {
        if self.text.len() > 0 {
            let tally = rules::after(config, self.tally, self.game());
            Reading {
                tally,
                text: Seq::empty(),
                headers: HeaderValues::none(),
                in_headers: true,
                games: self.games + 1,
                complete: self.complete || rules::all_full(config, tally),
            }
        } else {
            self
        }
    }

    /// Whether a line can be taken into the game: if it is to be read as a header, it can be.
    pub open spec fn can_take(self, line: Seq<char>) -> bool {
        self.in_headers && "["@.is_prefix_of(line) ==> headers::is_readable(line)
    }

    /// Once a line is taken into the game. A blank line ends the headers.
    pub open spec fn taking(self, line: Seq<char>) -> Reading {
        Reading {
            text: self.text + line + "\n"@,
            headers: if self.in_headers && "["@.is_prefix_of(line) {
                self.headers.after_line(line)
            } else {
                self.headers
            },
            in_headers: self.in_headers && line.len() > 0,
            ..self
        }
    }

    /// Whether a line can be dealt with.
    pub open spec fn can_read(self, config: Config, raw: Seq<char>) -> bool {
        let line = text::trimmed(raw);
        if starts_game(line) {
            self.can_finish(config) && (self.finished(config).complete || self.finished(
                config,
            ).can_take(line))
        } else {
            self.can_take(line)
        }
    }

    /// Once a line has been dealt with. If every bracket is full behind the game before it, the
    /// line is not needed any more.
    pub open spec fn after_line(self, config: Config, raw: Seq<char>) -> Reading {
        let line = text::trimmed(raw);
        if starts_game(line) {
            if self.finished(config).complete {
                self.finished(config)
            } else {
                self.finished(config).taking(line)
            }
        } else {
            self.taking(line)
        }
    }

    /// Once the next source is read.
    pub open spec fn at_source(self) -> Reading {
        Reading { in_headers: true, ..self }
    }
}

/// A game that has been read to its end and judged.
pub struct FinishedGame {
    /// The bracket whose sample it belongs to, or the filter that turned it down.
    pub verdict: Result<u32, Reject>,
    /// Its number among the games read, from one on.
    pub number: u64,
}

/// `finished` is what came of the game that `before` was reading.
pub open spec fn is_outcome(config: Config, before: Reading, finished: FinishedGame) -> bool {
    &&& finished.verdict == rules::verdict(config, before.tally, before.game())
    &&& finished.number == before.games + 1
}

/// A run over the lines of any number of sources.
pub struct Session<'a> {
    sampler: Sampler<'a>,
    current_game: String,
    headers: GameHeaders,
    in_headers: bool,
    games_processed: u64,
    complete: bool,
}

impl<'a> View for Session<'a> {
    type V = Reading;

    closed spec fn view(&self) -> Reading {
        Reading {
            tally: self.sampler.tally(),
            text: self.current_game@,
            headers: self.headers@,
            in_headers: self.in_headers,
            games: self.games_processed as nat,
            complete: self.complete,
        }
    }
}

impl<'a> Session<'a> {
    /// No more games have been turned down than have been read.
    pub closed spec fn wf(&self) -> bool {
        &&& self.sampler.wf()
        &&& rules::sum(self.sampler.tally().rejects) <= self.games_processed
    }

    /// The configuration that the session goes by.
    pub closed spec fn spec_config(&self) -> Config {
        self.sampler.spec_config()
    }

    /// The sampler that games are handed to.
    pub closed spec fn spec_sampler(&self) -> Sampler<'a> {
        self.sampler
    }

    /// A session that has read nothing yet.
    pub fn new(config: &'a Config) -> (r: Session<'a>)
        requires
            config.groups.layout_fits(),
        ensures
            r.wf(),
            r.spec_config() == *config,
            r@ == Reading::start(),
    {
        proof {
            rules::lemma_sum_zero(Tally::start().rejects);
        }
        Session {
            sampler: Sampler::new(config),
            current_game: String::new(),
            headers: GameHeaders::new(),
            in_headers: true,
            games_processed: 0,
            complete: false,
        }
    }

    /// The sampler that games are handed to.
    pub fn sampler(&self) -> (r: &Sampler<'a>)
        requires
            self.wf(),
        ensures
            *r == self.spec_sampler(),
            r.wf(),
            r.tally() == self@.tally,
            r.spec_config() == self.spec_config(),
    {
        &self.sampler
    }

    /// How many games have been read to their end.
    pub fn games_processed(&self) -> (r: u64)
        ensures
            r == self@.games,
    {
        self.games_processed
    }

    /// Tells whether every bracket has all its games, so that nothing more need be read.
    pub fn is_complete(&self) -> (r: bool)
        ensures
            r == self@.complete,
    {
        self.complete
    }

    /// Writes the report on the session.
    pub fn summary(&self, base_out: &str) -> (r: String)
        requires
            self.wf(),
        ensures
            r@ == summary::report(
                self.spec_config(),
                self@.tally,
                base_out@,
                self.spec_config().groups.spec_step() as nat,
                self@.games,
                self@.complete,
                summary::debug_list(text::views(self.spec_config().groups.events@)),
                summary::debug_list(text::views(self.spec_config().groups.time_controls@)),
            ),
    {
        proof {
            self.sampler.lemma_layout_fits();
            summary::laid_out_brackets_have_files(self.spec_config().groups);
        }
        summary::build_summary(
            &self.sampler,
            base_out,
            self.sampler.config().groups.step(),
            self.games_processed,
            self.complete,
        )
    }

    /// Goes over to the next source. A game that has been begun goes on.
    pub fn start_source(&mut self)
        requires
            old(self).wf(),
        ensures
            final(self).wf(),
            final(self).spec_config() == old(self).spec_config(),
            final(self)@ == old(self)@.at_source(),
    {
        self.in_headers = true;
    }

    /// Tells whether the game that is being read can be judged now.
    pub fn can_finish(&self) -> (r: bool)
        requires
            self.wf(),
        ensures
            r == self@.can_finish(self.spec_config()),
    {
        self.current_game.as_str().is_empty() || (self.games_processed < u64::MAX
            && self.sampler.can_process(self.current_game.as_str(), &self.headers))
    }

    /// Judges the game that is being read, if there is one: it is complete. Its lines are put into
    /// `game_text`, whose buffer takes the lines of the next game.
    pub fn finish(&mut self, game_text: &mut String) -> (r: Option<FinishedGame>)
        requires
            old(self).wf(),
            old(self)@.can_finish(old(self).spec_config()),
        ensures
            final(self).wf(),
            final(self).spec_config() == old(self).spec_config(),
            final(self)@ == old(self)@.finished(old(self).spec_config()),
            match r {
                Some(finished) => old(self)@.text.len() > 0 && is_outcome(
                    old(self).spec_config(),
                    old(self)@,
                    finished,
                ),
                None => old(self)@.text.len() == 0,
            },
            final(game_text)@ == (if r is Some {
                old(self)@.text
            } else {
                old(game_text)@
            }),
    {
        match self.try_finish(game_text) {
            Some(finished) => finished,
            None => None,
        }
    }

    /// Judges the game that is being read, if there is one, as `finish` does; or gives `None`, and
    /// changes nothing, where that cannot be done.
    pub fn try_finish(&mut self, game_text: &mut String) -> (r: Option<Option<FinishedGame>>)
        requires
            old(self).wf(),
        ensures
            final(self).wf(),
            final(self).spec_config() == old(self).spec_config(),
            r is Some == old(self)@.can_finish(old(self).spec_config()),
            final(self)@ == (if r is Some {
                old(self)@.finished(old(self).spec_config())
            } else {
                old(self)@
            }),
            match r {
                Some(Some(finished)) => old(self)@.text.len() > 0 && is_outcome(
                    old(self).spec_config(),
                    old(self)@,
                    finished,
                ),
                Some(None) => old(self)@.text.len() == 0,
                None => true,
            },
            final(game_text)@ == (if r matches Some(Some(_)) {
                old(self)@.text
            } else {
                old(game_text)@
            }),
    {
        if self.current_game.as_str().is_empty() {
            return Some(None);
        }
        if self.games_processed == u64::MAX {
            return None;
        }
        proof {
            self.sampler.lemma_reject_count();
            let t = self.sampler.tally();
            let game = self@.game();
            if let Err(filter) = rules::verdict(self.spec_config(), t, game) {
                rules::lemma_sum_update(t.rejects, filter.rank());
            }
        }
        match self.sampler.try_process_game(self.current_game.as_str(), &self.headers) {
            None => None,
            Some(verdict) => {
                self.games_processed = self.games_processed + 1;
                core::mem::swap(game_text, &mut self.current_game);
                self.current_game.clear();
                self.headers.clear();
                self.in_headers = true;
                if self.sampler.all_done() {
                    self.complete = true;
                }
                Some(Some(FinishedGame { verdict, number: self.games_processed }))
            },
        }
    }

    /// Tells whether a line of the source can be read.
    pub fn can_read(&self, raw: &str) -> (r: bool)
        requires
            self.wf(),
        ensures
            r == self@.can_read(self.spec_config(), raw@),
    {
        let line = text::trim_end(raw);
        let bracket = text::starts_with(line, "[");
        if text::starts_with(line, "[Event ") {
            if !self.can_finish() {
                return false;
            }
            proof {
                reveal_strlit("[");
                reveal_strlit("[Event ");
                assert(line@[0] == "[Event "@[0]);
            }
            if self.complete {
                true
            } else if self.current_game.as_str().is_empty() {
                !self.in_headers || headers::can_parse_header(line)
            } else {
                headers::can_parse_header(line) || self.sampler.fills_up(
                    self.current_game.as_str(),
                    &self.headers,
                )
            }
        } else {
            !(self.in_headers && bracket) || headers::can_parse_header(line)
        }
    }

    /// Reads a line of the source, and judges the game before it if the line starts the next one;
    /// the lines of that game are put into `game_text`.
    pub fn read_line(&mut self, raw: &str, game_text: &mut String) -> (r: Option<FinishedGame>)
        requires
            old(self).wf(),
            !old(self)@.complete,
            old(self)@.can_read(old(self).spec_config(), raw@),
        ensures
            final(self).wf(),
            final(self).spec_config() == old(self).spec_config(),
            final(self)@ == old(self)@.after_line(old(self).spec_config(), raw@),
            match r {
                Some(finished) => starts_game(text::trimmed(raw@)) && old(self)@.text.len() > 0
                    && is_outcome(old(self).spec_config(), old(self)@, finished),
                None => !(starts_game(text::trimmed(raw@)) && old(self)@.text.len() > 0),
            },
            final(game_text)@ == (if r is Some {
                old(self)@.text
            } else {
                old(game_text)@
            }),
    {
        match self.try_read_line(raw, game_text) {
            Some(finished) => finished,
            None => None,
        }
    }

    /// Reads a line of the source as `read_line` does; or gives `None`, and changes nothing, where
    /// the line cannot be read or nothing more is to be read.
    pub fn try_read_line(&mut self, raw: &str, game_text: &mut String) -> (r: Option<
        Option<FinishedGame>,
    >)
        requires
            old(self).wf(),
        ensures
            final(self).wf(),
            final(self).spec_config() == old(self).spec_config(),
            r is Some == (!old(self)@.complete && old(self)@.can_read(
                old(self).spec_config(),
                raw@,
            )),
            final(self)@ == (if r is Some {
                old(self)@.after_line(old(self).spec_config(), raw@)
            } else {
                old(self)@
            }),
            match r {
                Some(Some(finished)) => starts_game(text::trimmed(raw@)) && old(self)@.text.len()
                    > 0 && is_outcome(old(self).spec_config(), old(self)@, finished),
                Some(None) => !(starts_game(text::trimmed(raw@)) && old(self)@.text.len() > 0),
                None => true,
            },
            final(game_text)@ == (if r matches Some(Some(_)) {
                old(self)@.text
            } else {
                old(game_text)@
            }),
    {
        if self.complete {
            return None;
        }
        let line = text::trim_end(raw);
        let mut finished: Option<FinishedGame> = None;
        if text::starts_with(line, "[Event ") {
            proof {
                reveal_strlit("[");
                reveal_strlit("[Event ");
                assert(line@[0] == "[Event "@[0]);
            }
            if !headers::can_parse_header(line) {
                // the line must not be needed: as a header, or at all
                if self.current_game.as_str().is_empty() {
                    if self.in_headers {
                        return None;
                    }
                } else if !self.can_finish() || !self.sampler.fills_up(
                    self.current_game.as_str(),
                    &self.headers,
                ) {
                    return None;
                }
            }
            match self.try_finish(game_text) {
                Some(game) => {
                    finished = game;
                },
                None => {
                    return None;
                },
            }
            if self.complete {
                return Some(finished);
            }
        } else if self.in_headers && text::starts_with(line, "[") && !headers::can_parse_header(
            line,
        ) {
            return None;
        }
        self.take_line(line);
        Some(finished)
    }

    /// Takes a line into the game that is being read.
    fn take_line(&mut self, line: &str)
        requires
            old(self).wf(),
            old(self)@.can_take(line@),
        ensures
            final(self).wf(),
            final(self).spec_config() == old(self).spec_config(),
            final(self)@ == old(self)@.taking(line@),
    {
        if self.in_headers {
            if line.is_empty() {
                self.in_headers = false;
                proof {
                    reveal_strlit("[");
                }
            } else if text::starts_with(line, "[") {
                self.headers.read_line(line);
            }
        }
        self.current_game.append(line);
        self.current_game.append("\n");
    }
}

/// Tells whether progress is to be reported behind game number `number`.
pub fn report_due(number: u64) -> (r: bool)
    ensures
        r == (number as int % 5000 == 0),
{
    number % REPORT_INTERVAL == 0
}

/// What a session is told.
pub enum Event {
    /// The next source is read.
    Source,
    /// A line of the source, as it was read.
    Line(Seq<char>),
    /// The source has ended.
    End,
}

/// Whether an event makes the game that is being read complete.
pub open spec fn completes_game(e: Event) -> bool {
    match e {
        Event::Source => false,
        Event::Line(raw) => starts_game(text::trimmed(raw)),
        Event::End => true,
    }
}

/// Once all of `events` have happened. Where every bracket is full, nothing more is read.
pub open spec fn read_all(config: Config, s: Reading, events: Seq<Event>) -> Reading
    decreases events.len(),
{
    if events.len() == 0 {
        s
    } else {
        let before = read_all(config, s, events.drop_last());
        if before.complete {
            before
        } else {
            match events.last() {
                Event::Source => before.at_source(),
                Event::Line(raw) => before.after_line(config, raw),
                Event::End => before.finished(config),
            }
        }
    }
}

/// The games that are read in the course of `events`, from the start on.
pub open spec fn games_read(config: Config, events: Seq<Event>) -> Seq<Game>
    decreases events.len(),
{
    if events.len() == 0 {
        Seq::empty()
    } else {
        let before = read_all(config, Reading::start(), events.drop_last());
        let games = games_read(config, events.drop_last());
        if !before.complete && completes_game(events.last()) && before.text.len() > 0 {
            games.push(before.game())
        } else {
            games
        }
    }
}

/// The games that are handed out for a bracket in the course of `events`, each with its bracket.
pub open spec fn handed_out(config: Config, events: Seq<Event>) -> Seq<(u32, Game)>
    decreases events.len(),
{
    if events.len() == 0 {
        Seq::empty()
    } else {
        let before = read_all(config, Reading::start(), events.drop_last());
        let out = handed_out(config, events.drop_last());
        if !before.complete && completes_game(events.last()) && before.text.len() > 0 {
            match rules::verdict(config, before.tally, before.game()) {
                Ok(b) => out.push((b, before.game())),
                Err(_) => out,
            }
        } else {
            out
        }
    }
}

/// Lines as a source holds them, as events.
pub open spec fn line_events(lines: Seq<Seq<char>>) -> Seq<Event> {
    Seq::new(lines.len(), |i: int| Event::Line(lines[i]))
}

/// The lines of a game in the sample: each without the white space at its end, and with a line
/// feed instead.
pub open spec fn collected(lines: Seq<Seq<char>>) -> Seq<char>
    decreases lines.len(),
{
    if lines.len() == 0 {
        Seq::empty()
    } else {
        collected(lines.drop_last()) + text::trimmed(lines.last()) + "\n"@
    }
}

/// A session judges the games that it reads by the rules, one after the other and across all its
/// sources, and knows that it is complete just when every bracket is full behind a game.
pub proof fn session_samples_the_games_it_reads(config: Config, events: Seq<Event>)
    ensures
        ({
            let s = read_all(config, Reading::start(), events);
            let games = games_read(config, events);
            &&& s.tally == rules::after_all(config, Tally::start(), games)
            &&& s.games == games.len()
            &&& s.complete == (games.len() > 0 && rules::all_full(config, s.tally))
        }),
    decreases events.len(),
{
    if events.len() > 0 {
        session_samples_the_games_it_reads(config, events.drop_last());
        let before = games_read(config, events.drop_last());
        let now = games_read(config, events);
        if now.len() > before.len() {
            assert(now.drop_last() =~= before);
        }
    }
}

/// The games that a session hands out for the brackets are the sample of the games it reads.
pub proof fn sample_is_handed_out(config: Config, events: Seq<Event>)
    ensures
        handed_out(config, events) == rules::sample(config, games_read(config, events)),
    decreases events.len(),
{
    if events.len() > 0 {
        sample_is_handed_out(config, events.drop_last());
        session_samples_the_games_it_reads(config, events.drop_last());
        let before = games_read(config, events.drop_last());
        let now = games_read(config, events);
        if now.len() > before.len() {
            assert(now.drop_last() =~= before);
        }
    }
}

/// Lines that start no game are collected, and nothing is judged.
pub proof fn lines_are_collected(config: Config, s: Reading, lines: Seq<Seq<char>>)
    requires
        !s.complete,
        forall|i: int| 0 <= i < lines.len() ==> !starts_game(text::trimmed(#[trigger] lines[i])),
    ensures
        ({
            let after = read_all(config, s, line_events(lines));
            &&& after.text == s.text + collected(lines)
            &&& after.tally == s.tally
            &&& after.games == s.games
            &&& !after.complete
        }),
    decreases lines.len(),
{
    let events = line_events(lines);
    if lines.len() == 0 {
        assert(s.text + collected(lines) =~= s.text);
    } else {
        let front = lines.drop_last();
        assert forall|i: int| 0 <= i < front.len() implies !starts_game(
            text::trimmed(#[trigger] front[i]),
        ) by {
            assert(front[i] == lines[i]);
        }
        lines_are_collected(config, s, front);
        assert(events.drop_last() =~= line_events(front));
        assert(events.last() == Event::Line(lines.last()));
        assert(!starts_game(text::trimmed(lines[lines.len() - 1])));
        assert(s.text + collected(front) + text::trimmed(lines.last()) + "\n"@ =~= s.text
            + collected(lines));
    }
}

/// The text of a game is its lines, from its Event line to its end.
pub proof fn game_text_is_its_lines(
    config: Config,
    s: Reading,
    first: Seq<char>,
    rest: Seq<Seq<char>>,
)
    requires
        !s.complete,
        !s.finished(config).complete,
        starts_game(text::trimmed(first)),
        forall|i: int| 0 <= i < rest.len() ==> !starts_game(text::trimmed(#[trigger] rest[i])),
    ensures
        read_all(config, s.after_line(config, first), line_events(rest)).text == collected(
            seq![first] + rest,
        ),
{
    let t = s.after_line(config, first);
    lines_are_collected(config, t, rest);
    lemma_collected(first, rest);
    assert(s.finished(config).text.len() == 0);
    assert(t.text =~= text::trimmed(first) + "\n"@);
}

proof fn lemma_collected(first: Seq<char>, rest: Seq<Seq<char>>)
    ensures
        collected(seq![first] + rest) == text::trimmed(first) + "\n"@ + collected(rest),
    decreases rest.len(),
{
    let lines = seq![first] + rest;
    if rest.len() == 0 {
        assert(lines.drop_last() =~= Seq::<Seq<char>>::empty());
        assert(collected(lines.drop_last()) =~= Seq::<char>::empty());
        assert(collected(lines) =~= text::trimmed(first) + "\n"@ + collected(rest));
    } else {
        lemma_collected(first, rest.drop_last());
        assert(lines.drop_last() =~= seq![first] + rest.drop_last());
        assert(collected(lines) =~= text::trimmed(first) + "\n"@ + collected(rest));
    }
}

/// Nothing is ever left of a game that has been judged.
pub proof fn judged_games_leave_nothing(config: Config, events: Seq<Event>)
    ensures
        read_all(config, Reading::start(), events).is_tidy(),
    decreases events.len(),
{
    if events.len() > 0 {
        judged_games_leave_nothing(config, events.drop_last());
        reveal_strlit("\n");
    }
}

/// A game, its headers included, is read off its own lines: it is the same whatever was read
/// before it.
pub proof fn games_are_read_alone(
    config: Config,
    s1: Reading,
    s2: Reading,
    first: Seq<char>,
    rest: Seq<Seq<char>>,
)
    requires
        s1.is_tidy(),
        s2.is_tidy(),
        !s1.finished(config).complete,
        !s2.finished(config).complete,
        starts_game(text::trimmed(first)),
        forall|i: int| 0 <= i < rest.len() ==> !starts_game(text::trimmed(#[trigger] rest[i])),
    ensures
        read_all(config, s1.after_line(config, first), line_events(rest)).game() == read_all(
            config,
            s2.after_line(config, first),
            line_events(rest),
        ).game(),
{
    let t1 = s1.after_line(config, first);
    let t2 = s2.after_line(config, first);
    assert(s1.finished(config).text =~= s2.finished(config).text);
    assert(t1.text == t2.text);
    lemma_read_alike(config, t1, t2, rest);
}

proof fn lemma_read_alike(config: Config, s1: Reading, s2: Reading, lines: Seq<Seq<char>>)
    requires
        !s1.complete,
        !s2.complete,
        s1.game() == s2.game(),
        s1.in_headers == s2.in_headers,
        forall|i: int| 0 <= i < lines.len() ==> !starts_game(text::trimmed(#[trigger] lines[i])),
    ensures
        ({
            let t1 = read_all(config, s1, line_events(lines));
            let t2 = read_all(config, s2, line_events(lines));
            t1.game() == t2.game() && t1.in_headers == t2.in_headers
        }),
    decreases lines.len(),
{
    if lines.len() > 0 {
        let events = line_events(lines);
        let front = lines.drop_last();
        assert forall|i: int| 0 <= i < front.len() implies !starts_game(
            text::trimmed(#[trigger] front[i]),
        ) by {
            assert(front[i] == lines[i]);
        }
        lemma_read_alike(config, s1, s2, front);
        lines_are_collected(config, s1, front);
        lines_are_collected(config, s2, front);
        assert(events.drop_last() =~= line_events(front));
        assert(events.last() == Event::Line(lines.last()));
        assert(!starts_game(text::trimmed(lines[lines.len() - 1])));
    }
}

/// Behind the blank line that ends the headers of a game, no line is read as a header.
pub proof fn movetext_lines_are_no_headers(s: Reading, line: Seq<char>)
    ensures
        !s.taking(Seq::empty()).in_headers,
        !s.in_headers ==> s.taking(line).headers == s.headers && !s.taking(line).in_headers
            && s.can_take(line),
{
}

/// Going over to another source keeps the tally, and with it sizes and quotas; headers may come.
pub proof fn tally_carries_over(s: Reading)
    ensures
        s.at_source().tally == s.tally,
        s.at_source().text == s.text,
        s.at_source().headers == s.headers,
        s.at_source().games == s.games,
        s.at_source().complete == s.complete,
        s.at_source().in_headers,
{
}

/// A game starts at a line that begins with `[Event `, and at no other.
pub proof fn games_start_at_event_lines(line: Seq<char>, rest: Seq<char>)
    ensures
        starts_game(seq!['[', 'E', 'v', 'e', 'n', 't', ' '] + rest),
        starts_game(line) ==> line.len() >= 7 && line.take(7) == seq![
            '[',
            'E',
            'v',
            'e',
            'n',
            't',
            ' ',
        ],
{
    let head = seq!['[', 'E', 'v', 'e', 'n', 't', ' '];
    reveal_strlit("[Event ");
    assert("[Event "@ =~= head);
    assert((head + rest).subrange(0, 7) =~= head);
    if starts_game(line) {
        assert(line.take(7) =~= line.subrange(0, 7));
    }
}

/// The Event line of a game sets its event and leaves every other header empty, and is the first of
/// its lines.
pub proof fn event_line_begins_a_game(config: Config, s: Reading, raw: Seq<char>, value: Seq<char>)
    requires
        s.is_tidy(),
        !s.finished(config).complete,
        text::trimmed(raw) == seq!['[', 'E', 'v', 'e', 'n', 't'] + seq![' ', '"'] + value + seq![
            '"',
            ']',
        ],
    ensures
        ({
            let after = s.after_line(config, raw);
            &&& after.headers.event == value
            &&& after.headers.time_control.len() == 0
            &&& after.headers.white_title.len() == 0
            &&& after.headers.black_title.len() == 0
            &&& after.headers.white.len() == 0
            &&& after.headers.black.len() == 0
            &&& after.headers.white_elo.len() == 0
            &&& after.headers.black_elo.len() == 0
            &&& after.text == text::trimmed(raw) + seq!['\n']
            &&& after.in_headers
            &&& after.games == s.games + if s.text.len() > 0 {
                1nat
            } else {
                0nat
            }
        }),
{
    let line = text::trimmed(raw);
    let key = seq!['E', 'v', 'e', 'n', 't'];
    let fresh = s.finished(config);
    reveal_strlit("[");
    reveal_strlit("\n");
    reveal_strlit("Event");
    reveal_strlit("TimeControl");
    reveal_strlit("WhiteTitle");
    reveal_strlit("BlackTitle");
    reveal_strlit("White");
    reveal_strlit("Black");
    reveal_strlit("WhiteElo");
    reveal_strlit("BlackElo");
    assert("Event"@ =~= key);
    assert(line =~= seq!['['] + key + seq![' ', '"'] + value + seq!['"', ']']);
    assert(line =~= seq!['[', 'E', 'v', 'e', 'n', 't', ' '] + (seq!['"'] + value + seq!['"', ']']));
    games_start_at_event_lines(line, seq!['"'] + value + seq!['"', ']']);
    assert("["@ =~= line.subrange(0, 1));
    assert(!key.contains(' '));
    headers::tag_pair_sets_its_header(fresh.headers, '[', key, value);
    assert("TimeControl"@.len() == 11 && "White"@[0] == 'W' && "Black"@[0] == 'B');
    assert("WhiteTitle"@.len() == 10 && "BlackTitle"@.len() == 10);
    assert("WhiteElo"@.len() == 8 && "BlackElo"@.len() == 8);
    assert(key[0] == 'E' && key.len() == 5);
    assert("\n"@ =~= seq!['\n']);
    assert(s.after_line(config, raw).text =~= line + seq!['\n']);
}

/// Among the headers of a game, a tag pair sets the header that its key names to its value and
/// leaves the other seven as they were. Nothing is judged.
pub proof fn header_line_sets_its_header(
    config: Config,
    s: Reading,
    raw: Seq<char>,
    key: Seq<char>,
    value: Seq<char>,
)
    requires
        s.in_headers,
        !key.contains(' '),
        key != "Event"@,
        text::trimmed(raw) == seq!['['] + key + seq![' ', '"'] + value + seq!['"', ']'],
    ensures
        ({
            let after = s.after_line(config, raw);
            &&& after.headers.event == (if key == "Event"@ {
                value
            } else {
                s.headers.event
            })
            &&& after.headers.time_control == (if key == "TimeControl"@ {
                value
            } else {
                s.headers.time_control
            })
            &&& after.headers.white_title == (if key == "WhiteTitle"@ {
                value
            } else {
                s.headers.white_title
            })
            &&& after.headers.black_title == (if key == "BlackTitle"@ {
                value
            } else {
                s.headers.black_title
            })
            &&& after.headers.white == (if key == "White"@ {
                value
            } else {
                s.headers.white
            })
            &&& after.headers.black == (if key == "Black"@ {
                value
            } else {
                s.headers.black
            })
            &&& after.headers.white_elo == (if key == "WhiteElo"@ {
                value
            } else {
                s.headers.white_elo
            })
            &&& after.headers.black_elo == (if key == "BlackElo"@ {
                value
            } else {
                s.headers.black_elo
            })
            &&& after.text == s.text + text::trimmed(raw) + seq!['\n']
            &&& after.in_headers
            &&& after.tally == s.tally
            &&& after.games == s.games
            &&& after.complete == s.complete
        }),
{
    let line = text::trimmed(raw);
    reveal_strlit("[");
    reveal_strlit("\n");
    reveal_strlit("Event");
    if starts_game(line) {
        games_start_at_event_lines(line, Seq::empty());
        let head = line.take(7);
        assert(head[1] == 'E' && head[2] == 'v' && head[3] == 'e' && head[4] == 'n' && head[5]
            == 't' && head[6] == ' ');
        assert(forall|k: int| 0 <= k < 7 ==> #[trigger] line[k] == head[k]);
        let n = key.len() as int;
        assert(line[n + 1] == ' ' && line[n + 2] == '"');
        if n > 5 {
            assert(line[6] == key[5]);
        } else if n < 5 {
            assert(line[n + 1] == head[n + 1]);
        }
        assert(forall|k: int| 0 <= k < n ==> #[trigger] key[k] == line[k + 1]);
        assert(key =~= "Event"@);
    }
    assert("["@ =~= line.subrange(0, 1));
    headers::tag_pair_sets_its_header(s.headers, '[', key, value);
    assert("\n"@ =~= seq!['\n']);
    assert(s.after_line(config, raw).text =~= s.text + line + seq!['\n']);
}

/// A blank line ends the headers of a game and is one of its lines; no other line ends them.
pub proof fn blank_line_ends_the_headers(config: Config, s: Reading, raw: Seq<char>)
    requires
        !starts_game(text::trimmed(raw)),
    ensures
        ({
            let after = s.after_line(config, raw);
            &&& text::trimmed(raw).len() == 0 ==> !after.in_headers && after.headers == s.headers
            &&& text::trimmed(raw).len() > 0 ==> after.in_headers == s.in_headers
            &&& !s.in_headers ==> !after.in_headers && after.headers == s.headers
            &&& text::trimmed(raw).len() > 0 && text::trimmed(raw)[0] != '[' ==> after.headers
                == s.headers
            &&& after.text == s.text + text::trimmed(raw) + seq!['\n']
            &&& after.tally == s.tally
            &&& after.games == s.games
            &&& after.complete == s.complete
        }),
{
    let line = text::trimmed(raw);
    reveal_strlit("[");
    reveal_strlit("\n");
    assert("\n"@ =~= seq!['\n']);
    if "["@.is_prefix_of(line) {
        assert(line.subrange(0, 1)[0] == '[');
    }
}

/// When a game is complete it is judged by its headers and its lines, counted, and forgotten; where
/// there is none, nothing happens.
pub proof fn complete_game_is_judged(config: Config, s: Reading)
    ensures
        ({
            let after = s.finished(config);
            &&& s.text.len() == 0 ==> after == s
            &&& s.text.len() > 0 ==> {
                &&& after.tally == rules::after(
                    config,
                    s.tally,
                    (Game { headers: s.headers, text: s.text }),
                )
                &&& after.games == s.games + 1
                &&& after.text.len() == 0
                &&& after.headers == HeaderValues::none()
                &&& after.in_headers
                &&& after.complete == (s.complete || rules::all_full(config, after.tally))
            }
        }),
{
}

/// The outcome that is handed out is the verdict on the game under the tally before it, and the
/// number of the game.
pub proof fn outcome_is_the_verdict(config: Config, before: Reading, finished: FinishedGame)
    requires
        is_outcome(config, before, finished),
    ensures
        finished.verdict == rules::verdict(
            config,
            before.tally,
            (Game { headers: before.headers, text: before.text }),
        ),
        finished.number == before.games + 1,
{
}

/// The Event line of the next game is not taken where every bracket is full behind the one before.
pub proof fn full_session_takes_no_line(config: Config, s: Reading, raw: Seq<char>)
    requires
        starts_game(text::trimmed(raw)),
        s.finished(config).complete,
    ensures
        s.after_line(config, raw) == s.finished(config),
        s.can_finish(config) ==> s.can_read(config, raw),
{
}

/// Every line that starts no game can be read, unless it stands among headers, starts with `[`, and
/// is not readable; one that starts a game can be if the game before it can be judged and it is
/// readable.
pub proof fn ordinary_lines_can_be_read(config: Config, s: Reading, raw: Seq<char>)
    ensures
        !starts_game(text::trimmed(raw)) && (!s.in_headers || text::trimmed(raw).len() == 0
            || text::trimmed(raw)[0] != '[' || headers::is_readable(text::trimmed(raw)))
            ==> s.can_read(config, raw),
        starts_game(text::trimmed(raw)) && s.can_finish(config) && headers::is_readable(
            text::trimmed(raw),
        ) ==> s.can_read(config, raw),
        starts_game(text::trimmed(raw)) && !s.can_finish(config) ==> !s.can_read(config, raw),
{
    let line = text::trimmed(raw);
    reveal_strlit("[");
    if "["@.is_prefix_of(line) {
        assert(line.subrange(0, 1)[0] == '[');
    }
}

/// A game can be judged where its plies can be counted and no counter is near its end.
pub proof fn ordinary_games_can_be_judged(config: Config, s: Reading)
    requires
        s.games < u64::MAX,
        config.groups.min_plies == 0 || rules::decidable(config, s.tally, s.game()),
        s.tally.rejects.len() == crate::reject::REJECT_COUNT,
        forall|b: u32| #[trigger] s.tally.counts[b] < u32::MAX,
        forall|p: Seq<char>| #[trigger] s.tally.appearances[p] < u32::MAX - 1,
        forall|k: int| 0 <= k < s.tally.rejects.len() ==> #[trigger] s.tally.rejects[k] < u64::MAX,
    ensures
        s.can_finish(config),
{
    let game = s.game();
    match rules::verdict(config, s.tally, game) {
        Ok(b) => {
            let next = s.tally.accepting(config, game.headers, b);
            let seen = s.tally.seeing(game.headers.white).seeing(game.headers.black);
            assert(s.tally.counts[b] < u32::MAX);
            assert(next.counts[b] == s.tally.counts[b] + 1);
            assert(s.tally.appearances[game.headers.white] < u32::MAX - 1);
            assert(s.tally.appearances[game.headers.black] < u32::MAX - 1);
            if config.player.quota > 0 {
                assert(next.appearances == seen.appearances);
            }
        },
        Err(filter) => {
            assert(0 <= filter.rank() < crate::reject::REJECT_COUNT);
        },
    }
}

} // verus!
