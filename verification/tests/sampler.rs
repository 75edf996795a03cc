use zstdchess::config::{Config, GroupsConfig, PlayerConfig};
use zstdchess::headers::GameHeaders;
use zstdchess::reject::{label, Reject, REJECT_COUNT};
use zstdchess::sampler::Sampler;

fn strings(list: &[&str]) -> Vec<String> {
    list.iter().map(|s| s.to_string()).collect()
}

fn config() -> Config {
    Config {
        zstd_database: vec![],
        name: None,
        groups: GroupsConfig {
            events: strings(&["Rated Rapid game"]),
            time_controls: strings(&["600+0"]),
            min_plies: 2,
            start: 600,
            end: 2600,
            interval: 200,
            delta: 100,
            size: 2,
        },
        player: PlayerConfig {
            quota: 1,
            banned_string: strings(&["BOT"]),
            required_string: vec![],
        },
    }
}

fn headers(white: &str, white_elo: &str, black: &str, black_elo: &str) -> GameHeaders {
    let mut h = GameHeaders::new();
    h.set("Event", "Rated Rapid game");
    h.set("TimeControl", "600+0");
    h.set("White", white);
    h.set("WhiteElo", white_elo);
    h.set("Black", black);
    h.set("BlackElo", black_elo);
    h
}

const GAME: &str = "[Event \"x\"]\n\n1. e4 e5 2. Nf3 1-0\n";

#[test]
fn accepts_a_game_into_its_bracket() {
    let c = config();
    let mut s = Sampler::new(&c);
    let h = headers("a", "1520", "b", "1480");
    assert_eq!(s.evaluate(GAME, &h), Ok(1400));
    assert!(s.can_process(GAME, &h));
    assert_eq!(s.process_game(GAME, &h), Ok(1400));
    assert_eq!(s.count(1400), 1);
    assert_eq!(s.count(1600), 0);
    for i in 0..REJECT_COUNT {
        assert_eq!(s.rejected(i), 0);
    }
}

#[test]
fn every_filter_turns_games_down() {
    let c = config();
    let s = Sampler::new(&c);
    let good = || headers("a", "1520", "b", "1480");

    let mut h = good();
    h.set("Event", "Rated Rapid game "); // compared exactly
    assert_eq!(s.evaluate(GAME, &h), Err(Reject::Event));

    let mut h = good();
    h.set("TimeControl", "600+5");
    assert_eq!(s.evaluate(GAME, &h), Err(Reject::TimeControl));

    let mut h = good();
    h.set("BlackTitle", "BOT");
    assert_eq!(s.evaluate(GAME, &h), Err(Reject::BannedTitle));
    assert_eq!(
        s.evaluate(GAME, &headers("BOT", "1520", "b", "1480")),
        Err(Reject::BannedTitle)
    );

    for h in [
        headers("", "1520", "b", "1480"),
        headers("a", "1520", "", "1480"),
        headers("a", "?", "b", "1480"),
        headers("a", "1520", "b", ""),
        headers("a", "99999999999", "b", "1480"),
    ] {
        assert_eq!(s.evaluate(GAME, &h), Err(Reject::InvalidHeaders));
    }

    assert_eq!(
        s.evaluate(GAME, &headers("a", "1581", "b", "1480")),
        Err(Reject::Delta)
    );
    assert_eq!(
        s.evaluate(GAME, &headers("a", "1580", "b", "1480")),
        Ok(1400)
    );
    assert_eq!(
        s.evaluate(GAME, &headers("a", "1400", "b", "1399")),
        Err(Reject::DifferentBrackets)
    );
    assert_eq!(
        s.evaluate(GAME, &headers("a", "599", "b", "599")),
        Err(Reject::OutOfRange)
    );
    assert_eq!(
        s.evaluate("[Event \"x\"]\n\n1. e4 1-0\n", &good()),
        Err(Reject::MinPlies)
    );
    assert_eq!(s.evaluate("no blank line e4 e5", &good()), Err(Reject::MinPlies));
}

#[test]
fn required_titles_are_asked_of_one_player() {
    let mut c = config();
    c.player.required_string = strings(&["GM", "IM"]);
    let s = Sampler::new(&c);
    let mut h = headers("a", "1520", "b", "1480");
    assert_eq!(s.evaluate(GAME, &h), Err(Reject::RequiredTitle));
    h.set("WhiteTitle", "FM");
    assert_eq!(s.evaluate(GAME, &h), Err(Reject::RequiredTitle));
    h.set("BlackTitle", "IM");
    assert_eq!(s.evaluate(GAME, &h), Ok(1400));
}

#[test]
fn the_first_failed_filter_counts() {
    let c = config();
    let mut s = Sampler::new(&c);
    let mut h = headers("", "x", "b", "1480");
    h.set("TimeControl", "y");
    assert_eq!(s.process_game(GAME, &h), Err(Reject::TimeControl));
    assert_eq!(s.rejected(1), 1);
    h.set("Event", "z");
    assert_eq!(s.process_game(GAME, &h), Err(Reject::Event));
    assert_eq!(s.rejected(0), 1);
    assert_eq!((0..REJECT_COUNT).map(|i| s.rejected(i)).sum::<u64>(), 2);
}

#[test]
fn empty_lists_accept_anything() {
    let mut c = config();
    c.groups.events = vec![];
    c.groups.time_controls = vec![];
    let s = Sampler::new(&c);
    let mut h = headers("a", "1520", "b", "1480");
    h.set("Event", "any");
    h.set("TimeControl", "");
    assert_eq!(s.evaluate(GAME, &h), Ok(1400));
}

#[test]
fn top_ratings_go_to_the_plus_bracket() {
    let c = config();
    let s = Sampler::new(&c);
    assert_eq!(s.evaluate(GAME, &headers("a", "2600", "b", "2700")), Ok(2600));
    assert_eq!(s.evaluate(GAME, &headers("a", "3100", "b", "3150")), Ok(2600));
    assert_eq!(
        s.evaluate(GAME, &headers("a", "2599", "b", "2600")),
        Err(Reject::DifferentBrackets)
    );
}

#[test]
fn ratings_from_an_unaligned_end_on_go_to_its_bracket() {
    let mut c = config();
    c.groups.start = 2300;
    c.groups.end = 2500;
    let s = Sampler::new(&c);
    assert_eq!(s.brackets(), &vec![2300, 2500]);
    assert_eq!(s.evaluate(GAME, &headers("a", "2500", "b", "2500")), Ok(2500));
    assert_eq!(s.evaluate(GAME, &headers("a", "2599", "b", "2600")), Ok(2500));
    assert_eq!(
        s.evaluate(GAME, &headers("a", "2499", "b", "2500")),
        Err(Reject::DifferentBrackets)
    );
}

#[test]
fn without_a_bracket_at_end_ratings_go_to_multiples_up_to_end() {
    let mut c = config();
    c.groups.end = 2500;
    let s = Sampler::new(&c);
    assert_eq!(s.evaluate(GAME, &headers("a", "2450", "b", "2499")), Ok(2400));
    assert_eq!(s.evaluate(GAME, &headers("a", "2510", "b", "2520")), Ok(2400));
    assert_eq!(s.evaluate(GAME, &headers("a", "2499", "b", "2599")), Ok(2400));
    assert_eq!(
        s.evaluate(GAME, &headers("a", "2599", "b", "2600")),
        Err(Reject::DifferentBrackets)
    );
    assert_eq!(
        s.evaluate(GAME, &headers("a", "2650", "b", "2660")),
        Err(Reject::OutOfRange)
    );
}

#[test]
fn wide_intervals_are_intervals_too() {
    let mut c = config();
    c.groups.start = 0;
    c.groups.end = 2_900_000_000;
    c.groups.interval = 3_000_000_000;
    let s = Sampler::new(&c);
    assert_eq!(s.brackets(), &vec![0]);
    assert_eq!(
        s.evaluate(GAME, &headers("a", "2000000000", "b", "2000000000")),
        Ok(0)
    );
}

#[test]
fn negative_ratings_are_below_every_start() {
    let mut c = config();
    c.groups.start = 4_000_000_000;
    c.groups.interval = 1;
    c.groups.end = 4_000_000_010;
    let s = Sampler::new(&c);
    // the same 32 bits as 4000000000
    assert_eq!(
        s.evaluate(GAME, &headers("a", "-294967296", "b", "-294967296")),
        Err(Reject::OutOfRange)
    );
}

#[test]
fn ends_above_all_ratings_are_ends_too() {
    let mut c = config();
    c.groups.end = 3_000_000_000;
    c.groups.interval = 1_000_000_000;
    c.groups.start = 0;
    let s = Sampler::new(&c);
    assert_eq!(s.evaluate(GAME, &headers("a", "1500", "b", "1500")), Ok(0));
    assert_eq!(
        s.evaluate(GAME, &headers("a", "2147483647", "b", "2147483600")),
        Ok(2_000_000_000)
    );
}

#[test]
fn ratings_far_apart_are_turned_down() {
    let mut c = config();
    c.groups.delta = i32::MAX;
    let s = Sampler::new(&c);
    assert_eq!(
        s.evaluate(GAME, &headers("a", "2147483647", "b", "-2147483648")),
        Err(Reject::Delta)
    );
}

#[test]
fn negative_ratings_round_toward_zero() {
    let mut c = config();
    c.groups.start = 0;
    let s = Sampler::new(&c);
    assert_eq!(s.evaluate(GAME, &headers("a", "-50", "b", "20")), Ok(0));
    assert_eq!(
        s.evaluate(GAME, &headers("a", "-250", "b", "-200")),
        Err(Reject::OutOfRange)
    );
}

#[test]
fn brackets_fill_up() {
    let c = config();
    let mut s = Sampler::new(&c);
    for i in 0..2 {
        let h = headers(&format!("w{}", i), "1500", &format!("b{}", i), "1500");
        assert_eq!(s.process_game(GAME, &h), Ok(1400));
    }
    assert_eq!(
        s.process_game(GAME, &headers("c", "1500", "d", "1500")),
        Err(Reject::BracketFull)
    );
    assert_eq!(s.count(1400), 2);
    assert_eq!(s.rejected(8), 1);
    assert!(!s.all_done());
}

#[test]
fn players_use_up_their_quota() {
    let c = config();
    let mut s = Sampler::new(&c);
    assert_eq!(s.process_game(GAME, &headers("a", "1500", "b", "1500")), Ok(1400));
    for h in [
        headers("a", "1500", "c", "1500"),
        headers("c", "1500", "b", "1500"),
        headers("b", "1500", "a", "1500"),
    ] {
        assert_eq!(s.process_game(GAME, &h), Err(Reject::PlayerQuota));
    }
    assert_eq!(s.rejected(9), 3);
    assert_eq!(s.process_game(GAME, &headers("c", "1500", "d", "1500")), Ok(1400));
}

#[test]
fn player_against_oneself_appears_twice() {
    let mut c = config();
    c.player.quota = 2;
    let mut s = Sampler::new(&c);
    assert_eq!(s.process_game(GAME, &headers("a", "1500", "a", "1500")), Ok(1400));
    assert_eq!(
        s.process_game(GAME, &headers("a", "1500", "b", "1500")),
        Err(Reject::PlayerQuota)
    );
}

#[test]
fn quota_bounds_the_games_a_player_is_in() {
    let c = config();
    let mut s = Sampler::new(&c);
    assert_eq!(s.process_game(GAME, &headers("a", "1500", "a", "1500")), Ok(1400));
    for h in [
        headers("a", "1500", "a", "1500"),
        headers("a", "1500", "b", "1500"),
        headers("b", "1500", "a", "1500"),
    ] {
        assert_eq!(s.process_game(GAME, &h), Err(Reject::PlayerQuota));
    }
}

#[test]
fn without_limits_everything_is_taken() {
    let mut c = config();
    c.groups.size = 0;
    c.player.quota = 0;
    let mut s = Sampler::new(&c);
    for _ in 0..10 {
        assert_eq!(s.process_game(GAME, &headers("a", "1500", "b", "1500")), Ok(1400));
    }
    assert_eq!(s.count(1400), 10);
    assert!(!s.all_done());
}

#[test]
fn all_done_once_every_bracket_is_full() {
    let mut c = config();
    c.groups.start = 1400;
    c.groups.end = 1600;
    c.groups.size = 1;
    let mut s = Sampler::new(&c);
    assert_eq!(s.brackets(), &vec![1400, 1600]);
    assert!(!s.all_done());
    assert_eq!(s.process_game(GAME, &headers("a", "1500", "b", "1500")), Ok(1400));
    assert!(!s.all_done());
    let last = headers("c", "1700", "d", "1700");
    assert!(s.fills_up(GAME, &last));
    assert!(!s.fills_up(GAME, &headers("c", "1", "d", "1")));
    assert_eq!(s.process_game(GAME, &last), Ok(1600));
    assert!(s.all_done());
    assert_eq!(
        s.process_game(GAME, &headers("e", "1700", "f", "1700")),
        Err(Reject::BracketFull)
    );
}

#[test]
fn accepting_counts_the_game_and_its_players() {
    let c = config();
    let mut s = Sampler::new(&c);
    s.accept(&headers("a", "", "b", ""), 1400);
    assert_eq!(s.count(1400), 1);
    assert_eq!(
        s.evaluate(GAME, &headers("b", "1500", "z", "1500")),
        Err(Reject::PlayerQuota)
    );
    assert_eq!(s.config().player.quota, 1);
}

#[test]
fn movetext_that_cannot_be_counted_is_told() {
    let c = config();
    let s = Sampler::new(&c);
    let bad = "[Event \"x\"]\n\n1. e4 } e5\n";
    assert!(!s.can_process(bad, &headers("a", "1500", "b", "1500")));
    // a game that another filter turns down is not scanned
    assert!(s.can_process(bad, &headers("a", "1500", "b", "1700")));
    assert!(s.can_process(
        "[Event \"}\"]\n\n1. e4 e5 }\n",
        &headers("a", "1500", "b", "1500")
    ));
}

#[test]
fn filters_have_labels_in_their_order() {
    let filters = [
        (Reject::Event, "Event not accepted"),
        (Reject::TimeControl, "TimeControl not accepted"),
        (Reject::BannedTitle, "Banned title (e.g. BOT)"),
        (Reject::RequiredTitle, "Required title missing"),
        (Reject::InvalidHeaders, "Missing/invalid player or rating headers"),
        (Reject::Delta, "Rating difference > delta"),
        (Reject::DifferentBrackets, "Players in different brackets"),
        (Reject::OutOfRange, "Bracket below start"),
        (Reject::BracketFull, "Bracket already full"),
        (Reject::PlayerQuota, "Player quota exhausted"),
        (Reject::MinPlies, "Too few plies"),
    ];
    assert_eq!(filters.len(), REJECT_COUNT);
    for (i, (filter, text)) in filters.iter().enumerate() {
        assert_eq!(filter.index(), i);
        assert_eq!(label(i), *text);
    }
}

#[test]
fn every_rating_from_start_on_has_a_bracket() {
    let c = config();
    let s = Sampler::new(&c);
    for rating in 0..3200u32 {
        let elo = rating.to_string();
        let verdict = s.evaluate(GAME, &headers("a", &elo, "b", &elo));
        if rating < 600 {
            assert_eq!(verdict, Err(Reject::OutOfRange));
        } else {
            assert_eq!(verdict, Ok((rating / 200 * 200).min(2600)));
        }
    }
}

#[test]
fn stopping_at_full_brackets_misses_no_game() {
    let mut c = config();
    c.groups.start = 1400;
    c.groups.end = 1400;
    c.groups.size = 1;
    let mut s = Sampler::new(&c);
    assert_eq!(s.process_game(GAME, &headers("a", "1500", "b", "1500")), Ok(1400));
    assert!(s.all_done());
    for i in 0..20 {
        let h = headers(&format!("w{}", i), "1500", &format!("b{}", i), "1500");
        assert!(s.process_game(GAME, &h).is_err());
        assert!(s.all_done());
    }
    assert_eq!(s.count(1400), 1);
}

#[test]
fn trying_a_game_judges_it_or_changes_nothing() {
    let c = config();
    let mut s = Sampler::new(&c);
    let h = headers("a", "1500", "b", "1500");
    assert_eq!(s.try_process_game("[Event \"x\"]\n\n1. e4 } e5\n", &h), None);
    assert_eq!(s.count(1400), 0);
    for i in 0..REJECT_COUNT {
        assert_eq!(s.rejected(i), 0);
    }
    assert_eq!(s.try_process_game(GAME, &h), Some(Ok(1400)));
    assert_eq!(s.count(1400), 1);
    assert_eq!(s.try_process_game(GAME, &h), Some(Err(Reject::PlayerQuota)));
    assert_eq!(s.rejected(9), 1);
}
