use zstdchess::config::{Config, GroupsConfig, PlayerConfig};
use zstdchess::reject::Reject;
use zstdchess::session::{report_due, FinishedGame, Session};
use zstdchess::summary::{build_summary, summary_text, total_rejected};

fn config(size: u32) -> Config {
    Config {
        zstd_database: vec!["a.zst".to_string(), "https://b".to_string()],
        name: None,
        groups: GroupsConfig {
            events: vec!["Rated \"Rapid\" game".to_string(), "é".to_string()],
            time_controls: vec![],
            min_plies: 2,
            start: 1400,
            end: 1600,
            interval: 200,
            delta: -1,
            size,
        },
        player: PlayerConfig {
            quota: 1,
            banned_string: vec![],
            required_string: vec![],
        },
    }
}

fn open_config(size: u32) -> Config {
    let mut c = config(size);
    c.groups.events = vec![];
    c.groups.delta = 100;
    c
}

fn game(white: &str, black: &str, elo: u32) -> Vec<String> {
    vec![
        "[Event \"Rated Rapid game\"]\n".to_string(),
        format!("[White \"{}\"]\r\n", white),
        format!("[Black \"{}\"]\n", black),
        format!("[WhiteElo \"{}\"]\n", elo),
        format!("[BlackElo \"{}\"]\n", elo),
        "\n".to_string(),
        "1. e4 e5 1-0  \n".to_string(),
        "\n".to_string(),
    ]
}

fn text_of(lines: &[String]) -> String {
    lines.iter().map(|l| format!("{}\n", l.trim_end())).collect()
}

fn feed(s: &mut Session, lines: &[String]) -> Vec<(FinishedGame, String)> {
    let mut finished = vec![];
    let mut text = "kept".to_string();
    for line in lines {
        assert!(s.can_read(line));
        if let Some(g) = s.read_line(line, &mut text) {
            finished.push((g, text.clone()));
        } else if finished.is_empty() {
            assert_eq!(text, "kept");
        }
    }
    finished
}

fn finish(s: &mut Session) -> Option<(FinishedGame, String)> {
    let mut text = "kept".to_string();
    match s.finish(&mut text) {
        Some(g) => Some((g, text)),
        None => {
            assert_eq!(text, "kept");
            None
        }
    }
}

#[test]
fn games_end_where_the_next_one_starts() {
    let c = open_config(0);
    let mut s = Session::new(&c);
    s.start_source();
    let first = game("a", "b", 1500);
    let second = game("c", "d", 1700);
    assert!(feed(&mut s, &first).is_empty());
    let done = feed(&mut s, &second);
    assert_eq!(done.len(), 1);
    assert_eq!(done[0].1, text_of(&first));
    assert_eq!(done[0].0.verdict, Ok(1400));
    assert_eq!(done[0].0.number, 1);
    assert!(s.can_finish());
    let (last, last_text) = finish(&mut s).unwrap();
    assert_eq!(last_text, text_of(&second));
    assert_eq!(last.verdict, Ok(1600));
    assert_eq!(last.number, 2);
    assert!(finish(&mut s).is_none());
    assert_eq!(s.games_processed(), 2);
    assert!(!s.is_complete());
}

#[test]
fn quotas_carry_over_between_sources() {
    let c = open_config(0);
    let mut s = Session::new(&c);
    for expected in [Ok(1400), Err(Reject::PlayerQuota)] {
        s.start_source();
        feed(&mut s, &game("a", "b", 1500));
        assert_eq!(finish(&mut s).unwrap().0.verdict, expected);
    }
    assert_eq!(s.sampler().count(1400), 1);
    assert_eq!(s.sampler().rejected(9), 1);
}

#[test]
fn headers_do_not_leak_into_the_next_game() {
    let c = open_config(0);
    let mut s = Session::new(&c);
    s.start_source();
    feed(&mut s, &game("a", "b", 1500));
    let bare = vec!["[Event \"x\"]\n".to_string(), "\n".to_string(), "e4 e5\n".to_string()];
    feed(&mut s, &bare);
    assert_eq!(finish(&mut s).unwrap().0.verdict, Err(Reject::InvalidHeaders));
}

#[test]
fn movetext_is_not_read_for_headers() {
    let c = open_config(0);
    let mut s = Session::new(&c);
    s.start_source();
    let mut lines = game("a", "b", 1500);
    lines.push("[White \"\"]\n".to_string());
    lines.push("[x \"]\n".to_string());
    feed(&mut s, &lines);
    let (done, text) = finish(&mut s).unwrap();
    assert_eq!(done.verdict, Ok(1400));
    assert_eq!(text, text_of(&lines));
}

#[test]
fn session_stops_when_all_brackets_are_full() {
    let c = open_config(1);
    let mut s = Session::new(&c);
    s.start_source();
    feed(&mut s, &game("a", "b", 1500));
    feed(&mut s, &game("c", "d", 1700));
    assert!(!s.is_complete());
    // the line behind the last game is not looked at any more
    assert!(s.can_read("[Event \"]\n"));
    let mut text = String::new();
    let done = s.read_line("[Event \"]\n", &mut text).unwrap();
    assert_eq!(text, text_of(&game("c", "d", 1700)));
    assert_eq!(done.verdict, Ok(1600));
    assert!(s.is_complete());
    assert_eq!(s.games_processed(), 2);
    assert!(s.sampler().all_done());
}

#[test]
fn lines_that_cannot_be_read_are_told() {
    let c = open_config(0);
    let mut s = Session::new(&c);
    s.start_source();
    assert!(!s.can_read("[Event \"]\n"));
    assert!(!s.can_read("[White \"]\n"));
    assert!(s.can_read("[White \"\"]\n"));
    assert!(s.can_read("White \"]\n"));
    feed(&mut s, &game("a", "b", 1500));
    assert!(s.can_read("[White \"]\n"));
    assert!(!s.can_read("[Event \"]\n"));
    s.start_source();
    assert!(!s.can_read("[White \"]\n"));
    feed(&mut s, &["} e4\n".to_string()]);
    assert!(s.can_finish());

    let mut s = Session::new(&c);
    s.start_source();
    let mut broken = game("a", "b", 1500);
    broken[6] = "1. e4 } e5\n".to_string();
    feed(&mut s, &broken);
    assert!(!s.can_finish());
    assert!(!s.can_read("[Event \"x\"]\n"));
    assert!(s.can_read("more\n"));
}

#[test]
fn progress_is_reported_now_and_then() {
    assert!(report_due(5000));
    assert!(report_due(10000));
    assert!(!report_due(1));
    assert!(!report_due(4999));
}

#[test]
fn summary_tells_what_was_done() {
    let c = config(3);
    let mut s = Session::new(&c);
    s.start_source();
    feed(&mut s, &game("a", "b", 1500));
    finish(&mut s);
    let expected = "=== Sampling summary ===
Sources: a.zst, https://b
Events accepted: [\"Rated \\\"Rapid\\\" game\", \"é\"]
TimeControls accepted: []
Min plies: 2
Max rating delta: -1
Player quota: 1
Games parsed: 1
All brackets full: NO

Discards (each game counted under the first filter it failed, in this order):
  Event not accepted                                    1
  TimeControl not accepted                              0
  Banned title (e.g. BOT)                               0
  Required title missing                                0
  Missing/invalid player or rating headers              0
  Rating difference > delta                             0
  Players in different brackets                         0
  Bracket below start                                   0
  Bracket already full                                  0
  Player quota exhausted                                0
  Too few plies                                         0
  Total discarded                                       1

Accepted per bracket:
  output/bracket_1400_1599.pgn                          0
  output/bracket_1600_plus.pgn                          0
  Total accepted                                        0
";
    assert_eq!(s.summary("output"), expected);
    assert_eq!(build_summary(s.sampler(), "output", 200, 1, false), expected);
    assert_eq!(total_rejected(s.sampler()), Some(1));
}

#[test]
fn summary_counts_accepted_games() {
    let c = open_config(1);
    let mut s = Session::new(&c);
    s.start_source();
    feed(&mut s, &game("a", "b", 1500));
    feed(&mut s, &game("c", "d", 1700));
    finish(&mut s);
    let text = s.summary("out");
    assert!(text.contains("All brackets full: yes\n"));
    assert!(text.contains("Games parsed: 2\n"));
    assert!(text.ends_with(
        "Accepted per bracket:\n  out/bracket_1400_1599.pgn                             1\n  \
         out/bracket_1600_plus.pgn                             1\n  \
         Total accepted                                        2\n"
    ));
    let unlimited = open_config(0);
    let s = Session::new(&unlimited);
    assert!(s.summary("out").contains("All brackets full: n/a (unlimited size)\n"));
}

#[test]
fn summary_prints_lists_as_they_are_given() {
    let c = config(3);
    let s = Session::new(&c);
    let text = summary_text(s.sampler(), "o", 200, 7, true, "<events>", "<controls>");
    assert!(text.contains("\nEvents accepted: <events>\nTimeControls accepted: <controls>\n"));
    assert!(text.contains("\nGames parsed: 7\nAll brackets full: yes\n\n"));
}

#[test]
fn handed_out_games_are_the_sample() {
    let c = open_config(1);
    let mut s = Session::new(&c);
    s.start_source();
    let mut taken = vec![];
    let mut text = String::new();
    let games = [
        game("a", "b", 1500),
        game("c", "d", 1500),
        game("e", "f", 1000),
        game("g", "h", 1700),
        game("i", "j", 1700),
    ];
    let mut read = 0;
    for lines in &games {
        for line in lines {
            if s.is_complete() {
                break;
            }
            if let Some(g) = s.read_line(line, &mut text) {
                read += 1;
                if let Ok(b) = g.verdict {
                    taken.push((b, text.clone()));
                }
            }
        }
    }
    assert!(s.is_complete());
    assert_eq!(read, 4);
    assert_eq!(taken, vec![(1400, text_of(&games[0])), (1600, text_of(&games[3]))]);
    assert_eq!(s.games_processed(), 4);
    assert_eq!(total_rejected(s.sampler()), Some(2));
}

#[test]
fn trying_a_line_reads_it_or_changes_nothing() {
    let c = open_config(1);
    let mut s = Session::new(&c);
    let mut text = "kept".to_string();
    s.start_source();
    assert!(s.try_read_line("[Event \"]\n", &mut text).is_none());
    assert!(s.try_read_line("[White \"]\n", &mut text).is_none());
    let first = game("a", "b", 1500);
    for line in &first {
        assert!(matches!(s.try_read_line(line, &mut text), Some(None)));
    }
    assert!(s.try_read_line("[Event \"]\n", &mut text).is_none());
    assert_eq!(text, "kept");
    assert_eq!(s.games_processed(), 0);
    for line in &game("c", "d", 1700) {
        if let Some(g) = s.try_read_line(line, &mut text).unwrap() {
            assert_eq!(g.verdict, Ok(1400));
            assert_eq!(text, text_of(&first));
        }
    }
    // the line behind the last game is not looked at any more
    let last = s.try_read_line("[Event \"]\n", &mut text).unwrap().unwrap();
    assert_eq!(last.verdict, Ok(1600));
    assert!(s.is_complete());
    assert!(s.try_read_line("more\n", &mut text).is_none());
    assert!(matches!(s.try_finish(&mut text), Some(None)));
}

#[test]
fn trying_to_finish_a_game_that_cannot_be_judged_changes_nothing() {
    let c = open_config(0);
    let mut s = Session::new(&c);
    let mut text = "kept".to_string();
    s.start_source();
    let mut broken = game("a", "b", 1500);
    broken[6] = "1. e4 } e5\n".to_string();
    feed(&mut s, &broken);
    assert!(s.try_finish(&mut text).is_none());
    assert!(s.try_read_line("[Event \"x\"]\n", &mut text).is_none());
    assert_eq!(text, "kept");
    assert_eq!(s.games_processed(), 0);
}
