use zstdchess::config::{config_path, is_remote, Config, GroupsConfig, PlayerConfig};
use zstdchess::output::{bracket_filename, plan_output_dir, OutputPlan};

fn strings(list: &[&str]) -> Vec<String> {
    list.iter().map(|s| s.to_string()).collect()
}

fn groups(start: u32, end: u32, interval: u32) -> GroupsConfig {
    GroupsConfig {
        events: vec![],
        time_controls: vec![],
        min_plies: 0,
        start,
        end,
        interval,
        delta: 100,
        size: 0,
    }
}

#[test]
fn bracket_files_carry_their_ends() {
    assert_eq!(bracket_filename("output", 600, 200, 2600), "output/bracket_600_799.pgn");
    assert_eq!(bracket_filename("output/x", 0, 1, 2), "output/x/bracket_0_0.pgn");
    assert_eq!(bracket_filename("o", 2600, 200, 2600), "o/bracket_2600_plus.pgn");
    assert_eq!(bracket_filename("o", 2800, 200, 2600), "o/bracket_2800_plus.pgn");
    assert_eq!(
        bracket_filename("o", 4294967094, 201, 4294967295),
        "o/bracket_4294967094_4294967294.pgn"
    );
}

#[test]
fn empty_folder_is_ready() {
    for overwrite in [false, true] {
        assert!(matches!(
            plan_output_dir("output", &vec![], overwrite),
            OutputPlan::Ready
        ));
    }
}

#[test]
fn folder_with_files_is_refused() {
    match plan_output_dir("output/x", &strings(&["a.txt", "b.txt"]), false) {
        OutputPlan::Refuse(message) => assert_eq!(
            message,
            "Output folder 'output/x' already contains 2 file(s) (e.g. a.txt). \
             Refusing to run so previous samples are not mixed with new ones. \
             Choose another \"name\" in the config, empty the folder, or rerun with --overwrite."
        ),
        _ => panic!("not refused"),
    }
}

#[test]
fn overwriting_removes_only_files_of_runs() {
    let existing = strings(&[
        "bracket_600_799.pgn",
        "notes.txt",
        "summary.txt",
        "bracket_1.txt",
        "x_bracket_.pgn",
        "bracket_.pgn",
        "my summary.txt",
    ]);
    match plan_output_dir("output", &existing, true) {
        OutputPlan::Remove(paths) => assert_eq!(
            paths,
            strings(&[
                "output/bracket_600_799.pgn",
                "output/summary.txt",
                "output/bracket_.pgn"
            ])
        ),
        _ => panic!("nothing to remove"),
    }
}

#[test]
fn brackets_are_laid_out_from_start_to_end() {
    assert_eq!(groups(600, 1200, 200).bracket_starts(), vec![600, 800, 1000, 1200]);
    assert_eq!(groups(600, 1199, 200).bracket_starts(), vec![600, 800, 1000]);
    assert_eq!(groups(600, 1000, 0).bracket_starts(), vec![600, 800, 1000]);
    assert_eq!(groups(600, 600, 50).bracket_starts(), vec![600]);
    assert_eq!(groups(601, 600, 50).bracket_starts(), Vec::<u32>::new());
    assert_eq!(groups(0, 2, 1).bracket_starts(), vec![0, 1, 2]);
    assert_eq!(groups(600, 1200, 200).step(), 200);
    assert_eq!(groups(600, 1200, 0).step(), 200);
}

#[test]
fn brackets_that_do_not_fit_are_told() {
    assert!(groups(0, 4294967294, 4294967295).can_lay_out());
    assert!(!groups(0, 4294967295, 4294967295).can_lay_out());
    assert!(!groups(4294967295, 4294967295, 1).can_lay_out());
    assert!(groups(4294967294, 4294967294, 1).can_lay_out());
    assert!(groups(4294967295, 0, 1).can_lay_out());
}

#[test]
fn progress_goes_to_the_size() {
    let mut g = groups(0, 0, 1);
    assert_eq!(g.progress_length(), u64::MAX);
    g.size = 64;
    assert_eq!(g.progress_length(), 64);
}

#[test]
fn samples_go_below_output() {
    let mut config = Config {
        zstd_database: vec![],
        name: None,
        groups: groups(0, 0, 1),
        player: PlayerConfig {
            quota: 0,
            banned_string: vec![],
            required_string: vec![],
        },
    };
    assert_eq!(config.output_dir(), "output");
    config.name = Some("".to_string());
    assert_eq!(config.output_dir(), "output");
    config.name = Some("2026_batch".to_string());
    assert_eq!(config.output_dir(), "output/2026_batch");
}

#[test]
fn default_config_is_looked_for_beside_the_program() {
    let beside = || Some("/opt/config.json".to_string());
    assert_eq!(config_path("config.json", beside()), "/opt/config.json");
    assert_eq!(config_path("config.json", None), "config.json");
    assert_eq!(config_path("my.json", beside()), "my.json");
    assert_eq!(config_path("my.json", None), "my.json");
}

#[test]
fn urls_are_told_from_files() {
    assert!(is_remote("http://a/b"));
    assert!(is_remote("https://a/b"));
    assert!(!is_remote("db/file.pgn.zst"));
    assert!(!is_remote("http:/a"));
    assert!(!is_remote("HTTP://a"));
}

#[test]
fn files_of_brackets_are_removed_by_a_later_run() {
    let g = groups(600, 1000, 200);
    let names: Vec<String> = g
        .bracket_starts()
        .iter()
        .map(|b| bracket_filename("output", *b, g.step(), g.end))
        .map(|path| path["output/".len()..].to_string())
        .collect();
    assert_eq!(
        names,
        strings(&["bracket_600_799.pgn", "bracket_800_999.pgn", "bracket_1000_plus.pgn"])
    );
    match plan_output_dir("output", &names, true) {
        OutputPlan::Remove(paths) => assert_eq!(paths.len(), names.len()),
        _ => panic!("nothing to remove"),
    }
}

#[test]
fn some_layouts_have_a_bracket_at_end() {
    assert!(groups(600, 2600, 200).has_end_bracket());
    assert!(groups(2300, 2500, 200).has_end_bracket());
    assert!(groups(600, 600, 50).has_end_bracket());
    assert!(!groups(600, 2500, 200).has_end_bracket());
    assert!(!groups(601, 600, 1).has_end_bracket());
}
