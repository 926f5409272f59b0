use flamegraph::ingest::Config;
use flamegraph::ingest::Outcome;
use flamegraph::ingest::Profile;

#[test]
fn a_new_profile_is_empty() {
    let profile = Profile::new();
    assert_eq!(profile.root().count(), 0);
    assert_eq!(profile.root().child_count(), 0);
    assert_eq!(profile.table().len(), 0);
    assert_eq!(profile.invalid_lines(), 0);
}

#[test]
fn the_usual_settings_are_forward_and_root_at_the_bottom() {
    let config = Config::new();
    assert!(!config.reverse);
    assert!(!config.upside_down);
}

#[test]
fn frame_names_are_interned_in_the_order_of_the_stack() {
    let config = Config::new();
    let mut profile = Profile::new();
    assert_eq!(profile.ingest_line("main;run;step 4", &config), Outcome::Recorded);
    assert_eq!(profile.ingest_line("main;idle 1", &config), Outcome::Recorded);
    let table = profile.table();
    assert_eq!(table.len(), 4);
    assert_eq!(table.lookup("main").unwrap().index(), 0);
    assert_eq!(table.lookup("run").unwrap().index(), 1);
    assert_eq!(table.lookup("step").unwrap().index(), 2);
    assert_eq!(table.lookup("idle").unwrap().index(), 3);
}

#[test]
fn reverse_puts_the_innermost_frame_next_to_the_root() {
    let config = Config { reverse: true, upside_down: false };
    let mut profile = Profile::new();
    assert_eq!(profile.ingest_line("main;run;step 4", &config), Outcome::Recorded);
    assert_eq!(profile.ingest_line("main;walk;step 2", &config), Outcome::Recorded);
    let step = profile.table().lookup("step").unwrap();
    let run = profile.table().lookup("run").unwrap();
    let walk = profile.table().lookup("walk").unwrap();
    let main = profile.table().lookup("main").unwrap();
    assert_eq!(step.index(), 0);
    assert_eq!(run.index(), 1);
    assert_eq!(main.index(), 2);
    let root = profile.root();
    assert_eq!(root.child_count(), 1);
    let below = root.child(step).unwrap();
    assert_eq!(below.count(), 6);
    assert_eq!(below.child(run).unwrap().child(main).unwrap().count(), 4);
    assert_eq!(below.child(walk).unwrap().child(main).unwrap().count(), 2);
}

#[test]
fn invalid_lines_are_counted_one_by_one() {
    let config = Config::new();
    let mut profile = Profile::new();
    let lines = ["a 1", "bad", "b 2", "", "c x", "d -1", "e 3"];
    let mut invalid = 0;
    for line in lines {
        if profile.ingest_line(line, &config) == Outcome::Invalid {
            invalid += 1;
        }
        assert_eq!(profile.invalid_lines(), invalid);
    }
    assert_eq!(profile.invalid_lines(), 4);
    assert_eq!(profile.root().count(), 6);
    assert_eq!(profile.table().len(), 3);
}

#[test]
fn the_total_is_the_sum_of_the_counts_of_the_valid_lines() {
    let config = Config::new();
    let mut profile = Profile::new();
    let lines = ["a;b 3", "oops", "a;c 7", "x;y;z 11", "a 2 ", "a;b;c nine", "q 0"];
    for line in lines {
        profile.ingest_line(line, &config);
    }
    assert_eq!(profile.root().count(), 3 + 7 + 11 + 2);
    assert_eq!(profile.invalid_lines(), 2);
}

#[test]
fn a_count_that_takes_the_total_past_64_bits_changes_nothing() {
    let config = Config::new();
    let mut profile = Profile::new();
    assert_eq!(profile.ingest_line("a 18446744073709551614", &config), Outcome::Recorded);
    assert_eq!(profile.ingest_line("b;c 2", &config), Outcome::Overflow);
    assert_eq!(profile.root().count(), u64::MAX - 1);
    assert_eq!(profile.root().child_count(), 1);
    assert_eq!(profile.table().len(), 1);
    assert!(profile.table().lookup("b").is_none());
    assert_eq!(profile.invalid_lines(), 0);
    assert_eq!(profile.ingest_line("b;c 1", &config), Outcome::Recorded);
    assert_eq!(profile.root().count(), u64::MAX);
    assert_eq!(profile.ingest_line("b;c 0", &config), Outcome::Recorded);
    assert_eq!(profile.ingest_line("b;c 1", &config), Outcome::Overflow);
    assert_eq!(profile.root().count(), u64::MAX);
}

#[test]
fn interning_a_name_leaves_the_tree_alone() {
    let config = Config::new();
    let mut profile = Profile::new();
    profile.ingest_line("a;b 3", &config);
    let all = profile.intern("all").unwrap();
    assert_eq!(all.index(), 2);
    assert_eq!(profile.intern("a").unwrap().index(), 0);
    assert_eq!(profile.root().count(), 3);
    assert_eq!(profile.root().child_count(), 1);
    assert_eq!(profile.table().resolve(all), Some("all"));
}

#[test]
fn rows_count_from_the_top_of_the_picture() {
    let usual = Config::new();
    assert_eq!(usual.row(5, 0), 5);
    assert_eq!(usual.row(5, 2), 3);
    assert_eq!(usual.row(5, 5), 0);
    assert_eq!(usual.row(0, 0), 0);
    let turned = Config { reverse: false, upside_down: true };
    assert_eq!(turned.row(5, 0), 0);
    assert_eq!(turned.row(5, 2), 2);
    assert_eq!(turned.row(5, 5), 5);
    assert_eq!(turned.row(5, 9), 9);
}
