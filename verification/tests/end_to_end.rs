use flamegraph::ingest::Config;
use flamegraph::ingest::Outcome;
use flamegraph::ingest::Profile;
use flamegraph::layout::Rect;
use flamegraph::layout::Rects;
use flamegraph::symbol::Symbol;

fn layout(profile: &Profile, name: Symbol) -> Vec<Rect> {
    let mut rects = Rects::new(profile.root(), profile.table(), &name);
    let mut out = Vec::new();
    while let Some(rect) = rects.next() {
        out.push(rect);
    }
    out
}

fn named(profile: &Profile, rects: &[Rect]) -> Vec<(String, u64, u64, u64)> {
    rects
        .iter()
        .map(|r| {
            let name = profile.table().resolve(r.name).unwrap().to_string();
            (name, r.count, r.depth, r.offset)
        })
        .collect()
}

fn row(name: &str, count: u64, depth: u64, offset: u64) -> (String, u64, u64, u64) {
    (name.to_string(), count, depth, offset)
}

#[test]
fn one_stack_gives_a_chain_of_three_rectangles() {
    let config = Config::new();
    let mut profile = Profile::new();
    assert_eq!(profile.ingest_line("a;b 5", &config), Outcome::Recorded);
    let all = profile.intern("all").unwrap();

    let root = profile.root();
    assert_eq!(root.count(), 5);
    assert_eq!(root.child_count(), 1);
    let a = profile.table().lookup("a").unwrap();
    let b = profile.table().lookup("b").unwrap();
    let node_a = root.child(a).unwrap();
    assert_eq!(node_a.count(), 5);
    assert_eq!(node_a.child_count(), 1);
    let node_b = node_a.child(b).unwrap();
    assert_eq!(node_b.count(), 5);
    assert_eq!(node_b.child_count(), 0);

    let rects = layout(&profile, all);
    assert_eq!(rects.len(), 3);
    assert_eq!(rects[0], Rect { name: b, count: 5, depth: 2, offset: 0 });
    assert_eq!(
        named(&profile, &rects),
        vec![row("b", 5, 2, 0), row("a", 5, 1, 0), row("all", 5, 0, 0)]
    );
}

#[test]
fn two_stacks_with_a_common_frame_share_its_node() {
    let config = Config::new();
    let mut profile = Profile::new();
    assert_eq!(profile.ingest_line("a;b 3", &config), Outcome::Recorded);
    assert_eq!(profile.ingest_line("a;c 7", &config), Outcome::Recorded);
    let all = profile.intern("all").unwrap();

    let root = profile.root();
    assert_eq!(root.count(), 10);
    assert_eq!(root.child_count(), 1);
    let a = profile.table().lookup("a").unwrap();
    let b = profile.table().lookup("b").unwrap();
    let c = profile.table().lookup("c").unwrap();
    assert!(b.index() < c.index());
    let node_a = root.child(a).unwrap();
    assert_eq!(node_a.count(), 10);
    assert_eq!(node_a.child_count(), 2);
    assert_eq!(node_a.child(b).unwrap().count(), 3);
    assert_eq!(node_a.child(c).unwrap().count(), 7);

    let rects = layout(&profile, all);
    assert_eq!(
        named(&profile, &rects),
        vec![row("b", 3, 2, 0), row("c", 7, 2, 3), row("a", 10, 1, 0), row("all", 10, 0, 0)]
    );
}

#[test]
fn a_line_without_a_space_is_counted_and_changes_nothing() {
    let config = Config::new();
    let mut profile = Profile::new();
    assert_eq!(profile.ingest_line("a;b 3", &config), Outcome::Recorded);
    assert_eq!(profile.invalid_lines(), 0);
    assert_eq!(profile.ingest_line("badline", &config), Outcome::Invalid);
    assert_eq!(profile.invalid_lines(), 1);
    assert_eq!(profile.table().len(), 2);
    assert!(profile.table().lookup("badline").is_none());

    let all = profile.intern("all").unwrap();
    assert_eq!(
        named(&profile, &layout(&profile, all)),
        vec![row("b", 3, 2, 0), row("a", 3, 1, 0), row("all", 3, 0, 0)]
    );
}

#[test]
fn without_valid_input_the_total_stays_zero() {
    let config = Config::new();
    let mut profile = Profile::new();
    assert!(profile.is_empty());
    assert_eq!(profile.ingest_line("badline", &config), Outcome::Invalid);
    assert_eq!(profile.ingest_line("", &config), Outcome::Invalid);
    assert_eq!(profile.ingest_line("a;b five", &config), Outcome::Invalid);
    assert!(profile.is_empty());
    assert_eq!(profile.root().count(), 0);
    assert_eq!(profile.root().child_count(), 0);
    assert_eq!(profile.table().len(), 0);
    assert_eq!(profile.invalid_lines(), 3);
    assert_eq!(profile.ingest_line("a;b 1", &config), Outcome::Recorded);
    assert!(!profile.is_empty());
}

#[test]
fn an_empty_frame_name_is_dropped() {
    let config = Config::new();
    let mut with_gap = Profile::new();
    assert_eq!(with_gap.ingest_line("a;;b 2", &config), Outcome::Recorded);
    let mut plain = Profile::new();
    assert_eq!(plain.ingest_line("a;b 2", &config), Outcome::Recorded);

    assert_eq!(with_gap.table().len(), 2);
    assert_eq!(with_gap.table().len(), plain.table().len());
    let all_gap = with_gap.intern("all").unwrap();
    let all_plain = plain.intern("all").unwrap();
    let rects_gap = layout(&with_gap, all_gap);
    let rects_plain = layout(&plain, all_plain);
    assert_eq!(rects_gap, rects_plain);
    assert_eq!(
        named(&with_gap, &rects_gap),
        vec![row("b", 2, 2, 0), row("a", 2, 1, 0), row("all", 2, 0, 0)]
    );
    assert_eq!(with_gap.root().effective_max_depth(0), 2);
}

#[test]
fn frames_at_the_edges_of_a_stack_may_be_empty_too() {
    let config = Config::new();
    let mut profile = Profile::new();
    assert_eq!(profile.ingest_line(";a;b; 2", &config), Outcome::Recorded);
    assert_eq!(profile.ingest_line(";;; 4", &config), Outcome::Recorded);
    let all = profile.intern("all").unwrap();
    assert_eq!(
        named(&profile, &layout(&profile, all)),
        vec![row("b", 2, 2, 0), row("a", 2, 1, 0), row("all", 6, 0, 0)]
    );
}

#[test]
fn siblings_lie_in_the_order_of_their_names_whatever_the_order_of_the_input() {
    let config = Config::new();
    let mut profile = Profile::new();
    assert_eq!(profile.ingest_line("a;c 7", &config), Outcome::Recorded);
    assert_eq!(profile.ingest_line("a;b 3", &config), Outcome::Recorded);
    let all = profile.intern("all").unwrap();
    let b = profile.table().lookup("b").unwrap();
    let c = profile.table().lookup("c").unwrap();
    assert!(c.index() < b.index());
    assert!(profile.table().precedes(b, c));
    let rects = layout(&profile, all);
    assert_eq!(rects[0], Rect { name: b, count: 3, depth: 2, offset: 0 });
    assert_eq!(rects[1], Rect { name: c, count: 7, depth: 2, offset: 3 });
    assert_eq!(
        named(&profile, &rects),
        vec![row("b", 3, 2, 0), row("c", 7, 2, 3), row("a", 10, 1, 0), row("all", 10, 0, 0)]
    );
}

#[test]
fn the_same_records_in_any_order_give_the_same_picture() {
    let config = Config::new();
    let lines = ["m;z;q 1", "m;a 2", "b;k 3", "m;z;c 4", "b 5", "m;k 6", "a;z 7"];
    let mut forward = Profile::new();
    for line in lines {
        assert_eq!(forward.ingest_line(line, &config), Outcome::Recorded);
    }
    let mut backward = Profile::new();
    for line in lines.iter().rev() {
        assert_eq!(backward.ingest_line(line, &config), Outcome::Recorded);
    }
    let all_forward = forward.intern("all").unwrap();
    let all_backward = backward.intern("all").unwrap();
    let picture = named(&forward, &layout(&forward, all_forward));
    assert_eq!(picture, named(&backward, &layout(&backward, all_backward)));
    assert_eq!(
        picture,
        vec![
            row("z", 7, 2, 0),
            row("a", 7, 1, 0),
            row("k", 3, 2, 7),
            row("b", 8, 1, 7),
            row("a", 2, 2, 15),
            row("k", 6, 2, 17),
            row("c", 4, 3, 23),
            row("q", 1, 3, 27),
            row("z", 5, 2, 23),
            row("m", 13, 1, 15),
            row("all", 28, 0, 0),
        ]
    );
}
