use flamegraph::symbol::Symbol;
use flamegraph::tree::Node;

fn sym(index: usize) -> Symbol {
    Symbol::from_index(index)
}

/// root(10) -> a(10) -> { b(3) -> d(3), c(7) }
fn sample_tree() -> Node {
    let mut root = Node::new();
    root.add(&[sym(0), sym(1), sym(3)], 3);
    root.add(&[sym(0), sym(2)], 7);
    root
}

#[test]
fn a_new_node_is_empty() {
    let node = Node::new();
    assert_eq!(node.count(), 0);
    assert_eq!(node.child_count(), 0);
    assert!(node.child(sym(0)).is_none());
    assert_eq!(node.effective_max_depth(0), 0);
}

#[test]
fn add_returns_the_length_of_the_path() {
    let mut root = Node::new();
    assert_eq!(root.add(&[], 4), 0);
    assert_eq!(root.add(&[sym(5)], 1), 1);
    assert_eq!(root.add(&[sym(5), sym(6), sym(7)], 1), 3);
}

#[test]
fn an_empty_path_counts_at_the_root_only() {
    let mut root = Node::new();
    root.add(&[], 4);
    assert_eq!(root.count(), 4);
    assert_eq!(root.child_count(), 0);
}

#[test]
fn every_node_along_the_path_grows_by_the_count() {
    let mut root = sample_tree();
    root.add(&[sym(0), sym(1)], 5);
    assert_eq!(root.count(), 15);
    let a = root.child(sym(0)).unwrap();
    assert_eq!(a.count(), 15);
    let b = a.child(sym(1)).unwrap();
    assert_eq!(b.count(), 8);
    assert_eq!(b.child(sym(3)).unwrap().count(), 3);
    assert_eq!(a.child(sym(2)).unwrap().count(), 7);
}

#[test]
fn a_count_of_zero_still_makes_the_nodes() {
    let mut root = Node::new();
    root.add(&[sym(1), sym(2)], 0);
    assert_eq!(root.count(), 0);
    let below = root.child(sym(1)).unwrap();
    assert_eq!(below.count(), 0);
    assert_eq!(below.child(sym(2)).unwrap().count(), 0);
}

#[test]
fn children_stand_in_the_order_of_their_symbols() {
    let mut root = Node::new();
    for index in [7usize, 2, 9, 0, 5, 2, 7] {
        root.add(&[sym(index)], (index as u64) + 1);
    }
    assert_eq!(root.child_count(), 5);
    let names: Vec<usize> = (0..5).map(|i| root.child_name(i).index()).collect();
    assert_eq!(names, vec![0, 2, 5, 7, 9]);
    let counts: Vec<u64> = (0..5).map(|i| root.child_node(i).count()).collect();
    assert_eq!(counts, vec![1, 6, 6, 16, 10]);
    assert!(root.child(sym(3)).is_none());
    assert!(root.child(sym(10)).is_none());
    assert_eq!(root.child(sym(7)).unwrap().count(), 16);
}

#[test]
fn diverging_stacks_make_siblings() {
    let mut root = Node::new();
    root.add(&[sym(0), sym(1)], 1);
    root.add(&[sym(1), sym(0)], 2);
    assert_eq!(root.child_count(), 2);
    let first = root.child(sym(0)).unwrap();
    let second = root.child(sym(1)).unwrap();
    assert_eq!(first.count(), 1);
    assert_eq!(second.count(), 2);
    assert_eq!(first.child(sym(1)).unwrap().count(), 1);
    assert_eq!(second.child(sym(0)).unwrap().count(), 2);
}

#[test]
fn the_root_counts_the_sum_of_all_records() {
    let records: Vec<(Vec<usize>, u64)> = vec![
        (vec![0, 1], 3),
        (vec![0, 2], 7),
        (vec![], 2),
        (vec![4], 11),
        (vec![0, 1, 5, 6], 1),
        (vec![0, 1], 9),
    ];
    let mut root = Node::new();
    let mut sum = 0u64;
    for (path, count) in &records {
        let path: Vec<Symbol> = path.iter().map(|i| sym(*i)).collect();
        root.add(&path, *count);
        sum += *count;
        assert_eq!(root.count(), sum);
    }
    assert_eq!(root.count(), 33);
}

#[test]
fn a_node_counts_its_own_samples_and_those_of_its_children() {
    let mut root = Node::new();
    root.add(&[sym(0)], 4);
    root.add(&[sym(0), sym(1)], 3);
    root.add(&[sym(0), sym(2)], 2);
    root.add(&[sym(0), sym(1), sym(3)], 5);
    let a = root.child(sym(0)).unwrap();
    let b = a.child(sym(1)).unwrap();
    let c = a.child(sym(2)).unwrap();
    let d = b.child(sym(3)).unwrap();
    assert_eq!(a.count(), 4 + b.count() + c.count());
    assert_eq!(b.count(), 3 + d.count());
    assert_eq!(c.count(), 2);
    assert_eq!(d.count(), 5);
    assert_eq!(a.count(), 14);
    assert!(a.count() >= b.count() && a.count() >= c.count());
    assert!(b.count() >= d.count());
    assert!(root.count() >= a.count());
}

fn same_tree(left: &Node, right: &Node) -> bool {
    if left.count() != right.count() || left.child_count() != right.child_count() {
        return false;
    }
    (0..left.child_count()).all(|i| {
        left.child_name(i) == right.child_name(i)
            && same_tree(left.child_node(i), right.child_node(i))
    })
}

#[test]
fn the_same_record_twice_is_one_record_with_twice_the_count() {
    let path = [sym(0), sym(1), sym(9)];
    let mut twice = sample_tree();
    twice.add(&path, 6);
    twice.add(&path, 6);
    let mut once = sample_tree();
    once.add(&path, 12);
    assert!(same_tree(&twice, &once));
    assert_eq!(twice.child(sym(0)).unwrap().child(sym(1)).unwrap().count(), 15);
    assert_eq!(
        twice.child(sym(0)).unwrap().child(sym(1)).unwrap().child(sym(9)).unwrap().count(),
        12
    );
    let mut other = sample_tree();
    other.add(&path, 11);
    assert!(!same_tree(&twice, &other));
}

#[test]
fn without_a_threshold_the_depth_is_the_longest_path() {
    let root = sample_tree();
    assert_eq!(root.effective_max_depth(0), 3);
    assert_eq!(root.depth(0, 0), 3);
    assert_eq!(root.depth(0, 5), 8);
}

#[test]
fn nodes_below_the_threshold_add_nothing_to_the_depth() {
    let root = sample_tree();
    // Everything counts at least 3.
    assert_eq!(root.effective_max_depth(3), 3);
    // b and d are below 4; c is not, and lies at depth 2.
    assert_eq!(root.effective_max_depth(4), 2);
    assert_eq!(root.effective_max_depth(7), 2);
    // Both children of a are below 8: a is the deepest node to be seen.
    assert_eq!(root.effective_max_depth(8), 1);
    assert_eq!(root.effective_max_depth(10), 1);
    // The root itself is below 11.
    assert_eq!(root.effective_max_depth(11), 0);
    assert_eq!(root.effective_max_depth(u64::MAX), 0);
}

#[test]
fn the_depth_is_counted_from_the_depth_given() {
    let root = sample_tree();
    assert_eq!(root.depth(11, 4), 4);
    assert_eq!(root.depth(8, 4), 5);
    assert_eq!(root.depth(4, 4), 6);
    assert_eq!(root.depth(0, 4), 7);
    assert_eq!(root.depth(0, u64::MAX - 3), u64::MAX);
    // Nothing is descended into where the result is the depth given.
    assert_eq!(root.depth(11, u64::MAX), u64::MAX);
    assert_eq!(root.depth(8, u64::MAX - 1), u64::MAX);
}

#[test]
fn a_chain_is_as_deep_as_its_last_visible_node() {
    let mut root = Node::new();
    root.add(&[sym(0)], 1);
    root.add(&[sym(0), sym(1)], 2);
    root.add(&[sym(0), sym(1), sym(2)], 3);
    root.add(&[sym(0), sym(1), sym(2), sym(3)], 4);
    // Counts down the chain: 10, 10, 9, 7, 4.
    assert_eq!(root.effective_max_depth(4), 4);
    assert_eq!(root.effective_max_depth(5), 3);
    assert_eq!(root.effective_max_depth(7), 3);
    assert_eq!(root.effective_max_depth(8), 2);
    assert_eq!(root.effective_max_depth(9), 2);
    assert_eq!(root.effective_max_depth(10), 1);
    assert_eq!(root.effective_max_depth(11), 0);
}

#[test]
fn raising_the_threshold_never_deepens_the_graph() {
    let mut root = sample_tree();
    root.add(&[sym(4), sym(5), sym(6), sym(7), sym(8)], 2);
    root.add(&[sym(4), sym(9)], 6);
    let mut last = u64::MAX;
    for min_count in 0..20 {
        let depth = root.effective_max_depth(min_count);
        assert!(depth <= last);
        last = depth;
    }
    assert_eq!(root.effective_max_depth(0), 5);
    assert_eq!(root.effective_max_depth(2), 5);
    assert_eq!(root.effective_max_depth(3), 3);
    assert_eq!(root.effective_max_depth(19), 0);
}

#[test]
fn counts_may_reach_the_largest_number() {
    let mut root = Node::new();
    root.add(&[sym(0)], u64::MAX - 1);
    root.add(&[sym(1)], 1);
    assert_eq!(root.count(), u64::MAX);
    assert_eq!(root.child(sym(0)).unwrap().count(), u64::MAX - 1);
}
