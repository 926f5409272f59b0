use flamegraph::layout::Frame;
use flamegraph::layout::Rect;
use flamegraph::layout::Rects;
use flamegraph::symbol::Symbol;
use flamegraph::symbol::SymbolTable;
use flamegraph::tree::Node;

fn symbol(index: usize) -> Symbol {
    Symbol::from_index(index)
}

fn rect(name: usize, count: u64, depth: u64, offset: u64) -> Rect {
    Rect { name: symbol(name), count, depth, offset }
}

/// A table in which the symbol with index `i` is called by the digit `i`,
/// so that the order of the names is the order of the indices.
fn digits() -> SymbolTable {
    let mut table = SymbolTable::new();
    for name in ["0", "1", "2", "3", "4", "5", "6", "7", "8", "9"] {
        table.intern(name);
    }
    table
}

fn walk(root: &Node, name: Symbol) -> Vec<Rect> {
    walk_with(root, &digits(), name)
}

fn walk_with(root: &Node, table: &SymbolTable, name: Symbol) -> Vec<Rect> {
    let mut rects = Rects::new(root, table, &name);
    let mut out = Vec::new();
    while let Some(rect) = rects.next() {
        out.push(rect);
    }
    assert!(rects.next().is_none());
    assert!(rects.next().is_none());
    out
}

/// all(20) -> { 1(9) -> { 3(2), 4(3) -> 7(3) }, 2(5), 5(4) -> 6(4) }, with
/// 2 samples that end at the root and 4 that end at node 1.
fn wide_tree() -> Node {
    let mut root = Node::new();
    root.add(&[symbol(5), symbol(6)], 4);
    root.add(&[symbol(2)], 5);
    root.add(&[symbol(1), symbol(4), symbol(7)], 3);
    root.add(&[symbol(1)], 4);
    root.add(&[symbol(1), symbol(3)], 2);
    root.add(&[], 2);
    root
}

fn count_nodes(node: &Node) -> usize {
    1 + (0..node.child_count()).map(|i| count_nodes(node.child_node(i))).sum::<usize>()
}

#[test]
fn an_empty_tree_has_the_rectangle_of_its_root() {
    let root = Node::new();
    assert_eq!(walk(&root, symbol(3)), vec![rect(3, 0, 0, 0)]);
}

#[test]
fn every_node_comes_after_its_children_and_siblings_come_in_order() {
    let root = wide_tree();
    assert_eq!(
        walk(&root, symbol(0)),
        vec![
            rect(3, 2, 2, 0),
            rect(7, 3, 3, 2),
            rect(4, 3, 2, 2),
            rect(1, 9, 1, 0),
            rect(2, 5, 1, 9),
            rect(6, 4, 2, 14),
            rect(5, 4, 1, 14),
            rect(0, 20, 0, 0),
        ]
    );
}

#[test]
fn there_is_one_rectangle_for_each_node() {
    let root = wide_tree();
    let rects = walk(&root, symbol(0));
    assert_eq!(count_nodes(&root), 8);
    assert_eq!(rects.len(), 8);
    for (i, one) in rects.iter().enumerate() {
        for other in &rects[i + 1..] {
            assert_ne!((one.name, one.depth, one.offset), (other.name, other.depth, other.offset));
        }
    }
}

#[test]
fn siblings_lie_side_by_side_without_gap_or_overlap() {
    let mut root = Node::new();
    root.add(&[symbol(8)], 7);
    root.add(&[symbol(3)], 1);
    root.add(&[symbol(5)], 4);
    root.add(&[symbol(4)], 2);
    let rects = walk(&root, symbol(0));
    assert_eq!(
        rects,
        vec![
            rect(3, 1, 1, 0),
            rect(4, 2, 1, 1),
            rect(5, 4, 1, 3),
            rect(8, 7, 1, 7),
            rect(0, 14, 0, 0),
        ]
    );
    for pair in rects[..4].windows(2) {
        assert!(digits().precedes(pair[0].name, pair[1].name));
        assert_eq!(pair[0].offset + pair[0].count, pair[1].offset);
    }
}

fn check_within(node: &Node, own: &Rect, rects: &[Rect]) {
    let mut next = own.offset;
    for i in 0..node.child_count() {
        let child = node.child_node(i);
        let name = node.child_name(i);
        let found: Vec<&Rect> = rects
            .iter()
            .filter(|r| r.name == name && r.depth == own.depth + 1 && r.offset == next)
            .collect();
        assert_eq!(found.len(), 1);
        let below = found[0];
        assert_eq!(below.count, child.count());
        assert!(own.offset <= below.offset);
        assert!(below.offset + below.count <= own.offset + own.count);
        next = below.offset + below.count;
        check_within(child, below, rects);
    }
}

#[test]
fn a_child_lies_within_the_width_of_its_parent() {
    let root = wide_tree();
    let rects = walk(&root, symbol(0));
    let own = rects.last().unwrap();
    assert_eq!(*own, rect(0, 20, 0, 0));
    check_within(&root, own, &rects);
}

#[test]
fn samples_that_end_at_a_node_leave_room_at_its_right() {
    let mut root = Node::new();
    root.add(&[symbol(1)], 10);
    root.add(&[symbol(1), symbol(2)], 3);
    root.add(&[symbol(1), symbol(3)], 4);
    let rects = walk(&root, symbol(0));
    assert_eq!(
        rects,
        vec![rect(2, 3, 2, 0), rect(3, 4, 2, 3), rect(1, 17, 1, 0), rect(0, 17, 0, 0)]
    );
}

#[test]
fn the_walk_can_stop_early() {
    let root = wide_tree();
    let name = symbol(0);
    let table = digits();
    let mut rects = Rects::new(&root, &table, &name);
    assert_eq!(rects.next(), Some(rect(3, 2, 2, 0)));
    assert_eq!(rects.next(), Some(rect(7, 3, 3, 2)));
}

#[test]
fn gen_rects_gives_every_node_before_its_children() {
    let root = wide_tree();
    let mut buf = vec![rect(99, 1, 1, 1)];
    root.gen_rects(&digits(), &symbol(0), 0, 0, &mut buf);
    assert_eq!(
        buf,
        vec![
            rect(99, 1, 1, 1),
            rect(0, 20, 0, 0),
            rect(1, 9, 1, 0),
            rect(3, 2, 2, 0),
            rect(4, 3, 2, 2),
            rect(7, 3, 3, 2),
            rect(2, 5, 1, 9),
            rect(5, 4, 1, 14),
            rect(6, 4, 2, 14),
        ]
    );
}

#[test]
fn gen_rects_starts_at_the_depth_and_offset_given() {
    let mut root = Node::new();
    root.add(&[symbol(1)], 2);
    root.add(&[symbol(2)], 3);
    let mut buf = Vec::new();
    root.gen_rects(&digits(), &symbol(0), 4, 100, &mut buf);
    assert_eq!(buf, vec![rect(0, 5, 4, 100), rect(1, 2, 5, 100), rect(2, 3, 5, 102)]);
}

#[test]
fn both_walks_give_the_same_rectangles() {
    let root = wide_tree();
    let key = |r: &Rect| (r.depth, r.offset, r.name.index(), r.count);
    let mut lazy = walk(&root, symbol(0));
    let mut eager = Vec::new();
    root.gen_rects(&digits(), &symbol(0), 0, 0, &mut eager);
    lazy.sort_by_key(key);
    eager.sort_by_key(key);
    assert_eq!(lazy, eager);
}

#[test]
fn a_new_frame_holds_the_names_of_the_children_backwards() {
    let root = wide_tree();
    let table = digits();
    let frame = Frame::new(&root, &table, &symbol(0), 6);
    assert_eq!(frame.keys, vec![symbol(5), symbol(2), symbol(1)]);
    assert_eq!(frame.start, 6);
    assert_eq!(frame.offset, 6);
    assert_eq!(frame.name, symbol(0));
    assert_eq!(frame.node.count(), 20);

    let leaf = Node::new();
    let frame = Frame::new(&leaf, &table, &symbol(4), 0);
    assert!(frame.keys.is_empty());
}

#[test]
fn offsets_may_reach_the_largest_number() {
    let mut root = Node::new();
    root.add(&[symbol(0)], u64::MAX - 1);
    root.add(&[symbol(1)], 1);
    assert_eq!(
        walk(&root, symbol(2)),
        vec![rect(0, u64::MAX - 1, 1, 0), rect(1, 1, 1, u64::MAX - 1), rect(2, u64::MAX, 0, 0)]
    );
}

/// A table in which the names were interned against the order of the
/// dictionary: the symbol with index 0 is "pear", then "fig", "date",
/// "cherry", "apple".
fn fruits() -> SymbolTable {
    let mut table = SymbolTable::new();
    for name in ["pear", "fig", "date", "cherry", "apple"] {
        table.intern(name);
    }
    table
}

#[test]
fn siblings_lie_in_the_order_of_their_names_not_of_their_symbols() {
    let table = fruits();
    let mut root = Node::new();
    root.add(&[symbol(0)], 1);
    root.add(&[symbol(1)], 2);
    root.add(&[symbol(2)], 4);
    root.add(&[symbol(3)], 8);
    root.add(&[symbol(1), symbol(0)], 16);
    root.add(&[symbol(1), symbol(4)], 32);
    let rects = walk_with(&root, &table, symbol(4));
    assert_eq!(
        rects,
        vec![
            rect(3, 8, 1, 0),
            rect(2, 4, 1, 8),
            rect(4, 32, 2, 12),
            rect(0, 16, 2, 44),
            rect(1, 50, 1, 12),
            rect(0, 1, 1, 62),
            rect(4, 63, 0, 0),
        ]
    );
    let mut eager = Vec::new();
    root.gen_rects(&table, &symbol(4), 0, 0, &mut eager);
    assert_eq!(
        eager,
        vec![
            rect(4, 63, 0, 0),
            rect(3, 8, 1, 0),
            rect(2, 4, 1, 8),
            rect(1, 50, 1, 12),
            rect(4, 32, 2, 12),
            rect(0, 16, 2, 44),
            rect(0, 1, 1, 62),
        ]
    );
}

#[test]
fn the_keys_of_a_frame_are_the_names_backwards() {
    let table = fruits();
    let mut root = Node::new();
    for index in [2usize, 0, 4, 1, 3] {
        root.add(&[symbol(index)], 1);
    }
    let frame = Frame::new(&root, &table, &symbol(0), u64::MAX);
    // pear, fig, date, cherry, apple
    assert_eq!(frame.keys, vec![symbol(0), symbol(1), symbol(2), symbol(3), symbol(4)]);
    assert_eq!(frame.start, u64::MAX);
    assert_eq!(frame.offset, u64::MAX);
    for pair in frame.keys.windows(2) {
        assert!(table.precedes(pair[1], pair[0]));
    }
    assert_eq!(
        root.keys_by_name(&table),
        vec![symbol(4), symbol(3), symbol(2), symbol(1), symbol(0)]
    );
}

#[test]
fn names_are_compared_character_by_character() {
    let mut table = SymbolTable::new();
    let names = ["b", "ab", "a", "", "abc", "B", "\u{e9}", "z", "aa"];
    let symbols: Vec<Symbol> = names.iter().map(|name| table.intern(name).unwrap()).collect();
    for (i, one) in names.iter().enumerate() {
        for (j, other) in names.iter().enumerate() {
            assert_eq!(table.precedes(symbols[i], symbols[j]), one < other);
        }
    }
    let mut root = Node::new();
    for (i, sym) in symbols.iter().enumerate() {
        root.add(&[*sym], (i as u64) + 1);
    }
    let keys = root.keys_by_name(&table);
    let sorted: Vec<&str> = keys.iter().map(|key| table.resolve(*key).unwrap()).collect();
    assert_eq!(sorted, vec!["", "B", "a", "aa", "ab", "abc", "b", "z", "\u{e9}"]);
}
