//! What holds of every layout, proved from the definitions in
//! [`crate::layout`] and [`crate::order`].
//!
//! A node is addressed by the way to it from the root: the position of a
//! child among the children of the root, then the position of a child of
//! that child, and so on.
//!
//! The statements that matter most to a user of the library:
//!
//! * [`lemma_post_order_by_way`] and [`lemma_post_ways_complete`]: the
//!   layout gives one rectangle for each node of the tree, and no other.
//! * [`lemma_way_of_path`] and [`lemma_path_of_way`]: the nodes of the tree
//!   in the order of names are the nodes of the frame tree, each at the end
//!   of a way as long as the path to it.
//! * [`lemma_rect_of_child`]: where the rectangle of a child lies.
//! * [`lemma_siblings_adjacent`] and [`lemma_siblings_apart`]: siblings lie
//!   side by side, without gap or overlap.
//! * [`lemma_layout_by_name`]: in the layout of a frame tree, of two
//!   children of one node the one whose name comes first lies to the left.
//! * [`lemma_child_within_parent`]: a child lies within the width of its
//!   parent, one row below it.
//! * [`lemma_post_order_named`]: the table knows the name of every
//!   rectangle.
//! * [`lemma_orders_agree`]: the walk and the recursion give the same
//!   rectangles.

use crate::layout::post_order;
use crate::layout::pre_order;
use crate::layout::pre_siblings;
use crate::layout::siblings;
use crate::layout::RectView;
use crate::order::by_names;
use crate::order::fits;
use crate::order::in_name_order;
use crate::order::lemma_by_names;
use crate::order::lemma_comes_before_asymmetric;
use crate::order::lemma_sorted_holds;
use crate::order::lemma_sorted_member;
use crate::symbol::precedes;
use crate::symbol::Symbol;
use crate::tree::slot;
use crate::tree::sum_counts;
use crate::tree::Branch;
use crate::tree::Tree;
use crate::tree_laws::lemma_child_by_name;
use crate::tree_laws::lemma_sum_counts_prefix;
use vstd::prelude::*;

verus! {

/// The node at the end of `way`, if the tree has a node there.
pub open spec fn node_at(tree: Tree, way: Seq<int>) -> Option<Tree>
    decreases way.len(),
{
    if way.len() == 0 {
        Some(tree)
    } else if 0 <= way.first() < tree.children.len() {
        node_at(tree.children[way.first()].tree, way.drop_first())
    } else {
        None
    }
}

/// The rectangle of the node at the end of `way`, if the tree has a node
/// there, where the root is called `name` and lies at `depth` and `offset`:
/// it is called like the child that it is, lies one row lower for every
/// step of `way`, is as wide as the count of the node, and starts where its
/// parent starts, moved right by the counts of the children before it.
pub open spec fn rect_at(
    tree: Tree,
    name: Symbol,
    depth: nat,
    offset: nat,
    way: Seq<int>,
) -> Option<RectView>
    decreases way.len(),
{
    if way.len() == 0 {
        Some(RectView { name, count: tree.count, depth, offset })
    } else if 0 <= way.first() < tree.children.len() {
        let child = tree.children[way.first()];
        rect_at(
            child.tree,
            child.name,
            depth + 1,
            offset + sum_counts(tree.children.take(way.first())),
            way.drop_first(),
        )
    } else {
        None
    }
}

/// The ways to the nodes of `tree`, in the order in which the layout gives
/// their rectangles.
pub open spec fn post_ways(tree: Tree) -> Seq<Seq<int>>
    decreases tree, 0nat,
{
    sibling_ways(tree.children, 0).push(Seq::empty())
}

/// The ways, seen from the parent, to the nodes under the children from
/// position `from` on, in the order in which the layout gives their
/// rectangles.
pub open spec fn sibling_ways(children: Seq<Branch>, from: nat) -> Seq<Seq<int>>
    decreases children, children.len() - from,
{
    if from >= children.len() {
        Seq::empty()
    } else {
        post_ways(children[from as int].tree).map_values(|way: Seq<int>| seq![from as int] + way)
            + sibling_ways(children, from + 1)
    }
}

/// The layout gives, for each way of [`post_ways`] in turn, the rectangle of
/// the node at the end of that way.
pub proof fn lemma_post_order_by_way(tree: Tree, name: Symbol, depth: nat, offset: nat)
    ensures
        post_order(tree, name, depth, offset).len() == post_ways(tree).len(),
        forall|k: int|
            0 <= k < post_ways(tree).len() ==> rect_at(
                tree,
                name,
                depth,
                offset,
                #[trigger] post_ways(tree)[k],
            ) == Some(post_order(tree, name, depth, offset)[k]),
    decreases tree, 0nat,
{
    lemma_siblings_by_way(tree, name, depth, offset, 0);
    assert(tree.children.take(0) =~= Seq::<Branch>::empty());
}

/// [`lemma_post_order_by_way`], for the children of `tree` from position
/// `from` on.
pub proof fn lemma_siblings_by_way(tree: Tree, name: Symbol, depth: nat, offset: nat, from: nat)
    requires
        from <= tree.children.len(),
    ensures
        siblings(
            tree.children,
            from,
            depth + 1,
            offset + sum_counts(tree.children.take(from as int)),
        ).len() == sibling_ways(tree.children, from).len(),
        forall|k: int|
            0 <= k < sibling_ways(tree.children, from).len() ==> rect_at(
                tree,
                name,
                depth,
                offset,
                #[trigger] sibling_ways(tree.children, from)[k],
            ) == Some(
                siblings(
                    tree.children,
                    from,
                    depth + 1,
                    offset + sum_counts(tree.children.take(from as int)),
                )[k],
            ),
    decreases tree.children, tree.children.len() - from,
{
    let kids = tree.children;
    if from < kids.len() {
        let first = kids[from as int];
        let start = offset + sum_counts(kids.take(from as int));
        let block_ways = post_ways(first.tree).map_values(
            |way: Seq<int>| seq![from as int] + way,
        );
        let block = post_order(first.tree, first.name, depth + 1, start);
        let later_ways = sibling_ways(kids, from + 1);
        let later = siblings(kids, from + 1, depth + 1, start + first.tree.count);
        assert(kids.take(from as int + 1).drop_last() =~= kids.take(from as int));
        assert(kids.take(from as int + 1).last() == first);
        lemma_post_order_by_way(first.tree, first.name, depth + 1, start);
        lemma_siblings_by_way(tree, name, depth, offset, from + 1);
        assert(siblings(kids, from, depth + 1, start) == block + later);
        assert(sibling_ways(kids, from) == block_ways + later_ways);
        assert forall|k: int| 0 <= k < sibling_ways(kids, from).len() implies rect_at(
            tree,
            name,
            depth,
            offset,
            #[trigger] sibling_ways(kids, from)[k],
        ) == Some(siblings(kids, from, depth + 1, start)[k]) by {
            let way = sibling_ways(kids, from)[k];
            if k < block_ways.len() {
                let inner = post_ways(first.tree)[k];
                assert(way == seq![from as int] + inner);
                assert(way.first() == from);
                assert(way.drop_first() =~= inner);
            } else {
                assert(way == later_ways[k - block_ways.len()]);
            }
        }
    }
}

/// Every node of the tree has exactly one way in [`post_ways`], and no
/// other way is there: the layout gives one rectangle for each node.
pub proof fn lemma_post_ways_complete(tree: Tree)
    ensures
        post_ways(tree).no_duplicates(),
        forall|way: Seq<int>| #[trigger]
            post_ways(tree).contains(way) <==> node_at(tree, way) is Some,
    decreases tree, 0nat,
{
    let below = sibling_ways(tree.children, 0);
    let all = post_ways(tree);
    lemma_sibling_ways_complete(tree, 0);
    assert forall|way: Seq<int>| #[trigger] all.contains(way) <==> node_at(tree, way) is Some by {
        if all.contains(way) {
            let k = choose|k: int| 0 <= k < all.len() && all[k] == way;
            if k < below.len() {
                assert(below.contains(way));
            }
        }
        if node_at(tree, way) is Some {
            if way.len() == 0 {
                assert(way =~= Seq::<int>::empty());
                assert(all[below.len() as int] == way);
            } else {
                assert(below.contains(way));
                let k = choose|k: int| 0 <= k < below.len() && below[k] == way;
                assert(all[k] == way);
            }
        }
    }
    assert forall|i: int, j: int| 0 <= i < j < all.len() implies all[i] != all[j] by {
        if j == below.len() {
            assert(below.contains(all[i]));
        }
    }
}

/// [`lemma_post_ways_complete`], for the children of `tree` from position
/// `from` on.
pub proof fn lemma_sibling_ways_complete(tree: Tree, from: nat)
    requires
        from <= tree.children.len(),
    ensures
        sibling_ways(tree.children, from).no_duplicates(),
        forall|way: Seq<int>| #[trigger]
            sibling_ways(tree.children, from).contains(way) <==> way.len() > 0 && way.first()
                >= from && node_at(tree, way) is Some,
    decreases tree.children, tree.children.len() - from,
{
    let kids = tree.children;
    let all = sibling_ways(kids, from);
    if from < kids.len() {
        let first = kids[from as int];
        let inner = post_ways(first.tree);
        let block = inner.map_values(|way: Seq<int>| seq![from as int] + way);
        let later = sibling_ways(kids, from + 1);
        lemma_post_ways_complete(first.tree);
        lemma_sibling_ways_complete(tree, from + 1);
        assert(all == block + later);
        assert forall|way: Seq<int>| #[trigger] all.contains(way) <==> way.len() > 0 && way.first()
            >= from && node_at(tree, way) is Some by {
            if all.contains(way) {
                let k = choose|k: int| 0 <= k < all.len() && all[k] == way;
                if k < block.len() {
                    assert(way == seq![from as int] + inner[k]);
                    assert(way.first() == from);
                    assert(way.drop_first() =~= inner[k]);
                    assert(inner.contains(inner[k]));
                } else {
                    assert(later[k - block.len()] == way);
                    assert(later.contains(way));
                }
            }
            if way.len() > 0 && way.first() >= from && node_at(tree, way) is Some {
                if way.first() == from {
                    assert(inner.contains(way.drop_first()));
                    let k = choose|k: int| 0 <= k < inner.len() && inner[k] == way.drop_first();
                    assert(block[k] =~= way);
                    assert(all[k] == way);
                } else {
                    assert(later.contains(way));
                    let k = choose|k: int| 0 <= k < later.len() && later[k] == way;
                    assert(all[block.len() + k] == way);
                }
            }
        }
        assert forall|i: int, j: int| 0 <= i < j < all.len() implies all[i] != all[j] by {
            if j < block.len() {
                assert(all[i] == seq![from as int] + inner[i]);
                assert(all[j] == seq![from as int] + inner[j]);
                assert(all[i].drop_first() =~= inner[i]);
                assert(all[j].drop_first() =~= inner[j]);
            } else if i < block.len() {
                assert(all[i] == seq![from as int] + inner[i]);
                assert(all[i].first() == from);
                assert(later.contains(later[j - block.len()]));
            } else {
                assert(all[i] == later[i - block.len()]);
                assert(all[j] == later[j - block.len()]);
            }
        }
    }
}

/// The node at the end of a way that goes one step further is a child of
/// the node at the end of the way.
pub proof fn lemma_node_at_push(tree: Tree, way: Seq<int>, i: int)
    ensures
        node_at(tree, way.push(i)) == match node_at(tree, way) {
            Some(node) => if 0 <= i < node.children.len() {
                Some(node.children[i].tree)
            } else {
                None
            },
            None => None,
        },
    decreases way.len(),
{
    let longer = way.push(i);
    if way.len() == 0 {
        assert(longer.first() == i);
        assert(longer.drop_first() =~= Seq::<int>::empty());
        if 0 <= i < tree.children.len() {
            assert(node_at(tree.children[i].tree, longer.drop_first()) == Some(
                tree.children[i].tree,
            ));
        }
    } else {
        assert(longer.first() == way.first());
        assert(longer.drop_first() =~= way.drop_first().push(i));
        if 0 <= way.first() < tree.children.len() {
            lemma_node_at_push(tree.children[way.first()].tree, way.drop_first(), i);
        }
    }
}

/// Every node of a frame tree is a node of the tree in the order of names:
/// to the node at the end of `path` there is a way of the same length, and
/// the rectangle at its end has the count of that node.
pub proof fn lemma_way_of_path(tree: Tree, names: Seq<Seq<char>>, path: Seq<Symbol>) -> (way: Seq<
    int,
>)
    requires
        tree.wf(),
        tree.has(path),
    ensures
        way.len() == path.len(),
        node_at(by_names(tree, names), way) == Some(by_names(tree.at(path)->0, names)),
        node_at(by_names(tree, names), way)->0.count == tree.count_at(path),
    decreases path.len(),
{
    if path.len() == 0 {
        Seq::empty()
    } else {
        let i = slot(tree.children, path.first()) as int;
        let k = lemma_sorted_holds(tree.children, names, i);
        assert(tree.children[i].tree.wf());
        let rest = lemma_way_of_path(tree.children[i].tree, names, path.drop_first());
        let way = seq![k] + rest;
        assert(way.first() == k);
        assert(way.drop_first() =~= rest);
        way
    }
}

/// Every node of the tree in the order of names is a node of the frame
/// tree: the way to it follows a path of the same length.
pub proof fn lemma_path_of_way(tree: Tree, names: Seq<Seq<char>>, way: Seq<int>) -> (path: Seq<
    Symbol,
>)
    requires
        tree.wf(),
        node_at(by_names(tree, names), way) is Some,
    ensures
        path.len() == way.len(),
        tree.has(path),
        node_at(by_names(tree, names), way) == Some(by_names(tree.at(path)->0, names)),
        node_at(by_names(tree, names), way)->0.count == tree.count_at(path),
    decreases way.len(),
{
    if way.len() == 0 {
        Seq::empty()
    } else {
        let k = way.first();
        let i = lemma_sorted_member(tree.children, names, k);
        lemma_child_by_name(tree, i);
        assert(tree.children[i].tree.wf());
        let rest = lemma_path_of_way(tree.children[i].tree, names, way.drop_first());
        let path = seq![tree.children[i].name] + rest;
        assert(path.first() == tree.children[i].name);
        assert(path.drop_first() =~= rest);
        path
    }
}

/// The rectangle of a node is as wide as the count of the node, and lies as
/// many rows below the root as the way to it is long.
pub proof fn lemma_rect_of_node(tree: Tree, name: Symbol, depth: nat, offset: nat, way: Seq<int>)
    requires
        node_at(tree, way) is Some,
    ensures
        rect_at(tree, name, depth, offset, way) is Some,
        rect_at(tree, name, depth, offset, way)->0.count == node_at(tree, way)->0.count,
        rect_at(tree, name, depth, offset, way)->0.depth == depth + way.len(),
    decreases way.len(),
{
    if way.len() > 0 {
        let child = tree.children[way.first()];
        lemma_rect_of_node(
            child.tree,
            child.name,
            depth + 1,
            offset + sum_counts(tree.children.take(way.first())),
            way.drop_first(),
        );
    }
}

/// The rectangle of a child is called like the child, lies one row below
/// that of its parent, is as wide as the count of the child, and starts
/// where the parent starts, moved right by the counts of the children
/// before it.
pub proof fn lemma_rect_of_child(
    tree: Tree,
    name: Symbol,
    depth: nat,
    offset: nat,
    way: Seq<int>,
    i: int,
)
    requires
        node_at(tree, way) is Some,
        0 <= i < node_at(tree, way)->0.children.len(),
    ensures
        rect_at(tree, name, depth, offset, way) is Some,
        rect_at(tree, name, depth, offset, way.push(i)) == Some(
            RectView {
                name: node_at(tree, way)->0.children[i].name,
                count: node_at(tree, way)->0.children[i].tree.count,
                depth: rect_at(tree, name, depth, offset, way)->0.depth + 1,
                offset: rect_at(tree, name, depth, offset, way)->0.offset + sum_counts(
                    node_at(tree, way)->0.children.take(i),
                ),
            },
        ),
    decreases way.len(),
{
    let node = node_at(tree, way)->0;
    let longer = way.push(i);
    if way.len() == 0 {
        let child = node.children[i];
        let start = offset + sum_counts(tree.children.take(i));
        assert(longer.first() == i);
        assert(longer.drop_first() =~= Seq::<int>::empty());
        assert(rect_at(child.tree, child.name, depth + 1, start, longer.drop_first()) == Some(
            RectView { name: child.name, count: child.tree.count, depth: depth + 1, offset: start },
        ));
        assert(rect_at(tree, name, depth, offset, longer) == rect_at(
            child.tree,
            child.name,
            depth + 1,
            start,
            longer.drop_first(),
        ));
    } else {
        let below = tree.children[way.first()];
        let start = offset + sum_counts(tree.children.take(way.first()));
        assert(longer.first() == way.first());
        assert(longer.drop_first() =~= way.drop_first().push(i));
        lemma_rect_of_child(below.tree, below.name, depth + 1, start, way.drop_first(), i);
        assert(rect_at(tree, name, depth, offset, longer) == rect_at(
            below.tree,
            below.name,
            depth + 1,
            start,
            longer.drop_first(),
        ));
        assert(rect_at(tree, name, depth, offset, way) == rect_at(
            below.tree,
            below.name,
            depth + 1,
            start,
            way.drop_first(),
        ));
    }
}

/// Of two children that follow each other, the rectangle of the second
/// starts where that of the first ends, on the same row.
pub proof fn lemma_siblings_adjacent(
    tree: Tree,
    name: Symbol,
    depth: nat,
    offset: nat,
    way: Seq<int>,
    i: int,
)
    requires
        node_at(tree, way) is Some,
        0 <= i,
        i + 1 < node_at(tree, way)->0.children.len(),
    ensures
        ({
            let left = rect_at(tree, name, depth, offset, way.push(i));
            let right = rect_at(tree, name, depth, offset, way.push(i + 1));
            &&& left is Some
            &&& right is Some
            &&& left->0.depth == right->0.depth
            &&& left->0.offset + left->0.count == right->0.offset
        }),
{
    let kids = node_at(tree, way)->0.children;
    lemma_rect_of_child(tree, name, depth, offset, way, i);
    lemma_rect_of_child(tree, name, depth, offset, way, i + 1);
    assert(kids.take(i + 1).drop_last() =~= kids.take(i));
    assert(kids.take(i + 1).last() == kids[i]);
}

/// Of two children of one node, the one that stands first lies wholly to
/// the left of the other, on the same row: siblings never overlap.
pub proof fn lemma_siblings_apart(
    tree: Tree,
    name: Symbol,
    depth: nat,
    offset: nat,
    way: Seq<int>,
    i: int,
    j: int,
)
    requires
        node_at(tree, way) is Some,
        0 <= i < j < node_at(tree, way)->0.children.len(),
    ensures
        ({
            let left = rect_at(tree, name, depth, offset, way.push(i));
            let right = rect_at(tree, name, depth, offset, way.push(j));
            &&& left is Some
            &&& right is Some
            &&& left->0.depth == right->0.depth
            &&& left->0.offset + left->0.count <= right->0.offset
        }),
{
    let kids = node_at(tree, way)->0.children;
    lemma_rect_of_child(tree, name, depth, offset, way, i);
    lemma_rect_of_child(tree, name, depth, offset, way, j);
    assert(kids.take(i + 1).drop_last() =~= kids.take(i));
    assert(kids.take(i + 1).last() == kids[i]);
    lemma_sum_counts_prefix(kids.take(j), i + 1);
    assert(kids.take(j).take(i + 1) =~= kids.take(i + 1));
}

/// What holds at every node of a tree holds at the node at the end of a
/// way: the children are in the order of their names, and the counts fit.
pub proof fn lemma_at_node(tree: Tree, names: Seq<Seq<char>>, way: Seq<int>)
    requires
        node_at(tree, way) is Some,
    ensures
        in_name_order(tree, names) ==> in_name_order(node_at(tree, way)->0, names),
        fits(tree) ==> fits(node_at(tree, way)->0),
    decreases way.len(),
{
    if way.len() > 0 {
        let child = tree.children[way.first()];
        lemma_at_node(child.tree, names, way.drop_first());
    }
}

/// In a tree whose children are in the order of their names, of two
/// children of one node the one whose name comes first lies wholly to the
/// left of the other, on the same row.
pub proof fn lemma_siblings_by_name(
    tree: Tree,
    names: Seq<Seq<char>>,
    name: Symbol,
    depth: nat,
    offset: nat,
    way: Seq<int>,
    i: int,
    j: int,
)
    requires
        in_name_order(tree, names),
        node_at(tree, way) is Some,
        0 <= i < node_at(tree, way)->0.children.len(),
        0 <= j < node_at(tree, way)->0.children.len(),
        precedes(
            names,
            node_at(tree, way)->0.children[i].name,
            node_at(tree, way)->0.children[j].name,
        ),
    ensures
        i < j,
        ({
            let left = rect_at(tree, name, depth, offset, way.push(i));
            let right = rect_at(tree, name, depth, offset, way.push(j));
            &&& left is Some
            &&& right is Some
            &&& left->0.depth == right->0.depth
            &&& left->0.offset + left->0.count <= right->0.offset
            &&& j == i + 1 ==> left->0.offset + left->0.count == right->0.offset
        }),
{
    let kids = node_at(tree, way)->0.children;
    lemma_at_node(tree, names, way);
    lemma_comes_before_asymmetric(
        names[kids[i].name.index as int],
        names[kids[j].name.index as int],
    );
    if j < i {
        assert(precedes(names, kids[j].name, kids[i].name));
    }
    lemma_siblings_apart(tree, name, depth, offset, way, i, j);
    if j == i + 1 {
        lemma_siblings_adjacent(tree, name, depth, offset, way, i);
    }
}

/// In the layout of a frame tree, of two children of one node the one whose
/// name comes first in the dictionary stands first and lies wholly to the
/// left of the other, on the same row, whatever the order in which the names
/// were interned; where the two follow each other, the second starts where
/// the first ends.
pub proof fn lemma_layout_by_name(
    tree: Tree,
    names: Seq<Seq<char>>,
    name: Symbol,
    depth: nat,
    offset: nat,
    way: Seq<int>,
    i: int,
    j: int,
)
    requires
        names.no_duplicates(),
        tree.wf(),
        tree.named(names.len()),
        node_at(by_names(tree, names), way) is Some,
        0 <= i < node_at(by_names(tree, names), way)->0.children.len(),
        0 <= j < node_at(by_names(tree, names), way)->0.children.len(),
        precedes(
            names,
            node_at(by_names(tree, names), way)->0.children[i].name,
            node_at(by_names(tree, names), way)->0.children[j].name,
        ),
    ensures
        i < j,
        ({
            let laid = by_names(tree, names);
            let left = rect_at(laid, name, depth, offset, way.push(i));
            let right = rect_at(laid, name, depth, offset, way.push(j));
            &&& left is Some
            &&& right is Some
            &&& left->0.depth == right->0.depth
            &&& left->0.offset + left->0.count <= right->0.offset
            &&& j == i + 1 ==> left->0.offset + left->0.count == right->0.offset
        }),
{
    lemma_by_names(tree, names);
    lemma_siblings_by_name(by_names(tree, names), names, name, depth, offset, way, i, j);
}

/// The rectangle of a node other than the root lies one row below that of
/// its parent and within its width.
pub proof fn lemma_child_within_parent(
    tree: Tree,
    name: Symbol,
    depth: nat,
    offset: nat,
    way: Seq<int>,
)
    requires
        fits(tree),
        node_at(tree, way) is Some,
        way.len() > 0,
    ensures
        ({
            let child = rect_at(tree, name, depth, offset, way);
            let parent = rect_at(tree, name, depth, offset, way.drop_last());
            &&& child is Some
            &&& parent is Some
            &&& child->0.depth == parent->0.depth + 1
            &&& parent->0.offset <= child->0.offset
            &&& child->0.offset + child->0.count <= parent->0.offset + parent->0.count
        }),
{
    let up = way.drop_last();
    let i = way.last();
    assert(up.push(i) =~= way);
    lemma_node_at_push(tree, up, i);
    let node = node_at(tree, up)->0;
    lemma_at_node(tree, Seq::empty(), up);
    lemma_rect_of_child(tree, name, depth, offset, up, i);
    lemma_rect_of_node(tree, name, depth, offset, up);
    assert(node.children.take(i + 1).drop_last() =~= node.children.take(i));
    assert(node.children.take(i + 1).last() == node.children[i]);
    lemma_sum_counts_prefix(node.children, i + 1);
}

/// In the layout of a frame tree every child lies within the width of its
/// parent, one row below it.
pub proof fn lemma_layout_within_parent(
    tree: Tree,
    names: Seq<Seq<char>>,
    name: Symbol,
    depth: nat,
    offset: nat,
    way: Seq<int>,
)
    requires
        names.no_duplicates(),
        tree.wf(),
        tree.named(names.len()),
        node_at(by_names(tree, names), way) is Some,
        way.len() > 0,
    ensures
        ({
            let laid = by_names(tree, names);
            let child = rect_at(laid, name, depth, offset, way);
            let parent = rect_at(laid, name, depth, offset, way.drop_last());
            &&& child is Some
            &&& parent is Some
            &&& child->0.depth == parent->0.depth + 1
            &&& parent->0.offset <= child->0.offset
            &&& child->0.offset + child->0.count <= parent->0.offset + parent->0.count
        }),
{
    lemma_by_names(tree, names);
    lemma_child_within_parent(by_names(tree, names), name, depth, offset, way);
}

/// Where a table knows the name of the root and every name in the tree, it
/// knows the name of every rectangle of the layout.
pub proof fn lemma_post_order_named(tree: Tree, name: Symbol, depth: nat, offset: nat, limit: nat)
    requires
        tree.named(limit),
        name.index < limit,
    ensures
        forall|k: int|
            0 <= k < post_order(tree, name, depth, offset).len() ==> (#[trigger] post_order(
                tree,
                name,
                depth,
                offset,
            )[k]).name.index < limit,
    decreases tree, 0nat,
{
    lemma_siblings_named(tree.children, 0, depth + 1, offset, limit);
    let below = siblings(tree.children, 0, depth + 1, offset);
    let all = post_order(tree, name, depth, offset);
    assert forall|k: int| 0 <= k < all.len() implies (#[trigger] all[k]).name.index < limit by {
        if k < below.len() {
            assert(all[k] == below[k]);
        }
    }
}

/// [`lemma_post_order_named`], for the children from position `from` on.
pub proof fn lemma_siblings_named(
    children: Seq<Branch>,
    from: nat,
    depth: nat,
    offset: nat,
    limit: nat,
)
    requires
        forall|i: int|
            0 <= i < children.len() ==> (#[trigger] children[i]).name.index < limit
                && children[i].tree.named(limit),
    ensures
        forall|k: int|
            0 <= k < siblings(children, from, depth, offset).len() ==> (#[trigger] siblings(
                children,
                from,
                depth,
                offset,
            )[k]).name.index < limit,
    decreases children, children.len() - from,
{
    if from < children.len() {
        let first = children[from as int];
        let block = post_order(first.tree, first.name, depth, offset);
        let later = siblings(children, from + 1, depth, offset + first.tree.count);
        let all = siblings(children, from, depth, offset);
        lemma_post_order_named(first.tree, first.name, depth, offset, limit);
        lemma_siblings_named(children, from + 1, depth, offset + first.tree.count, limit);
        assert(all == block + later);
        assert forall|k: int| 0 <= k < all.len() implies (#[trigger] all[k]).name.index < limit by {
            if k < block.len() {
                assert(all[k] == block[k]);
            } else {
                assert(all[k] == later[k - block.len()]);
            }
        }
    }
}

/// Whether a node comes before its children or after them, the rectangles
/// are the same: the two orders differ in nothing but the order.
pub proof fn lemma_orders_agree(tree: Tree, name: Symbol, depth: nat, offset: nat)
    ensures
        pre_order(tree, name, depth, offset).to_multiset() == post_order(
            tree,
            name,
            depth,
            offset,
        ).to_multiset(),
    decreases tree, 0nat,
{
    let own = RectView { name, count: tree.count, depth, offset };
    let before = pre_siblings(tree.children, 0, depth + 1, offset);
    let after = siblings(tree.children, 0, depth + 1, offset);
    lemma_sibling_orders_agree(tree.children, 0, depth + 1, offset);
    vstd::seq_lib::lemma_multiset_commutative(seq![own], before);
    vstd::seq_lib::lemma_multiset_commutative(after, seq![own]);
    vstd::seq_lib::lemma_seq_union_to_multiset_commutative(after, seq![own]);
    assert(after.push(own) =~= after + seq![own]);
}

/// [`lemma_orders_agree`], for the children from position `from` on.
pub proof fn lemma_sibling_orders_agree(children: Seq<Branch>, from: nat, depth: nat, offset: nat)
    ensures
        pre_siblings(children, from, depth, offset).to_multiset() == siblings(
            children,
            from,
            depth,
            offset,
        ).to_multiset(),
    decreases children, children.len() - from,
{
    if from < children.len() {
        let first = children[from as int];
        let next = offset + first.tree.count;
        lemma_orders_agree(first.tree, first.name, depth, offset);
        lemma_sibling_orders_agree(children, from + 1, depth, next);
        vstd::seq_lib::lemma_multiset_commutative(
            pre_order(first.tree, first.name, depth, offset),
            pre_siblings(children, from + 1, depth, next),
        );
        vstd::seq_lib::lemma_multiset_commutative(
            post_order(first.tree, first.name, depth, offset),
            siblings(children, from + 1, depth, next),
        );
    }
}

} // verus!
