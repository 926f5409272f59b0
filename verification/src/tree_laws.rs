//! What holds of every frame tree, proved from the definitions in
//! [`crate::tree`].
//!
//! The statements that matter most to a user of the library:
//!
//! * [`lemma_root_count_is_total`]: the root counts the samples of all
//!   records together.
//! * [`lemma_counts_of_records`]: a node counts the samples whose stack
//!   passes through it; what it counts beyond its children are the samples
//!   whose stack ends there.
//! * [`lemma_child_count_le`]: no child counts more than its parent.
//! * [`lemma_with_record_at`]: what one record changes, node by node.
//! * [`lemma_with_record_twice`]: the same record twice is one record with
//!   twice the count.
//! * [`lemma_effective_max_depth_monotonic`]: a higher threshold never
//!   makes the graph deeper.
//! * [`lemma_visible_within_depth`] and [`lemma_depth_is_reached`]: every
//!   visible node lies within the depth that the resolver gives, and some
//!   visible node lies exactly that deep.
//! * [`lemma_depth_without_threshold`]: without a threshold the resolver
//!   gives the height of the tree.
//!
//! The other statements serve these, and the proofs in the other modules.

use crate::symbol::Symbol;
use crate::tree::ascending;
use crate::tree::deepest;
use crate::tree::ending_at;
use crate::tree::passing;
use crate::tree::slot;
use crate::tree::total;
use crate::tree::Record;
use crate::tree::sum_counts;
use crate::tree::Branch;
use crate::tree::Tree;
use vstd::prelude::*;

verus! {

/// Among ascending children, the position that separates the symbols with a
/// lesser index than `name` from the others is the slot of `name`.
pub proof fn lemma_slot_is(children: Seq<Branch>, name: Symbol, i: int)
    requires
        0 <= i <= children.len(),
        forall|k: int| 0 <= k < i ==> (#[trigger] children[k]).name.index < name.index,
        forall|k: int|
            i <= k < children.len() ==> (#[trigger] children[k]).name.index >= name.index,
    ensures
        slot(children, name) == i,
    decreases children.len(),
{
    if children.len() > 0 {
        let front = children.drop_last();
        if i == children.len() {
            assert(children.last() == children[children.len() - 1]);
            lemma_slot_is(front, name, i - 1);
        } else {
            assert(children.last() == children[children.len() - 1]);
            lemma_slot_is(front, name, i);
        }
    }
}

/// Among ascending children, the symbols before the slot of `name` have a
/// lesser index than `name` and those from the slot on have not.
pub proof fn lemma_slot_bounds(children: Seq<Branch>, name: Symbol)
    requires
        ascending(children),
    ensures
        slot(children, name) <= children.len(),
        forall|k: int|
            0 <= k < slot(children, name) ==> (#[trigger] children[k]).name.index < name.index,
        forall|k: int|
            slot(children, name) <= k < children.len() ==> (#[trigger] children[k]).name.index
                >= name.index,
    decreases children.len(),
{
    if children.len() > 0 {
        let front = children.drop_last();
        lemma_slot_bounds(front, name);
        assert forall|k: int| 0 <= k < front.len() implies front[k] == children[k] by {}
        if children.last().name.index < name.index {
            assert forall|k: int| 0 <= k < children.len() implies
                (#[trigger] children[k]).name.index < name.index by {
                if k < children.len() - 1 {
                    assert(children[k].name.index < children[children.len() - 1].name.index);
                }
            }
            lemma_slot_is(front, name, front.len() as int);
        } else {
            assert forall|k: int| slot(children, name) <= k < children.len() implies
                (#[trigger] children[k]).name.index >= name.index by {
                if k < children.len() - 1 {
                    assert(front[k].name.index >= name.index);
                }
            }
        }
    }
}

/// No child counts more than all children together.
pub proof fn lemma_sum_counts_bounds(children: Seq<Branch>, i: int)
    requires
        0 <= i < children.len(),
    ensures
        children[i].tree.count <= sum_counts(children),
    decreases children.len(),
{
    if i < children.len() - 1 {
        lemma_sum_counts_bounds(children.drop_last(), i);
    }
}

/// The first children count no more than all of them.
pub proof fn lemma_sum_counts_prefix(children: Seq<Branch>, n: int)
    requires
        0 <= n <= children.len(),
    ensures
        sum_counts(children.take(n)) <= sum_counts(children),
    decreases children.len(),
{
    if n < children.len() {
        lemma_sum_counts_prefix(children.drop_last(), n);
        assert(children.drop_last().take(n) =~= children.take(n));
    } else {
        assert(children.take(n) =~= children);
    }
}

/// Replacing one child changes the sum of the counts by the difference of the
/// two counts.
pub proof fn lemma_sum_counts_update(children: Seq<Branch>, i: int, branch: Branch)
    requires
        0 <= i < children.len(),
    ensures
        sum_counts(children.update(i, branch)) + children[i].tree.count == sum_counts(children)
            + branch.tree.count,
    decreases children.len(),
{
    let updated = children.update(i, branch);
    if i < children.len() - 1 {
        lemma_sum_counts_update(children.drop_last(), i, branch);
        assert(updated.drop_last() =~= children.drop_last().update(i, branch));
    } else {
        assert(updated.drop_last() =~= children.drop_last());
    }
}

/// Inserting a child adds its count to the sum.
pub proof fn lemma_sum_counts_insert(children: Seq<Branch>, i: int, branch: Branch)
    requires
        0 <= i <= children.len(),
    ensures
        sum_counts(children.insert(i, branch)) == sum_counts(children) + branch.tree.count,
    decreases children.len(),
{
    let inserted = children.insert(i, branch);
    if i < children.len() {
        lemma_sum_counts_insert(children.drop_last(), i, branch);
        assert(inserted.drop_last() =~= children.drop_last().insert(i, branch));
        assert(inserted.last() == children.last());
    } else {
        assert(inserted.drop_last() =~= children);
    }
}

/// Recording a stack keeps the invariant of the tree.
pub proof fn lemma_with_record_wf(tree: Tree, path: Seq<Symbol>, count: nat)
    requires
        tree.wf(),
    ensures
        tree.with_record(path, count).wf(),
        tree.with_record(path, count).count == tree.count + count,
    decreases path.len(),
{
    if path.len() > 0 {
        let name = path.first();
        let i = slot(tree.children, name) as int;
        let after = tree.with_record(path, count);
        lemma_slot_bounds(tree.children, name);
        if i < tree.children.len() && tree.children[i].name == name {
            let below = tree.children[i].tree.with_record(path.drop_first(), count);
            lemma_with_record_wf(tree.children[i].tree, path.drop_first(), count);
            lemma_sum_counts_update(tree.children, i, Branch { name, tree: below });
            assert forall|k: int| 0 <= k < after.children.len() implies
                (#[trigger] after.children[k]).tree.wf() by {
                if k != i {
                    assert(after.children[k] == tree.children[k]);
                }
            }
            assert(ascending(after.children)) by {
                assert forall|a: int, b: int| 0 <= a < b < after.children.len() implies
                    after.children[a].name.index < after.children[b].name.index by {
                    assert(after.children[a].name == tree.children[a].name);
                    assert(after.children[b].name == tree.children[b].name);
                }
            }
        } else {
            let below = Tree::empty().with_record(path.drop_first(), count);
            assert(Tree::empty().wf());
            lemma_with_record_wf(Tree::empty(), path.drop_first(), count);
            lemma_sum_counts_insert(tree.children, i, Branch { name, tree: below });
            assert forall|k: int| 0 <= k < after.children.len() implies
                (#[trigger] after.children[k]).tree.wf() by {
                if k < i {
                    assert(after.children[k] == tree.children[k]);
                } else if k > i {
                    assert(after.children[k] == tree.children[k - 1]);
                }
            }
            assert(ascending(after.children)) by {
                assert forall|a: int, b: int| 0 <= a < b < after.children.len() implies
                    after.children[a].name.index < after.children[b].name.index by {
                    if a < i {
                        assert(after.children[a] == tree.children[a]);
                    } else if a > i {
                        assert(after.children[a] == tree.children[a - 1]);
                    }
                    if b < i {
                        assert(after.children[b] == tree.children[b]);
                    } else if b > i {
                        assert(after.children[b] == tree.children[b - 1]);
                    }
                }
            }
        }
    }
}

/// No path from `tree` down is longer than `limit`.
pub open spec fn within(tree: Tree, limit: nat) -> bool
    decreases tree,
{
    tree.children.len() == 0 || (limit > 0 && forall|i: int|
        0 <= i < tree.children.len() ==> within(
            (#[trigger] tree.children[i]).tree,
            (limit - 1) as nat,
        ))
}

/// A tree within a limit is within every larger limit.
pub proof fn lemma_within_more(tree: Tree, limit: nat, more: nat)
    requires
        within(tree, limit),
        limit <= more,
    ensures
        within(tree, more),
    decreases tree,
{
    if tree.children.len() > 0 {
        assert forall|i: int| 0 <= i < tree.children.len() implies
            within((#[trigger] tree.children[i]).tree, (more - 1) as nat) by {
            lemma_within_more(tree.children[i].tree, (limit - 1) as nat, (more - 1) as nat);
        }
    }
}

/// Recording a stack makes the tree no deeper than the stack is long.
pub proof fn lemma_with_record_within(tree: Tree, path: Seq<Symbol>, count: nat, limit: nat)
    requires
        within(tree, limit),
        path.len() <= limit,
    ensures
        within(tree.with_record(path, count), limit),
    decreases path.len(),
{
    if path.len() > 0 {
        let name = path.first();
        let i = slot(tree.children, name) as int;
        let after = tree.with_record(path, count);
        let lower = (limit - 1) as nat;
        if i < tree.children.len() && tree.children[i].name == name {
            lemma_with_record_within(tree.children[i].tree, path.drop_first(), count, lower);
            assert forall|k: int| 0 <= k < after.children.len() implies
                within((#[trigger] after.children[k]).tree, lower) by {
                if k != i {
                    assert(after.children[k] == tree.children[k]);
                }
            }
        } else {
            lemma_slot_count_le(tree.children, name);
            lemma_with_record_within(Tree::empty(), path.drop_first(), count, lower);
            assert forall|k: int| 0 <= k < after.children.len() implies
                within((#[trigger] after.children[k]).tree, lower) by {
                if k < i {
                    assert(after.children[k] == tree.children[k]);
                } else if k > i {
                    assert(after.children[k] == tree.children[k - 1]);
                }
            }
        }
    }
}

/// A slot is a position in the sequence, or its end.
pub proof fn lemma_slot_count_le(children: Seq<Branch>, name: Symbol)
    ensures
        slot(children, name) <= children.len(),
    decreases children.len(),
{
    if children.len() > 0 {
        lemma_slot_count_le(children.drop_last(), name);
    }
}

/// No contribution to the depth of the flame graph is less than the floor
/// given.
pub proof fn lemma_deepest_floor(children: Seq<Branch>, min_count: nat, depth: nat, floor: nat)
    ensures
        deepest(children, min_count, depth, floor) >= floor,
    decreases children.len(),
{
    if children.len() > 0 {
        lemma_deepest_floor(children.drop_last(), min_count, depth, floor);
    }
}

/// A node contributes at least its own depth.
pub proof fn lemma_depth_from_floor(tree: Tree, min_count: nat, depth: nat)
    ensures
        tree.depth_from(min_count, depth) >= depth,
{
    lemma_deepest_floor(tree.children, min_count, depth + 1, depth);
}

/// Raising the visibility threshold never makes the flame graph deeper.
pub proof fn lemma_depth_monotonic(tree: Tree, lower: nat, higher: nat, depth: nat)
    requires
        lower <= higher,
    ensures
        tree.depth_from(higher, depth) <= tree.depth_from(lower, depth),
    decreases tree, 0nat,
{
    lemma_depth_from_floor(tree, lower, depth);
    if tree.count >= higher {
        lemma_deepest_monotonic(tree.children, lower, higher, depth + 1, depth);
    }
}

/// [`lemma_depth_monotonic`], for the children of a node.
pub proof fn lemma_deepest_monotonic(
    children: Seq<Branch>,
    lower: nat,
    higher: nat,
    depth: nat,
    floor: nat,
)
    requires
        lower <= higher,
    ensures
        deepest(children, higher, depth, floor) <= deepest(children, lower, depth, floor),
    decreases children, 1nat,
{
    if children.len() > 0 {
        lemma_deepest_monotonic(children.drop_last(), lower, higher, depth, floor);
        lemma_depth_monotonic(children.last().tree, lower, higher, depth);
    }
}

/// Raising `min_count` never increases the effective maximum depth.
pub proof fn lemma_effective_max_depth_monotonic(tree: Tree, lower: nat, higher: nat)
    requires
        lower <= higher,
    ensures
        tree.effective_max_depth(higher) <= tree.effective_max_depth(lower),
{
    lemma_depth_monotonic(tree, lower, higher, 0);
}

/// Recording the same stack twice is recording it once with the two counts
/// added.
pub proof fn lemma_with_record_twice(tree: Tree, path: Seq<Symbol>, first: nat, second: nat)
    requires
        tree.wf(),
    ensures
        tree.with_record(path, first).with_record(path, second) == tree.with_record(
            path,
            first + second,
        ),
    decreases path.len(),
{
    if path.len() > 0 {
        let name = path.first();
        let rest = path.drop_first();
        let i = slot(tree.children, name) as int;
        let once = tree.with_record(path, first);
        let twice = once.with_record(path, second);
        let both = tree.with_record(path, first + second);
        lemma_slot_bounds(tree.children, name);
        let sub = if i < tree.children.len() && tree.children[i].name == name {
            tree.children[i].tree
        } else {
            Tree::empty()
        };
        assert(sub.wf());
        lemma_with_record_twice(sub, rest, first, second);
        assert(once.children[i] == Branch { name, tree: sub.with_record(rest, first) });
        assert forall|k: int| 0 <= k < i implies (#[trigger] once.children[k]).name.index
            < name.index by {
            assert(once.children[k] == tree.children[k]);
        }
        assert forall|k: int| i <= k < once.children.len() implies
            (#[trigger] once.children[k]).name.index
            >= name.index by {
            if k > i {
                if i < tree.children.len() && tree.children[i].name == name {
                    assert(once.children[k] == tree.children[k]);
                } else {
                    assert(once.children[k] == tree.children[k - 1]);
                }
            }
        }
        lemma_slot_is(once.children, name, i);
        assert(twice.children =~= both.children);
    }
}

/// The subtree that a record for `path` grows: the one under the child named
/// like the first frame of `path`, or an empty one where that child is
/// missing.
pub open spec fn entered(tree: Tree, path: Seq<Symbol>) -> Tree {
    match tree.child(path.first()) {
        Some(below) => below,
        None => Tree::empty(),
    }
}

/// After a record for `path`, the child named like the first frame of `path`
/// is the one that the record has grown, and every other child is as before.
pub proof fn lemma_child_after_record(tree: Tree, path: Seq<Symbol>, count: nat, name: Symbol)
    requires
        tree.wf(),
        path.len() > 0,
    ensures
        tree.with_record(path, count).child(name) == if name == path.first() {
            Some(entered(tree, path).with_record(path.drop_first(), count))
        } else {
            tree.child(name)
        },
{
    let head = path.first();
    let i = slot(tree.children, head) as int;
    let j = slot(tree.children, name) as int;
    let after = tree.with_record(path, count);
    let existing = i < tree.children.len() && tree.children[i].name == head;
    lemma_with_record_wf(tree, path, count);
    lemma_slot_bounds(tree.children, head);
    lemma_slot_bounds(tree.children, name);
    lemma_slot_bounds(after.children, name);
    let shift = if !existing && name.index > head.index {
        j + 1
    } else {
        j
    };
    assert forall|k: int| 0 <= k < shift implies (#[trigger] after.children[k]).name.index
        < name.index by {
        if existing {
            assert(after.children[k].name == tree.children[k].name);
        } else if k < i {
            assert(after.children[k] == tree.children[k]);
        } else if k > i {
            assert(after.children[k] == tree.children[k - 1]);
        }
    }
    assert forall|k: int| shift <= k < after.children.len() implies
        (#[trigger] after.children[k]).name.index
        >= name.index by {
        if existing {
            assert(after.children[k].name == tree.children[k].name);
        } else if k < i {
            assert(after.children[k] == tree.children[k]);
        } else if k > i {
            assert(after.children[k] == tree.children[k - 1]);
        }
    }
    lemma_slot_is(after.children, name, shift);
    if shift < after.children.len() {
        if existing {
            if shift != i {
                assert(after.children[shift] == tree.children[shift]);
            }
        } else if shift < i {
            assert(after.children[shift] == tree.children[shift]);
        } else if shift > i {
            assert(after.children[shift] == tree.children[shift - 1]);
        }
    }
}

/// What a record changes in the tree, node by node: the nodes along the
/// stack of the record exist afterwards and count `count` more, the node at
/// the end of the stack has `count` more samples of its own, and nothing
/// else changes.
pub proof fn lemma_with_record_at(tree: Tree, path: Seq<Symbol>, count: nat, at: Seq<Symbol>)
    requires
        tree.wf(),
    ensures
        tree.with_record(path, count).has(at) == (tree.has(at) || at.is_prefix_of(path)),
        tree.with_record(path, count).count_at(at) == tree.count_at(at) + if at.is_prefix_of(path) {
            count
        } else {
            0
        },
        tree.with_record(path, count).own_at(at) == tree.own_at(at) + if at == path {
            count as int
        } else {
            0
        },
    decreases at.len(),
{
    let after = tree.with_record(path, count);
    if at.len() == 0 {
        assert(at.is_prefix_of(path));
        if path.len() > 0 {
            let head = path.first();
            let i = slot(tree.children, head) as int;
            lemma_slot_bounds(tree.children, head);
            if i < tree.children.len() && tree.children[i].name == head {
                lemma_sum_counts_update(tree.children, i, after.children[i]);
            } else {
                lemma_sum_counts_insert(
                    tree.children,
                    i,
                    Branch {
                        name: head,
                        tree: Tree::empty().with_record(path.drop_first(), count),
                    },
                );
            }
        } else {
            assert(at =~= path);
        }
    } else {
        let name = at.first();
        let rest = at.drop_first();
        if path.len() == 0 {
            assert(!at.is_prefix_of(path));
            assert(after.child(name) == tree.child(name));
        } else {
            lemma_child_after_record(tree, path, count, name);
            if name == path.first() {
                let below = entered(tree, path);
                lemma_slot_bounds(tree.children, name);
                assert(below.wf());
                lemma_with_record_at(below, path.drop_first(), count, rest);
                assert(at.is_prefix_of(path) == rest.is_prefix_of(path.drop_first())) by {
                    if rest.is_prefix_of(path.drop_first()) {
                        let tail = path.drop_first();
                        assert(rest == tail.subrange(0, rest.len() as int));
                        assert forall|k: int| 0 <= k < at.len() implies at[k] == path[k] by {
                            if k > 0 {
                                assert(at[k] == rest[k - 1]);
                                assert(rest[k - 1] == tail.subrange(0, rest.len() as int)[k - 1]);
                                assert(tail[k - 1] == path[k]);
                            }
                        }
                        assert(at =~= path.subrange(0, at.len() as int));
                    }
                    if at.is_prefix_of(path) {
                        assert(rest =~= path.drop_first().subrange(0, rest.len() as int));
                    }
                }
                assert((at == path) == (rest == path.drop_first())) by {
                    if rest == path.drop_first() {
                        assert(at =~= path);
                    }
                }
                if tree.child(name) is None {
                    assert(Tree::empty().at(rest) == if rest.len() == 0 {
                        Some(Tree::empty())
                    } else {
                        None::<Tree>
                    }) by {
                        if rest.len() > 0 {
                            assert(Tree::empty().child(rest.first()) is None);
                        }
                    }
                    assert(tree.at(at) is None);
                    if rest.len() == 0 {
                        assert(rest.is_prefix_of(path.drop_first()));
                        assert(sum_counts(Tree::empty().children) == 0);
                    }
                }
            } else {
                assert(!at.is_prefix_of(path)) by {
                    if at.is_prefix_of(path) {
                        assert(at[0] == path[0]);
                    }
                }
            }
        }
    }
}

/// A well-formed tree is well formed at every node.
pub proof fn lemma_at_wf(tree: Tree, path: Seq<Symbol>)
    requires
        tree.wf(),
        tree.has(path),
    ensures
        tree.at(path)->0.wf(),
    decreases path.len(),
{
    if path.len() > 0 {
        let i = slot(tree.children, path.first()) as int;
        assert(tree.children[i].tree.wf());
        lemma_at_wf(tree.children[i].tree, path.drop_first());
    }
}

/// The records keep the invariant of the tree.
pub proof fn lemma_with_records_wf(tree: Tree, records: Seq<Record>)
    requires
        tree.wf(),
    ensures
        tree.with_records(records).wf(),
    decreases records.len(),
{
    if records.len() > 0 {
        lemma_with_records_wf(tree, records.drop_last());
        lemma_with_record_wf(
            tree.with_records(records.drop_last()),
            records.last().path,
            records.last().count,
        );
    }
}

/// The count of the root grows by the samples of all the records together:
/// in a tree built from nothing but records, the count of the root is their
/// total.
pub proof fn lemma_root_count_is_total(tree: Tree, records: Seq<Record>)
    requires
        tree.wf(),
    ensures
        tree.with_records(records).count == tree.count + total(records),
        Tree::empty().with_records(records).count == total(records),
    decreases records.len(),
{
    if records.len() > 0 {
        let last = records.last();
        lemma_root_count_is_total(tree, records.drop_last());
        lemma_with_records_wf(tree, records.drop_last());
        lemma_with_record_wf(tree.with_records(records.drop_last()), last.path, last.count);
        lemma_with_records_wf(Tree::empty(), records.drop_last());
        lemma_with_record_wf(
            Tree::empty().with_records(records.drop_last()),
            last.path,
            last.count,
        );
    }
}

/// In a tree built from nothing but records, the count of a node is the
/// number of samples whose stack starts with the path to that node, and the
/// part of it that is not the count of a child is the number of samples
/// whose stack ends there.
pub proof fn lemma_counts_of_records(records: Seq<Record>, path: Seq<Symbol>)
    ensures
        Tree::empty().with_records(records).count_at(path) == passing(records, path),
        Tree::empty().with_records(records).own_at(path) == ending_at(records, path),
        Tree::empty().with_records(records).has(path) ==> Tree::empty().with_records(
            records,
        ).at(path)->0.count == ending_at(records, path) + sum_counts(
            Tree::empty().with_records(records).at(path)->0.children,
        ),
    decreases records.len(),
{
    if records.len() == 0 {
        if path.len() > 0 {
            assert(Tree::empty().child(path.first()) is None);
        } else {
            assert(sum_counts(Tree::empty().children) == 0);
        }
    } else {
        let last = records.last();
        let before = Tree::empty().with_records(records.drop_last());
        lemma_counts_of_records(records.drop_last(), path);
        lemma_with_records_wf(Tree::empty(), records.drop_last());
        lemma_with_record_at(before, last.path, last.count, path);
    }
}

/// No child counts more than its parent.
pub proof fn lemma_child_count_le(tree: Tree, path: Seq<Symbol>, i: int)
    requires
        tree.wf(),
        tree.has(path),
        0 <= i < tree.at(path)->0.children.len(),
    ensures
        tree.at(path)->0.children[i].tree.count <= tree.at(path)->0.count,
{
    lemma_at_wf(tree, path);
    lemma_sum_counts_bounds(tree.at(path)->0.children, i);
}

/// The greatest contribution is at least that of each child that reaches
/// the threshold.
pub proof fn lemma_deepest_covers(
    children: Seq<Branch>,
    min_count: nat,
    depth: nat,
    floor: nat,
    i: int,
)
    requires
        0 <= i < children.len(),
        children[i].tree.count >= min_count,
    ensures
        deepest(children, min_count, depth, floor) >= children[i].tree.depth_from(min_count, depth),
    decreases children.len(),
{
    if i < children.len() - 1 {
        lemma_deepest_covers(children.drop_last(), min_count, depth, floor, i);
    }
}

/// Down a path the counts do not grow.
pub proof fn lemma_count_at_le(tree: Tree, path: Seq<Symbol>)
    requires
        tree.wf(),
    ensures
        tree.count_at(path) <= tree.count,
    decreases path.len(),
{
    if path.len() > 0 && tree.has(path) {
        let i = slot(tree.children, path.first()) as int;
        assert(tree.children[i].tree.wf());
        lemma_count_at_le(tree.children[i].tree, path.drop_first());
        lemma_sum_counts_bounds(tree.children, i);
    }
}

/// A node that reaches the visibility threshold lies within the depth that
/// the resolver gives: no visible rectangle falls below the last row.
pub proof fn lemma_visible_within_depth(tree: Tree, min_count: nat, depth: nat, path: Seq<Symbol>)
    requires
        tree.wf(),
        tree.has(path),
        tree.count_at(path) >= min_count,
    ensures
        depth + path.len() <= tree.depth_from(min_count, depth),
        path.len() <= tree.effective_max_depth(min_count),
    decreases path.len(),
{
    lemma_depth_from_floor(tree, min_count, depth);
    lemma_depth_from_floor(tree, min_count, 0);
    if path.len() > 0 {
        let i = slot(tree.children, path.first()) as int;
        let below = tree.children[i].tree;
        assert(below.wf());
        lemma_count_at_le(tree, path);
        lemma_visible_within_depth(below, min_count, depth + 1, path.drop_first());
        lemma_deepest_covers(tree.children, min_count, depth + 1, depth, i);
        lemma_visible_within_depth(below, min_count, 1, path.drop_first());
        lemma_deepest_covers(tree.children, min_count, 1, 0, i);
    }
}

/// The greatest contribution is the floor, or that of a child that reaches
/// the threshold.
pub proof fn lemma_deepest_is_reached(
    children: Seq<Branch>,
    min_count: nat,
    depth: nat,
    floor: nat,
) -> (i: int)
    ensures
        i == -1 ==> deepest(children, min_count, depth, floor) == floor,
        i != -1 ==> 0 <= i < children.len() && children[i].tree.count >= min_count && deepest(
            children,
            min_count,
            depth,
            floor,
        ) == children[i].tree.depth_from(min_count, depth),
    decreases children.len(),
{
    if children.len() == 0 {
        -1
    } else {
        let before = deepest(children.drop_last(), min_count, depth, floor);
        let last = children.last().tree;
        if last.count >= min_count && last.depth_from(min_count, depth) > before {
            children.len() - 1
        } else {
            lemma_deepest_is_reached(children.drop_last(), min_count, depth, floor)
        }
    }
}

/// The resolver gives no more than is needed: where the root reaches the
/// threshold, some node that reaches it lies as deep as the resolver says.
pub proof fn lemma_depth_is_reached(tree: Tree, min_count: nat, depth: nat) -> (path: Seq<Symbol>)
    requires
        tree.wf(),
        tree.count >= min_count,
    ensures
        tree.has(path),
        tree.count_at(path) >= min_count,
        depth + path.len() == tree.depth_from(min_count, depth),
    decreases tree,
{
    let i = lemma_deepest_is_reached(tree.children, min_count, depth + 1, depth);
    if i == -1 {
        Seq::empty()
    } else {
        let child = tree.children[i];
        assert(child.tree.wf());
        let below = lemma_depth_is_reached(child.tree, min_count, depth + 1);
        let path = seq![child.name] + below;
        assert forall|k: int| 0 <= k < i implies (#[trigger] tree.children[k]).name.index
            < child.name.index by {}
        assert forall|k: int| i <= k < tree.children.len() implies
            (#[trigger] tree.children[k]).name.index >= child.name.index by {}
        lemma_slot_is(tree.children, child.name, i);
        assert(path.first() == child.name);
        assert(path.drop_first() =~= below);
        path
    }
}

/// Without a visibility threshold the resolver gives the length of the
/// longest path of the tree: it stays within `limit` exactly if the tree does.
pub proof fn lemma_depth_without_threshold(tree: Tree, depth: nat, limit: nat)
    ensures
        within(tree, limit) <==> tree.depth_from(0, depth) <= depth + limit,
    decreases tree, 0nat,
{
    lemma_deepest_without_threshold(tree.children, tree.children.len(), depth, limit);
    assert(tree.children.take(tree.children.len() as int) =~= tree.children);
}

/// [`lemma_depth_without_threshold`], for the first `n` children of a node
/// at `depth`.
pub proof fn lemma_deepest_without_threshold(children: Seq<Branch>, n: nat, depth: nat, limit: nat)
    requires
        n <= children.len(),
    ensures
        (n == 0 || (limit > 0 && forall|i: int|
            0 <= i < n ==> within((#[trigger] children[i]).tree, (limit - 1) as nat))) <==> deepest(
            children.take(n as int),
            0,
            depth + 1,
            depth,
        ) <= depth + limit,
    decreases children, n,
{
    if n > 0 {
        let front = children.take(n as int);
        let last = children[n - 1];
        assert(front.drop_last() =~= children.take(n - 1));
        assert(front.last() == last);
        lemma_deepest_without_threshold(children, (n - 1) as nat, depth, limit);
        lemma_deepest_floor(children.take(n - 1), 0, depth + 1, depth);
        lemma_depth_from_floor(last.tree, 0, depth + 1);
        if limit > 0 {
            lemma_depth_without_threshold(last.tree, depth + 1, (limit - 1) as nat);
        }
    }
}

/// A table that grows still knows every name of the tree.
pub proof fn lemma_named_more(tree: Tree, limit: nat, more: nat)
    requires
        tree.named(limit),
        limit <= more,
    ensures
        tree.named(more),
    decreases tree,
{
    assert forall|i: int| 0 <= i < tree.children.len() implies
        (#[trigger] tree.children[i]).name.index
        < more && tree.children[i].tree.named(more) by {
        lemma_named_more(tree.children[i].tree, limit, more);
    }
}

/// A record whose frames the table knows leaves every name of the tree
/// known.
pub proof fn lemma_with_record_named(tree: Tree, path: Seq<Symbol>, count: nat, limit: nat)
    requires
        tree.named(limit),
        forall|j: int| 0 <= j < path.len() ==> (#[trigger] path[j]).index < limit,
    ensures
        tree.with_record(path, count).named(limit),
    decreases path.len(),
{
    if path.len() > 0 {
        let name = path.first();
        let rest = path.drop_first();
        let i = slot(tree.children, name) as int;
        let after = tree.with_record(path, count);
        lemma_slot_count_le(tree.children, name);
        assert forall|j: int| 0 <= j < rest.len() implies (#[trigger] rest[j]).index < limit by {
            assert(rest[j] == path[j + 1]);
        }
        if i < tree.children.len() && tree.children[i].name == name {
            lemma_with_record_named(tree.children[i].tree, rest, count, limit);
            assert forall|k: int| 0 <= k < after.children.len() implies
                (#[trigger] after.children[k]).name.index
                < limit && after.children[k].tree.named(limit) by {
                if k != i {
                    assert(after.children[k] == tree.children[k]);
                }
            }
        } else {
            lemma_with_record_named(Tree::empty(), rest, count, limit);
            assert forall|k: int| 0 <= k < after.children.len() implies
                (#[trigger] after.children[k]).name.index
                < limit && after.children[k].tree.named(limit) by {
                if k < i {
                    assert(after.children[k] == tree.children[k]);
                } else if k > i {
                    assert(after.children[k] == tree.children[k - 1]);
                } else {
                    assert(path[0].index < limit);
                }
            }
        }
    }
}

/// A child is less high than its parent.
pub proof fn lemma_child_height(tree: Tree, i: int)
    requires
        0 <= i < tree.children.len(),
    ensures
        tree.children[i].tree.height() + 1 <= tree.height(),
{
    let limit = tree.height();
    lemma_depth_without_threshold(tree, 0, limit);
    assert(within(tree.children[i].tree, (limit - 1) as nat));
    lemma_depth_without_threshold(tree.children[i].tree, 0, (limit - 1) as nat);
}

/// A record makes the tree no higher than its stack is long.
pub proof fn lemma_with_record_height(tree: Tree, path: Seq<Symbol>, count: nat)
    ensures
        tree.with_record(path, count).height() <= if tree.height() >= path.len() {
            tree.height()
        } else {
            path.len()
        },
{
    let limit = if tree.height() >= path.len() {
        tree.height()
    } else {
        path.len()
    };
    lemma_depth_without_threshold(tree, 0, tree.height());
    lemma_within_more(tree, tree.height(), limit);
    lemma_with_record_within(tree, path, count, limit);
    lemma_depth_without_threshold(tree.with_record(path, count), 0, limit);
}

/// Among ascending children, the child at position `i` is the one found
/// under its name.
pub proof fn lemma_child_by_name(tree: Tree, i: int)
    requires
        ascending(tree.children),
        0 <= i < tree.children.len(),
    ensures
        slot(tree.children, tree.children[i].name) == i,
        tree.child(tree.children[i].name) == Some(tree.children[i].tree),
{
    let name = tree.children[i].name;
    assert forall|k: int| 0 <= k < i implies (#[trigger] tree.children[k]).name.index
        < name.index by {}
    assert forall|k: int| i <= k < tree.children.len() implies
        (#[trigger] tree.children[k]).name.index
        >= name.index by {}
    lemma_slot_is(tree.children, name, i);
}

} // verus!
