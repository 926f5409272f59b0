//! The order of names, and a frame tree with the children of every node in
//! that order: the tree as the layout shows it.

use crate::symbol::comes_before;
use crate::symbol::precedes;
use crate::symbol::Symbol;
use crate::tree::ascending;
use crate::tree::sum_counts;
use crate::tree::Branch;
use crate::tree::Tree;
use crate::tree_laws::lemma_sum_counts_insert;
use vstd::prelude::*;

verus! {

/// No text comes before itself.
pub proof fn lemma_comes_before_irreflexive(one: Seq<char>)
    ensures
        !comes_before(one, one),
    decreases one.len(),
{
    if one.len() > 0 {
        lemma_comes_before_irreflexive(one.drop_first());
    }
}

/// Of two texts, at most one comes before the other.
pub proof fn lemma_comes_before_asymmetric(one: Seq<char>, other: Seq<char>)
    ensures
        !(comes_before(one, other) && comes_before(other, one)),
    decreases one.len(),
{
    if one.len() > 0 && other.len() > 0 && one.first() == other.first() {
        lemma_comes_before_asymmetric(one.drop_first(), other.drop_first());
    }
}

/// What comes before a text comes before every text after that one.
pub proof fn lemma_comes_before_transitive(one: Seq<char>, two: Seq<char>, three: Seq<char>)
    requires
        comes_before(one, two),
        comes_before(two, three),
    ensures
        comes_before(one, three),
    decreases one.len(),
{
    if one.len() > 0 && one.first() == two.first() && two.first() == three.first() {
        lemma_comes_before_transitive(one.drop_first(), two.drop_first(), three.drop_first());
    }
}

/// Of two different texts, one comes before the other.
pub proof fn lemma_comes_before_total(one: Seq<char>, other: Seq<char>)
    requires
        one != other,
    ensures
        comes_before(one, other) || comes_before(other, one),
    decreases one.len(),
{
    if one.len() > 0 && other.len() > 0 {
        if one.first() == other.first() {
            if one.drop_first() == other.drop_first() {
                assert(one =~= seq![one.first()] + one.drop_first());
                assert(other =~= seq![other.first()] + other.drop_first());
            }
            lemma_comes_before_total(one.drop_first(), other.drop_first());
        } else {
            if one.first() as u32 == other.first() as u32 {
                vstd::utf8::char_u32_cast(one.first(), one.first() as u32);
                vstd::utf8::char_u32_cast(other.first(), one.first() as u32);
            }
        }
    } else if one.len() == 0 {
        if other.len() == 0 {
            assert(one =~= other);
        }
    }
}

/// The number of branches whose name comes before that of `name`: the
/// place of `name` among branches that are in the order of their names.
pub open spec fn name_slot(names: Seq<Seq<char>>, branches: Seq<Branch>, name: Symbol) -> nat
    decreases branches.len(),
{
    if branches.len() == 0 {
        0
    } else if precedes(names, branches.last().name, name) {
        name_slot(names, branches.drop_last(), name) + 1
    } else {
        name_slot(names, branches.drop_last(), name)
    }
}

/// The children in the order of their names, each with its own tree in that
/// order too.
pub open spec fn sorted_branches(children: Seq<Branch>, names: Seq<Seq<char>>) -> Seq<Branch>
    decreases children,
{
    if children.len() == 0 {
        Seq::empty()
    } else {
        let before = sorted_branches(children.drop_last(), names);
        let last = children.last();
        before.insert(
            name_slot(names, before, last.name) as int,
            Branch { name: last.name, tree: by_names(last.tree, names) },
        )
    }
}

/// The tree with the children of every node in the order of their names,
/// as a table that holds `names` gives them. Nothing else is changed.
pub open spec fn by_names(tree: Tree, names: Seq<Seq<char>>) -> Tree
    decreases tree,
{
    Tree { count: tree.count, children: sorted_branches(tree.children, names) }
}

/// The branches are in the order of their names.
pub open spec fn in_order(names: Seq<Seq<char>>, branches: Seq<Branch>) -> bool {
    forall|i: int, j: int|
        0 <= i < j < branches.len() ==> precedes(names, branches[i].name, branches[j].name)
}

/// At every node of the tree the children are in the order of their names.
pub open spec fn in_name_order(tree: Tree, names: Seq<Seq<char>>) -> bool
    decreases tree,
{
    &&& in_order(names, tree.children)
    &&& forall|i: int|
        0 <= i < tree.children.len() ==> in_name_order((#[trigger] tree.children[i]).tree, names)
}

/// At every node of the tree the children count no more than the node.
pub open spec fn fits(tree: Tree) -> bool
    decreases tree,
{
    &&& sum_counts(tree.children) <= tree.count
    &&& forall|i: int| 0 <= i < tree.children.len() ==> fits((#[trigger] tree.children[i]).tree)
}

/// A slot is a position in the sequence, or its end.
pub proof fn lemma_name_slot_le(names: Seq<Seq<char>>, branches: Seq<Branch>, name: Symbol)
    ensures
        name_slot(names, branches, name) <= branches.len(),
    decreases branches.len(),
{
    if branches.len() > 0 {
        lemma_name_slot_le(names, branches.drop_last(), name);
    }
}

/// The position that separates the branches whose name comes before that
/// of `name` from the others is the slot of `name`.
pub proof fn lemma_name_slot_is(
    names: Seq<Seq<char>>,
    branches: Seq<Branch>,
    name: Symbol,
    at: int,
)
    requires
        0 <= at <= branches.len(),
        forall|k: int| 0 <= k < at ==> precedes(names, (#[trigger] branches[k]).name, name),
        forall|k: int|
            at <= k < branches.len() ==> !precedes(names, (#[trigger] branches[k]).name, name),
    ensures
        name_slot(names, branches, name) == at,
    decreases branches.len(),
{
    if branches.len() > 0 {
        assert(branches.last() == branches[branches.len() - 1]);
        if at == branches.len() {
            lemma_name_slot_is(names, branches.drop_last(), name, at - 1);
        } else {
            lemma_name_slot_is(names, branches.drop_last(), name, at);
        }
    }
}

/// Among branches in the order of their names, those before the slot of
/// `name` come before `name` and those from the slot on do not.
pub proof fn lemma_name_slot_bounds(names: Seq<Seq<char>>, branches: Seq<Branch>, name: Symbol)
    requires
        in_order(names, branches),
    ensures
        name_slot(names, branches, name) <= branches.len(),
        forall|k: int|
            0 <= k < name_slot(names, branches, name) ==> precedes(
                names,
                (#[trigger] branches[k]).name,
                name,
            ),
        forall|k: int|
            name_slot(names, branches, name) <= k < branches.len() ==> !precedes(
                names,
                (#[trigger] branches[k]).name,
                name,
            ),
    decreases branches.len(),
{
    if branches.len() > 0 {
        let front = branches.drop_last();
        let last = branches.last();
        lemma_name_slot_bounds(names, front, name);
        assert forall|k: int| 0 <= k < front.len() implies front[k] == branches[k] by {}
        if precedes(names, last.name, name) {
            assert forall|k: int| 0 <= k < branches.len() implies precedes(
                names,
                (#[trigger] branches[k]).name,
                name,
            ) by {
                if k < branches.len() - 1 {
                    assert(precedes(names, branches[k].name, branches[branches.len() - 1].name));
                    lemma_comes_before_transitive(
                        names[branches[k].name.index as int],
                        names[last.name.index as int],
                        names[name.index as int],
                    );
                }
            }
            lemma_name_slot_is(names, front, name, front.len() as int);
        } else {
            assert forall|k: int|
                name_slot(names, branches, name) <= k < branches.len() implies !precedes(
                names,
                (#[trigger] branches[k]).name,
                name,
            ) by {
                if k < branches.len() - 1 {
                    assert(!precedes(names, front[k].name, name));
                }
            }
        }
    }
}

/// Every branch in the order of names is one of the children, with its tree
/// in the order of names.
pub proof fn lemma_sorted_member(children: Seq<Branch>, names: Seq<Seq<char>>, k: int) -> (i: int)
    requires
        0 <= k < sorted_branches(children, names).len(),
    ensures
        0 <= i < children.len(),
        sorted_branches(children, names)[k] == (Branch {
            name: children[i].name,
            tree: by_names(children[i].tree, names),
        }),
    decreases children.len(),
{
    let before = sorted_branches(children.drop_last(), names);
    let last = children.last();
    let at = name_slot(names, before, last.name) as int;
    lemma_name_slot_le(names, before, last.name);
    if k == at {
        children.len() - 1
    } else if k < at {
        lemma_sorted_member(children.drop_last(), names, k)
    } else {
        lemma_sorted_member(children.drop_last(), names, k - 1)
    }
}

/// Every child is one of the branches in the order of names.
pub proof fn lemma_sorted_holds(children: Seq<Branch>, names: Seq<Seq<char>>, i: int) -> (k: int)
    requires
        0 <= i < children.len(),
    ensures
        0 <= k < sorted_branches(children, names).len(),
        sorted_branches(children, names)[k] == (Branch {
            name: children[i].name,
            tree: by_names(children[i].tree, names),
        }),
    decreases children.len(),
{
    let before = sorted_branches(children.drop_last(), names);
    let last = children.last();
    let at = name_slot(names, before, last.name) as int;
    lemma_name_slot_le(names, before, last.name);
    if i == children.len() - 1 {
        at
    } else {
        let k = lemma_sorted_holds(children.drop_last(), names, i);
        if k < at {
            k
        } else {
            k + 1
        }
    }
}

/// Putting the children in the order of their names changes neither their
/// number nor the sum of their counts.
pub proof fn lemma_sorted_counts(children: Seq<Branch>, names: Seq<Seq<char>>)
    ensures
        sorted_branches(children, names).len() == children.len(),
        sum_counts(sorted_branches(children, names)) == sum_counts(children),
    decreases children.len(),
{
    if children.len() > 0 {
        let before = sorted_branches(children.drop_last(), names);
        let last = children.last();
        lemma_sorted_counts(children.drop_last(), names);
        lemma_name_slot_le(names, before, last.name);
        lemma_sum_counts_insert(
            before,
            name_slot(names, before, last.name) as int,
            Branch { name: last.name, tree: by_names(last.tree, names) },
        );
    }
}

/// Children with different symbols that a table without duplicates knows
/// stand, once sorted, in the order of their names.
pub proof fn lemma_sorted_in_order(children: Seq<Branch>, names: Seq<Seq<char>>)
    requires
        names.no_duplicates(),
        ascending(children),
        forall|i: int|
            0 <= i < children.len() ==> (#[trigger] children[i]).name.index < names.len(),
    ensures
        in_order(names, sorted_branches(children, names)),
    decreases children.len(),
{
    if children.len() > 0 {
        let front = children.drop_last();
        let before = sorted_branches(front, names);
        let last = children.last();
        let at = name_slot(names, before, last.name) as int;
        let sorted = sorted_branches(children, names);
        assert forall|i: int| 0 <= i < front.len() implies (#[trigger] front[i]).name.index
            < names.len() by {
            assert(front[i] == children[i]);
        }
        assert(ascending(front)) by {
            assert forall|i: int, j: int| 0 <= i < j < front.len() implies front[i].name.index
                < front[j].name.index by {
                assert(front[i] == children[i]);
                assert(front[j] == children[j]);
            }
        }
        lemma_sorted_in_order(front, names);
        lemma_name_slot_bounds(names, before, last.name);
        assert forall|i: int, j: int| 0 <= i < j < sorted.len() implies precedes(
            names,
            sorted[i].name,
            sorted[j].name,
        ) by {
            if j == at {
                assert(sorted[i] == before[i]);
            } else if i == at {
                let other = before[j - 1];
                assert(sorted[j] == other);
                let m = lemma_sorted_member(front, names, j - 1);
                assert(children[m] == front[m]);
                assert(children[m].name.index < children[children.len() - 1].name.index);
                assert(names[other.name.index as int] != names[last.name.index as int]);
                lemma_comes_before_total(
                    names[other.name.index as int],
                    names[last.name.index as int],
                );
            } else {
                let a = if i < at {
                    i
                } else {
                    i - 1
                };
                let b = if j < at {
                    j
                } else {
                    j - 1
                };
                assert(sorted[i] == before[a]);
                assert(sorted[j] == before[b]);
            }
        }
    }
}

/// The tree in the order of names has, at every node, the children in the
/// order of their names, and counts that fit; and the table knows its names.
pub proof fn lemma_by_names(tree: Tree, names: Seq<Seq<char>>)
    requires
        names.no_duplicates(),
        tree.wf(),
        tree.named(names.len()),
    ensures
        in_name_order(by_names(tree, names), names),
        fits(by_names(tree, names)),
        by_names(tree, names).named(names.len()),
        by_names(tree, names).count == tree.count,
        by_names(tree, names).children.len() == tree.children.len(),
    decreases tree,
{
    let sorted = sorted_branches(tree.children, names);
    lemma_sorted_in_order(tree.children, names);
    lemma_sorted_counts(tree.children, names);
    assert forall|k: int| 0 <= k < sorted.len() implies in_name_order(
        (#[trigger] sorted[k]).tree,
        names,
    ) && fits(sorted[k].tree) && sorted[k].name.index < names.len() && sorted[k].tree.named(
        names.len(),
    ) by {
        let i = lemma_sorted_member(tree.children, names, k);
        assert(tree.children[i].tree.wf());
        assert(tree.children[i].tree.named(names.len()));
        lemma_by_names(tree.children[i].tree, names);
    }
}

/// The children in the order of names are the children, each once.
pub proof fn lemma_sorted_rearranges(children: Seq<Branch>, names: Seq<Seq<char>>)
    ensures
        sorted_branches(children, names).to_multiset() == children.map_values(
            |branch: Branch| Branch { name: branch.name, tree: by_names(branch.tree, names) },
        ).to_multiset(),
    decreases children.len(),
{
    let deep = |branch: Branch| Branch { name: branch.name, tree: by_names(branch.tree, names) };
    if children.len() == 0 {
        assert(children.map_values(deep) =~= Seq::<Branch>::empty());
    } else {
        let front = children.drop_last();
        let before = sorted_branches(front, names);
        let last = children.last();
        let at = name_slot(names, before, last.name) as int;
        lemma_sorted_rearranges(front, names);
        lemma_name_slot_le(names, before, last.name);
        vstd::seq_lib::to_multiset_insert(before, at, deep(last));
        vstd::seq_lib::to_multiset_build(front.map_values(deep), deep(last));
        assert(children.map_values(deep) =~= front.map_values(deep).push(deep(last)));
    }
}

} // verus!
