//! The frame tree: a prefix tree of call stacks with a sample count per node.

use crate::symbol::Symbol;
use crate::tree_laws::lemma_slot_bounds;
use crate::tree_laws::lemma_slot_is;
use crate::tree_laws::lemma_sum_counts_bounds;
use crate::tree_laws::lemma_child_height;
use crate::tree_laws::lemma_deepest_covers;
use crate::tree_laws::lemma_depth_from_floor;
use crate::tree_laws::lemma_depth_monotonic;
use crate::tree_laws::lemma_with_record_height;
use crate::tree_laws::lemma_with_record_wf;
use vstd::prelude::*;

verus! {

/// The mathematical frame tree. `count` is the number of samples whose stack
/// starts with the path to this node. In a frame tree the `children` are
/// kept in the order of the indices of their symbols, by which a child is
/// found; the layout shows them in the order of their names, see
/// [`crate::order::by_names`].
pub struct Tree {
    pub count: nat,
    pub children: Seq<Branch>,
}

/// One child of a [`Tree`] node, with the frame name that leads to it.
pub struct Branch {
    pub name: Symbol,
    pub tree: Tree,
}

/// The sum of the counts of the given children.
pub open spec fn sum_counts(children: Seq<Branch>) -> nat
    decreases children.len(),
{
    if children.len() == 0 {
        0
    } else {
        sum_counts(children.drop_last()) + children.last().tree.count
    }
}

/// Children are in strictly ascending order of the indices of their
/// symbols: the order in which a frame tree keeps them, not that in which
/// the layout shows them.
pub open spec fn ascending(children: Seq<Branch>) -> bool {
    forall|i: int, j: int|
        0 <= i < j < children.len() ==> children[i].name.index < children[j].name.index
}


/// The number of children whose symbol has a lesser index than `name`. Among
/// children in ascending order this is the position at which a child named
/// `name` stands,
/// or would have to be inserted.
pub open spec fn slot(children: Seq<Branch>, name: Symbol) -> nat
    decreases children.len(),
{
    if children.len() == 0 {
        0
    } else if children.last().name.index < name.index {
        slot(children.drop_last(), name) + 1
    } else {
        slot(children.drop_last(), name)
    }
}

impl Tree {
    /// A tree of one node that no sample has reached.
    pub open spec fn empty() -> Tree {
        Tree { count: 0, children: Seq::empty() }
    }

    /// The invariant of a frame tree: at every node the children are in
    /// ascending order of the indices of their symbols, which makes them
    /// distinct, and their counts together do not exceed the node's own.
    pub open spec fn wf(self) -> bool
        decreases self,
    {
        &&& ascending(self.children)
        &&& sum_counts(self.children) <= self.count
        &&& forall|i: int| 0 <= i < self.children.len() ==> (#[trigger] self.children[i]).tree.wf()
    }

    /// Every name in the tree is a symbol with an index below `limit`: a
    /// table of `limit` names knows them all.
    pub open spec fn named(self, limit: nat) -> bool
        decreases self,
    {
        forall|i: int|
            0 <= i < self.children.len() ==> (#[trigger] self.children[i]).name.index < limit
                && self.children[i].tree.named(limit)
    }
}

impl Tree {
    /// The subtree under the child named `name`, if there is such a child.
    pub open spec fn child(self, name: Symbol) -> Option<Tree> {
        let i = slot(self.children, name) as int;
        if i < self.children.len() && self.children[i].name == name {
            Some(self.children[i].tree)
        } else {
            None
        }
    }

    /// The tree after `count` more samples of the stack `path`: the counts of
    /// this node and of every node along `path` grow by `count`; where the path
    /// leaves the tree, new nodes continue it.
    pub open spec fn with_record(self, path: Seq<Symbol>, count: nat) -> Tree
        decreases path.len(),
    {
        if path.len() == 0 {
            Tree { count: self.count + count, children: self.children }
        } else {
            let name = path.first();
            let i = slot(self.children, name) as int;
            if i < self.children.len() && self.children[i].name == name {
                let below = self.children[i].tree.with_record(path.drop_first(), count);
                Tree {
                    count: self.count + count,
                    children: self.children.update(i, Branch { name, tree: below }),
                }
            } else {
                let below = Tree::empty().with_record(path.drop_first(), count);
                Tree {
                    count: self.count + count,
                    children: self.children.insert(i, Branch { name, tree: below }),
                }
            }
        }
    }
}

/// The greatest of `floor` and of what each child with at least `min_count`
/// samples contributes to the depth of the flame graph, the children lying
/// at `depth`. A child with fewer samples is invisible and contributes
/// nothing.
pub open spec fn deepest(children: Seq<Branch>, min_count: nat, depth: nat, floor: nat) -> nat
    decreases children,
{
    if children.len() == 0 {
        floor
    } else {
        let before = deepest(children.drop_last(), min_count, depth, floor);
        let last = children.last().tree;
        if last.count >= min_count && last.depth_from(min_count, depth) > before {
            last.depth_from(min_count, depth)
        } else {
            before
        }
    }
}

impl Tree {
    /// What this node, lying at `depth`, contributes to the depth of the flame
    /// graph: its own depth if it has fewer than `min_count` samples, or no
    /// child with at least `min_count` samples; else the greatest
    /// contribution of such a child.
    pub open spec fn depth_from(self, min_count: nat, depth: nat) -> nat
        decreases self,
    {
        if self.count < min_count {
            depth
        } else {
            deepest(self.children, min_count, depth + 1, depth)
        }
    }

    /// The depth of the deepest row that can hold a visible rectangle.
    pub open spec fn effective_max_depth(self, min_count: nat) -> nat {
        self.depth_from(min_count, 0)
    }

    /// The length of the longest path from this node down.
    pub open spec fn height(self) -> nat {
        self.depth_from(0, 0)
    }
}

impl Tree {
    /// The subtree at the end of `path`, if the tree has a node there.
    pub open spec fn at(self, path: Seq<Symbol>) -> Option<Tree>
        decreases path.len(),
    {
        if path.len() == 0 {
            Some(self)
        } else {
            match self.child(path.first()) {
                Some(below) => below.at(path.drop_first()),
                None => None,
            }
        }
    }

    /// Whether the tree has a node at the end of `path`.
    pub open spec fn has(self, path: Seq<Symbol>) -> bool {
        self.at(path) is Some
    }

    /// The count of the node at the end of `path`, or 0 if there is none.
    pub open spec fn count_at(self, path: Seq<Symbol>) -> nat {
        match self.at(path) {
            Some(node) => node.count,
            None => 0,
        }
    }

    /// The part of the count of this node that is not the count of a child:
    /// the samples whose stack ends here.
    pub open spec fn own(self) -> int {
        self.count - sum_counts(self.children)
    }

    /// The samples whose stack is exactly `path`, or 0 if the tree has no
    /// node there.
    pub open spec fn own_at(self, path: Seq<Symbol>) -> int {
        match self.at(path) {
            Some(node) => node.own(),
            None => 0,
        }
    }

    /// The tree after the given records, the first record first.
    pub open spec fn with_records(self, records: Seq<Record>) -> Tree
        decreases records.len(),
    {
        if records.len() == 0 {
            self
        } else {
            self.with_records(records.drop_last()).with_record(
                records.last().path,
                records.last().count,
            )
        }
    }
}

/// A stack and the number of samples in which it was seen.
pub struct Record {
    pub path: Seq<Symbol>,
    pub count: nat,
}

/// The samples of all the records together.
pub open spec fn total(records: Seq<Record>) -> nat
    decreases records.len(),
{
    if records.len() == 0 {
        0
    } else {
        total(records.drop_last()) + records.last().count
    }
}

/// The samples of the records whose stack is exactly `path`.
pub open spec fn ending_at(records: Seq<Record>, path: Seq<Symbol>) -> nat
    decreases records.len(),
{
    if records.len() == 0 {
        0
    } else if records.last().path == path {
        ending_at(records.drop_last(), path) + records.last().count
    } else {
        ending_at(records.drop_last(), path)
    }
}

/// The samples of the records whose stack starts with `path`.
pub open spec fn passing(records: Seq<Record>, path: Seq<Symbol>) -> nat
    decreases records.len(),
{
    if records.len() == 0 {
        0
    } else if path.is_prefix_of(records.last().path) {
        passing(records.drop_last(), path) + records.last().count
    } else {
        passing(records.drop_last(), path)
    }
}

/// A node of the frame tree, with the nodes below it.
#[derive(Debug)]
pub struct Node {
    count: u64,
    children: Vec<Child>,
}

/// A child node and the frame name under which its parent holds it.
#[derive(Debug)]
pub struct Child {
    name: Symbol,
    node: Node,
}

impl View for Node {
    type V = Tree;

    closed spec fn view(&self) -> Tree
        decreases self,
    {
        Tree { count: self.count as nat, children: branches(self.children@) }
    }
}

/// The branches that a sequence of children stands for.
spec fn branches(children: Seq<Child>) -> Seq<Branch>
    decreases children,
{
    if children.len() == 0 {
        Seq::empty()
    } else {
        branches(children.drop_last()).push(
            Branch { name: children.last().name, tree: children.last().node@ },
        )
    }
}

/// Branch by branch, what `branches` gives.
proof fn lemma_branches(children: Seq<Child>)
    ensures
        branches(children).len() == children.len(),
        forall|i: int|
            0 <= i < children.len() ==> #[trigger] branches(children)[i] == (Branch {
                name: children[i].name,
                tree: children[i].node@,
            }),
    decreases children.len(),
{
    if children.len() > 0 {
        lemma_branches(children.drop_last());
        assert(branches(children) == branches(children.drop_last()).push(
            Branch { name: children.last().name, tree: children.last().node@ },
        ));
    } else {
        assert(branches(children) == Seq::<Branch>::empty());
    }
}

impl Node {
    /// The invariant that every operation keeps: the tree is well formed,
    /// and no higher than a path can be long.
    pub open spec fn wf(&self) -> bool {
        &&& self@.wf()
        &&& self@.height() <= usize::MAX
    }

    /// A node without samples or children.
    pub fn new() -> (node: Node)
        ensures
            node.wf(),
            node@ == Tree::empty(),
    {
        Node { count: 0, children: Vec::new() }
    }

    /// What the view of a node is made of.
    proof fn lemma_view(&self)
        ensures
            self@.count == self.count,
            self@.children.len() == self.children@.len(),
            forall|i: int|
                0 <= i < self.children@.len() ==> #[trigger] self@.children[i] == (Branch {
                    name: self.children@[i].name,
                    tree: self.children@[i].node@,
                }),
    {
        lemma_branches(self.children@);
    }

    /// The count of a node fits 64 bits.
    pub proof fn lemma_count_fits(&self)
        ensures
            self@.count <= u64::MAX,
    {
    }

    /// The number of samples whose stack starts with the path to this node.
    pub fn count(&self) -> (count: u64)
        ensures
            count == self@.count,
    {
        self.count
    }

    /// The number of children of this node.
    pub fn child_count(&self) -> (len: usize)
        ensures
            len == self@.children.len(),
    {
        proof {
            self.lemma_view();
        }
        self.children.len()
    }

    /// The name of the child at position `i`; the children are in ascending
    /// order of the indices of their symbols.
    pub fn child_name(&self, i: usize) -> (name: Symbol)
        requires
            i < self@.children.len(),
        ensures
            name == self@.children[i as int].name,
    {
        proof {
            self.lemma_view();
        }
        self.children[i].name
    }

    /// The child at position `i`.
    pub fn child_node(&self, i: usize) -> (node: &Node)
        requires
            i < self@.children.len(),
        ensures
            node@ == self@.children[i as int].tree,
            self.wf() ==> node.wf(),
    {
        proof {
            self.lemma_view();
            lemma_child_height(self@, i as int);
        }
        &self.children[i].node
    }

    /// The child named `name`, if there is one.
    pub fn child(&self, name: Symbol) -> (found: Option<&Node>)
        requires
            self.wf(),
        ensures
            found is Some <==> self@.child(name) is Some,
            found matches Some(node) ==> Some(node@) == self@.child(name) && node.wf(),
    {
        let i = self.slot(name);
        proof {
            self.lemma_view();
            if i < self.children@.len() {
                lemma_child_height(self@, i as int);
            }
        }
        if i < self.children.len() && self.children[i].name.index == name.index {
            Some(&self.children[i].node)
        } else {
            None
        }
    }

    /// The position among the children at which a child named `name` stands,
    /// or would have to be inserted.
    fn slot(&self, name: Symbol) -> (i: usize)
        requires
            ascending(self@.children),
        ensures
            i == slot(self@.children, name),
            i <= self.children@.len(),
    {
        let mut lo: usize = 0;
        let mut hi: usize = self.children.len();
        proof {
            self.lemma_view();
        }
        while lo < hi
            invariant
                lo <= hi <= self.children@.len(),
                self@.children.len() == self.children@.len(),
                forall|k: int|
                    0 <= k < lo ==> (#[trigger] self@.children[k]).name.index < name.index,
                forall|k: int|
                    hi <= k < self.children@.len() ==> (#[trigger] self@.children[k]).name.index
                        >= name.index,
                ascending(self@.children),
            decreases hi - lo,
        {
            let mid = lo + (hi - lo) / 2;
            proof {
                self.lemma_view();
                let kids = self@.children;
                assert(kids[mid as int].name == self.children@[mid as int].name);
                assert forall|k: int| 0 <= k < mid implies (#[trigger] kids[k]).name.index
                    < kids[mid as int].name.index by {}
                assert forall|k: int| mid < k < kids.len() implies (#[trigger] kids[k]).name.index
                    > kids[mid as int].name.index by {}
            }
            if self.children[mid].name.index < name.index {
                lo = mid + 1;
            } else {
                hi = mid;
            }
        }
        proof {
            lemma_slot_is(self@.children, name, lo as int);
        }
        lo
    }

    /// Records `count` samples of the stack `path`, seen from this node: the
    /// count of this node and of every node along `path` grows by `count`, and
    /// nodes that are missing along the way are created.
    ///
    /// Returns the depth at which the path ends.
    pub fn add(&mut self, path: &[Symbol], count: u64) -> (depth: usize)
        requires
            old(self).wf(),
            old(self)@.count + count <= u64::MAX,
        ensures
            final(self).wf(),
            final(self)@ == old(self)@.with_record(path@, count as nat),
            depth == path@.len(),
    {
        let depth = path.len();
        proof {
            assert(path@.skip(0) =~= path@);
            lemma_with_record_wf(self@, path@, count as nat);
            lemma_with_record_height(self@, path@, count as nat);
        }
        self.add_from(path, 0, count);
        depth
    }

    /// Records `count` samples of the stack `path[from..]`, seen from this
    /// node.
    fn add_from(&mut self, path: &[Symbol], from: usize, count: u64)
        requires
            old(self)@.wf(),
            from <= path@.len(),
            old(self)@.count + count <= u64::MAX,
        ensures
            final(self)@ == old(self)@.with_record(path@.skip(from as int), count as nat),
        decreases path@.len() - from,
    {
        let ghost before = self@;
        let ghost rest = path@.skip(from as int);
        proof {
            self.lemma_view();
        }
        self.count = self.count + count;
        proof {
            self.lemma_view();
        }
        if from < path.len() {
            let name = path[from];
            let i = self.slot(name);
            proof {
                lemma_slot_bounds(before.children, name);
                assert(rest[0] == name);
                assert(rest.drop_first() =~= path@.skip(from + 1));
            }
            if i == self.children.len() || self.children[i].name.index != name.index {
                self.children.insert(i, Child { name, node: Node::new() });
            } else {
                proof {
                    lemma_sum_counts_bounds(before.children, i as int);
                }
            }
            proof {
                self.lemma_view();
            }
            self.children[i].node.add_from(path, from + 1, count);
            proof {
                self.lemma_view();
                let after = self@;
                let expected = before.with_record(rest, count as nat);
                assert(after.count == expected.count);
                assert(after.children =~= expected.children);
            }
        } else {
            proof {
                assert(self@.children =~= before.children);
            }
        }
    }

    /// The greatest depth at which a rectangle may still be visible, where
    /// this node lies at `depth` and nodes with fewer than `min_count` samples
    /// are too narrow to see.
    ///
    /// The descent ends at a node below the threshold. Such a node counts
    /// with its own depth where the descent begins with it, and for nothing
    /// as a child; any other node counts with the deepest of its children
    /// that reach the threshold, or with its own depth if it has none.
    pub fn depth(&self, min_count: u64, depth: u64) -> (deepest: u64)
        requires
            self@.depth_from(min_count as nat, depth as nat) <= u64::MAX,
        ensures
            deepest == self@.depth_from(min_count as nat, depth as nat),
        decreases self,
    {
        proof {
            self.lemma_view();
        }
        if self.count < min_count {
            return depth;
        }
        let ghost kids = self@.children;
        let mut best = depth;
        let mut i: usize = 0;
        while i < self.children.len()
            invariant
                i <= self.children@.len(),
                kids == self@.children,
                kids.len() == self.children@.len(),
                self.count >= min_count,
                self@.depth_from(min_count as nat, depth as nat) <= u64::MAX,
                best == deepest(
                    kids.take(i as int),
                    min_count as nat,
                    depth as nat + 1,
                    depth as nat,
                ),
            decreases self.children@.len() - i,
        {
            proof {
                self.lemma_view();
                self.children@[i as int].node.lemma_view();
                if kids[i as int].tree.count >= min_count {
                    lemma_deepest_covers(
                        kids,
                        min_count as nat,
                        depth as nat + 1,
                        depth as nat,
                        i as int,
                    );
                    lemma_depth_from_floor(kids[i as int].tree, min_count as nat, depth as nat + 1);
                }
                assert(kids[i as int].tree == self.children@[i as int].node@);
                assert(kids.take(i + 1).drop_last() =~= kids.take(i as int));
                assert(kids.take(i + 1).last() == kids[i as int]);
            }
            if self.children[i].node.count >= min_count {
                let below = self.children[i].node.depth(min_count, depth + 1);
                if below > best {
                    best = below;
                }
            }
            i = i + 1;
        }
        proof {
            assert(kids.take(i as int) =~= kids);
        }
        best
    }

    /// The depth of the deepest row of the flame graph that can hold a visible
    /// rectangle, where nodes with fewer than `min_count` samples are too
    /// narrow to see. With `min_count` 0 this is the length of the longest
    /// stack.
    pub fn effective_max_depth(&self, min_count: u64) -> (deepest: u64)
        requires
            self.wf(),
        ensures
            deepest == self@.effective_max_depth(min_count as nat),
    {
        proof {
            lemma_depth_monotonic(self@, 0, min_count as nat, 0);
        }
        self.depth(min_count, 0)
    }
}

} // verus!
