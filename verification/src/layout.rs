//! The layout of a frame tree as rectangles: one per node, as wide as the
//! node's count, children side by side on the row below their parent, in the
//! order of their names.
//!
//! The functions `post_order` and `pre_order` lay a tree out with the
//! children of every node in the order in which they stand. The walk and the
//! recursion give the layout of the tree that [`by_names`] makes of a frame
//! tree: the one with the children in the order of their names.

use crate::order::by_names;
use crate::order::in_order;
use crate::order::lemma_comes_before_transitive;
use crate::order::lemma_name_slot_is;
use crate::order::lemma_sorted_counts;
use crate::order::lemma_sorted_holds;
use crate::order::lemma_sorted_in_order;
use crate::order::lemma_sorted_member;
use crate::order::sorted_branches;
use crate::symbol::precedes;
use crate::symbol::Symbol;
use crate::symbol::SymbolTable;
use crate::tree_laws::lemma_child_by_name;
use crate::tree_laws::lemma_sum_counts_prefix;
use crate::tree_laws::lemma_child_height;
use crate::tree::sum_counts;
use crate::tree::Branch;
use crate::tree::Node;
use crate::tree::Tree;
use vstd::prelude::*;

verus! {

/// A rectangle of the flame graph as a mathematical value: it covers the
/// columns from `offset` up to `offset + count` of row `depth`.
pub struct RectView {
    pub name: Symbol,
    pub count: nat,
    pub depth: nat,
    pub offset: nat,
}

/// The rectangle of one node of the frame tree. Counts and offsets are in
/// samples; the renderer scales them to the width of the picture.
#[derive(Clone, Copy, Debug, PartialEq, Eq, Structural)]
pub struct Rect {
    pub name: Symbol,
    pub count: u64,
    pub depth: u64,
    pub offset: u64,
}

impl View for Rect {
    type V = RectView;

    open spec fn view(&self) -> RectView {
        RectView {
            name: self.name,
            count: self.count as nat,
            depth: self.depth as nat,
            offset: self.offset as nat,
        }
    }
}

/// The views of a sequence of rectangles.
pub open spec fn views(rects: Seq<Rect>) -> Seq<RectView> {
    rects.map_values(|rect: Rect| rect@)
}

/// The rectangles of `tree` and of everything below it, each node after its
/// children, where the root of `tree` is called `name` and lies at `depth`
/// and `offset`.
pub open spec fn post_order(tree: Tree, name: Symbol, depth: nat, offset: nat) -> Seq<RectView>
    decreases tree, 0nat,
{
    siblings(tree.children, 0, depth + 1, offset).push(
        RectView { name, count: tree.count, depth, offset },
    )
}

/// The rectangles of the children from position `from` on, and of everything
/// below them, from left to right: the first of these children starts at
/// `offset`, the next where it ends, and so on.
pub open spec fn siblings(children: Seq<Branch>, from: nat, depth: nat, offset: nat) -> Seq<
    RectView,
>
    decreases children, children.len() - from,
{
    if from >= children.len() {
        Seq::empty()
    } else {
        let first = children[from as int];
        post_order(first.tree, first.name, depth, offset) + siblings(
            children,
            from + 1,
            depth,
            offset + first.tree.count,
        )
    }
}

/// The rectangles of `tree` and of everything below it, each node before its
/// children.
pub open spec fn pre_order(tree: Tree, name: Symbol, depth: nat, offset: nat) -> Seq<RectView>
    decreases tree, 0nat,
{
    seq![RectView { name, count: tree.count, depth, offset }] + pre_siblings(
        tree.children,
        0,
        depth + 1,
        offset,
    )
}

/// As [`siblings`], with each node before its children.
pub open spec fn pre_siblings(children: Seq<Branch>, from: nat, depth: nat, offset: nat) -> Seq<
    RectView,
>
    decreases children, children.len() - from,
{
    if from >= children.len() {
        Seq::empty()
    } else {
        let first = children[from as int];
        pre_order(first.tree, first.name, depth, offset) + pre_siblings(
            children,
            from + 1,
            depth,
            offset + first.tree.count,
        )
    }
}

impl Node {
    /// The names of the children of this node, in the order of the names.
    pub fn keys_by_name(&self, table: &SymbolTable) -> (keys: Vec<Symbol>)
        requires
            self.wf(),
            table.wf(),
            self@.named(table@.len()),
        ensures
            keys@.len() == self@.children.len(),
            sorted_branches(self@.children, table@).len() == self@.children.len(),
            forall|j: int|
                0 <= j < keys@.len() ==> #[trigger] keys@[j] == sorted_branches(
                    self@.children,
                    table@,
                )[j].name,
            forall|a: int, b: int|
                0 <= a < b < keys@.len() ==> precedes(table@, keys@[a], keys@[b]),
    {
        let ghost kids = self@.children;
        let ghost names = table@;
        let len = self.child_count();
        let mut keys: Vec<Symbol> = Vec::new();
        let mut i: usize = 0;
        proof {
            assert(kids.take(0) =~= Seq::<Branch>::empty());
        }
        while i < len
            invariant
                i <= len,
                len == kids.len(),
                kids == self@.children,
                names == table@,
                table.wf(),
                self.wf(),
                self@.named(names.len()),
                keys@.len() == i,
                sorted_branches(kids.take(i as int), names).len() == i,
                forall|j: int|
                    0 <= j < i ==> #[trigger] keys@[j] == sorted_branches(
                        kids.take(i as int),
                        names,
                    )[j].name,
                forall|j: int| 0 <= j < i ==> (#[trigger] keys@[j]).index < names.len(),
            decreases len - i,
        {
            let ghost before = sorted_branches(kids.take(i as int), names);
            let name = self.child_name(i);
            proof {
                assert(kids[i as int].name.index < names.len());
            }
            proof {
                let front = kids.take(i as int);
                assert forall|a: int, b: int| 0 <= a < b < front.len() implies front[a].name.index
                    < front[b].name.index by {
                    assert(front[a] == kids[a]);
                    assert(front[b] == kids[b]);
                }
                assert forall|a: int| 0 <= a < front.len() implies (#[trigger] front[a]).name.index
                    < names.len() by {
                    assert(front[a] == kids[a]);
                }
                lemma_sorted_in_order(front, names);
            }
            let mut at: usize = 0;
            let mut end: usize = i;
            while at < end
                invariant
                    at <= end <= i,
                    keys@.len() == i,
                    before.len() == i,
                    names == table@,
                    table.wf(),
                    name.index < names.len(),
                    in_order(names, before),
                    forall|k: int| 0 <= k < i ==> #[trigger] keys@[k] == before[k].name,
                    forall|k: int| 0 <= k < i ==> (#[trigger] keys@[k]).index < names.len(),
                    forall|k: int|
                        0 <= k < at ==> precedes(names, (#[trigger] before[k]).name, name),
                    forall|k: int|
                        end <= k < i ==> !precedes(names, (#[trigger] before[k]).name, name),
                decreases end - at,
            {
                let mid = at + (end - at) / 2;
                proof {
                    assert(keys@[mid as int] == before[mid as int].name);
                }
                if table.precedes(keys[mid], name) {
                    proof {
                        assert forall|k: int| 0 <= k < mid + 1 implies precedes(
                            names,
                            (#[trigger] before[k]).name,
                            name,
                        ) by {
                            if k < mid {
                                assert(precedes(names, before[k].name, before[mid as int].name));
                                lemma_comes_before_transitive(
                                    names[before[k].name.index as int],
                                    names[before[mid as int].name.index as int],
                                    names[name.index as int],
                                );
                            }
                        }
                    }
                    at = mid + 1;
                } else {
                    proof {
                        assert forall|k: int| mid <= k < i implies !precedes(
                            names,
                            (#[trigger] before[k]).name,
                            name,
                        ) by {
                            if k > mid && precedes(names, before[k].name, name) {
                                assert(precedes(names, before[mid as int].name, before[k].name));
                                lemma_comes_before_transitive(
                                    names[before[mid as int].name.index as int],
                                    names[before[k].name.index as int],
                                    names[name.index as int],
                                );
                            }
                        }
                    }
                    end = mid;
                }
            }
            proof {
                lemma_name_slot_is(names, before, name, at as int);
            }
            let ghost had = keys@;
            keys.insert(at, name);
            proof {
                let grown = sorted_branches(kids.take(i + 1), names);
                assert(before.take(i as int) =~= before);
                assert(kids.take(i + 1).drop_last() =~= kids.take(i as int));
                assert(kids.take(i + 1).last() == kids[i as int]);
                assert(grown == before.insert(
                    at as int,
                    Branch { name, tree: by_names(kids[i as int].tree, names) },
                ));
                assert forall|k: int| 0 <= k < i + 1 implies #[trigger] keys@[k] == grown[k].name
                    && keys@[k].index < names.len() by {
                    if k < at {
                        assert(keys@[k] == had[k]);
                    } else if k > at {
                        assert(keys@[k] == had[k - 1]);
                    }
                }
            }
            i = i + 1;
        }
        proof {
            assert(kids.take(len as int) =~= kids);
            lemma_sorted_in_order(kids, names);
        }
        keys
    }
}

/// One level of the walk over the tree: a node, and how far the walk has got
/// with its children.
pub struct Frame<'a> {
    /// The names of the children that the walk has not entered yet, last
    /// name first, so that the next one to enter is the last.
    pub keys: Vec<Symbol>,
    /// The offset at which the rectangle of `node` begins.
    pub start: u64,
    /// The offset at which the next child to enter begins.
    pub offset: u64,
    /// The name under which `node` is shown.
    pub name: Symbol,
    /// The node whose children the walk is going through.
    pub node: &'a Node,
}

impl<'a> Frame<'a> {
    /// The number of children that the walk has entered already.
    pub open spec fn entered(&self) -> int {
        self.node@.children.len() - self.keys@.len()
    }

    /// The children of `node` in the order of their names.
    pub open spec fn sorted(&self, names: Seq<Seq<char>>) -> Seq<Branch> {
        sorted_branches(self.node@.children, names)
    }

    /// `keys` are the names of the last children of `node` in the order of
    /// names, backwards.
    pub open spec fn keyed(&self, names: Seq<Seq<char>>) -> bool {
        let sorted = self.sorted(names);
        &&& sorted.len() == self.node@.children.len()
        &&& self.keys@.len() <= sorted.len()
        &&& forall|j: int|
            0 <= j < self.keys@.len() ==> #[trigger] self.keys@[j] == sorted[sorted.len() - 1
                - j].name
    }

    /// The frame is keyed, the table knows the names below `node`, and
    /// `offset` lies past the children entered so far, within the
    /// rectangle of `node`.
    pub open spec fn wf(&self, names: Seq<Seq<char>>) -> bool {
        &&& self.node.wf()
        &&& self.node@.named(names.len())
        &&& self.keyed(names)
        &&& self.offset == self.start + sum_counts(self.sorted(names).take(self.entered()))
        &&& self.start + self.node@.count <= u64::MAX
    }

    /// The rectangles that the walk has yet to give for this frame, which
    /// lies at `depth`: those of the children not entered yet, then that of
    /// `node` itself.
    pub open spec fn pending(&self, names: Seq<Seq<char>>, depth: nat) -> Seq<RectView> {
        siblings(self.sorted(names), self.entered() as nat, depth + 1, self.offset as nat).push(
            RectView {
                name: self.name,
                count: self.node@.count,
                depth,
                offset: self.start as nat,
            },
        )
    }

    /// The frame of a node that the walk enters: none of its children has
    /// been entered, and its rectangle begins at `offset`. Its keys are the
    /// names of all the children, each once, the last name first.
    pub fn new(node: &'a Node, table: &SymbolTable, name: &Symbol, offset: u64) -> (frame: Frame<
        'a,
    >)
        requires
            node.wf(),
            table.wf(),
            node@.named(table@.len()),
        ensures
            frame.node == node,
            frame.name == *name,
            frame.start == offset,
            frame.offset == offset,
            frame.entered() == 0,
            frame.keyed(table@),
            forall|a: int, b: int|
                0 <= a < b < frame.keys@.len() ==> precedes(table@, frame.keys@[b], frame.keys@[a]),
            forall|i: int|
                0 <= i < node@.children.len() ==> frame.keys@.contains(
                    (#[trigger] node@.children[i]).name,
                ),
            offset + node@.count <= u64::MAX ==> frame.wf(table@),
            forall|depth: nat| #[trigger]
                frame.pending(table@, depth) == post_order(
                    by_names(node@, table@),
                    *name,
                    depth,
                    offset as nat,
                ),
    {
        let ghost names = table@;
        let ghost sorted = sorted_branches(node@.children, names);
        let mut rising = node.keys_by_name(table);
        let ghost all = rising@;
        let mut keys: Vec<Symbol> = Vec::new();
        while rising.len() > 0
            invariant
                rising@.len() + keys@.len() == all.len(),
                forall|k: int| 0 <= k < rising@.len() ==> rising@[k] == all[k],
                forall|k: int| 0 <= k < keys@.len() ==> keys@[k] == all[all.len() - 1 - k],
            decreases rising@.len(),
        {
            let key = rising.pop().unwrap();
            keys.push(key);
        }
        let frame = Frame { keys, node, offset, start: offset, name: *name };
        proof {
            assert(sorted.take(0) =~= Seq::<Branch>::empty());
            lemma_sorted_in_order(node@.children, names);
            assert forall|i: int| 0 <= i < node@.children.len() implies frame.keys@.contains(
                (#[trigger] node@.children[i]).name,
            ) by {
                let k = lemma_sorted_holds(node@.children, names, i);
                assert(frame.keys@[sorted.len() - 1 - k] == node@.children[i].name);
            }
        }
        frame
    }
}

/// The rectangles that the walk has yet to give for the lowest `n` frames of
/// its stack, the upper frames first.
pub open spec fn pending_all<'a>(frames: Seq<Frame<'a>>, names: Seq<Seq<char>>, n: nat) -> Seq<
    RectView,
>
    decreases n,
{
    if n == 0 || n > frames.len() {
        Seq::empty()
    } else {
        frames[n - 1].pending(names, (n - 1) as nat) + pending_all(frames, names, (n - 1) as nat)
    }
}

/// What is pending for the lowest `n` frames depends on those frames alone.
proof fn lemma_pending_all_prefix<'a>(
    a: Seq<Frame<'a>>,
    b: Seq<Frame<'a>>,
    names: Seq<Seq<char>>,
    n: nat,
)
    requires
        n <= a.len(),
        n <= b.len(),
        forall|i: int| 0 <= i < n ==> a[i] == b[i],
    ensures
        pending_all(a, names, n) == pending_all(b, names, n),
    decreases n,
{
    if n > 0 {
        lemma_pending_all_prefix(a, b, names, (n - 1) as nat);
    }
}

/// The tree of the uppermost frame.
spec fn top_tree<'a>(frames: Seq<Frame<'a>>) -> Tree {
    if frames.len() > 0 {
        frames.last().node@
    } else {
        Tree::empty()
    }
}

/// The walk over a frame tree that gives the rectangles one at a time, each
/// node after its children and the children from left to right in the order
/// of their names.
pub struct Rects<'a> {
    stack: Vec<Frame<'a>>,
    table: &'a SymbolTable,
}

impl<'a> Rects<'a> {
    /// The table is well formed, and so is every frame of the stack.
    pub closed spec fn wf(&self) -> bool {
        &&& self.table.wf()
        &&& forall|i: int|
            0 <= i < self.stack@.len() ==> (#[trigger] self.stack@[i]).wf(self.table@)
    }

    /// The rectangles that the walk has yet to give, in the order in which
    /// it gives them.
    pub closed spec fn remaining(&self) -> Seq<RectView> {
        pending_all(self.stack@, self.table@, self.stack@.len())
    }

    /// The walk over the tree under `node`, whose root is shown as `name`
    /// and whose names `table` holds.
    pub fn new(node: &'a Node, table: &'a SymbolTable, name: &Symbol) -> (rects: Rects<'a>)
        requires
            node.wf(),
            table.wf(),
            node@.named(table@.len()),
        ensures
            rects.wf(),
            rects.remaining() == post_order(by_names(node@, table@), *name, 0, 0),
    {
        proof {
            node.lemma_count_fits();
        }
        let frame = Frame::new(node, table, name, 0);
        let mut stack: Vec<Frame<'a>> = Vec::new();
        stack.push(frame);
        proof {
            let names = table@;
            assert(stack@.len() == 1);
            assert(stack@[0] == frame);
            assert(pending_all(stack@, names, 0) == Seq::<RectView>::empty());
            assert(pending_all(stack@, names, 1) == frame.pending(names, 0) + pending_all(
                stack@,
                names,
                0,
            ));
            assert(frame.pending(names, 0) + Seq::<RectView>::empty() =~= frame.pending(names, 0));
        }
        Rects { stack, table }
    }

    /// The next rectangle, or `None` when every node has had its rectangle.
    ///
    /// The walk takes the uppermost frame from its stack. While that frame
    /// has children left to enter, the walk enters the next of them in the
    /// order of their names: the child begins where the one before it
    /// ended, its frame goes on top of that of its parent, and the walk goes
    /// on there. A frame without children left gives the rectangle of its
    /// node, at the depth that is the number of frames below it.
    pub fn next(&mut self) -> (rect: Option<Rect>)
        requires
            old(self).wf(),
        ensures
            final(self).wf(),
            rect is Some <==> old(self).remaining().len() > 0,
            rect matches Some(r) ==> r@ == old(self).remaining().first(),
            final(self).remaining() == if old(self).remaining().len() > 0 {
                old(self).remaining().drop_first()
            } else {
                old(self).remaining()
            },
    {
        let ghost names = self.table@;
        while self.stack.len() > 0
            invariant
                self.wf(),
                self.table == old(self).table,
                names == self.table@,
                self.remaining() == old(self).remaining(),
            decreases top_tree(self.stack@),
        {
            let ghost before = self.stack@;
            let ghost n = before.len();
            let mut current = self.stack.pop().unwrap();
            let ghost popped = current;
            let ghost kids = current.node@.children;
            let ghost sorted = current.sorted(names);
            let ghost k = current.entered();
            let depth = self.stack.len() as u64;
            proof {
                assert(before[n - 1] == current);
                assert(current.wf(names));
                lemma_pending_all_prefix(before, self.stack@, names, (n - 1) as nat);
                assert(pending_all(before, names, n) == current.pending(names, (n - 1) as nat)
                    + pending_all(before, names, (n - 1) as nat));
            }
            match current.keys.pop() {
                Some(key) => {
                    let ghost i = 0int;
                    proof {
                        assert(key == sorted[k].name);
                        i = lemma_sorted_member(kids, names, k);
                        lemma_child_by_name(popped.node@, i);
                        assert(sorted.take(k + 1).drop_last() =~= sorted.take(k));
                        assert(sorted.take(k + 1).last() == sorted[k]);
                        lemma_sum_counts_prefix(sorted, k + 1);
                        lemma_sorted_counts(kids, names);
                        assert(kids[i].tree.named(names.len()));
                    }
                    let child = current.node.child(key).unwrap();
                    let next = Frame::new(child, self.table, &key, current.offset);
                    current.offset = current.offset + child.count();
                    proof {
                        let off = popped.offset as nat;
                        assert(current.wf(names));
                        assert(next.wf(names));
                        let inner = post_order(sorted[k].tree, key, n as nat, off);
                        assert(next.pending(names, n as nat) == inner);
                        assert(siblings(sorted, k as nat, n as nat, off) == inner + siblings(
                            sorted,
                            (k + 1) as nat,
                            n as nat,
                            off + sorted[k].tree.count,
                        ));
                        assert(popped.pending(names, (n - 1) as nat) =~= next.pending(
                            names,
                            n as nat,
                        ) + current.pending(names, (n - 1) as nat));
                    }
                    self.stack.push(current);
                    self.stack.push(next);
                    proof {
                        let after = self.stack@;
                        lemma_pending_all_prefix(before, after, names, (n - 1) as nat);
                        assert(after[n as int] == next);
                        assert(after[n - 1] == current);
                        assert(pending_all(after, names, n) == current.pending(
                            names,
                            (n - 1) as nat,
                        ) + pending_all(after, names, (n - 1) as nat));
                        assert(pending_all(after, names, n + 1) == next.pending(names, n as nat)
                            + pending_all(after, names, n));
                        assert(pending_all(after, names, n + 1) =~= pending_all(before, names, n));
                        assert(decreases_to!(popped.node@ => next.node@));
                    }
                },
                None => {
                    let rect = Rect {
                        name: current.name,
                        count: current.node.count(),
                        offset: current.start,
                        depth,
                    };
                    proof {
                        let rest = pending_all(self.stack@, names, (n - 1) as nat);
                        assert(current.pending(names, (n - 1) as nat) =~= seq![rect@]);
                        assert(old(self).remaining() =~= seq![rect@] + rest);
                        assert(old(self).remaining().drop_first() =~= rest);
                    }
                    return Some(rect);
                },
            }
        }
        None
    }
}

impl Node {
    /// Appends to `buf` the rectangles of this node and of everything below
    /// it, each node before its children and the children from left to
    /// right in the order of their names, where this node is shown as
    /// `name` and lies at `depth` and `offset`.
    pub fn gen_rects(
        &self,
        table: &SymbolTable,
        name: &Symbol,
        depth: u64,
        offset: u64,
        buf: &mut Vec<Rect>,
    )
        requires
            self.wf(),
            table.wf(),
            self@.named(table@.len()),
            depth + self@.height() <= u64::MAX,
            offset + self@.count <= u64::MAX,
        ensures
            views(final(buf)@) == views(old(buf)@) + pre_order(
                by_names(self@, table@),
                *name,
                depth as nat,
                offset as nat,
            ),
        decreases self@,
    {
        let ghost names = table@;
        let ghost kids = self@.children;
        let ghost sorted = sorted_branches(kids, names);
        let ghost goal = views(old(buf)@) + pre_order(
            by_names(self@, names),
            *name,
            depth as nat,
            offset as nat,
        );
        let own = Rect { name: *name, count: self.count(), depth, offset };
        buf.push(own);
        let keys = self.keys_by_name(table);
        proof {
            assert(views(buf@) =~= views(old(buf)@).push(own@));
            assert(views(buf@) + pre_siblings(sorted, 0, depth as nat + 1, offset as nat) =~= goal);
            assert(sorted.take(0) =~= Seq::<Branch>::empty());
            lemma_sorted_counts(kids, names);
        }
        let len = keys.len();
        let mut delta: u64 = 0;
        let mut i: usize = 0;
        while i < len
            invariant
                i <= len,
                len == sorted.len(),
                len == keys@.len(),
                kids == self@.children,
                names == table@,
                sorted == sorted_branches(kids, names),
                sum_counts(sorted) == sum_counts(kids),
                forall|j: int| 0 <= j < len ==> #[trigger] keys@[j] == sorted[j].name,
                self.wf(),
                table.wf(),
                self@.named(names.len()),
                depth + self@.height() <= u64::MAX,
                offset + self@.count <= u64::MAX,
                delta == sum_counts(sorted.take(i as int)),
                views(buf@) + pre_siblings(
                    sorted,
                    i as nat,
                    depth as nat + 1,
                    (offset + delta) as nat,
                ) == goal,
            decreases len - i,
        {
            let key = keys[i];
            let ghost m = 0int;
            proof {
                m = lemma_sorted_member(kids, names, i as int);
                lemma_child_by_name(self@, m);
                assert(sorted.take(i + 1).drop_last() =~= sorted.take(i as int));
                assert(sorted.take(i + 1).last() == sorted[i as int]);
                lemma_sum_counts_prefix(sorted, i + 1);
                assert(kids[m].tree.named(names.len()));
                lemma_child_height(self@, m);
            }
            let child = self.child(key).unwrap();
            let ghost had = views(buf@);
            proof {
                let at = (offset + delta) as nat;
                assert(pre_siblings(sorted, i as nat, depth as nat + 1, at) == pre_order(
                    sorted[i as int].tree,
                    key,
                    depth as nat + 1,
                    at,
                ) + pre_siblings(
                    sorted,
                    (i + 1) as nat,
                    depth as nat + 1,
                    (offset + delta + child@.count) as nat,
                ));
            }
            child.gen_rects(table, &key, depth + 1, offset + delta, buf);
            proof {
                let inner = pre_order(
                    sorted[i as int].tree,
                    key,
                    depth as nat + 1,
                    (offset + delta) as nat,
                );
                let later = pre_siblings(
                    sorted,
                    (i + 1) as nat,
                    depth as nat + 1,
                    (offset + delta + child@.count) as nat,
                );
                assert((had + inner) + later =~= had + (inner + later));
            }
            delta = delta + child.count();
            i = i + 1;
        }
        proof {
            assert(views(buf@) + Seq::<RectView>::empty() =~= views(buf@));
        }
    }
}

} // verus!
