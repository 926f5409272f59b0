//! A plain listing of a frame tree, one node to a line, for looking at the
//! tree itself. The children of a node are listed in the order of their
//! names.

use crate::format::digits_of;
use crate::format::push_number;
use crate::format::push_text;
use crate::order::by_names;
use crate::order::lemma_sorted_member;
use crate::order::sorted_branches;
use crate::symbol::Symbol;
use crate::symbol::SymbolTable;
use crate::tree_laws::lemma_child_by_name;
use crate::tree_laws::lemma_child_height;
use crate::tree::Branch;
use crate::tree::Node;
use crate::tree::Tree;
use vstd::prelude::*;

verus! {

/// The line of one node: a space for each level of depth, the name, a
/// space, the count, and the end of the line.
pub open spec fn dump_line(text: Seq<char>, count: nat, depth: nat) -> Seq<char> {
    Seq::new(depth, |i: int| ' ') + text + seq![' '] + digits_of(count) + seq!['\n']
}

/// The listing of `tree` and of everything below it, each node before its
/// children and the children in the order in which they stand, where the
/// root of `tree` is called `name` and is `depth` levels deep.
pub open spec fn dump(tree: Tree, names: Seq<Seq<char>>, name: Symbol, depth: nat) -> Seq<char>
    decreases tree, 0nat,
{
    dump_line(names[name.index as int], tree.count, depth) + dump_children(
        tree.children,
        0,
        names,
        depth + 1,
    )
}

/// The listings of the children from position `from` on, one after the
/// other.
pub open spec fn dump_children(
    children: Seq<Branch>,
    from: nat,
    names: Seq<Seq<char>>,
    depth: nat,
) -> Seq<char>
    decreases children, children.len() - from,
{
    if from >= children.len() {
        Seq::empty()
    } else {
        let first = children[from as int];
        dump(first.tree, names, first.name, depth) + dump_children(
            children,
            from + 1,
            names,
            depth,
        )
    }
}

impl Node {
    /// The listing of this node and of everything below it, the children
    /// of every node in the order of their names. The caller prints it.
    pub fn print(&self, table: &SymbolTable, name: &Symbol, depth: usize) -> (text: String)
        requires
            self.wf(),
            table.wf(),
            table.knows(*name),
            self@.named(table@.len()),
            depth + self@.height() <= usize::MAX,
        ensures
            text@ == dump(by_names(self@, table@), table@, *name, depth as nat),
    {
        let mut text = String::new();
        self.print_into(table, name, depth, &mut text);
        proof {
            let listing = dump(by_names(self@, table@), table@, *name, depth as nat);
            assert(Seq::<char>::empty() + listing =~= listing);
        }
        text
    }

    /// Appends the listing of this node to `out`.
    fn print_into(&self, table: &SymbolTable, name: &Symbol, depth: usize, out: &mut String)
        requires
            self.wf(),
            table.wf(),
            table.knows(*name),
            self@.named(table@.len()),
            depth + self@.height() <= usize::MAX,
        ensures
            final(out)@ == old(out)@ + dump(
                by_names(self@, table@),
                table@,
                *name,
                depth as nat,
            ),
        decreases self@,
    {
        let ghost kids = self@.children;
        let ghost sorted = sorted_branches(kids, table@);
        let ghost goal = old(out)@ + dump(by_names(self@, table@), table@, *name, depth as nat);
        let mut i: usize = 0;
        proof {
            assert(old(out)@ + Seq::new(0, |i: int| ' ') =~= old(out)@);
        }
        while i < depth
            invariant
                i <= depth,
                out@ == old(out)@ + Seq::new(i as nat, |i: int| ' '),
            decreases depth - i,
        {
            out.push(' ');
            proof {
                let wider = Seq::new((i + 1) as nat, |i: int| ' ');
                assert(wider =~= Seq::new(i as nat, |i: int| ' ').push(' '));
                assert(out@ =~= old(out)@ + Seq::new((i + 1) as nat, |i: int| ' '));
            }
            i = i + 1;
        }
        let text = table.resolve(*name).unwrap();
        push_text(out, text);
        out.push(' ');
        push_number(out, self.count());
        out.push('\n');
        proof {
            assert(out@ =~= old(out)@ + dump_line(
                table@[name.index as int],
                self@.count,
                depth as nat,
            ));
            assert(out@ + dump_children(sorted, 0, table@, depth as nat + 1) =~= goal);
        }
        let keys = self.keys_by_name(table);
        let len = keys.len();
        let mut k: usize = 0;
        while k < len
            invariant
                k <= len,
                len == sorted.len(),
                len == keys@.len(),
                kids == self@.children,
                sorted == sorted_branches(kids, table@),
                forall|j: int| 0 <= j < len ==> #[trigger] keys@[j] == sorted[j].name,
                self.wf(),
                table.wf(),
                self@.named(table@.len()),
                depth + self@.height() <= usize::MAX,
                out@ + dump_children(sorted, k as nat, table@, depth as nat + 1) == goal,
            decreases len - k,
        {
            let key = keys[k];
            let ghost m = 0int;
            proof {
                m = lemma_sorted_member(kids, table@, k as int);
                lemma_child_by_name(self@, m);
                assert(kids[m].tree.named(table@.len()));
                assert(kids[m].name.index < table@.len());
                lemma_child_height(self@, m);
            }
            let child = self.child(key).unwrap();
            let ghost had = out@;
            proof {
                assert(dump_children(sorted, k as nat, table@, depth as nat + 1) == dump(
                    sorted[k as int].tree,
                    table@,
                    key,
                    depth as nat + 1,
                ) + dump_children(sorted, (k + 1) as nat, table@, depth as nat + 1));
            }
            child.print_into(table, &key, depth + 1, out);
            proof {
                let inner = dump(sorted[k as int].tree, table@, key, depth as nat + 1);
                let later = dump_children(sorted, (k + 1) as nat, table@, depth as nat + 1);
                assert((had + inner) + later =~= had + (inner + later));
            }
            k = k + 1;
        }
        proof {
            assert(out@ + Seq::<char>::empty() =~= out@);
        }
    }
}

} // verus!
