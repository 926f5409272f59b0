//! Ingestion: the lines of the input go, one at a time, into the symbol
//! table and the frame tree.

use crate::symbol::interned_with;
use crate::symbol::symbol_of;
use crate::symbol::Symbol;
use crate::symbol::SymbolTable;
use crate::symbol::SYMBOL_LIMIT;
use crate::text::parse_line;
use crate::text::sample_of;
use crate::tree_laws::lemma_named_more;
use crate::tree_laws::lemma_with_record_named;
use crate::tree::Node;
use crate::tree::Tree;
use vstd::prelude::*;

verus! {

/// The settings of one run. They are fixed before the first line is read.
#[derive(Clone, Copy, Debug, PartialEq, Eq, Structural)]
pub struct Config {
    /// Put the innermost frame of every stack next to the root.
    pub reverse: bool,
    /// Draw the root on the top row and the deeper frames below it.
    pub upside_down: bool,
}

impl Config {
    /// The usual settings: outermost frame next to the root, root on the
    /// bottom row.
    pub fn new() -> (config: Config)
        ensures
            !config.reverse,
            !config.upside_down,
    {
        Config { reverse: false, upside_down: false }
    }

    /// The row, counted from the top of the picture, of a rectangle at
    /// `depth` in a flame graph whose deepest row is `max_depth`.
    pub fn row(&self, max_depth: u64, depth: u64) -> (row: u64)
        requires
            self.upside_down || depth <= max_depth,
        ensures
            row == if self.upside_down {
                depth as int
            } else {
                max_depth - depth
            },
    {
        if self.upside_down {
            depth
        } else {
            max_depth - depth
        }
    }
}

/// What became of a line of input.
#[derive(Clone, Copy, Debug, PartialEq, Eq, Structural)]
pub enum Outcome {
    /// The line was valid and its stack is in the tree.
    Recorded,
    /// The line was invalid. It was counted and otherwise ignored.
    Invalid,
    /// The line was valid, but with its count the total no longer fits 64
    /// bits. Nothing was changed.
    Overflow,
    /// The line was valid, but one of its frame names is new and the symbol
    /// table is full. The tree was not changed.
    TableFull,
}

/// The names after each of `frames` in turn has been interned.
pub open spec fn intern_all(names: Seq<Seq<char>>, frames: Seq<Seq<char>>) -> Seq<Seq<char>>
    decreases frames.len(),
{
    if frames.len() == 0 {
        names
    } else {
        interned_with(intern_all(names, frames.drop_last()), frames.last())
    }
}

/// Whether each of `frames` is among `names`.
pub open spec fn all_known(names: Seq<Seq<char>>, frames: Seq<Seq<char>>) -> bool {
    forall|j: int| 0 <= j < frames.len() ==> names.contains(#[trigger] frames[j])
}

/// The symbols of `frames` in a table that holds `names`.
pub open spec fn symbols_in(names: Seq<Seq<char>>, frames: Seq<Seq<char>>) -> Seq<Symbol> {
    frames.map_values(|frame: Seq<char>| Symbol { index: names.index_of(frame) as usize })
}

/// Once the table is full, interning changes nothing.
proof fn lemma_intern_all_full(names: Seq<Seq<char>>, frames: Seq<Seq<char>>, k: int, m: int)
    requires
        0 <= k <= m <= frames.len(),
        intern_all(names, frames.take(k)).len() >= SYMBOL_LIMIT,
    ensures
        intern_all(names, frames.take(m)) == intern_all(names, frames.take(k)),
    decreases m - k,
{
    if k < m {
        lemma_intern_all_full(names, frames, k, m - 1);
        assert(frames.take(m).drop_last() =~= frames.take(m - 1));
    }
}

/// The symbol table, the frame tree and the tally of invalid lines of one
/// run.
pub struct Profile {
    table: SymbolTable,
    root: Node,
    invalid_lines: u64,
}

impl Profile {
    /// The frame names interned so far.
    pub closed spec fn names(&self) -> Seq<Seq<char>> {
        self.table@
    }

    /// The frame tree built so far.
    pub closed spec fn tree(&self) -> Tree {
        self.root@
    }

    /// The number of invalid lines seen so far.
    pub closed spec fn invalid(&self) -> nat {
        self.invalid_lines as nat
    }

    /// The table and the tree are well formed, and the table knows every
    /// name in the tree.
    pub closed spec fn wf(&self) -> bool {
        &&& self.table.wf()
        &&& self.root.wf()
        &&& self.root@.named(self.table@.len())
    }

    /// The state before the first line.
    pub fn new() -> (profile: Profile)
        ensures
            profile.wf(),
            profile.names() == Seq::<Seq<char>>::empty(),
            profile.tree() == Tree::empty(),
            profile.invalid() == 0,
    {
        Profile { table: SymbolTable::new(), root: Node::new(), invalid_lines: 0 }
    }

    /// The root of the frame tree.
    pub fn root(&self) -> (root: &Node)
        requires
            self.wf(),
        ensures
            root.wf(),
            root@ == self.tree(),
            root@.named(self.names().len()),
    {
        &self.root
    }

    /// The symbol table.
    pub fn table(&self) -> (table: &SymbolTable)
        requires
            self.wf(),
        ensures
            table.wf(),
            table@ == self.names(),
    {
        &self.table
    }

    /// Whether no sample has been recorded, so that there is nothing to
    /// draw.
    pub fn is_empty(&self) -> (empty: bool)
        ensures
            empty == (self.tree().count == 0),
    {
        self.root.count() == 0
    }

    /// The number of invalid lines seen so far.
    pub fn invalid_lines(&self) -> (invalid: u64)
        ensures
            invalid == self.invalid(),
    {
        self.invalid_lines
    }

    /// The symbol of `name`, interned if it is new; `None` if it is new and
    /// the table is full. This is how the root gets its name.
    pub fn intern(&mut self, name: &str) -> (interned: Option<Symbol>)
        requires
            old(self).wf(),
        ensures
            final(self).wf(),
            final(self).tree() == old(self).tree(),
            final(self).invalid() == old(self).invalid(),
            final(self).names() == interned_with(old(self).names(), name@),
            interned == symbol_of(final(self).names(), name@),
            interned is Some <==> old(self).names().contains(name@) || old(self).names().len()
                < SYMBOL_LIMIT,
            interned is Some <==> final(self).names().contains(name@),
            interned matches Some(sym) ==> sym.index < final(self).names().len()
                && final(self).names()[sym.index as int] == name@,
    {
        let interned = self.table.intern(name);
        proof {
            lemma_named_more(self.root@, old(self).table@.len(), self.table@.len());
        }
        interned
    }

    /// Takes in one line of input.
    ///
    /// An invalid line is counted. A valid line has its frame names interned
    /// in their order, and its stack recorded in the tree with its count. A
    /// valid line whose count would take the total past 64 bits changes
    /// nothing; one that would take the table past its limit leaves the tree
    /// as it is.
    pub fn ingest_line(&mut self, line: &str, config: &Config) -> (outcome: Outcome)
        requires
            old(self).wf(),
            old(self).invalid() < u64::MAX,
        ensures
            final(self).wf(),
            match sample_of(line@, config.reverse) {
                None => {
                    &&& outcome == Outcome::Invalid
                    &&& final(self).invalid() == old(self).invalid() + 1
                    &&& final(self).names() == old(self).names()
                    &&& final(self).tree() == old(self).tree()
                },
                Some(sample) => {
                    &&& final(self).invalid() == old(self).invalid()
                    &&& if old(self).tree().count + sample.count > u64::MAX {
                        &&& outcome == Outcome::Overflow
                        &&& final(self).names() == old(self).names()
                        &&& final(self).tree() == old(self).tree()
                    } else {
                        &&& final(self).names() == intern_all(old(self).names(), sample.frames)
                        &&& if all_known(final(self).names(), sample.frames) {
                            &&& outcome == Outcome::Recorded
                            &&& final(self).tree() == old(self).tree().with_record(
                                symbols_in(final(self).names(), sample.frames),
                                sample.count as nat,
                            )
                        } else {
                            &&& outcome == Outcome::TableFull
                            &&& final(self).tree() == old(self).tree()
                        }
                    }
                },
            },
    {
        let sample = match parse_line(line, config.reverse) {
            Some(sample) => sample,
            None => {
                self.invalid_lines = self.invalid_lines + 1;
                return Outcome::Invalid;
            },
        };
        let ghost frames = sample@.frames;
        let ghost before = self.table@;
        if self.root.count().checked_add(sample.count).is_none() {
            return Outcome::Overflow;
        }
        let mut path: Vec<Symbol> = Vec::new();
        let mut k: usize = 0;
        proof {
            assert(frames.take(0) =~= Seq::<Seq<char>>::empty());
        }
        while k < sample.frames.len()
            invariant
                k <= sample.frames@.len(),
                frames == sample@.frames,
                frames.len() == sample.frames@.len(),
                sample_of(line@, config.reverse) == Some(sample@),
                before == old(self).table@,
                self.table.wf(),
                self.root.wf(),
                self.root@.named(self.table@.len()),
                self.root == old(self).root,
                self.root@.count + sample.count <= u64::MAX,
                self.invalid_lines == old(self).invalid_lines,
                self.table@ == intern_all(before, frames.take(k as int)),
                path@.len() == k,
                forall|j: int|
                    0 <= j < k ==> (#[trigger] path@[j]).index < self.table@.len()
                        && self.table@[path@[j].index as int] == frames[j],
            decreases sample.frames@.len() - k,
        {
            let ghost had = self.table@;
            proof {
                lemma_named_more(self.root@, had.len(), interned_with(had, frames[k as int]).len());
                assert(frames.take(k + 1).drop_last() =~= frames.take(k as int));
                assert(frames.take(k + 1).last() == frames[k as int]);
                assert(frames[k as int] == sample.frames@[k as int]@);
            }
            match self.table.intern(sample.frames[k].as_str()) {
                Some(sym) => {
                    path.push(sym);
                },
                None => {
                    proof {
                        let name = frames[k as int];
                        assert(had.push(name)[had.len() as int] == name);
                        assert(self.table@ == had);
                        lemma_intern_all_full(before, frames, k + 1, frames.len() as int);
                        assert(frames.take(frames.len() as int) =~= frames);
                        assert(!self.table@.contains(frames[k as int]));
                    }
                    return Outcome::TableFull;
                },
            }
            proof {
                assert forall|j: int| 0 <= j < k + 1 implies (#[trigger] path@[j]).index
                    < self.table@.len() && self.table@[path@[j].index as int] == frames[j] by {
                    if j < k {
                        assert(had[path@[j].index as int] == frames[j]);
                    }
                }
            }
            k = k + 1;
        }
        proof {
            let names = self.table@;
            assert(frames.take(k as int) =~= frames);
            assert forall|j: int| 0 <= j < frames.len() implies names.contains(
                #[trigger] frames[j],
            ) by {
                assert(names[path@[j].index as int] == frames[j]);
            }
            assert forall|j: int| 0 <= j < frames.len() implies path@[j] == #[trigger] symbols_in(
                names,
                frames,
            )[j] by {
                assert(names[path@[j].index as int] == frames[j]);
                assert(names.contains(frames[j]));
                assert(names[names.index_of(frames[j])] == frames[j]);
            }
            assert(path@ =~= symbols_in(names, frames));
            lemma_with_record_named(self.root@, path@, sample.count as nat, names.len());
        }
        self.root.add(path.as_slice(), sample.count);
        Outcome::Recorded
    }
}

} // verus!
