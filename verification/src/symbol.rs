//! Interned frame names.
//!
//! Frame names repeat enormously across samples, so every name is stored once in
//! a [`SymbolTable`] and referred to by a small [`Symbol`]. The storage is a
//! `string_interner::StringInterner`. What this module takes on trust about it
//! is stated in the contracts of the five private functions at the end of the
//! file, and what it takes on trust about the order of strings in that of the
//! private function before them; everything else is proved from those.

use string_interner::StringInterner;
use string_interner::Sym;
use vstd::prelude::*;

verus! {

/// The interner only hands out symbols whose index is below this bound.
pub const SYMBOL_LIMIT: usize = 0xFFFF_FFFF;

/// A handle for one interned frame name.
///
/// The index of a symbol is the place of its name in the table: the first
/// name to be interned gets index 0, the next new name index 1, and so on.
/// The order of symbols is the order of their names, which the table that
/// made them gives: see [`SymbolTable::precedes`].
#[derive(Clone, Copy, Debug, PartialEq, Eq, Structural, Hash)]
pub struct Symbol {
    pub index: usize,
}

impl Symbol {
    /// The symbol with the given index.
    pub fn from_index(index: usize) -> (sym: Symbol)
        ensures
            sym.index == index,
    {
        Symbol { index }
    }

    /// The position of this symbol's name in the table that made it.
    pub fn index(&self) -> (index: usize)
        ensures
            index == self.index,
    {
        self.index
    }
}

/// A `StringInterner` with its default symbol type and hasher.
///
/// The interner is generic over a trait of its own crate, so the verifier sees
/// this struct as an opaque value and learns about it only through [`interned`].
#[verifier::external_body]
pub struct Interner {
    inner: StringInterner<Sym>,
}

/// The strings that an interner holds, in the order in which they were first
/// interned. The symbol of a string is its position in this sequence.
pub uninterp spec fn interned(interner: Interner) -> Seq<Seq<char>>;

/// The table of all frame names seen so far. It only grows.
pub struct SymbolTable {
    interner: Interner,
}

impl View for SymbolTable {
    type V = Seq<Seq<char>>;

    /// The interned names; the name of symbol `s` is at position `s.index`.
    closed spec fn view(&self) -> Seq<Seq<char>> {
        interned(self.interner)
    }
}

/// Whether `one` comes before `other` in the order of a dictionary, where
/// the characters are in the order of their code points.
pub open spec fn comes_before(one: Seq<char>, other: Seq<char>) -> bool
    decreases one.len(),
{
    if other.len() == 0 {
        false
    } else if one.len() == 0 {
        true
    } else if one.first() != other.first() {
        (one.first() as u32) < (other.first() as u32)
    } else {
        comes_before(one.drop_first(), other.drop_first())
    }
}

/// Whether the name of `one` comes before the name of `other`, in a table
/// that holds `names`: the order of symbols.
pub open spec fn precedes(names: Seq<Seq<char>>, one: Symbol, other: Symbol) -> bool {
    comes_before(names[one.index as int], names[other.index as int])
}

/// What interning `name` makes of the names `names`: nothing new if `name` is
/// already there or the table is full, else `name` is appended.
pub open spec fn interned_with(names: Seq<Seq<char>>, name: Seq<char>) -> Seq<Seq<char>> {
    if names.contains(name) || names.len() >= SYMBOL_LIMIT {
        names
    } else {
        names.push(name)
    }
}

/// The symbol of `name` in a table that holds `names`, if `name` is among
/// them.
pub open spec fn symbol_of(names: Seq<Seq<char>>, name: Seq<char>) -> Option<Symbol> {
    if names.contains(name) {
        Some(Symbol { index: names.index_of(name) as usize })
    } else {
        None
    }
}

impl SymbolTable {
    /// No name is stored twice, and every index fits a symbol.
    pub open spec fn wf(&self) -> bool {
        &&& self@.no_duplicates()
        &&& self@.len() <= SYMBOL_LIMIT
    }

    /// Whether `sym` names an entry of this table.
    pub open spec fn knows(&self, sym: Symbol) -> bool {
        sym.index < self@.len()
    }

    /// An empty table.
    pub fn new() -> (table: SymbolTable)
        ensures
            table.wf(),
            table@ == Seq::<Seq<char>>::empty(),
    {
        SymbolTable { interner: interner_new() }
    }

    /// The number of distinct names interned so far.
    pub fn len(&self) -> (len: usize)
        ensures
            len == self@.len(),
    {
        interner_len(&self.interner)
    }

    /// The symbol of `name`, if it has been interned.
    pub fn lookup(&self, name: &str) -> (found: Option<Symbol>)
        requires
            self.wf(),
        ensures
            found == symbol_of(self@, name@),
            found is Some <==> self@.contains(name@),
            found matches Some(sym) ==> self.knows(sym) && self@[sym.index as int] == name@,
    {
        match interner_get(&self.interner, name) {
            Some(index) => {
                assert(self@[self@.index_of(name@)] == name@);
                Some(Symbol { index })
            },
            None => None,
        }
    }

    /// The symbol of `name`, interning it first if it is new.
    ///
    /// Fails only when `name` is new and the table already holds
    /// [`SYMBOL_LIMIT`] names; the table is then unchanged.
    pub fn intern(&mut self, name: &str) -> (interned: Option<Symbol>)
        requires
            old(self).wf(),
        ensures
            final(self).wf(),
            final(self)@ == interned_with(old(self)@, name@),
            interned == symbol_of(final(self)@, name@),
            interned is Some <==> old(self)@.contains(name@) || old(self)@.len() < SYMBOL_LIMIT,
            interned is Some <==> final(self)@.contains(name@),
            interned matches Some(sym) ==> final(self).knows(sym) && final(self)@[sym.index as int]
                == name@,
    {
        match interner_get(&self.interner, name) {
            Some(index) => {
                assert(self@[self@.index_of(name@)] == name@);
                Some(Symbol { index })
            },
            None => {
                if interner_len(&self.interner) < SYMBOL_LIMIT {
                    let index = interner_get_or_intern(&mut self.interner, name);
                    proof {
                        let before = old(self)@;
                        assert(before.push(name@).no_duplicates()) by {
                            assert forall|i: int, j: int|
                                0 <= i < j < before.len() + 1 implies before.push(name@)[i]
                                != before.push(name@)[j] by {
                                if j == before.len() {
                                    assert(before.contains(before[i]));
                                }
                            }
                        }
                        assert(before.push(name@)[index as int] == name@);
                        assert(self@[self@.index_of(name@)] == name@);
                    }
                    Some(Symbol { index })
                } else {
                    None
                }
            },
        }
    }

    /// Whether `one` comes before `other` in the order of symbols, which is
    /// the order of their names.
    pub fn precedes(&self, one: Symbol, other: Symbol) -> (before: bool)
        requires
            self.wf(),
            self.knows(one),
            self.knows(other),
        ensures
            before == precedes(self@, one, other),
    {
        let left = interner_resolve(&self.interner, one.index);
        let right = interner_resolve(&self.interner, other.index);
        str_less(left.unwrap(), right.unwrap())
    }

    /// The name behind `sym`, or `None` for a symbol that this table never
    /// handed out.
    pub fn resolve(&self, sym: Symbol) -> (name: Option<&str>)
        requires
            self.wf(),
        ensures
            name is Some <==> self.knows(sym),
            name matches Some(text) ==> text@ == self@[sym.index as int],
    {
        if sym.index < SYMBOL_LIMIT {
            interner_resolve(&self.interner, sym.index)
        } else {
            None
        }
    }
}

/// Two names of one table have the same symbol exactly if they are the same
/// name.
pub proof fn lemma_symbols_differ(names: Seq<Seq<char>>, one: Seq<char>, other: Seq<char>)
    requires
        names.len() <= SYMBOL_LIMIT,
        names.contains(one),
        names.contains(other),
    ensures
        symbol_of(names, one) == symbol_of(names, other) <==> one == other,
{
    assert(names[names.index_of(one)] == one);
    assert(names[names.index_of(other)] == other);
}

/// Interning never takes anything from the table: it stays without
/// duplicates, and every name that was in it keeps its place, and so its
/// symbol.
pub proof fn lemma_interning_keeps(names: Seq<Seq<char>>, name: Seq<char>, old_name: Seq<char>)
    requires
        names.no_duplicates(),
        names.contains(old_name),
    ensures
        interned_with(names, name).no_duplicates(),
        names.is_prefix_of(interned_with(names, name)),
        symbol_of(interned_with(names, name), old_name) == symbol_of(names, old_name),
{
    let grown = interned_with(names, name);
    let at = names.index_of(old_name);
    assert(names[at] == old_name);
    assert(grown[at] == old_name);
    assert(names =~= grown.subrange(0, names.len() as int));
    assert forall|i: int, j: int|
        0 <= i < grown.len() && 0 <= j < grown.len() && i != j implies grown[i] != grown[j] by {
        if grown.len() > names.len() {
            if i == names.len() {
                assert(names.contains(names[j]));
            } else if j == names.len() {
                assert(names.contains(names[i]));
            }
        }
    }
    assert(grown[grown.index_of(old_name)] == old_name);
}

/// The comparison `<` of two string slices. The standard library documents
/// it as the order of a dictionary over the bytes, which is that over the
/// code points of the characters.
#[verifier::external_body]
fn str_less(one: &str, other: &str) -> (less: bool)
    ensures
        less == comes_before(one@, other@),
{
    one < other
}

/// `StringInterner::new`: a fresh interner holds no string.
#[verifier::external_body]
fn interner_new() -> (interner: Interner)
    ensures
        interned(interner) == Seq::<Seq<char>>::empty(),
{
    Interner { inner: StringInterner::new() }
}

/// `StringInterner::len`: the number of strings held.
#[verifier::external_body]
fn interner_len(interner: &Interner) -> (len: usize)
    ensures
        len == interned(*interner).len(),
{
    interner.inner.len()
}

/// `StringInterner::get`: the index of the symbol under which `name` is held,
/// or `None` if it is not held.
#[verifier::external_body]
fn interner_get(interner: &Interner, name: &str) -> (found: Option<usize>)
    ensures
        found is Some <==> interned(*interner).contains(name@),
        found matches Some(index) ==> index < interned(*interner).len() && interned(
            *interner,
        )[index as int] == name@,
{
    interner.inner.get(name).map(string_interner::Symbol::to_usize)
}

/// `StringInterner::get_or_intern`: a string that is already held keeps its
/// symbol and nothing changes; a new one is appended and gets the next index.
/// The interner panics when it would have to make a symbol past
/// [`SYMBOL_LIMIT`], hence the precondition.
#[verifier::external_body]
fn interner_get_or_intern(interner: &mut Interner, name: &str) -> (index: usize)
    requires
        interned(*old(interner)).contains(name@) || interned(*old(interner)).len() < SYMBOL_LIMIT,
    ensures
        interned(*old(interner)).contains(name@) ==> interned(*final(interner)) == interned(
            *old(interner),
        ),
        !interned(*old(interner)).contains(name@) ==> interned(*final(interner)) == interned(
            *old(interner),
        ).push(name@) && index == interned(*old(interner)).len(),
        index < interned(*final(interner)).len(),
        interned(*final(interner))[index as int] == name@,
{
    string_interner::Symbol::to_usize(interner.inner.get_or_intern(name))
}

/// `StringInterner::resolve`: the string held under the symbol with the given
/// index, if there is one. Making a symbol from an index at or past
/// [`SYMBOL_LIMIT`] panics, hence the precondition.
#[verifier::external_body]
fn interner_resolve(interner: &Interner, index: usize) -> (name: Option<&str>)
    requires
        index < SYMBOL_LIMIT,
    ensures
        name is Some <==> index < interned(*interner).len(),
        name matches Some(text) ==> text@ == interned(*interner)[index as int],
{
    interner.inner.resolve(<Sym as string_interner::Symbol>::from_usize(index))
}

} // verus!
