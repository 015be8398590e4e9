//! Symbols: cheap, comparable handles for interned strings. One interner
//! serves one scanning session; it only ever grows.

use vstd::prelude::*;
use string_interner::{DefaultBackend, DefaultSymbol, StringInterner};
use string_interner::Symbol as SymbolIndex;

verus! {

/// An opaque string table for one scanning session, kept by a
/// `string_interner` interner with its string backend; [`interned`] names
/// its contents.
#[verifier::external_body]
pub struct Interner {
    inner: StringInterner<DefaultBackend>,
}

/// The strings an interner holds, in the order they were first interned; the
/// position of a string is the index of its symbol.
pub uninterp spec fn interned(i: Interner) -> Seq<Seq<char>>;

/// Relies on `StringInterner::new`: a new interner holds no string.
#[verifier::external_body]
fn string_interner_new() -> (r: Interner)
    ensures
        interned(r) == Seq::<Seq<char>>::empty(),
{
    Interner { inner: StringInterner::new() }
}

/// Relies on `StringInterner::get_or_intern` with the string backend: a string
/// already held keeps its symbol; a new one is appended and gets the next
/// index. It panics when the `u32` symbols run out.
#[verifier::external_body]
fn string_interner_get_or_intern(i: &mut Interner, s: &str) -> (r: u32)
    requires
        interned(*old(i)).len() < u32::MAX,
    ensures
        interned(*old(i)).contains(s@) ==> {
            &&& interned(*final(i)) == interned(*old(i))
            &&& (r as int) < interned(*old(i)).len()
            &&& interned(*old(i))[r as int] == s@
        },
        !interned(*old(i)).contains(s@) ==> {
            &&& interned(*final(i)) == interned(*old(i)).push(s@)
            &&& r as int == interned(*old(i)).len()
        },
{
    i.inner.get_or_intern(s).to_usize() as u32
}

/// Relies on `StringInterner::resolve`: the string of the symbol with the
/// given index, if the interner made it.
#[verifier::external_body]
fn string_interner_resolve(i: &Interner, index: u32) -> (r: Option<&str>)
    ensures
        match r {
            Some(t) => (index as int) < interned(*i).len() && t@ == interned(*i)[index as int],
            None => index as int >= interned(*i).len(),
        },
{
    match DefaultSymbol::try_from_usize(index as usize) {
        Some(sym) => i.inner.resolve(sym),
        None => None,
    }
}

/// A handle to an interned string. Equal handles from one interner stand for
/// equal strings.
#[derive(Clone, Copy, PartialEq, Eq, Structural, Hash, Debug, PartialOrd, Ord)]
pub struct Symbol {
    id: u32,
}

impl Symbol {
    /// The index of the symbol in its interner.
    pub closed spec fn index(self) -> nat {
        self.id as nat
    }

    /// The index of the symbol in its interner.
    pub fn id(&self) -> (r: u32)
        ensures
            r as nat == self.index(),
    {
        self.id
    }
}

/// Symbols with the same index are the same symbol, so `==` on symbols is
/// index equality.
pub proof fn lemma_symbol_index_eq(a: Symbol, b: Symbol)
    ensures
        (a.index() == b.index()) <==> (a == b),
{
}

/// The table after interning `s`, and the index of `s` in it.
pub open spec fn intern_step(t: Seq<Seq<char>>, s: Seq<char>) -> (Seq<Seq<char>>, nat) {
    if t.contains(s) {
        (t, (choose|i: int| 0 <= i < t.len() && t[i] == s) as nat)
    } else {
        (t.push(s), t.len())
    }
}

/// A table whose symbols resolve to a string are those below its length.
pub open spec fn resolves(t: Seq<Seq<char>>, sym: Symbol) -> bool {
    sym.index() < t.len()
}

impl Interner {
    /// The interned strings, indexed by symbol.
    pub closed spec fn strings(&self) -> Seq<Seq<char>> {
        interned(*self)
    }

    /// No string is held twice.
    pub open spec fn wf(&self) -> bool {
        self.strings().no_duplicates()
    }

    pub fn new() -> (r: Self)
        ensures
            r.wf(),
            r.strings() == Seq::<Seq<char>>::empty(),
    {
        string_interner_new()
    }

    /// Interns `s`: the same string always gets the same symbol.
    pub fn intern(&mut self, s: &str) -> (r: Symbol)
        requires
            old(self).wf(),
            old(self).strings().len() < u32::MAX,
        ensures
            final(self).wf(),
            (final(self).strings(), r.index()) == intern_step(old(self).strings(), s@),
    {
        let ghost t = interned(*self);
        let id = string_interner_get_or_intern(self, s);
        proof {
            if t.contains(s@) {
                let c = choose|i: int| 0 <= i < t.len() && t[i] == s@;
                assert(t[c] == t[id as int]);
            } else {
                let t2 = t.push(s@);
                assert forall|i: int, j: int| 0 <= i < t2.len() && 0 <= j < t2.len() && i != j
                    implies t2[i] != t2[j] by {
                    if i == t.len() {
                        assert(t[j] == t2[j]);
                    } else if j == t.len() {
                        assert(t[i] == t2[i]);
                    }
                }
            }
        }
        Symbol { id }
    }

    /// The string of `sym`, if this interner made it.
    pub fn resolve(&self, sym: Symbol) -> (r: Option<&str>)
        ensures
            match r {
                Some(t) => resolves(self.strings(), sym) && t@ == self.strings()[sym.index() as int],
                None => !resolves(self.strings(), sym),
            },
    {
        string_interner_resolve(self, sym.id)
    }
}

/// Interning is idempotent: interning a string a second time changes nothing
/// and returns the same symbol, and that symbol resolves to the string.
pub proof fn lemma_intern_idempotent(t: Seq<Seq<char>>, s: Seq<char>)
    requires
        t.no_duplicates(),
    ensures
        intern_step(intern_step(t, s).0, s) == intern_step(t, s),
        intern_step(t, s).0[intern_step(t, s).1 as int] == s,
{
    let (t1, a) = intern_step(t, s);
    if t.contains(s) {
        let c = choose|i: int| 0 <= i < t.len() && t[i] == s;
        assert(t[c] == s);
    } else {
        assert(t1[t.len() as int] == s);
        assert(t1.contains(s));
        let c = choose|i: int| 0 <= i < t1.len() && t1[i] == s;
        if c != t.len() {
            assert(t[c] == s);
        }
    }
}

/// Interning only appends, and the interned string resolves.
pub proof fn lemma_intern_resolves(t: Seq<Seq<char>>, s: Seq<char>)
    ensures
        t.is_prefix_of(intern_step(t, s).0),
        intern_step(t, s).1 < intern_step(t, s).0.len(),
        intern_step(t, s).0[intern_step(t, s).1 as int] == s,
        intern_step(t, s).0.len() <= t.len() + 1,
{
    if t.contains(s) {
        let c = choose|i: int| 0 <= i < t.len() && t[i] == s;
        assert(t[c] == s);
        assert(t.is_prefix_of(t)) by {
            assert(t.subrange(0, t.len() as int) =~= t);
        }
    } else {
        assert(t.push(s).subrange(0, t.len() as int) =~= t);
    }
}

/// A table is a prefix of itself.
pub proof fn lemma_prefix_refl(t: Seq<Seq<char>>)
    ensures
        t.is_prefix_of(t),
{
    assert(t.subrange(0, t.len() as int) =~= t);
}

/// Interns `s` in `interner`.
pub fn str2sym(interner: &mut Interner, s: &str) -> (r: Symbol)
    requires
        old(interner).wf(),
        old(interner).strings().len() < u32::MAX,
    ensures
        final(interner).wf(),
        (final(interner).strings(), r.index()) == intern_step(old(interner).strings(), s@),
{
    interner.intern(s)
}

/// The string of `sym`, which `interner` must have made.
pub fn sym2str(interner: &Interner, sym: Symbol) -> (r: String)
    requires
        resolves(interner.strings(), sym),
    ensures
        r@ == interner.strings()[sym.index() as int],
{
    match interner.resolve(sym) {
        Some(t) => t.to_owned(),
        None => String::new(),
    }
}

} // verus!
