//! Spans and tokens: the positioned, classified units a scanner emits.

use vstd::prelude::*;
use vstd::string::StrSliceExecFns;
use crate::symbol::{resolves, intern_step, Interner, Symbol};
use crate::text::{boundary, chars_between, lemma_split_boundary, split_str, str_eq, suffix_from};

verus! {

/// A byte range `[from, end)` of a source text.
#[derive(Clone, Copy, Hash, PartialEq, Eq, Structural, PartialOrd, Ord, Default, Debug)]
pub struct Span {
    pub from: usize,
    pub end: usize,
}

/// `[from, end)` is a range of character boundaries of `s`.
pub open spec fn span_in(s: Seq<char>, span: Span) -> bool {
    &&& span.from <= span.end
    &&& boundary(s, span.from as int)
    &&& boundary(s, span.end as int)
}

impl Span {
    /// Length in bytes.
    pub fn len(&self) -> (r: usize)
        requires
            self.from <= self.end,
        ensures
            r == self.end - self.from,
    {
        self.end - self.from
    }

    /// Number of characters the span covers in `source`.
    pub fn chars_count(&self, source: &str) -> (r: usize)
        requires
            span_in(source@, *self),
        ensures
            r == chars_between(source@, self.from as int, self.end as int).len(),
    {
        span_text(source, *self).unicode_len()
    }
}

/// The characters of `source` that `span` covers.
pub fn span_text(source: &str, span: Span) -> (r: &str)
    requires
        span_in(source@, span),
    ensures
        r@ == chars_between(source@, span.from as int, span.end as int),
{
    let ghost s = source@;
    proof {
        lemma_split_boundary(s, span.from as int);
        lemma_split_boundary(s, span.end as int);
    }
    let (p, _) = split_str(source, span.end);
    let ghost k = chars_between(s, 0, span.from as int).len() as int;
    proof {
        crate::text::lemma_boundary_index(s, span.from as int);
        crate::text::lemma_boundary_index(s, span.end as int);
        let kk = p@.len() as int;
        if k > kk {
            crate::text::lemma_blen_take_mono(s, kk, k);
        }
        assert(p@.take(k) =~= s.take(k));
    }
    let q = suffix_from(p, Ghost(k), span.from);
    proof {
        crate::text::lemma_take_boundary(s, k);
        crate::text::lemma_take_boundary(s, p@.len() as int);
        let e = encode_utf8_of(s);
        assert(s.take(p@.len() as int) =~= p@);
        let mid = s.subrange(k, p@.len() as int);
        assert(s.take(p@.len() as int) =~= s.take(k) + mid);
        crate::text::lemma_encode_concat(s.take(k), mid);
        assert(s =~= s.take(p@.len() as int) + s.skip(p@.len() as int));
        crate::text::lemma_encode_concat(s.take(p@.len() as int), s.skip(p@.len() as int));
        assert(e.subrange(span.from as int, span.end as int) =~= vstd::utf8::encode_utf8(mid));
        vstd::utf8::encode_utf8_decode_utf8(mid);
        assert(q@ =~= mid);
    }
    q
}

spec fn encode_utf8_of(s: Seq<char>) -> Seq<u8> {
    vstd::utf8::encode_utf8(s)
}

/// A classified piece of source: its category, its (possibly transformed)
/// lexeme, and the bytes it came from.
#[derive(Clone, Copy, PartialEq, Eq, Structural, Debug)]
pub struct Token {
    pub name: Symbol,
    pub value: Symbol,
    pub span: Span,
}

/// What a token says once its symbols are resolved.
pub type TokenView = (Seq<char>, Seq<char>, Span);

impl Token {
    /// Name, value and span, with the symbols resolved in table `t`.
    pub open spec fn view_in(self, t: Seq<Seq<char>>) -> TokenView {
        (t[self.name.index() as int], t[self.value.index() as int], self.span)
    }

    /// Both symbols resolve in `t`.
    pub open spec fn resolves_in(self, t: Seq<Seq<char>>) -> bool {
        resolves(t, self.name) && resolves(t, self.value)
    }

    /// The end-of-input marker: name `eof`, empty value, empty span at 0.
    pub fn eof(interner: &mut Interner) -> (r: Self)
        requires
            old(interner).wf(),
            old(interner).strings().len() + 2 < u32::MAX,
        ensures
            final(interner).wf(),
            final(interner).strings().len() <= old(interner).strings().len() + 2,
            old(interner).strings().is_prefix_of(final(interner).strings()),
            r.resolves_in(final(interner).strings()),
            r.view_in(final(interner).strings()) == ("eof"@, Seq::<char>::empty(), Span {
                from: 0,
                end: 0,
            }),
    {
        let name = interner.intern("eof");
        let ghost mid = interner.strings();
        let value = interner.intern("");
        proof {
            crate::symbol::lemma_intern_resolves(old(interner).strings(), "eof"@);
            crate::symbol::lemma_intern_resolves(mid, ""@);
            assert(""@ =~= Seq::<char>::empty()) by {
                reveal_strlit("");
            }
        }
        Token { name, value, span: Span { from: 0, end: 0 } }
    }

    pub fn name_string(&self, interner: &Interner) -> (r: String)
        requires
            resolves(interner.strings(), self.name),
        ensures
            r@ == interner.strings()[self.name.index() as int],
    {
        crate::symbol::sym2str(interner, self.name)
    }

    pub fn value_string(&self, interner: &Interner) -> (r: String)
        requires
            resolves(interner.strings(), self.value),
        ensures
            r@ == interner.strings()[self.value.index() as int],
    {
        crate::symbol::sym2str(interner, self.value)
    }

    /// Number of characters of the value.
    pub fn chars_len(&self, interner: &Interner) -> (r: usize)
        requires
            resolves(interner.strings(), self.value),
        ensures
            r == interner.strings()[self.value.index() as int].len(),
    {
        match interner.resolve(self.value) {
            Some(v) => v.unicode_len(),
            None => 0,
        }
    }

    pub fn span(&self) -> (r: Span)
        ensures
            r == self.span,
    {
        self.span
    }

    /// Length of the span in bytes.
    pub fn span_len(&self) -> (r: usize)
        requires
            self.span.from <= self.span.end,
        ensures
            r == self.span.end - self.span.from,
    {
        self.span.len()
    }

    /// Number of characters the span covers in `source`.
    pub fn span_chars_count(&self, source: &str) -> (r: usize)
        requires
            span_in(source@, self.span),
        ensures
            r == chars_between(source@, self.span.from as int, self.span.end as int).len(),
    {
        self.span.chars_count(source)
    }

    /// The same token under another name.
    pub fn rename(self, interner: &mut Interner, name: &str) -> (r: Self)
        requires
            old(interner).wf(),
            old(interner).strings().len() < u32::MAX,
        ensures
            final(interner).wf(),
            (final(interner).strings(), r.name.index()) == intern_step(
                old(interner).strings(),
                name@,
            ),
            r.value == self.value,
            r.span == self.span,
    {
        let name = interner.intern(name);
        Token { name, value: self.value, span: self.span }
    }

    /// The same token with another value.
    pub fn mapval(self, interner: &mut Interner, val: &str) -> (r: Self)
        requires
            old(interner).wf(),
            old(interner).strings().len() < u32::MAX,
        ensures
            final(interner).wf(),
            (final(interner).strings(), r.value.index()) == intern_step(
                old(interner).strings(),
                val@,
            ),
            r.name == self.name,
            r.span == self.span,
    {
        let value = interner.intern(val);
        Token { name: self.name, value, span: self.span }
    }

    /// Renames the token after its value, when the value is one of `values`.
    pub fn rename_by_value(self, interner: &mut Interner, values: &[&str]) -> (r: Self)
        requires
            old(interner).wf(),
            old(interner).strings().len() < u32::MAX,
            resolves(old(interner).strings(), self.value),
        ensures
            final(interner).wf(),
            old(interner).strings().is_prefix_of(final(interner).strings()),
            r.value == self.value,
            r.span == self.span,
            (exists|i: int|
                0 <= i < values@.len() && values@[i]@ == old(interner).strings()[
                    self.value.index() as int
                ]) ==> resolves(final(interner).strings(), r.name) && final(interner).strings()[
                r.name.index() as int
            ] == old(interner).strings()[self.value.index() as int],
            !(exists|i: int|
                0 <= i < values@.len() && values@[i]@ == old(interner).strings()[
                    self.value.index() as int
                ]) ==> r == self && final(interner).strings() == old(interner).strings(),
    {
        let ghost t = interner.strings();
        let ghost v = t[self.value.index() as int];
        let mut i: usize = 0;
        while i < values.len()
            invariant
                interner.strings() == t,
                old(interner).strings() == t,
                interner.wf(),
                t.len() < u32::MAX,
                resolves(t, self.value),
                v == t[self.value.index() as int],
                i <= values@.len(),
                forall|j: int| 0 <= j < i ==> values@[j]@ != v,
            decreases values@.len() - i,
        {
            if self.check_value(interner, values[i]) {
                let r = self.rename(interner, values[i]);
                proof {
                    crate::symbol::lemma_intern_resolves(t, values@[i as int]@);
                    assert(t.is_prefix_of(interner.strings()));
                    assert(interner.strings()[r.name.index() as int] == v);
                }
                return r;
            }
            i += 1;
        }
        self
    }

    /// The value is `value`.
    pub fn check_value(&self, interner: &Interner, value: &str) -> (r: bool)
        requires
            resolves(interner.strings(), self.value),
        ensures
            r == (interner.strings()[self.value.index() as int] == value@),
    {
        match interner.resolve(self.value) {
            Some(v) => str_eq(v, value),
            None => false,
        }
    }

    /// The name is `name`.
    pub fn check_name(&self, interner: &Interner, name: &str) -> (r: bool)
        requires
            resolves(interner.strings(), self.name),
        ensures
            r == (interner.strings()[self.name.index() as int] == name@),
    {
        match interner.resolve(self.name) {
            Some(v) => str_eq(v, name),
            None => false,
        }
    }

    /// The name is one of `targets`.
    pub fn check_names_in(&self, interner: &Interner, targets: &[&str]) -> (r: bool)
        requires
            resolves(interner.strings(), self.name),
        ensures
            r == exists|i: int|
                0 <= i < targets@.len() && #[trigger] targets@[i]@ == interner.strings()[
                    self.name.index() as int
                ],
    {
        let ghost n = interner.strings()[self.name.index() as int];
        let mut i: usize = 0;
        while i < targets.len()
            invariant
                resolves(interner.strings(), self.name),
                n == interner.strings()[self.name.index() as int],
                i <= targets@.len(),
                forall|j: int| 0 <= j < i ==> #[trigger] targets@[j]@ != n,
            decreases targets@.len() - i,
        {
            if self.check_name(interner, targets[i]) {
                return true;
            }
            i += 1;
        }
        false
    }

    /// The value is one of `targets`.
    pub fn check_values_in(&self, interner: &Interner, targets: &[&str]) -> (r: bool)
        requires
            resolves(interner.strings(), self.value),
        ensures
            r == exists|i: int|
                0 <= i < targets@.len() && #[trigger] targets@[i]@ == interner.strings()[
                    self.value.index() as int
                ],
    {
        let ghost n = interner.strings()[self.value.index() as int];
        let mut i: usize = 0;
        while i < targets.len()
            invariant
                resolves(interner.strings(), self.value),
                n == interner.strings()[self.value.index() as int],
                i <= targets@.len(),
                forall|j: int| 0 <= j < i ==> #[trigger] targets@[j]@ != n,
            decreases targets@.len() - i,
        {
            if self.check_value(interner, targets[i]) {
                return true;
            }
            i += 1;
        }
        false
    }
}

} // verus!
