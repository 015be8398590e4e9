//! The state-machine scanner: a table of character transitions finds token
//! boundaries one character at a time, and a recognizer names each finished
//! span by looking at its first few characters.

use vstd::prelude::*;
use std::collections::HashMap;
use crate::pattern::{regex_is_match, Pattern};
use crate::error::{TokenizeError, TokenizeErrorReason};
use crate::source::SrcFileInfo;
use crate::symbol::{intern_step, lemma_intern_resolves, resolves, Interner, Symbol};
use crate::text::{blen, chars_between};
use crate::token::{span_in, span_text, Span, Token};

verus! {

broadcast use vstd::seq::group_seq_axioms, vstd::std_specs::hash::group_hash_axioms;

/// A test on one character.
pub trait CharMatcher {
    /// The characters the matcher accepts.
    spec fn accepts(&self, c: char) -> bool;

    fn is_match(&self, c: char) -> (r: bool)
        ensures
            r == self.accepts(c);
}

/// Accepts exactly one character.
pub struct SimpleCharMatcher {
    target: char,
}

impl SimpleCharMatcher {
    /// Accepts the first character of `s`.
    pub fn new(s: &str) -> (r: Self)
        requires
            s@.len() >= 1,
        ensures
            r.target() == s@[0],
    {
        let mut it = s.chars();
        match it.next() {
            Some(c) => SimpleCharMatcher { target: c },
            None => SimpleCharMatcher { target: ' ' },
        }
    }

    pub closed spec fn target(&self) -> char {
        self.target
    }
}

impl CharMatcher for SimpleCharMatcher {
    open spec fn accepts(&self, c: char) -> bool {
        c == self.target()
    }

    fn is_match(&self, c: char) -> (r: bool) {
        self.target == c
    }
}

/// Accepts the characters that, as one-character strings, a regular
/// expression matches.
pub struct RegexCharMatcher {
    pat: Pattern,
}

impl RegexCharMatcher {
    /// Compiles `patstr`; `None` when it does not compile.
    pub fn new(patstr: &str) -> (r: Option<Self>)
        ensures
            r is Some <==> crate::pattern::regex_compiles(patstr@),
            r matches Some(m) ==> m.pattern() == patstr@,
    {
        match Pattern::new(patstr) {
            Some(pat) => Some(RegexCharMatcher { pat }),
            None => None,
        }
    }

    pub closed spec fn pattern(&self) -> Seq<char> {
        self.pat.source()
    }
}

impl CharMatcher for RegexCharMatcher {
    open spec fn accepts(&self, c: char) -> bool {
        regex_is_match(self.pattern(), seq![c])
    }

    fn is_match(&self, c: char) -> (r: bool) {
        let mut s = String::new();
        crate::text::push_char(&mut s, c);
        proof {
            assert(s@ =~= seq![c]);
        }
        self.pat.is_match(s.as_str())
    }
}

/// The predicate of a transition.
pub enum CharPredicate {
    Simple(SimpleCharMatcher),
    Regex(RegexCharMatcher),
}

impl CharMatcher for CharPredicate {
    open spec fn accepts(&self, c: char) -> bool {
        match self {
            CharPredicate::Simple(m) => m.accepts(c),
            CharPredicate::Regex(m) => m.accepts(c),
        }
    }

    fn is_match(&self, c: char) -> (r: bool) {
        match self {
            CharPredicate::Simple(m) => m.is_match(c),
            CharPredicate::Regex(m) => m.is_match(c),
        }
    }
}

/// On a character the predicate accepts, go to state `next`; `boundary`
/// says that the character starts a new token. The predicate is any
/// [`CharMatcher`], such as a [`CharPredicate`].
pub struct Transition<P> {
    pub pred: P,
    pub next: Symbol,
    pub boundary: bool,
}

/// The first transition from index `k` on whose predicate accepts `c`: the
/// next state's index and the boundary flag.
pub open spec fn first_step<P: CharMatcher>(trans: Seq<Transition<P>>, k: int, c: char) -> Option<(nat, bool)>
    decreases trans.len() - k,
{
    if k < 0 || k >= trans.len() {
        None
    } else if trans[k].pred.accepts(c) {
        Some((trans[k].next.index(), trans[k].boundary))
    } else {
        first_step(trans, k + 1, c)
    }
}

/// The name of the state the scanner starts in.
pub const ENTRY_ST: &'static str = "Entry";

/// Transition lists by state; states are symbols, keyed by their index.
#[verifier::reject_recursive_types(P)]
pub struct LexDFAMap<P> {
    table: HashMap<u32, Vec<Transition<P>>>,
}

impl<P: CharMatcher> LexDFAMap<P> {
    /// The transitions of each state.
    pub closed spec fn transitions(&self) -> Map<u32, Vec<Transition<P>>> {
        self.table@
    }

    /// What state `st` does on `c`: the next state and the boundary flag, or
    /// `None` when the state has no list or no predicate accepts `c`.
    pub open spec fn step(&self, st: nat, c: char) -> Option<(nat, bool)> {
        if self.transitions().contains_key(st as u32) {
            first_step(self.transitions()[st as u32]@, 0, c)
        } else {
            None
        }
    }

    pub fn new() -> (r: Self)
        ensures
            r.transitions() == Map::<u32, Vec<Transition<P>>>::empty(),
    {
        LexDFAMap { table: HashMap::new() }
    }

    /// Sets the transitions of state `st`, in priority order.
    pub fn insert(&mut self, st: Symbol, trans: Vec<Transition<P>>)
        ensures
            final(self).transitions() == old(self).transitions().insert(st.index() as u32, trans),
    {
        let k = st.id();
        self.table.insert(k, trans);
    }

    /// Finds the first transition of `st` that accepts `c`.
    pub fn next_of(&self, st: Symbol, c: char) -> (r: Option<(Symbol, bool)>)
        ensures
            match r {
                Some((n, b)) => self.step(st.index(), c) == Some((n.index(), b)),
                None => self.step(st.index(), c) is None,
            },
    {
        let k = st.id();
        match self.table.get(&k) {
            Some(trans) => {
                let mut i: usize = 0;
                while i < trans.len()
                    invariant
                        i <= trans@.len(),
                        self.transitions().contains_key(st.index() as u32),
                        self.transitions()[st.index() as u32]@ == trans@,
                        first_step(trans@, 0, c) == first_step(trans@, i as int, c),
                    decreases trans@.len() - i,
                {
                    if trans[i].pred.is_match(c) {
                        return Some((trans[i].next, trans[i].boundary));
                    }
                    i += 1;
                }
                None
            },
            None => None,
        }
    }
}

/// The scanner's current state over a transition table.
#[verifier::reject_recursive_types(P)]
pub struct LexDFA<'a, P> {
    map: &'a LexDFAMap<P>,
    st: Symbol,
}

impl<'a, P: CharMatcher> LexDFA<'a, P> {
    pub closed spec fn table(&self) -> &'a LexDFAMap<P> {
        self.map
    }

    pub closed spec fn state(&self) -> Symbol {
        self.st
    }

    /// Starts in the state named `Entry`.
    pub fn new(interner: &mut Interner, map: &'a LexDFAMap<P>) -> (r: Self)
        requires
            old(interner).wf(),
            old(interner).strings().len() < u32::MAX,
        ensures
            final(interner).wf(),
            (final(interner).strings(), r.state().index()) == intern_step(
                old(interner).strings(),
                ENTRY_ST@,
            ),
            r.table() == map,
    {
        let st = interner.intern(ENTRY_ST);
        LexDFA { map, st }
    }

    /// Takes one character: `Some(true)` when it starts a new token,
    /// `Some(false)` when it extends the current one, and `None` when the
    /// table has no transition for it (the table is incomplete).
    pub fn forward(&mut self, ch: char) -> (r: Option<bool>)
        ensures
            final(self).table() == old(self).table(),
            match old(self).table().step(old(self).state().index(), ch) {
                Some((n, b)) => r == Some(b) && final(self).state().index() == n,
                None => r is None && final(self).state() == old(self).state(),
            },
    {
        match self.map.next_of(self.st, ch) {
            Some((n, b)) => {
                self.st = n;
                Some(b)
            },
            None => None,
        }
    }
}

/// The first `look` characters of `text`, or all of them.
pub open spec fn window(text: Seq<char>, look: int) -> Seq<char> {
    if look < text.len() {
        text.take(look)
    } else {
        text
    }
}

/// The name of the first item from index `k` on whose pattern matches
/// `window`.
pub open spec fn first_name(items: Seq<(Pattern, Symbol)>, k: int, window: Seq<char>) -> Option<Symbol>
    decreases items.len() - k,
{
    if k < 0 || k >= items.len() {
        None
    } else if regex_is_match(items[k].0.source(), window) {
        Some(items[k].1)
    } else {
        first_name(items, k + 1, window)
    }
}

/// The token named `name` for a span of `source`; its value is the span's
/// text.
pub fn span_token(interner: &mut Interner, source: &str, span: Span, name: Symbol) -> (r: Token)
    requires
        old(interner).wf(),
        old(interner).strings().len() < u32::MAX,
        span_in(source@, span),
    ensures
        final(interner).wf(),
        r.name == name,
        r.span == span,
        (final(interner).strings(), r.value.index()) == intern_step(
            old(interner).strings(),
            chars_between(source@, span.from as int, span.end as int),
        ),
{
    let text = span_text(source, span);
    let value = interner.intern(text);
    Token { name, value, span }
}

/// Names finished spans: the first pattern that matches the first
/// `lookhead` characters of a span gives its name.
pub struct TokenRecognizer {
    pub lookhead: usize,
    pub pat_items: Vec<(Pattern, Symbol)>,
}

impl TokenRecognizer {
    /// The name the recognizer gives a span with these characters.
    pub open spec fn name_for(&self, text: Seq<char>) -> Option<Symbol> {
        first_name(self.pat_items@, 0, window(text, self.lookhead as int))
    }

    /// Names the span of `source`; its value is the span's text.
    pub fn recognize(&self, interner: &mut Interner, source: &str, span: Span) -> (r: Option<Token>)
        requires
            old(interner).wf(),
            old(interner).strings().len() + 1 < u32::MAX,
            span_in(source@, span),
            blen(source@) <= usize::MAX,
        ensures
            final(interner).wf(),
            match self.name_for(chars_between(source@, span.from as int, span.end as int)) {
                None => r is None && *final(interner) == *old(interner),
                Some(name) => r matches Some(tok) && tok.name == name && tok.span == span && (
                final(interner).strings(), tok.value.index()) == intern_step(
                    old(interner).strings(),
                    chars_between(source@, span.from as int, span.end as int),
                ),
            },
    {
        let text = span_text(source, span);
        proof {
            crate::text::lemma_split_boundary(source@, span.end as int);
            crate::text::lemma_chars_between_blen(source@, span.from as int, span.end as int);
        }
        let win = crate::text::prefix_chars(text, self.lookhead);
        let mut i: usize = 0;
        while i < self.pat_items.len()
            invariant
                i <= self.pat_items@.len(),
                win@ == window(text@, self.lookhead as int),
                text@ == chars_between(source@, span.from as int, span.end as int),
                span_in(source@, span),
                *interner == *old(interner),
                interner.wf(),
                interner.strings().len() + 1 < u32::MAX,
                first_name(self.pat_items@, 0, win@) == first_name(self.pat_items@, i as int, win@),
            decreases self.pat_items@.len() - i,
        {
            if self.pat_items[i].0.is_match(win) {
                return Some(span_token(interner, source, span, self.pat_items[i].1));
            }
            i += 1;
        }
        None
    }
}

/// What the state-machine scanner produces over `text` from character `i`,
/// in state `st`, with the current token begun at character `start`: each
/// token as its name and character range, or the character offset of the
/// first failure (no transition for a character, or no name for a span).
pub open spec fn dfa_run<P: CharMatcher>(
    map: LexDFAMap<P>,
    rec: TokenRecognizer,
    text: Seq<char>,
    st: nat,
    i: int,
    start: int,
) -> Result<Seq<(Symbol, int, int)>, int>
    decreases text.len() - i,
{
    if i < 0 || i >= text.len() {
        if 0 <= start < text.len() {
            match rec.name_for(text.subrange(start, text.len() as int)) {
                Some(n) => Ok(seq![(n, start, text.len() as int)]),
                None => Err(start),
            }
        } else {
            Ok(seq![])
        }
    } else {
        match map.step(st, text[i]) {
            None => Err(i),
            Some((nst, b)) => if b && start < i {
                match rec.name_for(text.subrange(start, i)) {
                    None => Err(start),
                    Some(n) => match dfa_run(map, rec, text, nst, i + 1, i) {
                        Ok(more) => Ok(seq![(n, start, i)] + more),
                        Err(e) => Err(e),
                    },
                }
            } else {
                dfa_run(map, rec, text, nst, i + 1, if b { i } else { start })
            },
        }
    }
}

/// A token stands for a name and character range of `text`, with its value
/// resolved in `t`.
pub open spec fn dfa_token(tok: Token, raw: (Symbol, int, int), text: Seq<char>, t: Seq<Seq<char>>) -> bool {
    &&& tok.name == raw.0
    &&& tok.span.from == blen(text.take(raw.1))
    &&& tok.span.end == blen(text.take(raw.2))
    &&& resolves(t, tok.value)
    &&& t[tok.value.index() as int] == text.subrange(raw.1, raw.2)
}

/// The tokens stand, one for one, for the names and ranges of `raw`.
pub open spec fn dfa_tokens(toks: Seq<Token>, raw: Seq<(Symbol, int, int)>, text: Seq<char>, t: Seq<Seq<char>>) -> bool {
    &&& toks.len() == raw.len()
    &&& forall|k: int| 0 <= k < toks.len() ==> #[trigger] dfa_token(toks[k], raw[k], text, t)
}

/// `done` followed by what is left.
pub open spec fn after_raw(done: Seq<(Symbol, int, int)>, r: Result<Seq<(Symbol, int, int)>, int>) -> Result<
    Seq<(Symbol, int, int)>,
    int,
> {
    match r {
        Ok(more) => Ok(done + more),
        Err(e) => Err(e),
    }
}

proof fn lemma_dfa_tokens_stable(
    toks: Seq<Token>,
    raw: Seq<(Symbol, int, int)>,
    text: Seq<char>,
    a: Seq<Seq<char>>,
    b: Seq<Seq<char>>,
)
    requires
        dfa_tokens(toks, raw, text, a),
        a.is_prefix_of(b),
    ensures
        dfa_tokens(toks, raw, text, b),
{
    crate::engine::lemma_prefix_at(a, b);
    assert forall|k: int| 0 <= k < toks.len() implies #[trigger] dfa_token(toks[k], raw[k], text, b) by {
        assert(dfa_token(toks[k], raw[k], text, a));
    }
}

/// Emits the token of characters `[start, i)` of the source, when the
/// recognizer names it.
fn emit(
    interner: &mut Interner,
    rec: &TokenRecognizer,
    source: &str,
    start: usize,
    i: usize,
    bstart: usize,
    bpos: usize,
    tokens: &mut Vec<Token>,
    Ghost(raw): Ghost<Seq<(Symbol, int, int)>>,
) -> (r: bool)
    requires
        old(interner).wf(),
        old(interner).strings().len() + 1 < u32::MAX,
        blen(source@) <= usize::MAX,
        start <= i <= source@.len(),
        bstart == blen(source@.take(start as int)),
        bpos == blen(source@.take(i as int)),
        dfa_tokens(old(tokens)@, raw, source@, old(interner).strings()),
    ensures
        final(interner).wf(),
        old(interner).strings().is_prefix_of(final(interner).strings()),
        final(interner).strings().len() <= old(interner).strings().len() + 1,
        match rec.name_for(source@.subrange(start as int, i as int)) {
            None => !r && *final(tokens) == *old(tokens),
            Some(n) => r && dfa_tokens(
                final(tokens)@,
                raw.push((n, start as int, i as int)),
                source@,
                final(interner).strings(),
            ),
        },
{
    proof {
        crate::text::lemma_chars_between_takes(source@, start as int, i as int);
    }
    let ghost t = interner.strings();
    match rec.recognize(interner, source, Span { from: bstart, end: bpos }) {
        None => {
            proof {
                crate::symbol::lemma_prefix_refl(t);
            }
            false
        },
        Some(tok) => {
            proof {
                lemma_intern_resolves(t, source@.subrange(start as int, i as int));
                lemma_dfa_tokens_stable(tokens@, raw, source@, t, interner.strings());
            }
            tokens.push(tok);
            proof {
                let raw2 = raw.push((tok.name, start as int, i as int));
                assert forall|k: int| 0 <= k < tokens@.len() implies #[trigger] dfa_token(
                    tokens@[k],
                    raw2[k],
                    source@,
                    interner.strings(),
                ) by {
                    if k < tokens@.len() - 1 {
                        assert(dfa_token(old(tokens)@[k], raw[k], source@, interner.strings()));
                    }
                }
            }
            true
        },
    }
}

/// Scans the whole source with the transition table, starting in state
/// `Entry`, and names each finished span with the recognizer. The last span
/// is finished by the end of the text.
pub fn tokenize2<P: CharMatcher>(
    interner: &mut Interner,
    srcfile: &SrcFileInfo,
    dfamap: &LexDFAMap<P>,
    reconizer: &TokenRecognizer,
) -> (r: Result<Vec<Token>, TokenizeError>)
    requires
        old(interner).wf(),
        srcfile.wf(),
        old(interner).strings().len() + srcfile.text().len() + 2 < u32::MAX,
    ensures
        final(interner).wf(),
        old(interner).strings().is_prefix_of(final(interner).strings()),
        match r {
            Ok(toks) => dfa_run(
                *dfamap,
                *reconizer,
                srcfile.text(),
                intern_step(old(interner).strings(), ENTRY_ST@).1,
                0,
                0,
            ) matches Ok(raw) && dfa_tokens(toks@, raw, srcfile.text(), final(interner).strings()),
            Err(e) => {
                &&& dfa_run(
                    *dfamap,
                    *reconizer,
                    srcfile.text(),
                    intern_step(old(interner).strings(), ENTRY_ST@).1,
                    0,
                    0,
                ) == Err::<Seq<(Symbol, int, int)>, int>(e.start() as int)
                &&& e.reason() == TokenizeErrorReason::UnrecognizedToken
                &&& e.src().wf()
                &&& e.src().text() == srcfile.text()
                &&& e.src().path() == srcfile.path()
            },
        },
        srcfile.text().len() == 0 ==> (r matches Ok(toks) && toks@.len() == 0),
{
    let ghost t0 = interner.strings();
    let source = srcfile.get_srcstr();
    let ghost text = source@;
    let chars = crate::text::chars_of(source);
    let mut dfa = LexDFA::new(interner, dfamap);
    let ghost entry = dfa.state().index();
    let ghost t1 = interner.strings();
    let ghost map = *dfamap;
    let ghost rec = *reconizer;
    let mut tokens: Vec<Token> = Vec::new();
    let ghost mut raw: Seq<(Symbol, int, int)> = seq![];
    let mut i: usize = 0;
    let mut start: usize = 0;
    let mut bpos: usize = 0;
    let mut bstart: usize = 0;
    proof {
        crate::source::lemma_srcfile_len(*srcfile);
        crate::text::lemma_blen_ge_len(text);
        lemma_intern_resolves(t0, ENTRY_ST@);
        crate::symbol::lemma_prefix_refl(t1);
        assert(text.take(0) =~= Seq::<char>::empty());
        assert(vstd::utf8::encode_utf8(Seq::<char>::empty()) =~= Seq::<u8>::empty());
        match dfa_run(map, rec, text, entry, 0, 0) {
            Ok(m) => {
                assert(raw + m =~= m);
            },
            Err(_) => {},
        }
    }
    while i < chars.len()
        invariant
            text == source@,
            text == srcfile.text(),
            chars@ == text,
            srcfile.wf(),
            blen(text) < usize::MAX,
            text.len() <= blen(text),
            map == *dfamap,
            rec == *reconizer,
            dfa.table() == dfamap,
            t0 == old(interner).strings(),
            entry == intern_step(t0, ENTRY_ST@).1,
            t0.is_prefix_of(t1),
            t1.len() <= t0.len() + 1,
            t0.len() + text.len() + 2 < u32::MAX,
            start <= i <= text.len(),
            bpos == blen(text.take(i as int)),
            bstart == blen(text.take(start as int)),
            interner.wf(),
            t1.is_prefix_of(interner.strings()),
            interner.strings().len() <= t1.len() + i,
            dfa_tokens(tokens@, raw, text, interner.strings()),
            dfa_run(map, rec, text, entry, 0, 0) == after_raw(
                raw,
                dfa_run(map, rec, text, dfa.state().index(), i as int, start as int),
            ),
        decreases text.len() - i,
    {
        let c = chars[i];
        let ghost st = dfa.state().index();
        proof {
            crate::text::lemma_blen_take_mono(text, i + 1, text.len() as int);
            assert(text.take(text.len() as int) =~= text);
            assert(text.take(i as int).push(c) =~= text.take(i + 1));
            crate::text::lemma_blen_push(text.take(i as int), c);
        }
        match dfa.forward(c) {
            None => {
                proof {
                    crate::engine::lemma_prefix_at(t0, t1);
                    crate::matchers::lemma_prefix_trans(t0, t1, interner.strings());
                }
                return Err(
                    TokenizeError::new(
                        TokenizeErrorReason::UnrecognizedToken,
                        i,
                        srcfile.duplicate(),
                    ),
                );
            },
            Some(b) => {
                if b {
                    if start < i {
                        let ghost tb = interner.strings();
                        let ok = emit(interner, reconizer, source, start, i, bstart, bpos, &mut tokens, Ghost(raw));
                        if !ok {
                            proof {
                                crate::matchers::lemma_prefix_trans(t0, t1, interner.strings());
                            }
                            return Err(
                                TokenizeError::new(
                                    TokenizeErrorReason::UnrecognizedToken,
                                    start,
                                    srcfile.duplicate(),
                                ),
                            );
                        }
                        proof {
                            let n = rec.name_for(text.subrange(start as int, i as int))->0;
                            let more = dfa_run(map, rec, text, dfa.state().index(), i + 1, i as int);
                            match more {
                                Ok(m) => {
                                    assert(raw + (seq![(n, start as int, i as int)] + m) =~= raw.push((n, start as int, i as int)) + m);
                                },
                                Err(_) => {},
                            }
                            raw = raw.push((n, start as int, i as int));
                            crate::matchers::lemma_prefix_trans(t1, tb, interner.strings());
                        }
                    }
                    start = i;
                    bstart = bpos;
                }
                let w = crate::text::char_width(c);
                bpos += w;
                i += 1;
            },
        }
    }
    proof {
        assert(text.take(text.len() as int) =~= text);
    }
    if start < chars.len() {
        let ok = emit(interner, reconizer, source, start, i, bstart, bpos, &mut tokens, Ghost(raw));
        if !ok {
            proof {
                crate::matchers::lemma_prefix_trans(t0, t1, interner.strings());
            }
            return Err(
                TokenizeError::new(TokenizeErrorReason::UnrecognizedToken, start, srcfile.duplicate()),
            );
        }
        proof {
            let n = rec.name_for(text.subrange(start as int, i as int))->0;
            assert(raw + seq![(n, start as int, i as int)] =~= raw.push((n, start as int, i as int)));
            raw = raw.push((n, start as int, i as int));
        }
    } else {
        proof {
            assert(raw + Seq::<(Symbol, int, int)>::empty() =~= raw);
        }
    }
    proof {
        crate::matchers::lemma_prefix_trans(t0, t1, interner.strings());
    }
    Ok(tokens)
}

/// A character rule `(pattern, is_regex)` can be built: a regex rule's
/// pattern compiles, a plain rule's pattern has a first character.
pub open spec fn char_rule_ok(pat: Seq<char>, is_regex: bool) -> bool {
    if is_regex {
        crate::pattern::regex_compiles(pat)
    } else {
        pat.len() >= 1
    }
}

/// The characters a rule accepts: those the regex matches, or the first
/// character of a plain pattern.
pub open spec fn char_rule_accepts(pat: Seq<char>, is_regex: bool, c: char) -> bool {
    if is_regex {
        regex_is_match(pat, seq![c])
    } else {
        c == pat[0]
    }
}

/// Builds one character predicate per `(pattern, is_regex)` rule, in order.
/// `None` when a rule cannot be built.
pub fn make_char_matcher_rules(rules: &[(&str, bool)]) -> (r: Option<Vec<CharPredicate>>)
    ensures
        r is Some <==> forall|i: int|
            0 <= i < rules@.len() ==> char_rule_ok(#[trigger] rules@[i].0@, rules@[i].1),
        r matches Some(ps) ==> {
            &&& ps@.len() == rules@.len()
            &&& forall|i: int, c: char|
                0 <= i < ps@.len() ==> #[trigger] ps@[i].accepts(c) == char_rule_accepts(
                    rules@[i].0@,
                    rules@[i].1,
                    c,
                )
        },
{
    let mut out: Vec<CharPredicate> = Vec::new();
    let mut i: usize = 0;
    while i < rules.len()
        invariant
            i <= rules@.len(),
            out@.len() == i,
            forall|k: int| 0 <= k < i ==> char_rule_ok(#[trigger] rules@[k].0@, rules@[k].1),
            forall|k: int, c: char|
                0 <= k < i ==> #[trigger] out@[k].accepts(c) == char_rule_accepts(
                    rules@[k].0@,
                    rules@[k].1,
                    c,
                ),
        decreases rules@.len() - i,
    {
        let (pat, is_regex) = rules[i];
        let pred = if is_regex {
            match RegexCharMatcher::new(pat) {
                Some(m) => CharPredicate::Regex(m),
                None => {
                    return None;
                },
            }
        } else {
            if pat.is_empty() {
                return None;
            }
            CharPredicate::Simple(SimpleCharMatcher::new(pat))
        };
        let ghost prev = out@;
        out.push(pred);
        proof {
            assert forall|k: int, c: char| 0 <= k < i + 1 implies #[trigger] out@[k].accepts(c)
                == char_rule_accepts(rules@[k].0@, rules@[k].1, c) by {
                if k < i {
                    assert(prev[k] == out@[k]);
                }
            }
        }
        i += 1;
    }
    Some(out)
}

} // verus!
