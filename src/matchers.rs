//! Matchers for the sequential scanner. A matcher looks at the text that is
//! left and either produces a token for a prefix of it, reports that it does
//! not apply, or fails with a reason.

use vstd::prelude::*;
use vstd::std_specs::iter::IteratorSpec;
use crate::error::TokenizeErrorReason;
use crate::pattern::{fancy_captures, regex_captures, FancyPattern, Groups, Pattern};
use crate::symbol::{lemma_intern_resolves, resolves, Interner, Symbol};
use crate::text::{blen, boundary, chars_between};
use crate::token::{span_text, Span, Token, TokenView};

verus! {

broadcast use vstd::seq::group_seq_axioms;

/// What a matcher yields: a token, or the reason scanning must stop.
pub type TokenMatchResult = Result<Token, TokenizeErrorReason>;

/// What a matcher yields, with the token's symbols resolved.
pub type MatchView = Option<Result<TokenView, TokenizeErrorReason>>;

/// The byte range of group `i`, when it took part in the match and lies on
/// character boundaries of `text`.
pub open spec fn group_range(text: Seq<char>, g: Groups, i: int) -> Option<(usize, usize)> {
    if 0 <= i < g.len() {
        match g[i] {
            Some((s, e)) => if s <= e && boundary(text, s as int) && boundary(text, e as int) {
                Some((s, e))
            } else {
                None
            },
            None => None,
        }
    } else {
        None
    }
}

fn get_group(text: &str, g: &Vec<Option<(usize, usize)>>, i: usize) -> (r: Option<(usize, usize)>)
    ensures
        r == group_range(text@, g@, i as int),
{
    if i < g.len() {
        match g[i] {
            Some((s, e)) => {
                if s <= e && text.is_char_boundary(s) && text.is_char_boundary(e) {
                    Some((s, e))
                } else {
                    None
                }
            },
            None => None,
        }
    } else {
        None
    }
}

/// A token named `name` with value `value` over `len` bytes from `start`.
pub open spec fn token_view(name: Seq<char>, value: Seq<char>, start: int, len: int) -> TokenView {
    (name, value, Span { from: start as usize, end: (start + len) as usize })
}

/// The view of a matcher's result, with symbols resolved in `t`.
pub open spec fn match_view(r: Option<TokenMatchResult>, t: Seq<Seq<char>>) -> MatchView {
    match r {
        Some(Ok(tok)) => Some(Ok(tok.view_in(t))),
        Some(Err(e)) => Some(Err(e)),
        None => None,
    }
}

/// The token of a result resolves in `t`.
pub open spec fn match_resolves(r: Option<TokenMatchResult>, t: Seq<Seq<char>>) -> bool {
    r matches Some(Ok(tok)) ==> tok.resolves_in(t)
}

/// What a regular-expression matcher yields on `text`: a match must start at
/// the beginning of the text; the value is group 1, or the whole match when
/// group 1 took no part.
pub open spec fn pattern_fetch(name: Seq<char>, pattern: Seq<char>, text: Seq<char>, start: int) -> MatchView {
    match regex_captures(pattern, text) {
        None => None,
        Some(g) => pattern_groups(name, text, start, g),
    }
}

/// What a regular-expression matcher yields once the groups of its match
/// are known.
pub open spec fn pattern_groups(name: Seq<char>, text: Seq<char>, start: int, g: Groups) -> MatchView {
    match group_range(text, g, 0) {
        Some((s, e)) => if s == 0 {
            let v = match group_range(text, g, 1) {
                Some(r) => r,
                None => (s, e),
            };
            Some(Ok(token_view(name, chars_between(text, v.0 as int, v.1 as int), start, e as int)))
        } else {
            None
        },
        None => None,
    }
}

/// How a matcher may change the interner: it only appends, at most two
/// strings, and keeps it well formed.
pub open spec fn grows_by_two(old_i: Interner, new_i: Interner) -> bool {
    &&& new_i.wf()
    &&& old_i.strings().is_prefix_of(new_i.strings())
    &&& new_i.strings().len() <= old_i.strings().len() + 2
}

/// Interns a token named `name` with value `value` and span `span`.
fn make_token(interner: &mut Interner, name: &str, value: &str, span: Span) -> (r: Token)
    requires
        old(interner).wf(),
        old(interner).strings().len() + 2 < u32::MAX,
    ensures
        grows_by_two(*old(interner), *final(interner)),
        r.resolves_in(final(interner).strings()),
        r.view_in(final(interner).strings()) == (name@, value@, span),
{
    let name_sym = interner.intern(name);
    let ghost mid = interner.strings();
    let value_sym = interner.intern(value);
    proof {
        lemma_intern_resolves(old(interner).strings(), name@);
        lemma_intern_resolves(mid, value@);
        lemma_prefix_trans(old(interner).strings(), mid, interner.strings());
        assert(interner.strings()[name_sym.index() as int] == mid[name_sym.index() as int]);
    }
    Token { name: name_sym, value: value_sym, span }
}

/// Keeps a token named by an existing symbol, interning its value.
fn make_token_named(interner: &mut Interner, name: Symbol, value: &str, span: Span) -> (r: Token)
    requires
        old(interner).wf(),
        old(interner).strings().len() + 2 < u32::MAX,
        resolves(old(interner).strings(), name),
    ensures
        grows_by_two(*old(interner), *final(interner)),
        r.resolves_in(final(interner).strings()),
        r.view_in(final(interner).strings()) == (
            old(interner).strings()[name.index() as int],
            value@,
            span,
        ),
{
    let value_sym = interner.intern(value);
    proof {
        lemma_intern_resolves(old(interner).strings(), value@);
        assert(interner.strings()[name.index() as int] == old(interner).strings()[name.index() as int]);
    }
    Token { name, value: value_sym, span }
}

pub proof fn lemma_prefix_trans(a: Seq<Seq<char>>, b: Seq<Seq<char>>, c: Seq<Seq<char>>)
    requires
        a.is_prefix_of(b),
        b.is_prefix_of(c),
    ensures
        a.is_prefix_of(c),
        forall|i: int| 0 <= i < a.len() ==> #[trigger] c[i] == a[i],
{
    assert forall|i: int| 0 <= i < a.len() implies #[trigger] c[i] == a[i] by {
        assert(b[i] == a[i]);
    }
    assert(c.subrange(0, a.len() as int) =~= a);
}

/// The token that a regular-expression match with groups `groups` gives: the
/// match must start at the beginning of `text`; the value is group 1, or the
/// whole match when group 1 took no part.
pub fn token_from_groups(
    interner: &mut Interner,
    name: Symbol,
    text: &str,
    start: usize,
    groups: &Vec<Option<(usize, usize)>>,
) -> (r: Option<TokenMatchResult>)
    requires
        old(interner).wf(),
        old(interner).strings().len() + 2 < u32::MAX,
        resolves(old(interner).strings(), name),
        start + blen(text@) <= usize::MAX,
    ensures
        grows_by_two(*old(interner), *final(interner)),
        !(r matches Some(Ok(_))) ==> *final(interner) == *old(interner),
        match_resolves(r, final(interner).strings()),
        match_view(r, final(interner).strings()) == pattern_groups(
            old(interner).strings()[name.index() as int],
            text@,
            start as int,
            groups@,
        ),
{
    proof {
        lemma_unchanged(*interner);
    }
    let (s, e) = match get_group(text, groups, 0) {
        Some(r) => r,
        None => {
            return None;
        },
    };
    if s != 0 {
        return None;
    }
    let v = match get_group(text, groups, 1) {
        Some(r) => r,
        None => (s, e),
    };
    proof {
        crate::text::lemma_split_boundary(text@, e as int);
    }
    let value = span_text(text, Span { from: v.0, end: v.1 });
    let tok = make_token_named(interner, name, value, Span { from: start, end: start + e });
    Some(Ok(tok))
}

/// A matcher built from a regular expression and a token name.
pub struct TokenMatcher {
    pat: Pattern,
    tok_name: Symbol,
}

impl TokenMatcher {
    pub closed spec fn pattern(&self) -> Seq<char> {
        self.pat.source()
    }

    pub closed spec fn name_symbol(&self) -> Symbol {
        self.tok_name
    }

    /// Compiles `patstr` and interns `tok_name`; `None` when the pattern does
    /// not compile.
    pub fn new(interner: &mut Interner, patstr: &str, tok_name: &str) -> (r: Option<Self>)
        requires
            old(interner).wf(),
            old(interner).strings().len() < u32::MAX,
        ensures
            final(interner).wf(),
            old(interner).strings().is_prefix_of(final(interner).strings()),
            final(interner).strings().len() <= old(interner).strings().len() + 1,
            r is Some <==> crate::pattern::regex_compiles(patstr@),
            r matches Some(m) ==> {
                &&& m.pattern() == patstr@
                &&& resolves(final(interner).strings(), m.name_symbol())
                &&& final(interner).strings()[m.name_symbol().index() as int] == tok_name@
            },
    {
        let name_sym = interner.intern(tok_name);
        proof {
            lemma_intern_resolves(old(interner).strings(), tok_name@);
        }
        match Pattern::new(patstr) {
            Some(pat) => Some(TokenMatcher { pat, tok_name: name_sym }),
            None => None,
        }
    }

    /// Matches a prefix of `text`, which starts at byte offset `start` of the
    /// source.
    pub fn fetch_tok(&self, interner: &mut Interner, text: &str, start: usize) -> (r: Option<
        TokenMatchResult,
    >)
        requires
            old(interner).wf(),
            old(interner).strings().len() + 2 < u32::MAX,
            resolves(old(interner).strings(), self.name_symbol()),
            start + blen(text@) <= usize::MAX,
        ensures
            grows_by_two(*old(interner), *final(interner)),
            !(r matches Some(Ok(_))) ==> *final(interner) == *old(interner),
            match_resolves(r, final(interner).strings()),
            match_view(r, final(interner).strings()) == pattern_fetch(
                old(interner).strings()[self.name_symbol().index() as int],
                self.pattern(),
                text@,
                start as int,
            ),
    {
        proof {
            assert(old(interner).strings().is_prefix_of(interner.strings())) by {
                assert(interner.strings().subrange(0, interner.strings().len() as int) =~= interner.strings());
            }
        }
        match self.pat.captures(text) {
            Some(caps) => token_from_groups(interner, self.tok_name, text, start, &caps),
            None => None,
        }
    }
}

/// The body of a delimited literal from character `i` on: characters are
/// copied to `acc` until the delimiter; an escape character makes the next
/// character literal. In strict mode only the delimiter and the escape
/// character may be escaped and the escape character is dropped; otherwise
/// both characters are kept. Yields the index of the closing delimiter and
/// the value, or `None` when the text ends first.
pub open spec fn delimited_body(
    s: Seq<char>,
    i: int,
    delim: char,
    esc: char,
    strict: bool,
    acc: Seq<char>,
) -> Option<Result<(int, Seq<char>), TokenizeErrorReason>>
    decreases s.len() - i,
{
    if i < 0 || i >= s.len() {
        None
    } else if s[i] == esc {
        if i + 1 >= s.len() {
            None
        } else if strict && s[i + 1] != delim && s[i + 1] != esc {
            Some(Err(TokenizeErrorReason::UnrecognizedEscaped(s[i + 1])))
        } else {
            delimited_body(
                s,
                i + 2,
                delim,
                esc,
                strict,
                if strict {
                    acc.push(s[i + 1])
                } else {
                    acc.push(esc).push(s[i + 1])
                },
            )
        }
    } else if s[i] == delim {
        Some(Ok((i, acc)))
    } else {
        delimited_body(s, i + 1, delim, esc, strict, acc.push(s[i]))
    }
}

/// A literal that opens with `prefix` and closes with `postfix`, whose first
/// character is the delimiter: the number of characters it takes and its
/// value. After the delimiter the rest of the postfix must follow exactly.
/// Without a postfix there is no delimiter, and so no literal.
pub open spec fn delimited_scan(
    text: Seq<char>,
    prefix: Seq<char>,
    postfix: Seq<char>,
    esc: char,
    strict: bool,
) -> Option<Result<(int, Seq<char>), TokenizeErrorReason>> {
    if postfix.len() == 0 || prefix.len() > text.len() || text.take(prefix.len() as int) != prefix {
        None
    } else {
        match delimited_body(text, prefix.len() as int, postfix[0], esc, strict, seq![]) {
            None => None,
            Some(Err(r)) => Some(Err(r)),
            Some(Ok((d, v))) => if d + postfix.len() <= text.len() && text.subrange(
                d,
                d + postfix.len(),
            ) == postfix {
                Some(Ok((d + postfix.len(), v)))
            } else {
                Some(Err(TokenizeErrorReason::UnexpectedPostfix))
            },
        }
    }
}

/// The executable result agrees with the scan: the same reason, or the same
/// character count, its byte length and the same value.
pub open spec fn scan_agrees(
    text: Seq<char>,
    r: Option<Result<(usize, usize, String), TokenizeErrorReason>>,
    spec: Option<Result<(int, Seq<char>), TokenizeErrorReason>>,
) -> bool {
    match spec {
        None => r is None,
        Some(Err(b)) => r matches Some(Err(a)) && a == b,
        Some(Ok((m, w))) => r matches Some(Ok((n, len, v))) && n == m && 0 <= m <= text.len() && len
            == blen(text.take(m)) && v@ == w,
    }
}

proof fn lemma_next_char(s: Seq<char>, i: int)
    requires
        0 <= i < s.len(),
    ensures
        s.skip(i).drop_first() == s.skip(i + 1),
        s.skip(i)[0] == s[i],
        s.take(i).push(s[i]) == s.take(i + 1),
{
    assert(s.skip(i).drop_first() =~= s.skip(i + 1));
    assert(s.take(i).push(s[i]) =~= s.take(i + 1));
}

proof fn lemma_step_bytes(s: Seq<char>, i: int)
    requires
        0 <= i < s.len(),
    ensures
        blen(s.take(i + 1)) == blen(s.take(i)) + crate::text::width(s[i]),
        blen(s.take(i + 1)) <= blen(s),
{
    lemma_next_char(s, i);
    crate::text::lemma_blen_push(s.take(i), s[i]);
    crate::text::lemma_blen_take_mono(s, i + 1, s.len() as int);
    assert(s.take(s.len() as int) =~= s);
}

/// Scans a delimited literal at the start of `text`.
#[verifier::rlimit(60)]
fn delimited_core(text: &str, prefix: &str, postfix: &str, esc: char, strict: bool) -> (r: Option<
    Result<(usize, usize, String), TokenizeErrorReason>,
>)
    requires
        postfix@.len() >= 1,
        blen(text@) <= usize::MAX,
    ensures
        scan_agrees(text@, r, delimited_scan(text@, prefix@, postfix@, esc, strict)),
{
    let ghost s = text@;
    let pc = crate::text::chars_of(prefix);
    let pf = crate::text::chars_of(postfix);
    let mut it = text.chars();
    let mut i: usize = 0;
    let mut b: usize = 0;
    proof {
        crate::text::lemma_blen_ge_len(s);
        assert(s.skip(0) =~= s);
        assert(s.take(0) =~= Seq::<char>::empty());
        assert(vstd::utf8::encode_utf8(Seq::<char>::empty()) =~= Seq::<u8>::empty());
    }
    while i < pc.len()
        invariant
            it.remaining() == s.skip(i as int),
            it.decrease() is Some,
            s == text@,
            pc@ == prefix@,
            pf@ == postfix@,
            i <= pc@.len(),
            i <= s.len(),
            b == blen(s.take(i as int)),
            s.take(i as int) == pc@.take(i as int),
            blen(s) <= usize::MAX,
        decreases pc@.len() - i,
    {
        match it.next() {
            Some(c) => {
                proof {
                    lemma_step_bytes(s, i as int);
                    lemma_next_char(s, i as int);
                }
                if c != pc[i] {
                    proof {
                        if pc@.len() <= s.len() {
                            assert(s.take(pc@.len() as int)[i as int] == s[i as int]);
                        }
                    }
                    return None;
                }
                let w = crate::text::char_width(c);
                b += w;
                i += 1;
                assert(s.take(i as int) =~= pc@.take(i as int));
            },
            None => {
                assert(s.skip(i as int).len() == s.len() - i);
                assert(i == s.len());
                assert(pc@ == prefix@);
                assert(prefix@.len() > s.len());
                assert(delimited_scan(s, prefix@, postfix@, esc, strict) is None);
                return None;
            },
        }
    }
    assert(pc@.take(pc@.len() as int) =~= pc@);
    assert(s.take(prefix@.len() as int) == prefix@);
    let delim = pf[0];
    let mut val = String::new();
    let ghost i0 = i as int;
    loop
        invariant_except_break
            delimited_body(s, i as int, delim, esc, strict, val@) == delimited_body(
                s,
                i0,
                delim,
                esc,
                strict,
                seq![],
            ),
        invariant
            it.remaining() == s.skip(i as int),
            it.decrease() is Some,
            s == text@,
            pc@ == prefix@,
            pf@ == postfix@,
            i0 <= i <= s.len(),
            b == blen(s.take(i as int)),
            blen(s) <= usize::MAX,
            s.len() <= usize::MAX,
            i0 == prefix@.len(),
            prefix@.len() <= s.len(),
            s.take(prefix@.len() as int) == prefix@,
            postfix@.len() >= 1,
            delim == postfix@[0],
        ensures
            1 <= i <= s.len(),
            s[i - 1] == delim,
            it.remaining() == s.skip(i as int),
            it.decrease() is Some,
            s == text@,
            pc@ == prefix@,
            pf@ == postfix@,
            b == blen(s.take(i as int)),
            delimited_body(s, i0, delim, esc, strict, seq![]) == Some(
                Ok::<(int, Seq<char>), TokenizeErrorReason>(((i - 1) as int, val@)),
            ),
        decreases s.len() - i,
    {
        match it.next() {
            None => {
                assert(s.skip(i as int).len() == s.len() - i);
                return None;
            },
            Some(c) => {
                proof {
                    lemma_step_bytes(s, i as int);
                    lemma_next_char(s, i as int);
                }
                let w = crate::text::char_width(c);
                if c == esc {
                    b += w;
                    i += 1;
                    match it.next() {
                        None => {
                            assert(s.skip(i as int).len() == s.len() - i);
                            return None;
                        },
                        Some(d) => {
                            proof {
                                lemma_step_bytes(s, i as int);
                                lemma_next_char(s, i as int);
                            }
                            if strict && d != delim && d != esc {
                                return Some(Err(TokenizeErrorReason::UnrecognizedEscaped(d)));
                            }
                            let ghost before = val@;
                            if !strict {
                                crate::text::push_char(&mut val, esc);
                            }
                            crate::text::push_char(&mut val, d);
                            let wd = crate::text::char_width(d);
                            b += wd;
                            i += 1;
                            assert(delimited_body(s, i - 2, delim, esc, strict, before)
                                == delimited_body(s, i as int, delim, esc, strict, val@));
                        },
                    }
                } else if c == delim {
                    b += w;
                    i += 1;
                    break ;
                } else {
                    let ghost before = val@;
                    crate::text::push_char(&mut val, c);
                    b += w;
                    i += 1;
                    assert(delimited_body(s, i - 1, delim, esc, strict, before) == delimited_body(
                        s,
                        i as int,
                        delim,
                        esc,
                        strict,
                        val@,
                    ));
                }
            },
        }
    }
    let ghost d = i - 1;
    let mut j: usize = 1;
    assert(s.subrange(d, i as int) =~= pf@.take(1));
    while j < pf.len()
        invariant
            it.remaining() == s.skip(i as int),
            it.decrease() is Some,
            s == text@,
            pc@ == prefix@,
            pf@ == postfix@,
            1 <= j <= pf@.len(),
            pf@ == postfix@,
            i == d + j,
            i <= s.len(),
            b == blen(s.take(i as int)),
            blen(s) <= usize::MAX,
            s.len() <= usize::MAX,
            0 <= d < s.len(),
            s[d] == pf@[0],
            prefix@.len() <= s.len(),
            s.take(prefix@.len() as int) == prefix@,
            delimited_body(s, prefix@.len() as int, postfix@[0], esc, strict, seq![]) == Some(
                Ok::<(int, Seq<char>), TokenizeErrorReason>((d, val@)),
            ),
            s.subrange(d, i as int) == pf@.take(j as int),
        decreases pf@.len() - j,
    {
        match it.next() {
            Some(c) => {
                proof {
                    lemma_step_bytes(s, i as int);
                    lemma_next_char(s, i as int);
                }
                if c != pf[j] {
                    proof {
                        if d + pf@.len() <= s.len() {
                            assert(s.subrange(d, d + pf@.len())[j as int] != pf@[j as int]);
                        }
                    }
                    return Some(Err(TokenizeErrorReason::UnexpectedPostfix));
                }
                let w = crate::text::char_width(c);
                b += w;
                i += 1;
                j += 1;
                assert(s.subrange(d, i as int) =~= pf@.take(j as int));
            },
            None => {
                assert(s.skip(i as int).len() == s.len() - i);
                return Some(Err(TokenizeErrorReason::UnexpectedPostfix));
            },
        }
    }
    assert(pf@.take(pf@.len() as int) =~= pf@);
    Some(Ok((i, b, val)))
}

/// What a quoted-string matcher yields on `text` (strict escapes).
pub open spec fn quoted_fetch(
    name: Seq<char>,
    text: Seq<char>,
    start: int,
    prefix: Seq<char>,
    postfix: Seq<char>,
    esc: char,
) -> MatchView {
    match delimited_scan(text, prefix, postfix, esc, true) {
        None => None,
        Some(Err(r)) => Some(Err(r)),
        Some(Ok((n, v))) => Some(Ok(token_view(name, v, start, blen(text.take(n)) as int))),
    }
}

/// Scans a quoted literal and interns it as a token named `name`.
pub(crate) fn quoted_m(
    interner: &mut Interner,
    source: &str,
    from: usize,
    prefix: &str,
    postfix: &str,
    escape_char: char,
    name: &str,
) -> (r: Option<TokenMatchResult>)
    requires
        old(interner).wf(),
        old(interner).strings().len() + 2 < u32::MAX,
        postfix@.len() >= 1,
        from + blen(source@) <= usize::MAX,
    ensures
        grows_by_two(*old(interner), *final(interner)),
        !(r matches Some(Ok(_))) ==> *final(interner) == *old(interner),
        match_resolves(r, final(interner).strings()),
        match_view(r, final(interner).strings()) == quoted_fetch(
            name@,
            source@,
            from as int,
            prefix@,
            postfix@,
            escape_char,
        ),
{
    proof {
        lemma_unchanged(*interner);
    }
    match delimited_core(source, prefix, postfix, escape_char, true) {
        None => None,
        Some(Err(e)) => Some(Err(e)),
        Some(Ok((n, len, val))) => {
            proof {
                crate::text::lemma_blen_take_mono(source@, n as int, source@.len() as int);
                assert(source@.take(source@.len() as int) =~= source@);
            }
            let tok = make_token(interner, name, val.as_str(), Span { from, end: from + len });
            Some(Ok(tok))
        },
    }
}

proof fn lemma_unchanged(i: Interner)
    requires
        i.wf(),
    ensures
        grows_by_two(i, i),
{
    assert(i.strings().subrange(0, i.strings().len() as int) =~= i.strings());
}

/// A literal opening with `prefix` and closing with `postfix` (whose first
/// character is the delimiter). Escapes are strict: `escape_char` may only
/// escape the delimiter or itself, and any other escaped character fails
/// with `UnrecognizedEscaped`. After the delimiter the rest of the postfix
/// must follow, else `UnexpectedPostfix`; text that ends before the literal
/// closes is no match. The token is named `__aux_tmp`, for the caller to rename; its value is the body
/// with escapes resolved.
pub fn aux_strlike_m(
    interner: &mut Interner,
    source: &str,
    from: usize,
    prefix: &str,
    postfix: &str,
    escape_char: char,
) -> (r: Option<TokenMatchResult>)
    requires
        old(interner).wf(),
        old(interner).strings().len() + 2 < u32::MAX,
        postfix@.len() >= 1,
        from + blen(source@) <= usize::MAX,
    ensures
        grows_by_two(*old(interner), *final(interner)),
        !(r matches Some(Ok(_))) ==> *final(interner) == *old(interner),
        match_resolves(r, final(interner).strings()),
        match_view(r, final(interner).strings()) == quoted_fetch(
            "__aux_tmp"@,
            source@,
            from as int,
            prefix@,
            postfix@,
            escape_char,
        ),
{
    quoted_m(interner, source, from, prefix, postfix, escape_char, "__aux_tmp")
}

/// A double-quoted string, `"` escaped by `\`.
pub fn dqstr_m(interner: &mut Interner, source: &str, from: usize) -> (r: Option<TokenMatchResult>)
    requires
        old(interner).wf(),
        old(interner).strings().len() + 2 < u32::MAX,
        from + blen(source@) <= usize::MAX,
    ensures
        grows_by_two(*old(interner), *final(interner)),
        !(r matches Some(Ok(_))) ==> *final(interner) == *old(interner),
        match_resolves(r, final(interner).strings()),
        match_view(r, final(interner).strings()) == quoted_fetch(
            "dqstr"@,
            source@,
            from as int,
            seq!['"'],
            seq!['"'],
            '\\',
        ),
{
    proof {
        reveal_strlit("\"");
        assert("\""@ =~= seq!['"']);
    }
    quoted_m(interner, source, from, "\"", "\"", '\\', "dqstr")
}

/// A back-quoted string, `` ` `` escaped by `\`.
pub fn aqstr_m(interner: &mut Interner, source: &str, from: usize) -> (r: Option<TokenMatchResult>)
    requires
        old(interner).wf(),
        old(interner).strings().len() + 2 < u32::MAX,
        from + blen(source@) <= usize::MAX,
    ensures
        grows_by_two(*old(interner), *final(interner)),
        !(r matches Some(Ok(_))) ==> *final(interner) == *old(interner),
        match_resolves(r, final(interner).strings()),
        match_view(r, final(interner).strings()) == quoted_fetch(
            "aqstr"@,
            source@,
            from as int,
            seq!['`'],
            seq!['`'],
            '\\',
        ),
{
    proof {
        reveal_strlit("`");
        assert("`"@ =~= seq!['`']);
    }
    quoted_m(interner, source, from, "`", "`", '\\', "aqstr")
}

/// A single-quoted string, `'` escaped by `\`.
pub fn sqstr_m(interner: &mut Interner, source: &str, from: usize) -> (r: Option<TokenMatchResult>)
    requires
        old(interner).wf(),
        old(interner).strings().len() + 2 < u32::MAX,
        from + blen(source@) <= usize::MAX,
    ensures
        grows_by_two(*old(interner), *final(interner)),
        !(r matches Some(Ok(_))) ==> *final(interner) == *old(interner),
        match_resolves(r, final(interner).strings()),
        match_view(r, final(interner).strings()) == quoted_fetch(
            "sqstr"@,
            source@,
            from as int,
            seq!['\''],
            seq!['\''],
            '\\',
        ),
{
    proof {
        reveal_strlit("'");
        assert("'"@ =~= seq!['\'']);
    }
    quoted_m(interner, source, from, "'", "'", '\\', "sqstr")
}

/// An ASCII letter.
pub open spec fn is_ascii_letter(c: char) -> bool {
    (97 <= (c as u32) <= 122) || (65 <= (c as u32) <= 90)
}

/// The token of a regular-expression literal of `n` characters with body
/// `v`, followed by a one-letter flag when there is one.
pub open spec fn lit_regex_token(text: Seq<char>, start: int, n: int, v: Seq<char>) -> TokenView {
    if n < text.len() && is_ascii_letter(text[n]) {
        token_view("lit_regex"@, seq!['/'] + v + seq!['/', text[n]], start, blen(text.take(n)) + 1int)
    } else {
        token_view("lit_regex"@, seq!['/'] + v + seq!['/'], start, blen(text.take(n)) as int)
    }
}

/// What the regular-expression-literal matcher yields on `text`: `/body/`
/// with escapes kept verbatim and an optional one-letter flag; an empty body
/// is no match, so that `//` can start a comment.
pub open spec fn lit_regex_fetch(text: Seq<char>, start: int) -> MatchView {
    match delimited_scan(text, seq!['/'], seq!['/'], '\\', false) {
        None => None,
        Some(Err(r)) => Some(Err(r)),
        Some(Ok((n, v))) => if v.len() == 0 {
            None
        } else {
            Some(Ok(lit_regex_token(text, start, n, v)))
        },
    }
}

/// The value and end of a regular-expression literal of `n` characters
/// (`len` bytes) with body `val`.
fn lit_regex_parts(source: &str, from: usize, n: usize, len: usize, val: &str) -> (r: (
    String,
    usize,
))
    requires
        n <= source@.len(),
        len == blen(source@.take(n as int)),
        from + blen(source@) <= usize::MAX,
    ensures
        token_view("lit_regex"@, r.0@, from as int, r.1 - from) == lit_regex_token(
            source@,
            from as int,
            n as int,
            val@,
        ),
        from <= r.1,
{
    let ghost s = source@;
    proof {
        crate::text::lemma_blen_take_mono(s, n as int, s.len() as int);
        assert(s.take(s.len() as int) =~= s);
    }
    let mut value = String::new();
    crate::text::push_char(&mut value, '/');
    value.append(val);
    crate::text::push_char(&mut value, '/');
    let mut end = from + len;
    match flag_after(source, Ghost(n as int), len) {
        Some(c) => {
            proof {
                crate::text::lemma_width_ascii(c);
                lemma_step_bytes(s, n as int);
            }
            crate::text::push_char(&mut value, c);
            end = end + 1;
            assert(value@ =~= seq!['/'] + val@ + seq!['/', c]);
        },
        None => {
            assert(value@ =~= seq!['/'] + val@ + seq!['/']);
        },
    }
    (value, end)
}

/// A regular-expression literal such as `/a\/b/g`.
pub fn lit_regex_m(interner: &mut Interner, source: &str, from: usize) -> (r: Option<
    TokenMatchResult,
>)
    requires
        old(interner).wf(),
        old(interner).strings().len() + 2 < u32::MAX,
        from + blen(source@) <= usize::MAX,
    ensures
        grows_by_two(*old(interner), *final(interner)),
        !(r matches Some(Ok(_))) ==> *final(interner) == *old(interner),
        match_resolves(r, final(interner).strings()),
        match_view(r, final(interner).strings()) == lit_regex_fetch(source@, from as int),
{
    proof {
        reveal_strlit("/");
        assert("/"@ =~= seq!['/']);
        lemma_unchanged(*interner);
    }
    match delimited_core(source, "/", "/", '\\', false) {
        None => None,
        Some(Err(e)) => Some(Err(e)),
        Some(Ok((n, len, val))) => {
            if val.as_str().is_empty() {
                return None;
            }
            let (value, end) = lit_regex_parts(source, from, n, len, val.as_str());
            let tok = make_token(interner, "lit_regex", value.as_str(), Span { from, end });
            Some(Ok(tok))
        },
    }
}

/// The character at index `n`, when it is an ASCII letter.
fn flag_after(source: &str, Ghost(n): Ghost<int>, b: usize) -> (r: Option<char>)
    requires
        0 <= n <= source@.len(),
        b == blen(source@.take(n)),
    ensures
        r == (if n < source@.len() && is_ascii_letter(source@[n]) {
            Some(source@[n])
        } else {
            None::<char>
        }),
{
    let rest = crate::text::suffix_from(source, Ghost(n), b);
    let mut it = rest.chars();
    match it.next() {
        Some(c) => {
            if (97 <= (c as u32) && (c as u32) <= 122) || (65 <= (c as u32) && (c as u32) <= 90) {
                Some(c)
            } else {
                None
            }
        },
        None => None,
    }
}

/// The heredoc form: an opener (`<<<`, `<<-`, `<<` or `<-`), a terminator
/// word, the rest of that line, the body, and the terminator again on a line
/// of its own.
pub const HEREDOC_PATTERN: &'static str = r"^(<<<|<<-|<<|<-)[[:blank:]]*(.+)([[:blank:]]+.*\n|\n)([\s|\S]*?)\n\2";

/// What the heredoc matcher yields on `text`: the body (group 4) of a match
/// of the heredoc pattern at the start of the text; a failed search is no
/// match.
pub open spec fn heredoc_fetch(text: Seq<char>, start: int) -> MatchView {
    if !crate::pattern::fancy_compiles(HEREDOC_PATTERN@) {
        None
    } else {
        heredoc_fetch_with(HEREDOC_PATTERN@, text, start)
    }
}

/// What a heredoc matcher with the compiled pattern `pattern` yields.
pub open spec fn heredoc_fetch_with(pattern: Seq<char>, text: Seq<char>, start: int) -> MatchView {
    match fancy_captures(pattern, text) {
        Some(Some(g)) => heredoc_groups(text, start, g),
        _ => None,
    }
}

/// What a heredoc matcher yields once the groups of its match are known.
pub open spec fn heredoc_groups(text: Seq<char>, start: int, g: Groups) -> MatchView {
    match group_range(text, g, 0) {
        Some((s, e)) => if s == 0 {
            match group_range(text, g, 4) {
                Some(v) => Some(
                    Ok(token_view("heredoc"@, chars_between(text, v.0 as int, v.1 as int), start, e as int)),
                ),
                None => None,
            }
        } else {
            None
        },
        None => None,
    }
}

/// The heredoc token that a match with groups `groups` gives: the match must
/// start at the beginning of `source`; the value is the body, group 4.
pub fn heredoc_from_groups(
    interner: &mut Interner,
    source: &str,
    from: usize,
    groups: &Vec<Option<(usize, usize)>>,
) -> (r: Option<TokenMatchResult>)
    requires
        old(interner).wf(),
        old(interner).strings().len() + 2 < u32::MAX,
        from + blen(source@) <= usize::MAX,
    ensures
        grows_by_two(*old(interner), *final(interner)),
        !(r matches Some(Ok(_))) ==> *final(interner) == *old(interner),
        match_resolves(r, final(interner).strings()),
        match_view(r, final(interner).strings()) == heredoc_groups(source@, from as int, groups@),
{
    proof {
        lemma_unchanged(*interner);
    }
    let (s, e) = match get_group(source, groups, 0) {
        Some(r) => r,
        None => {
            return None;
        },
    };
    if s != 0 {
        return None;
    }
    let v = match get_group(source, groups, 4) {
        Some(r) => r,
        None => {
            return None;
        },
    };
    proof {
        crate::text::lemma_split_boundary(source@, e as int);
    }
    let value = span_text(source, Span { from: v.0, end: v.1 });
    let tok = make_token(interner, "heredoc", value, Span { from, end: from + e });
    Some(Ok(tok))
}

/// A heredoc block, matched with an already compiled heredoc pattern; its
/// value is the body.
pub fn heredoc_with(interner: &mut Interner, pat: &FancyPattern, source: &str, from: usize) -> (r:
    Option<TokenMatchResult>)
    requires
        old(interner).wf(),
        old(interner).strings().len() + 2 < u32::MAX,
        from + blen(source@) <= usize::MAX,
    ensures
        grows_by_two(*old(interner), *final(interner)),
        !(r matches Some(Ok(_))) ==> *final(interner) == *old(interner),
        match_resolves(r, final(interner).strings()),
        match_view(r, final(interner).strings()) == heredoc_fetch_with(pat.source(), source@, from as int),
{
    proof {
        lemma_unchanged(*interner);
    }
    match pat.captures(source) {
        Ok(Some(caps)) => heredoc_from_groups(interner, source, from, &caps),
        _ => None,
    }
}

/// A heredoc block; its value is the body. Compiles the heredoc pattern on
/// each call; a scanner holds it compiled once in `Matcher::Heredoc`.
pub fn heredoc_m(interner: &mut Interner, source: &str, from: usize) -> (r: Option<
    TokenMatchResult,
>)
    requires
        old(interner).wf(),
        old(interner).strings().len() + 2 < u32::MAX,
        from + blen(source@) <= usize::MAX,
    ensures
        grows_by_two(*old(interner), *final(interner)),
        !(r matches Some(Ok(_))) ==> *final(interner) == *old(interner),
        match_resolves(r, final(interner).strings()),
        match_view(r, final(interner).strings()) == heredoc_fetch(source@, from as int),
{
    proof {
        lemma_unchanged(*interner);
    }
    match FancyPattern::new(HEREDOC_PATTERN) {
        Some(p) => heredoc_with(interner, &p, source, from),
        None => None,
    }
}

} // verus!
