//! The sequential scanner: at each position the matchers are tried in order
//! and the first that applies decides; the position then moves past the
//! token. Scanning stops at the first failure.

use vstd::prelude::*;
use vstd::string::{StrSliceExecFns, StringExecFns};
use crate::error::{TokenizeError, TokenizeErrorReason};
use crate::matchers::{
    aqstr_m, delimited_scan, dqstr_m, group_range, grows_by_two, heredoc_fetch_with, heredoc_with,
    is_ascii_letter, lit_regex_fetch, lit_regex_m, match_resolves, match_view, pattern_fetch,
    quoted_fetch, sqstr_m, pattern_groups, heredoc_groups, MatchView, TokenMatchResult, TokenMatcher,
};
use crate::pattern::FancyPattern;
use crate::source::SrcFileInfo;
use crate::symbol::{resolves, Interner};
use crate::text::{blen, boundary, chars_between, str_eq};
use crate::token::{Token, TokenView};

verus! {

broadcast use vstd::seq::group_seq_axioms;

/// One matcher of the sequential scanner.
pub enum Matcher {
    /// A regular expression; it applies only where its match starts at the
    /// beginning of the text.
    Regex(TokenMatcher),
    /// `"..."`, named `dqstr`.
    DqStr,
    /// `` `...` ``, named `aqstr`.
    AqStr,
    /// `'...'`, named `sqstr`.
    SqStr,
    /// `/.../flag`, named `lit_regex`.
    LitRegex,
    /// A heredoc block, named `heredoc`, with its pattern compiled once
    /// (see [`Matcher::heredoc`]).
    Heredoc(FancyPattern),
    /// A delimited literal with its own prefix, postfix (whose first
    /// character is the delimiter) and escape character, named `name`, as
    /// `aux_strlike_m` scans it; for instance a command bracket `!( ... )`.
    Delimited { prefix: String, postfix: String, escape: char, name: String },
}

impl Matcher {
    /// The matcher's own symbol resolves in table `t`.
    pub open spec fn ready(&self, t: Seq<Seq<char>>) -> bool {
        match self {
            Matcher::Regex(m) => resolves(t, m.name_symbol()),
            Matcher::Delimited { postfix, .. } => postfix@.len() >= 1,
            _ => true,
        }
    }

    /// What the matcher yields on `text` at byte offset `start`, names
    /// resolved in `t`.
    pub open spec fn spec_fetch(&self, t: Seq<Seq<char>>, text: Seq<char>, start: int) -> MatchView {
        match self {
            Matcher::Regex(m) => pattern_fetch(
                t[m.name_symbol().index() as int],
                m.pattern(),
                text,
                start,
            ),
            Matcher::DqStr => quoted_fetch("dqstr"@, text, start, seq!['"'], seq!['"'], '\\'),
            Matcher::AqStr => quoted_fetch("aqstr"@, text, start, seq!['`'], seq!['`'], '\\'),
            Matcher::SqStr => quoted_fetch("sqstr"@, text, start, seq!['\''], seq!['\''], '\\'),
            Matcher::LitRegex => lit_regex_fetch(text, start),
            Matcher::Heredoc(p) => heredoc_fetch_with(p.source(), text, start),
            Matcher::Delimited { prefix, postfix, escape, name } => quoted_fetch(
                name@,
                text,
                start,
                prefix@,
                postfix@,
                *escape,
            ),
        }
    }

    /// The heredoc matcher, its pattern compiled; `None` when `fancy_regex`
    /// rejects the pattern.
    pub fn heredoc() -> (r: Option<Matcher>)
        ensures
            r is Some <==> crate::pattern::fancy_compiles(crate::matchers::HEREDOC_PATTERN@),
            r matches Some(m) ==> (m matches Matcher::Heredoc(p) && p.source()
                == crate::matchers::HEREDOC_PATTERN@),
    {
        match FancyPattern::new(crate::matchers::HEREDOC_PATTERN) {
            Some(p) => Some(Matcher::Heredoc(p)),
            None => None,
        }
    }

    /// Tries the matcher on `text`, which starts at byte offset `start`.
    pub fn fetch(&self, interner: &mut Interner, text: &str, start: usize) -> (r: Option<
        TokenMatchResult,
    >)
        requires
            old(interner).wf(),
            old(interner).strings().len() + 2 < u32::MAX,
            self.ready(old(interner).strings()),
            start + blen(text@) <= usize::MAX,
        ensures
            grows_by_two(*old(interner), *final(interner)),
            !(r matches Some(Ok(_))) ==> *final(interner) == *old(interner),
            match_resolves(r, final(interner).strings()),
            match_view(r, final(interner).strings()) == self.spec_fetch(
                old(interner).strings(),
                text@,
                start as int,
            ),
    {
        match self {
            Matcher::Regex(m) => m.fetch_tok(interner, text, start),
            Matcher::DqStr => dqstr_m(interner, text, start),
            Matcher::AqStr => aqstr_m(interner, text, start),
            Matcher::SqStr => sqstr_m(interner, text, start),
            Matcher::LitRegex => lit_regex_m(interner, text, start),
            Matcher::Heredoc(p) => heredoc_with(interner, p, text, start),
            Matcher::Delimited { prefix, postfix, escape, name } => crate::matchers::quoted_m(
                interner,
                text,
                start,
                prefix.as_str(),
                postfix.as_str(),
                *escape,
                name.as_str(),
            ),
        }
    }
}

/// The token begins at byte offset `start` and ends on a character boundary
/// of `text`, which begins at that offset.
pub open spec fn placed(tv: TokenView, text: Seq<char>, start: int) -> bool {
    &&& tv.2.from == start
    &&& tv.2.from <= tv.2.end
    &&& boundary(text, tv.2.end - start)
}

proof fn lemma_body_range(
    s: Seq<char>,
    i: int,
    delim: char,
    esc: char,
    strict: bool,
    acc: Seq<char>,
)
    ensures
        crate::matchers::delimited_body(s, i, delim, esc, strict, acc) matches Some(Ok((d, _)))
            ==> i <= d < s.len(),
    decreases s.len() - i,
{
    if 0 <= i < s.len() {
        if s[i] == esc {
            if i + 1 < s.len() {
                lemma_body_range(
                    s,
                    i + 2,
                    delim,
                    esc,
                    strict,
                    if strict {
                        acc.push(s[i + 1])
                    } else {
                        acc.push(esc).push(s[i + 1])
                    },
                );
            }
        } else if s[i] != delim {
            lemma_body_range(s, i + 1, delim, esc, strict, acc.push(s[i]));
        }
    }
}

proof fn lemma_scan_range(text: Seq<char>, prefix: Seq<char>, postfix: Seq<char>, esc: char, strict: bool)
    ensures
        delimited_scan(text, prefix, postfix, esc, strict) matches Some(Ok((n, _))) ==> 0 <= n
            <= text.len(),
{
    if postfix.len() >= 1 {
        lemma_body_range(text, prefix.len() as int, postfix[0], esc, strict, seq![]);
    }
}

proof fn lemma_group_placed(text: Seq<char>, g: crate::pattern::Groups, i: int, start: int)
    requires
        group_range(text, g, i) is Some,
        0 <= start,
        start + blen(text) <= usize::MAX,
    ensures
        ({
            let (s, e) = group_range(text, g, i)->0;
            &&& e <= blen(text)
            &&& (start + e) as usize == start + e
        }),
{
    let (s, e) = group_range(text, g, i)->0;
    crate::text::lemma_split_boundary(text, e as int);
}

proof fn lemma_pattern_placed(name: Seq<char>, text: Seq<char>, start: int, g: crate::pattern::Groups)
    requires
        0 <= start,
        start + blen(text) <= usize::MAX,
    ensures
        pattern_groups(name, text, start, g) matches Some(Ok(tv)) ==> placed(tv, text, start),
        heredoc_groups(text, start, g) matches Some(Ok(tv)) ==> placed(tv, text, start),
{
    if group_range(text, g, 0) is Some {
        lemma_group_placed(text, g, 0, start);
    }
}

proof fn lemma_quoted_placed(name: Seq<char>, text: Seq<char>, start: int, p: Seq<char>, q: Seq<char>, esc: char)
    requires
        0 <= start,
        start + blen(text) <= usize::MAX,
    ensures
        quoted_fetch(name, text, start, p, q, esc) matches Some(Ok(tv)) ==> placed(tv, text, start),
{
    lemma_scan_range(text, p, q, esc, true);
    match delimited_scan(text, p, q, esc, true) {
        Some(Ok((n, v))) => {
            crate::text::lemma_take_boundary(text, n);
            crate::text::lemma_blen_take_mono(text, n, text.len() as int);
            assert(text.take(text.len() as int) =~= text);
        },
        _ => {},
    }
}

proof fn lemma_lit_regex_placed(text: Seq<char>, start: int)
    requires
        0 <= start,
        start + blen(text) <= usize::MAX,
    ensures
        lit_regex_fetch(text, start) matches Some(Ok(tv)) ==> placed(tv, text, start),
{
    lemma_scan_range(text, seq!['/'], seq!['/'], '\\', false);
    match delimited_scan(text, seq!['/'], seq!['/'], '\\', false) {
        Some(Ok((n, v))) => {
            crate::text::lemma_take_boundary(text, n);
            crate::text::lemma_blen_take_mono(text, n, text.len() as int);
            assert(text.take(text.len() as int) =~= text);
            if n < text.len() && is_ascii_letter(text[n]) {
                crate::text::lemma_width_ascii(text[n]);
                assert(text.take(n).push(text[n]) =~= text.take(n + 1));
                crate::text::lemma_blen_push(text.take(n), text[n]);
                crate::text::lemma_take_boundary(text, n + 1);
                crate::text::lemma_blen_take_mono(text, n + 1, text.len() as int);
            }
        },
        _ => {},
    }
}

/// A token that a matcher yields sits at the position it was asked about and
/// ends on a character boundary of the text.
pub proof fn lemma_fetch_placed(m: Matcher, t: Seq<Seq<char>>, text: Seq<char>, start: int)
    requires
        0 <= start,
        start + blen(text) <= usize::MAX,
    ensures
        m.spec_fetch(t, text, start) matches Some(Ok(tv)) ==> placed(tv, text, start),
{
    match m {
        Matcher::Regex(tm) => {
            match crate::pattern::regex_captures(tm.pattern(), text) {
                Some(g) => lemma_pattern_placed(t[tm.name_symbol().index() as int], text, start, g),
                None => {},
            }
        },
        Matcher::Heredoc(p) => {
            match crate::pattern::fancy_captures(p.source(), text) {
                Some(Some(g)) => lemma_pattern_placed(Seq::empty(), text, start, g),
                _ => {},
            }
        },
        Matcher::LitRegex => lemma_lit_regex_placed(text, start),
        Matcher::DqStr => lemma_quoted_placed("dqstr"@, text, start, seq!['"'], seq!['"'], '\\'),
        Matcher::AqStr => lemma_quoted_placed("aqstr"@, text, start, seq!['`'], seq!['`'], '\\'),
        Matcher::SqStr => lemma_quoted_placed("sqstr"@, text, start, seq!['\''], seq!['\''], '\\'),
        Matcher::Delimited { prefix, postfix, escape, name } => {
            lemma_quoted_placed(name@, text, start, prefix@, postfix@, escape);
        },
    }
}

/// The first matcher from index `k` on that applies, and what it yields.
pub open spec fn first_match(ms: Seq<Matcher>, k: int, t: Seq<Seq<char>>, text: Seq<char>, start: int) -> MatchView
    decreases ms.len() - k,
{
    if k < 0 || k >= ms.len() {
        None
    } else {
        match ms[k].spec_fetch(t, text, start) {
            None => first_match(ms, k + 1, t, text, start),
            r => r,
        }
    }
}

/// Scanning `text` from character `cpos` (byte `bpos`) with matchers `ms`:
/// the tokens up to the end, or the first failure and the character offset
/// where it happened. No matcher applying is `UnrecognizedToken`; a winning
/// token that covers no character is `ZeroLenToken`.
pub open spec fn scan(ms: Seq<Matcher>, t: Seq<Seq<char>>, text: Seq<char>, cpos: int, bpos: int) -> Result<
    Seq<TokenView>,
    (TokenizeErrorReason, int),
>
    decreases text.len() - cpos,
{
    if cpos < 0 || cpos >= text.len() {
        Ok(seq![])
    } else {
        let rest = text.skip(cpos);
        match first_match(ms, 0, t, rest, bpos) {
            None => Err((TokenizeErrorReason::UnrecognizedToken, cpos)),
            Some(Err(r)) => Err((r, cpos)),
            Some(Ok(tv)) => {
                let len = tv.2.end - tv.2.from;
                let n = chars_between(rest, 0, len).len() as int;
                if len <= 0 || n <= 0 || cpos + n > text.len() {
                    Err((TokenizeErrorReason::ZeroLenToken, cpos))
                } else {
                    match scan(ms, t, text, cpos + n, bpos + len) {
                        Ok(more) => Ok(seq![tv] + more),
                        Err(e) => Err(e),
                    }
                }
            },
        }
    }
}

/// The views of tokens, with symbols resolved in `t`.
pub open spec fn views(toks: Seq<Token>, t: Seq<Seq<char>>) -> Seq<TokenView> {
    toks.map_values(|tok: Token| tok.view_in(t))
}

/// Every token resolves in `t`.
pub open spec fn all_resolve(toks: Seq<Token>, t: Seq<Seq<char>>) -> bool {
    forall|i: int| 0 <= i < toks.len() ==> #[trigger] toks[i].resolves_in(t)
}

/// `done` followed by what is left.
pub open spec fn after(done: Seq<TokenView>, r: Result<Seq<TokenView>, (TokenizeErrorReason, int)>) -> Result<
    Seq<TokenView>,
    (TokenizeErrorReason, int),
> {
    match r {
        Ok(more) => Ok(done + more),
        Err(e) => Err(e),
    }
}

/// All matchers are ready in `t`.
pub open spec fn all_ready(ms: Seq<Matcher>, t: Seq<Seq<char>>) -> bool {
    forall|i: int| 0 <= i < ms.len() ==> #[trigger] ms[i].ready(t)
}

proof fn lemma_views_stable(toks: Seq<Token>, a: Seq<Seq<char>>, b: Seq<Seq<char>>)
    requires
        all_resolve(toks, a),
        a.is_prefix_of(b),
    ensures
        views(toks, a) == views(toks, b),
        all_resolve(toks, b),
{
    lemma_prefix_at(a, b);
    assert forall|i: int| 0 <= i < toks.len() implies #[trigger] toks[i].view_in(a) == toks[i].view_in(b) && toks[i].resolves_in(b) by {
        assert(toks[i].resolves_in(a));
    }
    assert forall|i: int| 0 <= i < toks.len() implies #[trigger] toks[i].resolves_in(b) by {
        assert(toks[i].resolves_in(a));
    }
    assert(views(toks, a) =~= views(toks, b));
}

proof fn lemma_ready_stable(ms: Seq<Matcher>, a: Seq<Seq<char>>, b: Seq<Seq<char>>)
    requires
        all_ready(ms, a),
        a.is_prefix_of(b),
    ensures
        all_ready(ms, b),
        forall|k: int, text: Seq<char>, start: int| #[trigger] first_match(ms, k, a, text, start) == first_match(ms, k, b, text, start),
{
    assert forall|k: int, text: Seq<char>, start: int| #[trigger] first_match(ms, k, a, text, start) == first_match(ms, k, b, text, start) by {
        lemma_first_match_stable(ms, k, a, b, text, start);
    }
    assert forall|i: int| 0 <= i < ms.len() implies #[trigger] ms[i].ready(b) by {
        assert(ms[i].ready(a));
    }
}

/// Entries of a prefix are entries of the whole.
pub proof fn lemma_prefix_at(a: Seq<Seq<char>>, b: Seq<Seq<char>>)
    requires
        a.is_prefix_of(b),
    ensures
        a.len() <= b.len(),
        forall|j: int| 0 <= j < a.len() ==> #[trigger] b[j] == a[j],
{
    assert forall|j: int| 0 <= j < a.len() implies #[trigger] b[j] == a[j] by {
        assert(b.subrange(0, a.len() as int)[j] == b[j]);
    }
}

proof fn lemma_first_match_stable(ms: Seq<Matcher>, k: int, a: Seq<Seq<char>>, b: Seq<Seq<char>>, text: Seq<char>, start: int)
    requires
        all_ready(ms, a),
        a.is_prefix_of(b),
    ensures
        first_match(ms, k, a, text, start) == first_match(ms, k, b, text, start),
    decreases ms.len() - k,
{
    if 0 <= k < ms.len() {
        assert(ms[k].ready(a));
        lemma_prefix_at(a, b);
        lemma_first_match_stable(ms, k + 1, a, b, text, start);
    }
}

proof fn lemma_first_match_placed(ms: Seq<Matcher>, k: int, t: Seq<Seq<char>>, text: Seq<char>, start: int)
    requires
        0 <= start,
        start + blen(text) <= usize::MAX,
    ensures
        first_match(ms, k, t, text, start) matches Some(Ok(tv)) ==> placed(tv, text, start),
    decreases ms.len() - k,
{
    if 0 <= k < ms.len() {
        lemma_fetch_placed(ms[k], t, text, start);
        lemma_first_match_placed(ms, k + 1, t, text, start);
    }
}

/// Tries the matchers in order on `text` and returns what the first one that
/// applies yields.
fn first_fetch(interner: &mut Interner, ms: &[Matcher], text: &str, start: usize) -> (r: Option<
    TokenMatchResult,
>)
    requires
        old(interner).wf(),
        old(interner).strings().len() + 2 < u32::MAX,
        all_ready(ms@, old(interner).strings()),
        start + blen(text@) <= usize::MAX,
    ensures
        grows_by_two(*old(interner), *final(interner)),
        !(r matches Some(Ok(_))) ==> *final(interner) == *old(interner),
        match_resolves(r, final(interner).strings()),
        match_view(r, final(interner).strings()) == first_match(
            ms@,
            0,
            old(interner).strings(),
            text@,
            start as int,
        ),
{
    let ghost t = interner.strings();
    let mut k: usize = 0;
    while k < ms.len()
        invariant
            *interner == *old(interner),
            t == interner.strings(),
            interner.wf(),
            interner.strings().len() + 2 < u32::MAX,
            all_ready(ms@, t),
            start + blen(text@) <= usize::MAX,
            k <= ms@.len(),
            first_match(ms@, 0, t, text@, start as int) == first_match(ms@, k as int, t, text@, start as int),
        decreases ms@.len() - k,
    {
        assert(ms@[k as int].ready(t));
        let r = ms[k].fetch(interner, text, start);
        if r.is_some() {
            return r;
        }
        k += 1;
    }
    proof {
        crate::matchers::lemma_prefix_trans(t, t, t);
    }
    None
}

proof fn lemma_advance(text: Seq<char>, cpos: int, head: Seq<char>, len: int)
    requires
        0 <= cpos <= text.len(),
        head == chars_between(text.skip(cpos), 0, len),
        boundary(text.skip(cpos), len),
    ensures
        cpos + head.len() <= text.len(),
        text.take(cpos + head.len()) == text.take(cpos) + head,
        blen(text.take(cpos + head.len())) == blen(text.take(cpos)) + len,
        len > 0 ==> head.len() > 0,
{
    let rest = text.skip(cpos);
    crate::text::lemma_split_boundary(rest, len);
    crate::text::lemma_boundary_index(rest, len);
    assert(text.take(cpos + head.len()) =~= text.take(cpos) + head);
    crate::text::lemma_encode_concat(text.take(cpos), head);
    if head.len() == 0 {
        assert(vstd::utf8::encode_utf8(head) =~= Seq::<u8>::empty());
    }
}

/// Scans the whole source with the matchers in priority order. An empty
/// source gives no tokens.
pub fn tokenize(interner: &mut Interner, srcfile: &SrcFileInfo, fn_matchers: &[Matcher]) -> (r: Result<
    Vec<Token>,
    TokenizeError,
>)
    requires
        old(interner).wf(),
        srcfile.wf(),
        all_ready(fn_matchers@, old(interner).strings()),
        old(interner).strings().len() + 2 * srcfile.text().len() + 2 < u32::MAX,
    ensures
        final(interner).wf(),
        old(interner).strings().is_prefix_of(final(interner).strings()),
        match r {
            Ok(toks) => {
                &&& all_resolve(toks@, final(interner).strings())
                &&& scan(fn_matchers@, old(interner).strings(), srcfile.text(), 0, 0) == Ok::<
                    Seq<TokenView>,
                    (TokenizeErrorReason, int),
                >(views(toks@, final(interner).strings()))
            },
            Err(e) => {
                &&& scan(fn_matchers@, old(interner).strings(), srcfile.text(), 0, 0) == Err::<
                    Seq<TokenView>,
                    (TokenizeErrorReason, int),
                >((e.reason(), e.start() as int))
                &&& e.src().wf()
                &&& e.src().text() == srcfile.text()
                &&& e.src().path() == srcfile.path()
            },
        },
        srcfile.text().len() == 0 ==> (r matches Ok(toks) && toks@.len() == 0),
{
    let ghost ms = fn_matchers@;
    let ghost t0 = interner.strings();
    let source = srcfile.get_srcstr();
    let ghost text = source@;
    let mut tokens: Vec<Token> = Vec::new();
    let mut bytes_pos: usize = 0;
    let mut chars_pos: usize = 0;
    proof {
        crate::source::lemma_srcfile_len(*srcfile);
        assert(text.take(0) =~= Seq::<char>::empty());
        assert(vstd::utf8::encode_utf8(Seq::<char>::empty()) =~= Seq::<u8>::empty());
        assert(views(tokens@, t0) =~= Seq::<TokenView>::empty());
        assert(after(Seq::<TokenView>::empty(), scan(ms, t0, text, 0, 0)) =~= scan(ms, t0, text, 0, 0)) by {
            match scan(ms, t0, text, 0, 0) {
                Ok(v) => {
                    assert(Seq::<TokenView>::empty() + v =~= v);
                },
                Err(_) => {},
            }
        }
        crate::symbol::lemma_prefix_refl(t0);
    }
    while bytes_pos < source.len()
        invariant
            ms == fn_matchers@,
            text == source@,
            text == srcfile.text(),
            srcfile.wf(),
            blen(text) < usize::MAX,
            source.len() == blen(text),
            chars_pos <= text.len(),
            bytes_pos == blen(text.take(chars_pos as int)),
            t0 == old(interner).strings(),
            t0.len() + 2 * text.len() + 2 < u32::MAX,
            all_ready(ms, t0),
            interner.wf(),
            t0.is_prefix_of(interner.strings()),
            interner.strings().len() <= t0.len() + 2 * chars_pos,
            all_resolve(tokens@, interner.strings()),
            scan(ms, t0, text, 0, 0) == after(views(tokens@, interner.strings()), scan(ms, t0, text, chars_pos as int, bytes_pos as int)),
        decreases blen(text) - bytes_pos,
    {
        proof {
            if chars_pos == text.len() {
                assert(text.take(chars_pos as int) =~= text);
            }
            crate::text::lemma_blen_take_mono(text, chars_pos as int, text.len() as int);
            assert(text.take(text.len() as int) =~= text);
            assert(text.take(chars_pos as int) + text.skip(chars_pos as int) =~= text);
            crate::text::lemma_encode_concat(text.take(chars_pos as int), text.skip(chars_pos as int));
        }
        let ghost tcur = interner.strings();
        let rest = crate::text::suffix_from(source, Ghost(chars_pos as int), bytes_pos);
        proof {
            lemma_ready_stable(ms, t0, tcur);
        }
        let found = first_fetch(interner, fn_matchers, rest, bytes_pos);
        proof {
            lemma_first_match_placed(ms, 0, t0, rest@, bytes_pos as int);
        }
        match found {
            None => {
                return Err(TokenizeError::new(TokenizeErrorReason::UnrecognizedToken, chars_pos, srcfile.duplicate()));
            },
            Some(Err(reason)) => {
                return Err(TokenizeError::new(reason, chars_pos, srcfile.duplicate()));
            },
            Some(Ok(tok)) => {
                let ghost tnew = interner.strings();
                let ghost tv = tok.view_in(tnew);
                if tok.span.end <= tok.span.from {
                    return Err(TokenizeError::new(TokenizeErrorReason::ZeroLenToken, chars_pos, srcfile.duplicate()));
                }
                let len = tok.span.end - tok.span.from;
                let (head, _) = crate::text::split_str(rest, len);
                let n = head.unicode_len();
                proof {
                    lemma_advance(text, chars_pos as int, head@, len as int);
                    crate::matchers::lemma_prefix_trans(t0, tcur, tnew);
                    lemma_views_stable(tokens@, tcur, tnew);
                    let more = scan(ms, t0, text, chars_pos + n, bytes_pos + len);
                    assert(scan(ms, t0, text, chars_pos as int, bytes_pos as int) == after(seq![tv], more));
                    assert(views(tokens@.push(tok), tnew) =~= views(tokens@, tnew).push(tv));
                    match more {
                        Ok(m) => {
                            assert(views(tokens@, tnew) + (seq![tv] + m) =~= views(tokens@, tnew).push(tv) + m);
                        },
                        Err(_) => {},
                    }
                }
                chars_pos += n;
                bytes_pos += len;
                let ghost prev = tokens@;
                tokens.push(tok);
                proof {
                    crate::text::lemma_blen_take_mono(text, chars_pos as int, text.len() as int);
                    assert forall|i: int| 0 <= i < tokens@.len() implies #[trigger] tokens@[i].resolves_in(tnew) by {
                        if i < tokens@.len() - 1 {
                            assert(tokens@[i] == prev[i]);
                        }
                    }
                }
            },
        }
    }
    proof {
        if chars_pos < text.len() {
            crate::text::lemma_blen_take_mono(text, chars_pos as int, text.len() as int);
            assert(text.take(text.len() as int) =~= text);
        }
        assert(views(tokens@, interner.strings()) + Seq::<TokenView>::empty() =~= views(tokens@, interner.strings()));
    }
    Ok(tokens)
}

/// The bytes that the spans of `toks` cover, concatenated in order.
pub open spec fn spans_concat(bytes: Seq<u8>, toks: Seq<TokenView>) -> Seq<u8>
    decreases toks.len(),
{
    if toks.len() == 0 {
        seq![]
    } else {
        bytes.subrange(toks[0].2.from as int, toks[0].2.end as int) + spans_concat(
            bytes,
            toks.drop_first(),
        )
    }
}

/// The spans of `toks` follow one another from byte `from` to byte `end`:
/// each is non-empty and starts where the previous one ends.
pub open spec fn spans_chain(toks: Seq<TokenView>, from: int, end: int) -> bool
    decreases toks.len(),
{
    if toks.len() == 0 {
        from == end
    } else {
        &&& toks[0].2.from == from
        &&& toks[0].2.from < toks[0].2.end
        &&& spans_chain(toks.drop_first(), toks[0].2.end as int, end)
    }
}

proof fn lemma_scan_chain(ms: Seq<Matcher>, t: Seq<Seq<char>>, text: Seq<char>, cpos: int, toks: Seq<TokenView>)
    requires
        0 <= cpos <= text.len(),
        blen(text) < usize::MAX,
        scan(ms, t, text, cpos, blen(text.take(cpos)) as int) == Ok::<Seq<TokenView>, (TokenizeErrorReason, int)>(toks),
    ensures
        spans_chain(toks, blen(text.take(cpos)) as int, blen(text) as int),
    decreases text.len() - cpos,
{
    let bpos = blen(text.take(cpos)) as int;
    assert(text.take(text.len() as int) =~= text);
    if cpos < text.len() {
        let rest = text.skip(cpos);
        assert(text.take(cpos) + rest =~= text);
        crate::text::lemma_encode_concat(text.take(cpos), rest);
        lemma_first_match_placed(ms, 0, t, rest, bpos);
        let tv = first_match(ms, 0, t, rest, bpos)->0->Ok_0;
        let len = tv.2.end - tv.2.from;
        let head = chars_between(rest, 0, len);
        let n = head.len() as int;
        lemma_advance(text, cpos, head, len);
        let m = scan(ms, t, text, cpos + n, bpos + len)->Ok_0;
        lemma_scan_chain(ms, t, text, cpos + n, m);
        assert(toks =~= seq![tv] + m);
        assert(toks.drop_first() =~= m);
    }
}

proof fn lemma_scan_tiles(ms: Seq<Matcher>, t: Seq<Seq<char>>, text: Seq<char>, cpos: int, toks: Seq<TokenView>)
    requires
        0 <= cpos <= text.len(),
        blen(text) < usize::MAX,
        scan(ms, t, text, cpos, blen(text.take(cpos)) as int) == Ok::<Seq<TokenView>, (TokenizeErrorReason, int)>(toks),
    ensures
        spans_concat(vstd::utf8::encode_utf8(text), toks) == vstd::utf8::encode_utf8(text).subrange(
            blen(text.take(cpos)) as int,
            blen(text) as int,
        ),
    decreases text.len() - cpos,
{
    let bytes = vstd::utf8::encode_utf8(text);
    let bpos = blen(text.take(cpos)) as int;
    assert(text.take(text.len() as int) =~= text);
    if cpos == text.len() {
        assert(bytes.subrange(bpos, blen(text) as int) =~= Seq::<u8>::empty());
    } else {
        let rest = text.skip(cpos);
        assert(text.take(cpos) + rest =~= text);
        crate::text::lemma_encode_concat(text.take(cpos), rest);
        lemma_first_match_placed(ms, 0, t, rest, bpos);
        let tv = first_match(ms, 0, t, rest, bpos)->0->Ok_0;
        let len = tv.2.end - tv.2.from;
        let head = chars_between(rest, 0, len);
        let n = head.len() as int;
        lemma_advance(text, cpos, head, len);
        let more = scan(ms, t, text, cpos + n, bpos + len);
        let m = more->Ok_0;
        lemma_scan_tiles(ms, t, text, cpos + n, m);
        assert(toks =~= seq![tv] + m);
        assert(toks.drop_first() =~= m);
        crate::text::lemma_blen_take_mono(text, cpos + n, text.len() as int);
        assert(bytes.subrange(bpos, bpos + len) + bytes.subrange(bpos + len, blen(text) as int)
            =~= bytes.subrange(bpos, blen(text) as int));
    }
}

/// Round trip: the spans of the tokens of a successful scan, concatenated in
/// order, are exactly the bytes of the source, with no gap and no overlap:
/// the first starts at 0, each starts where the previous one ends, and the
/// last ends at the end of the source.
pub proof fn lemma_scan_round_trip(ms: Seq<Matcher>, t: Seq<Seq<char>>, text: Seq<char>, toks: Seq<TokenView>)
    requires
        blen(text) < usize::MAX,
        scan(ms, t, text, 0, 0) == Ok::<Seq<TokenView>, (TokenizeErrorReason, int)>(toks),
    ensures
        spans_concat(vstd::utf8::encode_utf8(text), toks) == vstd::utf8::encode_utf8(text),
        spans_chain(toks, 0, blen(text) as int),
{
    assert(text.take(0) =~= Seq::<char>::empty());
    assert(vstd::utf8::encode_utf8(Seq::<char>::empty()) =~= Seq::<u8>::empty());
    lemma_scan_tiles(ms, t, text, 0, toks);
    lemma_scan_chain(ms, t, text, 0, toks);
    assert(vstd::utf8::encode_utf8(text).subrange(0, blen(text) as int) =~= vstd::utf8::encode_utf8(text));
}

/// A matcher that wins with a zero-length token stops the scan with
/// `ZeroLenToken` at that position, wherever it is.
pub proof fn lemma_zero_len_token(ms: Seq<Matcher>, t: Seq<Seq<char>>, text: Seq<char>, cpos: int, bpos: int, tv: TokenView)
    requires
        0 <= cpos < text.len(),
        first_match(ms, 0, t, text.skip(cpos), bpos) == Some(Ok::<TokenView, TokenizeErrorReason>(tv)),
        tv.2.end == tv.2.from,
    ensures
        scan(ms, t, text, cpos, bpos) == Err::<Seq<TokenView>, (TokenizeErrorReason, int)>((TokenizeErrorReason::ZeroLenToken, cpos)),
{
}

/// Names of layout tokens that a parser does not want: blanks, newlines and
/// line comments.
pub open spec fn is_layout(name: Seq<char>) -> bool {
    name == "newline"@ || name == "sp"@ || name == "sharp_line_comment"@ || name == "slash_line_comment"@
}

/// The tokens of `toks` that are not layout, in order.
pub open spec fn without_layout(toks: Seq<Token>, t: Seq<Seq<char>>) -> Seq<Token> {
    toks.filter(|tok: Token| !is_layout(t[tok.name.index() as int]))
}

/// Drops layout tokens (blanks, newlines, line comments) from a successful
/// scan; a failure is passed on.
pub fn trim(interner: &Interner, res: Result<Vec<Token>, TokenizeError>) -> (r: Result<Vec<Token>, TokenizeError>)
    requires
        res matches Ok(toks) ==> all_resolve(toks@, interner.strings()),
    ensures
        match res {
            Ok(toks) => r matches Ok(out) && out@ == without_layout(toks@, interner.strings()),
            Err(e) => r matches Err(e2) && e2 == e,
        },
{
    match res {
        Err(e) => Err(e),
        Ok(toks) => {
            let ghost t = interner.strings();
            let layout: [&str; 4] = ["newline", "sp", "sharp_line_comment", "slash_line_comment"];
            let mut out: Vec<Token> = Vec::new();
            let mut i: usize = 0;
            proof {
                reveal(Seq::filter);
                assert(toks@.take(0) =~= Seq::<Token>::empty());
            }
            while i < toks.len()
                invariant
                    t == interner.strings(),
                    all_resolve(toks@, t),
                    i <= toks@.len(),
                    layout@ == seq!["newline", "sp", "sharp_line_comment", "slash_line_comment"],
                    out@ == without_layout(toks@.take(i as int), t),
                decreases toks@.len() - i,
            {
                let tok = toks[i];
                assert(tok.resolves_in(t));
                let drop = tok.check_names_in(interner, layout.as_slice());
                proof {
                    reveal(Seq::filter);
                    assert(toks@.take(i + 1).drop_last() =~= toks@.take(i as int));
                    assert(toks@.take(i + 1).last() == tok);
                    assert(without_layout(toks@.take(i + 1), t) == if !is_layout(t[tok.name.index() as int]) {
                        without_layout(toks@.take(i as int), t).push(tok)
                    } else {
                        without_layout(toks@.take(i as int), t)
                    });
                    let n = t[tok.name.index() as int];
                    assert(drop == is_layout(n)) by {
                        if is_layout(n) {
                            if n == "newline"@ { assert(layout@[0]@ == n); }
                            else if n == "sp"@ { assert(layout@[1]@ == n); }
                            else if n == "sharp_line_comment"@ { assert(layout@[2]@ == n); }
                            else { assert(layout@[3]@ == n); }
                        }
                    }
                }
                if !drop {
                    out.push(tok);
                }
                i += 1;
            }
            assert(toks@.take(toks@.len() as int) =~= toks@);
            Ok(out)
        },
    }
}

/// The pattern a rule's pattern becomes: anchored at the start of the text,
/// with the whole of it as group 1.
pub open spec fn anchored(p: Seq<char>) -> Seq<char> {
    seq!['^', '('] + p + seq![')']
}

/// What a rule of a rule table stands for.
pub enum RuleKind<'a> {
    /// A regular expression, anchored at the start of the text; its whole
    /// match is the value.
    Pattern(&'a str),
    /// The built-in matcher of the rule's name: `dqstr`, `aqstr`, `sqstr`,
    /// `lit_regex` or `heredoc`.
    Builtin,
    /// A delimited literal with the given prefix, postfix and escape
    /// character, named after the rule.
    Delimited(&'a str, &'a str, char),
}

/// A rule without a pattern names one of the built-in matchers: `dqstr`,
/// `aqstr`, `sqstr`, `lit_regex` or `heredoc` (whose pattern must compile).
pub open spec fn builtin_ok(name: Seq<char>) -> bool {
    ||| name == "dqstr"@
    ||| name == "aqstr"@
    ||| name == "sqstr"@
    ||| name == "lit_regex"@
    ||| (name == "heredoc"@ && crate::pattern::fancy_compiles(crate::matchers::HEREDOC_PATTERN@))
}

/// `m` is the built-in matcher called `name`.
pub open spec fn builtin_matcher(m: Matcher, name: Seq<char>) -> bool {
    match m {
        Matcher::DqStr => name == "dqstr"@,
        Matcher::AqStr => name == "aqstr"@,
        Matcher::SqStr => name == "sqstr"@,
        Matcher::LitRegex => name == "lit_regex"@,
        Matcher::Heredoc(p) => name == "heredoc"@ && p.source() == crate::matchers::HEREDOC_PATTERN@,
        _ => false,
    }
}

/// A rule can be built: its pattern, anchored, compiles; a built-in name is
/// known; a delimited literal has a postfix.
pub open spec fn rule_ok(name: Seq<char>, kind: RuleKind) -> bool {
    match kind {
        RuleKind::Pattern(p) => crate::pattern::regex_compiles(anchored(p@)),
        RuleKind::Builtin => builtin_ok(name),
        RuleKind::Delimited(_, q, _) => q@.len() >= 1,
    }
}

/// `m` is the matcher of the rule `(name, kind)`, its name resolved in `t`.
pub open spec fn rule_matcher(m: Matcher, name: Seq<char>, kind: RuleKind, t: Seq<Seq<char>>) -> bool {
    match kind {
        RuleKind::Pattern(p) => match m {
            Matcher::Regex(tm) => tm.pattern() == anchored(p@) && t[tm.name_symbol().index() as int]
                == name,
            _ => false,
        },
        RuleKind::Builtin => builtin_matcher(m, name),
        RuleKind::Delimited(p, q, e) => match m {
            Matcher::Delimited { prefix, postfix, escape, name: n } => prefix@ == p@ && postfix@
                == q@ && escape == e && n@ == name,
            _ => false,
        },
    }
}

/// The built-in matcher called `name`, if there is one.
fn builtin(name: &str) -> (r: Option<Matcher>)
    ensures
        r is Some <==> builtin_ok(name@),
        r matches Some(m) ==> builtin_matcher(m, name@),
{
    if str_eq(name, "dqstr") {
        Some(Matcher::DqStr)
    } else if str_eq(name, "aqstr") {
        Some(Matcher::AqStr)
    } else if str_eq(name, "sqstr") {
        Some(Matcher::SqStr)
    } else if str_eq(name, "lit_regex") {
        Some(Matcher::LitRegex)
    } else if str_eq(name, "heredoc") {
        Matcher::heredoc()
    } else {
        None
    }
}

/// Builds the matcher list of a rule table, in order. A pattern rule
/// becomes a regular-expression matcher named after the rule, its pattern
/// anchored at the start of the text with the whole match as the value; a
/// built-in rule puts the built-in matcher of that name at that place; a
/// delimited rule puts a delimited-literal matcher there. `None` when a
/// pattern does not compile, a name is no built-in matcher, or a delimited
/// rule has an empty postfix.
pub fn make_token_matcher_rules(interner: &mut Interner, rules: &[(&str, RuleKind)]) -> (r: Option<
    Vec<Matcher>,
>)
    requires
        old(interner).wf(),
        old(interner).strings().len() + rules@.len() < u32::MAX,
    ensures
        final(interner).wf(),
        old(interner).strings().is_prefix_of(final(interner).strings()),
        r is Some <==> forall|i: int|
            0 <= i < rules@.len() ==> rule_ok(#[trigger] rules@[i].0@, rules@[i].1),
        r matches Some(ms) ==> {
            &&& ms@.len() == rules@.len()
            &&& all_ready(ms@, final(interner).strings())
            &&& forall|i: int|
                0 <= i < ms@.len() ==> rule_matcher(
                    #[trigger] ms@[i],
                    rules@[i].0@,
                    rules@[i].1,
                    final(interner).strings(),
                )
        },
{
    let ghost t0 = interner.strings();
    let mut out: Vec<Matcher> = Vec::new();
    let mut i: usize = 0;
    proof {
        crate::symbol::lemma_prefix_refl(t0);
    }
    while i < rules.len()
        invariant
            t0 == old(interner).strings(),
            interner.wf(),
            t0.is_prefix_of(interner.strings()),
            interner.strings().len() <= t0.len() + i,
            t0.len() + rules@.len() < u32::MAX,
            i <= rules@.len(),
            out@.len() == i,
            forall|k: int| 0 <= k < i ==> rule_ok(#[trigger] rules@[k].0@, rules@[k].1),
            all_ready(out@, interner.strings()),
            forall|k: int|
                0 <= k < i ==> rule_matcher(
                    #[trigger] out@[k],
                    rules@[k].0@,
                    rules@[k].1,
                    interner.strings(),
                ),
        decreases rules@.len() - i,
    {
        let name = rules[i].0;
        let ghost tb = interner.strings();
        let m = match &rules[i].1 {
            RuleKind::Pattern(pat) => {
                let mut anchored_pat = String::new();
                crate::text::push_char(&mut anchored_pat, '^');
                crate::text::push_char(&mut anchored_pat, '(');
                anchored_pat.append(pat);
                crate::text::push_char(&mut anchored_pat, ')');
                assert(anchored_pat@ =~= anchored(pat@));
                match TokenMatcher::new(interner, anchored_pat.as_str(), name) {
                    Some(m) => {
                        proof {
                            crate::symbol::lemma_intern_resolves(tb, name@);
                        }
                        Matcher::Regex(m)
                    },
                    None => {
                        proof {
                            crate::matchers::lemma_prefix_trans(t0, tb, interner.strings());
                            assert(!rule_ok(rules@[i as int].0@, rules@[i as int].1));
                        }
                        return None;
                    },
                }
            },
            RuleKind::Builtin => {
                match builtin(name) {
                    Some(m) => {
                        proof {
                            crate::symbol::lemma_prefix_refl(tb);
                        }
                        m
                    },
                    None => {
                        assert(!rule_ok(rules@[i as int].0@, rules@[i as int].1));
                        return None;
                    },
                }
            },
            RuleKind::Delimited(p, q, e) => {
                if q.is_empty() {
                    assert(!rule_ok(rules@[i as int].0@, rules@[i as int].1));
                    return None;
                }
                proof {
                    crate::symbol::lemma_prefix_refl(tb);
                }
                Matcher::Delimited {
                    prefix: (*p).to_owned(),
                    postfix: (*q).to_owned(),
                    escape: *e,
                    name: name.to_owned(),
                }
            },
        };
        proof {
            lemma_prefix_at(tb, interner.strings());
            crate::matchers::lemma_prefix_trans(t0, tb, interner.strings());
            assert forall|k: int| 0 <= k < i implies #[trigger] out@[k].ready(interner.strings()) by {
                assert(out@[k].ready(tb));
            }
        }
        out.push(m);
        proof {
            assert forall|k: int| 0 <= k < i + 1 implies rule_matcher(
                #[trigger] out@[k],
                rules@[k].0@,
                rules@[k].1,
                interner.strings(),
            ) by {
                if k < i {
                    assert(rule_matcher(out@[k], rules@[k].0@, rules@[k].1, tb));
                    assert(out@[k].ready(tb));
                } else {
                    assert(out@[k] == m);
                }
            }
        }
        i += 1;
    }
    Some(out)
}

} // verus!
