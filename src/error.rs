//! Tokenization failures: why scanning stopped, where, and a rendering that
//! points at the offending character.

use vstd::prelude::*;
use vstd::string::StringExecFns;
use crate::source::{char_line, char_loc, SrcFileInfo, SrcLoc};
use crate::text::{decimal, decimal_string, push_char, repeat_char};

verus! {

/// Why scanning stopped.
#[derive(Clone, Copy, PartialEq, Eq, Structural, Debug)]
pub enum TokenizeErrorReason {
    /// No matcher matched at the position.
    UnrecognizedToken,
    /// An escape character was followed by a character that cannot be escaped.
    UnrecognizedEscaped(char),
    /// A closing delimiter was not followed by the rest of its postfix.
    UnexpectedPostfix,
    /// A matcher matched no text at all.
    ZeroLenToken,
}

/// Hexadecimal notation of `n`, lower case, without leading zeros.
pub open spec fn hex(n: nat) -> Seq<char>
    decreases n,
{
    if n < 16 {
        seq![hex_digit(n)]
    } else {
        hex(n / 16).push(hex_digit(n % 16))
    }
}

/// The hexadecimal digit for `d < 16`.
pub open spec fn hex_digit(d: nat) -> char {
    if d < 10 {
        ((d + 48) as u8) as char
    } else {
        ((d + 87) as u8) as char
    }
}

/// A character as it stands between single quotes: the quote, the
/// backslash, NUL, tab, carriage return and newline get backslash escapes,
/// other ASCII control characters are written `\u{..}` in hexadecimal, and
/// every other character stands as it is.
pub open spec fn char_escaped(c: char) -> Seq<char> {
    if c == '\0' {
        seq!['\\', '0']
    } else if c == '\t' {
        seq!['\\', 't']
    } else if c == '\r' {
        seq!['\\', 'r']
    } else if c == '\n' {
        seq!['\\', 'n']
    } else if c == '\'' {
        seq!['\\', '\'']
    } else if c == '\\' {
        seq!['\\', '\\']
    } else if (c as u32) < 32 || (c as u32) == 127 {
        seq!['\\', 'u', '{'] + hex(c as u32 as nat) + seq!['}']
    } else {
        seq![c]
    }
}

fn hex_string(n: u32) -> (r: String)
    ensures
        r@ == hex(n as nat),
    decreases n,
{
    let d = (n % 16) as u8;
    let ch = if d < 10 {
        (d + 48) as char
    } else {
        (d + 87) as char
    };
    if n < 16 {
        let mut out = String::new();
        push_char(&mut out, ch);
        assert(out@ =~= hex(n as nat));
        out
    } else {
        let mut out = hex_string(n / 16);
        push_char(&mut out, ch);
        out
    }
}

/// Writes `c` as it stands between single quotes.
pub fn escape_char(c: char) -> (r: String)
    ensures
        r@ == char_escaped(c),
{
    let mut out = String::new();
    let v = c as u32;
    if c == '\0' || c == '\t' || c == '\r' || c == '\n' || c == '\'' || c == '\\' {
        push_char(&mut out, '\\');
        let e = if c == '\0' {
            '0'
        } else if c == '\t' {
            't'
        } else if c == '\r' {
            'r'
        } else if c == '\n' {
            'n'
        } else {
            c
        };
        push_char(&mut out, e);
        assert(out@ =~= char_escaped(c));
    } else if v < 32 || v == 127 {
        push_char(&mut out, '\\');
        push_char(&mut out, 'u');
        push_char(&mut out, '{');
        let h = hex_string(v);
        out.append(h.as_str());
        push_char(&mut out, '}');
        assert(out@ =~= char_escaped(c));
    } else {
        push_char(&mut out, c);
        assert(out@ =~= char_escaped(c));
    }
    out
}

/// The name of a reason, as it heads a rendered error.
pub open spec fn reason_text(r: TokenizeErrorReason) -> Seq<char> {
    match r {
        TokenizeErrorReason::UnrecognizedToken => "UnrecognizedToken"@,
        TokenizeErrorReason::UnrecognizedEscaped(c) => "UnrecognizedEscaped('"@ + char_escaped(c) + "')"@,
        TokenizeErrorReason::UnexpectedPostfix => "UnexpectedPostfix"@,
        TokenizeErrorReason::ZeroLenToken => "ZeroLenToken"@,
    }
}

impl TokenizeErrorReason {
    /// The name of the reason, with the offending character where there is one.
    pub fn describe(&self) -> (r: String)
        ensures
            r@ == reason_text(*self),
    {
        match self {
            TokenizeErrorReason::UnrecognizedToken => "UnrecognizedToken".to_owned(),
            TokenizeErrorReason::UnrecognizedEscaped(c) => {
                let mut out = "UnrecognizedEscaped('".to_owned();
                let esc = escape_char(*c);
                out.append(esc.as_str());
                out.append("')");
                out
            },
            TokenizeErrorReason::UnexpectedPostfix => "UnexpectedPostfix".to_owned(),
            TokenizeErrorReason::ZeroLenToken => "ZeroLenToken".to_owned(),
        }
    }
}

/// A failed scan: the reason, the character offset where it happened, and the
/// source it happened in.
#[derive(Debug)]
pub struct TokenizeError {
    reason: TokenizeErrorReason,
    start: usize,
    src: SrcFileInfo,
}

/// The diagnostic text: the reason, a blank line, the offending line, a caret
/// under the offending column followed by dashes to the end of the line, and
/// a `--> path:line:col` locator.
pub open spec fn rendering(
    reason: TokenizeErrorReason,
    path: Seq<char>,
    text: Seq<char>,
    start: int,
) -> Seq<char> {
    let loc = char_loc(text, start);
    let line = char_line(text, start);
    let rest = if line.len() >= loc.1 { line.len() - loc.1 } else { 0 };
    reason_text(reason) + ":\n\n"@ + line + "\n"@ + Seq::new((loc.1 - 1) as nat, |_i: int| ' ')
        + "^"@ + Seq::new(rest as nat, |_i: int| '-') + "\n--> "@ + path + ":"@ + decimal(
        loc.0 as nat,
    ) + ":"@ + decimal(loc.1 as nat) + "\n"@
}

impl TokenizeError {
    pub fn new(reason: TokenizeErrorReason, start: usize, src: SrcFileInfo) -> (r: Self)
        ensures
            r.reason() == reason,
            r.start() == start,
            r.src() == src,
    {
        TokenizeError { reason, start, src }
    }

    pub closed spec fn reason(&self) -> TokenizeErrorReason {
        self.reason
    }

    pub closed spec fn start(&self) -> usize {
        self.start
    }

    pub closed spec fn src(&self) -> SrcFileInfo {
        self.src
    }

    pub fn get_reason(&self) -> (r: TokenizeErrorReason)
        ensures
            r == self.reason(),
    {
        self.reason
    }

    /// Character offset of the failure.
    pub fn get_start(&self) -> (r: usize)
        ensures
            r == self.start(),
    {
        self.start
    }

    pub fn get_src(&self) -> (r: &SrcFileInfo)
        ensures
            *r == self.src(),
    {
        &self.src
    }

    /// Line and column of the failure.
    pub fn location(&self) -> (r: SrcLoc)
        requires
            self.src().wf(),
            self.start() < usize::MAX,
        ensures
            (r.ln as int, r.col as int) == char_loc(self.src().text(), self.start() as int),
    {
        self.src.offset2srcloc(self.start)
    }

    /// The diagnostic text of the failure.
    pub fn render(&self) -> (r: String)
        requires
            self.src().wf(),
            self.start() < usize::MAX,
        ensures
            r@ == rendering(self.reason(), self.src().path(), self.src().text(), self.start() as int),
    {
        let loc = self.src.offset2srcloc(self.start);
        proof {
            crate::source::lemma_char_loc_bounds(self.src.text(), self.start as int);
        }
        let line = self.src.char_line_text(self.start);
        let line_len = line.unicode_len();
        let rest = if line_len >= loc.col {
            line_len - loc.col
        } else {
            0
        };
        let mut out = self.reason.describe();
        out.append(":\n\n");
        out.append(line);
        out.append("\n");
        let spaces = repeat_char(' ', loc.col - 1);
        out.append(spaces.as_str());
        out.append("^");
        let dashes = repeat_char('-', rest);
        out.append(dashes.as_str());
        out.append("\n--> ");
        out.append(self.src.get_path());
        out.append(":");
        let ln = decimal_string(loc.ln);
        out.append(ln.as_str());
        out.append(":");
        let col = decimal_string(loc.col);
        out.append(col.as_str());
        out.append("\n");
        out
    }
}

} // verus!
