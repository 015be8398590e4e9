//! A lexical-analysis toolkit: positioned source text, symbol interning, an
//! ordered-matcher tokenizer and a character-level state-machine tokenizer.

pub mod dfa;
pub mod engine;
pub mod error;
pub mod matchers;
pub mod pattern;
pub mod source;
pub mod symbol;
pub mod text;
pub mod token;

pub use dfa::{
    make_char_matcher_rules, tokenize2, CharMatcher, CharPredicate, LexDFA, LexDFAMap,
    RegexCharMatcher, SimpleCharMatcher, TokenRecognizer, Transition, ENTRY_ST,
};
pub use engine::{make_token_matcher_rules, tokenize, trim, Matcher, RuleKind};
pub use error::{TokenizeError, TokenizeErrorReason};
pub use matchers::{
    aqstr_m, aux_strlike_m, dqstr_m, heredoc_m, lit_regex_m, sqstr_m, TokenMatchResult, TokenMatcher,
    HEREDOC_PATTERN,
};
pub use pattern::{FancyPattern, Pattern};
pub use source::{SrcFileInfo, SrcLoc};
pub use symbol::{str2sym, sym2str, Interner, Symbol};
pub use token::{Span, Token};
