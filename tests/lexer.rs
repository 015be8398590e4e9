use m6lexerkit::matchers::{heredoc_from_groups, heredoc_with, token_from_groups};
use m6lexerkit::dfa::span_token;
use m6lexerkit::{
    RuleKind,
    FancyPattern, HEREDOC_PATTERN, make_char_matcher_rules, make_token_matcher_rules, aqstr_m, aux_strlike_m, dqstr_m, heredoc_m, lit_regex_m, sqstr_m, str2sym, sym2str, tokenize,
    tokenize2, trim, CharMatcher, CharPredicate, Interner, LexDFA, LexDFAMap, Matcher, Pattern,
    RegexCharMatcher, SimpleCharMatcher, Span, SrcFileInfo, SrcLoc, Symbol, Token, TokenMatcher,
    TokenRecognizer, TokenizeError, TokenizeErrorReason, Transition,
};

fn names_and_values(interner: &Interner, toks: &[Token]) -> Vec<(String, String)> {
    toks.iter()
        .map(|t| (t.name_string(interner), t.value_string(interner)))
        .collect()
}

fn regex_matcher(interner: &mut Interner, pat: &str, name: &str) -> Matcher {
    Matcher::Regex(TokenMatcher::new(interner, pat, name).unwrap())
}

fn expect_err(res: Result<Vec<Token>, TokenizeError>) -> TokenizeError {
    match res {
        Ok(_) => panic!("expected a tokenize error"),
        Err(e) => e,
    }
}

#[test]
fn test_error_info() {
    println!("aaaa\n^^^^^")
}

#[test]
fn intern_is_idempotent() {
    let mut interner = Interner::new();
    let a = str2sym(&mut interner, "ident");
    let b = str2sym(&mut interner, "ident");
    let c = str2sym(&mut interner, "other");
    assert_eq!(a, b);
    assert_ne!(a, c);
    assert_eq!(sym2str(&interner, a), "ident");
    assert_eq!(interner.resolve(c), Some("other"));
}

#[test]
fn resolve_of_unknown_symbol_is_none() {
    let mut big = Interner::new();
    str2sym(&mut big, "a");
    let second = str2sym(&mut big, "b");
    let small = Interner::new();
    assert_eq!(small.resolve(second), None);
}

#[test]
fn empty_source_yields_no_tokens() {
    let mut interner = Interner::new();
    let m = regex_matcher(&mut interner, r"^(\d+)", "num");
    let src = SrcFileInfo::from_str(String::new());
    let toks = tokenize(&mut interner, &src, &[m]).unwrap();
    assert!(toks.is_empty());
}

#[test]
fn zero_length_match_is_an_error() {
    let mut interner = Interner::new();
    let a = regex_matcher(&mut interner, r"^(a*)", "as");
    let src = SrcFileInfo::from_str("b".to_string());
    let e = expect_err(tokenize(&mut interner, &src, &[a]));
    assert_eq!(e.get_reason(), TokenizeErrorReason::ZeroLenToken);
    assert_eq!(e.get_start(), 0);
}

#[test]
fn zero_length_match_later_in_the_text() {
    let mut interner = Interner::new();
    let b = regex_matcher(&mut interner, r"^(b)", "b");
    let a = regex_matcher(&mut interner, r"^(a*)", "as");
    let src = SrcFileInfo::from_str("bbc".to_string());
    let e = expect_err(tokenize(&mut interner, &src, &[b, a]));
    assert_eq!(e.get_reason(), TokenizeErrorReason::ZeroLenToken);
    assert_eq!(e.get_start(), 2);
}

#[test]
fn longer_operator_listed_first_wins() {
    let mut interner = Interner::new();
    let inc = regex_matcher(&mut interner, r"^(\+\+)", "inc");
    let add = regex_matcher(&mut interner, r"^(\+)", "add");
    let src = SrcFileInfo::from_str("++".to_string());
    let toks = tokenize(&mut interner, &src, &[inc, add]).unwrap();
    assert_eq!(toks.len(), 1);
    assert_eq!(toks[0].name_string(&interner), "inc");
    assert_eq!(toks[0].value_string(&interner), "++");
    assert_eq!(toks[0].span, Span { from: 0, end: 2 });
}

#[test]
fn shorter_operator_listed_first_shadows() {
    let mut interner = Interner::new();
    let add = regex_matcher(&mut interner, r"^(\+)", "add");
    let inc = regex_matcher(&mut interner, r"^(\+\+)", "inc");
    let src = SrcFileInfo::from_str("++".to_string());
    let toks = tokenize(&mut interner, &src, &[add, inc]).unwrap();
    assert_eq!(
        names_and_values(&interner, &toks),
        vec![("add".to_string(), "+".to_string()), ("add".to_string(), "+".to_string())]
    );
}

#[test]
fn quoted_string_resolves_escaped_delimiter() {
    let mut interner = Interner::new();
    let input = "\"ab\\\"c\"";
    let tok = dqstr_m(&mut interner, input, 0).unwrap().unwrap();
    assert_eq!(tok.name_string(&interner), "dqstr");
    assert_eq!(tok.value_string(&interner), "ab\"c");
    assert_eq!(tok.span, Span { from: 0, end: input.len() });
    assert_eq!(input.len(), 7);
}

#[test]
fn quoted_string_span_is_offset_by_start() {
    let mut interner = Interner::new();
    let tok = sqstr_m(&mut interner, "'x' rest", 10).unwrap().unwrap();
    assert_eq!(tok.name_string(&interner), "sqstr");
    assert_eq!(tok.value_string(&interner), "x");
    assert_eq!(tok.span, Span { from: 10, end: 13 });
}

#[test]
fn back_quoted_string_with_escaped_escape() {
    let mut interner = Interner::new();
    let tok = aqstr_m(&mut interner, "`a\\\\b`", 0).unwrap().unwrap();
    assert_eq!(tok.name_string(&interner), "aqstr");
    assert_eq!(tok.value_string(&interner), "a\\b");
    assert_eq!(tok.span, Span { from: 0, end: 6 });
}

#[test]
fn quoted_string_needs_its_prefix() {
    let mut interner = Interner::new();
    assert!(dqstr_m(&mut interner, "abc", 0).is_none());
}

#[test]
fn unterminated_string_is_no_match() {
    let mut interner = Interner::new();
    assert!(dqstr_m(&mut interner, "\"abc", 0).is_none());
}

#[test]
fn unknown_escape_is_an_error() {
    let mut interner = Interner::new();
    let r = dqstr_m(&mut interner, "\"a\\nb\"", 0).unwrap();
    assert!(matches!(r, Err(TokenizeErrorReason::UnrecognizedEscaped('n'))));
}

#[test]
fn multi_character_postfix_must_follow() {
    let mut interner = Interner::new();
    let ok = aux_strlike_m(&mut interner, "r#\"a\"#!", 0, "r#\"", "\"#", '\\')
        .unwrap()
        .unwrap();
    assert_eq!(ok.name_string(&interner), "__aux_tmp");
    assert_eq!(ok.value_string(&interner), "a");
    assert_eq!(ok.span, Span { from: 0, end: 6 });
    let bad = aux_strlike_m(&mut interner, "r#\"a\"x", 0, "r#\"", "\"#", '\\').unwrap();
    assert!(matches!(bad, Err(TokenizeErrorReason::UnexpectedPostfix)));
}

#[test]
fn multibyte_string_span_counts_bytes() {
    let mut interner = Interner::new();
    let tok = dqstr_m(&mut interner, "\"é€\" tail", 3).unwrap().unwrap();
    assert_eq!(tok.value_string(&interner), "é€");
    assert_eq!(tok.span, Span { from: 3, end: 3 + 7 });
}

#[test]
fn regex_literal_with_flag() {
    let mut interner = Interner::new();
    let tok = lit_regex_m(&mut interner, "/a\\/b/g;", 0).unwrap().unwrap();
    assert_eq!(tok.name_string(&interner), "lit_regex");
    assert_eq!(tok.value_string(&interner), "/a\\/b/g");
    assert_eq!(tok.span, Span { from: 0, end: 7 });
}

#[test]
fn regex_literal_without_flag() {
    let mut interner = Interner::new();
    let tok = lit_regex_m(&mut interner, "/x+/ 1", 4).unwrap().unwrap();
    assert_eq!(tok.value_string(&interner), "/x+/");
    assert_eq!(tok.span, Span { from: 4, end: 8 });
}

#[test]
fn empty_regex_literal_is_left_to_comments() {
    let mut interner = Interner::new();
    assert!(lit_regex_m(&mut interner, "// comment", 0).is_none());
}

#[test]
fn heredoc_value_is_the_body() {
    let mut interner = Interner::new();
    let input = "<<EOF\nbody\nEOF";
    let tok = heredoc_m(&mut interner, input, 0).unwrap().unwrap();
    assert_eq!(tok.name_string(&interner), "heredoc");
    assert_eq!(tok.value_string(&interner), "body");
    assert_eq!(tok.span, Span { from: 0, end: input.len() });
}

#[test]
fn heredoc_absent_is_no_match() {
    let mut interner = Interner::new();
    assert!(heredoc_m(&mut interner, "echo hi", 0).is_none());
}

#[test]
fn tokens_tile_the_source() {
    let mut interner = Interner::new();
    let num = regex_matcher(&mut interner, r"^(\d+)", "num");
    let sp = regex_matcher(&mut interner, r"^([ ]+)", "sp");
    let text = "12 \"é\" 7";
    let src = SrcFileInfo::from_str(text.to_string());
    let toks = tokenize(&mut interner, &src, &[num, sp, Matcher::DqStr]).unwrap();
    let mut rebuilt = String::new();
    let mut pos = 0;
    for t in &toks {
        assert_eq!(t.span.from, pos);
        rebuilt.push_str(&text[t.span.from..t.span.end]);
        pos = t.span.end;
    }
    assert_eq!(rebuilt, text);
    assert_eq!(
        names_and_values(&interner, &toks),
        vec![
            ("num".to_string(), "12".to_string()),
            ("sp".to_string(), " ".to_string()),
            ("dqstr".to_string(), "é".to_string()),
            ("sp".to_string(), " ".to_string()),
            ("num".to_string(), "7".to_string()),
        ]
    );
}

#[test]
fn unrecognized_token_reports_character_offset() {
    let mut interner = Interner::new();
    let num = regex_matcher(&mut interner, r"^(\d+)", "num");
    let src = SrcFileInfo::from_str("é12x".to_string());
    let e = expect_err(tokenize(&mut interner, &src, &[Matcher::DqStr, num]));
    assert_eq!(e.get_reason(), TokenizeErrorReason::UnrecognizedToken);
    assert_eq!(e.get_start(), 0);
    let src = SrcFileInfo::from_str("12é".to_string());
    let num = regex_matcher(&mut interner, r"^(\d+)", "num");
    let e = expect_err(tokenize(&mut interner, &src, &[num]));
    assert_eq!(e.get_start(), 2);
    assert_eq!(e.location(), SrcLoc::new((1, 3)));
}

#[test]
fn matcher_failure_stops_the_scan() {
    let mut interner = Interner::new();
    let src = SrcFileInfo::from_str("\"a\\qb\"".to_string());
    let e = expect_err(tokenize(&mut interner, &src, &[Matcher::DqStr]));
    assert_eq!(e.get_reason(), TokenizeErrorReason::UnrecognizedEscaped('q'));
    assert_eq!(e.get_start(), 0);
}

#[test]
fn regex_value_is_first_group() {
    let mut interner = Interner::new();
    let m = TokenMatcher::new(&mut interner, r"^#(\w+)", "tag").unwrap();
    let tok = m.fetch_tok(&mut interner, "#abc def", 5).unwrap().unwrap();
    assert_eq!(tok.value_string(&interner), "abc");
    assert_eq!(tok.span, Span { from: 5, end: 9 });
}

#[test]
fn regex_match_must_start_at_the_text() {
    let mut interner = Interner::new();
    let m = TokenMatcher::new(&mut interner, r"(\d+)", "num").unwrap();
    assert!(m.fetch_tok(&mut interner, "ab12", 0).is_none());
}

#[test]
fn invalid_pattern_is_rejected() {
    let mut interner = Interner::new();
    assert!(TokenMatcher::new(&mut interner, r"(", "bad").is_none());
    assert!(RegexCharMatcher::new("[").is_none());
    assert!(Pattern::new("a(").is_none());
    assert_eq!(Pattern::new("a+").unwrap().as_str(), "a+");
}

#[test]
fn locate_by_character_offset() {
    let src = SrcFileInfo::from_str("ab\ncd\n\nx".to_string());
    assert_eq!(src.offset2srcloc(0), SrcLoc::new((1, 1)));
    assert_eq!(src.offset2srcloc(2), SrcLoc::new((1, 3)));
    assert_eq!(src.offset2srcloc(3), SrcLoc::new((2, 1)));
    assert_eq!(src.offset2srcloc(4), SrcLoc::new((2, 2)));
    assert_eq!(src.offset2srcloc(6), SrcLoc::new((3, 1)));
    assert_eq!(src.offset2srcloc(7), SrcLoc::new((4, 1)));
}

#[test]
fn locate_is_monotonic_on_a_sample() {
    let text = "é\nab€\n\nz";
    let src = SrcFileInfo::from_str(text.to_string());
    let mut prev = (0, 0);
    for off in 0..text.chars().count() {
        let l = src.offset2srcloc(off);
        assert!((l.ln, l.col) >= prev);
        prev = (l.ln, l.col);
    }
    let mut prev = (0, 0);
    for b in 0..=text.len() {
        if text.is_char_boundary(b) {
            let l = src.boffset2srcloc(b);
            assert!((l.ln, l.col) >= prev);
            prev = (l.ln, l.col);
        }
    }
}

#[test]
fn locate_by_byte_offset_counts_characters() {
    let src = SrcFileInfo::from_str("aé€b\nxy".to_string());
    assert_eq!(src.boffset2srcloc(0), SrcLoc::new((1, 1)));
    assert_eq!(src.boffset2srcloc(1), SrcLoc::new((1, 2)));
    assert_eq!(src.boffset2srcloc(3), SrcLoc::new((1, 3)));
    assert_eq!(src.boffset2srcloc(6), SrcLoc::new((1, 4)));
    assert_eq!(src.boffset2srcloc(8), SrcLoc::new((2, 1)));
    assert_eq!(src.boffset2srcloc(9), SrcLoc::new((2, 2)));
}

#[test]
fn line_text_includes_newline() {
    let src = SrcFileInfo::from_str("first\nsecond\nlast".to_string());
    assert_eq!(src.linestr(0), Some("first\n"));
    assert_eq!(src.linestr(7), Some("second\n"));
    assert_eq!(src.linestr(14), Some("last"));
    assert_eq!(src.char_line_text(8), "second");
}

#[test]
fn path_parts() {
    let src = SrcFileInfo::with_path("dir/sub/file.sh".to_string(), "x".to_string());
    assert_eq!(src.get_path(), "dir/sub/file.sh");
    assert_eq!(src.filename(), Some("file.sh".to_string()));
    assert_eq!(src.dirname(), Some("dir/sub".to_string()));
    assert_eq!(src.get_srcstr(), "x");
    let anon = SrcFileInfo::from_str("y".to_string());
    assert_eq!(anon.filename(), None);
}

#[test]
fn span_lengths() {
    let s = Span { from: 1, end: 6 };
    assert_eq!(s.len(), 5);
    assert_eq!(s.chars_count("aé€x"), 2);
}

#[test]
fn error_rendering_points_at_the_column() {
    let mut interner = Interner::new();
    let num = regex_matcher(&mut interner, r"^(\d+)", "num");
    let nl = regex_matcher(&mut interner, r"^(\n)", "newline");
    let src = SrcFileInfo::with_path("in.txt".to_string(), "12\n3?45\n".to_string());
    let e = expect_err(tokenize(&mut interner, &src, &[num, nl]));
    assert_eq!(e.get_start(), 4);
    assert_eq!(
        e.render(),
        "UnrecognizedToken:\n\n3?45\n ^--\n--> in.txt:2:2\n"
    );
    assert_eq!(e.get_src().get_srcstr(), "12\n3?45\n");
}

#[test]
fn reason_descriptions() {
    assert_eq!(TokenizeErrorReason::UnrecognizedEscaped('x').describe(), "UnrecognizedEscaped('x')");
    assert_eq!(TokenizeErrorReason::ZeroLenToken.describe(), "ZeroLenToken");
    assert_eq!(TokenizeErrorReason::UnexpectedPostfix.describe(), "UnexpectedPostfix");
}

#[test]
fn token_helpers() {
    let mut interner = Interner::new();
    let eof = Token::eof(&mut interner);
    assert!(eof.check_name(&interner, "eof"));
    assert!(eof.check_value(&interner, ""));
    assert_eq!(eof.span(), Span { from: 0, end: 0 });
    let t = eof.mapval(&mut interner, "héllo");
    assert_eq!(t.chars_len(&interner), 5);
    assert_eq!(t.span_len(), 0);
    let t = t.rename(&mut interner, "word");
    assert!(t.check_names_in(&interner, &["x", "word"]));
    assert!(!t.check_names_in(&interner, &["x", "y"]));
    assert!(t.check_values_in(&interner, &["héllo"]));
    let kw = t.mapval(&mut interner, "if").rename_by_value(&mut interner, &["while", "if"]);
    assert_eq!(kw.name_string(&interner), "if");
    let id = t.rename_by_value(&mut interner, &["while", "if"]);
    assert_eq!(id.name_string(&interner), "word");
    let s = Token { name: t.name, value: t.value, span: Span { from: 1, end: 3 } };
    assert_eq!(s.span_chars_count("aéb"), 1);
}

#[test]
fn trim_drops_layout_tokens() {
    let mut interner = Interner::new();
    let num = regex_matcher(&mut interner, r"^(\d+)", "num");
    let sp = regex_matcher(&mut interner, r"^([ ]+)", "sp");
    let nl = regex_matcher(&mut interner, r"^(\n)", "newline");
    let cm = regex_matcher(&mut interner, r"^(#.*)", "sharp_line_comment");
    let src = SrcFileInfo::from_str("1 2 # c\n3".to_string());
    let res = tokenize(&mut interner, &src, &[num, sp, nl, cm]);
    let toks = trim(&interner, res).unwrap();
    let vals: Vec<String> = toks.iter().map(|t| t.value_string(&interner)).collect();
    assert_eq!(vals, vec!["1", "2", "3"]);
}

fn digit() -> CharPredicate {
    CharPredicate::Regex(RegexCharMatcher::new("[0-9]").unwrap())
}

fn plus() -> CharPredicate {
    CharPredicate::Simple(SimpleCharMatcher::new("+"))
}

fn digit_op_table(interner: &mut Interner) -> (LexDFAMap<CharPredicate>, TokenRecognizer) {
    let entry = str2sym(interner, "Entry");
    let num: Symbol = str2sym(interner, "NUM");
    let op: Symbol = str2sym(interner, "OP");
    let mut map = LexDFAMap::new();
    map.insert(
        entry,
        vec![
            Transition { pred: digit(), next: num, boundary: false },
            Transition { pred: plus(), next: op, boundary: false },
        ],
    );
    map.insert(
        num,
        vec![
            Transition { pred: digit(), next: num, boundary: false },
            Transition { pred: plus(), next: op, boundary: true },
        ],
    );
    map.insert(
        op,
        vec![
            Transition { pred: digit(), next: num, boundary: true },
            Transition { pred: plus(), next: op, boundary: true },
        ],
    );
    let rec = TokenRecognizer {
        lookhead: 2,
        pat_items: vec![
            (Pattern::new("^[0-9]").unwrap(), num),
            (Pattern::new(r"^\+").unwrap(), op),
        ],
    };
    (map, rec)
}

#[test]
fn dfa_splits_numbers_and_operators() {
    let mut interner = Interner::new();
    let (map, rec) = digit_op_table(&mut interner);
    let src = SrcFileInfo::from_str("12+34".to_string());
    let toks = tokenize2(&mut interner, &src, &map, &rec).unwrap();
    assert_eq!(
        names_and_values(&interner, &toks),
        vec![
            ("NUM".to_string(), "12".to_string()),
            ("OP".to_string(), "+".to_string()),
            ("NUM".to_string(), "34".to_string()),
        ]
    );
    assert_eq!(toks[2].span, Span { from: 3, end: 5 });
}

#[test]
fn dfa_uncovered_character_is_unrecognized() {
    let mut interner = Interner::new();
    let (map, rec) = digit_op_table(&mut interner);
    let src = SrcFileInfo::from_str("3?".to_string());
    let e = expect_err(tokenize2(&mut interner, &src, &map, &rec));
    assert_eq!(e.get_reason(), TokenizeErrorReason::UnrecognizedToken);
    assert_eq!(e.get_start(), 1);
    assert_eq!(e.location(), SrcLoc::new((1, 2)));
}

#[test]
fn dfa_empty_source() {
    let mut interner = Interner::new();
    let (map, rec) = digit_op_table(&mut interner);
    let src = SrcFileInfo::from_str(String::new());
    assert!(tokenize2(&mut interner, &src, &map, &rec).unwrap().is_empty());
}

#[test]
fn dfa_forward_steps_states() {
    let mut interner = Interner::new();
    let (map, _) = digit_op_table(&mut interner);
    let mut dfa = LexDFA::new(&mut interner, &map);
    assert_eq!(dfa.forward('1'), Some(false));
    assert_eq!(dfa.forward('2'), Some(false));
    assert_eq!(dfa.forward('+'), Some(true));
    assert_eq!(dfa.forward('x'), None);
}

#[test]
fn recognizer_uses_the_lookahead_window() {
    let mut interner = Interner::new();
    let word = str2sym(&mut interner, "WORD");
    let rec = TokenRecognizer {
        lookhead: 2,
        pat_items: vec![(Pattern::new("^ab$").unwrap(), word)],
    };
    let tok = rec.recognize(&mut interner, "abcd", Span { from: 0, end: 4 }).unwrap();
    assert_eq!(tok.name_string(&interner), "WORD");
    assert_eq!(tok.value_string(&interner), "abcd");
    assert!(rec.recognize(&mut interner, "xabcd", Span { from: 1, end: 3 }).is_some());
    assert!(rec.recognize(&mut interner, "abcd", Span { from: 1, end: 4 }).is_none());
}

#[test]
fn char_matchers() {
    let s = SimpleCharMatcher::new("+=");
    assert!(s.is_match('+'));
    assert!(!s.is_match('='));
    let r = RegexCharMatcher::new("[a-c]").unwrap();
    assert!(r.is_match('b'));
    assert!(!r.is_match('d'));
}

#[test]
fn token_rules_become_anchored_matchers() {
    let mut interner = Interner::new();
    let ms = make_token_matcher_rules(
        &mut interner,
        &[
            ("inc", RuleKind::Pattern(r"\+\+")),
            ("add", RuleKind::Pattern(r"\+")),
            ("sp", RuleKind::Pattern("[[:blank:]]+")),
            ("dqstr", RuleKind::Builtin),
            ("num", RuleKind::Pattern(r"\d+")),
        ],
    )
    .unwrap();
    assert_eq!(ms.len(), 5);
    let src = SrcFileInfo::from_str("1 ++ 2+3 \"s\"".to_string());
    let toks = tokenize(&mut interner, &src, &ms).unwrap();
    let names: Vec<String> = toks.iter().map(|t| t.name_string(&interner)).collect();
    assert_eq!(names, vec!["num", "sp", "inc", "sp", "num", "add", "num", "sp", "dqstr"]);
    assert!(make_token_matcher_rules(&mut interner, &[("bad", RuleKind::Pattern("("))]).is_none());
    assert!(make_token_matcher_rules(&mut interner, &[("nosuch", RuleKind::Builtin)]).is_none());
    let all = make_token_matcher_rules(
        &mut interner,
        &[
            ("aqstr", RuleKind::Builtin),
            ("sqstr", RuleKind::Builtin),
            ("lit_regex", RuleKind::Builtin),
            ("heredoc", RuleKind::Builtin),
        ],
    )
    .unwrap();
    assert_eq!(all.len(), 4);
}

#[test]
fn char_rules_become_predicates() {
    let ps = make_char_matcher_rules(&[("[0-9]", true), ("+", false)]).unwrap();
    assert_eq!(ps.len(), 2);
    assert!(ps[0].is_match('7'));
    assert!(!ps[0].is_match('+'));
    assert!(ps[1].is_match('+'));
    assert!(!ps[1].is_match('7'));
    assert!(make_char_matcher_rules(&[("", false)]).is_none());
    assert!(make_char_matcher_rules(&[("[", true)]).is_none());
}

#[test]
fn locations_order_by_line_then_column() {
    assert!(SrcLoc::new((1, 9)) < SrcLoc::new((2, 1)));
    assert!(SrcLoc::new((2, 1)) < SrcLoc::new((2, 3)));
    assert_eq!(SrcLoc::new((3, 4)), SrcLoc { ln: 3, col: 4 });
}

#[test]
fn reason_description_escapes_like_debug() {
    for c in ['x', '\n', '\t', '\r', '\0', '\'', '\\', '"', '\u{1}', '\u{7f}', 'é'] {
        let r = TokenizeErrorReason::UnrecognizedEscaped(c);
        assert_eq!(r.describe(), format!("{:?}", r));
    }
}

#[test]
fn heredoc_matcher_compiled_once() {
    let mut interner = Interner::new();
    let hd = Matcher::heredoc().unwrap();
    let src = SrcFileInfo::from_str("<<EOF\nline one\nEOF".to_string());
    let toks = tokenize(&mut interner, &src, &[hd]).unwrap();
    assert_eq!(names_and_values(&interner, &toks), vec![("heredoc".to_string(), "line one".to_string())]);
    let pat = FancyPattern::new(HEREDOC_PATTERN).unwrap();
    let tok = heredoc_with(&mut interner, &pat, "<<-END\nx\nEND", 2).unwrap().unwrap();
    assert_eq!(tok.value_string(&interner), "x");
    assert_eq!(tok.span, Span { from: 2, end: 14 });
}

#[test]
fn tokens_from_given_groups() {
    let mut interner = Interner::new();
    let name = str2sym(&mut interner, "tag");
    let tok = token_from_groups(&mut interner, name, "#abc def", 3, &vec![Some((0, 4)), Some((1, 4))])
        .unwrap()
        .unwrap();
    assert_eq!(tok.value_string(&interner), "abc");
    assert_eq!(tok.span, Span { from: 3, end: 7 });
    let whole = token_from_groups(&mut interner, name, "#abc", 0, &vec![Some((0, 4)), None])
        .unwrap()
        .unwrap();
    assert_eq!(whole.value_string(&interner), "#abc");
    assert!(token_from_groups(&mut interner, name, "x#abc", 0, &vec![Some((1, 5))]).is_none());
    assert!(token_from_groups(&mut interner, name, "é", 0, &vec![Some((0, 1))]).is_none());
    let body = heredoc_from_groups(
        &mut interner,
        "<<E\nb\nE",
        0,
        &vec![Some((0, 7)), Some((0, 2)), Some((2, 3)), Some((3, 4)), Some((4, 5))],
    )
    .unwrap()
    .unwrap();
    assert_eq!(body.value_string(&interner), "b");
    assert!(heredoc_from_groups(&mut interner, "<<E", 0, &vec![Some((0, 3))]).is_none());
}

#[test]
fn span_token_takes_the_span_text() {
    let mut interner = Interner::new();
    let name = str2sym(&mut interner, "W");
    let tok = span_token(&mut interner, "ab cd", Span { from: 3, end: 5 }, name);
    assert_eq!(tok.value_string(&interner), "cd");
    assert_eq!(tok.name, name);
    assert_eq!(tok.span, Span { from: 3, end: 5 });
}

struct Vowel;

impl CharMatcher for Vowel {
    fn accepts(&self, c: char) -> bool {
        "aeiou".contains(c)
    }

    fn is_match(&self, c: char) -> bool {
        "aeiou".contains(c)
    }
}

#[test]
fn user_char_matcher_drives_the_table() {
    let mut interner = Interner::new();
    let entry = str2sym(&mut interner, "Entry");
    let v = str2sym(&mut interner, "V");
    let mut map: LexDFAMap<Vowel> = LexDFAMap::new();
    map.insert(entry, vec![Transition { pred: Vowel, next: v, boundary: false }]);
    map.insert(v, vec![Transition { pred: Vowel, next: v, boundary: true }]);
    let rec = TokenRecognizer { lookhead: 1, pat_items: vec![(Pattern::new("^.").unwrap(), v)] };
    let src = SrcFileInfo::from_str("aei".to_string());
    let toks = tokenize2(&mut interner, &src, &map, &rec).unwrap();
    assert_eq!(toks.len(), 3);
    let src = SrcFileInfo::from_str("ab".to_string());
    let e = expect_err(tokenize2(&mut interner, &src, &map, &rec));
    assert_eq!(e.get_start(), 1);
}

#[test]
fn command_bracket_matcher_in_the_list() {
    let mut interner = Interner::new();
    let ms = make_token_matcher_rules(
        &mut interner,
        &[
            ("cmd", RuleKind::Delimited("!(", ")", '\\')),
            ("sp", RuleKind::Pattern("[[:blank:]]+")),
            ("word", RuleKind::Pattern(r"\w+")),
        ],
    )
    .unwrap();
    let src = SrcFileInfo::from_str("echo !(ls \\) -a)".to_string());
    let toks = tokenize(&mut interner, &src, &ms).unwrap();
    assert_eq!(
        names_and_values(&interner, &toks),
        vec![
            ("word".to_string(), "echo".to_string()),
            ("sp".to_string(), " ".to_string()),
            ("cmd".to_string(), "ls ) -a".to_string()),
        ]
    );
    assert_eq!(toks[2].span, Span { from: 5, end: 16 });
    assert!(make_token_matcher_rules(&mut interner, &[("cmd", RuleKind::Delimited("!(", "", '\\'))]).is_none());
    let direct = Matcher::Delimited {
        prefix: "<%".to_string(),
        postfix: "%>".to_string(),
        escape: '\\',
        name: "tmpl".to_string(),
    };
    let src = SrcFileInfo::from_str("<%x%>".to_string());
    let toks = tokenize(&mut interner, &src, &[direct]).unwrap();
    assert_eq!(names_and_values(&interner, &toks), vec![("tmpl".to_string(), "x".to_string())]);
}
