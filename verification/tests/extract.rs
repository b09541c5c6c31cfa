use std::borrow::Cow;

use enclose_strings::{
    match_closing_char, CapturedSegment, EscapeStyle, Nesting, ScanOptions, SimpleEnclose,
    SimpleExtract,
};

#[test]
fn test_extract_from_chars() {
    let s = "...prefix(content)suffix";
    assert_eq!(
        s.extract_first_enclosure("prefix(", ')', EscapeStyle::Char('\\')),
        Some("content".to_string())
    );
}

#[test]
fn test_extract_without_prefix() {
    assert_eq!(
        "(content)".extract_first_enclosure('(', ')', EscapeStyle::Verbatim),
        Some("content".to_string())
    );
    assert_eq!(
        r#"say "hello" now"#.extract_first_enclosure('"', '"', EscapeStyle::Verbatim),
        Some("hello".to_string())
    );
}

#[test]
fn test_escaped_end_char_is_content() {
    // \) does not close the content, and the escape is dropped
    assert_eq!(
        r#"(a (nested\) call)"#.extract_first_enclosure('(', ')', EscapeStyle::Char('\\')),
        Some("a (nested) call".to_string())
    );
    // without an escape char the same input stops at the first )
    assert_eq!(
        r#"(a (nested\) call)"#.extract_first_enclosure('(', ')', EscapeStyle::Verbatim),
        Some(r#"a (nested\"#.to_string())
    );
}

#[test]
fn test_unrelated_escape_sequence_preserved() {
    // \t is not an escaped bounding char, so the backslash stays
    assert_eq!(
        r#""path\to\file""#.extract_first_enclosure('"', '"', EscapeStyle::Char('\\')),
        Some(r#"path\to\file"#.to_string())
    );
}

#[test]
fn test_csv_style_doubling() {
    assert_eq!(
        r#""She said ""hello""""#.extract_first_enclosure('"', '"', EscapeStyle::Doubled),
        Some(r#"She said "hello""#.to_string())
    );
}

#[test]
fn test_missing_prefix_or_terminator() {
    // prefix absent
    assert_eq!(
        "...other(content)".extract_first_enclosure("prefix(", ')', EscapeStyle::Verbatim),
        None
    );
    // opening char never reached
    assert_eq!(
        "prefix no brackets".extract_first_enclosure("prefix(", ')', EscapeStyle::Verbatim),
        None
    );
    // unterminated
    assert_eq!(
        "(content".extract_first_enclosure('(', ')', EscapeStyle::Verbatim),
        None
    );
}

#[test]
fn test_prefix_only_matches_after_itself() {
    // the ( before the prefix must be ignored
    assert_eq!(
        "(early)prefix(wanted)".extract_first_enclosure("prefix(", ')', EscapeStyle::Verbatim),
        Some("wanted".to_string())
    );
}

#[test]
fn test_multibyte_before_prefix() {
    // é is two bytes: a byte offset here would land mid-content
    assert_eq!(
        "café prefix(content)".extract_first_enclosure("prefix(", ')', EscapeStyle::Verbatim),
        Some("content".to_string())
    );
}

#[test]
fn test_round_trip_with_enclose() {
    let original = r#"a (nested) call"#;
    let wrapped = original.wrap_safe('(');
    assert_eq!(wrapped, r#"(a (nested\) call)"#);
    assert_eq!(
        wrapped.extract_first_enclosure('(', ')', EscapeStyle::Char('\\')),
        Some(original.to_string())
    );

    let quoted = r#"She said "hello""#.wrap_escaped('"', EscapeStyle::Doubled);
    assert_eq!(
        quoted.extract_first_enclosure('"', '"', EscapeStyle::Doubled),
        Some(r#"She said "hello""#.to_string())
    );
}

// --- extract_first --------------------------------------------------

#[test]
fn test_extract_first() {
    assert_eq!(
        "(content)".extract_first('(', ')'),
        Some("content".to_string())
    );
    // the opening character need not be at the start
    assert_eq!(
        "call(arg);".extract_first('(', ')'),
        Some("arg".to_string())
    );
    // identical bounding characters
    assert_eq!(
        r#"say "hello" now"#.extract_first('"', '"'),
        Some("hello".to_string())
    );
    // empty content is still a match, distinct from None
    assert_eq!("()".extract_first('(', ')'), Some(String::new()));
}

#[test]
fn test_extract_first_stops_at_first_end() {
    // no escape handling: the first closing character wins, even an escaped one
    assert_eq!(
        r#"(a\) b)"#.extract_first('(', ')'),
        Some(r#"a\"#.to_string())
    );
    // and nesting is not tracked
    assert_eq!(
        "(outer (inner) rest)".extract_first('(', ')'),
        Some("outer (inner".to_string())
    );
}

#[test]
fn test_extract_first_none_cases() {
    assert_eq!("no brackets here".extract_first('(', ')'), None);
    assert_eq!("(unterminated".extract_first('(', ')'), None);
    // a closing character with no opening one
    assert_eq!("closed) only".extract_first('(', ')'), None);
}

// --- extract_escaped ------------------------------------------------

#[test]
fn test_extract_escaped() {
    // an escaped closing character is content, and the escape is dropped
    assert_eq!(
        r#"(a (nested\) call)"#.extract_first_enclosure('(', ')', EscapeStyle::Char('\\')),
        Some("a (nested) call".to_string())
    );
    assert_eq!(
        r#""say \"hi\" now""#.extract_first_enclosure('"', '"', EscapeStyle::Char('\\')),
        Some(r#"say "hi" now"#.to_string())
    );
}

#[test]
fn test_extract_escaped_without_escape_char() {
    // None makes it equivalent to extract_first
    let sample = r#"(a\) b)"#;
    assert_eq!(
        sample.extract_first_enclosure('(', ')', EscapeStyle::Verbatim),
        sample.extract_first('(', ')')
    );
}

#[test]
fn test_extract_escaped_csv_doubling() {
    // escape char == end char: a doubled pair is one literal
    assert_eq!(
        r#""She said ""hello""""#.extract_first_enclosure('"', '"', EscapeStyle::Doubled),
        Some(r#"She said "hello""#.to_string())
    );
    // a single end char still closes
    assert_eq!(
        r#""plain" tail"#.extract_first_enclosure('"', '"', EscapeStyle::Doubled),
        Some("plain".to_string())
    );
}

#[test]
fn test_extract_escaped_round_trip() {
    let original = r#"contains ) and ( both"#;
    let wrapped = original.enclose_escaped('(', ')', EscapeStyle::Char('\\'));
    assert_eq!(
        wrapped.extract_first_enclosure('(', ')', EscapeStyle::Char('\\')),
        Some(original.to_string())
    );
}

// --- extract_enclosed -----------------------------------------------

#[test]
fn test_extract_enclosed_bracket_pairs() {
    // the closing character is derived from the opening one
    assert_eq!(
        "(content)".extract_enclosed('('),
        Some("content".to_string())
    );
    assert_eq!(
        "[content]".extract_enclosed('['),
        Some("content".to_string())
    );
    assert_eq!(
        "{content}".extract_enclosed('{'),
        Some("content".to_string())
    );
    assert_eq!(
        "<content>".extract_enclosed('<'),
        Some("content".to_string())
    );
}

#[test]
fn test_extract_enclosed_same_char_pairs() {
    // characters with no distinct closing form close on themselves
    assert_eq!(
        r#""content""#.extract_enclosed('"'),
        Some("content".to_string())
    );
    assert_eq!(
        "'content'".extract_enclosed('\''),
        Some("content".to_string())
    );
    // including an arbitrary character
    assert_eq!(
        "xcontentx".extract_enclosed('x'),
        Some("content".to_string())
    );
}

#[test]
fn test_extract_enclosed_unicode_pairs() {
    assert_eq!(
        "\u{201C}content\u{201D}".extract_enclosed('\u{201C}'),
        Some("content".to_string())
    );
    assert_eq!(
        "\u{2018}content\u{2019}".extract_enclosed('\u{2018}'),
        Some("content".to_string())
    );
    assert_eq!(
        "\u{00AB}content\u{00BB}".extract_enclosed('\u{00AB}'),
        Some("content".to_string())
    );
    assert_eq!(
        "\u{300C}content\u{300D}".extract_enclosed('\u{300C}'),
        Some("content".to_string())
    );
}

#[test]
fn test_extract_enclosed_uses_backslash_escaping() {
    // backslash is implied, so an escaped closing character is content
    assert_eq!(
        r#"(a (nested\) call)"#.extract_enclosed('('),
        Some("a (nested) call".to_string())
    );
    assert_eq!(
        r#""say \"hi\"""#.extract_enclosed('"'),
        Some(r#"say "hi""#.to_string())
    );
}

#[test]
fn test_extract_enclosed_none_cases() {
    assert_eq!("no brackets".extract_enclosed('('), None);
    assert_eq!("(unterminated".extract_enclosed('('), None);
    // mismatched: the derived closing character for [ is ], not )
    assert_eq!("[content)".extract_enclosed('['), None);
}

#[test]
fn test_extract_enclosed_round_trip_with_wrap_safe() {
    // wrap_safe is the exact inverse: same pairing, same escape character
    for opening in ['(', '[', '{', '<', '"', '\'', '\u{201C}', '\u{00AB}'] {
        let original = "plain content";
        let wrapped = original.wrap_safe(opening);
        assert_eq!(
            wrapped.extract_enclosed(opening),
            Some(original.to_string()),
            "round trip failed for opening char {:?}",
            opening
        );
    }
}

// --- extract_enclosures -----------------------------------------------

#[test]
fn test_extract_enclosures_with_marker() {
    let sample_str = "prefix!(contents_1)inbetween!(contents_2)suffix";
    assert_eq!(
        sample_str.extract_enclosures("!(", ')', EscapeStyle::Char('\\')),
        vec![
            CapturedSegment::Outside("prefix"),
            CapturedSegment::Enclosure(Cow::Borrowed("contents_1")),
            CapturedSegment::Outside("inbetween"),
            CapturedSegment::Enclosure(Cow::Borrowed("contents_2")),
            CapturedSegment::Outside("suffix"),
        ]
    );
}

#[test]
fn test_extract_enclosures_without_marker() {
    assert_eq!(
        "a(one)b(two)c".extract_enclosures('(', ')', EscapeStyle::Verbatim),
        vec![
            CapturedSegment::Outside("a"),
            CapturedSegment::Enclosure(Cow::Borrowed("one")),
            CapturedSegment::Outside("b"),
            CapturedSegment::Enclosure(Cow::Borrowed("two")),
            CapturedSegment::Outside("c"),
        ]
    );
}

#[test]
fn test_extract_enclosures_omits_empty_outside_segments() {
    assert_eq!(
        "(one)(two)".extract_enclosures('(', ')', EscapeStyle::Verbatim),
        vec![
            CapturedSegment::Enclosure(Cow::Borrowed("one")),
            CapturedSegment::Enclosure(Cow::Borrowed("two")),
        ]
    );
    // an empty enclosure is still reported, unlike an empty Outside segment
    assert_eq!(
        "()".extract_enclosures('(', ')', EscapeStyle::Verbatim),
        vec![CapturedSegment::Enclosure(Cow::Borrowed(""))]
    );
}

#[test]
fn test_extract_enclosures_marker_not_before_opening_is_text() {
    assert_eq!(
        "hi! there !(inside) end".extract_enclosures("!(", ')', EscapeStyle::Verbatim),
        vec![
            CapturedSegment::Outside("hi! there "),
            CapturedSegment::Enclosure(Cow::Borrowed("inside")),
            CapturedSegment::Outside(" end"),
        ]
    );
    assert_eq!(
        "(unmarked) only".extract_enclosures("!(", ')', EscapeStyle::Verbatim),
        vec![CapturedSegment::Outside("(unmarked) only")]
    );
}

#[test]
fn test_extract_enclosures_escaping() {
    assert_eq!(
        r#"a(b\) c)d"#.extract_enclosures('(', ')', EscapeStyle::Char('\\')),
        vec![
            CapturedSegment::Outside("a"),
            CapturedSegment::Enclosure(Cow::Owned("b) c".to_string())),
            CapturedSegment::Outside("d"),
        ]
    );
    assert_eq!(
        r#""a ""x"" b","plain""#.extract_enclosures('"', '"', EscapeStyle::Doubled),
        vec![
            CapturedSegment::Enclosure(Cow::Owned(r#"a "x" b"#.to_string())),
            CapturedSegment::Outside(","),
            CapturedSegment::Enclosure(Cow::Borrowed("plain")),
        ]
    );
}

#[test]
fn test_extract_enclosures_borrows_when_nothing_unescaped() {
    let segments = "x(plain)y".extract_enclosures('(', ')', EscapeStyle::Char('\\'));
    match &segments[1] {
        CapturedSegment::Enclosure(content) => assert!(
            matches!(content, Cow::Borrowed(_)),
            "should borrow, got {content:?}"
        ),
        other => panic!("expected an enclosure, got {other:?}"),
    }
}

#[test]
fn test_extract_enclosures_unterminated_and_absent() {
    assert_eq!(
        "before (never closed".extract_enclosures('(', ')', EscapeStyle::Verbatim),
        vec![CapturedSegment::Outside("before (never closed")]
    );
    assert_eq!(
        "no brackets".extract_enclosures('(', ')', EscapeStyle::Verbatim),
        vec![CapturedSegment::Outside("no brackets")]
    );
    assert_eq!("".extract_enclosures('(', ')', EscapeStyle::Verbatim), vec![]);
}

#[test]
fn test_extract_enclosures_multibyte() {
    assert_eq!(
        "café(contenu)thé".extract_enclosures('(', ')', EscapeStyle::Verbatim),
        vec![
            CapturedSegment::Outside("café"),
            CapturedSegment::Enclosure(Cow::Borrowed("contenu")),
            CapturedSegment::Outside("thé"),
        ]
    );
    assert_eq!(
        "\u{201C}one\u{201D}mid\u{201C}two\u{201D}".extract_enclosures(
            '\u{201C}',
            '\u{201D}',
            EscapeStyle::Verbatim
        ),
        vec![
            CapturedSegment::Enclosure(Cow::Borrowed("one")),
            CapturedSegment::Outside("mid"),
            CapturedSegment::Enclosure(Cow::Borrowed("two")),
        ]
    );
}

#[test]
fn test_extract_all_enclosed() {
    // flat (non-nested) case is unchanged
    assert_eq!(
        "a(one)b(two)c".extract_all_enclosed('('),
        vec!["one".to_string(), "two".to_string()]
    );
    assert_eq!(
        "nothing here".extract_all_enclosed('('),
        Vec::<String>::new()
    );
}

#[test]
fn test_extract_all_enclosed_nested_parentheses() {
    assert_eq!(
        "((a or b) and (c or d))".extract_all_enclosed('('),
        vec![
            "(a or b) and (c or d)".to_string(),
            "a or b".to_string(),
            "c or d".to_string(),
        ]
    );
}

#[test]
fn test_extract_all_enclosed_nested_brackets() {
    assert_eq!(
        "[[a or b] and [c or d]]".extract_all_enclosed('['),
        vec![
            "[a or b] and [c or d]".to_string(),
            "a or b".to_string(),
            "c or d".to_string(),
        ]
    );
}

#[test]
fn test_extract_all_enclosed_deeply_nested() {
    assert_eq!(
        "(a(b(c)))".extract_all_enclosed('('),
        vec![
            "a(b(c))".to_string(),
            "b(c)".to_string(),
            "c".to_string(),
        ]
    );
}

#[test]
fn test_extract_all_enclosed_mixed_depths() {
    // two top-level groups, one of which has nesting
    assert_eq!(
        "(a)(b(c)d)".extract_all_enclosed('('),
        vec![
            "a".to_string(),
            "b(c)d".to_string(),
            "c".to_string(),
        ]
    );
}

#[test]
fn test_extract_all_enclosed_identical_delimiters_flat() {
    // quotes can't nest, so the flat scan is used
    assert_eq!(
        r#""one" and "two""#.extract_all_enclosed('"'),
        vec!["one".to_string(), "two".to_string()]
    );
}

#[test]
fn test_extract_all_enclosed_unmatched_ignored() {
    // unmatched closing brackets are skipped
    assert_eq!(
        ")extra(content)".extract_all_enclosed('('),
        vec!["content".to_string()]
    );
    // unclosed opening brackets produce nothing for that group
    assert_eq!(
        "(closed)(unclosed".extract_all_enclosed('('),
        vec!["closed".to_string()]
    );
}

// --- terse segment variants -------------------------------------------

#[test]
fn test_extract_segments_defaults() {
    // matched closing character and backslash escaping, no other arguments
    assert_eq!(
        "a(one)b(two)c".extract_segments('('),
        "a(one)b(two)c".extract_enclosures('(', ')', EscapeStyle::Char('\\'))
    );
    assert_eq!(
        "x[one]y".extract_segments('['),
        vec![
            CapturedSegment::Outside("x"),
            CapturedSegment::Enclosure(Cow::Borrowed("one")),
            CapturedSegment::Outside("y"),
        ]
    );
    // the escaping default is applied, not merely accepted
    assert_eq!(
        r#"(a\) b)"#.extract_segments('('),
        vec![CapturedSegment::Enclosure(Cow::Owned("a) b".to_string()))]
    );
}

#[test]
fn test_extract_captures() {
    let call = r#"add_title("Latest Stats (2024-2025)", "en-GB")"#;
    assert_eq!(
        call.extract_captures('('),
        vec![
            CapturedSegment::Outside("add_title"),
            CapturedSegment::Enclosure(Cow::Borrowed(r#""Latest Stats (2024-2025)", "en-GB""#)),
        ]
    );
    // nesting is tracked as well as quoting
    assert_eq!(
        "f(g(x), y)".extract_captures('('),
        vec![
            CapturedSegment::Outside("f"),
            CapturedSegment::Enclosure(Cow::Owned("g(x), y".to_string())),
        ]
    );
    // backward-compat alias agrees
    assert_eq!(
        "f(g(x), y)".extract_quoted_segments('('),
        "f(g(x), y)".extract_captures('('),
    );
}

#[test]
fn test_extract_balanced() {
    let call = r#"add_title("Latest Stats (2024-2025)", "en-GB")"#;
    assert_eq!(
        call.extract_balanced('('),
        Some(r#""Latest Stats (2024-2025)", "en-GB""#.to_string())
    );
    // backward-compat alias agrees
    assert_eq!(
        call.extract_arguments('('),
        call.extract_balanced('('),
    );
}

#[test]
fn test_extract_nth_balanced() {
    let input = "f(a, b) + g(c, d)";
    assert_eq!(input.extract_nth_balanced('(', 0), Some("a, b".to_string()));
    assert_eq!(input.extract_nth_balanced('(', 1), Some("c, d".to_string()));
    assert_eq!(input.extract_nth_balanced('(', 2), None);
    // nested brackets are balanced
    assert_eq!(
        "f(g(x), y) + h(z)".extract_nth_balanced('(', 0),
        Some("g(x), y".to_string())
    );
    assert_eq!(
        "f(g(x), y) + h(z)".extract_nth_balanced('(', 1),
        Some("z".to_string())
    );
}

#[test]
fn test_extract_all_balanced() {
    let input = "f(a, b) + g(c, d)";
    assert_eq!(
        input.extract_all_balanced('('),
        vec!["a, b".to_string(), "c, d".to_string()]
    );
    // nesting is balanced: outer content includes inner brackets
    assert_eq!(
        "f(g(x), y) + h(z)".extract_all_balanced('('),
        vec!["g(x), y".to_string(), "z".to_string()]
    );
    // quoted closing delimiters are skipped
    let call = r#"f("a)", b) + g("c")"#;
    assert_eq!(
        call.extract_all_balanced('('),
        vec![r#""a)", b"#.to_string(), r#""c""#.to_string()]
    );
}

#[test]
fn test_extract_all_from_parentheses() {
    let input = "f(a, b) + g(c, d)";
    assert_eq!(
        input.extract_all_from_parentheses(),
        vec![
            CapturedSegment::Outside("f"),
            CapturedSegment::Enclosure(Cow::Borrowed("a, b")),
            CapturedSegment::Outside(" + g"),
            CapturedSegment::Enclosure(Cow::Borrowed("c, d")),
        ]
    );
}

#[test]
fn test_extract_all_from_brackets() {
    assert_eq!(
        "a[0] + b[1]".extract_all_from_brackets(),
        vec![
            CapturedSegment::Outside("a"),
            CapturedSegment::Enclosure(Cow::Borrowed("0")),
            CapturedSegment::Outside(" + b"),
            CapturedSegment::Enclosure(Cow::Borrowed("1")),
        ]
    );
}

#[test]
fn test_extract_all_from_braces() {
    assert_eq!(
        "a{x} + b{y}".extract_all_from_braces(),
        vec![
            CapturedSegment::Outside("a"),
            CapturedSegment::Enclosure(Cow::Borrowed("x")),
            CapturedSegment::Outside(" + b"),
            CapturedSegment::Enclosure(Cow::Borrowed("y")),
        ]
    );
}

// --- multi-character delimiters and escape styles ---------------------

#[test]
fn test_extract_with_str_delimiters() {
    assert_eq!(
        "<!--a comment-->tail".extract_first("<!--", "-->"),
        Some("a comment".to_string())
    );
    assert_eq!("[[x]]".extract_first("[[", "]]"), Some("x".to_string()));
    assert_eq!("(?=y)".extract_first("(?=", ')'), Some("y".to_string()));
}

#[test]
fn test_str_delimiter_folds_away_the_prefix() {
    let sample = "prefix!(contents_1)inbetween!(contents_2)suffix";
    let with_prefix = sample.extract_enclosures("!(", ')', EscapeStyle::Verbatim);
    let with_str_start = sample.extract_enclosures("!(", ')', EscapeStyle::Verbatim);
    assert_eq!(with_prefix, with_str_start);
    assert_eq!(
        with_str_start
            .iter()
            .filter_map(|s| s.enclosure())
            .collect::<Vec<_>>(),
        vec!["contents_1", "contents_2"]
    );
}

#[test]
fn test_str_delimiter_escaping() {
    assert_eq!(
        r#"<!--a \--> b-->"#.extract_first_enclosure("<!--", "-->", EscapeStyle::Char('\\')),
        Some("a --> b".to_string())
    );
}

#[test]
fn test_empty_delimiter_never_matches() {
    assert_eq!("anything".extract_first("", ")"), None);
    assert_eq!(
        "anything".extract_enclosures("", ")", EscapeStyle::Verbatim),
        vec![CapturedSegment::Outside("anything")]
    );
}

#[test]
fn test_escape_style_doubled_is_explicit() {
    assert_eq!(
        r#""a ""quoted"" bit""#.extract_first_enclosure('"', '"', EscapeStyle::Doubled),
        Some(r#"a "quoted" bit"#.to_string())
    );
    assert_eq!(
        r#""a ""quoted"" bit""#.extract_first_enclosure('"', '"', EscapeStyle::Char('"')),
        Some(r#"a "quoted" bit"#.to_string())
    );
    assert_eq!(
        r#""a ""quoted"" bit""#.extract_first_enclosure('"', '"', EscapeStyle::Verbatim),
        Some("a ".to_string())
    );
}

#[test]
fn test_enclose_extract_round_trip_across_styles() {
    let original = r#"has ) and " inside"#;
    for (style, opening) in [
        (EscapeStyle::Char('\\'), '('),
        (EscapeStyle::Doubled, '"'),
        (EscapeStyle::Char('\\'), '"'),
    ] {
        let closing = match_closing_char(opening);
        let wrapped = original.enclose_escaped(opening, closing, style);
        assert_eq!(
            wrapped.extract_first_enclosure(opening, closing, style),
            Some(original.to_string()),
            "round trip failed for {opening:?} with {style:?}"
        );
    }
}

#[test]
fn test_extract_enclosed_doubled_convenience() {
    assert_eq!(
        r#""a ""b"" c""#.extract_enclosed_doubled('"'),
        Some(r#"a "b" c"#.to_string())
    );
}

// --- extract_first_enclosure ------------------------------------------

#[test]
fn test_extract_first_enclosure() {
    assert_eq!(
        "a(one)b(two)c".extract_first_enclosure('(', ')', EscapeStyle::Verbatim),
        Some("one".to_string())
    );
    assert_eq!(
        "skip(this)!(wanted)".extract_first_enclosure("!(", ')', EscapeStyle::Verbatim),
        Some("wanted".to_string())
    );
    assert_eq!(
        r#"(a\) b)"#.extract_first_enclosure('(', ')', EscapeStyle::Char('\\')),
        Some("a) b".to_string())
    );
    assert_eq!(
        r#""a ""q"" b""#.extract_first_enclosure('"', '"', EscapeStyle::Doubled),
        Some(r#"a "q" b"#.to_string())
    );
}

#[test]
fn test_extract_first_enclosure_none_cases() {
    assert_eq!(
        "no brackets".extract_first_enclosure('(', ')', EscapeStyle::Verbatim),
        None
    );
    assert_eq!(
        "(unterminated".extract_first_enclosure('(', ')', EscapeStyle::Verbatim),
        None
    );
}

#[test]
fn test_first_enclosure_agrees_with_the_base_method() {
    for sample in ["x(one)y(two)z", "(only)", "none here", "(unterminated"] {
        let via_base = sample
            .extract_enclosures('(', ')', EscapeStyle::Verbatim)
            .into_iter()
            .find_map(|segment| segment.enclosure().map(str::to_string));
        assert_eq!(
            sample.extract_first_enclosure('(', ')', EscapeStyle::Verbatim),
            via_base,
            "disagreement on {sample:?}"
        );
    }
}

// --- quoted regions and nesting ---------------------------------------

#[test]
fn test_extract_balanced_skips_quoted_closing_delimiter() {
    let call = r#"add_title("Latest Stats (2024-2025)", "en-GB")"#;
    assert_eq!(
        call.extract_balanced('('),
        Some(r#""Latest Stats (2024-2025)", "en-GB""#.to_string())
    );
}

#[test]
fn test_quoted_region_beats_nesting() {
    let call = r#"add_title("Smiley :)", "en")"#;
    assert_eq!(
        call.extract_balanced('('),
        Some(r#""Smiley :)", "en""#.to_string())
    );
    assert_eq!(
        r#"f("a (b", "c")"#.extract_balanced('('),
        Some(r#""a (b", "c""#.to_string())
    );
}

#[test]
fn test_balanced_nesting() {
    assert_eq!(
        "f(g(x), y)".extract_balanced('('),
        Some("g(x), y".to_string())
    );
    assert_eq!(
        "outer(a(b(c)), d)".extract_balanced('('),
        Some("a(b(c)), d".to_string())
    );
    assert_eq!(
        "f(g(x), y)".extract_first_enclosure('(', ')', EscapeStyle::Verbatim),
        Some("g(x".to_string())
    );
}

#[test]
fn test_escaped_quote_inside_a_quoted_region() {
    let call = r#"f("say \"hi\" now", "x")"#;
    assert_eq!(
        call.extract_balanced('('),
        Some(r#""say \"hi\" now", "x""#.to_string())
    );
}

#[test]
fn test_single_and_double_quotes_both_recognised() {
    assert_eq!(
        r#"f('a )b', "c )d")"#.extract_balanced('('),
        Some(r#"'a )b', "c )d""#.to_string())
    );
    assert_eq!(
        r#"f("it's fine)")"#.extract_balanced('('),
        Some(r#""it's fine)""#.to_string())
    );
}

#[test]
fn test_scan_options_are_composable() {
    let options = ScanOptions::default().with_quotes(&['"']);
    assert_eq!(
        r#"("a )b")tail"#.extract_first_enclosure_with('(', ')', options),
        Some(r#""a )b""#.to_string())
    );
    assert_eq!(
        r#"("a )b")tail"#.extract_first_enclosure('(', ')', EscapeStyle::Verbatim),
        Some(r#""a "#.to_string())
    );
}

#[test]
fn test_balanced_ignored_for_identical_delimiters() {
    let options = ScanOptions::default().with_nesting(Nesting::Delimiters);
    assert_eq!(
        r#""one" and "two""#.extract_first_enclosure_with('"', '"', options),
        Some("one".to_string())
    );
}

#[test]
fn test_unterminated_quote_leaves_the_enclosure_unclosed() {
    assert_eq!(r#"f("never closed)"#.extract_balanced('('), None);
}

#[test]
fn test_two_stage_call_parse() {
    let call = r#"add_title("Latest Stats (2024-2025)", "en-GB")"#;
    let args = call.extract_balanced('(').expect("balanced enclosure");
    assert_eq!(args, r#""Latest Stats (2024-2025)", "en-GB""#);
    assert_eq!(
        args.extract_all_enclosed('"'),
        vec!["Latest Stats (2024-2025)".to_string(), "en-GB".to_string()]
    );
}

#[test]
fn test_named_delimiter_conveniences() {
    assert_eq!(
        "func_name(arg)".extract_from_parentheses(),
        Some("arg".to_string())
    );
    assert_eq!("a[0]".extract_from_brackets(), Some("0".to_string()));
    assert_eq!("x{y}z".extract_from_braces(), Some("y".to_string()));
    assert_eq!(
        r#"say "hi" now"#.extract_from_double_quotes(),
        Some("hi".to_string())
    );
    // The apostrophe opens the group, so this captures "s " rather than
    // "quoted". That is the defined rule applied consistently: an
    // apostrophe and a single quote are one code point, and distinguishing
    // them needs sentence-level context, which is not this crate's job.
    assert_eq!(
        "it's 'quoted' here".extract_from_single_quotes(),
        Some("s ".to_string())
    );
    assert_eq!("plain text".extract_from_parentheses(), None);
}

#[test]
fn test_opening_delimiter_carries_its_own_prefix() {
    // a regex lookbehind: the "?<=" belongs to the opening delimiter
    assert_eq!(
        "(?<=foo)bar".extract_first_enclosure("(?<=", ')', EscapeStyle::Verbatim),
        Some("foo".to_string())
    );
    // a marker before the bracket is equally just part of the delimiter
    assert_eq!(
        "x!(y)".extract_first_enclosure("!(", ')', EscapeStyle::Verbatim),
        Some("y".to_string())
    );
    // balanced tracks the opening delimiter as given, so a bare "(" inside
    // a "(?<=" group is not counted and the first ")" closes
    assert_eq!(
        "(?<=(a|b))rest".extract_first_enclosure_with(
            "(?<=",
            ')',
            ScanOptions::default().with_nesting(Nesting::Delimiters)
        ),
        Some("(a|b".to_string())
    );
    // balancing on the bare bracket captures the group, at the cost of not
    // requiring the lookbehind marker
    assert_eq!(
        "(?<=(a|b))rest".extract_first_enclosure_with(
            '(',
            ')',
            ScanOptions::default().with_nesting(Nesting::Delimiters)
        ),
        Some("?<=(a|b)".to_string())
    );
}

// --- parsing a key spec, the intended use case -----------------------

#[test]
fn test_parse_dsl_key_spec() {
    // e.g. --keys "valid_codes|int[]:(,)"
    // split_once stands in for to_head_tail from the to_segments crate,
    // which is not a dependency here.
    let spec = "valid_codes|int[]:(,)";
    let (field, rest) = spec.split_once('|').expect("field name");
    assert_eq!(field, "valid_codes");
    let (cast, tail) = rest.split_once(':').expect("cast and splitter");
    assert_eq!(cast, "int[]");
    assert_eq!(tail.extract_enclosed('('), Some(",".to_string()));
}

#[test]
fn test_parse_dsl_splitter_variants() {
    assert_eq!("(, )".extract_enclosed('('), Some(", ".to_string()));
    assert_eq!("( | )".extract_enclosed('('), Some(" | ".to_string()));
    assert_eq!(r#"(\))"#.extract_enclosed('('), Some(")".to_string()));
    assert_eq!("()".extract_enclosed('('), Some(String::new()));
    assert_eq!("int[]".extract_enclosed('('), None);
}

#[test]
fn test_parse_dsl_spec_without_splitter() {
    let spec = "name|str";
    let (field, rest) = spec.split_once('|').expect("field name");
    assert_eq!(field, "name");
    assert_eq!(rest.split_once(':'), None);
    assert_eq!(rest.extract_enclosed('('), None);
}

#[test]
fn test_nesting_pair_differs_from_the_bounding_delimiters() {
    // the lookbehind case: opening delimiter carries a prefix, but the
    // groups to balance are plain brackets
    assert_eq!(
        "(?<=(a|b))rest".extract_first_enclosure_with(
            "(?<=",
            ')',
            ScanOptions::default().with_nesting(Nesting::Pair('(', ')'))
        ),
        Some("(a|b)".to_string())
    );
    // Nesting::Delimiters counts the opening delimiter as given, so the
    // inner bracket is not tracked and the first ) closes
    assert_eq!(
        "(?<=(a|b))rest".extract_first_enclosure_with(
            "(?<=",
            ')',
            ScanOptions::default().with_nesting(Nesting::Delimiters)
        ),
        Some("(a|b".to_string())
    );
}

#[test]
fn test_nesting_default_is_none() {
    assert_eq!(ScanOptions::default().nesting, Nesting::Flat);
    assert_eq!(
        "f(g(x), y)".extract_first_enclosure('(', ')', EscapeStyle::Verbatim),
        Some("g(x".to_string())
    );
}
