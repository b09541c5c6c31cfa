use enclose_strings::{
    escape_delimiter, match_closing_char, CapturedSegment, EscapeStyle, Nesting, ScanOptions,
    SimpleEnclose, SimpleExtract,
};

#[test]
fn round_trip_holds_for_each_style() {
    let cases = [
        ("", '(', EscapeStyle::Char('\\')),
        ("a (b) c", '(', EscapeStyle::Char('\\')),
        (r#"even \\) run"#, '(', EscapeStyle::Char('\\')),
        (r#"back\slash"#, '(', EscapeStyle::Char('\\')),
        ("end)", '(', EscapeStyle::Char('\\')),
        (r#"say "hi""#, '"', EscapeStyle::Char('\\')),
        (r#"say \\"hi"#, '"', EscapeStyle::Char('\\')),
        (r#"say "hi""#, '"', EscapeStyle::Doubled),
        ("a) b) c)", '(', EscapeStyle::Doubled),
        (r#"a""b"#, '"', EscapeStyle::Char('"')),
        ("caf\u{e9} (th\u{e9})", '(', EscapeStyle::Char('\\')),
        ("plain", '\u{201C}', EscapeStyle::Char('\\')),
        ("no closing", '(', EscapeStyle::Verbatim),
    ];
    for (sample, opening, style) in cases {
        let closing = match_closing_char(opening);
        let wrapped = sample.enclose_escaped(opening, closing, style);
        assert_eq!(
            wrapped.extract_first_enclosure(opening, closing, style),
            Some(sample.to_string()),
            "{sample:?} {opening:?} {style:?}"
        );
    }
}

#[test]
fn round_trip_fails_outside_its_condition() {
    // an odd run of escapes before the closing character loses one escape
    let wrapped = r#"a\)"#.wrap_safe('(');
    assert_eq!(wrapped, r#"(a\))"#);
    assert_eq!(wrapped.extract_enclosed('('), Some("a)".to_string()));
    // content ending in the escape character is never closed
    let wrapped = r#"a\"#.wrap_safe('(');
    assert_eq!(wrapped.extract_enclosed('('), None);
    // an already-doubled pair is read back as one
    let wrapped = r#"a""b"#.double_quotes_doubled();
    assert_eq!(wrapped, r#""a""b""#);
    assert_eq!(wrapped.extract_enclosed_doubled('"'), Some(r#"a"b"#.to_string()));
    // without escaping the first closing character ends the content
    let wrapped = "a)b".parenthesize();
    assert_eq!(wrapped.extract_first('(', ')'), Some("a".to_string()));
}

#[test]
fn escaping_is_idempotent() {
    let backslash = EscapeStyle::Char('\\');
    for sample in ["a) b", r#"a\) b"#, r#"\\)"#, "))", "none"] {
        let once = escape_delimiter(sample, &')', backslash);
        assert_eq!(escape_delimiter(&once, &')', backslash), once);
        let doubled = escape_delimiter(sample, &')', EscapeStyle::Doubled);
        assert_eq!(escape_delimiter(&doubled, &')', EscapeStyle::Doubled), doubled);
    }
    let once = escape_delimiter("a --> b -->", &"-->", backslash);
    assert_eq!(once, r#"a \--> b \-->"#);
    assert_eq!(escape_delimiter(&once, &"-->", backslash), once);
    let doubled = escape_delimiter("x--y", &"--", EscapeStyle::Doubled);
    assert_eq!(doubled, "x----y");
    assert_eq!(escape_delimiter(&doubled, &"--", EscapeStyle::Doubled), doubled);
}

#[test]
fn escaping_with_the_closing_character_is_not_idempotent() {
    let once = escape_delimiter(r#"a"b"#, &'"', EscapeStyle::Char('"'));
    assert_eq!(once, r#"a""b"#);
    assert_eq!(escape_delimiter(&once, &'"', EscapeStyle::Char('"')), r#"a""""b"#);
    // with no closing character in the text it is left alone twice
    let plain = escape_delimiter("plain", &'"', EscapeStyle::Char('"'));
    assert_eq!(escape_delimiter(&plain, &'"', EscapeStyle::Char('"')), "plain");
}

#[test]
fn self_escape_splits_as_doubling() {
    for sample in [r#""a ""x"" b","plain""#, r#"x"y""z"#, r#""""#, r#""unterminated"#] {
        assert_eq!(
            sample.extract_enclosures('"', '"', EscapeStyle::Char('"')),
            sample.extract_enclosures('"', '"', EscapeStyle::Doubled)
        );
    }
}

#[test]
fn identical_delimiters_do_not_nest() {
    let nested = ScanOptions::default().with_nesting(Nesting::Delimiters);
    for sample in [r#""one" and "two""#, r#"x"a"b"c"#, r#""""#] {
        assert_eq!(
            sample.extract_enclosures_with('"', '"', nested),
            sample.extract_enclosures_with('"', '"', ScanOptions::default())
        );
    }
}

#[test]
fn no_empty_outside_segments() {
    for sample in ["(a)(b)", "()()", "x(a)", "(a)x", "", "((", "a(b)c(d)e"] {
        for segment in sample.extract_enclosures('(', ')', EscapeStyle::Verbatim) {
            if let CapturedSegment::Outside(text) = segment {
                assert!(!text.is_empty(), "empty outside segment in {sample:?}");
            }
        }
    }
}

#[test]
fn segments_rebuild_the_source_when_nothing_is_escaped() {
    let sample = "a(one)b(two)c";
    let rebuilt: String = sample
        .extract_enclosures('(', ')', EscapeStyle::Verbatim)
        .iter()
        .map(|segment| match segment {
            CapturedSegment::Enclosure(text) => format!("({text})"),
            CapturedSegment::Outside(text) => text.to_string(),
        })
        .collect();
    assert_eq!(rebuilt, sample);
}

#[test]
fn balanced_round_trip() {
    for sample in [
        "(red or blue) and (green or orange)",
        "",
        "a(b(c))d",
        "no brackets",
        "()()",
    ] {
        for opening in ['(', '[', '\u{201C}'] {
            let closing = match_closing_char(opening);
            let sample: String = sample
                .chars()
                .map(|c| match c {
                    '(' => opening,
                    ')' => closing,
                    other => other,
                })
                .collect();
            let wrapped = sample.wrap(opening);
            assert_eq!(wrapped.extract_balanced(opening), Some(sample.clone()), "{sample:?}");
        }
    }
}

#[test]
fn balanced_round_trip_fails_on_unbalanced_content() {
    assert_eq!("a)b".wrap('(').extract_balanced('('), Some("a".to_string()));
    assert_eq!("a(b".wrap('(').extract_balanced('('), None);
}

#[test]
fn balanced_round_trip_with_quotes_and_escapes() {
    for sample in [
        r#""Latest Stats (2024-2025)", "en-GB""#,
        r#"'a )b', "c )d""#,
        r#""say \"hi\" now", "x""#,
        r#"a\b (c)"#,
    ] {
        assert_eq!(sample.wrap('(').extract_balanced('('), Some(sample.to_string()));
    }
    // an escaped bracket outside a quoted region loses its escape
    assert_eq!(r#"a\)b"#.wrap('(').extract_balanced('('), Some("a)b".to_string()));
    // a quoted region left open swallows the closing bracket
    assert_eq!(r#"a "b"#.wrap('(').extract_balanced('('), None);
}

#[test]
fn round_trip_holds_for_multi_character_tokens() {
    let styles = [
        EscapeStyle::Verbatim,
        EscapeStyle::Doubled,
        EscapeStyle::Char('\\'),
    ];
    for content in ["note", "", "a->b", "x-", "<!-- inner", "caf\u{e9} -"] {
        for style in styles {
            let wrapped = content.enclose_escaped("<!--", "-->", style);
            assert_eq!(wrapped, format!("<!--{}-->", content));
            assert_eq!(
                wrapped.extract_first_enclosure("<!--", "-->", style),
                Some(content.to_string())
            );
        }
    }
}

#[test]
fn self_escape_scan_reads_as_doubling() {
    for text in ["(a))b)", "x(()))", "(a)(b))c)", "(()"] {
        assert_eq!(
            text.extract_enclosures('(', ')', EscapeStyle::Char(')')),
            text.extract_enclosures('(', ')', EscapeStyle::Doubled)
        );
    }
}
