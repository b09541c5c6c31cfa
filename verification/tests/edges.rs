use std::borrow::Cow;

use enclose_strings::{
    chars_to_string, escape_delimiter, match_closing_char, str_to_chars, CapturedSegment,
    Delimiter, EscapeStyle, Nesting, ScanOptions, SimpleEnclose, SimpleExtract,
};

#[test]
fn delimiter_matching_counts_bytes() {
    let hay = "caf\u{e9}<!--x-->";
    assert_eq!("<!--".match_len(hay, 5), Some(4));
    assert_eq!("<!--".match_len(hay, 3), None);
    assert_eq!('\u{e9}'.match_len(hay, 3), Some(2));
    assert_eq!("-->".find_from(hay, 0), Some(10));
    assert_eq!("-->".find_from(hay, 11), None);
    assert_eq!(String::from("x").find_from(hay, 0), Some(9));
    assert_eq!('\u{e9}'.find_from(hay, 0), Some(3));
    assert_eq!("".match_len(hay, 0), None);
    assert_eq!("".find_from(hay, 0), None);
    assert_eq!('c'.match_len(hay, hay.len()), None);
    assert_eq!('('.find_from("caf\u{e9}(x)", 0), Some(5));
}

#[test]
fn delimiter_lengths_and_emptiness() {
    assert_eq!('a'.byte_len(), 1);
    assert_eq!('\u{e9}'.byte_len(), 2);
    assert_eq!('\u{201C}'.byte_len(), 3);
    assert_eq!('\u{1F600}'.byte_len(), 4);
    assert_eq!("caf\u{e9}".byte_len(), 5);
    assert_eq!(String::from("<<").byte_len(), 2);
    assert!("".is_empty());
    assert!(String::new().is_empty());
    assert!(!'x'.is_empty());
    assert!(!"x".is_empty());
}

#[test]
fn delimiter_push_and_insert() {
    let mut out = String::from("ab");
    'c'.push_to(&mut out);
    "de".push_to(&mut out);
    String::from("f").push_to(&mut out);
    assert_eq!(out, "abcdef");
    let mut out = String::from("caf\u{e9}!");
    "<".insert_into(&mut out, 5);
    assert_eq!(out, "caf\u{e9}<!");
    '['.insert_into(&mut out, 0);
    assert_eq!(out, "[caf\u{e9}<!");
    String::from("]").insert_into(&mut out, 8);
    assert_eq!(out, "[caf\u{e9}<!]");
    let mut out = String::from("\u{e9}\u{e9}");
    '\u{1F600}'.insert_into(&mut out, 2);
    assert_eq!(out, "\u{e9}\u{1F600}\u{e9}");
}

#[test]
fn char_conversions() {
    let chars = str_to_chars("h\u{e9}!");
    assert_eq!(chars, vec!['h', '\u{e9}', '!']);
    assert_eq!(chars_to_string(&chars), "h\u{e9}!");
    assert_eq!(chars_to_string(&[]), "");
}

#[test]
fn escape_delimiter_styles() {
    assert_eq!(escape_delimiter("a)b", &')', EscapeStyle::Verbatim), "a)b");
    assert_eq!(escape_delimiter("a)b", &')', EscapeStyle::Char('\\')), r#"a\)b"#);
    assert_eq!(escape_delimiter("a)b", &')', EscapeStyle::Doubled), "a))b");
    assert_eq!(escape_delimiter("a))b", &')', EscapeStyle::Doubled), "a))b");
    assert_eq!(escape_delimiter("a)))b", &')', EscapeStyle::Doubled), "a))))b");
    assert_eq!(escape_delimiter("a)b", &"", EscapeStyle::Char('\\')), "a)b");
    assert_eq!(escape_delimiter("", &')', EscapeStyle::Char('\\')), "");
    assert_eq!(escape_delimiter(")", &')', EscapeStyle::Char('!')), "!)");
    assert_eq!(escape_delimiter("!)", &')', EscapeStyle::Char('!')), "!)");
    assert_eq!(escape_delimiter("!!)", &')', EscapeStyle::Char('!')), "!!!)");
}

#[test]
fn closing_characters() {
    assert_eq!(match_closing_char('('), ')');
    assert_eq!(match_closing_char('<'), '>');
    assert_eq!(match_closing_char('['), ']');
    assert_eq!(match_closing_char('{'), '}');
    assert_eq!(match_closing_char('\u{201E}'), '\u{201C}');
    assert_eq!(match_closing_char('\u{2039}'), '\u{203A}');
    assert_eq!(match_closing_char('"'), '"');
    assert_eq!(match_closing_char(')'), ')');
    assert_eq!(match_closing_char('~'), '~');
}

#[test]
fn enclose_variants() {
    assert_eq!("x".enclose('[', ']'), "[x]");
    assert_eq!("x".in_parentheses(None), "(x)");
    assert_eq!("x".in_parentheses(Some("?:")), "(?:x)");
    assert_eq!("a)".parenthesize_safe(), r#"(a\))"#);
    assert_eq!("it's".single_quotes(), "'it's'");
    assert_eq!("it's".single_quotes_safe(), r#"'it\'s'"#);
    assert_eq!(r#"a"b"#.double_quotes_doubled(), r#""a""b""#);
    assert_eq!("".parenthesize(), "()");
    let owned = String::from("o)");
    assert_eq!(owned.enclose_safe('(', ')'), r#"(o\))"#);
    assert_eq!(owned.wrap_escaped('(', EscapeStyle::Doubled), "(o)))");
}

#[test]
fn scan_option_builders() {
    let plain = ScanOptions::plain();
    assert_eq!(plain.escape, EscapeStyle::Verbatim);
    assert!(plain.quotes.is_empty());
    assert_eq!(plain.nesting, Nesting::Flat);
    let quoted = ScanOptions::quoted();
    assert_eq!(quoted.escape, EscapeStyle::Char('\\'));
    assert_eq!(quoted.quotes, &['"', '\''][..]);
    assert_eq!(quoted.nesting, Nesting::Delimiters);
    let escaped = ScanOptions::escaped(EscapeStyle::Doubled);
    assert_eq!(escaped.escape, EscapeStyle::Doubled);
    assert_eq!(escaped.nesting, Nesting::Flat);
    let built = ScanOptions::default()
        .with_escape(EscapeStyle::Char('!'))
        .with_quotes(&['`'])
        .with_nesting(Nesting::Pair('(', ')'));
    assert_eq!(built.escape, EscapeStyle::Char('!'));
    assert_eq!(built.quotes, &['`'][..]);
    assert_eq!(built.nesting, Nesting::Pair('(', ')'));
    assert_eq!(EscapeStyle::default(), EscapeStyle::Verbatim);
    assert_eq!(Nesting::default(), Nesting::Flat);
}

#[test]
fn captured_segment_accessors() {
    let outside = CapturedSegment::Outside("out");
    assert_eq!(outside.as_str(), "out");
    assert!(outside.is_outside());
    assert!(!outside.is_enclosure());
    assert_eq!(outside.enclosure(), None);
    let owned = CapturedSegment::Enclosure(Cow::Owned("in".to_string()));
    assert_eq!(owned.as_str(), "in");
    assert!(owned.is_enclosure());
    assert_eq!(owned.enclosure(), Some("in"));
    let copy = owned.clone();
    assert_eq!(copy, owned);
    assert!(matches!(copy, CapturedSegment::Enclosure(Cow::Owned(_))));
}

#[test]
fn rewritten_enclosures_are_owned() {
    let segments = r#"(a\)b)(plain)"#.extract_enclosures('(', ')', EscapeStyle::Char('\\'));
    assert!(matches!(&segments[0], CapturedSegment::Enclosure(Cow::Owned(_))));
    assert!(matches!(&segments[1], CapturedSegment::Enclosure(Cow::Borrowed(_))));
    let doubled = r#""a ""x"" b""#.extract_enclosures('"', '"', EscapeStyle::Doubled);
    assert!(matches!(&doubled[0], CapturedSegment::Enclosure(Cow::Owned(_))));
}

#[test]
fn nested_enclosures_without_unescaping_are_borrowed() {
    let nested = "f(g(x))".extract_captures('(');
    assert_eq!(nested[1], CapturedSegment::Enclosure(Cow::Borrowed("g(x)")));
    assert!(matches!(&nested[1], CapturedSegment::Enclosure(Cow::Borrowed(_))));
    let call = "f(g(x), y)".extract_captures('(');
    assert_eq!(
        call,
        vec![
            CapturedSegment::Outside("f"),
            CapturedSegment::Enclosure(Cow::Borrowed("g(x), y")),
        ]
    );
    assert!(matches!(&call[1], CapturedSegment::Enclosure(Cow::Borrowed(_))));
    let quoted = r#"f("a)", [b])"#.extract_captures('(');
    assert!(matches!(&quoted[1], CapturedSegment::Enclosure(Cow::Borrowed(r#""a)", [b]"#))));
    let escaped = r#"f(g(x\)))"#.extract_captures('(');
    assert_eq!(escaped[1], CapturedSegment::Enclosure(Cow::Owned("g(x))".to_string())));
    assert!(matches!(&escaped[1], CapturedSegment::Enclosure(Cow::Owned(_))));
}

#[test]
fn quoted_regions_and_escapes() {
    let options = ScanOptions::default().with_quotes(&['"']).with_escape(EscapeStyle::Char('\\'));
    assert_eq!(
        r#"("a \" ) b")"#.extract_first_enclosure_with('(', ')', options),
        Some(r#""a \" ) b""#.to_string())
    );
    // an unterminated quoted region swallows the closing delimiter
    assert_eq!(r#"("never)"#.extract_first_enclosure_with('(', ')', options), None);
}

#[test]
fn pair_nesting_counts_its_own_pair() {
    let options = ScanOptions::default().with_nesting(Nesting::Pair('[', ']'));
    assert_eq!(
        "<a[b>c]d>".extract_first_enclosure_with('<', '>', options),
        Some("a[b>c]d".to_string())
    );
    // an identical pair is never counted
    let same = ScanOptions::default().with_nesting(Nesting::Pair('|', '|'));
    assert_eq!("<a|b>c|>".extract_first_enclosure_with('<', '>', same), Some("a|b".to_string()));
}

#[test]
fn escaped_opening_delimiter_is_content() {
    assert_eq!(r#"(a\(b)"#.extract_enclosed('('), Some("a(b".to_string()));
    assert_eq!(r#"(a\qb)"#.extract_enclosed('('), Some(r#"a\qb"#.to_string()));
}

#[test]
fn all_enclosed_on_empty_and_unicode() {
    assert_eq!("".extract_all_enclosed('('), Vec::<String>::new());
    assert_eq!(
        "\u{201C}a\u{201C}b\u{201D}\u{201D}".extract_all_enclosed('\u{201C}'),
        vec!["a\u{201C}b\u{201D}".to_string(), "b".to_string()]
    );
    assert_eq!("()".extract_all_enclosed('('), vec![String::new()]);
}

#[test]
fn nth_balanced_past_the_end() {
    assert_eq!("(a)(b)".extract_nth_balanced('(', 2), None);
    assert_eq!("(a)(b)".extract_nth_balanced('(', 1), Some("b".to_string()));
    assert_eq!("".extract_balanced('('), None);
}


#[test]
fn boxed_and_borrowed_texts() {
    let boxed: Box<str> = Box::from("b)");
    assert_eq!(boxed.parenthesize_safe(), r#"(b\))"#);
    assert_eq!(Box::<str>::from("(x)").extract_from_parentheses(), Some("x".to_string()));
    let cow: Cow<str> = Cow::Borrowed("[y]");
    assert_eq!(cow.extract_from_brackets(), Some("y".to_string()));
    let owned: Cow<str> = Cow::Owned("z".to_string());
    assert_eq!(owned.double_quotes(), "\"z\"");
}
