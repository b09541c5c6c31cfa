//! Wrap, escape and extract text enclosed in matching or complementary
//! delimiters, with every operation verified against a model of the text as
//! a sequence of characters.
mod delimiter;
mod escape;
pub mod idempotence;
mod match_closing;
pub mod nesting;
pub mod round_trip;
mod scan;
pub mod segmentation;
mod text;
mod unwrap;

pub use delimiter::{
    byte_offset, first_match_from, lemma_byte_offset_zero, lemma_encode_concat,
    lemma_first_match_from, lemma_matches_single, matches_at, Delimiter,
};
pub use escape::{
    escape_char_from, escape_delimiter, escape_doubled_from, spec_escape, EscapeStyle,
};
pub use match_closing::{closing_char, has_counterpart, law_closing_char_table, match_closing_char};
pub use scan::{Nesting, ScanOptions};
pub use text::{chars_to_string, str_to_chars};
pub use unwrap::{
    captures_spec, closes_doubled, enclosures, first_enclosure, flat_segments, groups_before,
    is_escape_char, is_pair_close, law_content_owned_iff_rewritten, lemma_enclosures_append,
    lemma_scan_advances, matched_pairs, nested_groups, opener_len, option_view, pair_scan,
    rewritten_iff_owned, scan_content_spec, scan_from, segment_text, segment_views, segments_from,
    spec_segments, string_views, CapturedSegment, SegmentView, SimpleExtract,
};

use std::borrow::Cow;

use vstd::prelude::*;
use vstd::utf8::{encode_utf8, is_char_boundary};

use crate::text::{push_char, push_chars};

verus! {

/// `text` enclosed in `start` and `end`, with occurrences of `end` inside it
/// protected according to `style`.
pub open spec fn spec_enclose(
    text: Seq<char>,
    start: Seq<char>,
    end: Seq<char>,
    style: EscapeStyle,
) -> Seq<char> {
    start + spec_escape(text, end, style) + end
}

/// Enclose `text` in `start` and `end`, protecting `end` inside it.
fn enclose_text<S: Delimiter, E: Delimiter>(text: &str, start: S, end: E, escape: EscapeStyle) -> (out:
    String)
    ensures
        out@ == spec_enclose(text@, start.token(), end.token(), escape),
{
    let mut out = escape_delimiter(text, &end, escape);
    let ghost escaped = out@;
    proof {
        broadcast use vstd::utf8::encode_utf8_valid_utf8;

        assert(is_char_boundary(encode_utf8(escaped), 0));
    }
    start.insert_into(&mut out, 0);
    proof {
        let k = choose|k: int|
            0 <= k <= escaped.len() && byte_offset(escaped, k) == 0 && out@ == escaped.take(k)
                + start.token() + escaped.skip(k);
        if k > 0 {
            lemma_byte_offset_zero(escaped, k);
        }
        assert(escaped.take(0) + start.token() + escaped.skip(0) =~= start.token() + escaped);
    }
    end.push_to(&mut out);
    out
}

/// Extension methods to wrap text in bounding characters.
pub trait SimpleEnclose: View<V = Seq<char>> {
    /// The single method an implementor must provide. Everything else in this
    /// trait is built on it.
    ///
    /// `start` and `end` may each be a `char`, a `&str` or a `String`. A
    /// multi-character opening such as `"(?="` carries any prefix itself.
    fn enclose_in_chars<S: Delimiter, E: Delimiter>(&self, start: S, end: E, escape: EscapeStyle) -> (out:
        String)
        ensures
            out@ == spec_enclose(self@, start.token(), end.token(), escape),
    ;

    /// Enclose in a start and an end delimiter with the given escape style.
    fn enclose_escaped<S: Delimiter, E: Delimiter>(&self, start: S, end: E, escape: EscapeStyle) -> (out:
        String)
        ensures
            out@ == spec_enclose(self@, start.token(), end.token(), escape),
    {
        self.enclose_in_chars(start, end, escape)
    }

    /// Enclose in a start and an end delimiter, leaving the content untouched.
    fn enclose<S: Delimiter, E: Delimiter>(&self, start: S, end: E) -> (out: String)
        ensures
            out@ == start.token() + self@ + end.token(),
    {
        self.enclose_in_chars(start, end, EscapeStyle::Verbatim)
    }

    /// Enclose in a start and an end delimiter, escaping the closing one with a
    /// backslash where it occurs in the content.
    fn enclose_safe<S: Delimiter, E: Delimiter>(&self, start: S, end: E) -> (out: String)
        ensures
            out@ == spec_enclose(self@, start.token(), end.token(), EscapeStyle::Char('\\')),
    {
        self.enclose_in_chars(start, end, EscapeStyle::Char('\\'))
    }

    /// Wrap in `opening` and its closing character (see
    /// [`match_closing_char`]), with the given escape style.
    fn wrap_escaped(&self, opening: char, escape: EscapeStyle) -> (out: String)
        ensures
            out@ == spec_enclose(self@, seq![opening], seq![closing_char(opening)], escape),
    {
        let end = match_closing_char(opening);
        self.enclose_in_chars(opening, end, escape)
    }

    /// Wrap in matching opening and closing characters.
    fn wrap(&self, opening: char) -> (out: String)
        ensures
            out@ == seq![opening] + self@ + seq![closing_char(opening)],
    {
        let end = match_closing_char(opening);
        self.enclose_in_chars(opening, end, EscapeStyle::Verbatim)
    }

    /// Wrap in matching characters escaped by a backslash.
    fn wrap_safe(&self, opening: char) -> (out: String)
        ensures
            out@ == spec_enclose(
                self@,
                seq![opening],
                seq![closing_char(opening)],
                EscapeStyle::Char('\\'),
            ),
    {
        let end = match_closing_char(opening);
        self.enclose_in_chars(opening, end, EscapeStyle::Char('\\'))
    }

    /// Wrap in matching characters using the doubling convention, as CSV does.
    fn wrap_doubled(&self, opening: char) -> (out: String)
        ensures
            out@ == spec_enclose(
                self@,
                seq![opening],
                seq![closing_char(opening)],
                EscapeStyle::Doubled,
            ),
    {
        let end = match_closing_char(opening);
        self.enclose_in_chars(opening, end, EscapeStyle::Doubled)
    }

    /// Wrap in parentheses with an optional prefix before the main content,
    /// e.g. `Some("?=")` gives `(?=content)`.
    fn in_parentheses(&self, prefix: Option<&str>) -> (out: String)
        ensures
            out@ == match prefix {
                Some(pre) => seq!['('] + pre@ + self@ + seq![')'],
                None => seq!['('] + self@ + seq![')'],
            },
    {
        match prefix {
            Some(pre) => {
                let mut opening = String::new();
                push_char(&mut opening, '(');
                push_chars(&mut opening, &str_to_chars(pre));
                self.enclose_in_chars(opening, ')', EscapeStyle::Verbatim)
            },
            None => self.enclose_in_chars('(', ')', EscapeStyle::Verbatim),
        }
    }

    /// Wrap in parentheses.
    fn parenthesize(&self) -> (out: String)
        ensures
            out@ == seq!['('] + self@ + seq![')'],
    {
        self.wrap('(')
    }

    /// Wrap in parentheses, escaping any closing one in the content.
    fn parenthesize_safe(&self) -> (out: String)
        ensures
            out@ == spec_enclose(self@, seq!['('], seq![')'], EscapeStyle::Char('\\')),
    {
        self.wrap_safe('(')
    }

    /// Wrap in double quotes.
    fn double_quotes(&self) -> (out: String)
        ensures
            out@ == seq!['"'] + self@ + seq!['"'],
    {
        self.wrap('"')
    }

    /// Wrap in single quotes.
    fn single_quotes(&self) -> (out: String)
        ensures
            out@ == seq!['\''] + self@ + seq!['\''],
    {
        self.wrap('\'')
    }

    /// Wrap in double quotes with escaped quotes in the content.
    fn double_quotes_safe(&self) -> (out: String)
        ensures
            out@ == spec_enclose(self@, seq!['"'], seq!['"'], EscapeStyle::Char('\\')),
    {
        self.wrap_escaped('"', EscapeStyle::Char('\\'))
    }

    /// Wrap in single quotes with escaped quotes in the content.
    fn single_quotes_safe(&self) -> (out: String)
        ensures
            out@ == spec_enclose(self@, seq!['\''], seq!['\''], EscapeStyle::Char('\\')),
    {
        self.wrap_escaped('\'', EscapeStyle::Char('\\'))
    }

    /// Wrap in double quotes, doubling any in the content, as CSV does.
    fn double_quotes_doubled(&self) -> (out: String)
        ensures
            out@ == spec_enclose(self@, seq!['"'], seq!['"'], EscapeStyle::Doubled),
    {
        self.wrap_doubled('"')
    }
}

impl SimpleEnclose for str {
    fn enclose_in_chars<S: Delimiter, E: Delimiter>(&self, start: S, end: E, escape: EscapeStyle) -> (out:
        String) {
        enclose_text(self, start, end, escape)
    }
}

impl<'t> SimpleEnclose for &'t str {
    fn enclose_in_chars<S: Delimiter, E: Delimiter>(&self, start: S, end: E, escape: EscapeStyle) -> (out:
        String) {
        enclose_text(*self, start, end, escape)
    }
}

impl SimpleEnclose for String {
    fn enclose_in_chars<S: Delimiter, E: Delimiter>(&self, start: S, end: E, escape: EscapeStyle) -> (out:
        String) {
        enclose_text(self.as_str(), start, end, escape)
    }
}

impl SimpleEnclose for Box<str> {
    fn enclose_in_chars<S: Delimiter, E: Delimiter>(&self, start: S, end: E, escape: EscapeStyle) -> (out:
        String) {
        enclose_text(&**self, start, end, escape)
    }
}

impl<'c> SimpleEnclose for Cow<'c, str> {
    fn enclose_in_chars<S: Delimiter, E: Delimiter>(&self, start: S, end: E, escape: EscapeStyle) -> (out:
        String) {
        match self {
            Cow::Borrowed(text) => enclose_text(*text, start, end, escape),
            Cow::Owned(text) => enclose_text(text.as_str(), start, end, escape),
        }
    }
}

} // verus!
