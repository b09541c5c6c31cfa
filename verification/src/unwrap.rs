use std::borrow::Cow;

use vstd::prelude::*;
use vstd::string::StrSliceExecFns;

use crate::delimiter::{
    find_token, first_match_from, lemma_first_match_from, match_token, matches_at, Delimiter,
};
use crate::escape::EscapeStyle;
use crate::match_closing::{closing_char, match_closing_char};
use crate::scan::{Nesting, ScanOptions};
use crate::text::{chars_to_string, contains_char, extend_range, str_to_chars};

verus! {

/// One piece of a segmented string: either the content of an enclosure, or the
/// plain text outside the enclosures, delimiters excluded.
///
/// `Enclosure` is a `Cow` because escape characters are dropped from the
/// content, so an escaped enclosure is not a contiguous slice of the source.
/// Where nothing was rewritten it borrows. `Outside` is never rewritten, so it
/// always borrows.
#[derive(Debug, PartialEq, Eq)]
pub enum CapturedSegment<'a> {
    Enclosure(Cow<'a, str>),
    Outside(&'a str),
}

impl<'a> Clone for CapturedSegment<'a> {
    fn clone(&self) -> (copy: Self)
        ensures
            copy@ == self@,
    {
        match self {
            CapturedSegment::Enclosure(text) => match text {
                Cow::Borrowed(borrowed) => CapturedSegment::Enclosure(Cow::Borrowed(*borrowed)),
                Cow::Owned(owned) => CapturedSegment::Enclosure(Cow::Owned(owned.clone())),
            },
            CapturedSegment::Outside(text) => CapturedSegment::Outside(*text),
        }
    }
}

/// The model of a segment: its kind and its characters, and for an
/// enclosure whether its text is owned (rewritten) rather than borrowed.
pub enum SegmentView {
    Enclosure(Seq<char>, bool),
    Outside(Seq<char>),
}

impl<'a> View for CapturedSegment<'a> {
    type V = SegmentView;

    open spec fn view(&self) -> SegmentView {
        match self {
            CapturedSegment::Enclosure(text) => SegmentView::Enclosure(text@, text is Owned),
            CapturedSegment::Outside(text) => SegmentView::Outside(text@),
        }
    }
}

/// The characters of a segment, whichever kind it is.
pub open spec fn segment_text(segment: SegmentView) -> Seq<char> {
    match segment {
        SegmentView::Enclosure(text, _) => text,
        SegmentView::Outside(text) => text,
    }
}

impl<'a> CapturedSegment<'a> {
    /// The text of this segment, whichever kind it is.
    pub fn as_str(&self) -> (text: &str)
        ensures
            text@ == segment_text(self@),
    {
        match self {
            CapturedSegment::Enclosure(text) => match text {
                Cow::Borrowed(borrowed) => borrowed,
                Cow::Owned(owned) => owned.as_str(),
            },
            CapturedSegment::Outside(text) => text,
        }
    }

    /// Whether this is the content of an enclosure.
    pub fn is_enclosure(&self) -> (r: bool)
        ensures
            r == (self@ is Enclosure),
    {
        matches!(self, CapturedSegment::Enclosure(_))
    }

    /// Whether this is text outside the enclosures.
    pub fn is_outside(&self) -> (r: bool)
        ensures
            r == (self@ is Outside),
    {
        matches!(self, CapturedSegment::Outside(_))
    }

    /// The text if this is an enclosure, otherwise `None`.
    pub fn enclosure(&self) -> (r: Option<&str>)
        ensures
            match self@ {
                SegmentView::Enclosure(text, _) => r matches Some(found) && found@ == text,
                SegmentView::Outside(_) => r is None,
            },
    {
        match self {
            CapturedSegment::Enclosure(text) => match text {
                Cow::Borrowed(borrowed) => Some(*borrowed),
                Cow::Owned(owned) => Some(owned.as_str()),
            },
            CapturedSegment::Outside(_) => None,
        }
    }
}

/// `c` is the escape character of `escape`.
pub open spec fn is_escape_char(escape: EscapeStyle, c: char) -> bool {
    match escape {
        EscapeStyle::Char(e) => c == e,
        _ => false,
    }
}

/// Under `escape`, a doubled closing token `end` stands for one literal
/// closing token: always with `Doubled`, and with `Char(e)` where the closing
/// token is `e` itself, since escaping produces exactly that doubled pair.
pub open spec fn closes_doubled(escape: EscapeStyle, end: Seq<char>) -> bool {
    match escape {
        EscapeStyle::Doubled => true,
        EscapeStyle::Char(e) => end == seq![e],
        EscapeStyle::Verbatim => false,
    }
}

/// `c` is the closing character of a `Nesting::Pair`.
pub open spec fn is_pair_close(nesting: Nesting, c: char) -> bool {
    match nesting {
        Nesting::Pair(_, close) => c == close,
        _ => false,
    }
}

/// Length of the nested opening that starts at `i`, or 0 where none does.
/// An opening identical to the closing one is never counted.
pub open spec fn opener_len(
    hay: Seq<char>,
    start: Seq<char>,
    end: Seq<char>,
    nesting: Nesting,
    i: int,
) -> int {
    match nesting {
        Nesting::Flat => 0,
        Nesting::Delimiters => if matches_at(hay, start, i) && !matches_at(hay, end, i) {
            start.len() as int
        } else {
            0
        },
        Nesting::Pair(open, close) => if 0 <= i < hay.len() && hay[i] == open && open != close {
            1
        } else {
            0
        },
    }
}

/// The scan of enclosure content from position `i` of `hay`.
///
/// `depth` counts the nested openings still open, `quote` is the quoted
/// region currently open, `out` is the content read so far and `owned` says
/// whether a character has been dropped (half of a doubled closing delimiter,
/// or an escape character), so that the content has stopped being a plain
/// slice of `hay`. The result is
/// the content, the position just past the closing delimiter and the final
/// `owned`; `None` where the content is never closed.
///
/// At each position, in this order: inside a quoted region an escaped
/// character is copied with the escape, and the quote character closes the
/// region; a quote character opens a region; a pair closing character closes a
/// nested pair; the closing delimiter is a literal where doubled (see
/// `closes_doubled`), closes a nested opening where one is open, and otherwise
/// ends the content; a nested opening is counted; the escape character before
/// an opening or closing delimiter is dropped and the delimiter kept as
/// content; any other character is content.
pub open spec fn scan_from(
    hay: Seq<char>,
    start: Seq<char>,
    end: Seq<char>,
    escape: EscapeStyle,
    quotes: Seq<char>,
    nesting: Nesting,
    i: int,
    depth: nat,
    quote: Option<char>,
    out: Seq<char>,
    owned: bool,
) -> Option<(Seq<char>, int, bool)>
    decreases hay.len() - i,
{
    if i < 0 || i >= hay.len() {
        None
    } else if quote is Some {
        let c = hay[i];
        if is_escape_char(escape, c) && i + 1 < hay.len() {
            scan_from(
                hay,
                start,
                end,
                escape,
                quotes,
                nesting,
                i + 2,
                depth,
                quote,
                out.push(c).push(hay[i + 1]),
                owned,
            )
        } else {
            let next_quote = if c == quote->0 {
                None
            } else {
                quote
            };
            scan_from(
                hay,
                start,
                end,
                escape,
                quotes,
                nesting,
                i + 1,
                depth,
                next_quote,
                out.push(c),
                owned,
            )
        }
    } else if quotes.contains(hay[i]) {
        scan_from(
            hay,
            start,
            end,
            escape,
            quotes,
            nesting,
            i + 1,
            depth,
            Some(hay[i]),
            out.push(hay[i]),
            owned,
        )
    } else if depth > 0 && is_pair_close(nesting, hay[i]) {
        scan_from(
            hay,
            start,
            end,
            escape,
            quotes,
            nesting,
            i + 1,
            (depth - 1) as nat,
            None,
            out.push(hay[i]),
            owned,
        )
    } else if matches_at(hay, end, i) {
        let w = end.len() as int;
        if closes_doubled(escape, end) && matches_at(hay, end, i + w) {
            scan_from(hay, start, end, escape, quotes, nesting, i + 2 * w, depth, None, out + end, true)
        } else if depth > 0 {
            scan_from(
                hay,
                start,
                end,
                escape,
                quotes,
                nesting,
                i + w,
                (depth - 1) as nat,
                None,
                out + end,
                owned,
            )
        } else {
            Some((out, i + w, owned))
        }
    } else if opener_len(hay, start, end, nesting, i) > 0 {
        let w = opener_len(hay, start, end, nesting, i);
        scan_from(
            hay,
            start,
            end,
            escape,
            quotes,
            nesting,
            i + w,
            depth + 1,
            None,
            out + hay.subrange(i, i + w),
            owned,
        )
    } else if is_escape_char(escape, hay[i]) {
        if matches_at(hay, start, i + 1) {
            scan_from(
                hay,
                start,
                end,
                escape,
                quotes,
                nesting,
                i + 1 + start.len(),
                depth,
                None,
                out + start,
                true,
            )
        } else if matches_at(hay, end, i + 1) {
            scan_from(
                hay,
                start,
                end,
                escape,
                quotes,
                nesting,
                i + 1 + end.len(),
                depth,
                None,
                out + end,
                true,
            )
        } else {
            scan_from(hay, start, end, escape, quotes, nesting, i + 1, depth, None, out.push(hay[i]), owned)
        }
    } else {
        scan_from(hay, start, end, escape, quotes, nesting, i + 1, depth, None, out.push(hay[i]), owned)
    }
}

/// The scan of the content that starts at position `i` of `hay`, with nothing
/// open and nothing read yet.
pub open spec fn scan_content_spec(
    hay: Seq<char>,
    start: Seq<char>,
    end: Seq<char>,
    escape: EscapeStyle,
    quotes: Seq<char>,
    nesting: Nesting,
    i: int,
) -> Option<(Seq<char>, int, bool)> {
    scan_from(hay, start, end, escape, quotes, nesting, i, 0, None, seq![], false)
}

/// Where a scan closes, it closes past the position it started from.
pub proof fn lemma_scan_advances(
    hay: Seq<char>,
    start: Seq<char>,
    end: Seq<char>,
    escape: EscapeStyle,
    quotes: Seq<char>,
    nesting: Nesting,
    i: int,
    depth: nat,
    quote: Option<char>,
    out: Seq<char>,
    owned: bool,
)
    ensures
        scan_from(hay, start, end, escape, quotes, nesting, i, depth, quote, out, owned) matches Some(
            r,
        ) ==> i < r.1 <= hay.len(),
    decreases hay.len() - i,
{
    if 0 <= i < hay.len() {
        let c = hay[i];
        if quote is Some {
            if is_escape_char(escape, c) && i + 1 < hay.len() {
                lemma_scan_advances(
                    hay,
                    start,
                    end,
                    escape,
                    quotes,
                    nesting,
                    i + 2,
                    depth,
                    quote,
                    out.push(c).push(hay[i + 1]),
                    owned,
                );
            } else {
                let next_quote = if c == quote->0 {
                    None
                } else {
                    quote
                };
                lemma_scan_advances(
                    hay,
                    start,
                    end,
                    escape,
                    quotes,
                    nesting,
                    i + 1,
                    depth,
                    next_quote,
                    out.push(c),
                    owned,
                );
            }
        } else if quotes.contains(c) {
            lemma_scan_advances(
                hay,
                start,
                end,
                escape,
                quotes,
                nesting,
                i + 1,
                depth,
                Some(c),
                out.push(c),
                owned,
            );
        } else if depth > 0 && is_pair_close(nesting, c) {
            lemma_scan_advances(
                hay,
                start,
                end,
                escape,
                quotes,
                nesting,
                i + 1,
                (depth - 1) as nat,
                None,
                out.push(c),
                owned,
            );
        } else if matches_at(hay, end, i) {
            let w = end.len() as int;
            if closes_doubled(escape, end) && matches_at(hay, end, i + w) {
                lemma_scan_advances(
                    hay,
                    start,
                    end,
                    escape,
                    quotes,
                    nesting,
                    i + 2 * w,
                    depth,
                    None,
                    out + end,
                    true,
                );
            } else if depth > 0 {
                lemma_scan_advances(
                    hay,
                    start,
                    end,
                    escape,
                    quotes,
                    nesting,
                    i + w,
                    (depth - 1) as nat,
                    None,
                    out + end,
                    owned,
                );
            }
        } else if opener_len(hay, start, end, nesting, i) > 0 {
            let w = opener_len(hay, start, end, nesting, i);
            lemma_scan_advances(
                hay,
                start,
                end,
                escape,
                quotes,
                nesting,
                i + w,
                depth + 1,
                None,
                out + hay.subrange(i, i + w),
                owned,
            );
        } else if is_escape_char(escape, c) {
            if matches_at(hay, start, i + 1) {
                lemma_scan_advances(
                    hay,
                    start,
                    end,
                    escape,
                    quotes,
                    nesting,
                    i + 1 + start.len(),
                    depth,
                    None,
                    out + start,
                    true,
                );
            } else if matches_at(hay, end, i + 1) {
                lemma_scan_advances(
                    hay,
                    start,
                    end,
                    escape,
                    quotes,
                    nesting,
                    i + 1 + end.len(),
                    depth,
                    None,
                    out + end,
                    true,
                );
            } else {
                lemma_scan_advances(
                    hay,
                    start,
                    end,
                    escape,
                    quotes,
                    nesting,
                    i + 1,
                    depth,
                    None,
                    out.push(c),
                    owned,
                );
            }
        } else {
            lemma_scan_advances(
                hay,
                start,
                end,
                escape,
                quotes,
                nesting,
                i + 1,
                depth,
                None,
                out.push(c),
                owned,
            );
        }
    }
}

/// Along a scan that started at `base`, content that was never rewritten is
/// the source read so far, and rewritten content is strictly shorter than it;
/// so where the scan closes, its content is owned exactly when it differs from
/// the source between `base` and the closing delimiter.
proof fn lemma_scan_owned(
    hay: Seq<char>,
    start: Seq<char>,
    end: Seq<char>,
    escape: EscapeStyle,
    quotes: Seq<char>,
    nesting: Nesting,
    base: int,
    i: int,
    depth: nat,
    quote: Option<char>,
    out: Seq<char>,
    owned: bool,
)
    requires
        0 <= base <= i,
        owned ==> out.len() < i - base,
        !owned ==> i <= hay.len() && out == hay.subrange(base, i),
    ensures
        scan_from(hay, start, end, escape, quotes, nesting, i, depth, quote, out, owned) matches Some(
            r,
        ) ==> rewritten_iff_owned(hay, end, base, r) && matches_at(hay, end, r.1 - end.len()),
    decreases hay.len() - i,
{
    if 0 <= i < hay.len() {
        let c = hay[i];
        if quote is Some {
            if is_escape_char(escape, c) && i + 1 < hay.len() {
                if !owned {
                    assert(hay.subrange(base, i + 2) =~= out.push(c).push(hay[i + 1]));
                }
                lemma_scan_owned(hay, start, end, escape, quotes, nesting, base, i + 2, depth, quote,
                    out.push(c).push(hay[i + 1]), owned);
            } else {
                let next_quote = if c == quote->0 {
                    None
                } else {
                    quote
                };
                if !owned {
                    assert(hay.subrange(base, i + 1) =~= out.push(c));
                }
                lemma_scan_owned(hay, start, end, escape, quotes, nesting, base, i + 1, depth,
                    next_quote, out.push(c), owned);
            }
        } else if quotes.contains(c) {
            if !owned {
                assert(hay.subrange(base, i + 1) =~= out.push(c));
            }
            lemma_scan_owned(hay, start, end, escape, quotes, nesting, base, i + 1, depth, Some(c),
                out.push(c), owned);
        } else if depth > 0 && is_pair_close(nesting, c) {
            if !owned {
                assert(hay.subrange(base, i + 1) =~= out.push(c));
            }
            lemma_scan_owned(hay, start, end, escape, quotes, nesting, base, i + 1,
                (depth - 1) as nat, None, out.push(c), owned);
        } else if matches_at(hay, end, i) {
            let w = end.len() as int;
            if closes_doubled(escape, end) && matches_at(hay, end, i + w) {
                lemma_scan_owned(hay, start, end, escape, quotes, nesting, base, i + 2 * w, depth,
                    None, out + end, true);
            } else if depth > 0 {
                if !owned {
                    assert(hay.subrange(base, i + w) =~= out + end);
                }
                lemma_scan_owned(hay, start, end, escape, quotes, nesting, base, i + w,
                    (depth - 1) as nat, None, out + end, owned);
            }
        } else if opener_len(hay, start, end, nesting, i) > 0 {
            let w = opener_len(hay, start, end, nesting, i);
            if !owned {
                assert(hay.subrange(base, i + w) =~= out + hay.subrange(i, i + w));
            }
            lemma_scan_owned(hay, start, end, escape, quotes, nesting, base, i + w, depth + 1, None,
                out + hay.subrange(i, i + w), owned);
        } else if is_escape_char(escape, c) {
            if matches_at(hay, start, i + 1) {
                lemma_scan_owned(hay, start, end, escape, quotes, nesting, base, i + 1 + start.len(),
                    depth, None, out + start, true);
            } else if matches_at(hay, end, i + 1) {
                lemma_scan_owned(hay, start, end, escape, quotes, nesting, base, i + 1 + end.len(),
                    depth, None, out + end, true);
            } else {
                if !owned {
                    assert(hay.subrange(base, i + 1) =~= out.push(c));
                }
                lemma_scan_owned(hay, start, end, escape, quotes, nesting, base, i + 1, depth, None,
                    out.push(c), owned);
            }
        } else {
            if !owned {
                assert(hay.subrange(base, i + 1) =~= out.push(c));
            }
            lemma_scan_owned(hay, start, end, escape, quotes, nesting, base, i + 1, depth, None,
                out.push(c), owned);
        }
    }
}

/// A scan result `r` of content that started at `base`: the closing delimiter
/// lies at or after `base`, and the content is owned exactly when it is not
/// the source between `base` and that delimiter.
pub open spec fn rewritten_iff_owned(
    hay: Seq<char>,
    end: Seq<char>,
    base: int,
    r: (Seq<char>, int, bool),
) -> bool {
    &&& base <= r.1 - end.len()
    &&& (r.2 <==> r.0 != hay.subrange(base, r.1 - end.len()))
}

/// Content is copied only where a character is dropped: the scan of an
/// enclosure's content returns it owned exactly when it differs from the
/// source between the opening and the closing delimiter, which stands right
/// before the position where the scan stops.
pub proof fn law_content_owned_iff_rewritten(
    hay: Seq<char>,
    start: Seq<char>,
    end: Seq<char>,
    escape: EscapeStyle,
    quotes: Seq<char>,
    nesting: Nesting,
    i: int,
)
    requires
        0 <= i <= hay.len(),
    ensures
        scan_content_spec(hay, start, end, escape, quotes, nesting, i) matches Some(r)
            ==> rewritten_iff_owned(hay, end, i, r) && matches_at(hay, end, r.1 - end.len()),
{
    assert(hay.subrange(i, i) =~= Seq::<char>::empty());
    lemma_scan_owned(hay, start, end, escape, quotes, nesting, i, i, 0, None, seq![], false);
}

/// The content of an enclosure: a slice of the source where nothing was
/// rewritten, otherwise the rewritten characters.
fn finish<'a>(rewritten: Option<Vec<char>>, source: &'a str, from: usize, upto: usize) -> (content:
    Cow<'a, str>)
    requires
        from <= upto <= source@.len(),
    ensures
        match rewritten {
            Some(buffer) => content is Owned && content@ == buffer@,
            None => content is Borrowed && content@ == source@.subrange(from as int, upto as int),
        },
{
    match rewritten {
        Some(buffer) => Cow::Owned(chars_to_string(&buffer)),
        None => Cow::Borrowed(source.substring_char(from, upto)),
    }
}

/// Read enclosure content from position `base` of `source` (whose characters
/// are `hay`), returning the content and the position just past the closing
/// delimiter; `None` if unterminated.
///
/// The content is only copied once a character is actually dropped, so
/// content read without unescaping is returned as a borrowed slice.
fn scan_content<'a>(
    source: &'a str,
    hay: &[char],
    base: usize,
    start: &[char],
    end: &[char],
    escape: EscapeStyle,
    quotes: &[char],
    nesting: Nesting,
) -> (r: Option<(Cow<'a, str>, usize)>)
    requires
        hay@ == source@,
        base <= hay@.len(),
    ensures
        match scan_content_spec(hay@, start@, end@, escape, quotes@, nesting, base as int) {
            None => r is None,
            Some((content, stop, owned)) => r matches Some((text, consumed)) && text@ == content
                && consumed == stop && (owned <==> text is Owned) && base + end@.len() <= consumed
                && (text is Owned <==> text@ != source@.subrange(
                    base as int,
                    consumed - end@.len(),
                )),
        },
{
    let n = hay.len();
    let ghost result = scan_content_spec(hay@, start@, end@, escape, quotes@, nesting, base as int);
    let mut buffer: Vec<char> = Vec::new();
    let mut owned = false;
    let mut index: usize = base;
    let mut depth: usize = 0;
    let mut in_quote: Option<char> = None;
    let ghost mut out: Seq<char> = seq![];
    assert(hay@.subrange(base as int, base as int) =~= out);
    while index < n
        invariant
            n == hay@.len(),
            hay@ == source@,
            result == scan_content_spec(hay@, start@, end@, escape, quotes@, nesting, base as int),
            base <= index,
            depth <= index,
            index <= n + 1,
            owned ==> buffer@ == out,
            !owned ==> out == hay@.subrange(base as int, index as int) && index <= n
                && buffer@.len() == 0,
            scan_from(
                hay@,
                start@,
                end@,
                escape,
                quotes@,
                nesting,
                index as int,
                depth as nat,
                in_quote,
                out,
                owned,
            ) == result,
        decreases n + 1 - index,
    {
        let c = hay[index];
        if let Some(quote_char) = in_quote {
            let escaped_pair = match escape {
                EscapeStyle::Char(e) => c == e && index + 1 < n,
                _ => false,
            };
            if escaped_pair {
                let next = hay[index + 1];
                if owned {
                    buffer.push(c);
                    buffer.push(next);
                }
                proof {
                    if !owned {
                        assert(hay@.subrange(base as int, index + 2) =~= out.push(c).push(next));
                    }
                    out = out.push(c).push(next);
                }
                index += 2;
            } else {
                if c == quote_char {
                    in_quote = None;
                }
                if owned {
                    buffer.push(c);
                }
                proof {
                    if !owned {
                        assert(hay@.subrange(base as int, index + 1) =~= out.push(c));
                    }
                    out = out.push(c);
                }
                index += 1;
            }
        } else if contains_char(quotes, c) {
            in_quote = Some(c);
            if owned {
                buffer.push(c);
            }
            proof {
                if !owned {
                    assert(hay@.subrange(base as int, index + 1) =~= out.push(c));
                }
                out = out.push(c);
            }
            index += 1;
        } else if depth > 0 && match nesting {
            Nesting::Pair(_, close) => c == close,
            _ => false,
        } {
            depth -= 1;
            if owned {
                buffer.push(c);
            }
            proof {
                if !owned {
                    assert(hay@.subrange(base as int, index + 1) =~= out.push(c));
                }
                out = out.push(c);
            }
            index += 1;
        } else {
            let end_width = match_token(end, hay, index);
            if let Some(width) = end_width {
                let doubles = match escape {
                    EscapeStyle::Doubled => true,
                    EscapeStyle::Char(e) => end.len() == 1 && end[0] == e,
                    EscapeStyle::Verbatim => false,
                };
                proof {
                    if let EscapeStyle::Char(e) = escape {
                        if end@.len() == 1 && end@[0] == e {
                            assert(end@ =~= seq![e]);
                        }
                    }
                }
                if doubles && match_token(end, hay, index + width).is_some() {
                    if !owned {
                        extend_range(&mut buffer, hay, base, index);
                        owned = true;
                    }
                    extend_range(&mut buffer, hay, index, index + width);
                    proof {
                        assert(hay@.subrange(index as int, index + width) == end@);
                        out = out + end@;
                    }
                    index += width * 2;
                } else if depth > 0 {
                    depth -= 1;
                    if owned {
                        extend_range(&mut buffer, hay, index, index + width);
                    }
                    proof {
                        assert(hay@.subrange(index as int, index + width) == end@);
                        if !owned {
                            assert(hay@.subrange(base as int, index + width) =~= out + end@);
                        }
                        out = out + end@;
                    }
                    index += width;
                } else {
                    let rewritten = if owned {
                        Some(buffer)
                    } else {
                        None
                    };
                    let content = finish(rewritten, source, base, index);
                    proof {
                        law_content_owned_iff_rewritten(
                            hay@,
                            start@,
                            end@,
                            escape,
                            quotes@,
                            nesting,
                            base as int,
                        );
                    }
                    return Some((content, index + width));
                }
            } else {
                let opener: Option<usize> = match nesting {
                    Nesting::Flat => None,
                    Nesting::Delimiters => {
                        match match_token(start, hay, index) {
                            Some(w) => if end_width.is_none() {
                                Some(w)
                            } else {
                                None
                            },
                            None => None,
                        }
                    },
                    Nesting::Pair(open, close) => {
                        if c == open && c != close {
                            Some(1)
                        } else {
                            None
                        }
                    },
                };
                if let Some(width) = opener {
                    proof {
                        assert(opener_len(hay@, start@, end@, nesting, index as int) == width);
                    }
                    depth += 1;
                    if owned {
                        extend_range(&mut buffer, hay, index, index + width);
                    }
                    proof {
                        if !owned {
                            assert(hay@.subrange(base as int, index + width) =~= out
                                + hay@.subrange(index as int, index + width));
                        }
                        out = out + hay@.subrange(index as int, index + width);
                    }
                    index += width;
                } else {
                    let is_escape = match escape {
                        EscapeStyle::Char(e) => c == e,
                        _ => false,
                    };
                    if is_escape {
                        let after = index + 1;
                        let start_width = match_token(start, hay, after);
                        let width_after = match start_width {
                            Some(w) => Some(w),
                            None => match_token(end, hay, after),
                        };
                        match width_after {
                            Some(width) => {
                                if !owned {
                                    extend_range(&mut buffer, hay, base, index);
                                    owned = true;
                                }
                                extend_range(&mut buffer, hay, after, after + width);
                                proof {
                                    if start_width is Some {
                                        assert(hay@.subrange(after as int, after + width)
                                            == start@);
                                        out = out + start@;
                                    } else {
                                        assert(hay@.subrange(after as int, after + width) == end@);
                                        out = out + end@;
                                    }
                                }
                                index = after + width;
                            },
                            None => {
                                if owned {
                                    buffer.push(c);
                                }
                                proof {
                                    if !owned {
                                        assert(hay@.subrange(base as int, index + 1) =~= out.push(
                                            c,
                                        ));
                                    }
                                    out = out.push(c);
                                }
                                index = after;
                            },
                        }
                    } else {
                        if owned {
                            buffer.push(c);
                        }
                        proof {
                            if !owned {
                                assert(hay@.subrange(base as int, index + 1) =~= out.push(c));
                            }
                            out = out.push(c);
                        }
                        index += 1;
                    }
                }
            }
        }
    }
    None
}


/// The segments of `hay[cursor..]`: the text up to the next opening delimiter
/// (left out where empty), the content of the enclosure it opens, and so on;
/// an opening never closed, and everything after it, is one trailing
/// `Outside`.
pub open spec fn segments_from(
    hay: Seq<char>,
    start: Seq<char>,
    end: Seq<char>,
    escape: EscapeStyle,
    quotes: Seq<char>,
    nesting: Nesting,
    cursor: int,
) -> Seq<SegmentView>
    decreases hay.len() - cursor,
{
    if cursor < 0 || cursor >= hay.len() {
        seq![]
    } else {
        match first_match_from(hay, start, cursor) {
            None => seq![SegmentView::Outside(hay.subrange(cursor, hay.len() as int))],
            Some(at) => match scan_content_spec(
                hay,
                start,
                end,
                escape,
                quotes,
                nesting,
                at + start.len(),
            ) {
                None => seq![SegmentView::Outside(hay.subrange(cursor, hay.len() as int))],
                Some(found) => {
                    proof {
                        lemma_first_match_from(hay, start, cursor);
                        lemma_scan_advances(
                            hay,
                            start,
                            end,
                            escape,
                            quotes,
                            nesting,
                            at + start.len(),
                            0,
                            None,
                            seq![],
                            false,
                        );
                        assert(cursor <= at);
                        assert(cursor < found.1 <= hay.len());
                    }
                    let before = if at > cursor {
                        seq![SegmentView::Outside(hay.subrange(cursor, at))]
                    } else {
                        seq![]
                    };
                    before + seq![SegmentView::Enclosure(found.0, found.2)] + segments_from(
                        hay,
                        start,
                        end,
                        escape,
                        quotes,
                        nesting,
                        found.1,
                    )
                },
            },
        }
    }
}

/// The segments of the whole of `text`.
pub open spec fn spec_segments(
    text: Seq<char>,
    start: Seq<char>,
    end: Seq<char>,
    escape: EscapeStyle,
    quotes: Seq<char>,
    nesting: Nesting,
) -> Seq<SegmentView> {
    segments_from(text, start, end, escape, quotes, nesting, 0)
}

/// The models of a sequence of segments.
pub open spec fn segment_views<'a>(segments: Seq<CapturedSegment<'a>>) -> Seq<SegmentView> {
    segments.map_values(|segment: CapturedSegment<'a>| segment@)
}

/// The contents of the enclosures among `segments`, in order.
pub open spec fn enclosures(segments: Seq<SegmentView>) -> Seq<Seq<char>>
    decreases segments.len(),
{
    if segments.len() == 0 {
        seq![]
    } else {
        enclosures(segments.drop_last()) + match segments.last() {
            SegmentView::Enclosure(text, _) => seq![text],
            SegmentView::Outside(_) => seq![],
        }
    }
}

/// The enclosures of two runs of segments are those of each, in order.
pub proof fn lemma_enclosures_append(a: Seq<SegmentView>, b: Seq<SegmentView>)
    ensures
        enclosures(a + b) == enclosures(a) + enclosures(b),
    decreases b.len(),
{
    if b.len() == 0 {
        assert(a + b =~= a);
        assert(enclosures(b) =~= Seq::<Seq<char>>::empty());
        assert(enclosures(a) + enclosures(b) =~= enclosures(a));
    } else {
        lemma_enclosures_append(a, b.drop_last());
        assert((a + b).drop_last() =~= a + b.drop_last());
        assert((a + b).last() == b.last());
        let tail = match b.last() {
            SegmentView::Enclosure(text, _) => seq![text],
            SegmentView::Outside(_) => Seq::<Seq<char>>::empty(),
        };
        assert(enclosures(a) + enclosures(b.drop_last()) + tail =~= enclosures(a) + (enclosures(
            b.drop_last(),
        ) + tail));
    }
}

/// The content of the first enclosure among `segments`.
pub open spec fn first_enclosure(segments: Seq<SegmentView>) -> Option<Seq<char>> {
    if enclosures(segments).len() > 0 {
        Some(enclosures(segments)[0])
    } else {
        None
    }
}

/// The characters of each string.
pub open spec fn string_views(strings: Seq<String>) -> Seq<Seq<char>> {
    strings.map_values(|s: String| s@)
}

/// The characters of an optional string.
pub open spec fn option_view(r: Option<String>) -> Option<Seq<char>> {
    match r {
        Some(s) => Some(s@),
        None => None,
    }
}

/// Find the next opening at or after `cursor`, returning the position where
/// the opening delimiter starts and the position of the first content
/// character.
fn next_opening(hay: &[char], cursor: usize, start: &[char]) -> (r: Option<(usize, usize)>)
    ensures
        match first_match_from(hay@, start@, cursor as int) {
            None => r is None,
            Some(at) => r == Some((at as usize, (at + start@.len()) as usize)),
        },
{
    match find_token(start, hay, cursor) {
        Some(at) => {
            proof {
                lemma_first_match_from(hay@, start@, cursor as int);
                assert(matches_at(hay@, start@, at as int));
                assert(at + start@.len() <= hay.len());
            }
            let width = match match_token(start, hay, at) {
                Some(w) => w,
                None => 0,
            };
            Some((at, at + width))
        },
        None => None,
    }
}

/// Split `source` into enclosures bounded by `start` and `end` and the plain
/// text around them, under the given scan rules.
fn collect_segments<'a>(
    source: &'a str,
    start: &[char],
    end: &[char],
    escape: EscapeStyle,
    quotes: &[char],
    nesting: Nesting,
) -> (segments: Vec<CapturedSegment<'a>>)
    ensures
        segment_views(segments@) == spec_segments(source@, start@, end@, escape, quotes@, nesting),
{
    let hay = str_to_chars(source);
    let n = hay.len();
    let ghost total = spec_segments(source@, start@, end@, escape, quotes@, nesting);
    let mut segments: Vec<CapturedSegment<'a>> = Vec::new();
    let mut cursor: usize = 0;
    loop
        invariant_except_break
            hay@ == source@,
            n == hay@.len(),
            cursor <= n,
            total == spec_segments(source@, start@, end@, escape, quotes@, nesting),
            segment_views(segments@) + segments_from(
                hay@,
                start@,
                end@,
                escape,
                quotes@,
                nesting,
                cursor as int,
            ) == total,
        ensures
            segment_views(segments@) == total,
        decreases n - cursor,
    {
        if cursor >= n {
            assert(segment_views(segments@) + seq![] == segment_views(segments@));
            break;
        }
        let ghost before = segments@;
        match next_opening(&hay, cursor, start) {
            None => {
                segments.push(CapturedSegment::Outside(source.substring_char(cursor, n)));
                assert(segment_views(segments@) == segment_views(before) + seq![
                    SegmentView::Outside(hay@.subrange(cursor as int, n as int)),
                ]);
                break;
            },
            Some((opens_at, content_at)) => {
                proof {
                    lemma_first_match_from(hay@, start@, cursor as int);
                }
                match scan_content(source, &hay, content_at, start, end, escape, quotes, nesting) {
                    Some((content, stop)) => {
                        proof {
                            lemma_scan_advances(
                                hay@,
                                start@,
                                end@,
                                escape,
                                quotes@,
                                nesting,
                                content_at as int,
                                0,
                                None,
                                seq![],
                                false,
                            );
                        }
                        if opens_at > cursor {
                            segments.push(
                                CapturedSegment::Outside(source.substring_char(cursor, opens_at)),
                            );
                        }
                        let ghost middle = segments@;
                        segments.push(CapturedSegment::Enclosure(content));
                        assert(segment_views(segments@) == segment_views(middle) + seq![
                            SegmentView::Enclosure(content@, content is Owned),
                        ]);
                        if opens_at > cursor {
                            assert(segment_views(middle) == segment_views(before) + seq![
                                SegmentView::Outside(hay@.subrange(cursor as int, opens_at as int)),
                            ]);
                        } else {
                            assert(middle == before);
                        }
                        cursor = stop;
                    },
                    None => {
                        segments.push(CapturedSegment::Outside(source.substring_char(cursor, n)));
                        assert(segment_views(segments@) == segment_views(before) + seq![
                            SegmentView::Outside(hay@.subrange(cursor as int, n as int)),
                        ]);
                        break;
                    },
                }
            },
        }
    }
    segments
}


/// The segments of `text` under a plain scan with the given escape style: no
/// quoted regions, no nesting.
pub open spec fn flat_segments(
    text: Seq<char>,
    start: Seq<char>,
    end: Seq<char>,
    escape: EscapeStyle,
) -> Seq<SegmentView> {
    spec_segments(text, start, end, escape, seq![], Nesting::Flat)
}

/// The segments of `text` bounded by `opening` and its closing character,
/// with backslash escaping, single and double quoted regions and nesting.
pub open spec fn captures_spec(text: Seq<char>, opening: char) -> Seq<SegmentView> {
    spec_segments(
        text,
        seq![opening],
        seq![closing_char(opening)],
        EscapeStyle::Char('\\'),
        seq!['"', '\''],
        Nesting::Delimiters,
    )
}

/// The result of matching `open` and `close` characters of `s[i..]` like
/// brackets, given the positions of the openings still unmatched (`stack`)
/// and the pairs matched so far (`pairs`, from an opening's position to its
/// closing's): each closing character matches the latest unmatched opening,
/// and a closing character with none unmatched is skipped.
pub open spec fn pair_scan(
    s: Seq<char>,
    open: char,
    close: char,
    i: int,
    stack: Seq<int>,
    pairs: Map<int, int>,
) -> Map<int, int>
    decreases s.len() - i,
{
    if i < 0 || i >= s.len() {
        pairs
    } else if s[i] == open {
        pair_scan(s, open, close, i + 1, stack.push(i), pairs)
    } else if s[i] == close && stack.len() > 0 {
        pair_scan(s, open, close, i + 1, stack.drop_last(), pairs.insert(stack.last(), i))
    } else {
        pair_scan(s, open, close, i + 1, stack, pairs)
    }
}

/// The matched pairs of `open` and `close` in `s`.
pub open spec fn matched_pairs(s: Seq<char>, open: char, close: char) -> Map<int, int> {
    pair_scan(s, open, close, 0, seq![], Map::empty())
}

/// The contents of the groups of `pairs` that open before position `k`, by
/// opening position.
pub open spec fn groups_before(s: Seq<char>, pairs: Map<int, int>, k: int) -> Seq<Seq<char>>
    decreases k,
{
    if k <= 0 {
        seq![]
    } else {
        groups_before(s, pairs, k - 1) + if pairs.dom().contains(k - 1) {
            seq![s.subrange(k, pairs[k - 1])]
        } else {
            seq![]
        }
    }
}

/// The content of every matched group of `open` and `close` in `s`, at every
/// depth, ordered by opening position.
pub open spec fn nested_groups(s: Seq<char>, open: char, close: char) -> Seq<Seq<char>> {
    groups_before(s, matched_pairs(s, open, close), s.len() as int)
}

/// The contents of the enclosures among `segments`, as owned strings.
fn enclosure_texts<'a>(segments: &Vec<CapturedSegment<'a>>) -> (texts: Vec<String>)
    ensures
        string_views(texts@) == enclosures(segment_views(segments@)),
{
    let mut texts: Vec<String> = Vec::new();
    let n = segments.len();
    let mut i: usize = 0;
    while i < n
        invariant
            n == segments@.len(),
            i <= n,
            string_views(texts@) == enclosures(segment_views(segments@).take(i as int)),
        decreases n - i,
    {
        let ghost prev = texts@;
        let ghost views = segment_views(segments@);
        assert(views.take(i + 1).drop_last() =~= views.take(i as int));
        assert(views.take(i + 1).last() == segments@[i as int]@);
        match segments[i].enclosure() {
            Some(text) => {
                texts.push(text.to_owned());
                assert(string_views(texts@) =~= string_views(prev).push(text@));
            },
            None => {},
        }
        i += 1;
    }
    assert(segment_views(segments@).take(n as int) =~= segment_views(segments@));
    texts
}

/// The `n`th of `texts`, copied.
fn nth_text(texts: &Vec<String>, n: usize) -> (r: Option<String>)
    ensures
        option_view(r) == if n < texts@.len() {
            Some(string_views(texts@)[n as int])
        } else {
            None::<Seq<char>>
        },
{
    if n < texts.len() {
        Some(texts[n].clone())
    } else {
        None
    }
}

/// Every group of `opening` and `closing` (distinct characters) in `text`,
/// at every depth, ordered by opening position.
fn nested_group_texts(text: &str, opening: char, closing: char) -> (groups: Vec<String>)
    ensures
        string_views(groups@) == nested_groups(text@, opening, closing),
{
    let hay = str_to_chars(text);
    let n = hay.len();
    let mut partner: Vec<Option<usize>> = Vec::new();
    let mut k: usize = 0;
    while k < n
        invariant
            k <= n,
            partner@.len() == k,
            forall|j: int| 0 <= j < k ==> partner@[j] is None,
        decreases n - k,
    {
        partner.push(None);
        k += 1;
    }
    let mut stack: Vec<usize> = Vec::new();
    let ghost mut open_stack: Seq<int> = seq![];
    let ghost mut pairs: Map<int, int> = Map::empty();
    let mut i: usize = 0;
    while i < n
        invariant
            n == hay@.len(),
            i <= n,
            partner@.len() == n,
            open_stack.len() == stack@.len(),
            forall|j: int| 0 <= j < stack@.len() ==> open_stack[j] == stack@[j] as int,
            forall|j: int| 0 <= j < stack@.len() ==> stack@[j] < i,
            forall|j: int|
                0 <= j < n ==> (partner@[j] is Some <==> pairs.dom().contains(j)),
            forall|j: int|
                0 <= j < n && pairs.dom().contains(j) ==> partner@[j] == Some(
                    pairs[j] as usize,
                ),
            forall|j: int| pairs.dom().contains(j) ==> 0 <= j < pairs[j] < n,
            pair_scan(hay@, opening, closing, i as int, open_stack, pairs) == matched_pairs(
                hay@,
                opening,
                closing,
            ),
        decreases n - i,
    {
        let c = hay[i];
        if c == opening {
            stack.push(i);
            proof {
                open_stack = open_stack.push(i as int);
            }
        } else if c == closing && stack.len() > 0 {
            let last = stack.pop().unwrap();
            proof {
                assert(open_stack.last() == last as int);
                pairs = pairs.insert(last as int, i as int);
                open_stack = open_stack.drop_last();
            }
            partner.set(last, Some(i));
        }
        i += 1;
    }
    let mut groups: Vec<String> = Vec::new();
    let mut k: usize = 0;
    while k < n
        invariant
            n == hay@.len(),
            hay@ == text@,
            k <= n,
            partner@.len() == n,
            pairs == matched_pairs(hay@, opening, closing),
            forall|j: int|
                0 <= j < n ==> (partner@[j] is Some <==> pairs.dom().contains(j)),
            forall|j: int|
                0 <= j < n && pairs.dom().contains(j) ==> partner@[j] == Some(
                    pairs[j] as usize,
                ),
            forall|j: int| pairs.dom().contains(j) ==> 0 <= j < pairs[j] < n,
            string_views(groups@) == groups_before(hay@, pairs, k as int),
        decreases n - k,
    {
        let ghost prev = groups@;
        match partner[k] {
            Some(close_at) => {
                assert(pairs.dom().contains(k as int));
                assert(partner@[k as int] == Some(pairs[k as int] as usize));
                assert(k < pairs[k as int] < n);
                assert(close_at == pairs[k as int]);
                let mut content: Vec<char> = Vec::new();
                extend_range(&mut content, &hay, k + 1, close_at);
                groups.push(chars_to_string(&content));
                assert(string_views(groups@) =~= string_views(prev).push(
                    hay@.subrange(k + 1, close_at as int),
                ));
            },
            None => {},
        }
        k += 1;
    }
    groups
}

/// Extension methods to extract the content wrapped in bounding delimiters:
/// the inverse of `SimpleEnclose`.
pub trait SimpleExtract: View<V = Seq<char>> {
    /// The text to extract from.
    fn as_text(&self) -> (text: &str)
        ensures
            text@ == self@,
    ;

    /// Split the whole string into alternating enclosures and the plain text
    /// around them, in source order.
    ///
    /// Any marker forms part of the opening delimiter: `"!("` and `"(?<="`
    /// both work as a `start`. Empty `Outside` segments are omitted, so
    /// adjacent enclosures produce no empty segment between them. An
    /// unterminated enclosure, and everything after it, is reported as a
    /// single trailing `Outside`.
    fn extract_enclosures_with<S: Delimiter, E: Delimiter>(
        &self,
        start: S,
        end: E,
        options: ScanOptions<'_>,
    ) -> (segments: Vec<CapturedSegment<'_>>)
        ensures
            segment_views(segments@) == spec_segments(
                self@,
                start.token(),
                end.token(),
                options.escape,
                options.quotes@,
                options.nesting,
            ),
    {
        let source = self.as_text();
        let start_chars = start.to_chars();
        let end_chars = end.to_chars();
        collect_segments(
            source,
            &start_chars,
            &end_chars,
            options.escape,
            options.quotes,
            options.nesting,
        )
    }

    /// As `extract_enclosures_with`, with escaping as the only rule. Quoted
    /// regions and nesting are not considered.
    fn extract_enclosures<S: Delimiter, E: Delimiter>(
        &self,
        start: S,
        end: E,
        escape: EscapeStyle,
    ) -> (segments: Vec<CapturedSegment<'_>>)
        ensures
            segment_views(segments@) == flat_segments(self@, start.token(), end.token(), escape),
    {
        self.extract_enclosures_with(start, end, ScanOptions::escaped(escape))
    }

    /// The first enclosure under the given scan rules.
    fn extract_first_enclosure_with<S: Delimiter, E: Delimiter>(
        &self,
        start: S,
        end: E,
        options: ScanOptions<'_>,
    ) -> (r: Option<String>)
        ensures
            option_view(r) == first_enclosure(
                spec_segments(
                    self@,
                    start.token(),
                    end.token(),
                    options.escape,
                    options.quotes@,
                    options.nesting,
                ),
            ),
    {
        let segments = self.extract_enclosures_with(start, end, options);
        let texts = enclosure_texts(&segments);
        nth_text(&texts, 0)
    }

    /// The first balanced enclosure bounded by `opening` and its matching
    /// closing character, treating quoted regions as opaque and tracking
    /// nesting.
    fn extract_balanced(&self, opening: char) -> (r: Option<String>)
        ensures
            option_view(r) == first_enclosure(captures_spec(self@, opening)),
    {
        self.extract_nth_balanced(opening, 0)
    }

    /// Alias for `extract_balanced`.
    fn extract_arguments(&self, opening: char) -> (r: Option<String>)
        ensures
            option_view(r) == first_enclosure(captures_spec(self@, opening)),
    {
        self.extract_balanced(opening)
    }

    /// The `n`th balanced enclosure (0-indexed) bounded by `opening` and its
    /// matching closing character, treating quoted regions as opaque and
    /// tracking nesting.
    fn extract_nth_balanced(&self, opening: char, n: usize) -> (r: Option<String>)
        ensures
            option_view(r) == if n < enclosures(captures_spec(self@, opening)).len() {
                Some(enclosures(captures_spec(self@, opening))[n as int])
            } else {
                None::<Seq<char>>
            },
    {
        let segments = self.extract_captures(opening);
        let texts = enclosure_texts(&segments);
        nth_text(&texts, n)
    }

    /// Every balanced enclosure content bounded by `opening` and its matching
    /// closing character, treating quoted regions as opaque and tracking
    /// nesting.
    fn extract_all_balanced(&self, opening: char) -> (texts: Vec<String>)
        ensures
            string_views(texts@) == enclosures(captures_spec(self@, opening)),
    {
        let segments = self.extract_captures(opening);
        enclosure_texts(&segments)
    }

    /// Every enclosure bounded by `opening` and its matching closing
    /// character, with the text around them, using backslash escaping.
    fn extract_segments(&self, opening: char) -> (segments: Vec<CapturedSegment<'_>>)
        ensures
            segment_views(segments@) == flat_segments(
                self@,
                seq![opening],
                seq![closing_char(opening)],
                EscapeStyle::Char('\\'),
            ),
    {
        let closing = match_closing_char(opening);
        self.extract_enclosures_with(opening, closing, ScanOptions::escaped(EscapeStyle::Char('\\')))
    }

    /// Split the string into alternating enclosures and outside text,
    /// treating quoted regions as opaque and tracking nesting.
    fn extract_captures(&self, opening: char) -> (segments: Vec<CapturedSegment<'_>>)
        ensures
            segment_views(segments@) == captures_spec(self@, opening),
    {
        let closing = match_closing_char(opening);
        self.extract_enclosures_with(opening, closing, ScanOptions::quoted())
    }

    /// Alias for `extract_captures`.
    fn extract_quoted_segments(&self, opening: char) -> (segments: Vec<CapturedSegment<'_>>)
        ensures
            segment_views(segments@) == captures_spec(self@, opening),
    {
        self.extract_captures(opening)
    }

    /// The first enclosure, ignoring the text around it.
    fn extract_first_enclosure<S: Delimiter, E: Delimiter>(
        &self,
        start: S,
        end: E,
        escape: EscapeStyle,
    ) -> (r: Option<String>)
        ensures
            option_view(r) == first_enclosure(
                flat_segments(self@, start.token(), end.token(), escape),
            ),
    {
        let segments = self.extract_enclosures(start, end, escape);
        let texts = enclosure_texts(&segments);
        nth_text(&texts, 0)
    }

    /// Every balanced enclosure in the string at every nesting depth, ordered
    /// by opening position. When the opening and closing characters are
    /// identical, nesting is impossible and a flat scan with backslash
    /// escaping is used.
    fn extract_all_enclosed(&self, opening: char) -> (texts: Vec<String>)
        ensures
            string_views(texts@) == if closing_char(opening) == opening {
                enclosures(flat_segments(self@, seq![opening], seq![opening], EscapeStyle::Char('\\')))
            } else {
                nested_groups(self@, opening, closing_char(opening))
            },
    {
        let closing = match_closing_char(opening);
        if opening == closing {
            let segments = self.extract_enclosures(opening, closing, EscapeStyle::Char('\\'));
            return enclosure_texts(&segments);
        }
        nested_group_texts(self.as_text(), opening, closing)
    }

    /// Extract the first enclosure, treating the content literally.
    fn extract_first<S: Delimiter, E: Delimiter>(&self, start: S, end: E) -> (r: Option<String>)
        ensures
            option_view(r) == first_enclosure(
                flat_segments(self@, start.token(), end.token(), EscapeStyle::Verbatim),
            ),
    {
        self.extract_first_enclosure(start, end, EscapeStyle::Verbatim)
    }

    /// Extract the first enclosure bounded by `opening` and its matching
    /// closing character, with backslash escaping.
    fn extract_enclosed(&self, opening: char) -> (r: Option<String>)
        ensures
            option_view(r) == first_enclosure(
                flat_segments(
                    self@,
                    seq![opening],
                    seq![closing_char(opening)],
                    EscapeStyle::Char('\\'),
                ),
            ),
    {
        let closing = match_closing_char(opening);
        self.extract_first_enclosure(opening, closing, EscapeStyle::Char('\\'))
    }

    /// Extract the first enclosure bounded by `opening` and its matching
    /// closing character, using the doubling convention.
    fn extract_enclosed_doubled(&self, opening: char) -> (r: Option<String>)
        ensures
            option_view(r) == first_enclosure(
                flat_segments(
                    self@,
                    seq![opening],
                    seq![closing_char(opening)],
                    EscapeStyle::Doubled,
                ),
            ),
    {
        let closing = match_closing_char(opening);
        self.extract_first_enclosure(opening, closing, EscapeStyle::Doubled)
    }

    /// The first group in parentheses.
    fn extract_from_parentheses(&self) -> (r: Option<String>)
        ensures
            option_view(r) == first_enclosure(
                flat_segments(self@, seq!['('], seq![')'], EscapeStyle::Char('\\')),
            ),
    {
        self.extract_enclosed('(')
    }

    /// The first group in square brackets.
    fn extract_from_brackets(&self) -> (r: Option<String>)
        ensures
            option_view(r) == first_enclosure(
                flat_segments(self@, seq!['['], seq![']'], EscapeStyle::Char('\\')),
            ),
    {
        self.extract_enclosed('[')
    }

    /// The first group in curly braces.
    fn extract_from_braces(&self) -> (r: Option<String>)
        ensures
            option_view(r) == first_enclosure(
                flat_segments(self@, seq!['{'], seq!['}'], EscapeStyle::Char('\\')),
            ),
    {
        self.extract_enclosed('{')
    }

    /// The first group in double quotes.
    fn extract_from_double_quotes(&self) -> (r: Option<String>)
        ensures
            option_view(r) == first_enclosure(
                flat_segments(self@, seq!['"'], seq!['"'], EscapeStyle::Char('\\')),
            ),
    {
        self.extract_enclosed('"')
    }

    /// The first group in single quotes. An apostrophe is the same code
    /// point, so contractions open a group.
    fn extract_from_single_quotes(&self) -> (r: Option<String>)
        ensures
            option_view(r) == first_enclosure(
                flat_segments(self@, seq!['\''], seq!['\''], EscapeStyle::Char('\\')),
            ),
    {
        self.extract_enclosed('\'')
    }

    /// All captures from parentheses, with nesting and quoted regions.
    fn extract_all_from_parentheses(&self) -> (segments: Vec<CapturedSegment<'_>>)
        ensures
            segment_views(segments@) == captures_spec(self@, '('),
    {
        self.extract_captures('(')
    }

    /// All captures from square brackets, with nesting and quoted regions.
    fn extract_all_from_brackets(&self) -> (segments: Vec<CapturedSegment<'_>>)
        ensures
            segment_views(segments@) == captures_spec(self@, '['),
    {
        self.extract_captures('[')
    }

    /// All captures from curly braces, with nesting and quoted regions.
    fn extract_all_from_braces(&self) -> (segments: Vec<CapturedSegment<'_>>)
        ensures
            segment_views(segments@) == captures_spec(self@, '{'),
    {
        self.extract_captures('{')
    }
}

impl SimpleExtract for str {
    fn as_text(&self) -> (text: &str) {
        self
    }
}

impl<'t> SimpleExtract for &'t str {
    fn as_text(&self) -> (text: &str) {
        *self
    }
}

impl SimpleExtract for String {
    fn as_text(&self) -> (text: &str) {
        self.as_str()
    }
}

impl SimpleExtract for Box<str> {
    fn as_text(&self) -> (text: &str) {
        &**self
    }
}

impl<'c> SimpleExtract for Cow<'c, str> {
    fn as_text(&self) -> (text: &str) {
        match self {
            Cow::Borrowed(text) => *text,
            Cow::Owned(text) => text.as_str(),
        }
    }
}

} // verus!
