//! Laws of splitting text into enclosures and the text around them.
use vstd::prelude::*;

use crate::delimiter::{first_match_from, lemma_first_match_from, lemma_matches_single, matches_at};
use crate::escape::EscapeStyle;
use crate::scan::Nesting;
use crate::unwrap::{
    closes_doubled, is_escape_char, is_pair_close, law_content_owned_iff_rewritten,
    lemma_scan_advances, opener_len, scan_content_spec, scan_from, segments_from, spec_segments,
    SegmentView,
};

verus! {

/// With no quoted regions, a scan escaping with the closing character itself
/// is a scan with doubling.
proof fn lemma_scan_self_escape_is_doubling(
    hay: Seq<char>,
    start: Seq<char>,
    e: char,
    nesting: Nesting,
    i: int,
    depth: nat,
    out: Seq<char>,
    owned: bool,
)
    ensures
        scan_from(hay, start, seq![e], EscapeStyle::Char(e), seq![], nesting, i, depth, None, out, owned)
            == scan_from(hay, start, seq![e], EscapeStyle::Doubled, seq![], nesting, i, depth, None, out, owned),
    decreases hay.len() - i,
{
    let end = seq![e];
    if 0 <= i < hay.len() {
        lemma_matches_single(hay, e, i);
        let c = hay[i];
        let a = EscapeStyle::Char(e);
        let b = EscapeStyle::Doubled;
        assert(!seq![].contains(c));
        if depth > 0 && is_pair_close(nesting, c) {
            lemma_scan_self_escape_is_doubling(hay, start, e, nesting, i + 1, (depth - 1) as nat, out.push(c), owned);
        } else if matches_at(hay, end, i) {
            if matches_at(hay, end, i + 1) {
                lemma_scan_self_escape_is_doubling(hay, start, e, nesting, i + 2, depth, out + end, true);
            } else if depth > 0 {
                lemma_scan_self_escape_is_doubling(hay, start, e, nesting, i + 1, (depth - 1) as nat, out + end, owned);
            }
        } else if opener_len(hay, start, end, nesting, i) > 0 {
            let w = opener_len(hay, start, end, nesting, i);
            lemma_scan_self_escape_is_doubling(hay, start, e, nesting, i + w, depth + 1, out + hay.subrange(i, i + w), owned);
        } else {
            assert(!is_escape_char(a, c));
            lemma_scan_self_escape_is_doubling(hay, start, e, nesting, i + 1, depth, out.push(c), owned);
        }
    }
}

/// The segments under a scan escaping with the closing character itself are
/// those under doubling, where no quoted regions are read.
proof fn lemma_segments_self_escape_is_doubling(
    hay: Seq<char>,
    start: Seq<char>,
    e: char,
    nesting: Nesting,
    cursor: int,
)
    ensures
        segments_from(hay, start, seq![e], EscapeStyle::Char(e), seq![], nesting, cursor)
            == segments_from(hay, start, seq![e], EscapeStyle::Doubled, seq![], nesting, cursor),
    decreases hay.len() - cursor,
{
    if 0 <= cursor < hay.len() {
        match first_match_from(hay, start, cursor) {
            None => {},
            Some(at) => {
                lemma_scan_self_escape_is_doubling(hay, start, e, nesting, at + start.len(), 0, seq![], false);
                match scan_content_spec(hay, start, seq![e], EscapeStyle::Doubled, seq![], nesting, at + start.len()) {
                    None => {},
                    Some(found) => {
                        lemma_first_match_from(hay, start, cursor);
                        lemma_scan_advances(
                            hay,
                            start,
                            seq![e],
                            EscapeStyle::Doubled,
                            seq![],
                            nesting,
                            at + start.len(),
                            0,
                            None,
                            seq![],
                            false,
                        );
                        lemma_segments_self_escape_is_doubling(hay, start, e, nesting, found.1);
                    },
                }
            },
        }
    }
}

/// A doubled closing character is one literal and a single one closes, under
/// both conventions: where no quoted regions are read, the scan of enclosure
/// content from any position `i` escaping with the closing character `e`
/// itself reads what the scan with doubling reads.
pub proof fn law_self_escape_scan_is_doubling(
    hay: Seq<char>,
    start: Seq<char>,
    e: char,
    nesting: Nesting,
    i: int,
)
    ensures
        scan_content_spec(hay, start, seq![e], EscapeStyle::Char(e), seq![], nesting, i)
            == scan_content_spec(hay, start, seq![e], EscapeStyle::Doubled, seq![], nesting, i),
{
    lemma_scan_self_escape_is_doubling(hay, start, e, nesting, i, 0, seq![], false);
}

/// Escaping with the closing character itself means doubling: where no quoted
/// regions are read, extraction with `EscapeStyle::Char(e)` against the
/// closing character `e` splits any text as `EscapeStyle::Doubled` does.
pub proof fn law_self_escape_is_doubling(text: Seq<char>, start: Seq<char>, e: char, nesting: Nesting)
    ensures
        spec_segments(text, start, seq![e], EscapeStyle::Char(e), seq![], nesting) == spec_segments(
            text,
            start,
            seq![e],
            EscapeStyle::Doubled,
            seq![],
            nesting,
        ),
{
    lemma_segments_self_escape_is_doubling(text, start, e, nesting, 0);
}

/// With identical opening and closing delimiters, a scan counting the
/// delimiters as nesting is a flat scan.
proof fn lemma_scan_identical_nesting_inert(
    hay: Seq<char>,
    delim: Seq<char>,
    escape: EscapeStyle,
    quotes: Seq<char>,
    i: int,
    depth: nat,
    quote: Option<char>,
    out: Seq<char>,
    owned: bool,
)
    ensures
        scan_from(hay, delim, delim, escape, quotes, Nesting::Delimiters, i, depth, quote, out, owned)
            == scan_from(hay, delim, delim, escape, quotes, Nesting::Flat, i, depth, quote, out, owned),
    decreases hay.len() - i,
{
    if 0 <= i < hay.len() {
        let c = hay[i];
        if quote is Some {
            if is_escape_char(escape, c) && i + 1 < hay.len() {
                lemma_scan_identical_nesting_inert(hay, delim, escape, quotes, i + 2, depth, quote, out.push(c).push(hay[i + 1]), owned);
            } else {
                let next_quote = if c == quote->0 {
                    None
                } else {
                    quote
                };
                lemma_scan_identical_nesting_inert(hay, delim, escape, quotes, i + 1, depth, next_quote, out.push(c), owned);
            }
        } else if quotes.contains(c) {
            lemma_scan_identical_nesting_inert(hay, delim, escape, quotes, i + 1, depth, Some(c), out.push(c), owned);
        } else if matches_at(hay, delim, i) {
            let w = delim.len() as int;
            if closes_doubled(escape, delim) && matches_at(hay, delim, i + w) {
                lemma_scan_identical_nesting_inert(hay, delim, escape, quotes, i + 2 * w, depth, None, out + delim, true);
            } else if depth > 0 {
                lemma_scan_identical_nesting_inert(hay, delim, escape, quotes, i + w, (depth - 1) as nat, None, out + delim, owned);
            }
        } else {
            assert(opener_len(hay, delim, delim, Nesting::Delimiters, i) == 0);
            if is_escape_char(escape, c) {
                if matches_at(hay, delim, i + 1) {
                    lemma_scan_identical_nesting_inert(hay, delim, escape, quotes, i + 1 + delim.len(), depth, None, out + delim, true);
                } else {
                    lemma_scan_identical_nesting_inert(hay, delim, escape, quotes, i + 1, depth, None, out.push(c), owned);
                }
            } else {
                lemma_scan_identical_nesting_inert(hay, delim, escape, quotes, i + 1, depth, None, out.push(c), owned);
            }
        }
    }
}

/// The segments under identical delimiters are the same whether or not the
/// delimiters are counted as nesting.
proof fn lemma_segments_identical_nesting_inert(
    hay: Seq<char>,
    delim: Seq<char>,
    escape: EscapeStyle,
    quotes: Seq<char>,
    cursor: int,
)
    ensures
        segments_from(hay, delim, delim, escape, quotes, Nesting::Delimiters, cursor)
            == segments_from(hay, delim, delim, escape, quotes, Nesting::Flat, cursor),
    decreases hay.len() - cursor,
{
    if 0 <= cursor < hay.len() {
        match first_match_from(hay, delim, cursor) {
            None => {},
            Some(at) => {
                lemma_scan_identical_nesting_inert(hay, delim, escape, quotes, at + delim.len(), 0, None, seq![], false);
                match scan_content_spec(hay, delim, delim, escape, quotes, Nesting::Flat, at + delim.len()) {
                    None => {},
                    Some(found) => {
                        lemma_first_match_from(hay, delim, cursor);
                        lemma_scan_advances(
                            hay,
                            delim,
                            delim,
                            escape,
                            quotes,
                            Nesting::Flat,
                            at + delim.len(),
                            0,
                            None,
                            seq![],
                            false,
                        );
                        lemma_segments_identical_nesting_inert(hay, delim, escape, quotes, found.1);
                    },
                }
            },
        }
    }
}

/// Counting nested delimiters is inert when the opening and closing
/// delimiters are identical: nothing tells an opening from a closing, so the
/// text splits as under a flat scan.
pub proof fn law_identical_delimiters_do_not_nest(
    text: Seq<char>,
    delim: Seq<char>,
    escape: EscapeStyle,
    quotes: Seq<char>,
)
    ensures
        spec_segments(text, delim, delim, escape, quotes, Nesting::Delimiters) == spec_segments(
            text,
            delim,
            delim,
            escape,
            quotes,
            Nesting::Flat,
        ),
{
    lemma_segments_identical_nesting_inert(text, delim, escape, quotes, 0);
}

/// Every `Outside` segment of `hay[cursor..]` is non-empty.
proof fn lemma_outside_segments_nonempty(
    hay: Seq<char>,
    start: Seq<char>,
    end: Seq<char>,
    escape: EscapeStyle,
    quotes: Seq<char>,
    nesting: Nesting,
    cursor: int,
)
    ensures
        forall|k: int|
            0 <= k < segments_from(hay, start, end, escape, quotes, nesting, cursor).len()
                ==> (#[trigger] segments_from(hay, start, end, escape, quotes, nesting, cursor)[k] matches SegmentView::Outside(text) ==> text.len() > 0),
    decreases hay.len() - cursor,
{
    let segs = segments_from(hay, start, end, escape, quotes, nesting, cursor);
    if 0 <= cursor < hay.len() {
        match first_match_from(hay, start, cursor) {
            None => {},
            Some(at) => {
                match scan_content_spec(hay, start, end, escape, quotes, nesting, at + start.len()) {
                    None => {},
                    Some(found) => {
                        lemma_first_match_from(hay, start, cursor);
                        lemma_scan_advances(
                            hay,
                            start,
                            end,
                            escape,
                            quotes,
                            nesting,
                            at + start.len(),
                            0,
                            None,
                            seq![],
                            false,
                        );
                        lemma_outside_segments_nonempty(hay, start, end, escape, quotes, nesting, found.1);
                        let rest = segments_from(hay, start, end, escape, quotes, nesting, found.1);
                        let before = if at > cursor {
                            seq![SegmentView::Outside(hay.subrange(cursor, at))]
                        } else {
                            seq![]
                        };
                        let head = before + seq![SegmentView::Enclosure(found.0, found.2)];
                        assert(segs == head + rest);
                        assert forall|k: int| 0 <= k < segs.len() implies (#[trigger] segs[k] matches SegmentView::Outside(text) ==> text.len() > 0) by {
                            if k >= head.len() {
                                assert(segs[k] == rest[k - head.len()]);
                            }
                        }
                    },
                }
            },
        }
    }
}

/// Segmenting never reports an empty `Outside` segment: adjacent
/// enclosures produce nothing between them, and nothing is reported for the
/// text before an enclosure that opens where the previous one closed.
pub proof fn law_no_empty_outside_segments(
    text: Seq<char>,
    start: Seq<char>,
    end: Seq<char>,
    escape: EscapeStyle,
    quotes: Seq<char>,
    nesting: Nesting,
)
    ensures
        forall|k: int|
            0 <= k < spec_segments(text, start, end, escape, quotes, nesting).len()
                ==> (#[trigger] spec_segments(text, start, end, escape, quotes, nesting)[k] matches SegmentView::Outside(o) ==> o.len() > 0),
{
    lemma_outside_segments_nonempty(text, start, end, escape, quotes, nesting, 0);
}

/// The text that `segs` were read from, each segment as it stood.
pub open spec fn rejoin(segs: Seq<SegmentView>, start: Seq<char>, end: Seq<char>) -> Seq<char>
    decreases segs.len(),
{
    if segs.len() == 0 {
        seq![]
    } else {
        rejoin_piece(segs[0], start, end) + rejoin(segs.drop_first(), start, end)
    }
}

/// One segment as it stood in the text: an `Outside` as it is, an enclosure
/// wrapped back in `start` and `end`.
pub open spec fn rejoin_piece(x: SegmentView, start: Seq<char>, end: Seq<char>) -> Seq<char> {
    match x {
        SegmentView::Outside(t) => t,
        SegmentView::Enclosure(t, _) => start + t + end,
    }
}

/// No enclosure among `segs` had a character dropped from it.
pub open spec fn none_rewritten(segs: Seq<SegmentView>) -> bool {
    forall|i: int| 0 <= i < segs.len() ==> !(#[trigger] segs[i] matches SegmentView::Enclosure(_, true))
}

/// `rejoin` over one segment followed by others.
proof fn lemma_rejoin_cons(x: SegmentView, rest: Seq<SegmentView>, start: Seq<char>, end: Seq<char>)
    ensures
        rejoin(seq![x] + rest, start, end) == rejoin(seq![x], start, end) + rejoin(rest, start, end),
        rejoin(seq![x], start, end) == rejoin_piece(x, start, end),
{
    assert((seq![x] + rest).drop_first() =~= rest);
    assert(seq![x].drop_first() =~= Seq::<SegmentView>::empty());
    assert(rejoin(Seq::<SegmentView>::empty(), start, end) =~= Seq::<char>::empty());
    assert(rejoin(seq![x], start, end) =~= rejoin_piece(x, start, end));
}

/// The segments of `hay[cursor..]` lose nothing of it where no enclosure was
/// rewritten.
proof fn lemma_segments_rejoin(
    hay: Seq<char>,
    start: Seq<char>,
    end: Seq<char>,
    escape: EscapeStyle,
    quotes: Seq<char>,
    nesting: Nesting,
    cursor: int,
)
    requires
        0 <= cursor <= hay.len(),
        none_rewritten(segments_from(hay, start, end, escape, quotes, nesting, cursor)),
    ensures
        rejoin(segments_from(hay, start, end, escape, quotes, nesting, cursor), start, end)
            == hay.subrange(cursor, hay.len() as int),
    decreases hay.len() - cursor,
{
    let segs = segments_from(hay, start, end, escape, quotes, nesting, cursor);
    if cursor >= hay.len() {
        assert(hay.subrange(cursor, hay.len() as int) =~= Seq::<char>::empty());
    } else {
        match first_match_from(hay, start, cursor) {
            None => {
                lemma_rejoin_cons(
                    SegmentView::Outside(hay.subrange(cursor, hay.len() as int)),
                    seq![],
                    start,
                    end,
                );
                assert(seq![SegmentView::Outside(hay.subrange(cursor, hay.len() as int))]
                    + Seq::<SegmentView>::empty() =~= segs);
                assert(rejoin(Seq::<SegmentView>::empty(), start, end) =~= Seq::<char>::empty());
            },
            Some(at) => {
                lemma_first_match_from(hay, start, cursor);
                match scan_content_spec(hay, start, end, escape, quotes, nesting, at + start.len()) {
                    None => {
                        lemma_rejoin_cons(
                            SegmentView::Outside(hay.subrange(cursor, hay.len() as int)),
                            seq![],
                            start,
                            end,
                        );
                        assert(seq![SegmentView::Outside(hay.subrange(cursor, hay.len() as int))]
                            + Seq::<SegmentView>::empty() =~= segs);
                        assert(rejoin(Seq::<SegmentView>::empty(), start, end)
                            =~= Seq::<char>::empty());
                    },
                    Some(found) => {
                        lemma_scan_advances(
                            hay,
                            start,
                            end,
                            escape,
                            quotes,
                            nesting,
                            at + start.len(),
                            0,
                            None,
                            seq![],
                            false,
                        );
                        law_content_owned_iff_rewritten(
                            hay,
                            start,
                            end,
                            escape,
                            quotes,
                            nesting,
                            at + start.len(),
                        );
                        let enc = SegmentView::Enclosure(found.0, found.2);
                        let rest = segments_from(hay, start, end, escape, quotes, nesting, found.1);
                        let before = if at > cursor {
                            seq![SegmentView::Outside(hay.subrange(cursor, at))]
                        } else {
                            seq![]
                        };
                        assert(segs == before + seq![enc] + rest);
                        let b = before.len() as int;
                        assert(segs[b] == enc);
                        assert(!found.2);
                        assert forall|i: int| 0 <= i < rest.len() implies !(
                        #[trigger] rest[i] matches SegmentView::Enclosure(_, true)) by {
                            assert(segs[b + 1 + i] == rest[i]);
                        }
                        lemma_segments_rejoin(hay, start, end, escape, quotes, nesting, found.1);
                        lemma_rejoin_cons(enc, rest, start, end);
                        let c = at + start.len();
                        let d = found.1 - end.len();
                        assert(found.0 == hay.subrange(c, d));
                        assert(rejoin(seq![enc], start, end) == start + found.0 + end);
                        assert(hay.subrange(at, c) == start);
                        assert(hay.subrange(d, found.1) == end);
                        let tail = hay.subrange(at, hay.len() as int);
                        assert(tail =~= hay.subrange(at, c) + hay.subrange(c, d) + hay.subrange(
                            d,
                            found.1,
                        ) + hay.subrange(found.1, hay.len() as int));
                        assert(rejoin(seq![enc] + rest, start, end) == tail);
                        if at > cursor {
                            let out = SegmentView::Outside(hay.subrange(cursor, at));
                            assert(segs =~= seq![out] + (seq![enc] + rest));
                            lemma_rejoin_cons(out, seq![enc] + rest, start, end);
                            assert(hay.subrange(cursor, hay.len() as int) =~= hay.subrange(
                                cursor,
                                at,
                            ) + tail);
                        } else {
                            assert(segs =~= seq![enc] + rest);
                        }
                    },
                }
            },
        }
    }
}

/// Segmentation loses no text: where no enclosure had a character dropped
/// (always so with `EscapeStyle::Verbatim`), the `Outside` segments and the
/// enclosures wrapped back in their delimiters give the whole text, an
/// opening never closed reaching to the end as the last `Outside`.
pub proof fn law_segments_rejoin(
    text: Seq<char>,
    start: Seq<char>,
    end: Seq<char>,
    escape: EscapeStyle,
    quotes: Seq<char>,
    nesting: Nesting,
)
    requires
        none_rewritten(spec_segments(text, start, end, escape, quotes, nesting)),
    ensures
        rejoin(spec_segments(text, start, end, escape, quotes, nesting), start, end) == text,
{
    lemma_segments_rejoin(text, start, end, escape, quotes, nesting, 0);
    assert(text.subrange(0, text.len() as int) =~= text);
}

} // verus!
