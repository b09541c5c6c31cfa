//! Enclosing then extracting gives the content back.
use vstd::prelude::*;

use crate::delimiter::{first_match_from, lemma_matches_single, matches_at};
use crate::escape::{escape_char_from, escape_doubled_from, spec_escape, EscapeStyle};
use crate::match_closing::closing_char;
use crate::scan::Nesting;
use crate::spec_enclose;
use crate::unwrap::{
    captures_spec, closes_doubled, enclosures, first_enclosure, flat_segments, is_escape_char,
    lemma_enclosures_append, opener_len, scan_content_spec, scan_from, segments_from, SegmentView,
};

verus! {

/// The number of `esc` characters standing right before position `i` of `c`.
pub open spec fn esc_run_before(c: Seq<char>, esc: char, i: int) -> nat
    decreases i,
{
    if i <= 0 || i > c.len() {
        0
    } else if c[i - 1] == esc {
        esc_run_before(c, esc, i - 1) + 1
    } else {
        0
    }
}

/// Under escaping with `esc` against the closing character `e` (distinct from
/// `esc`), extraction gives `c` back: every `esc` in `c` is followed by
/// another character, which is not the opening character `s` unless it is
/// `e`, and a run of `esc` right before `e` has even length.
pub open spec fn char_escape_round_trips(c: Seq<char>, s: char, e: char, esc: char) -> bool {
    forall|i: int|
        0 <= i < c.len() && #[trigger] c[i] == esc ==> {
            &&& i + 1 < c.len()
            &&& if c[i + 1] == e {
                esc_run_before(c, esc, i + 1) % 2 == 0
            } else {
                c[i + 1] != s
            }
        }
}

/// The contents `c` for which enclosing in the characters `s` and `e` with
/// `style` and then extracting the first enclosure with the same style gives
/// `c` back: with no escaping, `c` holds no `e`; with doubling, `c` holds no
/// `e` twice in a row; with an escape character other than `e`, see
/// `char_escape_round_trips`; with `e` itself as the escape character, every
/// `c`.
pub open spec fn round_trip_condition(c: Seq<char>, s: char, e: char, style: EscapeStyle) -> bool {
    match style {
        EscapeStyle::Verbatim => !c.contains(e),
        EscapeStyle::Doubled => forall|i: int|
            0 <= i && i + 1 < c.len() ==> !(#[trigger] c[i] == e && c[i + 1] == e),
        EscapeStyle::Char(esc) => esc == e || char_escape_round_trips(c, s, e, esc),
    }
}

/// The scan of `pre + c[j..] + e` from the end of `pre`, with no escaping,
/// reads `c[j..]` and closes at the end.
proof fn lemma_scan_verbatim(
    c: Seq<char>,
    s: char,
    e: char,
    j: int,
    pre: Seq<char>,
    out: Seq<char>,
    owned: bool,
)
    requires
        !c.contains(e),
        0 <= j <= c.len(),
    ensures
        ({
            let w = pre + c.subrange(j, c.len() as int) + seq![e];
            scan_from(
                w,
                seq![s],
                seq![e],
                EscapeStyle::Verbatim,
                seq![],
                Nesting::Flat,
                pre.len() as int,
                0,
                None,
                out,
                owned,
            ) matches Some(r) && r.0 == out + c.subrange(j, c.len() as int) && r.1 == w.len()
        }),
    decreases c.len() - j,
{
    let w = pre + c.subrange(j, c.len() as int) + seq![e];
    let p = pre.len() as int;
    lemma_matches_single(w, e, p);
    if j == c.len() {
        lemma_matches_single(w, e, p + 1);
        assert(c.subrange(j, c.len() as int) =~= Seq::<char>::empty());
        assert(w[p] == e);
    } else {
        let x = c[j];
        assert(w[p] == x);
        assert(x != e);
        let pre2 = pre + seq![x];
        assert(pre2 + c.subrange(j + 1, c.len() as int) + seq![e] =~= w);
        lemma_scan_verbatim(c, s, e, j + 1, pre2, out.push(x), owned);
        assert(out.push(x) + c.subrange(j + 1, c.len() as int) =~= out + c.subrange(
            j,
            c.len() as int,
        ));
    }
}

/// The scan of `pre + doubled(c[j..]) + e` from the end of `pre` reads
/// `c[j..]` and closes at the end, where `c` holds no `e` twice in a row.
proof fn lemma_scan_doubled(
    c: Seq<char>,
    s: char,
    e: char,
    j: int,
    pre: Seq<char>,
    out: Seq<char>,
    owned: bool,
)
    requires
        round_trip_condition(c, s, e, EscapeStyle::Doubled),
        0 <= j <= c.len(),
    ensures
        ({
            let w = pre + escape_doubled_from(c, seq![e], j) + seq![e];
            scan_from(
                w,
                seq![s],
                seq![e],
                EscapeStyle::Doubled,
                seq![],
                Nesting::Flat,
                pre.len() as int,
                0,
                None,
                out,
                owned,
            ) matches Some(r) && r.0 == out + c.subrange(j, c.len() as int) && r.1 == w.len()
        }),
    decreases c.len() - j,
{
    let tail = escape_doubled_from(c, seq![e], j);
    let w = pre + tail + seq![e];
    let p = pre.len() as int;
    lemma_matches_single(w, e, p);
    lemma_matches_single(w, e, p + 1);
    lemma_matches_single(c, e, j);
    lemma_matches_single(c, e, j + 1);
    if j == c.len() {
        assert(tail =~= Seq::<char>::empty());
        assert(w[p] == e);
        assert(c.subrange(j, c.len() as int) =~= Seq::<char>::empty());
    } else if c[j] == e {
        if j + 1 < c.len() {
            assert(!(c[j] == e && c[j + 1] == e));
        }
        let rest = escape_doubled_from(c, seq![e], j + 1);
        assert(tail == seq![e] + seq![e] + rest);
        assert(w[p] == e && w[p + 1] == e);
        let pre2 = pre + seq![e, e];
        assert(pre2 + rest + seq![e] =~= w);
        lemma_scan_doubled(c, s, e, j + 1, pre2, out + seq![e], true);
        assert(out + seq![e] + c.subrange(j + 1, c.len() as int) =~= out + c.subrange(
            j,
            c.len() as int,
        ));
    } else {
        let x = c[j];
        let rest = escape_doubled_from(c, seq![e], j + 1);
        assert(tail == seq![x] + rest);
        assert(w[p] == x);
        let pre2 = pre + seq![x];
        assert(pre2 + rest + seq![e] =~= w);
        lemma_scan_doubled(c, s, e, j + 1, pre2, out.push(x), owned);
        assert(out.push(x) + c.subrange(j + 1, c.len() as int) =~= out + c.subrange(
            j,
            c.len() as int,
        ));
    }
}

/// With the closing character `e` as its own escape character, the scan of
/// `pre + escaped(c[j..]) + e` from the end of `pre` reads `c[j..]` and closes
/// at the end.
proof fn lemma_scan_self_escaped(
    c: Seq<char>,
    s: char,
    e: char,
    j: int,
    pre: Seq<char>,
    out: Seq<char>,
    owned: bool,
)
    requires
        0 <= j <= c.len(),
    ensures
        ({
            let w = pre + escape_char_from(c, seq![e], e, j, false) + seq![e];
            scan_from(
                w,
                seq![s],
                seq![e],
                EscapeStyle::Char(e),
                seq![],
                Nesting::Flat,
                pre.len() as int,
                0,
                None,
                out,
                owned,
            ) matches Some(r) && r.0 == out + c.subrange(j, c.len() as int) && r.1 == w.len()
        }),
    decreases c.len() - j,
{
    let tail = escape_char_from(c, seq![e], e, j, false);
    let w = pre + tail + seq![e];
    let p = pre.len() as int;
    lemma_matches_single(w, e, p);
    lemma_matches_single(w, e, p + 1);
    lemma_matches_single(c, e, j);
    if j == c.len() {
        assert(tail =~= Seq::<char>::empty());
        assert(w[p] == e);
        assert(c.subrange(j, c.len() as int) =~= Seq::<char>::empty());
    } else if c[j] == e {
        let rest = escape_char_from(c, seq![e], e, j + 1, false);
        assert(tail == seq![e] + seq![e] + rest);
        assert(w[p] == e && w[p + 1] == e);
        let pre2 = pre + seq![e, e];
        assert(pre2 + rest + seq![e] =~= w);
        lemma_scan_self_escaped(c, s, e, j + 1, pre2, out + seq![e], true);
        assert(out + seq![e] + c.subrange(j + 1, c.len() as int) =~= out + c.subrange(
            j,
            c.len() as int,
        ));
    } else {
        let x = c[j];
        let rest = escape_char_from(c, seq![e], e, j + 1, false);
        assert(tail == seq![x] + rest);
        assert(w[p] == x);
        let pre2 = pre + seq![x];
        assert(pre2 + rest + seq![e] =~= w);
        lemma_scan_self_escaped(c, s, e, j + 1, pre2, out.push(x), owned);
        assert(out.push(x) + c.subrange(j + 1, c.len() as int) =~= out + c.subrange(
            j,
            c.len() as int,
        ));
    }
}

/// A run of `esc` right before a position that holds `e` is even, where
/// `char_escape_round_trips` holds.
proof fn lemma_run_before_close_even(c: Seq<char>, s: char, e: char, esc: char, j: int)
    requires
        esc != e,
        char_escape_round_trips(c, s, e, esc),
        0 <= j < c.len(),
        c[j] == e,
    ensures
        esc_run_before(c, esc, j) % 2 == 0,
{
    if j > 0 && c[j - 1] == esc {
        assert(c[j - 1] == esc);
    }
}

/// The scan of `pre + escaped(c[j..]) + e` from the end of `pre`, escaping
/// with `esc` from the state that `c[..j]` leaves, reads `c[j..]` and closes
/// at the end.
spec fn char_reads_back(
    c: Seq<char>,
    s: char,
    e: char,
    esc: char,
    j: int,
    pre: Seq<char>,
    out: Seq<char>,
    owned: bool,
) -> bool {
    let w = pre + escape_char_from(c, seq![e], esc, j, esc_run_before(c, esc, j) % 2 == 1) + seq![e];
    scan_from(
        w,
        seq![s],
        seq![e],
        EscapeStyle::Char(esc),
        seq![],
        Nesting::Flat,
        pre.len() as int,
        0,
        None,
        out,
        owned,
    ) matches Some(r) && r.0 == out + c.subrange(j, c.len() as int) && r.1 == w.len()
}

/// `char_reads_back` with an escape character other than the closing
/// character `e`, for every `c` that satisfies `char_escape_round_trips`.
proof fn lemma_scan_char_escaped(
    c: Seq<char>,
    s: char,
    e: char,
    esc: char,
    j: int,
    pre: Seq<char>,
    out: Seq<char>,
    owned: bool,
)
    requires
        esc != e,
        char_escape_round_trips(c, s, e, esc),
        0 <= j <= c.len(),
    ensures
        char_reads_back(c, s, e, esc, j, pre, out, owned),
    decreases c.len() - j, 1int,
{
    let odd = esc_run_before(c, esc, j) % 2 == 1;
    let tail = escape_char_from(c, seq![e], esc, j, odd);
    let w = pre + tail + seq![e];
    let p = pre.len() as int;
    let fl = Nesting::Flat;
    let st = EscapeStyle::Char(esc);
    lemma_matches_single(w, e, p);
    lemma_matches_single(w, e, p + 1);
    lemma_matches_single(w, s, p + 1);
    lemma_matches_single(c, e, j);
    assert(!closes_doubled(st, seq![e])) by {
        if seq![e] == seq![esc] {
            assert(seq![e][0] == seq![esc][0]);
        }
    }
    if j == c.len() {
        assert(tail =~= Seq::<char>::empty());
        assert(w[p] == e);
        assert(c.subrange(j, c.len() as int) =~= Seq::<char>::empty());
    } else if c[j] == e {
        lemma_run_before_close_even(c, s, e, esc, j);
        let rest = escape_char_from(c, seq![e], esc, j + 1, false);
        assert(esc_run_before(c, esc, j + 1) == 0);
        assert(tail == seq![esc] + seq![e] + rest);
        assert(w[p] == esc && w[p + 1] == e);
        let pre2 = pre + seq![esc, e];
        assert(pre2 + rest + seq![e] =~= w);
        lemma_scan_char_escaped(c, s, e, esc, j + 1, pre2, out + seq![e], true);
        assert(scan_from(w, seq![s], seq![e], st, seq![], fl, p, 0, None, out, owned)
            == scan_from(w, seq![s], seq![e], st, seq![], fl, p + 2, 0, None, out + seq![e], true));
        assert(out + seq![e] + c.subrange(j + 1, c.len() as int) =~= out + c.subrange(
            j,
            c.len() as int,
        ));
    } else if c[j] == esc {
        lemma_scan_char_escaped_at_escape(c, s, e, esc, j, pre, out, owned);
    } else {
        let x = c[j];
        let rest = escape_char_from(c, seq![e], esc, j + 1, false);
        assert(esc_run_before(c, esc, j + 1) == 0);
        assert(tail == seq![x] + rest);
        assert(w[p] == x);
        let pre2 = pre + seq![x];
        assert(pre2 + rest + seq![e] =~= w);
        lemma_scan_char_escaped(c, s, e, esc, j + 1, pre2, out.push(x), owned);
        assert(out.push(x) + c.subrange(j + 1, c.len() as int) =~= out + c.subrange(
            j,
            c.len() as int,
        ));
    }
}

/// `char_reads_back` where `c[j]` is the escape character.
proof fn lemma_scan_char_escaped_at_escape(
    c: Seq<char>,
    s: char,
    e: char,
    esc: char,
    j: int,
    pre: Seq<char>,
    out: Seq<char>,
    owned: bool,
)
    requires
        esc != e,
        char_escape_round_trips(c, s, e, esc),
        0 <= j < c.len(),
        c[j] == esc,
    ensures
        char_reads_back(c, s, e, esc, j, pre, out, owned),
    decreases c.len() - j, 0int,
{
    let odd = esc_run_before(c, esc, j) % 2 == 1;
    let tail = escape_char_from(c, seq![e], esc, j, odd);
    let w = pre + tail + seq![e];
    let p = pre.len() as int;
    let fl = Nesting::Flat;
    let st = EscapeStyle::Char(esc);
    lemma_matches_single(w, e, p);
    lemma_matches_single(w, e, p + 1);
    lemma_matches_single(w, s, p + 1);
    lemma_matches_single(w, e, p + 2);
    lemma_matches_single(w, s, p + 2);
    lemma_matches_single(c, e, j);
    lemma_matches_single(c, e, j + 1);
    assert(!closes_doubled(st, seq![e])) by {
        if seq![e] == seq![esc] {
            assert(seq![e][0] == seq![esc][0]);
        }
    }
    assert(j + 1 < c.len());
    let odd1 = !odd;
    assert(esc_run_before(c, esc, j + 1) == esc_run_before(c, esc, j) + 1);
    assert((esc_run_before(c, esc, j + 1) % 2 == 1) == odd1);
    let rest1 = escape_char_from(c, seq![e], esc, j + 1, odd1);
    assert(tail == seq![esc] + rest1);
    assert(w[p] == esc);
    if c[j + 1] == e {
        assert(esc_run_before(c, esc, j + 1) % 2 == 0);
        assert(!odd1);
        assert(esc != s) by {
            assert(esc_run_before(c, esc, j + 1) >= 2);
            assert(j >= 1 && c[j - 1] == esc);
        }
        let rest2 = escape_char_from(c, seq![e], esc, j + 2, false);
        assert(esc_run_before(c, esc, j + 2) == 0);
        assert(rest1 == seq![esc] + seq![e] + rest2);
        assert(w[p + 1] == esc && w[p + 2] == e);
        let pre3 = pre + seq![esc, esc, e];
        assert(pre3 + rest2 + seq![e] =~= w);
        lemma_scan_char_escaped(c, s, e, esc, j + 2, pre3, out + seq![esc, e], true);
        assert(scan_from(w, seq![s], seq![e], st, seq![], fl, p + 1, 0, None, out.push(esc), owned)
            == scan_from(w, seq![s], seq![e], st, seq![], fl, p + 3, 0, None, out.push(esc) + seq![e], true));
        assert(out.push(esc) + seq![e] =~= out + seq![esc, e]);
        assert(out + seq![esc, e] + c.subrange(j + 2, c.len() as int) =~= out + c.subrange(
            j,
            c.len() as int,
        ));
    } else {
        let y = c[j + 1];
        assert(y != s);
        let rest2 = escape_char_from(c, seq![e], esc, j + 2, y == esc && !odd1);
        assert(rest1 == seq![y] + rest2);
        assert(w[p + 1] == y);
        let pre2 = pre + seq![esc];
        assert(pre2 + rest1 + seq![e] =~= w);
        lemma_scan_char_escaped(c, s, e, esc, j + 1, pre2, out.push(esc), owned);
        assert(out.push(esc) + c.subrange(j + 1, c.len() as int) =~= out + c.subrange(
            j,
            c.len() as int,
        ));
    }
}

/// The first enclosure of text that opens with `start` at position 0, under a
/// flat scan, is what the scan of the content right after that opening reads.
proof fn lemma_first_of_opened(w: Seq<char>, start: Seq<char>, end: Seq<char>, style: EscapeStyle)
    requires
        matches_at(w, start, 0),
    ensures
        first_enclosure(flat_segments(w, start, end, style)) == match scan_content_spec(
            w,
            start,
            end,
            style,
            seq![],
            Nesting::Flat,
            start.len() as int,
        ) {
            Some(r) => Some(r.0),
            None => None::<Seq<char>>,
        },
{
    assert(first_match_from(w, start, 0) == Some(0int));
    let segs = segments_from(w, start, end, style, seq![], Nesting::Flat, 0);
    assert(enclosures(Seq::<SegmentView>::empty()) == Seq::<Seq<char>>::empty());
    match scan_content_spec(w, start, end, style, seq![], Nesting::Flat, start.len() as int) {
        Some(r) => {
            let one = seq![SegmentView::Enclosure(r.0, r.2)];
            let rest = segments_from(w, start, end, style, seq![], Nesting::Flat, r.1);
            assert(segs =~= one + rest);
            assert(one.drop_last() =~= Seq::<SegmentView>::empty());
            assert(one.last() == SegmentView::Enclosure(r.0, r.2));
            assert(enclosures(one) =~= seq![r.0]);
            lemma_enclosures_append(one, rest);
        },
        None => {
            let one = seq![SegmentView::Outside(w.subrange(0, w.len() as int))];
            assert(segs =~= one);
            assert(one.drop_last() =~= Seq::<SegmentView>::empty());
            assert(enclosures(one) =~= Seq::<Seq<char>>::empty());
        },
    }
}

/// Round trip: enclosing content `c` in the characters `s` and `e` with
/// `style`, then extracting the first enclosure bounded by `s` and `e` with
/// the same style, gives `c` back, for every `c` that satisfies
/// `round_trip_condition`.
pub proof fn law_enclose_extract_round_trip(c: Seq<char>, s: char, e: char, style: EscapeStyle)
    requires
        round_trip_condition(c, s, e, style),
    ensures
        first_enclosure(
            flat_segments(spec_enclose(c, seq![s], seq![e], style), seq![s], seq![e], style),
        ) == Some(c),
{
    let w = spec_enclose(c, seq![s], seq![e], style);
    let x = spec_escape(c, seq![e], style);
    assert(w == seq![s] + x + seq![e]);
    assert(w[0] == s);
    match style {
        EscapeStyle::Verbatim => {
            assert(x == c);
            assert(c.subrange(0, c.len() as int) =~= c);
            lemma_scan_verbatim(c, s, e, 0, seq![s], seq![], false);
        },
        EscapeStyle::Doubled => {
            assert(c.subrange(0, c.len() as int) =~= c);
            lemma_scan_doubled(c, s, e, 0, seq![s], seq![], false);
        },
        EscapeStyle::Char(esc) => {
            assert(c.subrange(0, c.len() as int) =~= c);
            if esc == e {
                lemma_scan_self_escaped(c, s, e, 0, seq![s], seq![], false);
            } else {
                assert(esc_run_before(c, esc, 0) == 0);
                lemma_scan_char_escaped(c, s, e, esc, 0, seq![s], seq![], false);
            }
        },
    }
    assert(seq![] + c == c);
    lemma_matches_single(w, s, 0);
    lemma_first_of_opened(w, seq![s], seq![e], style);
}

/// With no escaping, the scan of `pre + c[j..] + e` from the end of `pre`
/// reads no more characters than `c[j..]` holds, and fewer where `c[j..]`
/// holds `e`.
proof fn lemma_read_bound_verbatim(c: Seq<char>, s: char, e: char, j: int, pre: Seq<char>, out: Seq<char>, owned: bool)
    requires
        0 <= j <= c.len(),
    ensures
        ({
            let w = pre + c.subrange(j, c.len() as int) + seq![e];
            scan_from(w, seq![s], seq![e], EscapeStyle::Verbatim, seq![], Nesting::Flat, pre.len() as int, 0, None, out, owned) matches Some(r)
                && r.0.len() <= out.len() + c.len() - j
                && (c.subrange(j, c.len() as int).contains(e) ==> r.0.len() < out.len() + c.len() - j)
        }),
    decreases c.len() - j,
{
    let w = pre + c.subrange(j, c.len() as int) + seq![e];
    let p = pre.len() as int;
    lemma_matches_single(w, e, p);
    if j == c.len() {
        assert(c.subrange(j, c.len() as int) =~= Seq::<char>::empty());
        assert(w[p] == e);
    } else {
        let x = c[j];
        assert(w[p] == x);
        if x != e {
            let pre2 = pre + seq![x];
            assert(pre2 + c.subrange(j + 1, c.len() as int) + seq![e] =~= w);
            lemma_read_bound_verbatim(c, s, e, j + 1, pre2, out.push(x), owned);
            if c.subrange(j, c.len() as int).contains(e) {
                let k = choose|k: int| 0 <= k < c.subrange(j, c.len() as int).len() && #[trigger] c.subrange(j, c.len() as int)[k] == e;
                assert(k != 0);
                assert(c.subrange(j + 1, c.len() as int)[k - 1] == e);
            }
        }
    }
}

/// With doubling, the scan of `pre + doubled(c[j..]) + e` from the end of
/// `pre` reads no more characters than `c[j..]` holds, and fewer where
/// `c[j..]` holds `e` twice in a row.
proof fn lemma_read_bound_doubled(c: Seq<char>, s: char, e: char, j: int, pre: Seq<char>, out: Seq<char>, owned: bool)
    requires
        0 <= j <= c.len(),
    ensures
        ({
            let w = pre + escape_doubled_from(c, seq![e], j) + seq![e];
            scan_from(w, seq![s], seq![e], EscapeStyle::Doubled, seq![], Nesting::Flat, pre.len() as int, 0, None, out, owned) matches Some(r)
                && r.0.len() <= out.len() + c.len() - j
                && ((exists|i: int| j <= i && i + 1 < c.len() && #[trigger] c[i] == e && c[i + 1] == e)
                    ==> r.0.len() < out.len() + c.len() - j)
        }),
    decreases c.len() - j,
{
    let tail = escape_doubled_from(c, seq![e], j);
    let w = pre + tail + seq![e];
    let p = pre.len() as int;
    lemma_matches_single(w, e, p);
    lemma_matches_single(w, e, p + 1);
    lemma_matches_single(c, e, j);
    lemma_matches_single(c, e, j + 1);
    if j == c.len() {
        assert(tail =~= Seq::<char>::empty());
        assert(w[p] == e);
    } else if c[j] == e {
        let next = if j + 1 < c.len() && c[j + 1] == e {
            j + 2
        } else {
            j + 1
        };
        let rest = escape_doubled_from(c, seq![e], next);
        assert(tail == seq![e] + seq![e] + rest);
        assert(w[p] == e && w[p + 1] == e);
        let pre2 = pre + seq![e, e];
        assert(pre2 + rest + seq![e] =~= w);
        lemma_read_bound_doubled(c, s, e, next, pre2, out + seq![e], true);
        if exists|i: int| j <= i && i + 1 < c.len() && #[trigger] c[i] == e && c[i + 1] == e {
            if next == j + 1 {
                let i = choose|i: int| j <= i && i + 1 < c.len() && #[trigger] c[i] == e && c[i + 1] == e;
                assert(i != j);
                assert(next <= i);
            }
        }
    } else {
        let x = c[j];
        let rest = escape_doubled_from(c, seq![e], j + 1);
        assert(tail == seq![x] + rest);
        assert(w[p] == x);
        let pre2 = pre + seq![x];
        assert(pre2 + rest + seq![e] =~= w);
        lemma_read_bound_doubled(c, s, e, j + 1, pre2, out.push(x), owned);
        if exists|i: int| j <= i && i + 1 < c.len() && #[trigger] c[i] == e && c[i + 1] == e {
            let i = choose|i: int| j <= i && i + 1 < c.len() && #[trigger] c[i] == e && c[i + 1] == e;
            assert(i != j);
        }
    }
}

/// `char_escape_round_trips` read from position `j`, where `odd` says
/// whether an odd run of `esc` stands right before `j`.
spec fn char_round_trips_from(c: Seq<char>, s: char, e: char, esc: char, j: int, odd: bool) -> bool
    decreases c.len() - j,
{
    if j < 0 || j >= c.len() {
        true
    } else if c[j] == e {
        !odd && char_round_trips_from(c, s, e, esc, j + 1, false)
    } else if c[j] == esc {
        &&& j + 1 < c.len()
        &&& if c[j + 1] == e {
            odd
        } else {
            c[j + 1] != s
        }
        &&& char_round_trips_from(c, s, e, esc, j + 1, !odd)
    } else {
        char_round_trips_from(c, s, e, esc, j + 1, false)
    }
}

/// The condition read from position `j` gives `char_escape_round_trips` at
/// every position from `j`.
proof fn lemma_round_trips_from_gives_condition(c: Seq<char>, s: char, e: char, esc: char, j: int, odd: bool)
    requires
        esc != e,
        0 <= j <= c.len(),
        odd == (esc_run_before(c, esc, j) % 2 == 1),
        char_round_trips_from(c, s, e, esc, j, odd),
    ensures
        forall|i: int|
            j <= i < c.len() && #[trigger] c[i] == esc ==> {
                &&& i + 1 < c.len()
                &&& if c[i + 1] == e {
                    esc_run_before(c, esc, i + 1) % 2 == 0
                } else {
                    c[i + 1] != s
                }
            },
    decreases c.len() - j,
{
    if j < c.len() {
        let odd2 = if c[j] == esc {
            !odd
        } else {
            false
        };
        assert(esc_run_before(c, esc, j + 1) == if c[j] == esc {
            esc_run_before(c, esc, j) + 1
        } else {
            0
        });
        lemma_round_trips_from_gives_condition(c, s, e, esc, j + 1, odd2);
    }
}

/// The scan of `pre + escaped(c[j..]) + e` from the end of `pre`, escaping
/// with `esc`, either never closes or reads no more characters than `c[j..]`
/// holds, and fewer where the condition read from `j` fails.
spec fn char_read_bounded(
    c: Seq<char>,
    s: char,
    e: char,
    esc: char,
    j: int,
    odd: bool,
    pre: Seq<char>,
    out: Seq<char>,
    owned: bool,
) -> bool {
    let w = pre + escape_char_from(c, seq![e], esc, j, odd) + seq![e];
    scan_from(
        w,
        seq![s],
        seq![e],
        EscapeStyle::Char(esc),
        seq![],
        Nesting::Flat,
        pre.len() as int,
        0,
        None,
        out,
        owned,
    ) matches Some(r) ==> r.0.len() <= out.len() + c.len() - j && (!char_round_trips_from(
        c,
        s,
        e,
        esc,
        j,
        odd,
    ) ==> r.0.len() < out.len() + c.len() - j)
}

/// `char_read_bounded` with an escape character other than `e`.
proof fn lemma_read_bound_char(
    c: Seq<char>,
    s: char,
    e: char,
    esc: char,
    j: int,
    odd: bool,
    pre: Seq<char>,
    out: Seq<char>,
    owned: bool,
)
    requires
        esc != e,
        0 <= j <= c.len(),
    ensures
        char_read_bounded(c, s, e, esc, j, odd, pre, out, owned),
    decreases c.len() - j, 1int,
{
    let tail = escape_char_from(c, seq![e], esc, j, odd);
    let w = pre + tail + seq![e];
    let p = pre.len() as int;
    let fl = Nesting::Flat;
    let st = EscapeStyle::Char(esc);
    lemma_matches_single(w, e, p);
    lemma_matches_single(w, e, p + 1);
    lemma_matches_single(w, s, p + 1);
    lemma_matches_single(c, e, j);
    assert(!closes_doubled(st, seq![e])) by {
        if seq![e] == seq![esc] {
            assert(seq![e][0] == seq![esc][0]);
        }
    }
    if j == c.len() {
        assert(tail =~= Seq::<char>::empty());
        assert(w[p] == e);
    } else if c[j] == e {
        let rest = escape_char_from(c, seq![e], esc, j + 1, false);
        if odd {
            assert(tail == Seq::<char>::empty() + seq![e] + rest);
            assert(w[p] == e);
        } else {
            assert(tail == seq![esc] + seq![e] + rest);
            assert(w[p] == esc && w[p + 1] == e);
            let pre2 = pre + seq![esc, e];
            assert(pre2 + rest + seq![e] =~= w);
            lemma_read_bound_char(c, s, e, esc, j + 1, false, pre2, out + seq![e], true);
            assert(scan_from(w, seq![s], seq![e], st, seq![], fl, p, 0, None, out, owned)
                == scan_from(w, seq![s], seq![e], st, seq![], fl, p + 2, 0, None, out + seq![e], true));
        }
    } else if c[j] == esc {
        lemma_read_bound_char_at_escape(c, s, e, esc, j, odd, pre, out, owned);
    } else {
        let x = c[j];
        let rest = escape_char_from(c, seq![e], esc, j + 1, false);
        assert(tail == seq![x] + rest);
        assert(w[p] == x);
        let pre2 = pre + seq![x];
        assert(pre2 + rest + seq![e] =~= w);
        lemma_read_bound_char(c, s, e, esc, j + 1, false, pre2, out.push(x), owned);
    }
}

/// `char_read_bounded` where `c[j]` is the escape character.
#[verifier::rlimit(30)]
proof fn lemma_read_bound_char_at_escape(
    c: Seq<char>,
    s: char,
    e: char,
    esc: char,
    j: int,
    odd: bool,
    pre: Seq<char>,
    out: Seq<char>,
    owned: bool,
)
    requires
        esc != e,
        0 <= j < c.len(),
        c[j] == esc,
    ensures
        char_read_bounded(c, s, e, esc, j, odd, pre, out, owned),
    decreases c.len() - j, 0int,
{
    let tail = escape_char_from(c, seq![e], esc, j, odd);
    let w = pre + tail + seq![e];
    let p = pre.len() as int;
    let fl = Nesting::Flat;
    let st = EscapeStyle::Char(esc);
    lemma_matches_single(w, e, p);
    lemma_matches_single(w, e, p + 1);
    lemma_matches_single(w, s, p + 1);
    lemma_matches_single(w, e, p + 2);
    lemma_matches_single(w, s, p + 2);
    lemma_matches_single(c, e, j);
    lemma_matches_single(c, e, j + 1);
    assert(!closes_doubled(st, seq![e])) by {
        if seq![e] == seq![esc] {
            assert(seq![e][0] == seq![esc][0]);
        }
    }
    let odd1 = !odd;
    let rest1 = escape_char_from(c, seq![e], esc, j + 1, odd1);
    assert(tail == seq![esc] + rest1);
    assert(w[p] == esc);
    if j + 1 == c.len() {
        assert(rest1 =~= Seq::<char>::empty());
        assert(w[p + 1] == e);
        assert(w.len() == p + 2);
        assert(scan_from(w, seq![s], seq![e], st, seq![], fl, p, 0, None, out, owned) is None);
    } else if c[j + 1] == e {
        let rest2 = escape_char_from(c, seq![e], esc, j + 2, false);
        if odd1 {
            assert(rest1 == Seq::<char>::empty() + seq![e] + rest2);
            assert(w[p + 1] == e);
            let pre3 = pre + seq![esc, e];
            assert(pre3 + rest2 + seq![e] =~= w);
            lemma_read_bound_char(c, s, e, esc, j + 2, false, pre3, out + seq![e], true);
            assert(scan_from(w, seq![s], seq![e], st, seq![], fl, p, 0, None, out, owned)
                == scan_from(w, seq![s], seq![e], st, seq![], fl, p + 2, 0, None, out + seq![e], true));
        } else {
            assert(rest1 == seq![esc] + seq![e] + rest2);
            assert(w[p + 1] == esc && w[p + 2] == e);
            if s == esc {
                assert(scan_from(w, seq![s], seq![e], st, seq![], fl, p, 0, None, out, owned)
                    == scan_from(w, seq![s], seq![e], st, seq![], fl, p + 2, 0, None, out + seq![s], true));
            } else {
                let pre3 = pre + seq![esc, esc, e];
                assert(pre3 + rest2 + seq![e] =~= w);
                lemma_read_bound_char(c, s, e, esc, j + 2, false, pre3, out.push(esc) + seq![e], true);
                assert(char_round_trips_from(c, s, e, esc, j + 1, false) == char_round_trips_from(
                    c,
                    s,
                    e,
                    esc,
                    j + 2,
                    false,
                ));
                assert(scan_from(w, seq![s], seq![e], st, seq![], fl, p + 1, 0, None, out.push(esc), owned)
                    == scan_from(w, seq![s], seq![e], st, seq![], fl, p + 3, 0, None, out.push(esc) + seq![e], true));
            }
        }
    } else {
        let y = c[j + 1];
        let odd2 = y == esc && !odd1;
        let rest2 = escape_char_from(c, seq![e], esc, j + 2, odd2);
        assert(rest1 == seq![y] + rest2);
        assert(w[p + 1] == y);
        if y == s {
            let pre3 = pre + seq![esc, y];
            assert(pre3 + rest2 + seq![e] =~= w);
            lemma_read_bound_char(c, s, e, esc, j + 2, odd2, pre3, out + seq![s], true);
        } else {
            let pre2 = pre + seq![esc];
            assert(pre2 + rest1 + seq![e] =~= w);
            lemma_read_bound_char(c, s, e, esc, j + 1, odd1, pre2, out.push(esc), owned);
        }
    }
}

/// The round trip of `law_enclose_extract_round_trip` holds on exactly the
/// contents of `round_trip_condition`: on every other content, extraction
/// finds no enclosure or a shorter one.
pub proof fn law_enclose_extract_round_trip_exact(c: Seq<char>, s: char, e: char, style: EscapeStyle)
    ensures
        (first_enclosure(
            flat_segments(spec_enclose(c, seq![s], seq![e], style), seq![s], seq![e], style),
        ) == Some(c)) == round_trip_condition(c, s, e, style),
{
    if round_trip_condition(c, s, e, style) {
        law_enclose_extract_round_trip(c, s, e, style);
    } else {
        let w = spec_enclose(c, seq![s], seq![e], style);
        let x = spec_escape(c, seq![e], style);
        assert(w == seq![s] + x + seq![e]);
        assert(w[0] == s);
        lemma_matches_single(w, s, 0);
        lemma_first_of_opened(w, seq![s], seq![e], style);
        assert(c.subrange(0, c.len() as int) =~= c);
        match style {
            EscapeStyle::Verbatim => {
                lemma_read_bound_verbatim(c, s, e, 0, seq![s], seq![], false);
            },
            EscapeStyle::Doubled => {
                lemma_read_bound_doubled(c, s, e, 0, seq![s], seq![], false);
                let i = choose|i: int| 0 <= i && i + 1 < c.len() && #[trigger] c[i] == e && c[i + 1] == e;
                assert(0 <= i && i + 1 < c.len() && c[i] == e && c[i + 1] == e);
            },
            EscapeStyle::Char(esc) => {
                assert(esc != e);
                assert(esc_run_before(c, esc, 0) == 0);
                if char_round_trips_from(c, s, e, esc, 0, false) {
                    lemma_round_trips_from_gives_condition(c, s, e, esc, 0, false);
                }
                lemma_read_bound_char(c, s, e, esc, 0, false, seq![s], seq![], false);
            },
        }
    }
}

/// Contents `c` that enclosing in the tokens `start` and `end` leaves as they
/// are and that extraction reads back whole: `end` starts nowhere in `c + end`
/// before the trailing `end`, and, with an escape character, no escape
/// character of `c` stands right before `start` or `end` in `c + end`.
pub open spec fn token_round_trip_condition(
    c: Seq<char>,
    start: Seq<char>,
    end: Seq<char>,
    style: EscapeStyle,
) -> bool {
    &&& forall|k: int| 0 <= k < c.len() ==> !#[trigger] matches_at(c + end, end, k)
    &&& style matches EscapeStyle::Char(esc) ==> forall|k: int|
        0 <= k < c.len() && #[trigger] c[k] == esc ==> !matches_at(c + end, start, k + 1)
            && !matches_at(c + end, end, k + 1)
}

/// A token occurs at position `k` of `rest` exactly where it occurs at
/// `pre.len() + k` of `pre + rest`.
proof fn lemma_matches_shift(pre: Seq<char>, rest: Seq<char>, tok: Seq<char>, k: int)
    requires
        0 <= k,
    ensures
        matches_at(pre + rest, tok, pre.len() + k) <==> matches_at(rest, tok, k),
{
    let w = pre + rest;
    let p = pre.len() + k;
    if k + tok.len() <= rest.len() {
        assert(w.subrange(p, p + tok.len()) =~= rest.subrange(k, k + tok.len()));
    }
}

/// Where `tok` occurs nowhere in `src[i..]`, escaping leaves `src[i..]` as it
/// is, whatever the style.
proof fn lemma_escape_without_token(src: Seq<char>, tok: Seq<char>, esc: char, i: int, odd: bool)
    requires
        0 <= i <= src.len(),
        tok.len() > 0,
        forall|k: int| i <= k < src.len() ==> !#[trigger] matches_at(src, tok, k),
    ensures
        escape_char_from(src, tok, esc, i, odd) == src.subrange(i, src.len() as int),
        escape_doubled_from(src, tok, i) == src.subrange(i, src.len() as int),
    decreases src.len() - i,
{
    if i < src.len() {
        assert(!matches_at(src, tok, i));
        lemma_escape_without_token(src, tok, esc, i + 1, src[i] == esc && !odd);
        lemma_escape_without_token(src, tok, esc, i + 1, false);
        assert(seq![src[i]] + src.subrange(i + 1, src.len() as int) =~= src.subrange(
            i,
            src.len() as int,
        ));
    } else {
        assert(src.subrange(i, src.len() as int) =~= Seq::<char>::empty());
    }
}

/// The flat scan of `start + c + end` from position `start.len() + j` reads
/// `c[j..]` and closes at the end, where `c` meets
/// `token_round_trip_condition`.
proof fn lemma_scan_tokens(
    c: Seq<char>,
    start: Seq<char>,
    end: Seq<char>,
    style: EscapeStyle,
    j: int,
    out: Seq<char>,
    owned: bool,
)
    requires
        start.len() > 0,
        end.len() > 0,
        token_round_trip_condition(c, start, end, style),
        0 <= j <= c.len(),
    ensures
        ({
            let w = start + c + end;
            scan_from(
                w,
                start,
                end,
                style,
                seq![],
                Nesting::Flat,
                start.len() + j,
                0,
                None,
                out,
                owned,
            ) matches Some(r) && r.0 == out + c.subrange(j, c.len() as int) && r.1 == w.len()
        }),
    decreases c.len() - j,
{
    let w = start + c + end;
    let rest = c + end;
    let p = start.len() + j;
    assert(w =~= start + rest);
    lemma_matches_shift(start, rest, end, j);
    if j == c.len() {
        assert(rest.subrange(j, j + end.len()) =~= end);
        assert(matches_at(rest, end, j));
        assert(!matches_at(w, end, p + end.len()));
        assert(c.subrange(j, c.len() as int) =~= Seq::<char>::empty());
        assert(out + c.subrange(j, c.len() as int) =~= out);
    } else {
        let x = c[j];
        assert(w[p] == x);
        assert(!matches_at(rest, end, j));
        assert(!seq![].contains(x));
        if is_escape_char(style, x) {
            lemma_matches_shift(start, rest, start, j + 1);
            lemma_matches_shift(start, rest, end, j + 1);
            assert(!matches_at(w, start, p + 1));
            assert(!matches_at(w, end, p + 1));
        }
        lemma_scan_tokens(c, start, end, style, j + 1, out.push(x), owned);
        assert(out.push(x) + c.subrange(j + 1, c.len() as int) =~= out + c.subrange(
            j,
            c.len() as int,
        ));
    }
}

/// Round trip with delimiters of any length: enclosing content `c` in the
/// tokens `start` and `end` with `style`, then extracting the first enclosure
/// bounded by them with the same style, gives `c` back, for every `c` that
/// satisfies `token_round_trip_condition`.
pub proof fn law_enclose_extract_round_trip_tokens(
    c: Seq<char>,
    start: Seq<char>,
    end: Seq<char>,
    style: EscapeStyle,
)
    requires
        start.len() > 0,
        end.len() > 0,
        token_round_trip_condition(c, start, end, style),
    ensures
        first_enclosure(flat_segments(spec_enclose(c, start, end, style), start, end, style))
            == Some(c),
{
    assert forall|k: int| 0 <= k < c.len() implies !#[trigger] matches_at(c, end, k) by {
        if matches_at(c, end, k) {
            assert((c + end).subrange(k, k + end.len()) =~= c.subrange(k, k + end.len()));
            assert(matches_at(c + end, end, k));
        }
    }
    match style {
        EscapeStyle::Char(esc) => lemma_escape_without_token(c, end, esc, 0, false),
        _ => lemma_escape_without_token(c, end, ' ', 0, false),
    }
    assert(c.subrange(0, c.len() as int) =~= c);
    assert(spec_escape(c, end, style) == c);
    let w = spec_enclose(c, start, end, style);
    assert(w == start + c + end);
    assert(w.subrange(0, start.len() as int) =~= start);
    assert(matches_at(w, start, 0));
    lemma_first_of_opened(w, start, end, style);
    lemma_scan_tokens(c, start, end, style, 0, seq![], false);
    assert(seq![] + c =~= c);
}

/// The number of `open` minus the number of `close` characters in `c[..k]`.
pub open spec fn bracket_depth(c: Seq<char>, open: char, close: char, k: int) -> int
    decreases k,
{
    if k <= 0 || k > c.len() {
        0
    } else {
        bracket_depth(c, open, close, k - 1) + if c[k - 1] == open {
            1int
        } else if c[k - 1] == close {
            -1int
        } else {
            0int
        }
    }
}

/// Every `close` in `c` closes an earlier `open`, and every `open` is
/// closed.
pub open spec fn brackets_balanced(c: Seq<char>, open: char, close: char) -> bool {
    &&& forall|k: int| 0 <= k <= c.len() ==> #[trigger] bracket_depth(c, open, close, k) >= 0
    &&& bracket_depth(c, open, close, c.len() as int) == 0
}

/// The scan with nesting and quoted regions of `pre + c[j..] + close`, from
/// the end of `pre` at the depth of `c[..j]`, reads `c[j..]` and closes at the
/// end, where `c` balances its brackets and holds no quote or backslash.
proof fn lemma_scan_balanced(
    c: Seq<char>,
    open: char,
    close: char,
    j: int,
    pre: Seq<char>,
    out: Seq<char>,
    owned: bool,
)
    requires
        open != close,
        open != '"' && open != '\'' && open != '\\',
        close != '"' && close != '\'' && close != '\\',
        !c.contains('"') && !c.contains('\'') && !c.contains('\\'),
        brackets_balanced(c, open, close),
        0 <= j <= c.len(),
    ensures
        ({
            let w = pre + c.subrange(j, c.len() as int) + seq![close];
            scan_from(
                w,
                seq![open],
                seq![close],
                EscapeStyle::Char('\\'),
                seq!['"', '\''],
                Nesting::Delimiters,
                pre.len() as int,
                bracket_depth(c, open, close, j) as nat,
                None,
                out,
                owned,
            ) matches Some(r) && r.0 == out + c.subrange(j, c.len() as int) && r.1 == w.len()
        }),
    decreases c.len() - j,
{
    let w = pre + c.subrange(j, c.len() as int) + seq![close];
    let p = pre.len() as int;
    let quotes = seq!['"', '\''];
    let d = bracket_depth(c, open, close, j);
    assert(d >= 0);
    lemma_matches_single(w, close, p);
    lemma_matches_single(w, close, p + 1);
    lemma_matches_single(w, open, p);
    assert(!closes_doubled(EscapeStyle::Char('\\'), seq![close])) by {
        if seq![close] == seq!['\\'] {
            assert(seq![close][0] == seq!['\\'][0]);
        }
    }
    if j == c.len() {
        assert(c.subrange(j, c.len() as int) =~= Seq::<char>::empty());
        assert(w[p] == close);
        assert(!quotes.contains(close));
    } else {
        let x = c[j];
        assert(w[p] == x);
        assert(x != '"' && x != '\'' && x != '\\') by {
            assert(c.contains(x));
        }
        assert(!quotes.contains(x));
        assert(bracket_depth(c, open, close, j + 1) >= 0);
        let pre2 = pre + seq![x];
        assert(pre2 + c.subrange(j + 1, c.len() as int) + seq![close] =~= w);
        if x == open {
            assert(opener_len(w, seq![open], seq![close], Nesting::Delimiters, p) == 1);
            assert(w.subrange(p, p + 1) =~= seq![x]);
            lemma_scan_balanced(c, open, close, j + 1, pre2, out + seq![x], owned);
        } else if x == close {
            lemma_scan_balanced(c, open, close, j + 1, pre2, out + seq![x], owned);
        } else {
            lemma_scan_balanced(c, open, close, j + 1, pre2, out.push(x), owned);
            assert(out.push(x) =~= out + seq![x]);
        }
        assert(out + seq![x] + c.subrange(j + 1, c.len() as int) =~= out + c.subrange(
            j,
            c.len() as int,
        ));
    }
}

/// Round trip with balanced nesting: wrapping content literally in an
/// opening bracket and its distinct closing character, then extracting the
/// first balanced enclosure, gives the content back, for content whose
/// brackets balance and which holds no quote character or backslash.
pub proof fn law_wrap_extract_balanced_round_trip(c: Seq<char>, opening: char)
    requires
        closing_char(opening) != opening,
        brackets_balanced(c, opening, closing_char(opening)),
        !c.contains('"') && !c.contains('\'') && !c.contains('\\'),
    ensures
        first_enclosure(
            captures_spec(
                seq![opening] + c + seq![closing_char(opening)],
                opening,
            ),
        ) == Some(c),
{
    let close = closing_char(opening);
    let w = seq![opening] + c + seq![close];
    assert(c.subrange(0, c.len() as int) =~= c);
    assert(bracket_depth(c, opening, close, 0) == 0);
    lemma_scan_balanced(c, opening, close, 0, seq![opening], seq![], false);
    assert(seq![] + c == c);
    let style = EscapeStyle::Char('\\');
    let quotes = seq!['"', '\''];
    let nesting = Nesting::Delimiters;
    lemma_matches_single(w, opening, 0);
    assert(w[0] == opening);
    assert(first_match_from(w, seq![opening], 0) == Some(0int));
    let found = scan_content_spec(w, seq![opening], seq![close], style, quotes, nesting, 1)->0;
    assert(segments_from(w, seq![opening], seq![close], style, quotes, nesting, w.len() as int)
        =~= Seq::<SegmentView>::empty());
    let one = seq![SegmentView::Enclosure(c, found.2)];
    assert(segments_from(w, seq![opening], seq![close], style, quotes, nesting, 0) =~= one);
    assert(one.drop_last() =~= Seq::<SegmentView>::empty());
    assert(enclosures(Seq::<SegmentView>::empty()) == Seq::<Seq<char>>::empty());
    assert(one.last() == SegmentView::Enclosure(c, found.2));
    assert(enclosures(one) =~= seq![c]);
}


/// Reading `c[j..]` as the content of a balanced enclosure of `open` and
/// `close` (distinct, neither a quote nor a backslash), from nesting depth
/// `depth` and inside the quoted region `quote` if any, gives it back
/// unchanged and closes right after it: inside a quoted region a backslash is
/// followed by another character; outside one, a backslash is followed by a
/// character other than `open` and `close`, and `close` only closes an
/// `open`; at the end no region or `open` is left open.
pub open spec fn reads_back_balanced(
    c: Seq<char>,
    open: char,
    close: char,
    j: int,
    depth: nat,
    quote: Option<char>,
) -> bool
    decreases c.len() - j,
{
    if j < 0 || j >= c.len() {
        depth == 0 && quote is None
    } else if quote is Some {
        if c[j] == '\\' {
            j + 1 < c.len() && reads_back_balanced(c, open, close, j + 2, depth, quote)
        } else {
            reads_back_balanced(
                c,
                open,
                close,
                j + 1,
                depth,
                if c[j] == quote->0 {
                    None
                } else {
                    quote
                },
            )
        }
    } else if c[j] == '"' || c[j] == '\'' {
        reads_back_balanced(c, open, close, j + 1, depth, Some(c[j]))
    } else if c[j] == close {
        depth > 0 && reads_back_balanced(c, open, close, j + 1, (depth - 1) as nat, None)
    } else if c[j] == open {
        reads_back_balanced(c, open, close, j + 1, depth + 1, None)
    } else if c[j] == '\\' {
        &&& j + 1 < c.len()
        &&& c[j + 1] != open
        &&& c[j + 1] != close
        &&& reads_back_balanced(c, open, close, j + 1, depth, None)
    } else {
        reads_back_balanced(c, open, close, j + 1, depth, None)
    }
}

/// The scan with nesting and quoted regions of `pre + c[j..] + close` from
/// the end of `pre`, at nesting depth `depth` and inside `quote` if any,
/// either never closes or reads no more characters than `c[j..]` holds; it
/// reads exactly `c[j..]` and closes at the end where `reads_back_balanced`
/// holds, and reads fewer characters where it fails.
spec fn captures_read_bounded(
    c: Seq<char>,
    open: char,
    close: char,
    j: int,
    depth: nat,
    quote: Option<char>,
    pre: Seq<char>,
    out: Seq<char>,
    owned: bool,
) -> bool {
    let w = pre + c.subrange(j, c.len() as int) + seq![close];
    let r = scan_from(
        w,
        seq![open],
        seq![close],
        EscapeStyle::Char('\\'),
        seq!['"', '\''],
        Nesting::Delimiters,
        pre.len() as int,
        depth,
        quote,
        out,
        owned,
    );
    &&& reads_back_balanced(c, open, close, j, depth, quote) ==> (r matches Some(x) && x.0 == out
        + c.subrange(j, c.len() as int) && x.1 == w.len())
    &&& r matches Some(x) ==> x.0.len() <= out.len() + c.len() - j && (!reads_back_balanced(
        c,
        open,
        close,
        j,
        depth,
        quote,
    ) ==> x.0.len() < out.len() + c.len() - j)
}

/// `captures_read_bounded` holds for every content and state.
proof fn lemma_scan_captures(
    c: Seq<char>,
    open: char,
    close: char,
    j: int,
    depth: nat,
    quote: Option<char>,
    pre: Seq<char>,
    out: Seq<char>,
    owned: bool,
)
    requires
        open != close,
        open != '"' && open != '\'' && open != '\\',
        close != '"' && close != '\'' && close != '\\',
        0 <= j <= c.len(),
    ensures
        captures_read_bounded(c, open, close, j, depth, quote, pre, out, owned),
    decreases c.len() - j, 1int,
{
    let w = pre + c.subrange(j, c.len() as int) + seq![close];
    let p = pre.len() as int;
    let quotes = seq!['"', '\''];
    lemma_matches_single(w, close, p);
    assert(!closes_doubled(EscapeStyle::Char('\\'), seq![close])) by {
        if seq![close] == seq!['\\'] {
            assert(seq![close][0] == seq!['\\'][0]);
        }
    }
    assert(!quotes.contains(close)) by {
        if quotes.contains(close) {
            let k = choose|k: int| 0 <= k < quotes.len() && #[trigger] quotes[k] == close;
        }
    }
    if j == c.len() {
        assert(c.subrange(j, c.len() as int) =~= Seq::<char>::empty());
        assert(w[p] == close);
        assert(w.len() == p + 1);
        let st = EscapeStyle::Char('\\');
        let ne = Nesting::Delimiters;
        if quote is Some {
            let next_quote = if close == quote->0 {
                None
            } else {
                quote
            };
            assert(scan_from(w, seq![open], seq![close], st, quotes, ne, p + 1, depth, next_quote, out.push(close), owned) is None);
        } else if depth > 0 {
            assert(scan_from(w, seq![open], seq![close], st, quotes, ne, p + 1, (depth - 1) as nat, None, out + seq![close], owned) is None);
        }
        assert(out + Seq::<char>::empty() =~= out);
    } else if quote is Some {
        lemma_scan_captures_quoted(c, open, close, j, depth, quote, pre, out, owned);
    } else {
        lemma_scan_captures_unquoted(c, open, close, j, depth, pre, out, owned);
    }
}

/// `captures_read_bounded` inside a quoted region, before the end.
proof fn lemma_scan_captures_quoted(
    c: Seq<char>,
    open: char,
    close: char,
    j: int,
    depth: nat,
    quote: Option<char>,
    pre: Seq<char>,
    out: Seq<char>,
    owned: bool,
)
    requires
        open != close,
        open != '"' && open != '\'' && open != '\\',
        close != '"' && close != '\'' && close != '\\',
        0 <= j < c.len(),
        quote is Some,
    ensures
        captures_read_bounded(c, open, close, j, depth, quote, pre, out, owned),
    decreases c.len() - j, 0int,
{
    let w = pre + c.subrange(j, c.len() as int) + seq![close];
    let p = pre.len() as int;
    let quotes = seq!['"', '\''];
    let st = EscapeStyle::Char('\\');
    let ne = Nesting::Delimiters;
    let x = c[j];
    assert(w[p] == x);
    let rest = c.subrange(j + 1, c.len() as int);
    let pre2 = pre + seq![x];
    assert(pre2 + rest + seq![close] =~= w);
    assert(out.push(x) + rest =~= out + c.subrange(j, c.len() as int));
    if x == '\\' && j + 1 < c.len() {
        let y = c[j + 1];
        assert(w[p + 1] == y);
        let rest2 = c.subrange(j + 2, c.len() as int);
        let pre3 = pre + seq![x, y];
        assert(pre3 + rest2 + seq![close] =~= w);
        assert(out.push(x).push(y) + rest2 =~= out + c.subrange(j, c.len() as int));
        lemma_scan_captures(c, open, close, j + 2, depth, quote, pre3, out.push(x).push(y), owned);
    } else if x == '\\' {
        assert(w[p + 1] == close);
        assert(w.len() == p + 2);
        assert(scan_from(w, seq![open], seq![close], st, quotes, ne, p + 2, depth, quote, out.push(x).push(close), owned) is None);
        assert(scan_from(w, seq![open], seq![close], st, quotes, ne, p, depth, quote, out, owned) is None);
    } else {
        let next_quote = if x == quote->0 {
            None
        } else {
            quote
        };
        lemma_scan_captures(c, open, close, j + 1, depth, next_quote, pre2, out.push(x), owned);
    }
}

/// `captures_read_bounded` outside any quoted region, before the end.
proof fn lemma_scan_captures_unquoted(
    c: Seq<char>,
    open: char,
    close: char,
    j: int,
    depth: nat,
    pre: Seq<char>,
    out: Seq<char>,
    owned: bool,
)
    requires
        open != close,
        open != '"' && open != '\'' && open != '\\',
        close != '"' && close != '\'' && close != '\\',
        0 <= j < c.len(),
    ensures
        captures_read_bounded(c, open, close, j, depth, None, pre, out, owned),
    decreases c.len() - j, 0int,
{
    let w = pre + c.subrange(j, c.len() as int) + seq![close];
    let p = pre.len() as int;
    let quotes = seq!['"', '\''];
    let st = EscapeStyle::Char('\\');
    let ne = Nesting::Delimiters;
    lemma_matches_single(w, close, p);
    lemma_matches_single(w, close, p + 1);
    lemma_matches_single(w, open, p);
    lemma_matches_single(w, open, p + 1);
    assert(!closes_doubled(st, seq![close])) by {
        if seq![close] == seq!['\\'] {
            assert(seq![close][0] == seq!['\\'][0]);
        }
    }
    let x = c[j];
    assert(w[p] == x);
    let rest = c.subrange(j + 1, c.len() as int);
    let pre2 = pre + seq![x];
    assert(pre2 + rest + seq![close] =~= w);
    assert(out.push(x) + rest =~= out + c.subrange(j, c.len() as int));
    assert(quotes.contains(x) <==> (x == '"' || x == '\'')) by {
        if x == '"' {
            assert(quotes[0] == x);
        } else if x == '\'' {
            assert(quotes[1] == x);
        } else if quotes.contains(x) {
            let k = choose|k: int| 0 <= k < quotes.len() && #[trigger] quotes[k] == x;
        }
    }
    if x == '"' || x == '\'' {
        lemma_scan_captures(c, open, close, j + 1, depth, Some(x), pre2, out.push(x), owned);
    } else if x == close {
        if depth > 0 {
            assert(out + seq![close] =~= out.push(x));
            lemma_scan_captures(c, open, close, j + 1, (depth - 1) as nat, None, pre2, out + seq![close], owned);
        }
    } else if x == open {
        assert(opener_len(w, seq![open], seq![close], ne, p) == 1);
        assert(w.subrange(p, p + 1) =~= seq![x]);
        assert(out + seq![x] =~= out.push(x));
        lemma_scan_captures(c, open, close, j + 1, depth + 1, None, pre2, out + seq![x], owned);
    } else if x == '\\' {
        assert(opener_len(w, seq![open], seq![close], ne, p) == 0);
        if j + 1 < c.len() {
            let y = c[j + 1];
            assert(w[p + 1] == y);
            if y == open || y == close {
                let rest2 = c.subrange(j + 2, c.len() as int);
                let pre3 = pre + seq![x, y];
                assert(pre3 + rest2 + seq![close] =~= w);
                lemma_scan_captures(c, open, close, j + 2, depth, None, pre3, out + seq![y], true);
            } else {
                lemma_scan_captures(c, open, close, j + 1, depth, None, pre2, out.push(x), owned);
            }
        } else {
            assert(w[p + 1] == close);
            assert(w.len() == p + 2);
            assert(scan_from(w, seq![open], seq![close], st, quotes, ne, p + 2, depth, None, out + seq![close], true) is None);
            assert(scan_from(w, seq![open], seq![close], st, quotes, ne, p, depth, None, out, owned) is None);
        }
    } else {
        assert(opener_len(w, seq![open], seq![close], ne, p) == 0);
        lemma_scan_captures(c, open, close, j + 1, depth, None, pre2, out.push(x), owned);
    }
}

/// Round trip with balanced nesting, exactly: wrapping content literally in
/// an opening character and its distinct closing character, then extracting
/// the first balanced enclosure, gives the content back if and only if
/// `reads_back_balanced` holds of it from depth 0 outside any quoted region.
pub proof fn law_wrap_extract_balanced_round_trip_exact(c: Seq<char>, opening: char)
    requires
        closing_char(opening) != opening,
    ensures
        (first_enclosure(captures_spec(seq![opening] + c + seq![closing_char(opening)], opening))
            == Some(c)) == reads_back_balanced(c, opening, closing_char(opening), 0, 0, None),
{
    let close = closing_char(opening);
    let w = seq![opening] + c + seq![close];
    let style = EscapeStyle::Char('\\');
    let quotes = seq!['"', '\''];
    let nesting = Nesting::Delimiters;
    assert(c.subrange(0, c.len() as int) =~= c);
    lemma_scan_captures(c, opening, close, 0, 0, None, seq![opening], seq![], false);
    assert(seq![] + c == c);
    lemma_matches_single(w, opening, 0);
    assert(w[0] == opening);
    assert(first_match_from(w, seq![opening], 0) == Some(0int));
    assert(enclosures(Seq::<SegmentView>::empty()) == Seq::<Seq<char>>::empty());
    match scan_content_spec(w, seq![opening], seq![close], style, quotes, nesting, 1) {
        Some(r) => {
            let one = seq![SegmentView::Enclosure(r.0, r.2)];
            let rest = segments_from(w, seq![opening], seq![close], style, quotes, nesting, r.1);
            assert(segments_from(w, seq![opening], seq![close], style, quotes, nesting, 0) =~= one
                + rest);
            assert(one.drop_last() =~= Seq::<SegmentView>::empty());
            assert(one.last() == SegmentView::Enclosure(r.0, r.2));
            assert(enclosures(one) =~= seq![r.0]);
            lemma_enclosures_append(one, rest);
        },
        None => {
            let one = seq![SegmentView::Outside(w.subrange(0, w.len() as int))];
            assert(segments_from(w, seq![opening], seq![close], style, quotes, nesting, 0) =~= one);
            assert(one.drop_last() =~= Seq::<SegmentView>::empty());
            assert(enclosures(one) =~= Seq::<Seq<char>>::empty());
        },
    }
}

} // verus!
