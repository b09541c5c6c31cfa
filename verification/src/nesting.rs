//! Laws of nesting: which groups a text holds, and how a counted pair is read.
use vstd::prelude::*;

use crate::delimiter::matches_at;
use crate::escape::EscapeStyle;
use crate::scan::Nesting;
use crate::unwrap::{is_pair_close, matched_pairs, nested_groups, opener_len, pair_scan, scan_from};

verus! {

/// The number of `open` minus the number of `close` characters in
/// `s[a..k]`.
pub open spec fn depth_between(s: Seq<char>, open: char, close: char, a: int, k: int) -> int
    decreases k - a,
{
    if k <= a {
        0
    } else {
        depth_between(s, open, close, a, k - 1) + if s[k - 1] == open {
            1int
        } else if s[k - 1] == close {
            -1int
        } else {
            0int
        }
    }
}

/// The `open` at `p` is closed by the `close` at `q`: between them every
/// prefix holds at least as many openings as closings, and the whole holds as
/// many of each.
pub open spec fn closes_group(s: Seq<char>, open: char, close: char, p: int, q: int) -> bool {
    &&& 0 <= p < q < s.len()
    &&& s[p] == open
    &&& s[q] == close
    &&& forall|k: int| p + 1 <= k <= q ==> #[trigger] depth_between(s, open, close, p + 1, k) >= 0
    &&& depth_between(s, open, close, p + 1, q) == 0
}

/// `g` lists the content of every group of `s`, each once, ordered by the
/// position of its opening: group `a` opens at `ps[a]` and closes at `qs[a]`.
pub open spec fn listed_by_opening(
    s: Seq<char>,
    open: char,
    close: char,
    g: Seq<Seq<char>>,
    ps: Seq<int>,
    qs: Seq<int>,
) -> bool {
    &&& ps.len() == g.len()
    &&& qs.len() == g.len()
    &&& forall|a: int, b: int| 0 <= a < b < g.len() ==> #[trigger] ps[a] < #[trigger] ps[b]
    &&& forall|a: int|
        0 <= a < g.len() ==> closes_group(s, open, close, ps[a], qs[a]) && #[trigger] g[a]
            == s.subrange(ps[a] + 1, qs[a])
    &&& forall|p: int, q: int|
        #[trigger] closes_group(s, open, close, p, q) ==> exists|a: int|
            0 <= a < g.len() && #[trigger] ps[a] == p && qs[a] == q
}

/// One more character extends the depth by its own count.
proof fn lemma_depth_step(s: Seq<char>, open: char, close: char, a: int, k: int)
    requires
        a <= k,
    ensures
        depth_between(s, open, close, a, k + 1) == depth_between(s, open, close, a, k) + if s[k]
            == open {
            1int
        } else if s[k] == close {
            -1int
        } else {
            0int
        },
{
    assert(depth_between(s, open, close, a, k + 1) == depth_between(s, open, close, a, k) + if s[k]
        == open {
        1int
    } else if s[k] == close {
        -1int
    } else {
        0int
    });
}

/// An opening is closed by at most one closing.
proof fn lemma_closes_unique(s: Seq<char>, open: char, close: char, p: int, q1: int, q2: int)
    requires
        open != close,
        closes_group(s, open, close, p, q1),
        closes_group(s, open, close, p, q2),
    ensures
        q1 == q2,
{
    if q1 < q2 {
        lemma_depth_step(s, open, close, p + 1, q1);
        assert(depth_between(s, open, close, p + 1, q1 + 1) >= 0);
    } else if q2 < q1 {
        lemma_depth_step(s, open, close, p + 1, q2);
        assert(depth_between(s, open, close, p + 1, q2 + 1) >= 0);
    }
}

/// What holds of the bracket matching at position `i`: the openings still
/// unmatched, in increasing order, each with a nonnegative depth since it and
/// the depth of the openings above it; the pairs matched so far, each a group;
/// and every opening before `i` is either matched or unmatched.
spec fn pair_scan_inv(
    s: Seq<char>,
    open: char,
    close: char,
    i: int,
    st: Seq<int>,
    m: Map<int, int>,
) -> bool {
    &&& forall|j: int| 0 <= j < st.len() ==> 0 <= #[trigger] st[j] < i && s[st[j]] == open
    &&& forall|j1: int, j2: int| 0 <= j1 < j2 < st.len() ==> #[trigger] st[j1] < #[trigger] st[j2]
    &&& forall|j: int|
        0 <= j < st.len() ==> (forall|k: int|
            #![trigger depth_between(s, open, close, st[j] + 1, k)]
            st[j] + 1 <= k <= i ==> depth_between(s, open, close, st[j] + 1, k) >= 0)
            && depth_between(s, open, close, #[trigger] st[j] + 1, i) == st.len() - 1 - j
    &&& forall|p: int|
        #[trigger] m.dom().contains(p) ==> m[p] < i && closes_group(s, open, close, p, m[p])
    &&& forall|p: int|
        0 <= p < i && #[trigger] s[p] == open ==> (m.dom().contains(p) <==> !st.contains(p))
}

/// The matching from position `i` on pairs exactly the groups of `s`.
proof fn lemma_pair_scan(
    s: Seq<char>,
    open: char,
    close: char,
    i: int,
    st: Seq<int>,
    m: Map<int, int>,
)
    requires
        open != close,
        0 <= i <= s.len(),
        pair_scan_inv(s, open, close, i, st, m),
    ensures
        ({
            let r = pair_scan(s, open, close, i, st, m);
            &&& forall|p: int| #[trigger]
                r.dom().contains(p) ==> closes_group(s, open, close, p, r[p])
            &&& forall|p: int, q: int|
                #[trigger] closes_group(s, open, close, p, q) ==> r.dom().contains(p) && r[p] == q
        }),
    decreases s.len() - i,
{
    if i == s.len() {
        assert(pair_scan(s, open, close, i, st, m) == m);
        assert forall|p: int, q: int| #[trigger]
            closes_group(s, open, close, p, q) implies m.dom().contains(p) && m[p] == q by {
            assert(s[p] == open);
            if st.contains(p) {
                let j = choose|j: int| 0 <= j < st.len() && st[j] == p;
                assert(st[j] == p);
                lemma_depth_step(s, open, close, p + 1, q);
                assert(depth_between(s, open, close, st[j] + 1, q + 1) >= 0);
            }
            lemma_closes_unique(s, open, close, p, m[p], q);
        }
    } else {
        let c = s[i];
        if c == open {
            let st2 = st.push(i);
            assert forall|j: int| 0 <= j < st2.len() implies (forall|k: int|
                #![trigger depth_between(s, open, close, st2[j] + 1, k)]
                st2[j] + 1 <= k <= i + 1 ==> depth_between(s, open, close, st2[j] + 1, k) >= 0)
                && depth_between(s, open, close, #[trigger] st2[j] + 1, i + 1) == st2.len() - 1
                - j by {
                if j < st.len() {
                    assert(st2[j] == st[j]);
                    lemma_depth_step(s, open, close, st[j] + 1, i);
                } else {
                    assert(st2[j] == i);
                }
            }
            assert forall|p: int| 0 <= p < i + 1 && #[trigger] s[p] == open implies (m.dom().contains(
                p,
            ) <==> !st2.contains(p)) by {
                if p == i {
                    assert(st2[st.len() as int] == i);
                    if m.dom().contains(p) {
                        assert(m[p] < i);
                    }
                } else {
                    if st.contains(p) {
                        let j = choose|j: int| 0 <= j < st.len() && st[j] == p;
                        assert(st2[j] == p);
                    }
                    if st2.contains(p) {
                        let j = choose|j: int| 0 <= j < st2.len() && st2[j] == p;
                        assert(st[j] == p);
                    }
                }
            }
            lemma_pair_scan(s, open, close, i + 1, st2, m);
            assert(pair_scan(s, open, close, i, st, m) == pair_scan(s, open, close, i + 1, st2, m));
        } else if c == close && st.len() > 0 {
            let x = st.last();
            let n = st.len() as int;
            let st2 = st.drop_last();
            let m2 = m.insert(x, i);
            assert(st[n - 1] == x);
            assert(closes_group(s, open, close, x, i));
            assert forall|j: int| 0 <= j < st2.len() implies (forall|k: int|
                #![trigger depth_between(s, open, close, st2[j] + 1, k)]
                st2[j] + 1 <= k <= i + 1 ==> depth_between(s, open, close, st2[j] + 1, k) >= 0)
                && depth_between(s, open, close, #[trigger] st2[j] + 1, i + 1) == st2.len() - 1
                - j by {
                assert(st2[j] == st[j]);
                lemma_depth_step(s, open, close, st[j] + 1, i);
            }
            assert(!st2.contains(x)) by {
                if st2.contains(x) {
                    let j = choose|j: int| 0 <= j < st2.len() && st2[j] == x;
                    assert(st[j] < st[n - 1]);
                }
            }
            assert forall|p: int| #[trigger]
                m2.dom().contains(p) implies m2[p] < i + 1 && closes_group(
                s,
                open,
                close,
                p,
                m2[p],
            ) by {
                if p != x {
                    assert(m.dom().contains(p));
                }
            }
            assert forall|p: int| 0 <= p < i + 1 && #[trigger] s[p] == open implies (
            m2.dom().contains(p) <==> !st2.contains(p)) by {
                if p != x {
                    if st.contains(p) {
                        let j = choose|j: int| 0 <= j < st.len() && st[j] == p;
                        assert(j != n - 1);
                        assert(st2[j] == p);
                    }
                    if st2.contains(p) {
                        let j = choose|j: int| 0 <= j < st2.len() && st2[j] == p;
                        assert(st[j] == p);
                    }
                }
            }
            lemma_pair_scan(s, open, close, i + 1, st2, m2);
            assert(pair_scan(s, open, close, i, st, m) == pair_scan(s, open, close, i + 1, st2, m2));
        } else {
            assert forall|j: int| 0 <= j < st.len() implies (forall|k: int|
                #![trigger depth_between(s, open, close, st[j] + 1, k)]
                st[j] + 1 <= k <= i + 1 ==> depth_between(s, open, close, st[j] + 1, k) >= 0)
                && depth_between(s, open, close, #[trigger] st[j] + 1, i + 1) == st.len() - 1
                - j by {
                lemma_depth_step(s, open, close, st[j] + 1, i);
            }
            lemma_pair_scan(s, open, close, i + 1, st, m);
            assert(pair_scan(s, open, close, i, st, m) == pair_scan(s, open, close, i + 1, st, m));
        }
    }
}

/// The groups of `m` opening before `k`, with the positions they open and
/// close at, in increasing order of opening, one for each opening before `k`.
proof fn lemma_groups_listing(s: Seq<char>, open: char, close: char, m: Map<int, int>, k: int) -> (r: (
    Seq<int>,
    Seq<int>,
))
    requires
        forall|p: int| #[trigger] m.dom().contains(p) ==> closes_group(s, open, close, p, m[p]),
    ensures
        ({
            let g = crate::unwrap::groups_before(s, m, k);
            &&& r.0.len() == g.len()
            &&& r.1.len() == g.len()
            &&& forall|a: int, b: int| 0 <= a < b < g.len() ==> #[trigger] r.0[a] < #[trigger] r.0[b]
            &&& forall|a: int|
                0 <= a < g.len() ==> #[trigger] r.0[a] < k && m.dom().contains(r.0[a]) && r.1[a]
                    == m[r.0[a]] && g[a] == s.subrange(r.0[a] + 1, r.1[a])
            &&& forall|p: int|
                #[trigger] m.dom().contains(p) && p < k ==> exists|a: int|
                    0 <= a < g.len() && #[trigger] r.0[a] == p
        }),
    decreases k,
{
    if k <= 0 {
        assert forall|p: int| #[trigger] m.dom().contains(p) && p < k implies exists|a: int|
            0 <= a < 0 && #[trigger] Seq::<int>::empty()[a] == p by {
            assert(closes_group(s, open, close, p, m[p]));
        }
        (seq![], seq![])
    } else {
        let (ps, qs) = lemma_groups_listing(s, open, close, m, k - 1);
        let g0 = crate::unwrap::groups_before(s, m, k - 1);
        if m.dom().contains(k - 1) {
            let ps2 = ps.push(k - 1);
            let qs2 = qs.push(m[k - 1]);
            let g = crate::unwrap::groups_before(s, m, k);
            assert(g == g0 + seq![s.subrange(k, m[k - 1])]);
            assert forall|a: int| 0 <= a < g.len() implies #[trigger] ps2[a] < k && m.dom().contains(
                ps2[a],
            ) && qs2[a] == m[ps2[a]] && g[a] == s.subrange(ps2[a] + 1, qs2[a]) by {
                if a < g0.len() {
                    assert(ps2[a] == ps[a]);
                    assert(g[a] == g0[a]);
                }
            }
            assert forall|p: int| #[trigger] m.dom().contains(p) && p < k implies exists|a: int|
                0 <= a < g.len() && #[trigger] ps2[a] == p by {
                if p < k - 1 {
                    let a = choose|a: int| 0 <= a < g0.len() && #[trigger] ps[a] == p;
                    assert(ps2[a] == p);
                } else {
                    assert(ps2[g0.len() as int] == p);
                }
            }
            assert forall|a: int, b: int| 0 <= a < b < g.len() implies #[trigger] ps2[a]
                < #[trigger] ps2[b] by {
                assert(ps2[a] == ps[a]);
                if b < g0.len() {
                    assert(ps2[b] == ps[b]);
                } else {
                    assert(ps[a] < k - 1);
                }
            }
            (ps2, qs2)
        } else {
            let g = crate::unwrap::groups_before(s, m, k);
            assert(g =~= g0);
            assert forall|p: int| #[trigger] m.dom().contains(p) && p < k implies exists|a: int|
                0 <= a < g.len() && #[trigger] ps[a] == p by {
                assert(p < k - 1);
            }
            (ps, qs)
        }
    }
}

/// Every group of `s` at every depth is extracted once, by its content, in
/// the order in which the groups open: a group that opens earlier comes
/// first, whether it encloses the next one or not.
pub proof fn law_nested_groups_by_opening(s: Seq<char>, open: char, close: char)
    requires
        open != close,
    ensures
        exists|ps: Seq<int>, qs: Seq<int>|
            listed_by_opening(s, open, close, nested_groups(s, open, close), ps, qs),
{
    let m = matched_pairs(s, open, close);
    lemma_pair_scan(s, open, close, 0, seq![], Map::empty());
    let (ps, qs) = lemma_groups_listing(s, open, close, m, s.len() as int);
    let g = nested_groups(s, open, close);
    assert forall|p: int, q: int| #[trigger] closes_group(s, open, close, p, q) implies exists|a: int|
        0 <= a < g.len() && #[trigger] ps[a] == p && qs[a] == q by {
        assert(m.dom().contains(p) && p < s.len());
        let a = choose|a: int| 0 <= a < g.len() && #[trigger] ps[a] == p;
        assert(ps[a] == p && qs[a] == q);
    }
    assert(listed_by_opening(s, open, close, g, ps, qs));
}

/// Under nesting on a pair `open`/`close` of distinct characters, every
/// `open` is counted as a nested opening, whatever follows it.
pub proof fn law_pair_opening_counted(
    hay: Seq<char>,
    start: Seq<char>,
    end: Seq<char>,
    open: char,
    close: char,
    i: int,
)
    requires
        0 <= i < hay.len(),
        hay[i] == open,
        open != close,
    ensures
        opener_len(hay, start, end, Nesting::Pair(open, close), i) == 1,
{
}

/// Under nesting on a pair `open`/`close` of distinct characters, neither of
/// them a quote character, an empty pair `open close` met outside a quoted
/// region, where the closing delimiter does not start, is read as content: the
/// scan goes on after it at the same depth, with the pair added to the
/// content.
pub proof fn law_pair_read_as_content(
    hay: Seq<char>,
    start: Seq<char>,
    end: Seq<char>,
    escape: EscapeStyle,
    quotes: Seq<char>,
    open: char,
    close: char,
    p: int,
    depth: nat,
    out: Seq<char>,
    owned: bool,
)
    requires
        0 <= p,
        p + 1 < hay.len(),
        hay[p] == open,
        hay[p + 1] == close,
        open != close,
        !quotes.contains(open),
        !quotes.contains(close),
        !matches_at(hay, end, p),
    ensures
        scan_from(hay, start, end, escape, quotes, Nesting::Pair(open, close), p, depth, None, out, owned)
            == scan_from(
            hay,
            start,
            end,
            escape,
            quotes,
            Nesting::Pair(open, close),
            p + 2,
            depth,
            None,
            out + seq![open, close],
            owned,
        ),
{
    let ne = Nesting::Pair(open, close);
    assert(!is_pair_close(ne, open));
    assert(opener_len(hay, start, end, ne, p) == 1);
    assert(hay.subrange(p, p + 1) =~= seq![open]);
    assert(is_pair_close(ne, close));
    assert(out + seq![open] + seq![close] =~= out + seq![open, close]);
    assert(scan_from(hay, start, end, escape, quotes, ne, p + 1, depth + 1, None, out + seq![open], owned)
        == scan_from(hay, start, end, escape, quotes, ne, p + 2, depth, None, (out + seq![open]).push(close), owned));
    assert((out + seq![open]).push(close) =~= out + seq![open, close]);
}

} // verus!
