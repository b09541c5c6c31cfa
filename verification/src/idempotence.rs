//! Escaping already-escaped text leaves it as it is.
use vstd::prelude::*;

use crate::delimiter::{lemma_matches_single, matches_at};
use crate::escape::{escape_char_from, escape_doubled_from, spec_escape, EscapeStyle};

verus! {

/// Doubled text from position `j` starts with the same `m` characters as the
/// source from `j`, for `m` up to the token's length.
proof fn lemma_doubled_prefix(c: Seq<char>, tok: Seq<char>, j: int, m: int)
    requires
        0 <= j,
        0 <= m <= tok.len(),
        j + m <= c.len(),
    ensures
        escape_doubled_from(c, tok, j).len() >= m,
        escape_doubled_from(c, tok, j).take(m) == c.subrange(j, j + m),
    decreases m,
{
    let out = escape_doubled_from(c, tok, j);
    if m == 0 {
        assert(out.take(0) =~= c.subrange(j, j));
    } else if matches_at(c, tok, j) {
        let next = if matches_at(c, tok, j + tok.len()) {
            j + 2 * tok.len()
        } else {
            j + tok.len()
        };
        let rest = escape_doubled_from(c, tok, next);
        assert(out == tok + tok + rest);
        assert(out.take(m) =~= c.subrange(j, j + tok.len()).take(m));
        assert(c.subrange(j, j + tok.len()).take(m) =~= c.subrange(j, j + m));
    } else {
        lemma_doubled_prefix(c, tok, j + 1, m - 1);
        let rest = escape_doubled_from(c, tok, j + 1);
        assert(out == seq![c[j]] + rest);
        assert(out.take(m) =~= seq![c[j]] + rest.take(m - 1));
        assert(c.subrange(j, j + m) =~= seq![c[j]] + c.subrange(j + 1, j + m));
    }
}

/// Doubling text from `j` in which the token never occurs again copies it.
proof fn lemma_doubled_no_match(c: Seq<char>, tok: Seq<char>, j: int)
    requires
        0 <= j <= c.len(),
        forall|k: int| j <= k ==> !matches_at(c, tok, k),
    ensures
        escape_doubled_from(c, tok, j) == c.subrange(j, c.len() as int),
    decreases c.len() - j,
{
    if j == c.len() {
        assert(c.subrange(j, j) =~= Seq::<char>::empty());
    } else {
        lemma_doubled_no_match(c, tok, j + 1);
        assert(c.subrange(j, c.len() as int) =~= seq![c[j]] + c.subrange(j + 1, c.len() as int));
    }
}

/// Where the token does not occur in `c` at `j`, it does not occur at the
/// start of the doubled text from `j` either.
proof fn lemma_doubled_keeps_non_match(c: Seq<char>, tok: Seq<char>, j: int, pre: Seq<char>)
    requires
        0 <= j < c.len(),
        tok.len() > 0,
        !matches_at(c, tok, j),
    ensures
        !matches_at(pre + escape_doubled_from(c, tok, j), tok, pre.len() as int),
{
    let x = pre + escape_doubled_from(c, tok, j);
    let p = pre.len() as int;
    let w = tok.len() as int;
    if j + w <= c.len() {
        lemma_doubled_prefix(c, tok, j, w);
        assert(x.subrange(p, p + w) =~= escape_doubled_from(c, tok, j).take(w));
    } else {
        assert forall|k: int| j <= k implies !matches_at(c, tok, k) by {}
        lemma_doubled_no_match(c, tok, j);
    }
}

/// A second doubling pass over doubled text, started at the boundary of a
/// piece the first pass wrote, writes that text again.
proof fn lemma_doubling_idempotent(c: Seq<char>, tok: Seq<char>, j: int, pre: Seq<char>)
    requires
        0 <= j,
        tok.len() > 0,
    ensures
        escape_doubled_from(pre + escape_doubled_from(c, tok, j), tok, pre.len() as int)
            == escape_doubled_from(c, tok, j),
    decreases c.len() - j,
{
    let once = escape_doubled_from(c, tok, j);
    let x = pre + once;
    let p = pre.len() as int;
    let w = tok.len() as int;
    if j >= c.len() {
        assert(once =~= Seq::<char>::empty());
        assert(x.len() == p);
    } else if matches_at(c, tok, j) {
        let next = if matches_at(c, tok, j + w) {
            j + 2 * w
        } else {
            j + w
        };
        let rest = escape_doubled_from(c, tok, next);
        assert(once == tok + tok + rest);
        assert(x.subrange(p, p + w) =~= tok);
        assert(x.subrange(p + w, p + 2 * w) =~= tok);
        assert(matches_at(x, tok, p));
        assert(matches_at(x, tok, p + w));
        let pre2 = pre + tok + tok;
        assert(pre2 + rest =~= x);
        lemma_doubling_idempotent(c, tok, next, pre2);
    } else {
        let y = c[j];
        let rest = escape_doubled_from(c, tok, j + 1);
        assert(once == seq![y] + rest);
        lemma_doubled_keeps_non_match(c, tok, j, pre);
        assert(x[p] == y);
        let pre2 = pre + seq![y];
        assert(pre2 + rest =~= x);
        lemma_doubling_idempotent(c, tok, j + 1, pre2);
    }
}

/// Escaped text from position `j` starts with the same `m` characters as the
/// source from `j`, or holds the escape character among them, for `m` up to
/// the token's length.
proof fn lemma_char_prefix(c: Seq<char>, tok: Seq<char>, esc: char, j: int, odd: bool, m: int)
    requires
        0 <= j,
        0 <= m <= tok.len(),
        j + m <= c.len(),
    ensures
        escape_char_from(c, tok, esc, j, odd).len() >= m,
        escape_char_from(c, tok, esc, j, odd).take(m) == c.subrange(j, j + m) || escape_char_from(
            c,
            tok,
            esc,
            j,
            odd,
        ).take(m).contains(esc),
    decreases m,
{
    let out = escape_char_from(c, tok, esc, j, odd);
    if m == 0 {
        assert(out.take(0) =~= c.subrange(j, j));
    } else if matches_at(c, tok, j) {
        let rest = escape_char_from(c, tok, esc, j + tok.len(), false);
        if odd {
            assert(out == Seq::<char>::empty() + tok + rest);
            assert(out.take(m) =~= c.subrange(j, j + tok.len()).take(m));
            assert(c.subrange(j, j + tok.len()).take(m) =~= c.subrange(j, j + m));
        } else {
            assert(out == seq![esc] + tok + rest);
            assert(out.take(m)[0] == esc);
        }
    } else {
        let odd2 = c[j] == esc && !odd;
        lemma_char_prefix(c, tok, esc, j + 1, odd2, m - 1);
        let rest = escape_char_from(c, tok, esc, j + 1, odd2);
        assert(out == seq![c[j]] + rest);
        assert(out.take(m) =~= seq![c[j]] + rest.take(m - 1));
        assert(c.subrange(j, j + m) =~= seq![c[j]] + c.subrange(j + 1, j + m));
        if rest.take(m - 1).contains(esc) {
            let short = rest.take(m - 1);
            let k = choose|k: int| 0 <= k < short.len() && #[trigger] short[k] == esc;
            assert(out.take(m)[k + 1] == esc);
        }
    }
}

/// Escaping text from `j` in which the token never occurs again copies it.
proof fn lemma_char_no_match(c: Seq<char>, tok: Seq<char>, esc: char, j: int, odd: bool)
    requires
        0 <= j <= c.len(),
        forall|k: int| j <= k ==> !matches_at(c, tok, k),
    ensures
        escape_char_from(c, tok, esc, j, odd) == c.subrange(j, c.len() as int),
    decreases c.len() - j,
{
    if j == c.len() {
        assert(c.subrange(j, j) =~= Seq::<char>::empty());
    } else {
        lemma_char_no_match(c, tok, esc, j + 1, c[j] == esc && !odd);
        assert(c.subrange(j, c.len() as int) =~= seq![c[j]] + c.subrange(j + 1, c.len() as int));
    }
}

/// A second escaping pass with an escape character that the token does not
/// hold, over escaped text, started at the boundary of a piece the first pass
/// wrote and in the same state, writes that text again.
proof fn lemma_char_escaping_idempotent(
    c: Seq<char>,
    tok: Seq<char>,
    esc: char,
    j: int,
    odd: bool,
    pre: Seq<char>,
)
    requires
        !tok.contains(esc),
        tok.len() > 0,
        0 <= j,
    ensures
        escape_char_from(pre + escape_char_from(c, tok, esc, j, odd), tok, esc, pre.len() as int, odd)
            == escape_char_from(c, tok, esc, j, odd),
    decreases c.len() - j,
{
    let once = escape_char_from(c, tok, esc, j, odd);
    let x = pre + once;
    let p = pre.len() as int;
    let w = tok.len() as int;
    if j >= c.len() {
        assert(once =~= Seq::<char>::empty());
        assert(x.len() == p);
    } else if matches_at(c, tok, j) {
        let rest = escape_char_from(c, tok, esc, j + w, false);
        if odd {
            assert(once == Seq::<char>::empty() + tok + rest);
            assert(x.subrange(p, p + w) =~= tok);
            let pre2 = pre + tok;
            assert(pre2 + rest =~= x);
            lemma_char_escaping_idempotent(c, tok, esc, j + w, false, pre2);
            assert(Seq::<char>::empty() + tok + rest =~= tok + rest);
        } else {
            assert(once == seq![esc] + tok + rest);
            assert(x[p] == esc);
            assert(!matches_at(x, tok, p)) by {
                if matches_at(x, tok, p) {
                    assert(x.subrange(p, p + w)[0] == tok[0]);
                    assert(tok.contains(esc));
                }
            }
            assert(x.subrange(p + 1, p + 1 + w) =~= tok);
            assert(escape_char_from(x, tok, esc, p, false) == seq![esc] + escape_char_from(
                x,
                tok,
                esc,
                p + 1,
                true,
            ));
            assert(escape_char_from(x, tok, esc, p + 1, true) == Seq::<char>::empty() + tok
                + escape_char_from(x, tok, esc, p + 1 + w, false));
            let pre2 = pre + seq![esc] + tok;
            assert(pre2 + rest =~= x);
            lemma_char_escaping_idempotent(c, tok, esc, j + w, false, pre2);
            assert(seq![esc] + (Seq::<char>::empty() + tok + rest) =~= seq![esc] + tok + rest);
        }
    } else {
        let y = c[j];
        let odd2 = y == esc && !odd;
        let rest = escape_char_from(c, tok, esc, j + 1, odd2);
        assert(once == seq![y] + rest);
        assert(x[p] == y);
        assert(!matches_at(x, tok, p)) by {
            if j + w <= c.len() {
                lemma_char_prefix(c, tok, esc, j, odd, w);
                assert(x.subrange(p, p + w) =~= once.take(w));
                if matches_at(x, tok, p) {
                    if once.take(w).contains(esc) {
                        let head = once.take(w);
                        let k = choose|k: int| 0 <= k < head.len() && #[trigger] head[k] == esc;
                        assert(tok[k] == esc);
                    }
                }
            } else {
                assert forall|k: int| j <= k implies !matches_at(c, tok, k) by {}
                lemma_char_no_match(c, tok, esc, j, odd);
            }
        }
        let pre2 = pre + seq![y];
        assert(pre2 + rest =~= x);
        lemma_char_escaping_idempotent(c, tok, esc, j + 1, odd2, pre2);
    }
}

/// The inputs on which escaping is shown idempotent: every style but an
/// escape character that the token holds, and with such a character every
/// text in which the token does not occur. For a one-character token these
/// are exactly the inputs on which escaping is idempotent.
pub open spec fn escape_idempotent_condition(c: Seq<char>, tok: Seq<char>, style: EscapeStyle) -> bool {
    match style {
        EscapeStyle::Char(esc) => !tok.contains(esc) || forall|k: int| !matches_at(c, tok, k),
        _ => true,
    }
}

/// Escaping is idempotent: escaping already-escaped text leaves it as it is,
/// on the inputs of `escape_idempotent_condition`.
pub proof fn law_escape_idempotent(c: Seq<char>, tok: Seq<char>, style: EscapeStyle)
    requires
        escape_idempotent_condition(c, tok, style),
    ensures
        spec_escape(spec_escape(c, tok, style), tok, style) == spec_escape(c, tok, style),
{
    if tok.len() > 0 {
        match style {
            EscapeStyle::Verbatim => {},
            EscapeStyle::Doubled => {
                lemma_doubling_idempotent(c, tok, 0, seq![]);
                assert(Seq::<char>::empty() + escape_doubled_from(c, tok, 0) =~= escape_doubled_from(
                    c,
                    tok,
                    0,
                ));
            },
            EscapeStyle::Char(esc) => {
                if !tok.contains(esc) {
                    lemma_char_escaping_idempotent(c, tok, esc, 0, false, seq![]);
                    assert(Seq::<char>::empty() + escape_char_from(c, tok, esc, 0, false)
                        =~= escape_char_from(c, tok, esc, 0, false));
                } else {
                    lemma_char_no_match(c, tok, esc, 0, false);
                    assert(c.subrange(0, c.len() as int) =~= c);
                    lemma_char_no_match(c, tok, esc, 0, false);
                }
            },
        }
    }
}

/// Escaping with the closing character `e` itself never shortens text, and
/// lengthens text that holds `e`, keeping an `e` in it.
proof fn lemma_self_escape_grows(x: Seq<char>, e: char, j: int)
    requires
        0 <= j <= x.len(),
    ensures
        escape_char_from(x, seq![e], e, j, false).len() >= x.len() - j,
        x.subrange(j, x.len() as int).contains(e) ==> escape_char_from(x, seq![e], e, j, false).len()
            > x.len() - j && escape_char_from(x, seq![e], e, j, false).contains(e),
    decreases x.len() - j,
{
    let out = escape_char_from(x, seq![e], e, j, false);
    lemma_matches_single(x, e, j);
    if j == x.len() {
        assert(x.subrange(j, j) =~= Seq::<char>::empty());
    } else {
        let rest = escape_char_from(x, seq![e], e, j + 1, false);
        lemma_self_escape_grows(x, e, j + 1);
        if x[j] == e {
            assert(out == seq![e] + seq![e] + rest);
            assert(out[0] == e);
        } else {
            assert(out == seq![x[j]] + rest);
            if x.subrange(j, x.len() as int).contains(e) {
                let k = choose|k: int| 0 <= k < x.subrange(j, x.len() as int).len() && #[trigger] x.subrange(j, x.len() as int)[k] == e;
                assert(k != 0);
                assert(x.subrange(j + 1, x.len() as int)[k - 1] == e);
                let m = choose|m: int| 0 <= m < rest.len() && #[trigger] rest[m] == e;
                assert(out[m + 1] == e);
            }
        }
    }
}

/// For a one-character token, `escape_idempotent_condition` is exact:
/// escaping is idempotent on exactly the inputs it admits.
pub proof fn law_escape_idempotent_exact(c: Seq<char>, e: char, style: EscapeStyle)
    ensures
        (spec_escape(spec_escape(c, seq![e], style), seq![e], style) == spec_escape(c, seq![e], style))
            == escape_idempotent_condition(c, seq![e], style),
{
    if escape_idempotent_condition(c, seq![e], style) {
        law_escape_idempotent(c, seq![e], style);
    } else {
        let esc = e;
        assert(style == EscapeStyle::Char(e)) by {
            if let EscapeStyle::Char(x) = style {
                if x != e {
                    assert(!seq![e].contains(x)) by {
                        if seq![e].contains(x) {
                            let k = choose|k: int| 0 <= k < 1 && #[trigger] seq![e][k] == x;
                        }
                    }
                }
            }
        }
        let k = choose|k: int| matches_at(c, seq![e], k);
        lemma_matches_single(c, e, k);
        assert(c.subrange(0, c.len() as int) =~= c);
        assert(c.subrange(0, c.len() as int)[k] == e);
        lemma_self_escape_grows(c, e, 0);
        let once = spec_escape(c, seq![e], style);
        assert(once.subrange(0, once.len() as int) =~= once);
        lemma_self_escape_grows(once, e, 0);
    }
}

} // verus!
