use vstd::prelude::*;

use crate::delimiter::{match_token, matches_at, Delimiter};
use crate::text::{chars_to_string, str_to_chars};
use vstd::slice::slice_to_vec;

verus! {

/// How occurrences of the closing delimiter are protected inside the content.
///
/// Stating the convention removes a coincidence that an `Option<char>` would
/// carry, where an escape character equal to the end character silently
/// meant doubling.
#[derive(Debug, Clone, Copy, PartialEq, Eq, Structural)]
pub enum EscapeStyle {
    /// Leave the content alone. Any closing delimiter inside it will terminate
    /// the value early when read back.
    Verbatim,
    /// Prefix the delimiter with an escape character, `\)` style. An occurrence
    /// already preceded by an odd number of escape characters is left as it is,
    /// so escaping is idempotent.
    Char(char),
    /// Repeat the delimiter, `""` style, as CSV does. An already-doubled pair is
    /// left as it is.
    Doubled,
}

impl Default for EscapeStyle {
    fn default() -> (style: Self)
        ensures
            style == EscapeStyle::Verbatim,
    {
        EscapeStyle::Verbatim
    }
}

impl From<Option<char>> for EscapeStyle {
    /// `Some(c)` always means [`EscapeStyle::Char`], even where `c` equals the
    /// end delimiter; `None` means [`EscapeStyle::Verbatim`].
    fn from(value: Option<char>) -> (style: Self) {
        match value {
            Some(escape_char) => EscapeStyle::Char(escape_char),
            None => EscapeStyle::Verbatim,
        }
    }
}

impl vstd::std_specs::convert::FromSpecImpl<Option<char>> for EscapeStyle {
    open spec fn obeys_from_spec() -> bool {
        true
    }

    open spec fn from_spec(v: Option<char>) -> EscapeStyle {
        match v {
            Some(escape_char) => EscapeStyle::Char(escape_char),
            None => EscapeStyle::Verbatim,
        }
    }
}

/// `src` with every occurrence of `tok` protected according to `style`.
///
/// Occurrences are found left to right without overlap. With
/// `EscapeStyle::Char(esc)`, an occurrence gets `esc` in front of it unless
/// the run of `esc` characters immediately before it (since the previous
/// occurrence) is of odd length. With `EscapeStyle::Doubled`, an occurrence is
/// written twice, and an occurrence followed at once by another is taken as
/// one already-doubled pair. An empty token leaves `src` unchanged.
pub open spec fn spec_escape(src: Seq<char>, tok: Seq<char>, style: EscapeStyle) -> Seq<char> {
    if tok.len() == 0 {
        src
    } else {
        match style {
            EscapeStyle::Verbatim => src,
            EscapeStyle::Char(esc) => escape_char_from(src, tok, esc, 0, false),
            EscapeStyle::Doubled => escape_doubled_from(src, tok, 0),
        }
    }
}

/// The escaped form of `src[i..]`, where `odd` says whether an odd run of
/// `esc` characters stands right before position `i`.
pub open spec fn escape_char_from(
    src: Seq<char>,
    tok: Seq<char>,
    esc: char,
    i: int,
    odd: bool,
) -> Seq<char>
    decreases src.len() - i,
{
    if i >= src.len() {
        seq![]
    } else if matches_at(src, tok, i) {
        (if odd {
            seq![]
        } else {
            seq![esc]
        }) + tok + escape_char_from(src, tok, esc, i + tok.len(), false)
    } else {
        seq![src[i]] + escape_char_from(src, tok, esc, i + 1, src[i] == esc && !odd)
    }
}

/// The doubled form of `src[i..]`.
pub open spec fn escape_doubled_from(src: Seq<char>, tok: Seq<char>, i: int) -> Seq<char>
    decreases src.len() - i,
{
    if i >= src.len() {
        seq![]
    } else if matches_at(src, tok, i) {
        let next = if matches_at(src, tok, i + tok.len()) {
            i + 2 * tok.len()
        } else {
            i + tok.len()
        };
        tok + tok + escape_doubled_from(src, tok, next)
    } else {
        seq![src[i]] + escape_doubled_from(src, tok, i + 1)
    }
}

/// The characters of `src` escaped against `tok` with an escape character.
fn escape_with_char(src: &[char], tok: &[char], esc: char) -> (out: Vec<char>)
    requires
        tok@.len() > 0,
    ensures
        out@ == escape_char_from(src@, tok@, esc, 0, false),
{
    let mut out: Vec<char> = Vec::new();
    let n = src.len();
    let mut index: usize = 0;
    let mut odd = false;
    while index < n
        invariant
            n == src@.len(),
            index <= n,
            tok@.len() > 0,
            out@ + escape_char_from(src@, tok@, esc, index as int, odd) == escape_char_from(
                src@,
                tok@,
                esc,
                0,
                false,
            ),
        decreases n - index,
    {
        let ghost before = out@;
        match match_token(tok, src, index) {
            Some(width) => {
                if !odd {
                    out.push(esc);
                }
                let mut j: usize = 0;
                while j < width
                    invariant
                        width == tok@.len(),
                        j <= width,
                        out@ == before + (if odd {
                            seq![]
                        } else {
                            seq![esc]
                        }) + tok@.take(j as int),
                    decreases width - j,
                {
                    out.push(tok[j]);
                    j += 1;
                    assert(tok@.take(j as int) == tok@.take(j - 1).push(tok@[j - 1]));
                }
                assert(tok@.take(width as int) == tok@);
                index += width;
                odd = false;
            },
            None => {
                let c = src[index];
                out.push(c);
                odd = c == esc && !odd;
                index += 1;
            },
        }
    }
    out
}

/// The characters of `src` with each occurrence of `tok` doubled.
fn escape_with_doubling(src: &[char], tok: &[char]) -> (out: Vec<char>)
    requires
        tok@.len() > 0,
    ensures
        out@ == escape_doubled_from(src@, tok@, 0),
{
    let mut out: Vec<char> = Vec::new();
    let n = src.len();
    let mut index: usize = 0;
    while index < n
        invariant
            n == src@.len(),
            index <= n,
            tok@.len() > 0,
            out@ + escape_doubled_from(src@, tok@, index as int) == escape_doubled_from(
                src@,
                tok@,
                0,
            ),
        decreases n - index,
    {
        match match_token(tok, src, index) {
            Some(width) => {
                let already_doubled = match_token(tok, src, index + width).is_some();
                let ghost before = out@;
                let mut round: usize = 0;
                while round < 2
                    invariant
                        width == tok@.len(),
                        round <= 2,
                        round == 0 ==> out@ == before,
                        round == 1 ==> out@ == before + tok@,
                        round == 2 ==> out@ == before + tok@ + tok@,
                    decreases 2 - round,
                {
                    let ghost mid = out@;
                    let mut j: usize = 0;
                    while j < width
                        invariant
                            width == tok@.len(),
                            j <= width,
                            out@ == mid + tok@.take(j as int),
                        decreases width - j,
                    {
                        out.push(tok[j]);
                        j += 1;
                        assert(tok@.take(j as int) == tok@.take(j - 1).push(tok@[j - 1]));
                    }
                    assert(tok@.take(width as int) == tok@);
                    round += 1;
                }
                index += if already_doubled {
                    width * 2
                } else {
                    width
                };
            },
            None => {
                out.push(src[index]);
                index += 1;
            },
        }
    }
    out
}

/// The characters of `src` protected against `tok` according to `style`.
pub(crate) fn escape_chars(src: &[char], tok: &[char], style: EscapeStyle) -> (out: Vec<char>)
    ensures
        out@ == spec_escape(src@, tok@, style),
{
    if tok.len() == 0 {
        return slice_to_vec(src);
    }
    match style {
        EscapeStyle::Verbatim => slice_to_vec(src),
        EscapeStyle::Char(esc) => escape_with_char(src, tok, esc),
        EscapeStyle::Doubled => escape_with_doubling(src, tok),
    }
}

/// Protect every occurrence of `end` within `source` according to `style`.
pub fn escape_delimiter<E: Delimiter>(source: &str, end: &E, style: EscapeStyle) -> (out: String)
    ensures
        out@ == spec_escape(source@, end.token(), style),
{
    if matches!(style, EscapeStyle::Verbatim) || end.is_empty() {
        return source.to_owned();
    }
    let chars = str_to_chars(source);
    let tok = end.to_chars();
    let escaped = escape_chars(&chars, &tok, style);
    chars_to_string(&escaped)
}

} // verus!
