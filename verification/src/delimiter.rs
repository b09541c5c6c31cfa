use vstd::prelude::*;
use vstd::utf8::{encode_scalar, encode_utf8, is_char_boundary};

use crate::text::{push_char, push_chars, push_range, str_to_chars};

verus! {

/// The token `tok` occurs in `hay` at position `at`. An empty token never
/// occurs, since a zero-width token would match at every position.
pub open spec fn matches_at<A>(hay: Seq<A>, tok: Seq<A>, at: int) -> bool {
    &&& tok.len() > 0
    &&& 0 <= at
    &&& at + tok.len() <= hay.len()
    &&& hay.subrange(at, at + tok.len()) == tok
}

/// The first position at or after `from` where `tok` occurs in `hay`.
pub open spec fn first_match_from<A>(hay: Seq<A>, tok: Seq<A>, from: int) -> Option<int>
    decreases hay.len() - from,
{
    if from >= hay.len() {
        None
    } else if matches_at(hay, tok, from) {
        Some(from)
    } else {
        first_match_from(hay, tok, from + 1)
    }
}

/// `first_match_from` is the least matching position at or after `from`.
pub proof fn lemma_first_match_from<A>(hay: Seq<A>, tok: Seq<A>, from: int)
    requires
        0 <= from,
    ensures
        match first_match_from(hay, tok, from) {
            Some(i) => from <= i && matches_at(hay, tok, i) && forall|j: int|
                from <= j < i ==> !matches_at(hay, tok, j),
            None => forall|j: int| from <= j ==> !matches_at(hay, tok, j),
        },
    decreases hay.len() - from,
{
    if from < hay.len() && !matches_at(hay, tok, from) {
        lemma_first_match_from(hay, tok, from + 1);
    }
}

/// A one-character token occurs at `i` exactly where that character stands.
pub proof fn lemma_matches_single(w: Seq<char>, t: char, i: int)
    ensures
        matches_at(w, seq![t], i) <==> (0 <= i < w.len() && w[i] == t),
{
    if 0 <= i < w.len() {
        if w[i] == t {
            assert(w.subrange(i, i + 1) =~= seq![t]);
        } else {
            assert(w.subrange(i, i + 1)[0] == w[i]);
        }
    }
}

/// Where `tok` occurs in `hay` at `at`, its length.
pub(crate) fn match_token(tok: &[char], hay: &[char], at: usize) -> (r: Option<usize>)
    ensures
        (r is Some) == matches_at(hay@, tok@, at as int),
        r matches Some(w) ==> w == tok@.len(),
{
    let n = tok.len();
    if n == 0 || at > hay.len() || n > hay.len() - at {
        return None;
    }
    let mut j: usize = 0;
    while j < n
        invariant
            n == tok@.len(),
            hay@.len() == hay.len(),
            at + n <= hay@.len(),
            j <= n,
            forall|k: int| 0 <= k < j ==> hay@[at + k] == tok@[k],
        decreases n - j,
    {
        if hay[at + j] != tok[j] {
            assert(hay@.subrange(at as int, at + n)[j as int] != tok@[j as int]);
            return None;
        }
        j += 1;
    }
    assert(hay@.subrange(at as int, at + n) =~= tok@);
    Some(n)
}

/// The first position at or after `from` where `tok` occurs in `hay`.
pub(crate) fn find_token(tok: &[char], hay: &[char], from: usize) -> (r: Option<usize>)
    ensures
        match r {
            Some(i) => first_match_from(hay@, tok@, from as int) == Some(i as int),
            None => first_match_from(hay@, tok@, from as int) is None,
        },
{
    let n = hay.len();
    let mut i: usize = from;
    while i < n
        invariant
            n == hay@.len(),
            from <= i,
            first_match_from(hay@, tok@, from as int) == first_match_from(hay@, tok@, i as int),
        decreases n - i,
    {
        if match_token(tok, hay, i).is_some() {
            return Some(i);
        }
        i += 1;
    }
    None
}

/// Where the bytes `tok` occur in `hay` at `at`, their length.
fn match_bytes(tok: &[u8], hay: &[u8], at: usize) -> (r: Option<usize>)
    ensures
        (r is Some) == matches_at(hay@, tok@, at as int),
        r matches Some(w) ==> w == tok@.len(),
{
    let n = tok.len();
    if n == 0 || at > hay.len() || n > hay.len() - at {
        return None;
    }
    let mut j: usize = 0;
    while j < n
        invariant
            n == tok@.len(),
            hay@.len() == hay.len(),
            at + n <= hay@.len(),
            j <= n,
            forall|k: int| 0 <= k < j ==> hay@[at + k] == tok@[k],
        decreases n - j,
    {
        if hay[at + j] != tok[j] {
            assert(hay@.subrange(at as int, at + n)[j as int] != tok@[j as int]);
            return None;
        }
        j += 1;
    }
    assert(hay@.subrange(at as int, at + n) =~= tok@);
    Some(n)
}

/// The first position at or after `from` where the bytes `tok` occur in
/// `hay`.
fn find_bytes(tok: &[u8], hay: &[u8], from: usize) -> (r: Option<usize>)
    ensures
        match r {
            Some(i) => first_match_from(hay@, tok@, from as int) == Some(i as int),
            None => first_match_from(hay@, tok@, from as int) is None,
        },
{
    let n = hay.len();
    let mut i: usize = from;
    while i < n
        invariant
            n == hay@.len(),
            from <= i,
            first_match_from(hay@, tok@, from as int) == first_match_from(hay@, tok@, i as int),
        decreases n - i,
    {
        if match_bytes(tok, hay, i).is_some() {
            return Some(i);
        }
        i += 1;
    }
    None
}

/// The UTF-8 encoding of `chars`.
fn encode_chars(chars: &[char]) -> (bytes: Vec<u8>)
    ensures
        bytes@ == encode_utf8(chars@),
{
    let mut text = String::new();
    push_chars(&mut text, chars);
    assert(text@ =~= chars@);
    let view: &str = text.as_str();
    let encoded: &[u8] = view.as_bytes();
    let mut bytes: Vec<u8> = Vec::new();
    let n = encoded.len();
    let mut i: usize = 0;
    while i < n
        invariant
            n == encoded@.len(),
            i <= n,
            bytes@ == encoded@.subrange(0, i as int),
        decreases n - i,
    {
        bytes.push(encoded[i]);
        assert(encoded@.subrange(0, i + 1) =~= encoded@.subrange(0, i as int).push(encoded@[i as int]));
        i += 1;
    }
    assert(encoded@.subrange(0, n as int) =~= encoded@);
    bytes
}

/// The encoding of a concatenation is the concatenation of the encodings.
pub proof fn lemma_encode_concat(a: Seq<char>, b: Seq<char>)
    ensures
        encode_utf8(a + b) == encode_utf8(a) + encode_utf8(b),
    decreases a.len(),
{
    if a.len() == 0 {
        assert(a + b =~= b);
        assert(encode_utf8(a) =~= Seq::<u8>::empty());
        assert(encode_utf8(a) + encode_utf8(b) =~= encode_utf8(b));
    } else {
        assert((a + b).drop_first() =~= a.drop_first() + b);
        assert((a + b)[0] == a[0]);
        lemma_encode_concat(a.drop_first(), b);
        assert(encode_scalar(a[0] as u32) + (encode_utf8(a.drop_first()) + encode_utf8(b))
            =~= encode_scalar(a[0] as u32) + encode_utf8(a.drop_first()) + encode_utf8(b));
    }
}

/// Every character encodes to at least one byte.
proof fn lemma_encode_nonempty(t: Seq<char>)
    requires
        t.len() > 0,
    ensures
        encode_utf8(t).len() > 0,
        encode_utf8(t) == encode_utf8(seq![t[0]]) + encode_utf8(t.drop_first()),
{
    assert(encode_utf8(seq![t[0]]) == encode_scalar(t[0] as u32) + encode_utf8(
        seq![t[0]].drop_first(),
    ));
    assert(seq![t[0]].drop_first() =~= Seq::<char>::empty());
    assert(encode_utf8(Seq::<char>::empty()) =~= Seq::<u8>::empty());
    assert(encode_utf8(seq![t[0]]) =~= encode_scalar(t[0] as u32));
}

/// The position of the byte right after the first `k` characters of `s`.
pub open spec fn byte_offset(s: Seq<char>, k: int) -> int {
    encode_utf8(s.take(k)).len() as int
}

/// Only the empty prefix takes up no bytes.
pub proof fn lemma_byte_offset_zero(s: Seq<char>, k: int)
    requires
        0 < k <= s.len(),
    ensures
        byte_offset(s, k) > 0,
{
    lemma_encode_nonempty(s.take(k));
}

/// A character boundary `j > 0` of the encoding of a nonempty `t` lies at or
/// after the end of its first character, and is a boundary of the encoding of
/// the rest from there.
proof fn lemma_boundary_step(t: Seq<char>, j: int)
    requires
        j > 0,
        is_char_boundary(encode_utf8(t), j),
    ensures
        t.len() > 0,
        j >= encode_utf8(seq![t[0]]).len(),
        is_char_boundary(encode_utf8(t.drop_first()), j - encode_utf8(seq![t[0]]).len()),
{
    broadcast use vstd::utf8::encode_utf8_valid_utf8;

    let bytes = encode_utf8(t);
    if t.len() == 0 {
        assert(bytes =~= Seq::<u8>::empty());
        assert(!is_char_boundary(bytes, j));
    } else {
        lemma_encode_nonempty(t);
        vstd::utf8::encode_utf8_first_scalar(t);
        let w = encode_utf8(seq![t[0]]).len() as int;
        assert(encode_utf8(seq![t[0]]) =~= encode_scalar(t[0] as u32));
        assert(vstd::utf8::pop_first_scalar(bytes) =~= encode_utf8(t.drop_first()));
        assert(is_char_boundary(encode_utf8(t.drop_first()), j - w));
        if j - w < 0 {
            assert(!is_char_boundary(encode_utf8(t.drop_first()), j - w));
        }
    }
}

/// Inserts `tok` into `out` at the byte position `index`, a character
/// boundary of `out`.
fn insert_at_byte(out: &mut String, index: usize, tok: &[char])
    requires
        is_char_boundary(encode_utf8(old(out)@), index as int),
    ensures
        exists|k: int|
            0 <= k <= old(out)@.len() && byte_offset(old(out)@, k) == index && final(out)@ == old(
                out,
            )@.take(k) + tok@ + old(out)@.skip(k),
        encode_utf8(final(out)@) == encode_utf8(old(out)@).take(index as int) + encode_utf8(tok@)
            + encode_utf8(old(out)@).skip(index as int),
{
    let chars = str_to_chars(out.as_str());
    let ghost s = chars@;
    let n = chars.len();
    let mut k: usize = 0;
    let mut offset: usize = 0;
    proof {
        assert(s.take(0) =~= Seq::<char>::empty());
        assert(s.skip(0) =~= s);
        assert(encode_utf8(Seq::<char>::empty()) =~= Seq::<u8>::empty());
    }
    while offset < index
        invariant
            s == chars@,
            n == s.len(),
            k <= n,
            offset <= index,
            offset == byte_offset(s, k as int),
            is_char_boundary(encode_utf8(s.skip(k as int)), index - offset),
        decreases n - k,
    {
        proof {
            lemma_boundary_step(s.skip(k as int), index - offset);
            assert(s.skip(k as int)[0] == s[k as int]);
            assert(s.skip(k as int).drop_first() =~= s.skip(k + 1));
            assert(s.take(k + 1) =~= s.take(k as int) + seq![s[k as int]]);
            lemma_encode_concat(s.take(k as int), seq![s[k as int]]);
        }
        let width = char_byte_len(chars[k]);
        offset = offset + width;
        k = k + 1;
    }
    proof {
        assert(s.take(k as int) + s.skip(k as int) =~= s);
        lemma_encode_concat(s.take(k as int), s.skip(k as int));
        lemma_encode_concat(s.take(k as int), tok@);
        lemma_encode_concat(s.take(k as int) + tok@, s.skip(k as int));
        let e = encode_utf8(s);
        let a = encode_utf8(s.take(k as int));
        assert(e.take(index as int) =~= a);
        assert(e.skip(index as int) =~= encode_utf8(s.skip(k as int)));
    }
    insert_chars(out, k, tok);
}

/// Where `tok` occurs in the bytes of `hay` at byte position `at`, the
/// length of its encoding.
fn match_in_str(tok: &[char], hay: &str, at: usize) -> (r: Option<usize>)
    ensures
        (r is Some) == matches_at(encode_utf8(hay@), encode_utf8(tok@), at as int),
        r matches Some(w) ==> w == encode_utf8(tok@).len(),
{
    let bytes = encode_chars(tok);
    match_bytes(&bytes, hay.as_bytes(), at)
}

/// The first byte position at or after `from` where `tok` occurs in the bytes
/// of `hay`.
fn find_in_str(tok: &[char], hay: &str, from: usize) -> (r: Option<usize>)
    ensures
        match r {
            Some(i) => first_match_from(encode_utf8(hay@), encode_utf8(tok@), from as int) == Some(
                i as int,
            ),
            None => first_match_from(encode_utf8(hay@), encode_utf8(tok@), from as int) is None,
        },
{
    let bytes = encode_chars(tok);
    find_bytes(&bytes, hay.as_bytes(), from)
}

/// A bounding token: a single `char`, a `&str` or a `String`.
///
/// Implemented for `char`, `&str` and `String`, so the same call can mix them.
/// A delimiter is modelled by its characters, `token()`. All positions given
/// to and returned by its methods are byte indices into the haystack, that is
/// positions in the UTF-8 encoding of its characters, which must fall on
/// character boundaries. An empty string delimiter never matches, since a
/// zero-width token would match at every position.
pub trait Delimiter {
    /// The characters of this delimiter.
    spec fn token(&self) -> Seq<char>;

    /// The characters of this delimiter, as a vector.
    fn to_chars(&self) -> (chars: Vec<char>)
        ensures
            chars@ == self.token(),
    ;

    /// Byte length of this delimiter if it occurs in `hay` at the byte index
    /// `at`, otherwise `None`.
    fn match_len(&self, hay: &str, at: usize) -> (r: Option<usize>)
        requires
            is_char_boundary(encode_utf8(hay@), at as int),
        ensures
            (r is Some) == matches_at(encode_utf8(hay@), encode_utf8(self.token()), at as int),
            r matches Some(w) ==> w == encode_utf8(self.token()).len(),
    ;

    /// Byte index of the next occurrence in `hay` at or after the byte index
    /// `from`.
    fn find_from(&self, hay: &str, from: usize) -> (r: Option<usize>)
        requires
            is_char_boundary(encode_utf8(hay@), from as int),
        ensures
            match r {
                Some(i) => first_match_from(
                    encode_utf8(hay@),
                    encode_utf8(self.token()),
                    from as int,
                ) == Some(i as int),
                None => first_match_from(
                    encode_utf8(hay@),
                    encode_utf8(self.token()),
                    from as int,
                ) is None,
            },
    ;

    /// Length in bytes of the delimiter's UTF-8 encoding.
    fn byte_len(&self) -> (n: usize)
        ensures
            n == encode_utf8(self.token()).len() as usize,
    ;

    /// Append the delimiter to a string.
    fn push_to(&self, out: &mut String)
        ensures
            final(out)@ == old(out)@ + self.token(),
    ;

    /// Insert the delimiter at the byte index `index` of `out`, a character
    /// boundary: before the `k`-th character, where the first `k` characters
    /// take up `index` bytes.
    fn insert_into(&self, out: &mut String, index: usize)
        requires
            is_char_boundary(encode_utf8(old(out)@), index as int),
        ensures
            exists|k: int|
                0 <= k <= old(out)@.len() && byte_offset(old(out)@, k) == index && final(out)@
                    == old(out)@.take(k) + self.token() + old(out)@.skip(k),
            encode_utf8(final(out)@) == encode_utf8(old(out)@).take(index as int) + encode_utf8(
                self.token(),
            ) + encode_utf8(old(out)@).skip(index as int),
    ;

    /// True when the delimiter can never match.
    fn is_empty(&self) -> (r: bool)
        ensures
            r == (self.token().len() == 0),
    {
        self.to_chars().len() == 0
    }
}

/// Inserts `tok` into `out` before the character at `index`.
fn insert_chars(out: &mut String, index: usize, tok: &[char])
    requires
        index <= old(out)@.len(),
    ensures
        final(out)@ == old(out)@.take(index as int) + tok@ + old(out)@.skip(index as int),
{
    let chars = str_to_chars(out.as_str());
    let mut rebuilt = String::new();
    push_range(&mut rebuilt, &chars, 0, index);
    push_chars(&mut rebuilt, tok);
    push_range(&mut rebuilt, &chars, index, chars.len());
    assert(chars@.subrange(0, index as int) == chars@.take(index as int));
    assert(chars@.subrange(index as int, chars@.len() as int) == chars@.skip(index as int));
    *out = rebuilt;
}

/// The number of bytes in the UTF-8 encoding of `c`.
fn char_byte_len(c: char) -> (n: usize)
    ensures
        n == encode_utf8(seq![c]).len(),
{
    let v = c as u32;
    proof {
        vstd::utf8::char_is_scalar(c);
        assert(seq![c].drop_first() =~= Seq::<char>::empty());
        assert(encode_utf8(Seq::<char>::empty()) =~= Seq::<u8>::empty());
    }
    if v <= 0x7F {
        1
    } else if v <= 0x7FF {
        2
    } else if v <= 0xFFFF {
        3
    } else {
        4
    }
}

impl Delimiter for char {
    open spec fn token(&self) -> Seq<char> {
        seq![*self]
    }

    fn to_chars(&self) -> (chars: Vec<char>) {
        let mut chars = Vec::new();
        chars.push(*self);
        assert(chars@ =~= seq![*self]);
        chars
    }

    fn match_len(&self, hay: &str, at: usize) -> (r: Option<usize>) {
        let tok = self.to_chars();
        match_in_str(&tok, hay, at)
    }

    fn find_from(&self, hay: &str, from: usize) -> (r: Option<usize>) {
        let tok = self.to_chars();
        find_in_str(&tok, hay, from)
    }

    fn byte_len(&self) -> (n: usize) {
        char_byte_len(*self)
    }

    fn push_to(&self, out: &mut String) {
        push_char(out, *self);
        assert(old(out)@.push(*self) =~= old(out)@ + seq![*self]);
    }

    fn insert_into(&self, out: &mut String, index: usize) {
        let tok = self.to_chars();
        insert_at_byte(out, index, &tok);
    }
}

impl<'t> Delimiter for &'t str {
    open spec fn token(&self) -> Seq<char> {
        (*self)@
    }

    fn to_chars(&self) -> (chars: Vec<char>) {
        str_to_chars(*self)
    }

    fn match_len(&self, hay: &str, at: usize) -> (r: Option<usize>) {
        let tok = self.to_chars();
        match_in_str(&tok, hay, at)
    }

    fn find_from(&self, hay: &str, from: usize) -> (r: Option<usize>) {
        let tok = self.to_chars();
        find_in_str(&tok, hay, from)
    }

    fn byte_len(&self) -> (n: usize) {
        (*self).len()
    }

    fn push_to(&self, out: &mut String) {
        let tok = self.to_chars();
        push_chars(out, &tok);
    }

    fn insert_into(&self, out: &mut String, index: usize) {
        let tok = self.to_chars();
        insert_at_byte(out, index, &tok);
    }
}

impl Delimiter for String {
    open spec fn token(&self) -> Seq<char> {
        self@
    }

    fn to_chars(&self) -> (chars: Vec<char>) {
        str_to_chars(self.as_str())
    }

    fn match_len(&self, hay: &str, at: usize) -> (r: Option<usize>) {
        let tok = self.to_chars();
        match_in_str(&tok, hay, at)
    }

    fn find_from(&self, hay: &str, from: usize) -> (r: Option<usize>) {
        let tok = self.to_chars();
        find_in_str(&tok, hay, from)
    }

    fn byte_len(&self) -> (n: usize) {
        self.as_str().len()
    }

    fn push_to(&self, out: &mut String) {
        let tok = self.to_chars();
        push_chars(out, &tok);
    }

    fn insert_into(&self, out: &mut String, index: usize) {
        let tok = self.to_chars();
        insert_at_byte(out, index, &tok);
    }
}

} // verus!
