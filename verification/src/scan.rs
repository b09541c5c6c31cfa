use vstd::prelude::*;

use crate::escape::EscapeStyle;

verus! {

/// Whether the scanner tracks nested openings, and on which pair.
#[derive(Debug, Clone, Copy, PartialEq, Eq, Structural)]
pub enum Nesting {
    /// The first closing delimiter ends the content.
    Flat,
    /// Count the opening and closing delimiters as given, so `f(g(x), y)`
    /// yields `g(x), y`. Inert when the two are identical, since nothing
    /// distinguishes an opening from a closing in that case.
    Delimiters,
    /// Count a different pair from the bounding delimiters. Needed when the
    /// opening delimiter carries a prefix: with `"(?<="` as the opening and
    /// `')'` as the closing, `Pair('(', ')')` still balances the inner groups
    /// of `(?<=(a|b))`.
    Pair(char, char),
}

impl Default for Nesting {
    fn default() -> (nesting: Self)
        ensures
            nesting == Nesting::Flat,
    {
        Nesting::Flat
    }
}

/// How the scanner decides which closing delimiter really closes the content.
///
/// The default is a plain scan: no escaping, no quoted regions, no nesting, so
/// the first closing delimiter wins. Build on it with the struct-update syntax
/// or the builder methods.
#[derive(Debug, Clone, Copy)]
pub struct ScanOptions<'a> {
    /// How an escaped delimiter is written, if escaping is used at all.
    pub escape: EscapeStyle,
    /// Characters that open and close a quoted region. A closing delimiter
    /// inside such a region is part of the content, not the end of it. Each
    /// quote closes on its own character, and `escape` applies inside the
    /// region, so an escaped quote does not end it.
    pub quotes: &'a [char],
    /// Whether nested openings are counted, and on which pair.
    pub nesting: Nesting,
}

impl<'a> Default for ScanOptions<'a> {
    fn default() -> (options: Self)
        ensures
            options.escape == EscapeStyle::Verbatim,
            options.quotes@ == Seq::<char>::empty(),
            options.nesting == Nesting::Flat,
    {
        let quotes: &'a [char] = &[];
        ScanOptions { escape: EscapeStyle::Verbatim, quotes, nesting: Nesting::Flat }
    }
}

impl<'a> ScanOptions<'a> {
    /// A scan with no escaping, no quoted regions and no nesting.
    pub fn plain() -> (options: Self)
        ensures
            options.escape == EscapeStyle::Verbatim,
            options.quotes@ == Seq::<char>::empty(),
            options.nesting == Nesting::Flat,
    {
        Self::default()
    }

    /// A scan using the given escape style.
    pub fn escaped(escape: EscapeStyle) -> (options: Self)
        ensures
            options.escape == escape,
            options.quotes@ == Seq::<char>::empty(),
            options.nesting == Nesting::Flat,
    {
        let base = Self::default();
        ScanOptions { escape, quotes: base.quotes, nesting: base.nesting }
    }

    /// A scan that treats single and double quoted regions as opaque and
    /// counts nested delimiters, which is the usual requirement when the
    /// delimiters bound an argument list.
    pub fn quoted() -> (options: Self)
        ensures
            options.escape == EscapeStyle::Char('\\'),
            options.quotes@ == seq!['"', '\''],
            options.nesting == Nesting::Delimiters,
    {
        let quotes: &'a [char] = &['"', '\''];
        ScanOptions { escape: EscapeStyle::Char('\\'), quotes, nesting: Nesting::Delimiters }
    }

    /// These options with the given escape style.
    pub fn with_escape(self, escape: EscapeStyle) -> (options: Self)
        ensures
            options.escape == escape,
            options.quotes == self.quotes,
            options.nesting == self.nesting,
    {
        ScanOptions { escape, quotes: self.quotes, nesting: self.nesting }
    }

    /// These options with the given quote characters.
    pub fn with_quotes(self, quotes: &'a [char]) -> (options: Self)
        ensures
            options.escape == self.escape,
            options.quotes == quotes,
            options.nesting == self.nesting,
    {
        ScanOptions { escape: self.escape, quotes, nesting: self.nesting }
    }

    /// These options with the given nesting rule.
    pub fn with_nesting(self, nesting: Nesting) -> (options: Self)
        ensures
            options.escape == self.escape,
            options.quotes == self.quotes,
            options.nesting == nesting,
    {
        ScanOptions { escape: self.escape, quotes: self.quotes, nesting }
    }
}

} // verus!
