use vstd::prelude::*;

verus! {

/// The closing character that pairs with `opening`: the complementary bracket
/// or quotation mark where one exists, otherwise `opening` itself.
pub open spec fn closing_char(opening: char) -> char {
    if opening == '(' {
        ')'
    } else if opening == '<' {
        '>'
    } else if opening == '[' {
        ']'
    } else if opening == '{' {
        '}'
    } else if opening == '\u{2018}' {
        '\u{2019}'
    } else if opening == '\u{201C}' {
        '\u{201D}'
    } else if opening == '\u{2039}' {
        '\u{203A}'
    } else if opening == '\u{00AB}' {
        '\u{00BB}'
    } else if opening == '\u{275B}' {
        '\u{275C}'
    } else if opening == '\u{275D}' {
        '\u{275E}'
    } else if opening == '\u{201E}' {
        '\u{201C}'
    } else if opening == '\u{201A}' {
        '\u{2018}'
    } else if opening == '\u{201B}' {
        '\u{201A}'
    } else if opening == '\u{300C}' {
        '\u{300D}'
    } else if opening == '\u{300E}' {
        '\u{300F}'
    } else if opening == '\u{FF62}' {
        '\u{FF63}'
    } else {
        opening
    }
}

/// The character that closes a group opened by `opening`: parentheses,
/// angle, square and curly brackets, curly and low quotation marks,
/// guillemets, comma ornaments and CJK corner brackets pair with their
/// counterparts; any other character closes on itself.
pub fn match_closing_char(opening: char) -> (closing: char)
    ensures
        closing == closing_char(opening),
{
    match opening {
        '(' => ')',
        '<' => '>',
        '[' => ']',
        '{' => '}',
        '\u{2018}' => '\u{2019}',
        '\u{201C}' => '\u{201D}',
        '\u{2039}' => '\u{203A}',
        '\u{00AB}' => '\u{00BB}',
        '\u{275B}' => '\u{275C}',
        '\u{275D}' => '\u{275E}',
        '\u{201E}' => '\u{201C}',
        '\u{201A}' => '\u{2018}',
        '\u{201B}' => '\u{201A}',
        '\u{300C}' => '\u{300D}',
        '\u{300E}' => '\u{300F}',
        '\u{FF62}' => '\u{FF63}',
        other => other,
    }
}

/// The opening characters that have a distinct closing counterpart: brackets,
/// curly and low quotation marks, guillemets, comma ornaments and CJK corner
/// brackets.
pub open spec fn has_counterpart(c: char) -> bool {
    seq![
        '(', '<', '[', '{', '\u{2018}', '\u{201C}', '\u{2039}', '\u{00AB}', '\u{275B}',
        '\u{275D}', '\u{201E}', '\u{201A}', '\u{201B}', '\u{300C}', '\u{300E}', '\u{FF62}',
    ].contains(c)
}

/// Any character outside the table of pairs closes on itself, and each
/// character of the table closes with its counterpart, a different character;
/// so wrapping in a character outside the table puts that same character on
/// both sides.
pub proof fn law_closing_char_table(c: char)
    ensures
        !has_counterpart(c) ==> closing_char(c) == c,
        has_counterpart(c) ==> closing_char(c) != c,
        closing_char('(') == ')' && closing_char('<') == '>' && closing_char('[') == ']'
            && closing_char('{') == '}',
        closing_char('\u{2018}') == '\u{2019}' && closing_char('\u{201C}') == '\u{201D}',
        closing_char('\u{2039}') == '\u{203A}' && closing_char('\u{00AB}') == '\u{00BB}',
        closing_char('\u{275B}') == '\u{275C}' && closing_char('\u{275D}') == '\u{275E}',
        closing_char('\u{201E}') == '\u{201C}' && closing_char('\u{201A}') == '\u{2018}'
            && closing_char('\u{201B}') == '\u{201A}',
        closing_char('\u{300C}') == '\u{300D}' && closing_char('\u{300E}') == '\u{300F}'
            && closing_char('\u{FF62}') == '\u{FF63}',
{
    let table = seq![
        '(', '<', '[', '{', '\u{2018}', '\u{201C}', '\u{2039}', '\u{00AB}', '\u{275B}',
        '\u{275D}', '\u{201E}', '\u{201A}', '\u{201B}', '\u{300C}', '\u{300E}', '\u{FF62}',
    ];
    if has_counterpart(c) {
        let k = choose|k: int| 0 <= k < table.len() && table[k] == c;
        assert(table[k] == c);
    } else {
        assert(c != table[0] && c != table[1] && c != table[2] && c != table[3]);
        assert(c != table[4] && c != table[5] && c != table[6] && c != table[7]);
        assert(c != table[8] && c != table[9] && c != table[10] && c != table[11]);
        assert(c != table[12] && c != table[13] && c != table[14] && c != table[15]);
    }
}

} // verus!
