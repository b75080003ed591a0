//! RU (йцукен) to EN layout mapping for typed queries.
//!
//! Physical keys under the RU layout produce Cyrillic letters; mapping them
//! back to the EN character keeps matching working without switching layouts.

use crate::text::{
    has_uppercase, is_ru_capital, is_ru_small, lowercase_chars, lowercase_of, uppercase_chars,
    uppercase_of,
};
use vstd::prelude::*;

verus! {

/// The EN character on the key of a RU letter. The key of the dot produces the
/// letter yu; no letter maps to the slash.
pub open spec fn en_of_ru(c: char) -> Option<char> {
    match c {
        'й' => Some('q'),
        'ц' => Some('w'),
        'у' => Some('e'),
        'к' => Some('r'),
        'е' => Some('t'),
        'н' => Some('y'),
        'г' => Some('u'),
        'ш' => Some('i'),
        'щ' => Some('o'),
        'з' => Some('p'),
        'х' => Some('['),
        'ъ' => Some(']'),
        'ф' => Some('a'),
        'ы' => Some('s'),
        'в' => Some('d'),
        'а' => Some('f'),
        'п' => Some('g'),
        'р' => Some('h'),
        'о' => Some('j'),
        'л' => Some('k'),
        'д' => Some('l'),
        'ж' => Some(';'),
        'э' => Some('\''),
        'я' => Some('z'),
        'ч' => Some('x'),
        'с' => Some('c'),
        'м' => Some('v'),
        'и' => Some('b'),
        'т' => Some('n'),
        'ь' => Some('m'),
        'б' => Some(','),
        'ю' => Some('.'),
        _ => None,
    }
}

/// The EN character on the key of a RU letter.
pub fn ru_to_en(c: char) -> (r: Option<char>)
    ensures
        r == en_of_ru(c),
{
    match c {
        'й' => Some('q'),
        'ц' => Some('w'),
        'у' => Some('e'),
        'к' => Some('r'),
        'е' => Some('t'),
        'н' => Some('y'),
        'г' => Some('u'),
        'ш' => Some('i'),
        'щ' => Some('o'),
        'з' => Some('p'),
        'х' => Some('['),
        'ъ' => Some(']'),
        'ф' => Some('a'),
        'ы' => Some('s'),
        'в' => Some('d'),
        'а' => Some('f'),
        'п' => Some('g'),
        'р' => Some('h'),
        'о' => Some('j'),
        'л' => Some('k'),
        'д' => Some('l'),
        'ж' => Some(';'),
        'э' => Some('\''),
        'я' => Some('z'),
        'ч' => Some('x'),
        'с' => Some('c'),
        'м' => Some('v'),
        'и' => Some('b'),
        'т' => Some('n'),
        'ь' => Some('m'),
        'б' => Some(','),
        'ю' => Some('.'),
        _ => None,
    }
}

/// Printable ASCII: what a query is made of. Punctuation is a regular query
/// character.
pub open spec fn printable_ascii(c: char) -> bool {
    0x20 <= (c as u32) <= 0x7e
}

/// A character on its EN key where it is a RU letter, else itself.
pub open spec fn on_en_key(c: char) -> char {
    match en_of_ru(c) {
        Some(en) => en,
        None => c,
    }
}

pub fn to_en_key(c: char) -> (r: char)
    ensures
        r == on_en_key(c),
{
    match ru_to_en(c) {
        Some(en) => en,
        None => c,
    }
}

/// A character as it enters a query: printable ASCII, or nothing.
pub open spec fn accepted(c: char) -> Option<char> {
    if printable_ascii(c) {
        Some(c)
    } else {
        None
    }
}

pub fn accept_query_char(c: char) -> (r: Option<char>)
    ensures
        r == accepted(c),
{
    let u: u32 = c as u32;
    if 0x20 <= u && u <= 0x7e {
        Some(c)
    } else {
        None
    }
}

/// What a typed character puts into the query. Its small letter is looked up
/// in the layout; a capital stays a capital.
pub open spec fn query_char(c: char) -> Option<char> {
    let mapped = on_en_key(lowercase_of(c)[0]);
    if has_uppercase(c) {
        accepted(uppercase_of(mapped)[0])
    } else {
        accepted(mapped)
    }
}

/// What a typed character puts into the query. Printable ASCII passes
/// unchanged, other ASCII is dropped; a small RU letter gives the character on
/// its key, a capital one the capital of that character.
pub fn normalize_query_char(c: char) -> (r: Option<char>)
    ensures
        r == query_char(c),
        (c as u32) < 0x80 ==> r == accepted(c),
        is_ru_small(c) ==> r == en_of_ru(c) && r is Some,
        is_ru_capital(c) ==> r == Some(
            crate::text::ascii_upper_char(on_en_key(((c as u32) + 0x20) as char)),
        ),
{
    let lower = lowercase_chars(c);
    let mapped = to_en_key(lower[0]);
    proof {
        vstd::utf8::char_u32_cast(c, c as u32);
        if is_ru_small(c) {
            law_ru_letters_map_to_printable_ascii(c);
        }
        if is_ru_capital(c) {
            law_ru_letters_map_to_printable_ascii(((c as u32) + 0x20) as char);
        }
    }
    let out: char = if c.is_uppercase() {
        let upper = uppercase_chars(mapped);
        upper[0]
    } else {
        mapped
    };
    accept_query_char(out)
}

/// Every small RU letter has a key, and what stands on it is printable ASCII.
pub proof fn law_ru_letters_map_to_printable_ascii(c: char)
    requires
        is_ru_small(c),
    ensures
        en_of_ru(c) is Some,
        printable_ascii(en_of_ru(c)->0),
{
}

/// The two keyboards, key by key: the letters of the three RU rows and what the
/// EN keyboard has in the same places.
pub proof fn law_the_keyboards_agree_key_by_key(i: int)
    requires
        0 <= i < 32,
    ensures
        "йцукенгшщзхъфывапролджэячсмитьбю"@.len() == 32,
        "qwertyuiop[]asdfghjkl;'zxcvbnm,."@.len() == 32,
        en_of_ru("йцукенгшщзхъфывапролджэячсмитьбю"@[i]) == Some(
            "qwertyuiop[]asdfghjkl;'zxcvbnm,."@[i],
        ),
{
    reveal_strlit("йцукенгшщзхъфывапролджэячсмитьбю");
    reveal_strlit("qwertyuiop[]asdfghjkl;'zxcvbnm,.");
}

/// Nothing but the RU letters is moved to another key.
pub proof fn law_other_characters_stay_on_their_key(c: char)
    requires
        !(0x0430 <= (c as u32) <= 0x044f),
    ensures
        en_of_ru(c) is None,
        on_en_key(c) == c,
{
}

/// What enters a query is a character from the space to the tilde, as it is.
pub proof fn law_accepted_is_printable_ascii(c: char)
    ensures
        accepted(c) == (if ' ' <= c && c <= '~' {
            Some(c)
        } else {
            None
        }),
{
    vstd::utf8::char_u32_cast(c, c as u32);
}

/// What a typed character puts into the query, told through the std tables:
/// the character on the EN key of its small letter, as a capital where the
/// typed one is a capital, if it is printable ASCII.
pub proof fn law_typed_characters_go_through_their_key(c: char, en: char)
    requires
        en == (match en_of_ru(lowercase_of(c)[0]) {
            Some(key) => key,
            None => lowercase_of(c)[0],
        }),
    ensures
        has_uppercase(c) && ' ' <= uppercase_of(en)[0] && uppercase_of(en)[0] <= '~'
            ==> query_char(c) == Some(uppercase_of(en)[0]),
        has_uppercase(c) && !(' ' <= uppercase_of(en)[0] && uppercase_of(en)[0] <= '~')
            ==> query_char(c) is None,
        !has_uppercase(c) && ' ' <= en && en <= '~' ==> query_char(c) == Some(en),
        !has_uppercase(c) && !(' ' <= en && en <= '~') ==> query_char(c) is None,
{
    law_accepted_is_printable_ascii(en);
    law_accepted_is_printable_ascii(uppercase_of(en)[0]);
}

} // verus!
