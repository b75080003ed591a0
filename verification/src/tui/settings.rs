//! What the environment and the history file tell the picker.

use crate::number::{decimal, law_signs_and_zeros_do_not_count, parse_usize, parsed};
use crate::text::{
    ascii_lower_text, chars_are, chars_contain, chars_of, contains_text,
    law_containing_is_standing_between, law_one_piece, lines,
    lines_of, pieces,
    string_of, texts_of, to_ascii_lower_char, trim, trimmed, without_cr,
};
use vstd::prelude::*;
use vstd::string::*;

verus! {

/// Whether a text is a word, whatever the case of ASCII letters.
fn is_word(s: &[char], word: &str) -> (r: bool)
    ensures
        r == (ascii_lower_text(s@) == word@),
{
    let mut low: Vec<char> = Vec::new();
    let mut i: usize = 0;
    while i < s.len()
        invariant
            i <= s@.len(),
            low@ == ascii_lower_text(s@.take(i as int)),
        decreases s@.len() - i,
    {
        low.push(to_ascii_lower_char(s[i]));
        assert(low@ =~= ascii_lower_text(s@.take(i + 1)));
        i += 1;
    }
    assert(s@.take(i as int) == s@);
    chars_are(low.as_slice(), word)
}

/// Whether images can be sent to the terminal, by what the environment holds.
pub open spec fn speaks_kitty(
    lusty_kitty: Option<&str>,
    has_window_id: bool,
    term: Option<&str>,
) -> bool {
    match (lusty_kitty, term) {
        (Some(v), _) => v@ == "1"@ || ascii_lower_text(v@) == "true"@,
        (None, Some(t)) => has_window_id || contains_text(t@, "kitty"@),
        (None, None) => has_window_id,
    }
}

/// Whether the terminal speaks the kitty graphics protocol. `LUSTY_KITTY`
/// decides where it is set; else kitty is known by `KITTY_WINDOW_ID` and by
/// its name in `TERM`.
pub fn kitty_enabled(lusty_kitty: Option<&str>, has_window_id: bool, term: Option<&str>) -> (r:
    bool)
    ensures
        r == speaks_kitty(lusty_kitty, has_window_id, term),
{
    match (lusty_kitty, term) {
        (Some(v), _) => {
            let chars = chars_of(v);
            chars_are(chars.as_slice(), "1") || is_word(chars.as_slice(), "true")
        },
        (None, Some(t)) => has_window_id || chars_contain(
            chars_of(t).as_slice(),
            chars_of("kitty").as_slice(),
        ),
        (None, None) => has_window_id,
    }
}

/// Whether icons are shown: where `LUSTY_ICONS` is `1`.
pub fn icons_enabled(lusty_icons: Option<&str>) -> (r: bool)
    ensures
        r == (lusty_icons matches Some(v) && v@ == "1"@),
{
    match lusty_icons {
        Some(v) => crate::text::str_eq(v, "1"),
        None => false,
    }
}

/// The number that a variable holds, white space around it aside.
pub open spec fn number_in(v: Option<&str>) -> Option<nat> {
    match v {
        Some(v) => parsed(trimmed(v@), usize::MAX as nat),
        None => None,
    }
}

pub fn env_usize(v: Option<&str>) -> (r: Option<usize>)
    ensures
        match r {
            Some(n) => number_in(v) == Some(n as nat),
            None => number_in(v) is None,
        },
{
    match v {
        Some(v) => {
            let chars = chars_of(v);
            parse_usize(trim(chars.as_slice()))
        },
        None => None,
    }
}

// ---------------------------------------------------------------------------
// History
// ---------------------------------------------------------------------------

/// A relative path below a directory.
pub open spec fn joined(dir: Seq<char>, rest: Seq<char>) -> Seq<char> {
    if dir.len() == 0 || dir.last() == '/' {
        dir + rest
    } else {
        dir + "/"@ + rest
    }
}

fn join(dir: &str, rest: &str) -> (r: String)
    ensures
        r@ == joined(dir@, rest@),
{
    let chars = chars_of(dir);
    let n: usize = chars.len();
    let mut r = String::new();
    r.push_str(dir);
    if n > 0 && chars[n - 1] != '/' {
        r.push_str("/");
    }
    r.push_str(rest);
    assert(r@ =~= joined(dir@, rest@));
    r
}

/// Whether `LUSTY_HISTORY` turns the history off.
pub open spec fn history_is_off(v: Seq<char>) -> bool {
    trimmed(v) == "0"@ || ascii_lower_text(trimmed(v)) == "off"@
}

/// The history file below the state directory: `XDG_STATE_HOME`, else
/// `.local/state` in the home directory.
pub open spec fn default_history(
    xdg_state_home: Option<&str>,
    home: Option<&str>,
) -> Option<Seq<char>> {
    match (xdg_state_home, home) {
        (Some(x), _) => Some(joined(joined(x@, "lusty"@), "history"@)),
        (None, Some(h)) => Some(
            joined(joined(joined(h@, ".local/state"@), "lusty"@), "history"@),
        ),
        (None, None) => None,
    }
}

/// Where the last query is kept: where `LUSTY_HISTORY` says, unless it turns the
/// history off, else below the state directory.
pub open spec fn history_path(
    lusty_history: Option<&str>,
    xdg_state_home: Option<&str>,
    home: Option<&str>,
) -> Option<Seq<char>> {
    match lusty_history {
        Some(v) => if history_is_off(v@) {
            None
        } else if trimmed(v@).len() > 0 {
            Some(trimmed(v@))
        } else {
            default_history(xdg_state_home, home)
        },
        None => default_history(xdg_state_home, home),
    }
}

/// Where the picker remembers the last typed query. `LUSTY_HISTORY` overrides
/// the path, or turns the history off.
pub fn history_file(
    lusty_history: Option<&str>,
    xdg_state_home: Option<&str>,
    home: Option<&str>,
) -> (r: Option<String>)
    ensures
        match r {
            Some(p) => Some(p@),
            None => None,
        } == history_path(lusty_history, xdg_state_home, home),
{
    match lusty_history {
        Some(v) => {
            let chars = chars_of(v);
            let t = trim(chars.as_slice());
            if chars_are(t, "0") || is_word(t, "off") {
                return None;
            }
            if t.len() > 0 {
                return Some(string_of(t));
            }
        },
        None => {},
    }
    let base = match (xdg_state_home, home) {
        (Some(x), _) => {
            let mut s = String::new();
            s.push_str(x);
            assert(s@ =~= x@);
            s
        },
        (None, Some(h)) => join(h, ".local/state"),
        (None, None) => return None,
    };
    Some(join(join(base.as_str(), "lusty").as_str(), "history"))
}

/// The query of a history file: its first line.
pub open spec fn first_line(content: Seq<char>) -> Seq<char> {
    if lines_of(content).len() > 0 {
        lines_of(content)[0]
    } else {
        Seq::empty()
    }
}

/// The query to start with, from what the history file holds, where it could
/// be read.
pub fn stored_query(content: Option<&str>) -> (r: String)
    ensures
        r@ == match content {
            Some(c) => first_line(c@),
            None => Seq::<char>::empty(),
        },
{
    match content {
        Some(c) => {
            let chars = chars_of(c);
            let ls = lines(chars.as_slice());
            if ls.len() > 0 {
                assert(texts_of(ls@)[0] == ls@[0]@);
                string_of(ls[0])
            } else {
                String::new()
            }
        },
        None => String::new(),
    }
}

/// What the history file holds after a query.
pub open spec fn history_line(query: Seq<char>) -> Seq<char> {
    query + "\n"@
}

pub fn history_text(query: &str) -> (r: String)
    ensures
        r@ == history_line(query@),
{
    let mut r = String::new();
    r.push_str(query);
    r.push_str("\n");
    assert(r@ =~= history_line(query@));
    r
}

/// The query that was stored is the query that the next run starts with. A
/// query holds no line end.
pub proof fn law_the_query_is_restored(query: Seq<char>)
    requires
        !query.contains('\n'),
        query.len() > 0 ==> query.last() != '\r',
    ensures
        first_line(history_line(query)) == query,
{
    reveal_strlit("\n");
    let s = history_line(query);
    assert(s.drop_last() =~= query);
    assert(s.last() == '\n');
    law_one_piece(query, '\n');
    assert(pieces(s, '\n') =~= seq![query, Seq::<char>::empty()]);
    assert(lines_of(s)[0] == without_cr(query));
}

/// A variable that holds a numeral, with or without white space around it, gives
/// its number.
pub proof fn law_variables_give_their_number(v: &str, n: nat)
    requires
        trimmed(v@) == decimal(n),
        n <= usize::MAX,
    ensures
        number_in(Some(v)) == Some(n),
        number_in(None) is None,
{
    law_signs_and_zeros_do_not_count(n, usize::MAX as nat);
}

/// A path below a directory has one slash between the two.
pub proof fn law_paths_are_joined_by_one_slash(dir: Seq<char>, rest: Seq<char>)
    ensures
        joined(Seq::<char>::empty(), rest) == rest,
        joined(dir.push('/'), rest) == dir.push('/') + rest,
        dir.len() > 0 && dir.last() != '/' ==> joined(dir, rest) == dir.push('/') + rest,
{
    reveal_strlit("/");
    assert("/"@ =~= seq!['/']);
    assert(Seq::<char>::empty() + rest =~= rest);
    if dir.len() > 0 && dir.last() != '/' {
        assert(dir + "/"@ + rest =~= dir.push('/') + rest);
    }
}

/// The default history file is `lusty/history` below the state directory.
pub proof fn law_the_history_lies_in_the_state_directory(state: &str, home: &str)
    requires
        state@.len() > 0 && state@.last() != '/',
        home@.len() > 0 && home@.last() != '/',
    ensures
        default_history(Some(state), Some(home)) == Some(state@ + "/lusty/history"@),
        default_history(Some(state), None) == Some(state@ + "/lusty/history"@),
        default_history(None, Some(home)) == Some(home@ + "/.local/state/lusty/history"@),
        default_history(None, None) is None,
{
    reveal_strlit("/");
    reveal_strlit("lusty");
    reveal_strlit("history");
    reveal_strlit(".local/state");
    reveal_strlit("/lusty/history");
    reveal_strlit("/.local/state/lusty/history");
    assert(joined(joined(state@, "lusty"@), "history"@) =~= state@ + "/lusty/history"@);
    let base = joined(home@, ".local/state"@);
    assert(base =~= home@ + "/"@ + ".local/state"@);
    assert(base.last() == 'e');
    assert(joined(joined(base, "lusty"@), "history"@) =~= home@ + "/.local/state/lusty/history"@);
}

/// The history is turned off by a zero or by the word off, in any case, and by
/// nothing else.
pub proof fn law_what_turns_the_history_off(v: Seq<char>)
    ensures
        trimmed(v) == seq!['0'] ==> history_is_off(v),
        trimmed(v) == seq!['o', 'f', 'f'] || trimmed(v) == seq!['O', 'F', 'F'] || trimmed(v)
            == seq!['O', 'f', 'f'] ==> history_is_off(v),
        trimmed(v).len() != 1 && trimmed(v).len() != 3 ==> !history_is_off(v),
        trimmed(v).len() == 1 && trimmed(v)[0] != '0' ==> !history_is_off(v),
{
    reveal_strlit("0");
    reveal_strlit("off");
    let t = trimmed(v);
    assert("0"@ =~= seq!['0']);
    assert("off"@ =~= seq!['o', 'f', 'f']);
    if t == seq!['o', 'f', 'f'] || t == seq!['O', 'F', 'F'] || t == seq!['O', 'f', 'f'] {
        assert(ascii_lower_text(t) =~= "off"@);
    }
}

/// `LUSTY_KITTY` decides alone where it is set: for images if it is `1` or the
/// word true in any case. Else a window of kitty, or its name anywhere in `TERM`,
/// is enough.
pub proof fn law_how_kitty_is_known(v: &str, t: &str, window: bool, a: Seq<char>, b: Seq<char>)
    ensures
        v@ == seq!['1'] ==> speaks_kitty(Some(v), window, Some(t)),
        v@ == seq!['t', 'r', 'u', 'e'] || v@ == seq!['T', 'R', 'U', 'E'] || v@ == seq![
            'T',
            'r',
            'u',
            'e',
        ] ==> speaks_kitty(Some(v), window, None),
        v@ != seq!['1'] && v@.len() != 4 ==> !speaks_kitty(Some(v), window, Some(t)),
        v@ != seq!['1'] && v@.len() != 4 ==> !speaks_kitty(Some(v), window, None),
        speaks_kitty(None, true, None) && speaks_kitty(None, true, Some(t)),
        !speaks_kitty(None, false, None),
        t@ == a + seq!['k', 'i', 't', 't', 'y'] + b ==> speaks_kitty(None, false, Some(t)),
        t@.len() < 5 ==> !speaks_kitty(None, false, Some(t)),
{
    reveal_strlit("1");
    reveal_strlit("true");
    reveal_strlit("kitty");
    assert("1"@ =~= seq!['1']);
    assert("true"@ =~= seq!['t', 'r', 'u', 'e']);
    assert("kitty"@ =~= seq!['k', 'i', 't', 't', 'y']);
    if v@ == seq!['t', 'r', 'u', 'e'] || v@ == seq!['T', 'R', 'U', 'E'] || v@ == seq![
        'T',
        'r',
        'u',
        'e',
    ] {
        assert(ascii_lower_text(v@) =~= "true"@);
    }
    law_containing_is_standing_between(a, "kitty"@, b);
    if contains_text(t@, "kitty"@) {
        let i = choose|i: int| 0 <= i <= t@.len() && #[trigger] crate::text::starts_with(
            t@.skip(i),
            "kitty"@,
        );
        assert(t@.skip(i).len() >= 5);
    }
}

/// The history is where the variable says, white space aside, nowhere where it
/// turns the history off, and in the state directory where it says nothing.
pub proof fn law_where_the_history_is(v: &str, state: Option<&str>, home: Option<&str>)
    ensures
        trimmed(v@).len() > 3 ==> history_path(Some(v), state, home) == Some(trimmed(v@)),
        trimmed(v@) == seq!['0'] ==> history_path(Some(v), state, home) is None,
        trimmed(v@) == seq!['o', 'f', 'f'] ==> history_path(Some(v), state, home) is None,
        trimmed(v@).len() == 0 ==> history_path(Some(v), state, home) == default_history(
            state,
            home,
        ),
        history_path(None, state, home) == default_history(state, home),
{
    law_what_turns_the_history_off(v@);
}

} // verus!
