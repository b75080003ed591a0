//! The colours of the selected entry and of matches.
//!
//! A theme file holds sections in brackets and `key = value` lines.

use crate::number::{decimal, is_digit, lemma_decimal, push_decimal};
use crate::text::{
    chars_of, falls_on_boundary, find_char, first_at, is_boundary, law_a_separator_parts_the_pieces,
    law_one_piece, law_stripping_takes_copies_only, law_tight_texts_are_not_trimmed, lemma_first_at,
    lines, lines_of, pieces, string_of, strip_back, strip_back_char, strip_front, strip_front_char,
    texts_of, trim, trim_back, trim_front, trimmed, white_space,
};
use vstd::prelude::*;
use vstd::slice::slice_subrange;
use vstd::string::*;
use vstd::utf8::{encode_utf8, is_ascii_chars};

verus! {

#[derive(Clone, Copy, Debug, PartialEq, Eq, Structural)]
pub struct Rgb {
    pub r: u8,
    pub g: u8,
    pub b: u8,
}

/// How the selected entry and the matched part of a label are drawn.
#[derive(Clone, Copy, Debug, PartialEq, Eq, Structural)]
pub struct Theme {
    pub sel_bg: Option<Rgb>,
    pub sel_fg: Option<Rgb>,
    pub sel_bold: bool,
    pub sel_reverse: bool,
    pub match_underline: bool,
}

// ---------------------------------------------------------------------------
// Colours
// ---------------------------------------------------------------------------

/// The value of a hexadecimal digit.
pub open spec fn hex_value(c: char) -> Option<u8> {
    if '0' <= c && c <= '9' {
        Some(((c as u8) - 0x30) as u8)
    } else if 'a' <= c && c <= 'f' {
        Some(((c as u8) - 0x57) as u8)
    } else if 'A' <= c && c <= 'F' {
        Some(((c as u8) - 0x37) as u8)
    } else {
        None
    }
}

/// The number that two characters spell: two hexadecimal digits, or one behind
/// a plus sign.
pub open spec fn pair_value(a: char, b: char) -> Option<u8> {
    match (hex_value(a), hex_value(b)) {
        (Some(x), Some(y)) => Some((16 * x + y) as u8),
        (None, Some(y)) => if a == '+' {
            Some(y)
        } else {
            None
        },
        _ => None,
    }
}

/// The colour that six characters spell, behind any number of `#`.
pub open spec fn colour(v: Seq<char>) -> Option<Rgb> {
    let s = strip_front(v, '#');
    if s.len() == 6 {
        match (pair_value(s[0], s[1]), pair_value(s[2], s[3]), pair_value(s[4], s[5])) {
            (Some(r), Some(g), Some(b)) => Some(Rgb { r, g, b }),
            _ => None,
        }
    } else {
        None
    }
}

/// Whether cutting a colour of six bytes into pairs would cut a character.
pub open spec fn cuts_a_char(v: Seq<char>) -> bool {
    let s = strip_front(v, '#');
    &&& encode_utf8(s).len() == 6
    &&& !is_boundary(s, 2) || (s.len() >= 2 && pair_value(s[0], s[1]) is Some && !is_boundary(s, 4))
}

fn hex_digit_value(c: char) -> (r: Option<u8>)
    ensures
        r == hex_value(c),
        r matches Some(x) ==> x < 16,
{
    if '0' <= c && c <= '9' {
        Some((c as u8) - 0x30)
    } else if 'a' <= c && c <= 'f' {
        Some((c as u8) - 0x57)
    } else if 'A' <= c && c <= 'F' {
        Some((c as u8) - 0x37)
    } else {
        None
    }
}

fn read_pair(a: char, b: char) -> (r: Option<u8>)
    ensures
        r == pair_value(a, b),
{
    match (hex_digit_value(a), hex_digit_value(b)) {
        (Some(x), Some(y)) => Some(16 * x + y),
        (None, Some(y)) => if a == '+' {
            Some(y)
        } else {
            None
        },
        _ => None,
    }
}

/// Whether cutting a colour of six bytes into pairs would cut a character.
pub fn colour_cuts_a_char(v: &str) -> (r: bool)
    ensures
        r == cuts_a_char(v@),
{
    let chars = chars_of(v);
    let s = strip_front_char(chars.as_slice(), '#');
    let text = string_of(s);
    if text.as_str().as_bytes().len() != 6 {
        return false;
    }
    if !falls_on_boundary(s, 2) {
        return true;
    }
    s.len() >= 2 && read_pair(s[0], s[1]).is_some() && !falls_on_boundary(s, 4)
}

/// The colour of a value such as `#005faf`.
pub fn hex3(v: &str) -> (r: Option<Rgb>)
    requires
        !cuts_a_char(v@),
    ensures
        r == colour(v@),
{
    let chars = chars_of(v);
    let s = strip_front_char(chars.as_slice(), '#');
    if s.len() != 6 {
        return None;
    }
    match (read_pair(s[0], s[1]), read_pair(s[2], s[3]), read_pair(s[4], s[5])) {
        (Some(r), Some(g), Some(b)) => Some(Rgb { r, g, b }),
        _ => None,
    }
}

// ---------------------------------------------------------------------------
// The theme file
// ---------------------------------------------------------------------------

/// A `key = value` line, with the section that it stands in.
pub struct Setting {
    pub section: String,
    pub key: String,
    pub val: String,
}

pub struct SettingView {
    pub section: Seq<char>,
    pub key: Seq<char>,
    pub val: Seq<char>,
}

impl View for Setting {
    type V = SettingView;

    open spec fn view(&self) -> SettingView {
        SettingView { section: self.section@, key: self.key@, val: self.val@ }
    }
}

pub open spec fn setting_views(v: Seq<Setting>) -> Seq<SettingView> {
    v.map_values(|s: Setting| s@)
}

/// The section that a line opens.
pub open spec fn section_opened(line: Seq<char>) -> Option<Seq<char>> {
    let t = trimmed(line);
    if t.len() > 0 && t[0] == '[' {
        Some(strip_back(t.skip(1), ']'))
    } else {
        None
    }
}

/// The section that the line behind some lines stands in.
pub open spec fn section_after(lines: Seq<Seq<char>>) -> Seq<char>
    decreases lines.len(),
{
    if lines.len() == 0 {
        Seq::empty()
    } else {
        match section_opened(lines.last()) {
            Some(s) => s,
            None => section_after(lines.drop_last()),
        }
    }
}

/// What a line of a section sets.
pub open spec fn setting_on(section: Seq<char>, line: Seq<char>) -> Option<SettingView> {
    let t = trimmed(line);
    let at = first_at(t, '=');
    if section_opened(line) is Some || at == t.len() {
        None
    } else {
        Some(
            SettingView {
                section,
                key: trimmed(t.take(at)),
                val: strip_back(strip_front(trimmed(t.skip(at + 1)), '"'), '"'),
            },
        )
    }
}

/// What the lines of a theme file set, in their order.
pub open spec fn settings_of(lines: Seq<Seq<char>>) -> Seq<SettingView>
    decreases lines.len(),
{
    if lines.len() == 0 {
        Seq::empty()
    } else {
        let before = settings_of(lines.drop_last());
        match setting_on(section_after(lines.drop_last()), lines.last()) {
            Some(s) => before.push(s),
            None => before,
        }
    }
}

/// Reads the settings of a theme file.
pub fn parse_settings(content: &str) -> (out: Vec<Setting>)
    ensures
        setting_views(out@) == settings_of(lines_of(content@)),
{
    let chars = chars_of(content);
    let ls = lines(chars.as_slice());
    let ghost all = texts_of(ls@);
    let mut out: Vec<Setting> = Vec::new();
    let mut section = String::new();
    let mut i: usize = 0;
    assert(section@ =~= section_after(all.take(0)));
    assert(setting_views(out@) =~= settings_of(all.take(0)));
    while i < ls.len()
        invariant
            i <= ls@.len(),
            all == texts_of(ls@),
            section@ == section_after(all.take(i as int)),
            setting_views(out@) == settings_of(all.take(i as int)),
        decreases ls@.len() - i,
    {
        let ghost before = out@;
        assert(all.take(i + 1).drop_last() == all.take(i as int));
        assert(all.take(i + 1).last() == ls@[i as int]@);
        let t = trim(ls[i]);
        if t.len() > 0 && t[0] == '[' {
            let rest = slice_subrange(t, 1, t.len());
            assert(rest@ == t@.skip(1));
            section = string_of(strip_back_char(rest, ']'));
            assert(section@ =~= section_after(all.take(i + 1)));
        } else {
            let at: usize = find_char(t, '=');
            if at < t.len() {
                let key = slice_subrange(t, 0, at);
                let val = slice_subrange(t, at + 1, t.len());
                assert(key@ == t@.take(at as int));
                assert(val@ == t@.skip(at + 1));
                let bare = strip_back_char(strip_front_char(trim(val), '"'), '"');
                let s = Setting {
                    section: section.clone(),
                    key: string_of(trim(key)),
                    val: string_of(bare),
                };
                out.push(s);
                assert(setting_views(out@) =~= setting_views(before).push(s@));
            }
        }
        i += 1;
    }
    assert(all.take(i as int) == all);
    out
}

/// The theme without a theme file.
pub open spec fn default_theme() -> Theme {
    Theme {
        sel_bg: Some(Rgb { r: 0x00, g: 0x5f, b: 0xaf }),
        sel_fg: Some(Rgb { r: 0xd1, g: 0xe5, b: 0xff }),
        sel_bold: true,
        sel_reverse: false,
        match_underline: true,
    }
}

pub fn theme_default() -> (t: Theme)
    ensures
        t == default_theme(),
{
    Theme {
        sel_bg: Some(Rgb { r: 0x00, g: 0x5f, b: 0xaf }),
        sel_fg: Some(Rgb { r: 0xd1, g: 0xe5, b: 0xff }),
        sel_bold: true,
        sel_reverse: false,
        match_underline: true,
    }
}

/// Whether a setting gives a colour of the selection.
pub open spec fn sets_colour(s: SettingView) -> bool {
    s.section == "lusty.selection"@ && (s.key == "bg"@ || s.key == "fg"@)
}

/// A theme with one more setting.
pub open spec fn with_setting(t: Theme, s: SettingView) -> Theme {
    if s.section == "lusty.selection"@ {
        if s.key == "bg"@ {
            Theme { sel_bg: colour(s.val), ..t }
        } else if s.key == "fg"@ {
            Theme { sel_fg: colour(s.val), ..t }
        } else if s.key == "bold"@ {
            Theme { sel_bold: s.val == "true"@, ..t }
        } else if s.key == "reverse"@ {
            Theme { sel_reverse: s.val == "true"@, ..t }
        } else {
            t
        }
    } else if s.section == "lusty.match"@ && s.key == "underline"@ {
        Theme { match_underline: s.val == "true"@, ..t }
    } else {
        t
    }
}

/// The default theme with some settings, one after the other.
pub open spec fn theme_of(settings: Seq<SettingView>) -> Theme
    decreases settings.len(),
{
    if settings.len() == 0 {
        default_theme()
    } else {
        with_setting(theme_of(settings.drop_last()), settings.last())
    }
}

/// Whether every colour among some settings can be cut into pairs.
pub open spec fn colours_are_whole(settings: Seq<SettingView>) -> bool {
    forall|i: int|
        0 <= i < settings.len() && sets_colour(#[trigger] settings[i]) ==> !cuts_a_char(
            settings[i].val,
        )
}

fn is_text(s: &String, word: &str) -> (r: bool)
    ensures
        r == (s@ == word@),
{
    crate::text::str_eq(s.as_str(), word)
}

/// Whether every colour among some settings can be cut into pairs.
pub fn has_whole_colours(settings: &Vec<Setting>) -> (r: bool)
    ensures
        r == colours_are_whole(setting_views(settings@)),
{
    let ghost views = setting_views(settings@);
    let mut i: usize = 0;
    while i < settings.len()
        invariant
            i <= settings@.len(),
            views == setting_views(settings@),
            forall|j: int|
                0 <= j < i && sets_colour(#[trigger] views[j]) ==> !cuts_a_char(views[j].val),
        decreases settings@.len() - i,
    {
        let s = &settings[i];
        assert(views[i as int] == s@);
        if is_text(&s.section, "lusty.selection") && (is_text(&s.key, "bg") || is_text(
            &s.key,
            "fg",
        )) && colour_cuts_a_char(s.val.as_str()) {
            return false;
        }
        i += 1;
    }
    true
}

/// The default theme with the settings of a theme file.
pub fn theme_with(settings: &Vec<Setting>) -> (t: Theme)
    requires
        colours_are_whole(setting_views(settings@)),
    ensures
        t == theme_of(setting_views(settings@)),
{
    let ghost views = setting_views(settings@);
    let mut t = theme_default();
    let mut i: usize = 0;
    while i < settings.len()
        invariant
            i <= settings@.len(),
            views == setting_views(settings@),
            colours_are_whole(views),
            t == theme_of(views.take(i as int)),
        decreases settings@.len() - i,
    {
        let s = &settings[i];
        assert(views[i as int] == s@);
        assert(views.take(i + 1).drop_last() == views.take(i as int));
        assert(views.take(i + 1).last() == s@);
        if is_text(&s.section, "lusty.selection") {
            if is_text(&s.key, "bg") {
                t.sel_bg = hex3(s.val.as_str());
            } else if is_text(&s.key, "fg") {
                t.sel_fg = hex3(s.val.as_str());
            } else if is_text(&s.key, "bold") {
                t.sel_bold = is_text(&s.val, "true");
            } else if is_text(&s.key, "reverse") {
                t.sel_reverse = is_text(&s.val, "true");
            }
        } else if is_text(&s.section, "lusty.match") && is_text(&s.key, "underline") {
            t.match_underline = is_text(&s.val, "true");
        }
        i += 1;
    }
    assert(views.take(i as int) == views);
    t
}

/// Where the theme file is, by what the environment holds.
pub open spec fn theme_file(lusty_theme: Option<&str>, home: Option<&str>) -> Seq<char> {
    match (lusty_theme, home) {
        (Some(p), _) => p@,
        (None, Some(h)) => h@ + "/.config/lusty/theme.toml"@,
        (None, None) => Seq::empty(),
    }
}

/// Where the theme file is: at `LUSTY_THEME`, else below the home directory.
pub fn theme_path(lusty_theme: Option<&str>, home: Option<&str>) -> (r: String)
    ensures
        r@ == theme_file(lusty_theme, home),
{
    let mut r = String::new();
    match (lusty_theme, home) {
        (Some(p), _) => {
            r.push_str(p);
            assert(r@ =~= p@);
        },
        (None, Some(h)) => {
            r.push_str(h);
            r.push_str("/.config/lusty/theme.toml");
            assert(r@ =~= h@ + "/.config/lusty/theme.toml"@);
        },
        (None, None) => {},
    }
    r
}

// ---------------------------------------------------------------------------
// The selected entry
// ---------------------------------------------------------------------------

/// A colour as parameters of a sequence, each with its semicolon.
pub open spec fn rgb_text(lead: Seq<char>, c: Option<Rgb>) -> Seq<char> {
    match c {
        Some(c) => lead + decimal(c.r as nat) + ";"@ + decimal(c.g as nat) + ";"@ + decimal(
            c.b as nat,
        ) + ";"@,
        None => Seq::empty(),
    }
}

/// Everything that a theme sets for the selected entry.
pub open spec fn sel_params(t: Theme) -> Seq<char> {
    (if t.sel_bold {
        "1;"@
    } else {
        Seq::empty()
    }) + (if t.sel_reverse {
        "7;"@
    } else {
        Seq::empty()
    }) + rgb_text("48;2;"@, t.sel_bg) + rgb_text("38;2;"@, t.sel_fg)
}

/// The parameters for the selected entry: what the theme sets, without the
/// last semicolon, or the default bar where it sets nothing.
pub open spec fn sel_text(t: Theme) -> Seq<char> {
    if sel_params(t).len() == 0 {
        "1;48;2;0;95;175;38;2;209;229;255"@
    } else {
        sel_params(t).drop_last()
    }
}

fn push_rgb(out: &mut String, lead: &str, c: Option<Rgb>)
    ensures
        final(out)@ == old(out)@ + rgb_text(lead@, c),
{
    let ghost start = out@;
    match c {
        Some(c) => {
            out.push_str(lead);
            push_decimal(out, c.r as u128);
            out.push_str(";");
            push_decimal(out, c.g as u128);
            out.push_str(";");
            push_decimal(out, c.b as u128);
            out.push_str(";");
        },
        None => {},
    }
    assert(out@ =~= start + rgb_text(lead@, c));
}

/// The parameters of the sequence that begins the selected entry.
pub fn sel_style(t: &Theme) -> (r: String)
    ensures
        r@ == sel_text(*t),
{
    proof {
        reveal_strlit("");
    }
    let mut s = String::new();
    if t.sel_bold {
        s.push_str("1;");
    }
    if t.sel_reverse {
        s.push_str("7;");
    }
    push_rgb(&mut s, "48;2;", t.sel_bg);
    push_rgb(&mut s, "38;2;", t.sel_fg);
    assert(s@ =~= sel_params(*t));
    if is_text(&s, "") {
        s.push_str("1;48;2;0;95;175;38;2;209;229;255");
        assert(s@ =~= "1;48;2;0;95;175;38;2;209;229;255"@);
    } else {
        assert(s@.len() > 0) by {
            if s@.len() == 0 {
                assert(s@ =~= ""@);
            }
        }
        let _ = s.pop();
    }
    s
}

/// A theme that sets nothing draws the same bar as the default theme.
pub proof fn law_nothing_set_draws_the_default_bar(t: Theme)
    requires
        !t.sel_bold,
        !t.sel_reverse,
        t.sel_bg is None,
        t.sel_fg is None,
    ensures
        sel_text(t) == sel_text(default_theme()),
{
    reveal_strlit("1;");
    reveal_strlit(";");
    reveal_strlit("48;2;");
    reveal_strlit("38;2;");
    reveal_strlit("1;48;2;0;95;175;38;2;209;229;255");
    reveal_with_fuel(decimal, 4);
    assert(decimal(0) =~= seq!['0']);
    assert(decimal(95) =~= seq!['9', '5']);
    assert(decimal(175) =~= seq!['1', '7', '5']);
    assert(decimal(209) =~= seq!['2', '0', '9']);
    assert(decimal(229) =~= seq!['2', '2', '9']);
    assert(decimal(255) =~= seq!['2', '5', '5']);
    assert(sel_params(t) =~= Seq::<char>::empty());
    assert(sel_text(default_theme()) =~= "1;48;2;0;95;175;38;2;209;229;255"@);
}

/// Two hexadecimal digits of a byte, with the digits of one case.
pub open spec fn two_digits(digits: Seq<char>, b: u8) -> Seq<char> {
    seq![digits[b as int / 16], digits[b as int % 16]]
}

/// A colour that is written with two hexadecimal digits for red, green and blue,
/// in small or capital letters, with or without `#`, is that colour.
pub proof fn law_colours_are_read_as_written(digits: Seq<char>, c: Rgb)
    requires
        digits == "0123456789abcdef"@ || digits == "0123456789ABCDEF"@,
    ensures
        ({
            let s = two_digits(digits, c.r) + two_digits(digits, c.g) + two_digits(digits, c.b);
            colour(s) == Some(c) && colour(seq!['#'] + s) == Some(c)
        }),
{
    reveal_strlit("0123456789abcdef");
    reveal_strlit("0123456789ABCDEF");
    let s = two_digits(digits, c.r) + two_digits(digits, c.g) + two_digits(digits, c.b);
    lemma_pair(digits, c.r);
    lemma_pair(digits, c.g);
    lemma_pair(digits, c.b);
    assert(s[0] != '#');
    law_stripping_takes_copies_only(s, '#');
}

proof fn lemma_pair(digits: Seq<char>, b: u8)
    requires
        digits == "0123456789abcdef"@ || digits == "0123456789ABCDEF"@,
    ensures
        pair_value(digits[b as int / 16], digits[b as int % 16]) == Some(b),
{
    reveal_strlit("0123456789abcdef");
    reveal_strlit("0123456789ABCDEF");
    let (x, y) = (b as int / 16, b as int % 16);
    assert(0 <= x < 16 && 0 <= y < 16);
    assert(hex_value(digits[x]) == Some(x as u8));
    assert(hex_value(digits[y]) == Some(y as u8));
}

/// A text of another length, or with a character that is no hexadecimal digit,
/// is no colour. A plus sign may stand for the first digit of a pair.
pub proof fn law_other_texts_are_no_colours(v: Seq<char>, i: int)
    requires
        v.len() > 0 ==> v[0] != '#',
    ensures
        v.len() != 6 ==> colour(v) is None,
        0 <= i < v.len() && !('0' <= v[i] && v[i] <= '9') && !('a' <= v[i] && v[i] <= 'f') && !('A'
            <= v[i] && v[i] <= 'F') && !(i % 2 == 0 && v[i] == '+') ==> colour(v) is None,
{
}

/// Each setting of the selection and of matches sets its own field and no
/// other; all other settings set nothing. The last one counts.
pub proof fn law_settings_set_their_field(settings: Seq<SettingView>, s: SettingView)
    ensures
        theme_of(Seq::<SettingView>::empty()) == default_theme(),
        ({
            let (before, after) = (theme_of(settings), theme_of(settings.push(s)));
            let selection = s.section == "lusty.selection"@;
            let matches = s.section == "lusty.match"@;
            let on = s.val == "true"@;
            &&& after.sel_bg == (if selection && s.key == "bg"@ {
                colour(s.val)
            } else {
                before.sel_bg
            })
            &&& after.sel_fg == (if selection && s.key == "fg"@ {
                colour(s.val)
            } else {
                before.sel_fg
            })
            &&& after.sel_bold == (if selection && s.key == "bold"@ {
                on
            } else {
                before.sel_bold
            })
            &&& after.sel_reverse == (if selection && s.key == "reverse"@ {
                on
            } else {
                before.sel_reverse
            })
            &&& after.match_underline == (if matches && s.key == "underline"@ {
                on
            } else {
                before.match_underline
            })
        }),
{
    reveal_strlit("lusty.selection");
    reveal_strlit("lusty.match");
    reveal_strlit("bg");
    reveal_strlit("fg");
    reveal_strlit("bold");
    reveal_strlit("reverse");
    assert("lusty.selection"@.len() != "lusty.match"@.len());
    assert("bg"@[0] != "fg"@[0]);
    assert("bold"@.len() == 4 && "reverse"@.len() == 7);
    assert(settings.push(s).drop_last() =~= settings);
}

/// The theme without any setting: light text on blue, bold, matches underlined.
pub proof fn law_the_default_theme()
    ensures
        default_theme().sel_bg == Some(Rgb { r: 0, g: 95, b: 175 }),
        default_theme().sel_fg == Some(Rgb { r: 209, g: 229, b: 255 }),
        default_theme().sel_bold,
        !default_theme().sel_reverse,
        default_theme().match_underline,
{
}

/// A line in brackets opens the section that it names, and a line with a key, an
/// equals sign and a value, in quotes or not, sets the key in the section.
pub proof fn law_theme_lines_are_read_as_written(
    lines: Seq<Seq<char>>,
    name: Seq<char>,
    key: Seq<char>,
    val: Seq<char>,
)
    requires
        name.len() > 0,
        name.last() != ']',
        key.len() > 0,
        !key.contains('='),
        key[0] != '[',
        !white_space(key[0]) && !white_space(key.last()),
        val.len() > 0,
        val[0] != '"' && val.last() != '"',
        !white_space(val[0]) && !white_space(val.last()),
    ensures
        section_after(Seq::<Seq<char>>::empty()) == Seq::<char>::empty(),
        section_after(lines.push(seq!['['] + name + seq![']'])) == name,
        settings_of(lines.push(seq!['['] + name + seq![']'])) == settings_of(lines),
        section_after(lines.push(key + seq![' ', '=', ' '] + val)) == section_after(lines),
        settings_of(lines.push(key + seq![' ', '=', ' '] + val)) == settings_of(lines).push(
            SettingView { section: section_after(lines), key, val },
        ),
        settings_of(lines.push(key + seq![' ', '=', ' ', '"'] + val + seq!['"'])) == settings_of(
            lines,
        ).push(SettingView { section: section_after(lines), key, val }),
{
    let head = seq!['['] + name + seq![']'];
    assert(lines.push(head).drop_last() =~= lines);
    law_tight_texts_are_not_trimmed(head);
    assert(head.skip(1) =~= name.push(']'));
    law_stripping_takes_copies_only(name, ']');
    assert(section_opened(head) == Some(name));
    lemma_setting_line(section_after(lines), key, val, val);
    let bare = key + seq![' ', '=', ' '] + val;
    assert(lines.push(bare).drop_last() =~= lines);
    let q = seq!['"'] + val + seq!['"'];
    lemma_setting_line(section_after(lines), key, q, val);
    let quoted = key + seq![' ', '=', ' ', '"'] + val + seq!['"'];
    assert(quoted =~= key + seq![' ', '=', ' '] + q);
    assert(lines.push(quoted).drop_last() =~= lines);
}

proof fn lemma_setting_line(
    section: Seq<char>,
    key: Seq<char>,
    written: Seq<char>,
    val: Seq<char>,
)
    requires
        key.len() > 0,
        !key.contains('='),
        key[0] != '[',
        !white_space(key[0]) && !white_space(key.last()),
        val.len() > 0,
        val[0] != '"' && val.last() != '"',
        !white_space(val[0]) && !white_space(val.last()),
        written == val || written == seq!['"'] + val + seq!['"'],
    ensures
        ({
            let line = key + seq![' ', '=', ' '] + written;
            &&& section_opened(line) is None
            &&& setting_on(section, line) == Some(SettingView { section, key, val })
        }),
{
    let line = key + seq![' ', '=', ' '] + written;
    let n = key.len() as int;
    assert(line[0] == key[0]);
    assert(line.last() == written.last());
    assert(!white_space('"'));
    law_tight_texts_are_not_trimmed(line);
    assert forall|j: int| 0 <= j < n + 1 implies line[j] != '=' by {
        if j < n {
            assert(line[j] == key[j]);
            assert(key.contains(key[j]));
        }
    }
    assert(line[n + 1] == '=');
    lemma_first_at(line, '=', n + 1);
    let left = line.take(n + 1);
    let right = line.skip(n + 2);
    assert(left =~= key.push(' '));
    assert(right =~= seq![' '] + written);
    lemma_trim_one_space(key);
    lemma_trim_one_space(written);
    law_stripping_takes_copies_only(val, '"');
    law_stripping_takes_copies_only(val.push('"'), '"');
    if written != val {
        assert(written =~= seq!['"'] + val.push('"'));
        assert(val.push('"')[0] == val[0]);
        assert(strip_front(written, '"') == val.push('"'));
    }
}

proof fn lemma_trim_one_space(s: Seq<char>)
    requires
        s.len() > 0,
        !white_space(s[0]) && !white_space(s.last()),
    ensures
        trimmed(s.push(' ')) == s,
        trimmed(seq![' '] + s) == s,
{
    let a = s.push(' ');
    assert(a[0] == s[0]);
    assert(trim_front(a) == a);
    assert(a.drop_last() =~= s);
    assert(white_space(' '));
    assert(trim_back(a) == trim_back(s));
    let b = seq![' '] + s;
    assert(b.drop_first() =~= s);
    assert(trim_front(b) == trim_front(s));
}

/// Parameters, each with a semicolon behind it.
spec fn ended(parts: Seq<Seq<char>>) -> Seq<char>
    decreases parts.len(),
{
    if parts.len() == 0 {
        Seq::empty()
    } else {
        ended(parts.drop_last()) + parts.last().push(';')
    }
}

proof fn lemma_ended_pieces(parts: Seq<Seq<char>>)
    requires
        forall|i: int| 0 <= i < parts.len() ==> !(#[trigger] parts[i]).contains(';'),
    ensures
        pieces(ended(parts), ';') == parts.push(Seq::empty()),
        parts.len() > 0 ==> pieces(ended(parts).drop_last(), ';') == parts,
    decreases parts.len(),
{
    let none = Seq::<char>::empty();
    law_one_piece(none, ';');
    if parts.len() > 0 {
        let front = parts.drop_last();
        let last = parts.last();
        assert forall|i: int| 0 <= i < front.len() implies !(#[trigger] front[i]).contains(';') by {
            assert(front[i] == parts[i]);
        }
        lemma_ended_pieces(front);
        assert(!parts[parts.len() - 1].contains(';'));
        law_one_piece(last, ';');
        let e = ended(front);
        assert(ended(parts).drop_last() =~= e + last);
        if front.len() == 0 {
            assert(e + last =~= last);
            assert(parts =~= seq![last]);
        } else {
            let b = ended(front).drop_last();
            assert(e.last() == ';') by {
                assert(e == ended(front.drop_last()) + front.last().push(';'));
            }
            assert(e =~= b.push(';'));
            law_a_separator_parts_the_pieces(b, ';', last);
            assert(front + seq![last] =~= parts);
        }
        law_a_separator_parts_the_pieces(e + last, ';', none);
        assert((e + last).push(';') + none =~= ended(parts));
        assert(pieces(ended(parts), ';') =~= parts.push(none));
    } else {
        assert(pieces(none, ';') =~= parts.push(none));
    }
}

/// The parameters of a colour: five of them.
pub open spec fn colour_params(lead: Seq<char>, c: Option<Rgb>) -> Seq<Seq<char>> {
    match c {
        Some(c) => seq![
            lead,
            seq!['2'],
            decimal(c.r as nat),
            decimal(c.g as nat),
            decimal(c.b as nat),
        ],
        None => Seq::empty(),
    }
}

/// What a theme sets for the selection is found among the parameters, one after
/// the other: bold, reversed, the background and the text.
pub proof fn law_the_selection_has_the_parameters_of_its_theme(t: Theme)
    requires
        t.sel_bold || t.sel_reverse || t.sel_bg is Some || t.sel_fg is Some,
    ensures
        pieces(sel_text(t), ';') == (if t.sel_bold {
            seq![seq!['1']]
        } else {
            Seq::empty()
        }) + (if t.sel_reverse {
            seq![seq!['7']]
        } else {
            Seq::empty()
        }) + colour_params(seq!['4', '8'], t.sel_bg) + colour_params(seq!['3', '8'], t.sel_fg),
{
    reveal_strlit("1;");
    reveal_strlit("7;");
    reveal_strlit("48;2;");
    reveal_strlit("38;2;");
    let bold = if t.sel_bold {
        seq![seq!['1']]
    } else {
        Seq::empty()
    };
    let reverse = if t.sel_reverse {
        seq![seq!['7']]
    } else {
        Seq::empty()
    };
    let bg = colour_params(seq!['4', '8'], t.sel_bg);
    let fg = colour_params(seq!['3', '8'], t.sel_fg);
    lemma_ended_one('1');
    lemma_ended_one('7');
    lemma_ended_colour(seq!['4', '8'], t.sel_bg);
    lemma_ended_colour(seq!['3', '8'], t.sel_fg);
    assert("1;"@ =~= seq!['1', ';']);
    assert("7;"@ =~= seq!['7', ';']);
    assert("48;2;"@ =~= seq!['4', '8'] + seq![';', '2', ';']);
    assert("38;2;"@ =~= seq!['3', '8'] + seq![';', '2', ';']);
    let none = Seq::<Seq<char>>::empty();
    assert(ended(none) =~= Seq::<char>::empty());
    lemma_ended_concat(bold, reverse);
    lemma_ended_concat(bold + reverse, bg);
    lemma_ended_concat(bold + reverse + bg, fg);
    let parts = bold + reverse + bg + fg;
    assert(sel_params(t) == ended(parts));
    assert forall|i: int| 0 <= i < parts.len() implies !(#[trigger] parts[i]).contains(';') by {
        if i < bold.len() {
            assert(parts[i] == bold[i]);
        } else if i < bold.len() + reverse.len() {
            assert(parts[i] == reverse[i - bold.len()]);
        } else if i < bold.len() + reverse.len() + bg.len() {
            assert(parts[i] == bg[i - bold.len() - reverse.len()]);
            lemma_colour_avoids(seq!['4', '8'], t.sel_bg, i - bold.len() - reverse.len());
        } else {
            assert(parts[i] == fg[i - bold.len() - reverse.len() - bg.len()]);
            lemma_colour_avoids(
                seq!['3', '8'],
                t.sel_fg,
                i - bold.len() - reverse.len() - bg.len(),
            );
        }
    }
    lemma_ended_pieces(parts);
    assert(parts.len() > 0);
    assert(ended(parts).len() > 0);
}

proof fn lemma_colour_avoids(lead: Seq<char>, c: Option<Rgb>, i: int)
    requires
        lead == seq!['4', '8'] || lead == seq!['3', '8'],
        0 <= i < colour_params(lead, c).len(),
    ensures
        !colour_params(lead, c)[i].contains(';'),
{
    let rgb = c->0;
    lemma_decimal_avoids_semicolon(rgb.r as nat);
    lemma_decimal_avoids_semicolon(rgb.g as nat);
    lemma_decimal_avoids_semicolon(rgb.b as nat);
    let p = colour_params(lead, c)[i];
    if i == 0 {
        assert(p == lead);
    }
}

proof fn lemma_decimal_avoids_semicolon(n: nat)
    ensures
        !decimal(n).contains(';'),
{
    lemma_decimal(n);
    if decimal(n).contains(';') {
        let i = choose|i: int| 0 <= i < decimal(n).len() && decimal(n)[i] == ';';
        assert(is_digit(decimal(n)[i]));
    }
}

proof fn lemma_ended_concat(a: Seq<Seq<char>>, b: Seq<Seq<char>>)
    ensures
        ended(a + b) == ended(a) + ended(b),
    decreases b.len(),
{
    if b.len() > 0 {
        lemma_ended_concat(a, b.drop_last());
        assert((a + b).drop_last() =~= a + b.drop_last());
        assert(ended(a) + (ended(b.drop_last()) + b.last().push(';')) =~= ended(a) + ended(
            b.drop_last(),
        ) + b.last().push(';'));
    } else {
        assert(a + b =~= a);
        assert(ended(a) + ended(b) =~= ended(a));
    }
}

proof fn lemma_ended_one(c: char)
    ensures
        ended(seq![seq![c]]) == seq![c, ';'],
{
    let parts = seq![seq![c]];
    assert(parts.drop_last() =~= Seq::<Seq<char>>::empty());
    assert(ended(parts.drop_last()) =~= Seq::<char>::empty());
    assert(ended(parts) =~= seq![c, ';']);
}

proof fn lemma_ended_colour(lead: Seq<char>, c: Option<Rgb>)
    ensures
        ended(colour_params(lead, c)) == rgb_text(lead + seq![';', '2', ';'], c),
{
    reveal_strlit(";");
    match c {
        Some(rgb) => {
            let (r, g, b) = (decimal(rgb.r as nat), decimal(rgb.g as nat), decimal(rgb.b as nat));
            let p5 = colour_params(lead, c);
            let p4 = p5.drop_last();
            let p3 = p4.drop_last();
            let p2 = p3.drop_last();
            let p1 = p2.drop_last();
            assert(p1 =~= seq![lead]);
            assert(p1.drop_last() =~= Seq::<Seq<char>>::empty());
            assert(ended(p1.drop_last()) =~= Seq::<char>::empty());
            assert(ended(p1) =~= lead.push(';'));
            assert(ended(p2) =~= lead + seq![';', '2', ';']);
            assert(ended(p3) =~= lead + seq![';', '2', ';'] + r + ";"@);
            assert(ended(p4) =~= lead + seq![';', '2', ';'] + r + ";"@ + g + ";"@);
            assert(ended(p5) =~= lead + seq![';', '2', ';'] + r + ";"@ + g + ";"@ + b + ";"@);
        },
        None => {},
    }
}

/// A colour in ASCII can always be cut into pairs.
pub proof fn law_ascii_colours_are_whole(v: Seq<char>)
    requires
        is_ascii_chars(v),
    ensures
        !cuts_a_char(v),
{
    let s = strip_front(v, '#');
    lemma_strip_ascii(v);
    vstd::utf8::is_ascii_chars_encode_utf8(s);
    if s.len() == 6 {
        lemma_ascii_boundary(s, 2);
        lemma_ascii_boundary(s, 4);
    }
}

proof fn lemma_strip_ascii(v: Seq<char>)
    requires
        is_ascii_chars(v),
    ensures
        is_ascii_chars(strip_front(v, '#')),
    decreases v.len(),
{
    if v.len() > 0 && v[0] == '#' {
        let rest = v.drop_first();
        assert forall|i: int| 0 <= i < rest.len() implies '\0' <= #[trigger] rest[i] <= '\u{7f}' by {
            assert(rest[i] == v[i + 1]);
        }
        lemma_strip_ascii(rest);
    }
}

proof fn lemma_ascii_boundary(s: Seq<char>, k: int)
    requires
        is_ascii_chars(s),
        0 <= k <= s.len(),
    ensures
        is_boundary(s, k),
{
    let t = s.take(k);
    assert forall|i: int| 0 <= i < t.len() implies '\0' <= #[trigger] t[i] <= '\u{7f}' by {
        assert(t[i] == s[i]);
    }
    vstd::utf8::is_ascii_chars_encode_utf8(t);
    assert(encode_utf8(s.take(k)).len() == k);
}

/// The variable names the theme file; without it the file lies below the home
/// directory.
pub proof fn law_where_the_theme_is(p: &str, h: &str, home: Option<&str>)
    ensures
        theme_file(Some(p), home) == p@,
        theme_file(None, Some(h)).len() == h@.len() + 25,
        theme_file(None, Some(h)).take(h@.len() as int) == h@,
        theme_file(None, Some(h)).skip(h@.len() as int) == "/.config/lusty/theme.toml"@,
        theme_file(None, None).len() == 0,
{
    reveal_strlit("/.config/lusty/theme.toml");
    let t = h@ + "/.config/lusty/theme.toml"@;
    assert(t.take(h@.len() as int) =~= h@);
    assert(t.skip(h@.len() as int) =~= "/.config/lusty/theme.toml"@);
}

} // verus!
