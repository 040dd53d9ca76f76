//! Colour themes: the palette, hex colour parsing, the registry of themes
//! to choose from, and which palette colour a division is drawn with.
use vstd::prelude::*;
use vstd::string::StringSliceAdditionalSpecFns;
use vstd::utf8::{decode_utf8, encode_utf8, is_char_boundary, valid_utf8};
use crate::model::Division;
use crate::text::{
    chars_of, parse_hex_u8, push_chars, push_str, same_text, spec_parse_hex_u8, string_from, trim,
    trimmed,
};

verus! {

broadcast use {vstd::string::group_string_axioms, vstd::slice::axiom_spec_len};

/// A colour: red, green, blue and (unmultiplied) alpha.
#[derive(Debug, Clone, Copy, PartialEq, Eq, Structural)]
pub struct ThemeColor {
    pub r: u8,
    pub g: u8,
    pub b: u8,
    pub a: u8,
}

/// An opaque colour.
pub open spec fn opaque(r: u8, g: u8, b: u8) -> ThemeColor {
    ThemeColor { r, g, b, a: 255 }
}

impl ThemeColor {
    pub fn from_rgb(r: u8, g: u8, b: u8) -> (c: ThemeColor)
        ensures
            c == opaque(r, g, b),
    {
        ThemeColor { r, g, b, a: 255 }
    }

    pub fn from_rgba_unmultiplied(r: u8, g: u8, b: u8, a: u8) -> (c: ThemeColor)
        ensures
            c == (ThemeColor { r, g, b, a }),
    {
        ThemeColor { r, g, b, a }
    }
}

// ---------------------------------------------------------------------------
// Hex colours
// ---------------------------------------------------------------------------

/// `s` without its leading `#` characters.
pub open spec fn strip_hashes(s: Seq<char>) -> Seq<char>
    decreases s.len(),
{
    if s.len() > 0 && s[0] == '#' {
        strip_hashes(s.drop_first())
    } else {
        s
    }
}

/// The digits of a hex colour: trimmed of whitespace, then of leading `#`.
pub open spec fn hex_body(s: Seq<char>) -> Seq<char> {
    strip_hashes(trimmed(s))
}

/// The byte pair at `i` starts and ends on a character.
pub open spec fn pair_whole(b: Seq<u8>, i: int) -> bool {
    is_char_boundary(b, i) && is_char_boundary(b, i + 2)
}

/// The value of the two bytes at `i`, read as hexadecimal text.
pub open spec fn hex_pair(b: Seq<u8>, i: int) -> Option<u8> {
    spec_parse_hex_u8(decode_utf8(b.subrange(i, i + 2)))
}

/// The pairs of a six- or eight-byte body are read in order until one does
/// not parse; each pair read must start and end on a character (slicing a
/// string inside a character panics).
pub open spec fn hex_slices_whole(s: Seq<char>) -> bool {
    let b = encode_utf8(hex_body(s));
    (b.len() == 6 || b.len() == 8) ==> {
        &&& pair_whole(b, 0)
        &&& hex_pair(b, 0) is Some ==> {
            &&& pair_whole(b, 2)
            &&& hex_pair(b, 2) is Some ==> {
                &&& pair_whole(b, 4)
                &&& (b.len() == 8 && hex_pair(b, 4) is Some) ==> pair_whole(b, 6)
            }
        }
    }
}

/// A colour written `RRGGBB` or `RRGGBBAA` in hexadecimal, after optional
/// whitespace and `#`s; otherwise the message to show.
pub open spec fn spec_parse_hex(s: Seq<char>) -> Result<ThemeColor, Seq<char>> {
    let b = encode_utf8(hex_body(s));
    let bad = "invalid hex colour '"@ + s + "'"@;
    if b.len() == 6 || b.len() == 8 {
        match (hex_pair(b, 0), hex_pair(b, 2), hex_pair(b, 4)) {
            (Some(r), Some(g), Some(bl)) => if b.len() == 6 {
                Ok(opaque(r, g, bl))
            } else {
                match hex_pair(b, 6) {
                    Some(a) => Ok(ThemeColor { r, g, b: bl, a }),
                    None => Err(bad),
                }
            },
            _ => Err(bad),
        }
    } else {
        Err("hex colour must be 6 or 8 digits, got '"@ + s + "'"@)
    }
}

/// In a suffix of valid UTF-8 that starts on a character, the character
/// boundaries are those of the whole, shifted.
proof fn lemma_boundary_in_suffix(b: Seq<u8>, i: int, j: int)
    requires
        valid_utf8(b),
        is_char_boundary(b, i),
        is_char_boundary(b, j),
        0 <= i <= j <= b.len(),
    ensures
        valid_utf8(b.subrange(i, b.len() as int)),
        is_char_boundary(b.subrange(i, b.len() as int), j - i),
{
    let rest = b.subrange(i, b.len() as int);
    vstd::utf8::valid_utf8_split(b, i);
    if j == i {
        vstd::utf8::is_char_boundary_start_end_of_seq(rest);
    } else if j == b.len() {
        vstd::utf8::is_char_boundary_start_end_of_seq(rest);
    } else {
        vstd::utf8::is_char_boundary_iff_not_is_continuation_byte(b, j);
        vstd::utf8::is_char_boundary_iff_not_is_continuation_byte(rest, j - i);
        assert(rest[j - i] == b[j]);
    }
}

/// The two bytes of `h` at `i`, read as hexadecimal text.
fn hex_byte(h: &str, i: usize) -> (r: Option<u8>)
    requires
        i + 2 <= h.spec_bytes().len(),
        pair_whole(h.spec_bytes(), i as int),
    ensures
        r == hex_pair(h.spec_bytes(), i as int),
{
    let ghost b = h.spec_bytes();
    proof {
        vstd::utf8::encode_utf8_valid_utf8(h@);
        lemma_boundary_in_suffix(b, i as int, (i + 2) as int);
    }
    let (_, rest) = h.split_at(i);
    assert(rest.spec_bytes() == b.subrange(i as int, b.len() as int));
    let (pair, _) = rest.split_at(2);
    assert(pair.spec_bytes() =~= b.subrange(i as int, i + 2));
    proof {
        vstd::utf8::encode_utf8_decode_utf8(pair@);
    }
    let v = chars_of(pair);
    assert(v@.subrange(0, v@.len() as int) == v@);
    parse_hex_u8(&v, 0, v.len())
}

fn hex_message(prefix: &str, s: &str, suffix: &str) -> (r: String)
    ensures
        r@ == prefix@ + s@ + suffix@,
{
    let mut m = string_from(prefix);
    push_str(&mut m, s);
    push_str(&mut m, suffix);
    m
}

/// The digits of a hex colour, as [`hex_body`] describes.
fn hex_digits(s: &str) -> (h: String)
    ensures
        h@ == hex_body(s@),
{
    let t = trim(s);
    let v = chars_of(t.as_str());
    let mut k: usize = 0;
    assert(v@.skip(0) =~= v@);
    while k < v.len() && v[k] == '#'
        invariant
            k <= v@.len(),
            strip_hashes(v@) == strip_hashes(v@.skip(k as int)),
        decreases v.len() - k,
    {
        assert(v@.skip(k as int).drop_first() =~= v@.skip(k + 1));
        k = k + 1;
    }
    assert(v@.skip(k as int) =~= v@.subrange(k as int, v@.len() as int));
    assert(strip_hashes(v@.skip(k as int)) == v@.skip(k as int));
    let mut h = String::new();
    push_chars(&mut h, &v, k, v.len());
    assert(h@ =~= v@.skip(k as int));
    h
}

/// Whether reading `s` as a hex colour slices only on characters, as
/// [`hex_slices_whole`] describes.
pub fn hex_slices_ok(s: &str) -> (r: bool)
    ensures
        r == hex_slices_whole(s@),
{
    let h = hex_digits(s);
    let hs = h.as_str();
    let n = hs.as_bytes().len();
    if n != 6 && n != 8 {
        return true;
    }
    if !(hs.is_char_boundary(0) && hs.is_char_boundary(2)) {
        return false;
    }
    if hex_byte(hs, 0).is_none() {
        return true;
    }
    if !hs.is_char_boundary(4) {
        return false;
    }
    if hex_byte(hs, 2).is_none() {
        return true;
    }
    if !hs.is_char_boundary(6) {
        return false;
    }
    if n == 8 && hex_byte(hs, 4).is_some() {
        return hs.is_char_boundary(8);
    }
    true
}

/// Reads a colour written in hexadecimal, as [`spec_parse_hex`] describes.
pub fn parse_hex(s: &str) -> (r: Result<ThemeColor, String>)
    requires
        hex_slices_whole(s@),
    ensures
        match spec_parse_hex(s@) {
            Ok(c) => r == Ok::<ThemeColor, String>(c),
            Err(msg) => r matches Err(t) && t@ == msg,
        },
{
    let h = hex_digits(s);
    let hs = h.as_str();
    assert(hs.spec_bytes() == encode_utf8(hex_body(s@)));
    let n = hs.as_bytes().len();
    if n == 6 || n == 8 {
        let r = match hex_byte(hs, 0) {
            Some(x) => x,
            None => {
                return Err(hex_message("invalid hex colour '", s, "'"));
            },
        };
        let g = match hex_byte(hs, 2) {
            Some(x) => x,
            None => {
                return Err(hex_message("invalid hex colour '", s, "'"));
            },
        };
        let b = match hex_byte(hs, 4) {
            Some(x) => x,
            None => {
                return Err(hex_message("invalid hex colour '", s, "'"));
            },
        };
        if n == 6 {
            Ok(ThemeColor::from_rgb(r, g, b))
        } else {
            match hex_byte(hs, 6) {
                Some(a) => Ok(ThemeColor::from_rgba_unmultiplied(r, g, b, a)),
                None => Err(hex_message("invalid hex colour '", s, "'")),
            }
        }
    } else {
        Err(hex_message("hex colour must be 6 or 8 digits, got '", s, "'"))
    }
}

// ---------------------------------------------------------------------------
// Themes
// ---------------------------------------------------------------------------

/// A full colour palette. Every colour has a dark-theme default, so a theme
/// file only needs to list the colours it changes.
#[derive(Debug, Clone)]
pub struct Theme {
    /// Display name shown in the switcher (falls back to the file name).
    pub name: Option<String>,
    // Surfaces
    pub bg_base: ThemeColor,
    pub card_bg: ThemeColor,
    pub card_bg_alt: ThemeColor,
    pub surface: ThemeColor,
    pub row_stripe: ThemeColor,
    // Borders
    pub border: ThemeColor,
    // Text
    pub text: ThemeColor,
    pub text_dim: ThemeColor,
    pub text_muted: ThemeColor,
    pub text_faint: ThemeColor,
    // Accent
    pub accent: ThemeColor,
    pub accent_mid: ThemeColor,
    pub accent_strong: ThemeColor,
    pub accent_alt: ThemeColor,
    /// Text/icon colour drawn on top of accent or other strongly-coloured fills
    /// (buttons, pills, active tabs). Defaults to white.
    pub on_accent: ThemeColor,
    // Status
    pub success: ThemeColor,
    pub success_border: ThemeColor,
    pub success_bg: ThemeColor,
    pub warning: ThemeColor,
    pub warning_border: ThemeColor,
    pub warning_bg: ThemeColor,
    pub danger: ThemeColor,
    pub danger_border: ThemeColor,
    pub danger_bg: ThemeColor,
    pub info: ThemeColor,
    pub info_border: ThemeColor,
    pub info_bg: ThemeColor,
    pub rose: ThemeColor,
    /// Categorical colours for divisions with no explicit colour set.
    pub division_palette: Vec<ThemeColor>,
}

impl Theme {
    /// The fixed colours, in declaration order.
    pub open spec fn colors(&self) -> Seq<ThemeColor> {
        seq![
            self.bg_base,
            self.card_bg,
            self.card_bg_alt,
            self.surface,
            self.row_stripe,
            self.border,
            self.text,
            self.text_dim,
            self.text_muted,
            self.text_faint,
            self.accent,
            self.accent_mid,
            self.accent_strong,
            self.accent_alt,
            self.on_accent,
            self.success,
            self.success_border,
            self.success_bg,
            self.warning,
            self.warning_border,
            self.warning_bg,
            self.danger,
            self.danger_border,
            self.danger_bg,
            self.info,
            self.info_border,
            self.info_bg,
            self.rose
        ]
    }
}

/// What two themes that look the same share: name, colours and palette.
pub open spec fn theme_view(t: Theme) -> (Option<Seq<char>>, Seq<ThemeColor>, Seq<ThemeColor>) {
    (
        match t.name {
            Some(n) => Some(n@),
            None => None,
        },
        t.colors(),
        t.division_palette@,
    )
}

impl Default for Theme {
    fn default() -> (r: Self)
        ensures
            r.name matches Some(n) && n@ == "Default (Dark)"@,
            r.bg_base == opaque(22, 22, 26),
            r.card_bg == opaque(33, 33, 38),
            r.card_bg_alt == opaque(28, 28, 32),
            r.surface == opaque(45, 45, 52),
            r.row_stripe == opaque(31, 31, 36),
            r.border == opaque(64, 64, 72),
            r.text == opaque(231, 231, 234),
            r.text_dim == opaque(209, 209, 214),
            r.text_muted == opaque(161, 161, 170),
            r.text_faint == opaque(113, 113, 122),
            r.accent == opaque(129, 140, 248),
            r.accent_mid == opaque(99, 102, 241),
            r.accent_strong == opaque(79, 70, 229),
            r.accent_alt == opaque(167, 139, 250),
            r.on_accent == opaque(255, 255, 255),
            r.success == opaque(52, 211, 153),
            r.success_border == opaque(16, 185, 129),
            r.success_bg == opaque(6, 78, 59),
            r.warning == opaque(251, 191, 36),
            r.warning_border == opaque(245, 158, 11),
            r.warning_bg == opaque(120, 53, 4),
            r.danger == opaque(248, 113, 113),
            r.danger_border == opaque(239, 68, 68),
            r.danger_bg == opaque(127, 29, 29),
            r.info == opaque(96, 165, 250),
            r.info_border == opaque(59, 130, 246),
            r.info_bg == opaque(30, 58, 138),
            r.rose == opaque(244, 63, 94),
            r.division_palette@ == seq![opaque(99, 102, 241), opaque(16, 185, 129), opaque(245, 158, 11), opaque(244, 63, 94), opaque(14, 165, 233), opaque(139, 92, 246), opaque(249, 115, 22), opaque(20, 184, 166), opaque(236, 72, 153), opaque(132, 204, 22), opaque(6, 182, 212), opaque(217, 70, 239)],
    {
        let mut palette: Vec<ThemeColor> = Vec::new();
        palette.push(ThemeColor::from_rgb(99, 102, 241)); // indigo
        palette.push(ThemeColor::from_rgb(16, 185, 129)); // emerald
        palette.push(ThemeColor::from_rgb(245, 158, 11)); // amber
        palette.push(ThemeColor::from_rgb(244, 63, 94)); // rose
        palette.push(ThemeColor::from_rgb(14, 165, 233)); // sky
        palette.push(ThemeColor::from_rgb(139, 92, 246)); // violet
        palette.push(ThemeColor::from_rgb(249, 115, 22)); // orange
        palette.push(ThemeColor::from_rgb(20, 184, 166)); // teal
        palette.push(ThemeColor::from_rgb(236, 72, 153)); // pink
        palette.push(ThemeColor::from_rgb(132, 204, 22)); // lime
        palette.push(ThemeColor::from_rgb(6, 182, 212)); // cyan
        palette.push(ThemeColor::from_rgb(217, 70, 239)); // fuchsia
        Theme {
            name: Some(string_from("Default (Dark)")),
            bg_base: ThemeColor::from_rgb(22, 22, 26),
            card_bg: ThemeColor::from_rgb(33, 33, 38),
            card_bg_alt: ThemeColor::from_rgb(28, 28, 32),
            surface: ThemeColor::from_rgb(45, 45, 52),
            row_stripe: ThemeColor::from_rgb(31, 31, 36),
            border: ThemeColor::from_rgb(64, 64, 72),
            text: ThemeColor::from_rgb(231, 231, 234),
            text_dim: ThemeColor::from_rgb(209, 209, 214),
            text_muted: ThemeColor::from_rgb(161, 161, 170),
            text_faint: ThemeColor::from_rgb(113, 113, 122),
            accent: ThemeColor::from_rgb(129, 140, 248),
            accent_mid: ThemeColor::from_rgb(99, 102, 241),
            accent_strong: ThemeColor::from_rgb(79, 70, 229),
            accent_alt: ThemeColor::from_rgb(167, 139, 250),
            on_accent: ThemeColor::from_rgb(255, 255, 255),
            success: ThemeColor::from_rgb(52, 211, 153),
            success_border: ThemeColor::from_rgb(16, 185, 129),
            success_bg: ThemeColor::from_rgb(6, 78, 59),
            warning: ThemeColor::from_rgb(251, 191, 36),
            warning_border: ThemeColor::from_rgb(245, 158, 11),
            warning_bg: ThemeColor::from_rgb(120, 53, 4),
            danger: ThemeColor::from_rgb(248, 113, 113),
            danger_border: ThemeColor::from_rgb(239, 68, 68),
            danger_bg: ThemeColor::from_rgb(127, 29, 29),
            info: ThemeColor::from_rgb(96, 165, 250),
            info_border: ThemeColor::from_rgb(59, 130, 246),
            info_bg: ThemeColor::from_rgb(30, 58, 138),
            rose: ThemeColor::from_rgb(244, 63, 94),
            division_palette: palette,
        }
    }
}

/// The name a theme is listed under: its own, or `Unnamed`.
pub open spec fn spec_display_name(t: Theme) -> Seq<char> {
    match t.name {
        Some(n) => n@,
        None => "Unnamed"@,
    }
}

impl Theme {
    /// Display name for the switcher.
    pub fn display_name(&self) -> (r: String)
        ensures
            r@ == spec_display_name(*self),
    {
        match &self.name {
            Some(n) => n.clone(),
            None => string_from("Unnamed"),
        }
    }
}

/// A theme with the same name, colours and palette.
pub fn copy_theme(t: &Theme) -> (r: Theme)
    ensures
        theme_view(r) == theme_view(*t),
        spec_display_name(r) == spec_display_name(*t),
{
    let mut palette: Vec<ThemeColor> = Vec::new();
    let mut i: usize = 0;
    while i < t.division_palette.len()
        invariant
            i <= t.division_palette@.len(),
            palette@ == t.division_palette@.take(i as int),
        decreases t.division_palette.len() - i,
    {
        palette.push(t.division_palette[i]);
        i = i + 1;
        assert(palette@ =~= t.division_palette@.take(i as int));
    }
    assert(t.division_palette@.take(i as int) =~= t.division_palette@);
    let name = match &t.name {
        Some(n) => Some(n.clone()),
        None => None,
    };
    Theme {
        name,
        bg_base: t.bg_base,
        card_bg: t.card_bg,
        card_bg_alt: t.card_bg_alt,
        surface: t.surface,
        row_stripe: t.row_stripe,
        border: t.border,
        text: t.text,
        text_dim: t.text_dim,
        text_muted: t.text_muted,
        text_faint: t.text_faint,
        accent: t.accent,
        accent_mid: t.accent_mid,
        accent_strong: t.accent_strong,
        accent_alt: t.accent_alt,
        on_accent: t.on_accent,
        success: t.success,
        success_border: t.success_border,
        success_bg: t.success_bg,
        warning: t.warning,
        warning_border: t.warning_border,
        warning_bg: t.warning_bg,
        danger: t.danger,
        danger_border: t.danger_border,
        danger_bg: t.danger_bg,
        info: t.info,
        info_border: t.info_border,
        info_bg: t.info_bg,
        rose: t.rose,
        division_palette: palette,
    }
}

// ---------------------------------------------------------------------------
// The registry of themes
// ---------------------------------------------------------------------------

/// The active theme and the themes to choose from.
#[derive(Debug, Clone)]
pub struct ThemeRegistry {
    pub active: Theme,
    pub themes: Vec<Theme>,
}

impl Default for ThemeRegistry {
    /// The built-in theme, active and the only one listed.
    fn default() -> (r: Self)
        ensures
            r.themes@.len() == 1,
            theme_view(r.active) == theme_view(r.themes@[0]),
            spec_display_name(r.active) == "Default (Dark)"@,
    {
        let active = Theme::default();
        let listed = copy_theme(&active);
        let mut themes: Vec<Theme> = Vec::new();
        themes.push(listed);
        ThemeRegistry { active, themes }
    }
}

/// A theme listed under `name`.
pub open spec fn named(name: Seq<char>) -> spec_fn(Theme) -> bool {
    |t: Theme| spec_display_name(t) == name
}

/// The names the themes are listed under, in order.
pub open spec fn listed_names(themes: Seq<Theme>) -> Seq<Seq<char>> {
    Seq::new(themes.len(), |i: int| spec_display_name(themes[i]))
}

/// Position of the first theme listed under `name`.
fn find_named(themes: &Vec<Theme>, name: &str) -> (r: Option<usize>)
    ensures
        crate::lookup::as_index(r) == crate::lookup::first_where(themes@, named(name@)),
{
    let mut i: usize = 0;
    while i < themes.len()
        invariant
            i <= themes@.len(),
            forall|j: int| 0 <= j < i ==> !named(name@)(#[trigger] themes@[j]),
        decreases themes.len() - i,
    {
        let n = themes[i].display_name();
        if same_text(n.as_str(), name) {
            proof {
                crate::lookup::lemma_first_where_at(themes@, named(name@), i as int);
            }
            return Some(i);
        }
        i = i + 1;
    }
    proof {
        crate::lookup::lemma_first_where_none(themes@, named(name@));
    }
    None
}

/// Replaces the active theme.
pub fn set_active(registry: &mut ThemeRegistry, theme: Theme)
    ensures
        final(registry).active == theme,
        final(registry).themes == old(registry).themes,
{
    registry.active = theme;
}

/// Lists `themes` (as found on disk, the built-in one first) and activates
/// the first. Gives the name of the active theme.
pub fn init(registry: &mut ThemeRegistry, themes: Vec<Theme>) -> (r: String)
    requires
        themes@.len() > 0,
    ensures
        final(registry).themes@ == themes@,
        theme_view(final(registry).active) == theme_view(themes@[0]),
        r@ == spec_display_name(themes@[0]),
{
    let active_name = themes[0].display_name();
    set_active(registry, copy_theme(&themes[0]));
    registry.themes = themes;
    active_name
}

/// Lists `themes` anew, keeping the theme named `current` active if it is
/// still listed and otherwise activating the first. Gives the name of the
/// active theme.
pub fn reload(registry: &mut ThemeRegistry, current: &str, themes: Vec<Theme>) -> (r: String)
    requires
        themes@.len() > 0,
    ensures
        final(registry).themes@ == themes@,
        ({
            let k = match crate::lookup::first_where(themes@, named(current@)) {
                Some(i) => i,
                None => 0,
            };
            &&& theme_view(final(registry).active) == theme_view(themes@[k])
            &&& r@ == spec_display_name(themes@[k])
        }),
{
    proof {
        crate::lookup::lemma_first_where_found(themes@, named(current@));
    }
    let k = match find_named(&themes, current) {
        Some(i) => i,
        None => 0,
    };
    let name = themes[k].display_name();
    set_active(registry, copy_theme(&themes[k]));
    registry.themes = themes;
    name
}

/// Display names of all registered themes, in order.
pub fn names(registry: &ThemeRegistry) -> (r: Vec<String>)
    ensures
        crate::generation::string_views(r@) == listed_names(registry.themes@),
{
    let mut r: Vec<String> = Vec::new();
    let mut i: usize = 0;
    while i < registry.themes.len()
        invariant
            i <= registry.themes@.len(),
            crate::generation::string_views(r@) == listed_names(registry.themes@.take(i as int)),
        decreases registry.themes.len() - i,
    {
        let ghost before = r@;
        assert(crate::generation::string_views(r@).len() == r@.len());
        assert(listed_names(registry.themes@.take(i as int)).len() == i);
        assert(before.len() == i);
        let name = registry.themes[i].display_name();
        r.push(name);
        assert(r@ == before.push(name));
        proof {
            let old_names = listed_names(registry.themes@.take(i as int));
            let new_names = listed_names(registry.themes@.take(i + 1));
            assert forall|k: int| 0 <= k < i + 1 implies crate::generation::string_views(r@)[k] == new_names[k] by {
                if k < i {
                    assert(crate::generation::string_views(before)[k] == old_names[k]);
                    assert(r@[k] == before[k]);
                }
            }
        }
        i = i + 1;
        assert(crate::generation::string_views(r@) =~= listed_names(registry.themes@.take(i as int)));
    }
    assert(registry.themes@.take(i as int) =~= registry.themes@);
    r
}

/// Activates the first registered theme listed under `name`, if there is
/// one; says whether there was.
pub fn activate_by_name(registry: &mut ThemeRegistry, name: &str) -> (r: bool)
    ensures
        final(registry).themes == old(registry).themes,
        match crate::lookup::first_where(old(registry).themes@, named(name@)) {
            Some(i) => r && theme_view(final(registry).active) == theme_view(old(registry).themes@[i]),
            None => !r && final(registry).active == old(registry).active,
        },
{
    proof {
        crate::lookup::lemma_first_where_found(registry.themes@, named(name@));
    }
    match find_named(&registry.themes, name) {
        Some(i) => {
            let theme = copy_theme(&registry.themes[i]);
            set_active(registry, theme);
            true
        },
        None => false,
    }
}

/// `activate_by_name` accepts exactly the names that `names` lists, and the
/// theme it activates is listed under the name asked for.
pub proof fn lemma_activate_listed_name(themes: Seq<Theme>, name: Seq<char>)
    ensures
        crate::lookup::first_where(themes, named(name)) is Some <==> listed_names(themes).contains(name),
        crate::lookup::first_where(themes, named(name)) matches Some(i) ==> spec_display_name(themes[i]) == name,
{
    crate::lookup::lemma_first_where_found(themes, named(name));
    if listed_names(themes).contains(name) {
        let i = choose|i: int| 0 <= i < listed_names(themes).len() && listed_names(themes)[i] == name;
        assert(named(name)(themes[i]));
    }
    if let Some(i) = crate::lookup::first_where(themes, named(name)) {
        assert(listed_names(themes)[i] == name);
    }
}

/// `list` with each of `found` appended in turn unless a theme of the same
/// name is already there.
pub open spec fn unique_by_name(list: Seq<Theme>, found: Seq<Theme>) -> Seq<Theme>
    decreases found.len(),
{
    if found.len() == 0 {
        list
    } else if listed_names(unique_by_name(list, found.drop_last())).contains(spec_display_name(found.last())) {
        unique_by_name(list, found.drop_last())
    } else {
        unique_by_name(list, found.drop_last()).push(found.last())
    }
}

/// Drops each theme whose name an earlier one already has (the built-in
/// theme comes first, so a file cannot replace it).
pub fn dedup_by_name(themes: Vec<Theme>) -> (r: Vec<Theme>)
    ensures
        r@ == unique_by_name(Seq::empty(), themes@),
        forall|i: int, j: int| 0 <= i < j < r@.len() ==> spec_display_name(#[trigger] r@[i]) != spec_display_name(
            #[trigger] r@[j],
        ),
{
    let ghost all = themes@;
    let mut rest = themes;
    let mut kept: Vec<Theme> = Vec::new();
    let mut seen: Vec<String> = Vec::new();
    let n = rest.len();
    let mut i: usize = 0;
    while i < n
        invariant
            n == all.len(),
            i <= n,
            rest@ == all.skip(i as int),
            kept@ == unique_by_name(Seq::empty(), all.take(i as int)),
            crate::generation::string_views(seen@) == listed_names(kept@),
            forall|a: int, b: int| 0 <= a < b < kept@.len() ==> spec_display_name(#[trigger] kept@[a]) != spec_display_name(
                #[trigger] kept@[b],
            ),
        decreases n - i,
    {
        assert(rest@[0] == all[i as int]);
        let t = rest.remove(0);
        assert(rest@ =~= all.skip(i + 1));
        assert(all.take(i + 1).drop_last() =~= all.take(i as int));
        let name = t.display_name();
        let already = crate::lookup::contains_string(&seen, name.as_str());
        proof {
            let names_seq = listed_names(kept@);
            if already {
                let q = choose|q: int| 0 <= q < seen@.len() && (#[trigger] seen@[q])@ == name@;
                assert(crate::generation::string_views(seen@)[q] == name@);
                assert(names_seq[q] == name@);
            } else {
                assert forall|q: int| 0 <= q < names_seq.len() implies names_seq[q] != spec_display_name(t) by {
                    assert(crate::generation::string_views(seen@)[q] == seen@[q]@);
                }
            }
        }
        if !already {
            let ghost before = kept@;
            let ghost seen_before = seen@;
            assert(crate::generation::string_views(seen_before).len() == seen_before.len());
            assert(listed_names(before).len() == before.len());
            assert(seen_before.len() == before.len());
            kept.push(t);
            seen.push(name);
            assert(seen@ == seen_before.push(name));
            assert forall|k: int| 0 <= k < kept@.len() implies crate::generation::string_views(seen@)[k] == listed_names(kept@)[k] by {
                if k < before.len() {
                    assert(crate::generation::string_views(seen_before)[k] == listed_names(before)[k]);
                    assert(seen@[k] == seen_before[k]);
                    assert(kept@[k] == before[k]);
                }
            }
            assert(crate::generation::string_views(seen@) =~= listed_names(kept@));
            assert forall|a: int, b: int| 0 <= a < b < kept@.len() implies spec_display_name(#[trigger] kept@[a])
                != spec_display_name(#[trigger] kept@[b]) by {
                if b == kept@.len() - 1 {
                    assert(listed_names(before)[a] == spec_display_name(kept@[a]));
                }
            }
        }
        i = i + 1;
    }
    assert(all.take(n as int) =~= all);
    kept
}

// ---------------------------------------------------------------------------
// Division colours
// ---------------------------------------------------------------------------

/// The colour the Nth uncoloured division is drawn from: the theme's
/// division palette taken in turn, or indigo when it has none.
pub open spec fn spec_division_base(palette: Seq<ThemeColor>, index: nat) -> ThemeColor {
    if palette.len() == 0 {
        opaque(99, 102, 241)
    } else {
        palette[(index % palette.len()) as int]
    }
}

pub fn division_base_color(theme: &Theme, index: usize) -> (c: ThemeColor)
    ensures
        c == spec_division_base(theme.division_palette@, index as nat),
{
    if theme.division_palette.len() == 0 {
        ThemeColor::from_rgb(99, 102, 241)
    } else {
        theme.division_palette[index % theme.division_palette.len()]
    }
}

/// Where a division's schedule colour comes from.
#[derive(Debug, Clone, Copy)]
pub enum DivisionColor {
    /// The division's own colour.
    Explicit([u8; 3]),
    /// The theme's palette, at this position.
    Slot(usize),
}

/// A deterministic number for a division id no division has.
pub open spec fn name_hash(s: Seq<char>) -> u32
    decreases s.len(),
{
    if s.len() == 0 {
        0
    } else {
        vstd::wrapping::u32_specs::wrapping_mul(
            vstd::wrapping::u32_specs::wrapping_add(name_hash(s.drop_last()), s.last() as u32),
            31,
        )
    }
}

/// An id's own colour when its division has one; else the palette slot of
/// the division's position; else a slot from the id's hash.
pub open spec fn spec_color_source(div_id: Seq<char>, divisions: Seq<Division>) -> DivisionColor {
    match crate::lookup::first_where(divisions, crate::lookup::division_has_id(div_id)) {
        Some(i) => match divisions[i].color {
            Some(rgb) => DivisionColor::Explicit(rgb),
            None => DivisionColor::Slot(i as usize),
        },
        None => DivisionColor::Slot(name_hash(div_id) as usize),
    }
}

pub fn competition_color_source(div_id: &str, divisions: &Vec<Division>) -> (r: DivisionColor)
    ensures
        r == spec_color_source(div_id@, divisions@),
{
    match crate::lookup::find_division(divisions, div_id) {
        Some(i) => match divisions[i].color {
            Some(rgb) => DivisionColor::Explicit(rgb),
            None => DivisionColor::Slot(i),
        },
        None => {
            let v = chars_of(div_id);
            let mut h: u32 = 0;
            let mut k: usize = 0;
            while k < v.len()
                invariant
                    k <= v@.len(),
                    h == name_hash(v@.take(k as int)),
                decreases v.len() - k,
            {
                assert(v@.take(k + 1).drop_last() =~= v@.take(k as int));
                h = h.wrapping_add(v[k] as u32).wrapping_mul(31);
                k = k + 1;
            }
            assert(v@.take(v@.len() as int) =~= v@);
            DivisionColor::Slot(h as usize)
        },
    }
}

} // verus!
