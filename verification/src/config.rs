//! Settings: colours and their hex notation, the layer name, the defaults,
//! the colour overlay and where its file is looked for.
use vstd::prelude::*;

verus! {

/// A straight (not premultiplied) RGBA colour.
#[derive(Debug, Clone, Copy, PartialEq, Eq, Structural)]
pub struct Color {
    pub r: u8,
    pub g: u8,
    pub b: u8,
    pub a: u8,
}

/// Why a hex colour was refused.
#[derive(Debug, Clone, Copy, PartialEq, Eq, Structural)]
pub enum ColorError {
    /// Some character after the optional `#` is not a hex digit.
    NotHex,
    /// The digits are all hex, but there are neither 6 nor 8 of them.
    WrongLength,
}

pub open spec fn is_hex_digit(c: char) -> bool {
    ('0' <= c && c <= '9') || ('a' <= c && c <= 'f') || ('A' <= c && c <= 'F')
}

pub open spec fn hex_value(c: char) -> int {
    if '0' <= c && c <= '9' {
        c as int - '0' as int
    } else if 'a' <= c && c <= 'f' {
        c as int - 'a' as int + 10
    } else {
        c as int - 'A' as int + 10
    }
}

/// The digits of a hex colour: the text without one leading `#`, if it has one.
pub open spec fn hex_digits(text: Seq<char>) -> Seq<char> {
    if text.len() > 0 && text[0] == '#' {
        text.drop_first()
    } else {
        text
    }
}

/// The byte written by the two hex digits at `i` and `i + 1`.
pub open spec fn hex_byte(digits: Seq<char>, i: int) -> int {
    hex_value(digits[i]) * 16 + hex_value(digits[i + 1])
}

/// What `#rrggbb`, `#rrggbbaa` (the `#` optional) denotes; alpha defaults to opaque.
pub open spec fn parsed_color(text: Seq<char>) -> Result<Color, ColorError> {
    let d = hex_digits(text);
    if !(forall|i: int| 0 <= i < d.len() ==> is_hex_digit(#[trigger] d[i])) {
        Err(ColorError::NotHex)
    } else if d.len() == 6 {
        Ok(
            Color {
                r: hex_byte(d, 0) as u8,
                g: hex_byte(d, 2) as u8,
                b: hex_byte(d, 4) as u8,
                a: 255,
            },
        )
    } else if d.len() == 8 {
        Ok(
            Color {
                r: hex_byte(d, 0) as u8,
                g: hex_byte(d, 2) as u8,
                b: hex_byte(d, 4) as u8,
                a: hex_byte(d, 6) as u8,
            },
        )
    } else {
        Err(ColorError::WrongLength)
    }
}

/// A colour channel scaled by alpha, rounded to nearest: `(c * a + 127) / 255`.
pub open spec fn premultiplied(c: u8, a: u8) -> int {
    (c as int * a as int + 127) / 255
}

fn hex_digit_value(c: char) -> (v: Option<u8>)
    ensures
        v is Some <==> is_hex_digit(c),
        v is Some ==> v->0 == hex_value(c) && v->0 < 16,
{
    if '0' <= c && c <= '9' {
        Some((c as u32 - '0' as u32) as u8)
    } else if 'a' <= c && c <= 'f' {
        Some((c as u32 - 'a' as u32 + 10) as u8)
    } else if 'A' <= c && c <= 'F' {
        Some((c as u32 - 'A' as u32 + 10) as u8)
    } else {
        None
    }
}

impl Color {
    pub fn rgba(r: u8, g: u8, b: u8, a: u8) -> (c: Self)
        ensures
            c == (Color { r, g, b, a }),
    {
        Self { r, g, b, a }
    }

    pub fn is_transparent(self) -> (t: bool)
        ensures
            t <==> self.a == 0,
    {
        self.a == 0
    }

    /// Parses `#rrggbb` or `#rrggbbaa`, the `#` optional, alpha defaulting to `ff`.
    pub fn from_hex(text: &str) -> (c: Result<Self, ColorError>)
        ensures
            c == parsed_color(text@),
    {
        let n = text.unicode_len();
        let start: usize = if n > 0 && text.get_char(0) == '#' {
            1
        } else {
            0
        };
        let ghost digits = hex_digits(text@);
        assert(digits =~= text@.subrange(start as int, n as int));
        let mut values: Vec<u8> = Vec::new();
        let mut i: usize = start;
        while i < n
            invariant
                start <= i <= n,
                n == text@.len(),
                digits == text@.subrange(start as int, n as int),
                digits == hex_digits(text@),
                values@.len() == i - start,
                forall|j: int| 0 <= j < i - start ==> is_hex_digit(#[trigger] digits[j]),
                forall|j: int|
                    0 <= j < i - start ==> #[trigger] values@[j] as int == hex_value(digits[j]),
                forall|j: int| 0 <= j < i - start ==> #[trigger] values@[j] < 16,
            decreases n - i,
        {
            let c = text.get_char(i);
            assert(digits[i - start] == c);
            match hex_digit_value(c) {
                Some(v) => values.push(v),
                None => {
                    assert(!is_hex_digit(digits[i - start]));
                    assert(!(forall|j: int| 0 <= j < digits.len() ==> is_hex_digit(#[trigger] digits[j])));
                    return Err(ColorError::NotHex);
                },
            }
            i = i + 1;
        }
        let len = n - start;
        if len == 6 || len == 8 {
            let r = values[0] * 16 + values[1];
            let g = values[2] * 16 + values[3];
            let b = values[4] * 16 + values[5];
            let a = if len == 8 {
                values[6] * 16 + values[7]
            } else {
                255
            };
            Ok(Self { r, g, b, a })
        } else {
            Err(ColorError::WrongLength)
        }
    }

    /// The colour as one `Argb8888` pixel in memory order (blue, green, red,
    /// alpha), with the colour channels premultiplied by alpha.
    pub fn to_argb8888(self) -> (px: [u8; 4])
        ensures
            px@ == seq![
                premultiplied(self.b, self.a) as u8,
                premultiplied(self.g, self.a) as u8,
                premultiplied(self.r, self.a) as u8,
                self.a,
            ],
            forall|i: int| 0 <= i < 3 ==> #[trigger] px@[i] <= self.a,
    {
        [
            premultiply(self.b, self.a),
            premultiply(self.g, self.a),
            premultiply(self.r, self.a),
            self.a,
        ]
    }
}

fn premultiply(c: u8, a: u8) -> (p: u8)
    ensures
        p == premultiplied(c, a),
        p <= a,
{
    proof {
        assert(c as int * a as int <= 255 * a as int) by (nonlinear_arith)
            requires c <= 255, a >= 0;
    }
    ((c as u32 * a as u32 + 127) / 255) as u8
}


/// Which layer-shell layer the surfaces live on.
#[derive(Debug, Clone, Copy, PartialEq, Eq, Structural)]
pub enum Layer {
    Background,
    Bottom,
    Top,
    Overlay,
}

/// The layer a configuration name stands for.
pub open spec fn layer_named(name: Seq<char>) -> Option<Layer> {
    if name == "background"@ {
        Some(Layer::Background)
    } else if name == "bottom"@ {
        Some(Layer::Bottom)
    } else if name == "top"@ {
        Some(Layer::Top)
    } else if name == "overlay"@ {
        Some(Layer::Overlay)
    } else {
        None
    }
}

fn same_text(a: &str, b: &str) -> (same: bool)
    ensures
        same == (a@ == b@),
{
    let n = a.unicode_len();
    if n != b.unicode_len() {
        return false;
    }
    let mut i: usize = 0;
    while i < n
        invariant
            i <= n,
            n == a@.len(),
            n == b@.len(),
            forall|j: int| 0 <= j < i ==> a@[j] == b@[j],
        decreases n - i,
    {
        if a.get_char(i) != b.get_char(i) {
            return false;
        }
        i = i + 1;
    }
    assert(a@ =~= b@);
    true
}

impl Layer {
    /// The layer named `background`, `bottom`, `top` or `overlay`.
    pub fn from_name(name: &str) -> (layer: Option<Layer>)
        ensures
            layer == layer_named(name@),
    {
        if same_text(name, "background") {
            Some(Layer::Background)
        } else if same_text(name, "bottom") {
            Some(Layer::Bottom)
        } else if same_text(name, "top") {
            Some(Layer::Top)
        } else if same_text(name, "overlay") {
            Some(Layer::Overlay)
        } else {
            None
        }
    }
}

/// The settings the drawing and the drag read.
#[derive(Debug, Clone)]
pub struct Config {
    pub fill: Color,
    pub border: Color,
    pub border_width: u32,
    pub corner_radius: u32,
    pub layer: Layer,
    /// How far the pointer must travel before a press counts as a drag, in
    /// 1/256 pixel steps.
    pub drag_threshold: u32,
    pub blur: bool,
    /// Where the colour overlay file is, relative to the configuration's directory.
    pub colors: Option<String>,
}

/// The colours a colour overlay file may carry; each one it leaves out stays as configured.
#[derive(Debug, Clone, Copy)]
pub struct Colors {
    pub fill: Option<Color>,
    pub border: Option<Color>,
}

impl Colors {
    pub fn new(fill: Option<Color>, border: Option<Color>) -> (c: Self)
        ensures
            c.fill == fill,
            c.border == border,
    {
        Self { fill, border }
    }
}

/// The default fill: a light blue at quarter opacity.
pub open spec fn default_fill() -> Color {
    Color { r: 0x4c, g: 0x9e, b: 0xd9, a: 0x40 }
}

/// The default outline: the same blue, mostly opaque.
pub open spec fn default_border() -> Color {
    Color { r: 0x4c, g: 0x9e, b: 0xd9, a: 0xcc }
}

/// Whether a configuration holds every default value.
pub open spec fn is_default_config(c: Config) -> bool {
    &&& c.fill == default_fill()
    &&& c.border == default_border()
    &&& c.border_width == 1
    &&& c.corner_radius == 0
    &&& c.layer == Layer::Bottom
    &&& c.drag_threshold == 3 * 256
    &&& !c.blur
    &&& c.colors is None
}

impl Default for Config {
    fn default() -> (c: Self)
        ensures
            is_default_config(c),
    {
        Self {
            fill: Color::rgba(0x4c, 0x9e, 0xd9, 0x40),
            border: Color::rgba(0x4c, 0x9e, 0xd9, 0xcc),
            border_width: 1,
            corner_radius: 0,
            layer: Layer::Bottom,
            drag_threshold: 3 * 256,
            blur: false,
            colors: None,
        }
    }
}

impl Config {
    /// Lays a colour overlay over the configuration: each colour it carries
    /// replaces the configured one, everything else stays.
    pub fn apply_colors(&mut self, colors: Colors)
        ensures
            final(self).fill == (match colors.fill {
                Some(c) => c,
                None => old(self).fill,
            }),
            final(self).border == (match colors.border {
                Some(c) => c,
                None => old(self).border,
            }),
            final(self).border_width == old(self).border_width,
            final(self).corner_radius == old(self).corner_radius,
            final(self).layer == old(self).layer,
            final(self).drag_threshold == old(self).drag_threshold,
            final(self).blur == old(self).blur,
            final(self).colors == old(self).colors,
    {
        if let Some(fill) = colors.fill {
            self.fill = fill;
        }
        if let Some(border) = colors.border {
            self.border = border;
        }
    }
}

/// What `Path::strip_prefix("~")` leaves of a path (whole components only),
/// if the path starts with the component `~`.
pub uninterp spec fn home_relative_part(path: Seq<char>) -> Option<Seq<char>>;

/// What `Path::join` makes of a base path and a path to push onto it, on
/// Unix: an absolute `rest` replaces the base; otherwise `rest` is appended,
/// after a `/` unless the base is empty or already ends in one.
pub open spec fn joined_path(base: Seq<char>, rest: Seq<char>) -> Seq<char> {
    if is_absolute_path(rest) {
        rest
    } else if base.len() == 0 || base.last() == '/' {
        base + rest
    } else {
        base + seq!['/'] + rest
    }
}

/// Calls `std::path::Path::strip_prefix` with the prefix `~`; the contract
/// says only that the result is what that function gives for this path,
/// rendered back as text (lossless, since the path came from text).
#[verifier::external_body]
fn strip_home_prefix(path: &str) -> (rest: Option<String>)
    ensures
        match rest {
            Some(r) => home_relative_part(path@) == Some(r@),
            None => home_relative_part(path@) is None,
        },
{
    match std::path::Path::new(path).strip_prefix("~") {
        Ok(rest) => Some(rest.to_string_lossy().into_owned()),
        Err(_) => None,
    }
}

/// Calls `std::path::Path::join` and renders the result back as text
/// (lossless, since both paths came from text). The contract states the Unix
/// joining rule: an absolute path replaces the base, anything else is pushed
/// onto it with one separator between them.
#[verifier::external_body]
fn join_paths(base: &str, rest: &str) -> (joined: String)
    ensures
        joined@ == joined_path(base@, rest@),
{
    std::path::Path::new(base).join(rest).to_string_lossy().into_owned()
}

/// A Unix path is absolute when it starts at the root.
pub open spec fn is_absolute_path(path: Seq<char>) -> bool {
    path.len() > 0 && path[0] == '/'
}

fn is_absolute(path: &str) -> (absolute: bool)
    ensures
        absolute == is_absolute_path(path@),
{
    path.unicode_len() > 0 && path.get_char(0) == '/'
}

/// Where a configured path points: a leading `~` component goes to the home
/// directory when one is known, and a relative result is taken relative to `base`.
pub open spec fn resolved_path(path: Seq<char>, base: Seq<char>, home: Option<Seq<char>>) -> Seq<
    char,
> {
    let expanded = match (home_relative_part(path), home) {
        (Some(rest), Some(h)) => joined_path(h, rest),
        _ => path,
    };
    if is_absolute_path(expanded) {
        expanded
    } else {
        joined_path(base, expanded)
    }
}

/// Resolves a configured path against the directory that holds the
/// configuration, expanding a leading `~` when the home directory is known.
pub fn resolve_path(path: &str, base: &str, home: Option<&str>) -> (resolved: String)
    ensures
        resolved@ == resolved_path(
            path@,
            base@,
            match home {
                Some(h) => Some(h@),
                None => None,
            },
        ),
{
    let expanded = match (strip_home_prefix(path), home) {
        (Some(rest), Some(h)) => join_paths(h, rest.as_str()),
        _ => String::from_str(path),
    };
    if is_absolute(expanded.as_str()) {
        expanded
    } else {
        join_paths(base, expanded.as_str())
    }
}


/// Where the configuration lives: `selector/config.toml` under
/// `XDG_CONFIG_HOME` when that is set and not empty, else under
/// `HOME/.config`, else nowhere.
pub open spec fn config_location(xdg_config_home: Option<Seq<char>>, home: Option<Seq<char>>) -> Option<
    Seq<char>,
> {
    if xdg_config_home is Some && xdg_config_home->0.len() > 0 {
        Some(joined_path(xdg_config_home->0, "selector/config.toml"@))
    } else {
        match home {
            Some(h) => Some(joined_path(joined_path(h, ".config"@), "selector/config.toml"@)),
            None => None,
        }
    }
}

pub open spec fn text_view(text: Option<&str>) -> Option<Seq<char>> {
    match text {
        Some(t) => Some(t@),
        None => None,
    }
}

/// The configuration file's path, given the values of `XDG_CONFIG_HOME` and `HOME`.
pub fn config_path_from(xdg_config_home: Option<&str>, home: Option<&str>) -> (path: Option<String>)
    ensures
        match path {
            Some(p) => config_location(text_view(xdg_config_home), text_view(home)) == Some(p@),
            None => config_location(text_view(xdg_config_home), text_view(home)) is None,
        },
{
    if let Some(dir) = xdg_config_home {
        if dir.unicode_len() > 0 {
            return Some(join_paths(dir, "selector/config.toml"));
        }
    }
    match home {
        Some(h) => {
            let config_dir = join_paths(h, ".config");
            Some(join_paths(config_dir.as_str(), "selector/config.toml"))
        },
        None => None,
    }
}

/// Premultiplying leaves an opaque colour as it is and clears a fully
/// transparent one.
pub proof fn lemma_premultiply_bounds(c: u8, a: u8)
    ensures
        a == 255 ==> premultiplied(c, a) == c,
        a == 0 ==> premultiplied(c, a) == 0,
        premultiplied(c, a) <= a,
{
    assert(c as int * a as int <= 255 * a as int) by (nonlinear_arith)
        requires c <= 255, a >= 0;
}

} // verus!
