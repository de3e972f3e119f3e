//! Text styles: colours, attributes, and the SGR codes that select them.
use vstd::prelude::*;
use crate::text;

verus! {

// ---------------------------------------------------------------------------
// Types
// ---------------------------------------------------------------------------

/// A terminal colour.
#[derive(Clone, Copy, Debug, PartialEq, Eq, Structural)]
pub enum Color {
    Reset,
    Black,
    DarkGrey,
    Red,
    DarkRed,
    Green,
    DarkGreen,
    Yellow,
    DarkYellow,
    Blue,
    DarkBlue,
    Magenta,
    DarkMagenta,
    Cyan,
    DarkCyan,
    White,
    Grey,
    Rgb { r: u8, g: u8, b: u8 },
    AnsiValue(u8),
}

/// A terminal text attribute.
#[derive(Clone, Copy, Debug, PartialEq, Eq, Structural)]
pub enum Attribute {
    Reset,
    Bold,
    Dim,
    Italic,
    Underlined,
    SlowBlink,
    RapidBlink,
    Reverse,
    NoReverse,
    Hidden,
    CrossedOut,
}

#[derive(Clone, Copy, Debug, PartialEq, Eq, Structural)]
pub struct TextAttributes {
    pub bold: bool,
    pub dim: bool,
    pub italic: bool,
    pub underlined: bool,
    pub slow_blink: bool,
    pub rapid_blink: bool,
    pub reversed: bool,
    pub hidden: bool,
    pub crossed_out: bool,
}

#[derive(Clone, Copy, Debug, PartialEq, Eq, Structural)]
pub struct AnsiStyle {
    pub fg: Option<Color>,
    pub bg: Option<Color>,
    pub attributes: TextAttributes,
}

// ---------------------------------------------------------------------------
// Attributes
// ---------------------------------------------------------------------------

/// No attribute set.
pub open spec fn no_attributes() -> TextAttributes {
    TextAttributes {
        bold: false,
        dim: false,
        italic: false,
        underlined: false,
        slow_blink: false,
        rapid_blink: false,
        reversed: false,
        hidden: false,
        crossed_out: false,
    }
}

/// The style of unstyled text.
pub open spec fn plain_style() -> AnsiStyle {
    AnsiStyle { fg: None, bg: None, attributes: no_attributes() }
}

/// `attribute` if it is set.
pub open spec fn listed(set: bool, attribute: Attribute) -> Seq<Attribute> {
    if set {
        seq![attribute]
    } else {
        seq![]
    }
}

/// The attributes that are set, in a fixed order.
pub open spec fn attributes_set(a: TextAttributes) -> Seq<Attribute> {
    listed(a.bold, Attribute::Bold) + listed(a.dim, Attribute::Dim) + listed(
        a.italic,
        Attribute::Italic,
    ) + listed(a.underlined, Attribute::Underlined) + listed(a.slow_blink, Attribute::SlowBlink)
        + listed(a.rapid_blink, Attribute::RapidBlink) + listed(a.reversed, Attribute::Reverse)
        + listed(a.hidden, Attribute::Hidden) + listed(a.crossed_out, Attribute::CrossedOut)
}

fn list_if(out: &mut Vec<Attribute>, set: bool, attribute: Attribute)
    ensures
        final(out)@ == old(out)@ + listed(set, attribute),
{
    if set {
        out.push(attribute);
    }
    assert(out@ =~= old(out)@ + listed(set, attribute));
}

impl TextAttributes {
    /// No attribute set.
    pub fn none() -> (r: Self)
        ensures
            r == no_attributes(),
    {
        TextAttributes {
            bold: false,
            dim: false,
            italic: false,
            underlined: false,
            slow_blink: false,
            rapid_blink: false,
            reversed: false,
            hidden: false,
            crossed_out: false,
        }
    }

    pub fn reset(&mut self)
        ensures
            *final(self) == no_attributes(),
    {
        *self = TextAttributes::none();
    }

    /// The attributes that are set, in a fixed order.
    pub fn attribute_list(&self) -> (r: Vec<Attribute>)
        ensures
            r@ == attributes_set(*self),
    {
        let mut attrs: Vec<Attribute> = Vec::new();
        list_if(&mut attrs, self.bold, Attribute::Bold);
        list_if(&mut attrs, self.dim, Attribute::Dim);
        list_if(&mut attrs, self.italic, Attribute::Italic);
        list_if(&mut attrs, self.underlined, Attribute::Underlined);
        list_if(&mut attrs, self.slow_blink, Attribute::SlowBlink);
        list_if(&mut attrs, self.rapid_blink, Attribute::RapidBlink);
        list_if(&mut attrs, self.reversed, Attribute::Reverse);
        list_if(&mut attrs, self.hidden, Attribute::Hidden);
        list_if(&mut attrs, self.crossed_out, Attribute::CrossedOut);
        assert(attrs@ =~= attributes_set(*self));
        attrs
    }
}

// ---------------------------------------------------------------------------
// Derived styles
// ---------------------------------------------------------------------------

/// A style with other colours, and bold if `emphasize` says so.
pub open spec fn highlighted(s: AnsiStyle, fg: Color, bg: Color, emphasize: bool) -> AnsiStyle {
    AnsiStyle {
        fg: Some(fg),
        bg: Some(bg),
        attributes: TextAttributes { bold: s.attributes.bold || emphasize, ..s.attributes },
    }
}

/// The style of a link: underlined, white on blue if it is focused, else blue on grey if it is
/// hovered, else blue.
pub open spec fn link_styled(s: AnsiStyle, focused: bool, hovered: bool) -> AnsiStyle {
    AnsiStyle {
        fg: Some(
            if focused {
                Color::White
            } else {
                Color::Blue
            },
        ),
        bg: if focused {
            Some(Color::Blue)
        } else if hovered {
            Some(Color::Grey)
        } else {
            None
        },
        attributes: TextAttributes { underlined: true, ..s.attributes },
    }
}

impl AnsiStyle {
    /// The style of unstyled text.
    pub fn plain() -> (r: Self)
        ensures
            r == plain_style(),
    {
        AnsiStyle { fg: None, bg: None, attributes: TextAttributes::none() }
    }

    pub fn with_highlight(&self, fg: Color, bg: Color, emphasize: bool) -> (r: Self)
        ensures
            r == highlighted(*self, fg, bg, emphasize),
    {
        let mut style = *self;
        style.fg = Some(fg);
        style.bg = Some(bg);
        if emphasize {
            style.attributes.bold = true;
        }
        style
    }

    pub fn with_link_style(&self, focused: bool, hovered: bool) -> (r: Self)
        ensures
            r == link_styled(*self, focused, hovered),
    {
        let mut style = *self;
        style.attributes.underlined = true;
        if focused {
            style.fg = Some(Color::White);
            style.bg = Some(Color::Blue);
        } else if hovered {
            style.fg = Some(Color::Blue);
            style.bg = Some(Color::Grey);
        } else {
            style.fg = Some(Color::Blue);
            style.bg = None;
        }
        style
    }
}

// ---------------------------------------------------------------------------
// SGR codes
// ---------------------------------------------------------------------------

/// The colour with number `index` among the eight basic colours, or their bright variants.
pub open spec fn basic_color(index: int, bright: bool) -> Color {
    if bright {
        if index == 0 {
            Color::DarkGrey
        } else if index == 1 {
            Color::Red
        } else if index == 2 {
            Color::Green
        } else if index == 3 {
            Color::Yellow
        } else if index == 4 {
            Color::Blue
        } else if index == 5 {
            Color::Magenta
        } else if index == 6 {
            Color::Cyan
        } else if index == 7 {
            Color::White
        } else {
            Color::Reset
        }
    } else {
        if index == 0 {
            Color::Black
        } else if index == 1 {
            Color::DarkRed
        } else if index == 2 {
            Color::DarkGreen
        } else if index == 3 {
            Color::DarkYellow
        } else if index == 4 {
            Color::DarkBlue
        } else if index == 5 {
            Color::DarkMagenta
        } else if index == 6 {
            Color::DarkCyan
        } else if index == 7 {
            Color::Grey
        } else {
            Color::Reset
        }
    }
}

/// The numbers in a list of parameters; entries that are no numbers are left out.
pub open spec fn numbers_in(parts: Seq<Seq<u8>>) -> Seq<i64>
    decreases parts.len(),
{
    if parts.len() == 0 {
        seq![]
    } else {
        match text::parse_signed(parts.last()) {
            Some(v) => numbers_in(parts.drop_last()).push(v as i64),
            None => numbers_in(parts.drop_last()),
        }
    }
}

/// The codes in an SGR parameter string; a string without any means code 0.
pub open spec fn sgr_codes(params: Seq<u8>) -> Seq<i64> {
    let numbers = numbers_in(text::split(params, 0x3b));
    if params.len() == 0 || numbers.len() == 0 {
        seq![0i64]
    } else {
        numbers
    }
}

/// A colour component, brought into the range of a byte.
pub open spec fn component(codes: Seq<i64>, i: int) -> u8 {
    if 0 <= i < codes.len() {
        if codes[i] < 0 {
            0
        } else if codes[i] > 255 {
            255
        } else {
            codes[i] as u8
        }
    } else {
        0
    }
}

/// The extended colour whose description starts at `i`: `5` and a palette index (taken modulo
/// 256), or `2` and three components; a missing component is 0.
pub open spec fn extended_color(codes: Seq<i64>, i: int) -> Option<Color> {
    if i >= codes.len() {
        None
    } else if codes[i] == 5 {
        if i + 1 < codes.len() {
            Some(Color::AnsiValue(codes[i + 1] as u8))
        } else {
            None
        }
    } else if codes[i] == 2 {
        Some(
            Color::Rgb {
                r: component(codes, i + 1),
                g: component(codes, i + 2),
                b: component(codes, i + 3),
            },
        )
    } else {
        None
    }
}

/// Where the description of an extended colour that starts at `i` ends.
pub open spec fn extended_end(codes: Seq<i64>, i: int) -> int {
    let end = if i >= codes.len() {
        i
    } else if codes[i] == 5 {
        i + 2
    } else if codes[i] == 2 {
        i + 4
    } else {
        i + 1
    };
    if end <= codes.len() {
        end
    } else {
        codes.len() as int
    }
}

/// What a code below 30 does to the attributes.
pub open spec fn attribute_applied(a: TextAttributes, code: i64) -> TextAttributes {
    if code == 0 {
        no_attributes()
    } else if code == 1 || code == 21 {
        TextAttributes { bold: true, ..a }
    } else if code == 2 {
        TextAttributes { dim: true, ..a }
    } else if code == 3 {
        TextAttributes { italic: true, ..a }
    } else if code == 4 {
        TextAttributes { underlined: true, ..a }
    } else if code == 5 {
        TextAttributes { slow_blink: true, ..a }
    } else if code == 6 {
        TextAttributes { rapid_blink: true, ..a }
    } else if code == 7 {
        TextAttributes { reversed: true, ..a }
    } else if code == 8 {
        TextAttributes { hidden: true, ..a }
    } else if code == 9 {
        TextAttributes { crossed_out: true, ..a }
    } else if code == 22 {
        TextAttributes { bold: false, dim: false, ..a }
    } else if code == 23 {
        TextAttributes { italic: false, ..a }
    } else if code == 24 {
        TextAttributes { underlined: false, ..a }
    } else if code == 25 {
        TextAttributes { slow_blink: false, rapid_blink: false, ..a }
    } else if code == 27 {
        TextAttributes { reversed: false, ..a }
    } else if code == 28 {
        TextAttributes { hidden: false, ..a }
    } else if code == 29 {
        TextAttributes { crossed_out: false, ..a }
    } else {
        a
    }
}

/// The foreground colour after a code other than 38.
pub open spec fn foreground_applied(fg: Option<Color>, code: i64) -> Option<Color> {
    if code == 0 || code == 39 {
        None
    } else if 30 <= code <= 37 {
        Some(basic_color(code - 30, false))
    } else if 90 <= code <= 97 {
        Some(basic_color(code - 90, true))
    } else {
        fg
    }
}

/// The background colour after a code other than 48.
pub open spec fn background_applied(bg: Option<Color>, code: i64) -> Option<Color> {
    if code == 0 || code == 49 {
        None
    } else if 40 <= code <= 47 {
        Some(basic_color(code - 40, false))
    } else if 100 <= code <= 107 {
        Some(basic_color(code - 100, true))
    } else {
        bg
    }
}

/// What a single code other than 38 and 48 does to a style.
pub open spec fn code_applied(s: AnsiStyle, code: i64) -> AnsiStyle {
    AnsiStyle {
        fg: foreground_applied(s.fg, code),
        bg: background_applied(s.bg, code),
        attributes: attribute_applied(s.attributes, code),
    }
}

/// A style with an extended colour put in, if there is one.
pub open spec fn with_extended(s: AnsiStyle, color: Option<Color>, is_fg: bool) -> AnsiStyle {
    match color {
        Some(c) => if is_fg {
            AnsiStyle { fg: Some(c), ..s }
        } else {
            AnsiStyle { bg: Some(c), ..s }
        },
        None => s,
    }
}

/// What the codes from `i` on do to a style.
pub open spec fn codes_applied(s: AnsiStyle, codes: Seq<i64>, i: int) -> AnsiStyle
    decreases codes.len() - i,
{
    if i < 0 || i >= codes.len() {
        s
    } else if codes[i] == 38 || codes[i] == 48 {
        codes_applied(
            with_extended(s, extended_color(codes, i + 1), codes[i] == 38),
            codes,
            extended_end(codes, i + 1),
        )
    } else {
        codes_applied(code_applied(s, codes[i]), codes, i + 1)
    }
}

/// What an SGR sequence with the given parameter string does to a style.
pub open spec fn sgr_applied(s: AnsiStyle, params: Seq<u8>) -> AnsiStyle {
    codes_applied(s, sgr_codes(params), 0)
}

/// The colour with number `index` among the eight basic colours, or their bright variants.
pub fn map_basic_color(index: u8, bright: bool) -> (r: Color)
    ensures
        r == basic_color(index as int, bright),
{
    match (index, bright) {
        (0, false) => Color::Black,
        (1, false) => Color::DarkRed,
        (2, false) => Color::DarkGreen,
        (3, false) => Color::DarkYellow,
        (4, false) => Color::DarkBlue,
        (5, false) => Color::DarkMagenta,
        (6, false) => Color::DarkCyan,
        (7, false) => Color::Grey,
        (0, true) => Color::DarkGrey,
        (1, true) => Color::Red,
        (2, true) => Color::Green,
        (3, true) => Color::Yellow,
        (4, true) => Color::Blue,
        (5, true) => Color::Magenta,
        (6, true) => Color::Cyan,
        (7, true) => Color::White,
        _ => Color::Reset,
    }
}

/// The codes in an SGR parameter string.
fn parse_codes(params: &[u8]) -> (r: Vec<i64>)
    ensures
        r@ == sgr_codes(params@),
{
    let parts = text::split_bytes(params, 0x3b);
    let ghost all = text::split(params@, 0x3b);
    assert(all.len() == parts@.len());
    let mut numbers: Vec<i64> = Vec::new();
    let mut i: usize = 0;
    assert(all.subrange(0, 0).len() == 0);
    while i < parts.len()
        invariant
            i <= parts@.len(),
            all == text::byte_lists(parts@),
            numbers@ == numbers_in(all.subrange(0, i as int)),
        decreases parts.len() - i,
    {
        assert(all.subrange(0, i + 1).drop_last() =~= all.subrange(0, i as int));
        assert(all.subrange(0, i + 1).last() == parts@[i as int]@);
        if let Some(v) = text::parse_i64(parts[i].as_slice()) {
            numbers.push(v);
        }
        i += 1;
    }
    assert(all.subrange(0, i as int) =~= all);
    if params.len() == 0 || numbers.len() == 0 {
        let mut zero: Vec<i64> = Vec::new();
        zero.push(0);
        assert(zero@ =~= seq![0i64]);
        zero
    } else {
        numbers
    }
}

fn color_component(codes: &Vec<i64>, i: usize) -> (r: u8)
    ensures
        r == component(codes@, i as int),
{
    if i < codes.len() {
        let v: i64 = codes[i];
        if v < 0 {
            0
        } else if v > 255 {
            255
        } else {
            v as u8
        }
    } else {
        0
    }
}

/// Reads an extended colour whose description starts at `i`, and where it ends.
fn parse_extended_color(codes: &Vec<i64>, i: usize) -> (r: (Option<Color>, usize))
    requires
        i <= codes@.len(),
    ensures
        r.0 == extended_color(codes@, i as int),
        r.1 == extended_end(codes@, i as int),
        i <= r.1 <= codes@.len(),
{
    let n: usize = codes.len();
    if i >= n {
        return (None, n);
    }
    if codes[i] == 5 {
        if n - i > 1 {
            let v: i64 = codes[i + 1];
            (Some(Color::AnsiValue(#[verifier::truncate] (v as u8))), i + 2)
        } else {
            (None, n)
        }
    } else if codes[i] == 2 {
        let color = if n - i > 3 {
            Color::Rgb {
                r: color_component(codes, i + 1),
                g: color_component(codes, i + 2),
                b: color_component(codes, i + 3),
            }
        } else if n - i > 2 {
            Color::Rgb {
                r: color_component(codes, i + 1),
                g: color_component(codes, i + 2),
                b: 0,
            }
        } else if n - i > 1 {
            Color::Rgb { r: color_component(codes, i + 1), g: 0, b: 0 }
        } else {
            Color::Rgb { r: 0, g: 0, b: 0 }
        };
        (
            Some(color),
            if n - i >= 4 {
                i + 4
            } else {
                n
            },
        )
    } else {
        (None, i + 1)
    }
}

/// What a code does to the attributes.
fn apply_attribute(a: TextAttributes, code: i64) -> (r: TextAttributes)
    ensures
        r == attribute_applied(a, code),
{
    let mut a = a;
    match code {
        0 => a.reset(),
        1 | 21 => a.bold = true,
        2 => a.dim = true,
        3 => a.italic = true,
        4 => a.underlined = true,
        5 => a.slow_blink = true,
        6 => a.rapid_blink = true,
        7 => a.reversed = true,
        8 => a.hidden = true,
        9 => a.crossed_out = true,
        22 => {
            a.bold = false;
            a.dim = false;
        },
        23 => a.italic = false,
        24 => a.underlined = false,
        25 => {
            a.slow_blink = false;
            a.rapid_blink = false;
        },
        27 => a.reversed = false,
        28 => a.hidden = false,
        29 => a.crossed_out = false,
        _ => {},
    }
    a
}

/// Applies a single code other than 38 and 48.
fn apply_code(style: &mut AnsiStyle, code: i64)
    ensures
        *final(style) == code_applied(*old(style), code),
{
    style.attributes = apply_attribute(style.attributes, code);
    if code == 0 || code == 39 {
        style.fg = None;
    } else if 30 <= code && code <= 37 {
        style.fg = Some(map_basic_color((code - 30) as u8, false));
    } else if 90 <= code && code <= 97 {
        style.fg = Some(map_basic_color((code - 90) as u8, true));
    }
    if code == 0 || code == 49 {
        style.bg = None;
    } else if 40 <= code && code <= 47 {
        style.bg = Some(map_basic_color((code - 40) as u8, false));
    } else if 100 <= code && code <= 107 {
        style.bg = Some(map_basic_color((code - 100) as u8, true));
    }
}

/// Puts in an extended colour, if there is one.
fn apply_extended_color(style: &mut AnsiStyle, color: Option<Color>, is_fg: bool)
    ensures
        *final(style) == with_extended(*old(style), color, is_fg),
{
    if let Some(c) = color {
        if is_fg {
            style.fg = Some(c);
        } else {
            style.bg = Some(c);
        }
    }
}

/// Applies an SGR sequence with the given parameter string.
pub fn apply_sgr(params: &[u8], style: &mut AnsiStyle)
    ensures
        *final(style) == sgr_applied(*old(style), params@),
{
    let codes = parse_codes(params);
    let n: usize = codes.len();
    let mut i: usize = 0;
    while i < n
        invariant
            n == codes@.len(),
            i <= n,
            codes@ == sgr_codes(params@),
            codes_applied(*style, codes@, i as int) == sgr_applied(*old(style), params@),
        decreases n - i,
    {
        let code: i64 = codes[i];
        if code == 38 || code == 48 {
            let (color, next) = parse_extended_color(&codes, i + 1);
            apply_extended_color(style, color, code == 38);
            i = next;
        } else {
            apply_code(style, code);
            i += 1;
        }
    }
}

// ---------------------------------------------------------------------------
// Laws
// ---------------------------------------------------------------------------

/// An SGR sequence without parameters, or with the parameter 0, resets the style.
pub proof fn law_reset(s: AnsiStyle)
    ensures
        sgr_applied(s, seq![]) == plain_style(),
        sgr_applied(s, seq![0x30u8]) == plain_style(),
{
    assert(codes_applied(code_applied(s, 0), seq![0i64], 1) == plain_style());
    assert(sgr_codes(seq![]) =~= seq![0i64]);
    let zero = seq![0x30u8];
    text::lemma_find_byte_none(zero, 0x3b, 0);
    assert(zero.subrange(0, 1) =~= zero);
    let parts = text::split(zero, 0x3b);
    assert(parts =~= seq![zero]);
    assert(parts.drop_last() =~= seq![]);
    assert(text::parse_signed(zero) == Some(0int)) by {
        assert(zero.drop_last() =~= seq![]);
        assert(text::digits_value(zero.drop_last()) == 0);
        assert(text::digits_value(zero) == 0);
        assert(text::all_digits(zero));
    }
    assert(numbers_in(parts.drop_last()) =~= seq![]);
    assert(numbers_in(parts) =~= seq![0i64]);
    assert(sgr_codes(zero) =~= seq![0i64]);
}

/// Switching an attribute on and off again leaves it off and everything else as it was: 3 and 23
/// for italic, 4 and 24 for underlined, 7 and 27 for reversed, 8 and 28 for hidden, 9 and 29 for
/// crossed out.
pub proof fn law_switched_off(s: AnsiStyle, code: i64)
    requires
        code == 3 || code == 4 || code == 7 || code == 8 || code == 9,
    ensures
        code_applied(code_applied(s, code), (code + 20) as i64) == code_applied(
            s,
            (code + 20) as i64,
        ),
{
}

} // verus!
