//! What SGR sequences do to a style, code by code, and what the derived styles look like.
use vstd::prelude::*;
use crate::chunks;
use crate::kitty_laws;
use crate::style;
use crate::style::{AnsiStyle, Attribute, Color, TextAttributes};
use crate::text;

verus! {

// ---------------------------------------------------------------------------
// Writing codes
// ---------------------------------------------------------------------------

/// The parameter string of an SGR sequence: codes in decimal, with `;` between them.
pub open spec fn written(codes: Seq<int>) -> Seq<u8> {
    text::join(Seq::new(codes.len(), |i: int| text::decimal(codes[i])), 0x3b)
}

/// Numbers that can be codes.
pub open spec fn are_codes(codes: Seq<int>) -> bool {
    codes.len() > 0 && forall|i: int| 0 <= i < codes.len() ==> 0 <= #[trigger] codes[i] <= i64::MAX
}

/// Codes as they are read.
pub open spec fn as_read(codes: Seq<int>) -> Seq<i64> {
    Seq::new(codes.len(), |i: int| codes[i] as i64)
}

proof fn lemma_number_read(n: int)
    requires
        0 <= n <= i64::MAX,
    ensures
        text::parse_signed(text::decimal(n)) == Some(n),
        !text::decimal(n).contains(0x3bu8),
{
    text::lemma_decimal_digits(n);
    let d = text::decimal(n);
    assert(text::is_digit(d[0]));
    if d.contains(0x3bu8) {
        let j = choose|j: int| 0 <= j < d.len() && d[j] == 0x3bu8;
        assert(text::is_digit(d[j]));
    }
}

proof fn lemma_numbers_read(codes: Seq<int>)
    requires
        forall|i: int| 0 <= i < codes.len() ==> 0 <= #[trigger] codes[i] <= i64::MAX,
    ensures
        style::numbers_in(Seq::new(codes.len(), |i: int| text::decimal(codes[i]))) == as_read(
            codes,
        ),
    decreases codes.len(),
{
    let parts = Seq::new(codes.len(), |i: int| text::decimal(codes[i]));
    if codes.len() > 0 {
        let init = codes.drop_last();
        assert forall|i: int| 0 <= i < init.len() implies 0 <= #[trigger] init[i] <= i64::MAX by {
            assert(init[i] == codes[i]);
        }
        lemma_numbers_read(init);
        assert(parts.drop_last() =~= Seq::new(init.len(), |i: int| text::decimal(init[i])));
        assert(0 <= codes[codes.len() - 1] <= i64::MAX);
        lemma_number_read(codes.last());
        assert(as_read(init).push(codes.last() as i64) =~= as_read(codes));
    } else {
        assert(as_read(codes) =~= seq![]);
    }
}

/// Codes that are written are read back.
proof fn lemma_codes_read(codes: Seq<int>)
    requires
        are_codes(codes),
    ensures
        style::sgr_codes(written(codes)) == as_read(codes),
{
    let parts = Seq::new(codes.len(), |i: int| text::decimal(codes[i]));
    assert forall|k: int| 0 <= k < parts.len() implies !(#[trigger] parts[k]).contains(0x3b) by {
        assert(0 <= codes[k] <= i64::MAX);
        lemma_number_read(codes[k]);
    }
    kitty_laws::lemma_split_join(parts, 0x3b);
    lemma_numbers_read(codes);
    assert(0 <= codes[codes.len() - 1] <= i64::MAX);
    text::lemma_decimal_digits(codes.last());
    assert(parts.last() == text::decimal(codes.last()));
    assert(written(codes).len() >= parts.last().len());
}

proof fn lemma_one_code(s: AnsiStyle, code: int)
    requires
        0 <= code <= i64::MAX,
        code != 38,
        code != 48,
    ensures
        style::sgr_applied(s, written(seq![code])) == style::code_applied(s, code as i64),
{
    let codes = seq![code];
    assert(are_codes(codes));
    lemma_codes_read(codes);
    let read = as_read(codes);
    assert(read.len() == 1 && read[0] == code as i64);
    assert(style::codes_applied(style::code_applied(s, code as i64), read, 1)
        == style::code_applied(s, code as i64));
}

// ---------------------------------------------------------------------------
// Colours
// ---------------------------------------------------------------------------

/// The eight basic colours, in the order of their codes.
pub open spec fn dark_colors() -> Seq<Color> {
    seq![
        Color::Black,
        Color::DarkRed,
        Color::DarkGreen,
        Color::DarkYellow,
        Color::DarkBlue,
        Color::DarkMagenta,
        Color::DarkCyan,
        Color::Grey,
    ]
}

/// The eight bright colours, in the order of their codes.
pub open spec fn bright_colors() -> Seq<Color> {
    seq![
        Color::DarkGrey,
        Color::Red,
        Color::Green,
        Color::Yellow,
        Color::Blue,
        Color::Magenta,
        Color::Cyan,
        Color::White,
    ]
}

/// The colour codes: 30 to 37 and 90 to 97 select the foreground, 40 to 47 and 100 to 107 the
/// background, in the order black, red, green, yellow, blue, magenta, cyan, white; 39 and 49 go
/// back to the terminal's own colour. Nothing else changes.
pub proof fn law_color_codes(s: AnsiStyle, k: int)
    requires
        0 <= k < 8,
    ensures
        style::sgr_applied(s, written(seq![30 + k])) == (AnsiStyle {
            fg: Some(dark_colors()[k]),
            ..s
        }),
        style::sgr_applied(s, written(seq![40 + k])) == (AnsiStyle {
            bg: Some(dark_colors()[k]),
            ..s
        }),
        style::sgr_applied(s, written(seq![90 + k])) == (AnsiStyle {
            fg: Some(bright_colors()[k]),
            ..s
        }),
        style::sgr_applied(s, written(seq![100 + k])) == (AnsiStyle {
            bg: Some(bright_colors()[k]),
            ..s
        }),
        style::sgr_applied(s, written(seq![39])) == (AnsiStyle { fg: None, ..s }),
        style::sgr_applied(s, written(seq![49])) == (AnsiStyle { bg: None, ..s }),
{
    lemma_one_code(s, 30 + k);
    lemma_one_code(s, 40 + k);
    lemma_one_code(s, 90 + k);
    lemma_one_code(s, 100 + k);
    lemma_one_code(s, 39);
    lemma_one_code(s, 49);
}

/// The basic colours by number; there are eight of each brightness, and any other number is no
/// colour.
pub proof fn law_basic_colors(index: int, bright: bool)
    ensures
        style::basic_color(index, bright) == (if !(0 <= index < 8) {
            Color::Reset
        } else if bright {
            bright_colors()[index]
        } else {
            dark_colors()[index]
        }),
{
}

/// `5` behind 38 or 48 selects a colour of the palette by its number.
pub proof fn law_palette_color(s: AnsiStyle, n: u8)
    ensures
        style::sgr_applied(s, written(seq![38, 5, n as int])) == (AnsiStyle {
            fg: Some(Color::AnsiValue(n)),
            ..s
        }),
        style::sgr_applied(s, written(seq![48, 5, n as int])) == (AnsiStyle {
            bg: Some(Color::AnsiValue(n)),
            ..s
        }),
{
    lemma_extended(s, seq![38, 5, n as int]);
    lemma_extended(s, seq![48, 5, n as int]);
    let code = n as int as i64;
    assert(code as u8 == n);
}

/// An extended colour alone.
proof fn lemma_extended(s: AnsiStyle, codes: Seq<int>)
    requires
        are_codes(codes),
        codes[0] == 38 || codes[0] == 48,
        codes.len() == 3 && codes[1] == 5 || codes.len() == 5 && codes[1] == 2,
    ensures
        style::sgr_applied(s, written(codes)) == style::with_extended(
            s,
            style::extended_color(as_read(codes), 1),
            codes[0] == 38,
        ),
{
    lemma_codes_read(codes);
    let read = as_read(codes);
    let t = style::with_extended(s, style::extended_color(read, 1), read[0] == 38);
    assert(0 <= codes[0] <= i64::MAX && 0 <= codes[1] <= i64::MAX);
    assert(read[0] == codes[0] && read[1] == codes[1]);
    assert(style::extended_end(read, 1) == read.len());
    assert(style::codes_applied(t, read, read.len() as int) == t);
}

/// A number brought into the range of a byte.
pub open spec fn to_byte(n: int) -> u8 {
    if n > 255 {
        255
    } else {
        n as u8
    }
}

/// `2` behind 38 or 48 selects a colour by its red, green and blue components, in this order; a
/// component above 255 counts as 255.
pub proof fn law_direct_color(s: AnsiStyle, r: int, g: int, b: int)
    requires
        0 <= r <= i64::MAX,
        0 <= g <= i64::MAX,
        0 <= b <= i64::MAX,
    ensures
        style::sgr_applied(s, written(seq![38, 2, r, g, b])) == (AnsiStyle {
            fg: Some(Color::Rgb { r: to_byte(r), g: to_byte(g), b: to_byte(b) }),
            ..s
        }),
        style::sgr_applied(s, written(seq![48, 2, r, g, b])) == (AnsiStyle {
            bg: Some(Color::Rgb { r: to_byte(r), g: to_byte(g), b: to_byte(b) }),
            ..s
        }),
{
    lemma_extended(s, seq![38, 2, r, g, b]);
    lemma_extended(s, seq![48, 2, r, g, b]);
}

/// A palette number that is no byte counts modulo 256.
pub proof fn law_palette_wraps(s: AnsiStyle, n: int)
    requires
        0 <= n <= i64::MAX,
    ensures
        style::sgr_applied(s, written(seq![38, 5, n])) == (AnsiStyle {
            fg: Some(Color::AnsiValue((n % 256) as u8)),
            ..s
        }),
        style::sgr_applied(s, written(seq![48, 5, n])) == (AnsiStyle {
            bg: Some(Color::AnsiValue((n % 256) as u8)),
            ..s
        }),
{
    lemma_extended(s, seq![38, 5, n]);
    lemma_extended(s, seq![48, 5, n]);
    let v = n as u64;
    assert(v as u8 == (v % 256) as u8) by (bit_vector);
    let w = n as i64;
    assert(w as u8 == (w as u64) as u8) by (bit_vector);
}

/// A colour component below 0 counts as 0 and one above 255 as 255; a missing one is 0.
pub proof fn law_component(codes: Seq<i64>, i: int)
    requires
        0 <= i,
    ensures
        i < codes.len() && 0 <= codes[i] <= 255 ==> style::component(codes, i) == codes[i],
        i < codes.len() && codes[i] < 0 ==> style::component(codes, i) == 0,
        i < codes.len() && codes[i] > 255 ==> style::component(codes, i) == 255,
        i >= codes.len() ==> style::component(codes, i) == 0,
{
}

/// Behind 38 or 48, anything but 2 and 5 selects no colour, and the codes behind it have their own
/// meaning.
pub proof fn law_no_extended_color(s: AnsiStyle, x: int, rest: Seq<int>)
    requires
        0 <= x <= i64::MAX,
        x != 2,
        x != 5,
        are_codes(rest),
    ensures
        style::sgr_applied(s, written(seq![38, x] + rest)) == style::sgr_applied(
            s,
            written(rest),
        ),
        style::sgr_applied(s, written(seq![48, x] + rest)) == style::sgr_applied(
            s,
            written(rest),
        ),
{
    lemma_no_extended(s, 38, x, rest);
    lemma_no_extended(s, 48, x, rest);
}

proof fn lemma_no_extended(s: AnsiStyle, code: int, x: int, rest: Seq<int>)
    requires
        code == 38 || code == 48,
        0 <= x <= i64::MAX,
        x != 2,
        x != 5,
        are_codes(rest),
    ensures
        style::sgr_applied(s, written(seq![code, x] + rest)) == style::sgr_applied(
            s,
            written(rest),
        ),
{
    let a = seq![code, x];
    assert(are_codes(a));
    lemma_joined_codes(a, rest);
    let (p, q) = (as_read(a), as_read(rest));
    let c = p + q;
    assert(c[0] == code && c[1] == x);
    assert(style::extended_color(c, 1) is None);
    assert(style::extended_end(c, 1) == 2);
    lemma_behind(s, p, q, 0);
}

/// Entries that are no numbers are passed over.
pub proof fn law_entries_passed_over(parts: Seq<Seq<u8>>, junk: Seq<u8>, n: int)
    requires
        text::parse_signed(junk) is None,
        0 <= n <= i64::MAX,
    ensures
        style::numbers_in(parts.push(junk)) == style::numbers_in(parts),
        style::numbers_in(parts.push(text::decimal(n))) == style::numbers_in(parts).push(
            n as i64,
        ),
{
    lemma_number_read(n);
    assert(parts.push(junk).drop_last() =~= parts);
    assert(parts.push(text::decimal(n)).drop_last() =~= parts);
}

/// A sequence without any number resets the style.
pub proof fn law_no_numbers(s: AnsiStyle, params: Seq<u8>)
    requires
        forall|i: int|
            0 <= i < text::split(params, 0x3b).len() ==> text::parse_signed(
                #[trigger] text::split(params, 0x3b)[i],
            ) is None,
    ensures
        style::sgr_applied(s, params) == style::plain_style(),
{
    lemma_no_numbers(text::split(params, 0x3b));
    let zero = seq![0i64];
    assert(style::sgr_codes(params) =~= zero);
    assert(style::codes_applied(style::code_applied(s, 0), zero, 1) == style::plain_style());
}

proof fn lemma_no_numbers(parts: Seq<Seq<u8>>)
    requires
        forall|i: int| 0 <= i < parts.len() ==> text::parse_signed(#[trigger] parts[i]) is None,
    ensures
        style::numbers_in(parts).len() == 0,
    decreases parts.len(),
{
    if parts.len() > 0 {
        assert(text::parse_signed(parts[parts.len() - 1]) is None);
        let init = parts.drop_last();
        assert forall|i: int| 0 <= i < init.len() implies text::parse_signed(
            #[trigger] init[i],
        ) is None by {
            assert(init[i] == parts[i]);
        }
        lemma_no_numbers(init);
    }
}

// ---------------------------------------------------------------------------
// Attributes
// ---------------------------------------------------------------------------

/// Whether the attribute that code `k` switches on is set.
pub open spec fn flag(a: TextAttributes, k: int) -> bool {
    if k == 1 {
        a.bold
    } else if k == 2 {
        a.dim
    } else if k == 3 {
        a.italic
    } else if k == 4 {
        a.underlined
    } else if k == 5 {
        a.slow_blink
    } else if k == 6 {
        a.rapid_blink
    } else if k == 7 {
        a.reversed
    } else if k == 8 {
        a.hidden
    } else {
        k == 9 && a.crossed_out
    }
}

/// Attributes that differ at most in the `i`-th and `j`-th, which are `on`.
pub open spec fn switched(a: TextAttributes, b: TextAttributes, i: int, j: int, on: bool) -> bool {
    forall|k: int|
        1 <= k <= 9 ==> #[trigger] flag(b, k) == (if k == i || k == j {
            on
        } else {
            flag(a, k)
        })
}

/// `t` is `s` with the `i`-th and `j`-th attribute `on`, and nothing else different.
pub open spec fn restyled(s: AnsiStyle, t: AnsiStyle, i: int, j: int, on: bool) -> bool {
    switched(s.attributes, t.attributes, i, j, on) && t.fg == s.fg && t.bg == s.bg
}

/// The codes 1 to 9 switch on one attribute each: bold, dim, italic, underlined, slow and rapid
/// blinking, reversed, hidden, crossed out. Nothing else changes.
pub proof fn law_attribute_on(s: AnsiStyle, k: int)
    requires
        1 <= k <= 9,
    ensures
        restyled(s, style::sgr_applied(s, written(seq![k])), k, k, true),
{
    lemma_one_code(s, k);
}

/// The code 21 switches on bold too.
pub proof fn law_bold_again(s: AnsiStyle)
    ensures
        restyled(s, style::sgr_applied(s, written(seq![21])), 1, 1, true),
{
    lemma_one_code(s, 21);
}

/// The codes 23, 24, 27, 28 and 29 switch off the attribute that the code twenty lower switches on.
/// Nothing else changes.
pub proof fn law_attribute_off(s: AnsiStyle, k: int)
    requires
        k == 3 || k == 4 || k == 7 || k == 8 || k == 9,
    ensures
        restyled(s, style::sgr_applied(s, written(seq![20 + k])), k, k, false),
{
    lemma_one_code(s, 20 + k);
}

/// The code 22 switches off bold and dim, 25 slow and rapid blinking. Nothing else changes.
pub proof fn law_attribute_pairs_off(s: AnsiStyle)
    ensures
        restyled(s, style::sgr_applied(s, written(seq![22])), 1, 2, false),
        restyled(s, style::sgr_applied(s, written(seq![25])), 5, 6, false),
{
    lemma_one_code(s, 22);
    lemma_one_code(s, 25);
}

/// Codes without a meaning change nothing.
pub proof fn law_other_codes(s: AnsiStyle, code: int)
    requires
        10 <= code <= 20 || code == 26 || 50 <= code < 90 || 98 <= code < 100 || 108 <= code
            <= i64::MAX,
    ensures
        style::sgr_applied(s, written(seq![code])) == s,
{
    lemma_one_code(s, code);
}

proof fn lemma_listed(c: Seq<Attribute>, set: bool, a: Attribute)
    requires
        c.no_duplicates(),
        !c.contains(a),
    ensures
        (c + style::listed(set, a)).no_duplicates(),
        forall|x: Attribute|
            #[trigger] (c + style::listed(set, a)).contains(x) <==> c.contains(x) || set && x == a,
{
    let d = c + style::listed(set, a);
    assert forall|x: Attribute| #[trigger] d.contains(x) <==> c.contains(x) || set && x == a by {
        if c.contains(x) {
            let j = choose|j: int| 0 <= j < c.len() && c[j] == x;
            assert(d[j] == x);
        }
        if set && x == a {
            assert(d[c.len() as int] == x);
        }
        if d.contains(x) {
            let j = choose|j: int| 0 <= j < d.len() && d[j] == x;
            if j < c.len() {
                assert(c[j] == x);
            }
        }
    }
    assert forall|i: int, j: int| 0 <= i < d.len() && 0 <= j < d.len() && i != j implies d[i]
        != d[j] by {
        if i < c.len() && j < c.len() {
            assert(c[i] != c[j]);
        } else if i < c.len() {
            assert(c.contains(c[i]));
        } else if j < c.len() {
            assert(c.contains(c[j]));
        }
    }
}

/// The attribute that code `k` switches on.
pub open spec fn attribute_name(k: int) -> Attribute {
    if k == 1 {
        Attribute::Bold
    } else if k == 2 {
        Attribute::Dim
    } else if k == 3 {
        Attribute::Italic
    } else if k == 4 {
        Attribute::Underlined
    } else if k == 5 {
        Attribute::SlowBlink
    } else if k == 6 {
        Attribute::RapidBlink
    } else if k == 7 {
        Attribute::Reverse
    } else if k == 8 {
        Attribute::Hidden
    } else {
        Attribute::CrossedOut
    }
}

/// The set ones among the first `n` attributes.
spec fn listed_up_to(a: TextAttributes, n: int) -> Seq<Attribute>
    decreases n,
{
    if n <= 0 {
        seq![]
    } else {
        listed_up_to(a, n - 1) + style::listed(flag(a, n), attribute_name(n))
    }
}

proof fn lemma_listed_up_to(a: TextAttributes, n: int)
    requires
        0 <= n <= 9,
    ensures
        listed_up_to(a, n).no_duplicates(),
        forall|x: Attribute|
            #[trigger] listed_up_to(a, n).contains(x) <==> exists|k: int|
                1 <= k <= n && #[trigger] flag(a, k) && x == attribute_name(k),
    decreases n,
{
    let here = listed_up_to(a, n);
    if n > 0 {
        lemma_listed_up_to(a, n - 1);
        let before = listed_up_to(a, n - 1);
        assert(!before.contains(attribute_name(n)));
        lemma_listed(before, flag(a, n), attribute_name(n));
        assert forall|x: Attribute|
            #[trigger] here.contains(x) <==> exists|k: int|
                1 <= k <= n && #[trigger] flag(a, k) && x == attribute_name(k) by {
            assert(here.contains(x) <==> before.contains(x) || flag(a, n) && x == attribute_name(
                n,
            ));
        }
    }
}

/// The list of attributes names exactly those that are set, each once.
pub proof fn law_attributes_listed(a: TextAttributes)
    ensures
        style::attributes_set(a).no_duplicates(),
        forall|x: Attribute|
            #[trigger] style::attributes_set(a).contains(x) <==> exists|k: int|
                1 <= k <= 9 && #[trigger] flag(a, k) && x == attribute_name(k),
{
    lemma_listed_up_to(a, 9);
    reveal_with_fuel(listed_up_to, 10);
    assert(Seq::<Attribute>::empty() + style::listed(a.bold, Attribute::Bold) =~= style::listed(
        a.bold,
        Attribute::Bold,
    ));
    assert(listed_up_to(a, 9) == style::attributes_set(a));
}

// ---------------------------------------------------------------------------
// Several codes
// ---------------------------------------------------------------------------

/// Codes behind `a` do what they do alone.
proof fn lemma_behind(s: AnsiStyle, a: Seq<i64>, b: Seq<i64>, i: int)
    requires
        0 <= i <= b.len(),
    ensures
        style::codes_applied(s, a + b, a.len() + i) == style::codes_applied(s, b, i),
    decreases b.len() - i,
{
    let c = a + b;
    let n = a.len() as int;
    if i < b.len() {
        assert(c[n + i] == b[i]);
        if b[i] == 38 || b[i] == 48 {
            assert forall|j: int| 0 <= j implies style::component(c, n + j) == #[trigger]
            style::component(b, j) by {
                if j < b.len() {
                    assert(c[n + j] == b[j]);
                }
            }
            assert(i + 1 < b.len() ==> c[n + i + 1] == b[i + 1]);
            assert(i + 2 < b.len() ==> c[n + i + 2] == b[i + 2]);
            assert(style::component(c, n + (i + 2)) == style::component(b, i + 2));
            assert(style::component(c, n + (i + 3)) == style::component(b, i + 3));
            assert(style::component(c, n + (i + 4)) == style::component(b, i + 4));
            assert(style::extended_color(c, n + i + 1) == style::extended_color(b, i + 1));
            let e = style::extended_end(b, i + 1);
            assert(style::extended_end(c, n + i + 1) == n + e);
            lemma_behind(
                style::with_extended(s, style::extended_color(b, i + 1), b[i] == 38),
                a,
                b,
                e,
            );
        } else {
            lemma_behind(style::code_applied(s, b[i]), a, b, i + 1);
        }
    }
}

/// Codes before `b` that select no extended colour do what they do alone.
proof fn lemma_before(s: AnsiStyle, a: Seq<i64>, b: Seq<i64>, i: int)
    requires
        0 <= i <= a.len(),
        forall|j: int| 0 <= j < a.len() ==> #[trigger] a[j] != 38 && a[j] != 48,
    ensures
        style::codes_applied(s, a + b, i) == style::codes_applied(
            style::codes_applied(s, a, i),
            b,
            0,
        ),
    decreases a.len() - i,
{
    if i < a.len() {
        assert((a + b)[i] == a[i]);
        assert(a[i] != 38 && a[i] != 48);
        lemma_before(style::code_applied(s, a[i]), a, b, i + 1);
    } else {
        lemma_behind(s, a, b, 0);
    }
}

/// A sequence with several codes does what its codes do one after the other: codes that select no
/// extended colour can be sent in a sequence of their own before the rest.
pub proof fn law_codes_in_order(s: AnsiStyle, a: Seq<int>, b: Seq<int>)
    requires
        are_codes(a),
        are_codes(b),
        forall|j: int| 0 <= j < a.len() ==> #[trigger] a[j] != 38 && a[j] != 48,
    ensures
        style::sgr_applied(s, written(a + b)) == style::sgr_applied(
            style::sgr_applied(s, written(a)),
            written(b),
        ),
{
    lemma_joined_codes(a, b);
    let (x, y) = (as_read(a), as_read(b));
    assert forall|j: int| 0 <= j < x.len() implies #[trigger] x[j] != 38 && x[j] != 48 by {
        assert(a[j] != 38 && a[j] != 48);
        assert(0 <= a[j] <= i64::MAX);
    }
    lemma_before(s, x, y, 0);
}

proof fn lemma_joined_codes(a: Seq<int>, b: Seq<int>)
    requires
        are_codes(a),
        are_codes(b),
    ensures
        are_codes(a + b),
        style::sgr_codes(written(a + b)) == as_read(a) + as_read(b),
        style::sgr_codes(written(a)) == as_read(a),
        style::sgr_codes(written(b)) == as_read(b),
{
    let c = a + b;
    assert forall|i: int| 0 <= i < c.len() implies 0 <= #[trigger] c[i] <= i64::MAX by {
        if i < a.len() {
            assert(c[i] == a[i]);
        } else {
            assert(c[i] == b[i - a.len()]);
        }
    }
    lemma_codes_read(c);
    lemma_codes_read(a);
    lemma_codes_read(b);
    assert(as_read(c) =~= as_read(a) + as_read(b));
}

/// Behind a complete extended colour the codes have their own meaning again.
pub proof fn law_after_extended_color(s: AnsiStyle, color: Seq<int>, rest: Seq<int>)
    requires
        are_codes(color),
        are_codes(rest),
        color[0] == 38 || color[0] == 48,
        color.len() == 3 && color[1] == 5 || color.len() == 5 && color[1] == 2,
    ensures
        style::sgr_applied(s, written(color + rest)) == style::sgr_applied(
            style::sgr_applied(s, written(color)),
            written(rest),
        ),
{
    lemma_joined_codes(color, rest);
    lemma_extended(s, color);
    let (x, y) = (as_read(color), as_read(rest));
    let c = x + y;
    assert(0 <= color[0] <= i64::MAX && 0 <= color[1] <= i64::MAX);
    assert(c[0] == color[0] && c[1] == color[1] && x[0] == color[0] && x[1] == color[1]);
    assert(forall|j: int| 0 <= j < x.len() ==> c[j] == x[j]);
    assert(style::extended_color(c, 1) == style::extended_color(x, 1));
    assert(style::extended_end(c, 1) == x.len());
    lemma_behind(style::sgr_applied(s, written(color)), x, y, 0);
}

// ---------------------------------------------------------------------------
// Derived styles
// ---------------------------------------------------------------------------

/// A link is underlined and keeps its other attributes. The focused one is white on blue, hovered
/// or not; any other is blue, on grey where the pointer is.
pub proof fn law_link_style(s: AnsiStyle, hovered: bool)
    ensures
        switched(s.attributes, style::link_styled(s, true, hovered).attributes, 4, 4, true),
        style::link_styled(s, true, hovered).fg == Some(Color::White),
        style::link_styled(s, true, hovered).bg == Some(Color::Blue),
        switched(s.attributes, style::link_styled(s, false, hovered).attributes, 4, 4, true),
        style::link_styled(s, false, hovered).fg == Some(Color::Blue),
        style::link_styled(s, false, true).bg == Some(Color::Grey),
        style::link_styled(s, false, false).bg is None,
{
}

/// The current match is bold and black on yellow, the other matches are black on cyan; all other
/// attributes are those of the text.
pub proof fn law_match_style(s: AnsiStyle)
    ensures
        chunks::match_style(s, true).fg == Some(Color::Black),
        chunks::match_style(s, true).bg == Some(Color::Yellow),
        switched(s.attributes, chunks::match_style(s, true).attributes, 1, 1, true),
        chunks::match_style(s, false).fg == Some(Color::Black),
        chunks::match_style(s, false).bg == Some(Color::Cyan),
        chunks::match_style(s, false).attributes == s.attributes,
{
}

/// A highlight has the given colours, whatever the text had, and makes the text bold only where it
/// is asked to.
pub proof fn law_highlight(s: AnsiStyle, fg: Color, bg: Color)
    ensures
        style::highlighted(s, fg, bg, false) == (AnsiStyle {
            fg: Some(fg),
            bg: Some(bg),
            attributes: s.attributes,
        }),
        style::highlighted(s, fg, bg, true).fg == Some(fg),
        style::highlighted(s, fg, bg, true).bg == Some(bg),
        switched(s.attributes, style::highlighted(s, fg, bg, true).attributes, 1, 1, true),
{
}

/// Unstyled text has no colours of its own and no attribute.
pub proof fn law_plain_style()
    ensures
        style::plain_style().fg is None,
        style::plain_style().bg is None,
        forall|k: int| !#[trigger] flag(style::plain_style().attributes, k),
        style::no_attributes() == style::plain_style().attributes,
{
}

} // verus!
