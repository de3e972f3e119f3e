//! Sixel graphics: finding a sequence, measuring it, and cutting rows out of it.
use vstd::prelude::*;
use vstd::string::*;
use vstd::utf8::*;
use crate::external;
use crate::image::InlineImage;
use crate::text;

verus! {

// ---------------------------------------------------------------------------
// The sixel data stream
// ---------------------------------------------------------------------------

pub const ESC: u8 = 0x1b;

/// A byte that draws one column of six pixels.
pub open spec fn is_sixel(b: u8) -> bool {
    0x3f <= b <= 0x7e
}

/// A byte that ends the raster attributes: `#`, `!`, `$`, `-` or a sixel.
pub open spec fn ends_raster(b: u8) -> bool {
    b == 0x23 || b == 0x21 || b == 0x24 || b == 0x2d || is_sixel(b)
}

/// A byte of a colour introducer's parameters: a digit or `;`.
pub open spec fn is_param(b: u8) -> bool {
    text::is_digit(b) || b == 0x3b
}

/// The first position at or after `i` whose byte is no digit.
pub open spec fn digits_end(d: Seq<u8>, i: int) -> int
    decreases d.len() - i,
{
    if 0 <= i < d.len() && text::is_digit(d[i]) {
        digits_end(d, i + 1)
    } else {
        i
    }
}

/// The first position at or after `i` whose byte is no colour parameter.
pub open spec fn params_end(d: Seq<u8>, i: int) -> int
    decreases d.len() - i,
{
    if 0 <= i < d.len() && is_param(d[i]) {
        params_end(d, i + 1)
    } else {
        i
    }
}

/// The first position at or after `i` whose byte ends the raster attributes.
pub open spec fn raster_end(d: Seq<u8>, i: int) -> int
    decreases d.len() - i,
{
    if 0 <= i < d.len() && !ends_raster(d[i]) {
        raster_end(d, i + 1)
    } else {
        i
    }
}

pub proof fn lemma_digits_end(d: Seq<u8>, i: int)
    requires
        0 <= i <= d.len(),
    ensures
        i <= digits_end(d, i) <= d.len(),
        forall|j: int| i <= j < digits_end(d, i) ==> text::is_digit(#[trigger] d[j]),
        digits_end(d, i) < d.len() ==> !text::is_digit(d[digits_end(d, i)]),
    decreases d.len() - i,
{
    if i < d.len() && text::is_digit(d[i]) {
        lemma_digits_end(d, i + 1);
    }
}

pub proof fn lemma_params_end(d: Seq<u8>, i: int)
    requires
        0 <= i <= d.len(),
    ensures
        i <= params_end(d, i) <= d.len(),
        forall|j: int| i <= j < params_end(d, i) ==> is_param(#[trigger] d[j]),
        params_end(d, i) < d.len() ==> !is_param(d[params_end(d, i)]),
    decreases d.len() - i,
{
    if i < d.len() && is_param(d[i]) {
        lemma_params_end(d, i + 1);
    }
}

pub proof fn lemma_raster_end(d: Seq<u8>, i: int)
    requires
        0 <= i <= d.len(),
    ensures
        i <= raster_end(d, i) <= d.len(),
        forall|j: int| i <= j < raster_end(d, i) ==> !ends_raster(#[trigger] d[j]),
        raster_end(d, i) < d.len() ==> ends_raster(d[raster_end(d, i)]),
    decreases d.len() - i,
{
    if i < d.len() && !ends_raster(d[i]) {
        lemma_raster_end(d, i + 1);
    }
}

/// Where the token that starts at `i` ends: a colour introducer takes its parameters along, a
/// repeat introducer its count and the byte after it, any other byte stands alone.
pub open spec fn token_end(d: Seq<u8>, i: int) -> int {
    if d[i] == 0x23 {
        params_end(d, i + 1)
    } else if d[i] == 0x21 {
        let e = digits_end(d, i + 1);
        if e < d.len() {
            e + 1
        } else {
            e
        }
    } else {
        i + 1
    }
}

pub proof fn lemma_token_end(d: Seq<u8>, i: int)
    requires
        0 <= i < d.len(),
    ensures
        i < token_end(d, i) <= d.len(),
{
    lemma_digits_end(d, i + 1);
    lemma_params_end(d, i + 1);
}

/// Scanning stops at the end of the data or at an escape byte.
pub open spec fn scan_done(d: Seq<u8>, i: int) -> bool {
    i < 0 || i >= d.len() || d[i] == ESC
}

/// The positions of the row separators (`-`) met when scanning from `i`.
pub open spec fn row_breaks(d: Seq<u8>, i: int) -> Seq<usize>
    decreases d.len() - i,
{
    if scan_done(d, i) {
        seq![]
    } else {
        proof {
            lemma_token_end(d, i);
        }
        let rest = row_breaks(d, token_end(d, i));
        if d[i] == 0x2d {
            seq![i as usize] + rest
        } else {
            rest
        }
    }
}

/// The colour introducer at `i`, with its parameters.
pub open spec fn color_fragment(d: Seq<u8>, i: int) -> Seq<u8> {
    d.subrange(i, params_end(d, i + 1))
}

/// The colour definitions (introducers with more than a register number) met when scanning from
/// `i`.
pub open spec fn color_defs(d: Seq<u8>, i: int) -> Seq<Seq<u8>>
    decreases d.len() - i,
{
    if scan_done(d, i) {
        seq![]
    } else {
        proof {
            lemma_token_end(d, i);
        }
        let rest = color_defs(d, token_end(d, i));
        if d[i] == 0x23 && color_fragment(d, i).contains(0x3b) {
            seq![color_fragment(d, i)] + rest
        } else {
            rest
        }
    }
}

/// The count of the repeat introducer at `i`.
pub open spec fn repeat_count(d: Seq<u8>, i: int) -> int {
    text::digits_value(d.subrange(i + 1, digits_end(d, i + 1)))
}

pub open spec fn max_of(a: int, b: int) -> int {
    if a >= b {
        a
    } else {
        b
    }
}

/// How many pixel columns the token at `i` draws.
pub open spec fn columns_drawn(d: Seq<u8>, i: int) -> int {
    if d[i] == 0x21 {
        let e = digits_end(d, i + 1);
        if e < d.len() && is_sixel(d[e]) {
            max_of(repeat_count(d, i), 1)
        } else {
            0
        }
    } else if is_sixel(d[i]) {
        1
    } else {
        0
    }
}

/// The width in pixels of the widest line drawn when scanning from `i` with `cur` columns
/// already drawn on the current line.
pub open spec fn widest_line(d: Seq<u8>, i: int, cur: int) -> int
    decreases d.len() - i,
{
    if scan_done(d, i) {
        cur
    } else {
        proof {
            lemma_token_end(d, i);
        }
        if d[i] == 0x2d || d[i] == 0x24 {
            max_of(cur, widest_line(d, token_end(d, i), 0))
        } else {
            widest_line(d, token_end(d, i), cur + columns_drawn(d, i))
        }
    }
}

/// Whether every repeat count, and every line width, met when scanning from `i` can be held in a
/// `usize`.
pub open spec fn widths_fit(d: Seq<u8>, i: int, cur: int) -> bool
    decreases d.len() - i,
{
    if scan_done(d, i) {
        true
    } else {
        proof {
            lemma_token_end(d, i);
        }
        if d[i] == 0x2d || d[i] == 0x24 {
            widths_fit(d, token_end(d, i), 0)
        } else {
            &&& d[i] == 0x21 ==> repeat_count(d, i) <= usize::MAX
            &&& cur + columns_drawn(d, i) <= usize::MAX
            &&& widths_fit(d, token_end(d, i), cur + columns_drawn(d, i))
        }
    }
}

// ---------------------------------------------------------------------------
// Analysis
// ---------------------------------------------------------------------------

/// Where the picture part of a sixel sequence starts: after the `q`, or at the very beginning if
/// there is none.
pub open spec fn body_start(d: Seq<u8>) -> int {
    match text::find_byte(d, 0x71, 0) {
        Some(q) => q + 1,
        None => 0,
    }
}

/// Whether raster attributes follow.
pub open spec fn has_raster(d: Seq<u8>) -> bool {
    body_start(d) < d.len() && d[body_start(d)] == 0x22
}

/// Where scanning for rows and colours starts: after the raster attributes, if there are any.
pub open spec fn data_region(d: Seq<u8>) -> int {
    if has_raster(d) {
        raster_end(d, body_start(d))
    } else {
        body_start(d)
    }
}

/// Whether a colour definition stands at `i`: an introducer with more than a register number.
pub open spec fn defines_color(d: Seq<u8>, i: int) -> bool {
    0 <= i < d.len() && d[i] == 0x23 && color_fragment(d, i).contains(0x3b)
}

/// The first position at or after `i` that lies behind the colour definitions standing there.
pub open spec fn defs_end(d: Seq<u8>, i: int) -> int
    decreases d.len() - i,
{
    if defines_color(d, i) {
        proof {
            lemma_token_end(d, i);
        }
        defs_end(d, token_end(d, i))
    } else {
        i
    }
}

pub proof fn lemma_defs_end(d: Seq<u8>, i: int)
    requires
        0 <= i <= d.len(),
    ensures
        i <= defs_end(d, i) <= d.len(),
    decreases d.len() - i,
{
    if defines_color(d, i) {
        lemma_token_end(d, i);
        lemma_defs_end(d, token_end(d, i));
    }
}

/// Where the first sixel data row starts: after the header and the colour definitions that follow
/// it.
pub open spec fn data_start(d: Seq<u8>) -> int {
    defs_end(d, data_region(d))
}

/// Field `k` of the raster attributes, 0 where it is missing or not a number.
pub open spec fn raster_field(d: Seq<u8>, k: int) -> int {
    if text::find_byte(d, 0x71, 0) is Some && has_raster(d) && data_region(d) < d.len() {
        let parts = text::split(d.subrange(body_start(d) + 1, data_region(d)), 0x3b);
        if parts.len() >= 4 {
            match text::parse_unsigned(parts[k], usize::MAX as int) {
                Some(v) => v,
                None => 0,
            }
        } else {
            0
        }
    } else {
        0
    }
}

/// The number of sixel rows.
pub open spec fn sixel_rows(d: Seq<u8>) -> int {
    row_breaks(d, data_region(d)).len() as int + 1
}

/// Pixel width: what the raster attributes declare, else the widest line.
pub open spec fn sixel_pixel_width(d: Seq<u8>) -> int {
    if raster_field(d, 2) == 0 {
        widest_line(d, data_region(d), 0)
    } else {
        raster_field(d, 2)
    }
}

/// Pixel height: what the raster attributes declare, else six times the rows.
pub open spec fn sixel_pixel_height(d: Seq<u8>) -> int {
    if raster_field(d, 3) == 0 {
        sixel_rows(d) * 6
    } else {
        raster_field(d, 3)
    }
}

/// `a / b` rounded up.
pub open spec fn ceil_div(a: int, b: int) -> int {
    if a % b == 0 {
        a / b
    } else {
        a / b + 1
    }
}

/// How many cells of size `cell` it takes to cover `pixels`; at least one.
pub open spec fn cells_for(pixels: int, cell: int) -> int {
    max_of(ceil_div(pixels, cell), 1)
}

/// Whether all numbers met in measuring `d` can be held in a `usize`.
pub open spec fn sixel_fits(d: Seq<u8>) -> bool {
    &&& widths_fit(d, data_region(d), 0)
    &&& sixel_rows(d) <= usize::MAX
    &&& raster_field(d, 3) == 0 ==> sixel_rows(d) * 6 <= usize::MAX
}

/// What measuring a sixel sequence gives.
pub struct SixelInfo {
    pub width_cols: usize,
    pub height_rows: usize,
    pub sixel_row_count: usize,
    /// Byte offset in the data where the first sixel data row starts
    /// (after header + colour definitions).
    pub sixel_data_start: usize,
    /// Byte offset of each `-` (Graphics New Line) separator.
    pub sixel_row_offsets: Vec<usize>,
    /// All colour definitions found in the entire sixel stream.
    pub sixel_color_defs: Vec<Vec<u8>>,
}

impl SixelInfo {
    /// Whether this is the measure of `d`, in cells of the given size.
    pub open spec fn measures(self, d: Seq<u8>, cell_w: int, cell_h: int) -> bool {
        &&& self.width_cols == cells_for(sixel_pixel_width(d), cell_w)
        &&& self.height_rows == cells_for(sixel_pixel_height(d), cell_h)
        &&& self.sixel_row_count == sixel_rows(d)
        &&& self.sixel_data_start == data_start(d)
        &&& self.sixel_row_offsets@ == row_breaks(d, data_region(d))
        &&& text::byte_lists(self.sixel_color_defs@) == color_defs(d, data_region(d))
    }
}

/// `a / b` rounded up.
pub fn div_ceil(a: usize, b: usize) -> (r: usize)
    requires
        b > 0,
    ensures
        r == ceil_div(a as int, b as int),
        r <= a,
{
    let q = a / b;
    proof {
        vstd::arithmetic::div_mod::lemma_fundamental_div_mod(a as int, b as int);
        vstd::arithmetic::div_mod::lemma_div_is_ordered_by_denominator(a as int, 1, b as int);
    }
    if a % b == 0 {
        q
    } else {
        proof {
            if b == 1 {
                assert(a % 1 == 0);
            }
            assert(b >= 2);
            assert(q + 1 <= a) by (nonlinear_arith)
                requires
                    a == b * q + a % b,
                    a % b > 0,
                    b >= 2,
                    q >= 0,
            ;
        }
        q + 1
    }
}

proof fn lemma_columns_drawn(d: Seq<u8>, i: int)
    requires
        0 <= i < d.len(),
    ensures
        columns_drawn(d, i) >= 0,
{
}

proof fn lemma_widest_line(d: Seq<u8>, i: int, cur: int)
    requires
        0 <= i <= d.len(),
    ensures
        widest_line(d, i, cur) >= cur,
    decreases d.len() - i,
{
    if !scan_done(d, i) {
        lemma_token_end(d, i);
        lemma_columns_drawn(d, i);
        if !(d[i] == 0x2d || d[i] == 0x24) {
            lemma_widest_line(d, token_end(d, i), cur + columns_drawn(d, i));
        }
    }
}

pub proof fn lemma_data_region(d: Seq<u8>)
    ensures
        0 <= body_start(d) <= data_region(d) <= d.len(),
        find_byte_is_first(d),
{
    text::lemma_find_byte(d, 0x71, 0);
    if has_raster(d) {
        lemma_raster_end(d, body_start(d));
    }
}

/// The `q` that ends the header is the first one.
pub open spec fn find_byte_is_first(d: Seq<u8>) -> bool {
    match text::find_byte(d, 0x71, 0) {
        Some(q) => 0 <= q < d.len() && d[q] == 0x71,
        None => true,
    }
}

fn is_digit_byte(b: u8) -> (r: bool)
    ensures
        r == text::is_digit(b),
{
    0x30 <= b && b <= 0x39
}

fn is_sixel_byte(b: u8) -> (r: bool)
    ensures
        r == is_sixel(b),
{
    0x3f <= b && b <= 0x7e
}

fn skip_digits(d: &[u8], from: usize) -> (r: usize)
    requires
        from <= d@.len(),
    ensures
        r == digits_end(d@, from as int),
        from <= r <= d@.len(),
{
    let mut i: usize = from;
    while i < d.len() && is_digit_byte(d[i])
        invariant
            from <= i <= d@.len(),
            digits_end(d@, from as int) == digits_end(d@, i as int),
        decreases d.len() - i,
    {
        i += 1;
    }
    i
}

fn skip_params(d: &[u8], from: usize) -> (r: usize)
    requires
        from <= d@.len(),
    ensures
        r == params_end(d@, from as int),
        from <= r <= d@.len(),
{
    let mut i: usize = from;
    while i < d.len() && (is_digit_byte(d[i]) || d[i] == 0x3b)
        invariant
            from <= i <= d@.len(),
            params_end(d@, from as int) == params_end(d@, i as int),
        decreases d.len() - i,
    {
        i += 1;
    }
    i
}

fn ends_raster_byte(b: u8) -> (r: bool)
    ensures
        r == ends_raster(b),
{
    b == 0x23 || b == 0x21 || b == 0x24 || b == 0x2d || is_sixel_byte(b)
}

fn skip_raster(d: &[u8], from: usize) -> (r: usize)
    requires
        from <= d@.len(),
    ensures
        r == raster_end(d@, from as int),
        from <= r <= d@.len(),
{
    let mut i: usize = from;
    while i < d.len() && !ends_raster_byte(d[i])
        invariant
            from <= i <= d@.len(),
            raster_end(d@, from as int) == raster_end(d@, i as int),
        decreases d.len() - i,
    {
        i += 1;
    }
    i
}

/// The width and height that the raster attributes declare, 0 where they do not.
fn raster_size(d: &[u8]) -> (r: (usize, usize))
    ensures
        r.0 == raster_field(d@, 2),
        r.1 == raster_field(d@, 3),
{
    let q: usize = match text::position(d, 0x71, 0) {
        Some(q) => q,
        None => return (0, 0),
    };
    let n: usize = d.len();
    if q + 1 >= n || d[q + 1] != 0x22 {
        return (0, 0);
    }
    let end = skip_raster(d, q + 1);
    proof {
        lemma_raster_end(d@, q + 1);
    }
    if end >= n {
        return (0, 0);
    }
    assert(raster_end(d@, q + 1) == raster_end(d@, q + 2));
    proof {
        lemma_raster_end(d@, q + 2);
    }
    let raster = text::slice_vec(d, q + 2, end);
    let parts = text::split_bytes(raster.as_slice(), 0x3b);
    let ghost spec_parts = text::split(raster@, 0x3b);
    assert(text::byte_lists(parts@).len() == spec_parts.len());
    if parts.len() >= 4 {
        assert(spec_parts[2] == parts@[2]@ && spec_parts[3] == parts@[3]@);
        let w: usize = match text::parse_usize(parts[2].as_slice()) {
            Some(v) => v,
            None => 0,
        };
        let h: usize = match text::parse_usize(parts[3].as_slice()) {
            Some(v) => v,
            None => 0,
        };
        (w, h)
    } else {
        (0, 0)
    }
}

/// Where scanning for rows and colours starts.
fn find_data_region(data: &[u8]) -> (r: usize)
    ensures
        r == data_region(data@),
        r <= data@.len(),
{
    proof {
        lemma_data_region(data@);
    }
    let n: usize = data.len();
    let body: usize = match text::position(data, 0x71, 0) {
        Some(q) => q + 1,
        None => 0,
    };
    if body < n && data[body] == 0x22 {
        skip_raster(data, body)
    } else {
        body
    }
}

/// The first position at or after `from` that lies behind the colour definitions standing there.
fn skip_defs(data: &[u8], from: usize) -> (r: usize)
    requires
        from <= data@.len(),
    ensures
        r == defs_end(data@, from as int),
        r <= data@.len(),
{
    let mut i: usize = from;
    while i < data.len() && data[i] == 0x23
        invariant_except_break
            i <= data@.len(),
            defs_end(data@, from as int) == defs_end(data@, i as int),
        ensures
            i <= data@.len(),
            defs_end(data@, from as int) == i,
        decreases data.len() - i,
    {
        let e = skip_params(data, i + 1);
        let fragment = text::slice_vec(data, i, e);
        if !contains_byte(fragment.as_slice(), 0x3b) {
            break;
        }
        i = e;
    }
    i
}

/// Whether `b` occurs in `s`.
fn contains_byte(s: &[u8], b: u8) -> (r: bool)
    ensures
        r == s@.contains(b),
{
    proof {
        text::lemma_find_byte(s@, b, 0);
    }
    match text::position(s, b, 0) {
        Some(k) => {
            assert(s@[k as int] == b);
            true
        },
        None => false,
    }
}

/// Measures a complete sixel sequence; `None` where a number in it is too large to be held, or a
/// cell has no width or height.
pub fn try_analyze_sixel(data: &[u8], cell_w: usize, cell_h: usize) -> (r: Option<SixelInfo>)
    ensures
        match r {
            Some(info) => {
                &&& cell_w > 0 && cell_h > 0 && sixel_fits(data@)
                &&& info.measures(data@, cell_w as int, cell_h as int)
            },
            None => cell_w == 0 || cell_h == 0 || !sixel_fits(data@),
        },
{
    if cell_w == 0 || cell_h == 0 {
        return None;
    }
    let ghost d = data@;
    let (raster_w, raster_h) = raster_size(data);
    let n: usize = data.len();
    let start: usize = find_data_region(data);
    let mut offsets: Vec<usize> = Vec::new();
    let mut defs: Vec<Vec<u8>> = Vec::new();
    let mut max_w: usize = 0;
    let mut cur: usize = 0;
    let mut i: usize = start;
    proof {
        lemma_widest_line(d, start as int, 0);
        assert(offsets@ + row_breaks(d, i as int) =~= row_breaks(d, i as int));
        assert(text::byte_lists(defs@) + color_defs(d, i as int) =~= color_defs(d, i as int));
    }
    while i < n && data[i] != ESC
        invariant
            n == data@.len(),
            d == data@,
            start <= i <= n,
            row_breaks(d, start as int) == offsets@ + row_breaks(d, i as int),
            color_defs(d, start as int) == text::byte_lists(defs@) + color_defs(d, i as int),
            widest_line(d, start as int, 0) == max_of(
                max_w as int,
                widest_line(d, i as int, cur as int),
            ),
            widths_fit(d, start as int, 0) == widths_fit(d, i as int, cur as int),
            start == data_region(d),
        decreases n - i,
    {
        proof {
            lemma_token_end(d, i as int);
            lemma_columns_drawn(d, i as int);
        }
        let b = data[i];
        if b == 0x23 {
            let e = skip_params(data, i + 1);
            let fragment = text::slice_vec(data, i, e);
            if contains_byte(fragment.as_slice(), 0x3b) {
                let ghost before = text::byte_lists(defs@);
                defs.push(fragment);
                assert(text::byte_lists(defs@) =~= before.push(fragment@));
                assert(text::byte_lists(defs@) + color_defs(d, e as int) =~= before + color_defs(
                    d,
                    i as int,
                ));
            }
            i = e;
        } else if b == 0x2d {
            if cur > max_w {
                max_w = cur;
            }
            cur = 0;
            let ghost before = offsets@;
            offsets.push(i);
            assert(offsets@ + row_breaks(d, i + 1) =~= before + row_breaks(d, i as int));
            i += 1;
        } else if b == 0x24 {
            if cur > max_w {
                max_w = cur;
            }
            cur = 0;
            i += 1;
        } else if b == 0x21 {
            let e = skip_digits(data, i + 1);
            proof {
                lemma_digits_end(d, i + 1);
            }
            let count: usize = if e == i + 1 {
                assert(d.subrange(i + 1, e as int) =~= Seq::<u8>::empty());
                0
            } else {
                let digits = vstd::slice::slice_subrange(data, i + 1, e);
                assert(text::all_digits(d.subrange(i + 1, e as int)));
                assert(digits@.subrange(0, digits@.len() as int) =~= digits@);
                match text::digits_up_to(digits, 0, usize::MAX as u64) {
                    Some(v) => v as usize,
                    None => return None,
                }
            };
            assert(count == repeat_count(d, i as int));
            if e < n && is_sixel_byte(data[e]) {
                let drawn: usize = if count >= 1 {
                    count
                } else {
                    1
                };
                cur = match cur.checked_add(drawn) {
                    Some(c) => c,
                    None => return None,
                };
            }
            i = if e < n {
                e + 1
            } else {
                e
            };
        } else {
            if is_sixel_byte(b) {
                cur = match cur.checked_add(1) {
                    Some(c) => c,
                    None => return None,
                };
            }
            i += 1;
        }
    }
    assert(scan_done(d, i as int));
    assert(offsets@ + row_breaks(d, i as int) =~= offsets@);
    assert(text::byte_lists(defs@) + color_defs(d, i as int) =~= text::byte_lists(defs@));
    if cur > max_w {
        max_w = cur;
    }
    let rows: usize = match offsets.len().checked_add(1) {
        Some(r) => r,
        None => return None,
    };
    let pixel_w: usize = if raster_w == 0 {
        max_w
    } else {
        raster_w
    };
    let pixel_h: usize = if raster_h == 0 {
        match rows.checked_mul(6) {
            Some(p) => p,
            None => return None,
        }
    } else {
        raster_h
    };
    let cols = div_ceil(pixel_w, cell_w);
    let height = div_ceil(pixel_h, cell_h);
    Some(
        SixelInfo {
            width_cols: if cols >= 1 {
                cols
            } else {
                1
            },
            height_rows: if height >= 1 {
                height
            } else {
                1
            },
            sixel_row_count: rows,
            sixel_data_start: skip_defs(data, start),
            sixel_row_offsets: offsets,
            sixel_color_defs: defs,
        },
    )
}

/// Analyze a complete sixel sequence to extract dimensions and row offsets.
pub fn analyze_sixel(data: &[u8], cell_w: usize, cell_h: usize) -> (r: SixelInfo)
    requires
        cell_w > 0,
        cell_h > 0,
        sixel_fits(data@),
    ensures
        r.measures(data@, cell_w as int, cell_h as int),
{
    try_analyze_sixel(data, cell_w, cell_h).unwrap()
}

// ---------------------------------------------------------------------------
// Sequence boundaries
// ---------------------------------------------------------------------------

/// Whether the two-byte string terminator (ESC \\) stands at `i`.
pub open spec fn st_at(d: Seq<u8>, i: int) -> bool {
    0 <= i && i + 1 < d.len() && d[i] == ESC && d[i + 1] == 0x5c
}

/// The end (exclusive) of the first string terminator, of either form, at or after `i`.
pub open spec fn sixel_end_from(d: Seq<u8>, i: int) -> Option<int>
    decreases d.len() - i,
{
    if i < 0 || i >= d.len() {
        None
    } else if st_at(d, i) {
        Some(i + 2)
    } else if d[i] == 0x9c {
        Some(i + 1)
    } else {
        sixel_end_from(d, i + 1)
    }
}

/// The end of the sixel sequence that starts at `start`.
pub open spec fn sixel_end(d: Seq<u8>, start: int) -> Option<int> {
    sixel_end_from(d, start + 2)
}

pub proof fn lemma_sixel_end(d: Seq<u8>, i: int)
    requires
        0 <= i,
    ensures
        match sixel_end_from(d, i) {
            Some(e) => i < e <= d.len(),
            None => true,
        },
    decreases d.len() - i,
{
    if i < d.len() {
        lemma_sixel_end(d, i + 1);
    }
}

/// Whether the two-byte string terminator stands at `i`.
pub fn st_here(d: &[u8], i: usize) -> (r: bool)
    requires
        i < d@.len(),
    ensures
        r == st_at(d@, i as int),
{
    d[i] == ESC && i + 1 < d.len() && d[i + 1] == 0x5c
}

/// Find the end of a sixel sequence starting at `start`: the position after it, and its bytes.
pub fn find_sixel_end(bytes: &[u8], start: usize) -> (r: Option<(usize, Vec<u8>)>)
    requires
        start + 2 <= usize::MAX,
    ensures
        match r {
            Some((end, data)) => {
                &&& sixel_end(bytes@, start as int) == Some(end as int)
                &&& start + 2 < end <= bytes@.len()
                &&& data@ == bytes@.subrange(start as int, end as int)
            },
            None => sixel_end(bytes@, start as int) is None,
        },
{
    let mut i: usize = start + 2;
    let n: usize = bytes.len();
    while i < n
        invariant
            n == bytes@.len(),
            start + 2 <= i,
            sixel_end(bytes@, start as int) == sixel_end_from(bytes@, i as int),
        decreases n - i,
    {
        if st_here(bytes, i) {
            let end: usize = i + 2;
            return Some((end, text::slice_vec(bytes, start, end)));
        }
        if bytes[i] == 0x9c {
            let end: usize = i + 1;
            return Some((end, text::slice_vec(bytes, start, end)));
        }
        i += 1;
    }
    None
}

/// The last position before `i` where the two-byte string terminator stands.
pub open spec fn last_st_before(d: Seq<u8>, i: int) -> Option<int>
    decreases i,
{
    if i <= 0 {
        None
    } else if st_at(d, i - 1) {
        Some(i - 1)
    } else {
        last_st_before(d, i - 1)
    }
}

/// Where the string terminator of a sequence starts.
pub open spec fn st_start(d: Seq<u8>) -> Option<int> {
    if st_at(d, d.len() - 2) {
        Some(d.len() - 2)
    } else if d.len() >= 1 && d.last() == 0x9c {
        Some(d.len() - 1)
    } else {
        last_st_before(d, d.len() - 1)
    }
}

/// Find the byte position where the string terminator starts in sixel data.
pub fn find_st_position(data: &[u8]) -> (r: Option<usize>)
    ensures
        match r {
            Some(k) => st_start(data@) == Some(k as int) && k < data@.len(),
            None => st_start(data@) is None,
        },
{
    let len: usize = data.len();
    if len >= 2 && data[len - 2] == ESC && data[len - 1] == 0x5c {
        return Some(len - 2);
    }
    if len >= 1 && data[len - 1] == 0x9c {
        return Some(len - 1);
    }
    if len == 0 {
        return None;
    }
    let mut i: usize = len - 1;
    while i > 0
        invariant
            len == data@.len(),
            i < len,
            st_start(data@) == last_st_before(data@, i as int),
        decreases i,
    {
        if st_here(data, i - 1) {
            return Some(i - 1);
        }
        i -= 1;
    }
    None
}

// ---------------------------------------------------------------------------
// Clipping
// ---------------------------------------------------------------------------

/// A sixel header with the raster attributes' height replaced by `height`; `None` if it has no
/// complete raster attributes.
pub open spec fn with_raster_height(h: Seq<u8>, height: int) -> Option<Seq<u8>> {
    match text::find_byte(h, 0x71, 0) {
        Some(q) => if q + 1 < h.len() && h[q + 1] == 0x22 {
            let e = raster_end(h, q + 2);
            let parts = text::split(h.subrange(q + 2, e), 0x3b);
            if parts.len() >= 4 {
                Some(
                    h.subrange(0, q + 2) + parts[0] + seq![0x3bu8] + parts[1] + seq![0x3bu8]
                        + parts[2] + seq![0x3bu8] + text::decimal(height) + h.subrange(
                        e,
                        h.len() as int,
                    ),
                )
            } else {
                None
            }
        } else {
            None
        },
        None => None,
    }
}

/// The header of a clipped sixel sequence: raster attributes adjusted where there are any.
pub open spec fn adjusted_header(header: Seq<u8>, height: int) -> Seq<u8> {
    match with_raster_height(external::lossy_bytes(header), height) {
        Some(h) => h,
        None => header,
    }
}

/// Adjust the raster attributes in a sixel header to reflect a new pixel height.
/// The header is everything from ESC P up to (but not including) actual sixel data.
pub fn adjust_sixel_raster_height(header: &[u8], new_pixel_h: usize) -> (r: Vec<u8>)
    ensures
        r@ == adjusted_header(header@, new_pixel_h as int),
{
    let s = external::from_utf8_lossy(header);
    let h = s.as_str().as_bytes();
    let n: usize = h.len();
    proof {
        broadcast use vstd::utf8::decode_utf8_encode_utf8;
        assert(h@ == external::lossy_bytes(header@));
        text::lemma_find_byte(h@, 0x71, 0);
    }
    match text::position(h, 0x71, 0) {
        Some(q) => {
            if q + 1 < n && h[q + 1] == 0x22 {
                let e = skip_raster(h, q + 2);
                let raster = text::slice_vec(h, q + 2, e);
                let parts = text::split_bytes(raster.as_slice(), 0x3b);
                let ghost spec_parts = text::split(raster@, 0x3b);
                assert(text::byte_lists(parts@).len() == spec_parts.len());
                if parts.len() >= 4 {
                    assert(spec_parts[0] == parts@[0]@ && spec_parts[1] == parts@[1]@
                        && spec_parts[2] == parts@[2]@);
                    let mut out = text::slice_vec(h, 0, q + 2);
                    text::append_bytes(&mut out, parts[0].as_slice());
                    out.push(0x3b);
                    text::append_bytes(&mut out, parts[1].as_slice());
                    out.push(0x3b);
                    text::append_bytes(&mut out, parts[2].as_slice());
                    out.push(0x3b);
                    let digits = text::decimal_bytes(new_pixel_h);
                    text::append_bytes(&mut out, digits.as_slice());
                    let rest = vstd::slice::slice_subrange(h, e, n);
                    text::append_bytes(&mut out, rest);
                    assert(out@ =~= with_raster_height(h@, new_pixel_h as int)->0);
                    return out;
                }
            }
        },
        None => {},
    }
    vstd::slice::slice_to_vec(header)
}

pub open spec fn min_of(a: int, b: int) -> int {
    if a <= b {
        a
    } else {
        b
    }
}

/// How many terminal rows of an image of `height` rows remain when the first `skip` are cut off
/// and at most `keep` are kept.
pub open spec fn visible_rows(height: int, skip: int, keep: int) -> int {
    min_of(keep, height - skip)
}

/// Whether nothing of the image remains.
pub open spec fn nothing_visible(height: int, skip: int, keep: int) -> bool {
    keep == 0 || skip >= height
}

/// Whether the whole image remains.
pub open spec fn all_visible(height: int, skip: int, keep: int) -> bool {
    skip == 0 && visible_rows(height, skip, keep) >= height
}

/// The first sixel row to keep.
pub open spec fn first_sixel_row(skip: int, cell_h: int) -> int {
    (skip * cell_h) / 6
}

/// How many sixel rows to keep: as many as fit into the visible pixels, but at least one.
pub open spec fn kept_sixel_rows(height: int, skip: int, keep: int, cell_h: int) -> int {
    max_of((visible_rows(height, skip, keep) * cell_h) / 6, 1)
}

/// Where row `row` starts in the data of `img`. The first row takes along the colour definitions
/// that stand before it: they select the register that it starts with.
pub open spec fn row_start(img: InlineImage, row: int) -> Option<int> {
    if row == 0 {
        Some(data_region(img.data@))
    } else if row <= img.sixel_row_offsets@.len() {
        Some(img.sixel_row_offsets@[row - 1] + 1)
    } else {
        None
    }
}

/// Where the rows before row `row` end in the data of `img`: at the separator before it, or at
/// the string terminator `st`.
pub open spec fn rows_end(img: InlineImage, row: int, st: int) -> int {
    if row < img.sixel_row_count && row <= img.sixel_row_offsets@.len() {
        img.sixel_row_offsets@[row - 1] as int
    } else {
        st
    }
}

/// The range of `img`'s data that holds the rows to keep.
pub open spec fn kept_range(img: InlineImage, skip: int, keep: int, cell_h: int) -> Option<
    (int, int),
> {
    let top = first_sixel_row(skip, cell_h);
    let end = min_of(
        top + kept_sixel_rows(img.height_rows as int, skip, keep, cell_h),
        img.sixel_row_count as int,
    );
    if top >= img.sixel_row_count {
        None
    } else {
        match (row_start(img, top), st_start(img.data@)) {
            (Some(from), Some(st)) => {
                let to = rows_end(img, end, st);
                if from < to {
                    Some((from, to))
                } else {
                    None
                }
            },
            _ => None,
        }
    }
}

/// The clipped sequence: header with adjusted height, the full palette, the kept rows, and a
/// string terminator.
pub open spec fn rebuilt_sixel(img: InlineImage, visible: int, cell_h: int, from: int, to: int) -> Seq<
    u8,
> {
    adjusted_header(img.data@.subrange(0, data_region(img.data@)), visible * cell_h)
        + text::concat_all(text::byte_lists(img.sixel_color_defs@)) + img.data@.subrange(from, to)
        + seq![ESC, 0x5cu8]
}

/// What remains of a sixel image when `skip` terminal rows are cut off at the top and at most
/// `keep` rows are kept.
pub open spec fn clipped_sixel(img: InlineImage, skip: int, keep: int, cell_h: int) -> Option<
    Seq<u8>,
> {
    let height = img.height_rows as int;
    if nothing_visible(height, skip, keep) {
        None
    } else if all_visible(height, skip, keep) {
        Some(img.data@)
    } else {
        match kept_range(img, skip, keep, cell_h) {
            Some((from, to)) => Some(
                rebuilt_sixel(img, visible_rows(height, skip, keep), cell_h, from, to),
            ),
            None => None,
        }
    }
}

/// Whether the pixel counts met in clipping can be held in a `usize`.
pub open spec fn clip_fits(height: int, skip: int, keep: int, cell_h: int) -> bool {
    nothing_visible(height, skip, keep) || all_visible(height, skip, keep) || (skip * cell_h
        <= usize::MAX && visible_rows(height, skip, keep) * cell_h <= usize::MAX)
}

/// The range of an image's data that holds the rows to keep.
fn find_kept_range(img: &InlineImage, skip_top: usize, keep_rows: usize, cell_h: usize) -> (r: Option<
    (usize, usize),
>)
    requires
        img.wf(),
        skip_top < img.height_rows,
        skip_top * cell_h <= usize::MAX,
        visible_rows(img.height_rows as int, skip_top as int, keep_rows as int) * cell_h
            <= usize::MAX,
    ensures
        match r {
            Some((from, to)) => {
                &&& kept_range(*img, skip_top as int, keep_rows as int, cell_h as int) == Some(
                    (from as int, to as int),
                )
                &&& from < to <= img.data@.len()
            },
            None => kept_range(
                *img,
                skip_top as int,
                keep_rows as int,
                cell_h as int,
            ) is None,
        },
{
    let left: usize = img.height_rows - skip_top;
    let visible: usize = if keep_rows <= left {
        keep_rows
    } else {
        left
    };
    // Floor division, so that the emitted rows never exceed the visible area.
    let top: usize = (skip_top * cell_h) / 6;
    let kept: usize = if visible * cell_h / 6 >= 1 {
        visible * cell_h / 6
    } else {
        1
    };
    if top >= img.sixel_row_count {
        return None;
    }
    let end: usize = if top + kept <= img.sixel_row_count {
        top + kept
    } else {
        img.sixel_row_count
    };
    let rows: usize = img.sixel_row_offsets.len();
    let len: usize = img.data.len();
    let from: usize = if top == 0 {
        find_data_region(img.data.as_slice())
    } else if top <= rows {
        assert(img.picture().sixel_row_offsets[top - 1] < len);
        img.sixel_row_offsets[top - 1] + 1
    } else {
        return None;
    };
    let st: usize = match find_st_position(img.data.as_slice()) {
        Some(st) => st,
        None => return None,
    };
    let to: usize = if end < img.sixel_row_count && end <= rows {
        assert(img.picture().sixel_row_offsets[end - 1] < len);
        img.sixel_row_offsets[end - 1]
    } else {
        st
    };
    if from >= to {
        return None;
    }
    Some((from, to))
}

/// Puts header, palette, the kept rows and a string terminator together.
fn rebuild_sixel(img: &InlineImage, visible: usize, cell_h: usize, from: usize, to: usize) -> (r:
    Vec<u8>)
    requires
        visible * cell_h <= usize::MAX,
        from <= to <= img.data@.len(),
    ensures
        r@ == rebuilt_sixel(*img, visible as int, cell_h as int, from as int, to as int),
{
    let region: usize = find_data_region(img.data.as_slice());
    let header = text::slice_vec(img.data.as_slice(), 0, region);
    let mut result = adjust_sixel_raster_height(header.as_slice(), visible * cell_h);
    let ghost head = result@;
    // The full palette comes first, so that colour references resolve even when the rows that
    // define the colours have been clipped away.
    let ghost defs = text::byte_lists(img.sixel_color_defs@);
    let mut k: usize = 0;
    assert(defs.subrange(0, 0) =~= seq![]);
    assert(head + text::concat_all(defs.subrange(0, 0)) =~= head);
    while k < img.sixel_color_defs.len()
        invariant
            k <= img.sixel_color_defs@.len(),
            defs == text::byte_lists(img.sixel_color_defs@),
            result@ == head + text::concat_all(defs.subrange(0, k as int)),
        decreases img.sixel_color_defs.len() - k,
    {
        text::append_bytes(&mut result, img.sixel_color_defs[k].as_slice());
        assert(defs.subrange(0, k + 1).drop_last() =~= defs.subrange(0, k as int));
        assert(result@ =~= head + text::concat_all(defs.subrange(0, k + 1)));
        k += 1;
    }
    assert(defs.subrange(0, k as int) =~= defs);
    let kept_data = vstd::slice::slice_subrange(img.data.as_slice(), from, to);
    text::append_bytes(&mut result, kept_data);
    result.push(ESC);
    result.push(0x5c);
    assert(result@ =~= rebuilt_sixel(*img, visible as int, cell_h as int, from as int, to as int));
    result
}

/// Build a clipped sixel sequence that keeps only the sixel rows corresponding
/// to terminal rows `skip_top .. skip_top + keep_rows`.
///
/// `skip_top`  - number of terminal rows to remove from the top  (0 = keep top)
/// `keep_rows` - maximum number of terminal rows to keep         (0 = nothing)
///
/// Returns `None` if nothing remains after clipping.
pub fn clip_sixel(img: &InlineImage, skip_top: usize, keep_rows: usize, cell_h: usize) -> (r: Option<
    Vec<u8>,
>)
    requires
        img.wf(),
        clip_fits(img.height_rows as int, skip_top as int, keep_rows as int, cell_h as int),
    ensures
        match r {
            Some(out) => clipped_sixel(*img, skip_top as int, keep_rows as int, cell_h as int)
                == Some(out@),
            None => clipped_sixel(
                *img,
                skip_top as int,
                keep_rows as int,
                cell_h as int,
            ) is None,
        },
{
    if keep_rows == 0 || skip_top >= img.height_rows {
        return None;
    }
    let left: usize = img.height_rows - skip_top;
    let visible: usize = if keep_rows <= left {
        keep_rows
    } else {
        left
    };
    if skip_top == 0 && visible >= img.height_rows {
        return Some(vstd::slice::slice_to_vec(img.data.as_slice()));
    }
    match find_kept_range(img, skip_top, keep_rows, cell_h) {
        Some((from, to)) => Some(rebuild_sixel(img, visible, cell_h, from, to)),
        None => None,
    }
}

} // verus!
