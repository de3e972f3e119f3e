//! How large images are: what is read from their data, and the cells that are reserved for them.
use vstd::prelude::*;
use crate::document;
use crate::document_laws;
use crate::image::ImageProtocol;
use crate::kitty;
use crate::kitty_laws;
use crate::scan;
use crate::sixel;
use crate::sixel::SixelInfo;
use crate::text;

verus! {

// ---------------------------------------------------------------------------
// Cells
// ---------------------------------------------------------------------------

/// `cells` cells of `cell` pixels hold `pixels` pixels, and one cell less would not.
pub open spec fn just_cover(cells: int, cell: int, pixels: int) -> bool {
    (cells - 1) * cell < pixels <= cells * cell
}

/// The cells reserved for some pixels cover them, and there is no cell too many; for no pixels one
/// cell is reserved.
pub proof fn law_cells_cover(pixels: int, cell: int)
    requires
        0 <= pixels,
        0 < cell,
    ensures
        pixels > 0 ==> just_cover(sixel::cells_for(pixels, cell), cell, pixels),
        pixels == 0 ==> sixel::cells_for(pixels, cell) == 1,
{
    let q = pixels / cell;
    let r = pixels % cell;
    assert(pixels == q * cell + r && 0 <= r < cell && 0 <= q) by (nonlinear_arith)
        requires
            q == pixels / cell,
            r == pixels % cell,
            0 < cell,
            0 <= pixels,
    ;
    if pixels > 0 {
        if r == 0 {
            assert(q >= 1 && (q - 1) * cell < pixels && pixels <= q * cell) by (nonlinear_arith)
                requires
                    pixels == q * cell,
                    0 < pixels,
                    0 < cell,
                    0 <= q,
            ;
        } else {
            assert((q + 1 - 1) * cell < pixels && pixels <= (q + 1) * cell) by (nonlinear_arith)
                requires
                    pixels == q * cell + r,
                    0 < r < cell,
            ;
        }
    } else {
        assert(q == 0 && r == 0) by (nonlinear_arith)
            requires
                q == 0int / cell,
                r == 0int % cell,
                0 < cell,
        ;
    }
}

/// The size of a sixel image in cells, given its data: where the raster attributes declare a height
/// the rows cover it; else they cover six pixels for each sixel row, of which there is one more
/// than row separators. The columns cover the declared width, else the widest line.
pub open spec fn sixel_covered(d: Seq<u8>, cols: int, rows: int, cell_w: int, cell_h: int) -> bool {
    let declared_w = sixel::raster_field(d, 2);
    let declared_h = sixel::raster_field(d, 3);
    let separators = sixel::row_breaks(d, sixel::data_region(d)).len() as int;
    let widest = sixel::widest_line(d, sixel::data_region(d), 0);
    &&& declared_h > 0 ==> just_cover(rows, cell_h, declared_h)
    &&& declared_h == 0 ==> just_cover(rows, cell_h, 6 * (separators + 1))
    &&& declared_w > 0 ==> just_cover(cols, cell_w, declared_w)
    &&& declared_w == 0 && widest > 0 ==> just_cover(cols, cell_w, widest)
    &&& declared_w == 0 && widest == 0 ==> cols == 1
}

proof fn lemma_raster_field(d: Seq<u8>, k: int)
    requires
        0 <= k < 4,
    ensures
        0 <= sixel::raster_field(d, k),
{
    if text::find_byte(d, 0x71, 0) is Some && sixel::has_raster(d) && sixel::data_region(d)
        < d.len() {
        let parts = text::split(
            d.subrange(sixel::body_start(d) + 1, sixel::data_region(d)),
            0x3b,
        );
        if parts.len() >= 4 {
            let p = parts[k];
            let digits = if p.len() > 0 && p[0] == 0x2b {
                p.subrange(1, p.len() as int)
            } else {
                p
            };
            if text::all_digits(digits) {
                text::lemma_digits_value_bounds(digits);
            }
        }
    }
}

proof fn lemma_widest(d: Seq<u8>, i: int, cur: int)
    requires
        0 <= cur,
    ensures
        cur <= sixel::widest_line(d, i, cur),
    decreases d.len() - i,
{
    if !sixel::scan_done(d, i) {
        sixel::lemma_token_end(d, i);
        if d[i] == 0x2d || d[i] == 0x24 {
        } else {
            lemma_widest(d, sixel::token_end(d, i), cur + sixel::columns_drawn(d, i));
        }
    }
}

proof fn lemma_sixel_covered(d: Seq<u8>, cell_w: int, cell_h: int)
    requires
        0 < cell_w,
        0 < cell_h,
    ensures
        sixel_covered(
            d,
            sixel::cells_for(sixel::sixel_pixel_width(d), cell_w),
            sixel::cells_for(sixel::sixel_pixel_height(d), cell_h),
            cell_w,
            cell_h,
        ),
{
    lemma_raster_field(d, 2);
    lemma_raster_field(d, 3);
    lemma_widest(d, sixel::data_region(d), 0);
    law_cells_cover(sixel::sixel_pixel_width(d), cell_w);
    law_cells_cover(sixel::sixel_pixel_height(d), cell_h);
}

/// What is found out about a sixel sequence covers the picture. Where the raster attributes declare
/// no height, the rows hold six pixels for every sixel row, and no row is too many.
pub proof fn law_rows_cover_picture(info: SixelInfo, d: Seq<u8>, cell_w: int, cell_h: int)
    requires
        info.measures(d, cell_w, cell_h),
        0 < cell_w,
        0 < cell_h,
    ensures
        sixel_covered(d, info.width_cols as int, info.height_rows as int, cell_w, cell_h),
        ({
            let separators = sixel::row_breaks(d, sixel::data_region(d)).len() as int;
            let pixels = 6 * (separators + 1);
            &&& sixel::raster_field(d, 3) == 0 ==> info.height_rows * cell_h >= pixels && (
            info.height_rows - 1) * cell_h < pixels
            &&& info.sixel_row_count == separators + 1
            &&& info.sixel_row_offsets@.len() == separators
        }),
{
    lemma_sixel_covered(d, cell_w, cell_h);
}

/// The rows reserved for a sixel image of a processed text cover it, and so do the columns.
pub proof fn law_document_rows_cover(input: Seq<char>, cell_w: int, cell_h: int, i: int)
    requires
        document::processed(input, cell_w, cell_h) is Some,
        0 <= i < (document::processed(input, cell_w, cell_h)->0).images.len(),
        (document::processed(input, cell_w, cell_h)->0).images[i].image.protocol
            == ImageProtocol::Sixel,
        0 < cell_w,
        0 < cell_h,
    ensures
        ({
            let p = (document::processed(input, cell_w, cell_h)->0).images[i].image;
            let pixels = 6 * (sixel::row_breaks(p.data, sixel::data_region(p.data)).len() + 1);
            &&& sixel_covered(p.data, p.width_cols, p.height_rows, cell_w, cell_h)
            &&& sixel::raster_field(p.data, 3) == 0 ==> p.height_rows * cell_h >= pixels && (
            p.height_rows - 1) * cell_h < pixels
        }),
{
    document_laws::law_sixel_images_recorded(input, cell_w, cell_h, i);
    let p = (document::processed(input, cell_w, cell_h)->0).images[i].image;
    lemma_sixel_covered(p.data, cell_w, cell_h);
}

// ---------------------------------------------------------------------------
// Declared sizes
// ---------------------------------------------------------------------------

/// A sixel header up to the picture data: `lead` with its `q`, and raster attributes that declare
/// the aspect ratio `a : b` and the size `w` by `h`.
pub open spec fn header_with_size(lead: Seq<u8>, a: int, b: int, w: int, h: int) -> Seq<u8> {
    lead + seq![0x71u8, 0x22u8] + text::join(
        seq![text::decimal(a), text::decimal(b), text::decimal(w), text::decimal(h)],
        0x3b,
    )
}

pub proof fn lemma_decimal_read(n: int, max: int)
    requires
        0 <= n <= max,
    ensures
        text::parse_unsigned(text::decimal(n), max) == Some(n),
        !text::decimal(n).contains(0x3bu8),
        !text::decimal(n).contains(0x2cu8),
        forall|j: int|
            0 <= j < text::decimal(n).len() ==> text::is_digit(#[trigger] text::decimal(n)[j]),
{
    text::lemma_decimal_digits(n);
    let d = text::decimal(n);
    assert(text::is_digit(d[0]));
    if d.contains(0x3bu8) {
        let j = choose|j: int| 0 <= j < d.len() && d[j] == 0x3bu8;
        assert(text::is_digit(d[j]));
    }
    if d.contains(0x2cu8) {
        let j = choose|j: int| 0 <= j < d.len() && d[j] == 0x2cu8;
        assert(text::is_digit(d[j]));
    }
}

/// Every byte of joined numbers is a digit or a separator.
pub proof fn lemma_joined_bytes(parts: Seq<Seq<u8>>, j: int)
    requires
        forall|k: int| 0 <= k < parts.len() ==> text::all_digits(#[trigger] parts[k]),
        0 <= j < text::join(parts, 0x3b).len(),
    ensures
        text::is_digit(text::join(parts, 0x3b)[j]) || text::join(parts, 0x3b)[j] == 0x3b,
    decreases parts.len(),
{
    if parts.len() == 1 {
        assert(text::all_digits(parts[0]));
        assert(text::is_digit(parts[0][j]));
    } else if parts.len() > 1 {
        let init = parts.drop_last();
        let head = text::join(init, 0x3b);
        assert forall|k: int| 0 <= k < init.len() implies text::all_digits(#[trigger] init[k]) by {
            assert(init[k] == parts[k]);
        }
        if j < head.len() {
            lemma_joined_bytes(init, j);
        } else if j > head.len() {
            assert(text::all_digits(parts[parts.len() - 1]));
            assert(text::is_digit(parts.last()[j - head.len() - 1]));
        }
    }
}

/// Without raster attributes, and without a `q`, no size is declared; the data start right behind the
/// `q`, or at the very beginning.
pub proof fn law_no_declared_size(lead: Seq<u8>, rest: Seq<u8>, k: int)
    requires
        forall|j: int| 0 <= j < lead.len() ==> #[trigger] lead[j] != 0x71,
        rest.len() == 0 || rest[0] != 0x22,
        lead.len() == 0 || lead[0] != 0x22,
    ensures
        sixel::raster_field(lead + seq![0x71u8] + rest, k) == 0,
        sixel::data_region(lead + seq![0x71u8] + rest) == lead.len() + 1,
        sixel::raster_field(lead, k) == 0,
        sixel::data_region(lead) == 0,
{
    let d = lead + seq![0x71u8] + rest;
    let q = lead.len() as int;
    assert(d[q] == 0x71);
    assert(forall|j: int| 0 <= j < q ==> d[j] == lead[j]);
    text::lemma_find_byte_unique(d, 0x71, 0, q);
    text::lemma_find_byte_none(lead, 0x71, 0);
    if rest.len() > 0 {
        assert(d[q + 1] == rest[0]);
    }
}

/// The declared size is the one in the raster attributes: of the four numbers behind the quote, the
/// third is the width and the fourth the height.
pub proof fn law_declared_size(
    lead: Seq<u8>,
    a: int,
    b: int,
    w: int,
    h: int,
    rest: Seq<u8>,
)
    requires
        0 <= a <= usize::MAX,
        0 <= b <= usize::MAX,
        0 < w <= usize::MAX,
        0 < h <= usize::MAX,
        forall|j: int| 0 <= j < lead.len() ==> #[trigger] lead[j] != 0x71,
        rest.len() > 0,
        rest[0] == 0x23 || rest[0] == 0x21 || rest[0] == 0x24 || rest[0] == 0x2d || 0x3f <= rest[0]
            <= 0x7e,
    ensures
        ({
            let d = header_with_size(lead, a, b, w, h) + rest;
            &&& sixel::raster_field(d, 2) == w
            &&& sixel::raster_field(d, 3) == h
            &&& sixel::sixel_pixel_width(d) == w
            &&& sixel::sixel_pixel_height(d) == h
            &&& sixel::data_region(d) == header_with_size(lead, a, b, w, h).len()
        }),
{
    let parts = seq![text::decimal(a), text::decimal(b), text::decimal(w), text::decimal(h)];
    let head = header_with_size(lead, a, b, w, h);
    let d = head + rest;
    let q = lead.len() as int;
    let numbers = text::join(parts, 0x3b);
    lemma_decimal_read(a, usize::MAX as int);
    lemma_decimal_read(b, usize::MAX as int);
    lemma_decimal_read(w, usize::MAX as int);
    lemma_decimal_read(h, usize::MAX as int);
    assert forall|k: int| 0 <= k < parts.len() implies text::all_digits(#[trigger] parts[k]) && !(
    parts[k]).contains(0x3b) by {
    }
    kitty_laws::lemma_split_join(parts, 0x3b);
    assert(d[q] == 0x71 && d[q + 1] == 0x22);
    assert(forall|j: int| 0 <= j < q ==> d[j] == lead[j]);
    text::lemma_find_byte_unique(d, 0x71, 0, q);
    let e = head.len() as int;
    assert(d[e] == rest[0]);
    assert forall|j: int| q + 1 <= j < e implies !sixel::ends_raster(#[trigger] d[j]) by {
        if j > q + 1 {
            assert(d[j] == numbers[j - q - 2]);
            lemma_joined_bytes(parts, j - q - 2);
        }
    }
    sixel::lemma_raster_end(d, q + 1);
    assert(sixel::raster_end(d, q + 1) == e) by {
        let r = sixel::raster_end(d, q + 1);
        if r < e {
            assert(!sixel::ends_raster(d[r]));
        }
    }
    assert(d.subrange(q + 2, e) =~= numbers);
}

// ---------------------------------------------------------------------------
// Rows and lines of sixel data
// ---------------------------------------------------------------------------

/// The row separators of data without repeat introducers are exactly the `-` bytes before the first
/// escape byte, in order.
pub proof fn law_row_separators(d: Seq<u8>, i: int, stop: int)
    requires
        0 <= i <= stop <= d.len(),
        d.len() <= usize::MAX,
        stop < d.len() ==> d[stop] == 0x1b,
        forall|j: int| i <= j < stop ==> #[trigger] d[j] != 0x1b && d[j] != 0x21,
    ensures
        forall|j: int|
            i <= j < stop ==> (#[trigger] d[j] == 0x2d <==> sixel::row_breaks(d, i).contains(
                j as usize,
            )),
        forall|k: int|
            0 <= k < sixel::row_breaks(d, i).len() ==> i <= #[trigger] sixel::row_breaks(d, i)[k]
                < stop,
        forall|k: int, l: int|
            0 <= k < l < sixel::row_breaks(d, i).len() ==> #[trigger] sixel::row_breaks(d, i)[k]
                < #[trigger] sixel::row_breaks(d, i)[l],
    decreases stop - i,
{
    let all = sixel::row_breaks(d, i);
    if i < stop {
        sixel::lemma_token_end(d, i);
        let next = sixel::token_end(d, i);
        if d[i] == 0x23 {
            sixel::lemma_params_end(d, i + 1);
            if next > stop {
                assert(sixel::is_param(d[stop]));
            }
        }
        law_row_separators(d, next, stop);
        let rest = sixel::row_breaks(d, next);
        assert forall|j: int| i <= j < stop implies (#[trigger] d[j] == 0x2d <==> all.contains(
            j as usize,
        )) by {
            if j < next {
                if j > i {
                    assert(sixel::is_param(d[j]));
                }
                if d[j] == 0x2d {
                    assert(all[0] == j as usize);
                } else if all.contains(j as usize) {
                    let k = choose|k: int| 0 <= k < all.len() && all[k] == j as usize;
                    if d[i] == 0x2d {
                        assert(all[k] == rest[k - 1]);
                    } else {
                        assert(all[k] == rest[k]);
                    }
                }
            } else {
                if rest.contains(j as usize) {
                    let k = choose|k: int| 0 <= k < rest.len() && rest[k] == j as usize;
                    if d[i] == 0x2d {
                        assert(all[k + 1] == rest[k]);
                    } else {
                        assert(all[k] == rest[k]);
                    }
                }
                if all.contains(j as usize) {
                    let k = choose|k: int| 0 <= k < all.len() && all[k] == j as usize;
                    if d[i] == 0x2d {
                        assert(all[k] == rest[k - 1]);
                    } else {
                        assert(all[k] == rest[k]);
                    }
                }
            }
        }
        if d[i] == 0x2d {
            assert(all =~= seq![i as usize] + rest);
        } else {
            assert(all == rest);
        }
    }
}

/// A repeated character is no row separator: behind a repeat introducer and its count, scanning goes
/// on behind the character that is repeated.
pub proof fn law_repeated_separator(d: Seq<u8>, i: int, e: int)
    requires
        0 <= i < e < d.len(),
        d[i] == 0x21,
        forall|j: int| i < j < e ==> text::is_digit(#[trigger] d[j]),
        !text::is_digit(d[e]),
    ensures
        sixel::row_breaks(d, i) == sixel::row_breaks(d, e + 1),
        sixel::color_defs(d, i) == sixel::color_defs(d, e + 1),
{
    lemma_digits_run(d, i + 1, e);
}

proof fn lemma_digits_run(d: Seq<u8>, i: int, e: int)
    requires
        0 <= i <= e < d.len(),
        forall|j: int| i <= j < e ==> text::is_digit(#[trigger] d[j]),
        !text::is_digit(d[e]),
    ensures
        sixel::digits_end(d, i) == e,
    decreases e - i,
{
    if i < e {
        assert(text::is_digit(d[i]));
        lemma_digits_run(d, i + 1, e);
    }
}

proof fn lemma_params_run(d: Seq<u8>, i: int, e: int)
    requires
        0 <= i <= e <= d.len(),
        forall|j: int| i <= j < e ==> sixel::is_param(#[trigger] d[j]),
        e < d.len() ==> !sixel::is_param(d[e]),
    ensures
        sixel::params_end(d, i) == e,
    decreases e - i,
{
    if i < e {
        assert(sixel::is_param(d[i]));
        lemma_params_run(d, i + 1, e);
    }
}

/// A run of `k - i` sixel bytes is that many pixels wide: it ends the line at a `-` or a `$`, and the
/// picture at an escape byte.
pub proof fn law_line_width(d: Seq<u8>, i: int, k: int, cur: int)
    requires
        0 <= i <= k < d.len(),
        0 <= cur,
        forall|j: int| i <= j < k ==> 0x3f <= #[trigger] d[j] <= 0x7e,
    ensures
        d[k] == 0x1b ==> sixel::widest_line(d, i, cur) == cur + (k - i),
        d[k] == 0x2d || d[k] == 0x24 ==> {
            let below = sixel::widest_line(d, k + 1, 0);
            sixel::widest_line(d, i, cur) == (if cur + (k - i) > below {
                cur + (k - i)
            } else {
                below
            })
        },
    decreases k - i,
{
    if i < k {
        assert(0x3f <= d[i] <= 0x7e);
        law_line_width(d, i + 1, k, cur + 1);
    }
}

/// A repeat introducer makes the sixel byte behind its count as wide as the count says, and never
/// less than one pixel.
pub proof fn law_repeat_width(d: Seq<u8>, i: int, n: int, cur: int)
    requires
        0 <= i,
        0 <= n,
        i + 1 + text::decimal(n).len() < d.len(),
        d[i] == 0x21,
        d.subrange(i + 1, i + 1 + text::decimal(n).len()) == text::decimal(n),
        0x3f <= d[i + 1 + text::decimal(n).len()] <= 0x7e,
    ensures
        sixel::widest_line(d, i, cur) == sixel::widest_line(
            d,
            i + 2 + text::decimal(n).len(),
            cur + (if n == 0 {
                1
            } else {
                n
            }),
        ),
{
    let e = i + 1 + text::decimal(n).len();
    text::lemma_decimal_digits(n);
    assert forall|j: int| i + 1 <= j < e implies text::is_digit(#[trigger] d[j]) by {
        assert(d[j] == d.subrange(i + 1, e)[j - i - 1]);
        assert(text::is_digit(text::decimal(n)[j - i - 1]));
    }
    lemma_digits_run(d, i + 1, e);
}

/// A colour introducer draws nothing. It defines a colour where more than a register number stands
/// behind it; definitions are collected as they stand, selections of a register are not.
pub proof fn law_color_introducer(d: Seq<u8>, i: int, e: int, cur: int)
    requires
        0 <= i < e <= d.len(),
        d[i] == 0x23,
        forall|j: int| i < j < e ==> (0x30 <= #[trigger] d[j] <= 0x39 || d[j] == 0x3b),
        e < d.len() ==> !(0x30 <= d[e] <= 0x39 || d[e] == 0x3b),
    ensures
        sixel::widest_line(d, i, cur) == sixel::widest_line(d, e, cur),
        sixel::row_breaks(d, i) == sixel::row_breaks(d, e),
        d.subrange(i, e).contains(0x3b) ==> sixel::color_defs(d, i) == seq![d.subrange(i, e)]
            + sixel::color_defs(d, e),
        !d.subrange(i, e).contains(0x3b) ==> sixel::color_defs(d, i) == sixel::color_defs(d, e),
        d.subrange(i, e).contains(0x3b) ==> sixel::defs_end(d, i) == sixel::defs_end(d, e),
        !d.subrange(i, e).contains(0x3b) ==> sixel::defs_end(d, i) == i,
{
    assert forall|j: int| i < j < e implies sixel::is_param(#[trigger] d[j]) by {
    }
    lemma_params_run(d, i + 1, e);
}

/// Anything but a colour introducer ends the colour definitions at the start of the data.
pub proof fn law_definitions_end(d: Seq<u8>, i: int)
    requires
        i < 0 || i >= d.len() || d[i] != 0x23,
    ensures
        sixel::defs_end(d, i) == i,
{
}

// ---------------------------------------------------------------------------
// Kitty images
// ---------------------------------------------------------------------------

/// The cells of a kitty image: declared columns and rows are taken as they are; where they are not
/// declared they cover the pixels, and where neither is known there is one.
pub proof fn law_kitty_cells(d: Seq<u8>, cell_w: int, cell_h: int)
    requires
        0 < cell_w,
        0 < cell_h,
        kitty::kitty_size(d) matches Some((cols, rows, w, h)) ==> 0 <= cols && 0 <= rows && 0 <= w
            && 0 <= h,
    ensures
        kitty::kitty_size(d) is None ==> kitty::kitty_cells(d, cell_w, cell_h) == (1int, 1int),
        kitty::kitty_size(d) matches Some((cols, rows, w, h)) ==> {
            let cells = kitty::kitty_cells(d, cell_w, cell_h);
            &&& cols > 0 ==> cells.0 == cols
            &&& rows > 0 ==> cells.1 == rows
            &&& cols == 0 && w > 0 ==> just_cover(cells.0, cell_w, w)
            &&& rows == 0 && h > 0 ==> just_cover(cells.1, cell_h, h)
            &&& cols == 0 && w == 0 ==> cells.0 == 1
            &&& rows == 0 && h == 0 ==> cells.1 == 1
        },
{
    if let Some((cols, rows, w, h)) = kitty::kitty_size(d) {
        law_cells_cover(w, cell_w);
        law_cells_cover(h, cell_h);
    }
}

/// The entries `key=n`.
pub open spec fn number_entry(key: u8, n: int) -> Seq<u8> {
    seq![key, 0x3du8] + text::decimal(n)
}

proof fn lemma_last_value(parts: Seq<Seq<u8>>, key: u8, k: int)
    requires
        0 <= k < parts.len(),
        kitty::has_key(parts[k], key),
        forall|j: int| k < j < parts.len() ==> !kitty::has_key(#[trigger] parts[j], key),
    ensures
        kitty::last_value(parts, key) == Some(parts[k].subrange(2, parts[k].len() as int)),
    decreases parts.len(),
{
    if k < parts.len() - 1 {
        assert(!kitty::has_key(parts[parts.len() - 1], key));
        let init = parts.drop_last();
        assert forall|j: int| k < j < init.len() implies !kitty::has_key(#[trigger] init[j], key) by {
            assert(init[j] == parts[j]);
        }
        lemma_last_value(init, key, k);
    }
}

proof fn lemma_number_entry(parts: Seq<Seq<u8>>, key: u8, k: int, n: int, default: int, max: int)
    requires
        0 <= k < parts.len(),
        0 <= n <= max,
        parts[k] == number_entry(key, n),
        forall|j: int| k < j < parts.len() ==> !kitty::has_key(#[trigger] parts[j], key),
    ensures
        kitty::number_of(parts, key, default, max) == n,
{
    lemma_last_value(parts, key, k);
    let e = parts[k];
    assert(e.subrange(2, e.len() as int) =~= text::decimal(n));
    lemma_decimal_read(n, max);
}

/// A kitty image starts with ESC _ G and its control part: entries with commas between them, up to
/// the first `;`.
pub open spec fn kitty_with(parts: Seq<Seq<u8>>, rest: Seq<u8>) -> Seq<u8> {
    seq![0x1bu8, 0x5fu8, 0x47u8] + text::join(parts, 0x2c) + seq![0x3bu8] + rest
}

proof fn lemma_control_read(parts: Seq<Seq<u8>>, rest: Seq<u8>)
    requires
        parts.len() > 0,
        forall|k: int|
            0 <= k < parts.len() ==> !(#[trigger] parts[k]).contains(0x2c) && !parts[k].contains(
                0x3b,
            ),
    ensures
        kitty::control_part(kitty_with(parts, rest)) == Some(text::join(parts, 0x2c)),
        text::split(text::join(parts, 0x2c), 0x2c) == parts,
{
    let c = text::join(parts, 0x2c);
    let d = kitty_with(parts, rest);
    lemma_join_without(parts, 0x2c, 0x3b);
    let e = 3 + c.len();
    assert(d[e as int] == 0x3b);
    assert forall|j: int| 3 <= j < e implies d[j] != 0x3b by {
        assert(d[j] == c[j - 3]);
        if d[j] == 0x3b {
            assert(c.contains(0x3b));
        }
    }
    text::lemma_find_byte_unique(d, 0x3b, 3, e as int);
    assert(d.subrange(3, e as int) =~= c);
    kitty_laws::lemma_split_join(parts, 0x2c);
}

pub proof fn lemma_join_without(parts: Seq<Seq<u8>>, sep: u8, b: u8)
    requires
        sep != b,
        forall|k: int| 0 <= k < parts.len() ==> !(#[trigger] parts[k]).contains(b),
    ensures
        !text::join(parts, sep).contains(b),
    decreases parts.len(),
{
    let all = text::join(parts, sep);
    if parts.len() == 1 {
        assert(!parts[0].contains(b));
    } else if parts.len() > 1 {
        let init = parts.drop_last();
        assert forall|k: int| 0 <= k < init.len() implies !(#[trigger] init[k]).contains(b) by {
            assert(init[k] == parts[k]);
        }
        lemma_join_without(init, sep, b);
        let head = text::join(init, sep);
        assert(!parts[parts.len() - 1].contains(b));
        if all.contains(b) {
            let j = choose|j: int| 0 <= j < all.len() && all[j] == b;
            if j < head.len() {
                assert(head[j] == b);
            } else if j > head.len() {
                assert(parts.last()[j - head.len() - 1] == b);
            }
        }
    }
}

/// What a kitty image declares of its size: `c` the columns, `r` the rows, `s` the width and `v` the
/// height in pixels. The last entry for a key counts. Where a width or height in pixels is declared,
/// the payload is not looked at.
pub proof fn law_kitty_declares(parts: Seq<Seq<u8>>, rest: Seq<u8>, k: int, key: u8, n: int)
    requires
        forall|j: int|
            0 <= j < parts.len() ==> !(#[trigger] parts[j]).contains(0x2c) && !parts[j].contains(
                0x3b,
            ),
        0 <= k < parts.len(),
        0 < n <= usize::MAX,
        key == 0x63 || key == 0x72 || key == 0x73 || key == 0x76,
        parts[k] == number_entry(key, n),
        forall|j: int| k < j < parts.len() ==> !kitty::has_key(#[trigger] parts[j], key),
    ensures
        kitty::kitty_size(kitty_with(parts, rest)) is Some,
        ({
            let (cols, rows, w, h) = kitty::kitty_size(kitty_with(parts, rest))->0;
            &&& key == 0x63 ==> cols == n
            &&& key == 0x72 ==> rows == n
            &&& key == 0x73 ==> w == n
            &&& key == 0x76 ==> h == n
        }),
{
    lemma_control_read(parts, rest);
    lemma_number_entry(parts, key, k, n, 0, usize::MAX as int);
}

/// Four bytes as a number, the first the most significant.
pub open spec fn number32(a: u8, b: u8, c: u8, d: u8) -> int {
    ((a * 256 + b) * 256 + c) * 256 + d
}

/// The size of a PNG file: behind the signature and eight bytes more stand the width and the height,
/// four bytes each.
pub proof fn law_png_size(chunk: Seq<u8>, w: Seq<u8>, h: Seq<u8>, rest: Seq<u8>)
    requires
        chunk.len() == 8,
        w.len() == 4,
        h.len() == 4,
    ensures
        ({
            let signature = seq![
                0x89u8,
                0x50u8,
                0x4eu8,
                0x47u8,
                0x0du8,
                0x0au8,
                0x1au8,
                0x0au8,
            ];
            let file = signature + chunk + w + h + rest;
            let width = number32(w[0], w[1], w[2], w[3]);
            let height = number32(h[0], h[1], h[2], h[3]);
            kitty::png_size(file) == (if width > 0 && height > 0 {
                Some((width, height))
            } else {
                None
            })
        }),
{
    let signature = seq![0x89u8, 0x50u8, 0x4eu8, 0x47u8, 0x0du8, 0x0au8, 0x1au8, 0x0au8];
    let file = signature + chunk + w + h + rest;
    assert(file.subrange(0, 8) =~= signature);
    assert(file[16] == w[0] && file[17] == w[1] && file[18] == w[2] && file[19] == w[3]);
    assert(file[20] == h[0] && file[21] == h[1] && file[22] == h[2] && file[23] == h[3]);
}

/// Bytes that do not start with the signature are no PNG file.
pub proof fn law_no_png_size(file: Seq<u8>, j: int)
    requires
        0 <= j < 8,
        file.len() < 24 || file[j] != seq![
            0x89u8,
            0x50u8,
            0x4eu8,
            0x47u8,
            0x0du8,
            0x0au8,
            0x1au8,
            0x0au8,
        ][j],
    ensures
        kitty::png_size(file) is None,
{
    if file.len() >= 24 {
        assert(file.subrange(0, 8)[j] == file[j]);
    }
}

/// The size of a PNG file counts only for an image that is declared as one (format 100), that
/// declares no size in pixels, and that leaves its columns or its rows open.
pub proof fn law_png_header_counts(parts: Seq<Seq<u8>>, rest: Seq<u8>)
    requires
        parts.len() > 0,
        forall|j: int|
            0 <= j < parts.len() ==> !(#[trigger] parts[j]).contains(0x2c) && !parts[j].contains(
                0x3b,
            ),
    ensures
        ({
            let d = kitty_with(parts, rest);
            let max = usize::MAX as int;
            let cols = kitty::number_of(parts, 0x63, 0, max);
            let rows = kitty::number_of(parts, 0x72, 0, max);
            let w = kitty::number_of(parts, 0x73, 0, max);
            let h = kitty::number_of(parts, 0x76, 0, max);
            let png = kitty::number_of(parts, 0x66, 32, u32::MAX as int) == 100;
            &&& kitty::kitty_size(d) matches Some((c, r, x, y))
            &&& c == cols && r == rows
            &&& w != 0 || h != 0 || !png || cols != 0 && rows != 0 ==> x == w && y == h
            &&& w == 0 && h == 0 && png && (cols == 0 || rows == 0) ==> match kitty::payload_png_size(
                d,
            ) {
                Some((pw, ph)) => x == pw && y == ph,
                None => x == 0 && y == 0,
            }
        }),
{
    lemma_control_read(parts, rest);
}

/// A kitty image is given the columns and rows that its size takes.
pub proof fn law_kitty_picture(d: Seq<u8>, col: int, cell_w: int, cell_h: int)
    ensures
        ({
            let p = scan::kitty_picture(d, col, cell_w, cell_h);
            let (cols, rows) = kitty::kitty_cells(d, cell_w, cell_h);
            &&& p.width_cols == cols
            &&& p.height_rows == rows
            &&& p.width_cols >= 1
            &&& p.height_rows >= 1
            &&& p.col == col
            &&& p.data == d
            &&& p.protocol == ImageProtocol::Kitty
        }),
{
}

} // verus!
