//! What clipping a sixel image guarantees about the sequence that comes out.
use vstd::prelude::*;
use vstd::utf8::*;
use crate::external;
use crate::image::{ImageModel, ImageProtocol, InlineImage};
use crate::kitty_laws;
use crate::sixel;
use crate::strings;
use crate::text;

verus! {

/// A byte that scanning steps over one at a time and that is no row separator.
pub open spec fn is_plain(b: u8) -> bool {
    b != sixel::ESC && b != 0x23 && b != 0x21 && b != 0x2d
}

proof fn lemma_no_breaks(d: Seq<u8>, i: int)
    requires
        0 <= i,
        forall|j: int| i <= j < d.len() ==> d[j] != 0x2d,
    ensures
        sixel::row_breaks(d, i).len() == 0,
    decreases d.len() - i,
{
    if !sixel::scan_done(d, i) {
        sixel::lemma_token_end(d, i);
        lemma_no_breaks(d, sixel::token_end(d, i));
    }
}

proof fn lemma_skip_plain(d: Seq<u8>, i: int, k: int)
    requires
        0 <= i <= k <= d.len(),
        forall|j: int| i <= j < k ==> is_plain(#[trigger] d[j]),
    ensures
        sixel::row_breaks(d, i) == sixel::row_breaks(d, k),
    decreases k - i,
{
    if i < k {
        assert(is_plain(d[i]));
        lemma_skip_plain(d, i + 1, k);
    }
}

/// Raster attributes that hold no escape byte are skipped without losing a row separator.
proof fn lemma_skip_raster(d: Seq<u8>, i: int)
    requires
        0 <= i <= d.len(),
        forall|j: int| i <= j < sixel::raster_end(d, i) ==> d[j] != sixel::ESC,
    ensures
        sixel::row_breaks(d, sixel::raster_end(d, i)) == sixel::row_breaks(d, i),
{
    let e = sixel::raster_end(d, i);
    sixel::lemma_raster_end(d, i);
    assert forall|j: int| i <= j < e implies is_plain(#[trigger] d[j]) by {
        assert(!sixel::ends_raster(d[j]));
    }
    lemma_skip_plain(d, i, e);
}

/// Colour definitions hold no row separator.
proof fn lemma_skip_palette(d: Seq<u8>, i: int, k: int)
    requires
        0 <= i <= k <= d.len(),
        forall|j: int| i <= j < k ==> (#[trigger] d[j] == 0x23 || sixel::is_param(d[j])),
    ensures
        sixel::row_breaks(d, i) == sixel::row_breaks(d, k),
    decreases k - i,
{
    if i < k {
        assert(d[i] == 0x23 || sixel::is_param(d[i]));
        sixel::lemma_token_end(d, i);
        if d[i] == 0x23 {
            let e = sixel::token_end(d, i);
            sixel::lemma_params_end(d, i + 1);
            if e <= k {
                lemma_skip_palette(d, e, k);
            } else {
                assert forall|j: int| k <= j < e implies is_plain(#[trigger] d[j]) by {
                    assert(sixel::is_param(d[j]));
                }
                lemma_skip_plain(d, k, e);
            }
        } else {
            lemma_skip_palette(d, i + 1, k);
        }
    }
}

/// The number of row separators before `e` met when scanning from `i`.
pub open spec fn breaks_before(d: Seq<u8>, i: int, e: int) -> int
    decreases d.len() - i,
{
    if i >= e || sixel::scan_done(d, i) {
        0
    } else {
        proof {
            sixel::lemma_token_end(d, i);
        }
        (if d[i] == 0x2d {
            1int
        } else {
            0
        }) + breaks_before(d, sixel::token_end(d, i), e)
    }
}

/// `out` holds `d[s..e]` at `o`, followed by a string terminator only.
pub open spec fn embedded(d: Seq<u8>, s: int, e: int, out: Seq<u8>, o: int) -> bool {
    &&& 0 <= s <= e < d.len()
    &&& 0 <= o
    &&& out.len() == o + (e - s) + 2
    &&& forall|t: int| s <= t < e ==> out[o + t - s] == #[trigger] d[t]
    &&& out[o + e - s] == sixel::ESC
    &&& out[o + e - s + 1] == 0x5c
    &&& !sixel::is_param(d[e])
}

proof fn lemma_embedded_ends(d: Seq<u8>, s: int, e: int, out: Seq<u8>, o: int, i: int)
    requires
        embedded(d, s, e, out, o),
        s <= i <= e,
    ensures
        sixel::digits_end(out, o + i - s) == o + sixel::digits_end(d, i) - s,
        sixel::params_end(out, o + i - s) == o + sixel::params_end(d, i) - s,
        sixel::digits_end(d, i) <= e,
        sixel::params_end(d, i) <= e,
    decreases e - i,
{
    if i < e {
        assert(out[o + i - s] == d[i]);
        lemma_embedded_ends(d, s, e, out, o, i + 1);
    }
}

proof fn lemma_embedded_breaks(d: Seq<u8>, s: int, e: int, out: Seq<u8>, o: int, i: int)
    requires
        embedded(d, s, e, out, o),
        s <= i,
    ensures
        sixel::row_breaks(out, o + i - s).len() == breaks_before(d, i, e),
    decreases d.len() - i,
{
    if i >= e {
        lemma_no_breaks(out, o + i - s);
    } else if d[i] != sixel::ESC {
        let p = o + i - s;
        assert(out[p] == d[i]);
        sixel::lemma_token_end(d, i);
        lemma_embedded_ends(d, s, e, out, o, i + 1);
        assert(sixel::token_end(out, p) == o + sixel::token_end(d, i) - s);
        lemma_embedded_breaks(d, s, e, out, o, sixel::token_end(d, i));
    } else {
        assert(out[o + i - s] == d[i]);
    }
}

/// Raster attributes that end inside an embedded part end there in both sequences.
proof fn lemma_embedded_raster(d: Seq<u8>, s: int, e: int, out: Seq<u8>, o: int, i: int)
    requires
        embedded(d, s, e, out, o),
        s <= i <= e,
    ensures
        sixel::raster_end(d, i) < e ==> sixel::raster_end(out, o + i - s) == o + sixel::raster_end(
            d,
            i,
        ) - s,
        sixel::raster_end(d, i) >= e ==> sixel::raster_end(out, o + i - s) == out.len() - 1,
    decreases e - i,
{
    if i < e {
        assert(out[o + i - s] == d[i]);
        if !sixel::ends_raster(d[i]) {
            lemma_embedded_raster(d, s, e, out, o, i + 1);
        }
    } else {
        sixel::lemma_raster_end(d, i);
        let p = out.len() - 2;
        assert(out[p] == sixel::ESC && out[p + 1] == 0x5c);
        assert(sixel::raster_end(out, p + 1) == p + 1);
        assert(sixel::raster_end(out, p) == p + 1);
    }
}

/// The separators found when scanning from `i` lie at or after `i`, inside the data, in order;
/// scanning on from behind one finds the rest; and no more of them than `m` lie before the
/// `m`-th.
pub proof fn lemma_row_breaks(d: Seq<u8>, i: int)
    requires
        0 <= i <= d.len(),
        d.len() <= usize::MAX,
    ensures
        forall|k: int|
            0 <= k < sixel::row_breaks(d, i).len() ==> i <= #[trigger] sixel::row_breaks(d, i)[k]
                < d.len() && d[sixel::row_breaks(d, i)[k] as int] == 0x2d,
        forall|k: int|
            0 <= k < sixel::row_breaks(d, i).len() ==> sixel::row_breaks(
                d,
                (#[trigger] sixel::row_breaks(d, i)[k]) + 1,
            ) == sixel::row_breaks(d, i).subrange(
                k + 1,
                sixel::row_breaks(d, i).len() as int,
            ),
    decreases d.len() - i,
{
    if !sixel::scan_done(d, i) {
        sixel::lemma_token_end(d, i);
        let next = sixel::token_end(d, i);
        lemma_row_breaks(d, next);
        let all = sixel::row_breaks(d, i);
        let rest = sixel::row_breaks(d, next);
        assert forall|k: int| 0 <= k < all.len() implies i <= #[trigger] all[k] < d.len()
            && d[all[k] as int] == 0x2d by {
            if d[i] == 0x2d {
                if k > 0 {
                    assert(all[k] == rest[k - 1]);
                }
            } else {
                assert(all[k] == rest[k]);
            }
        }
        assert forall|k: int| 0 <= k < all.len() implies sixel::row_breaks(
            d,
            (#[trigger] all[k]) + 1,
        ) == all.subrange(k + 1, all.len() as int) by {
            if d[i] == 0x2d {
                if k > 0 {
                    assert(all[k] == rest[k - 1]);
                    assert(all.subrange(k + 1, all.len() as int) =~= rest.subrange(
                        k,
                        rest.len() as int,
                    ));
                } else {
                    assert(all.subrange(1, all.len() as int) =~= rest);
                }
            } else {
                assert(all[k] == rest[k]);
            }
        }
    }
}

proof fn lemma_breaks_before(d: Seq<u8>, i: int, e: int, m: int)
    requires
        0 <= i <= d.len(),
        d.len() <= usize::MAX,
        0 <= m <= sixel::row_breaks(d, i).len(),
        m < sixel::row_breaks(d, i).len() ==> e <= sixel::row_breaks(d, i)[m],
    ensures
        breaks_before(d, i, e) <= m,
    decreases d.len() - i,
{
    if i < e && !sixel::scan_done(d, i) {
        sixel::lemma_token_end(d, i);
        let next = sixel::token_end(d, i);
        if d[i] == 0x2d {
            assert(m > 0);
            assert(m < sixel::row_breaks(d, i).len() ==> sixel::row_breaks(d, i)[m]
                == sixel::row_breaks(d, next)[m - 1]);
            lemma_breaks_before(d, next, e, m - 1);
        } else {
            lemma_breaks_before(d, next, e, m);
        }
    }
}

/// A colour definition: a `#`, and only `#`, digits and `;` after it.
pub open spec fn is_definition(s: Seq<u8>) -> bool {
    s.len() > 0 && s[0] == 0x23 && palette_bytes(s)
}

/// Every byte is `#`, a digit or `;`.
pub open spec fn palette_bytes(s: Seq<u8>) -> bool {
    forall|j: int| 0 <= j < s.len() ==> (#[trigger] s[j] == 0x23 || sixel::is_param(s[j]))
}

proof fn lemma_color_defs(d: Seq<u8>, i: int)
    requires
        0 <= i <= d.len(),
    ensures
        forall|k: int|
            0 <= k < sixel::color_defs(d, i).len() ==> is_definition(
                #[trigger] sixel::color_defs(d, i)[k],
            ),
    decreases d.len() - i,
{
    if !sixel::scan_done(d, i) {
        sixel::lemma_token_end(d, i);
        let rest = sixel::color_defs(d, sixel::token_end(d, i));
        lemma_color_defs(d, sixel::token_end(d, i));
        let all = sixel::color_defs(d, i);
        assert forall|k: int| 0 <= k < all.len() implies is_definition(#[trigger] all[k]) by {
            if all.len() == rest.len() + 1 {
                if k > 0 {
                    assert(all[k] == rest[k - 1]);
                } else {
                    sixel::lemma_params_end(d, i + 1);
                    let f = sixel::color_fragment(d, i);
                    assert forall|j: int| 0 <= j < f.len() implies (#[trigger] f[j] == 0x23
                        || sixel::is_param(f[j])) by {
                        assert(f[j] == d[i + j]);
                    }
                }
            } else {
                assert(all[k] == rest[k]);
            }
        }
    }
}

proof fn lemma_palette_concat(defs: Seq<Seq<u8>>)
    requires
        forall|k: int| 0 <= k < defs.len() ==> is_definition(#[trigger] defs[k]),
    ensures
        palette_bytes(text::concat_all(defs)),
        defs.len() == 0 <==> text::concat_all(defs).len() == 0,
        defs.len() > 0 ==> text::concat_all(defs)[0] == 0x23,
    decreases defs.len(),
{
    if defs.len() > 0 {
        assert forall|k: int| 0 <= k < defs.drop_last().len() implies is_definition(
            #[trigger] defs.drop_last()[k],
        ) by {
            assert(defs.drop_last()[k] == defs[k]);
        }
        lemma_palette_concat(defs.drop_last());
        let a = text::concat_all(defs.drop_last());
        let b = defs.last();
        assert(is_definition(defs[defs.len() - 1]));
        assert forall|j: int| 0 <= j < (a + b).len() implies (#[trigger] (a + b)[j] == 0x23
            || sixel::is_param((a + b)[j])) by {
            if j < a.len() {
                assert((a + b)[j] == a[j]);
            } else {
                assert((a + b)[j] == b[j - a.len()]);
            }
        }
    }
}

/// No byte of `s` from `i` on ends raster attributes.
pub open spec fn no_raster_end(s: Seq<u8>, i: int) -> bool {
    forall|j: int| i <= j < s.len() ==> !sixel::ends_raster(#[trigger] s[j])
}

/// The pieces of a split hold only bytes of what was split.
pub proof fn lemma_split_bytes_from(s: Seq<u8>, sep: u8, i: int)
    requires
        0 <= i <= s.len(),
    ensures
        forall|k: int, j: int|
            0 <= k < text::split_from(s, sep, i).len() && 0 <= j < text::split_from(
                s,
                sep,
                i,
            )[k].len() ==> s.contains(#[trigger] text::split_from(s, sep, i)[k][j]),
    decreases s.len() - i,
{
    text::lemma_find_byte(s, sep, i);
    let all = text::split_from(s, sep, i);
    match text::find_byte(s, sep, i) {
        Some(e) => {
            lemma_split_bytes_from(s, sep, e + 1);
            let rest = text::split_from(s, sep, e + 1);
            assert forall|k: int, j: int| 0 <= k < all.len() && 0 <= j < all[k].len() implies
                s.contains(#[trigger] all[k][j]) by {
                if k == 0 {
                    assert(all[0] == s.subrange(i, e));
                    assert(all[0][j] == s[i + j]);
                } else {
                    assert(all[k] == rest[k - 1]);
                }
            }
        },
        None => {
            assert forall|k: int, j: int| 0 <= k < all.len() && 0 <= j < all[k].len() implies
                s.contains(#[trigger] all[k][j]) by {
                assert(all[0] == s.subrange(i, s.len() as int));
                assert(all[0][j] == s[i + j]);
            }
        },
    }
}

proof fn lemma_piece_no_raster_end(s: Seq<u8>, k: int)
    requires
        no_raster_end(s, 0),
        0 <= k < text::split(s, 0x3b).len(),
    ensures
        no_raster_end(text::split(s, 0x3b)[k], 0),
{
    lemma_split_bytes_from(s, 0x3b, 0);
    let piece = text::split(s, 0x3b)[k];
    assert forall|j: int| 0 <= j < piece.len() implies !sixel::ends_raster(
        #[trigger] piece[j],
    ) by {
        assert(s.contains(piece[j]));
        let x = choose|x: int| 0 <= x < s.len() && s[x] == piece[j];
        assert(!sixel::ends_raster(s[x]));
    }
}

/// Adjusting the header leaves the part up to and including `q` as it is, and what follows it is
/// raster attributes exactly if they were there before.
proof fn lemma_adjusted_header(d: Seq<u8>, q: int, height: int)
    requires
        text::find_byte(d, 0x71, 0) == Some(q),
        valid_utf8(d.subrange(0, sixel::data_region(d))),
        0 <= height,
    ensures
        ({
            let h = sixel::adjusted_header(d.subrange(0, sixel::data_region(d)), height);
            &&& q + 1 <= h.len()
            &&& h.subrange(0, q + 1) == d.subrange(0, q + 1)
            &&& !sixel::has_raster(d) ==> h.len() == q + 1
            &&& sixel::has_raster(d) ==> h.len() > q + 1 && h[q + 1] == 0x22 && no_raster_end(
                h,
                q + 1,
            )
        }),
{
    sixel::lemma_data_region(d);
    text::lemma_find_byte(d, 0x71, 0);
    let header = d.subrange(0, sixel::data_region(d));
    text::lemma_find_byte_unique(header, 0x71, 0, q);
    if sixel::has_raster(d) {
        sixel::lemma_raster_end(d, q + 1);
        assert(sixel::data_region(d) > q + 1) by {
            assert(!sixel::ends_raster(d[q + 1]));
        }
        assert forall|j: int| q + 1 <= j < header.len() implies !sixel::ends_raster(
            #[trigger] header[j],
        ) by {
            assert(header[j] == d[j]);
        }
        let e = sixel::raster_end(header, q + 2);
        sixel::lemma_raster_end(header, q + 2);
        assert(e == header.len());
        let raster = header.subrange(q + 2, e);
        assert(no_raster_end(raster, 0)) by {
            assert forall|j: int| 0 <= j < raster.len() implies !sixel::ends_raster(
                #[trigger] raster[j],
            ) by {
                assert(raster[j] == header[q + 2 + j]);
            }
        }
        let parts = text::split(raster, 0x3b);
        if parts.len() >= 4 {
            lemma_piece_no_raster_end(raster, 0);
            lemma_piece_no_raster_end(raster, 1);
            lemma_piece_no_raster_end(raster, 2);
            text::lemma_decimal_digits(height);
            let digits = text::decimal(height);
            let h = sixel::adjusted_header(header, height);
            let a = header.subrange(0, q + 2);
            let sep = seq![0x3bu8];
            let tail = header.subrange(e, header.len() as int);
            assert(h == a + parts[0] + sep + parts[1] + sep + parts[2] + sep + digits + tail);
            assert(tail.len() == 0);
            assert(h.subrange(0, q + 1) =~= d.subrange(0, q + 1));
            let p0 = a + parts[0];
            let p1 = p0 + sep + parts[1];
            let p2 = p1 + sep + parts[2];
            assert forall|j: int| q + 1 <= j < h.len() implies !sixel::ends_raster(
                #[trigger] h[j],
            ) by {
                if j < a.len() {
                    assert(h[j] == header[j]);
                } else if j < p0.len() {
                    assert(h[j] == parts[0][j - a.len()]);
                } else if j < p0.len() + 1 {
                } else if j < p1.len() {
                    assert(h[j] == parts[1][j - p0.len() - 1]);
                } else if j < p1.len() + 1 {
                } else if j < p2.len() {
                    assert(h[j] == parts[2][j - p1.len() - 1]);
                } else if j < p2.len() + 1 {
                } else {
                    assert(h[j] == digits[j - p2.len() - 1]);
                    assert(text::is_digit(digits[j - p2.len() - 1]));
                }
            }
        } else {
            assert(header.subrange(0, q + 1) =~= d.subrange(0, q + 1));
        }
    } else {
        assert(header.len() == q + 1);
        assert(header.subrange(0, q + 1) =~= d.subrange(0, q + 1));
    }
}

/// A sixel image as it is extracted from text: it starts with ESC P and ends with its string
/// terminator, its header is text, and the recorded rows and colours are those found in its data.
pub open spec fn extracted_sixel(p: ImageModel) -> bool {
    let d = p.data;
    &&& p.protocol == ImageProtocol::Sixel
    &&& 3 <= d.len()
    &&& d[0] == sixel::ESC
    &&& sixel::st_at(d, d.len() - 2) || d.last() == 0x9c
    &&& sixel::data_region(d) < d.len() ==> valid_utf8(d.subrange(0, sixel::data_region(d)))
    &&& p.sixel_row_count == sixel::sixel_rows(d)
    &&& p.sixel_data_start == sixel::data_start(d)
    &&& p.sixel_row_offsets == sixel::row_breaks(d, sixel::data_region(d))
    &&& p.sixel_color_defs == sixel::color_defs(d, sixel::data_region(d))
}

/// Whether the rows `d[from..to]`, put behind the header, hide an escape byte: the image defines
/// no colours, the rows are taken for more raster attributes, and these hold an escape byte.
pub open spec fn hides_escape(d: Seq<u8>, from: int, to: int) -> bool {
    &&& sixel::color_defs(d, sixel::data_region(d)).len() == 0
    &&& sixel::has_raster(d) || d[from] == 0x22
    &&& sixel::raster_end(d, from) < to
    &&& exists|j: int| from <= j < sixel::raster_end(d, from) && d[j] == sixel::ESC
}

/// How many sixel rows clipping leaves where an escape byte is hidden.
pub open spec fn rows_behind_escape(d: Seq<u8>, from: int, to: int) -> int {
    1 + breaks_before(d, sixel::raster_end(d, from), to)
}

/// Whether clipping emits too much because an escape byte is hidden.
pub open spec fn escape_breaks_clip(img: InlineImage, skip: int, keep: int, cell_h: int) -> bool {
    match sixel::kept_range(img, skip, keep, cell_h) {
        Some((from, to)) => {
            &&& hides_escape(img.data@, from, to)
            &&& rows_behind_escape(img.data@, from, to) * 6 > sixel::visible_rows(
                img.height_rows as int,
                skip,
                keep,
            ) * cell_h
        },
        None => false,
    }
}

proof fn lemma_last_st(d: Seq<u8>, i: int)
    ensures
        match sixel::last_st_before(d, i) {
            Some(k) => 0 <= k < i && sixel::st_at(d, k),
            None => true,
        },
    decreases i,
{
    if i > 0 {
        lemma_last_st(d, i - 1);
    }
}

/// The string terminator starts with an escape byte or is the one-byte form.
pub proof fn lemma_st_start(d: Seq<u8>)
    ensures
        match sixel::st_start(d) {
            Some(k) => 0 <= k < d.len() && (d[k] == sixel::ESC || d[k] == 0x9c),
            None => true,
        },
{
    lemma_last_st(d, d.len() - 1);
}

/// The rows of a rebuilt sequence: at most those that were to be kept, unless an escape byte is
/// hidden.
proof fn lemma_rebuilt_rows(img: InlineImage, skip: int, keep: int, cell_h: int)
    requires
        extracted_sixel(img.picture()),
        0 <= skip < img.height_rows,
        0 < keep,
        0 <= cell_h,
        sixel::kept_range(img, skip, keep, cell_h) is Some,
    ensures
        ({
            let visible = sixel::visible_rows(img.height_rows as int, skip, keep);
            let (from, to) = sixel::kept_range(img, skip, keep, cell_h)->0;
            let rows = sixel::sixel_rows(
                sixel::rebuilt_sixel(img, visible, cell_h, from, to),
            );
            if hides_escape(img.data@, from, to) {
                rows == rows_behind_escape(img.data@, from, to)
            } else {
                rows <= sixel::kept_sixel_rows(img.height_rows as int, skip, keep, cell_h)
            }
        }),
{
    let d = img.data@;
    assert(d.len() == img.data.len());
    let visible = sixel::visible_rows(img.height_rows as int, skip, keep);
    let (from, to) = sixel::kept_range(img, skip, keep, cell_h)->0;
    let out = sixel::rebuilt_sixel(img, visible, cell_h, from, to);
    let region = sixel::data_region(d);
    let header = d.subrange(0, region);
    let height = visible * cell_h;
    let h = sixel::adjusted_header(header, height);
    let defs = sixel::color_defs(d, region);
    let palette = text::concat_all(defs);
    let kept = d.subrange(from, to);
    let tail = seq![sixel::ESC, 0x5cu8];
    let st = sixel::st_start(d)->0;
    let top = sixel::first_sixel_row(skip, cell_h);
    let count = sixel::kept_sixel_rows(img.height_rows as int, skip, keep, cell_h);
    let end = sixel::min_of(top + count, img.sixel_row_count as int);
    let offs = sixel::row_breaks(d, region);
    assert(img.picture().sixel_row_offsets == img.sixel_row_offsets@);
    assert(height >= 0 && skip * cell_h >= 0) by (nonlinear_arith)
        requires
            height == visible * cell_h,
            visible >= 0,
            skip >= 0,
            cell_h >= 0,
    ;
    assert(0 <= top) by {
        assert((skip * cell_h) / 6 >= 0);
    }
    sixel::lemma_data_region(d);
    lemma_st_start(d);
    lemma_row_breaks(d, region);
    assert(out == h + palette + kept + tail);
    assert(region <= from < to <= st) by {
        if top > 0 {
            assert(offs[top - 1] >= region);
        }
        if end < img.sixel_row_count && end <= offs.len() {
            assert(offs[end - 1] < d.len() && d[offs[end - 1] as int] == 0x2d);
            lemma_breaks_stop(d, region, st, end - 1);
        }
    }
    match text::find_byte(d, 0x71, 0) {
        Some(q) => {
            lemma_adjusted_header(d, q, height);
            text::lemma_find_byte(d, 0x71, 0);
            lemma_color_defs(d, region);
            lemma_palette_concat(defs);
            let o = h.len() + palette.len();
            assert(forall|j: int| 0 <= j < q + 1 ==> out[j] == d[j]) by {
                assert forall|j: int| 0 <= j < q + 1 implies out[j] == d[j] by {
                    assert(h.subrange(0, q + 1)[j] == d.subrange(0, q + 1)[j]);
                }
            }
            text::lemma_find_byte_unique(out, 0x71, 0, q);
            // The kept rows, scanned in the new sequence.
            assert(embedded(d, from, to, out, o as int)) by {
                assert forall|t: int| from <= t < to implies out[o + t - from]
                    == #[trigger] d[t] by {
                    assert(kept[t - from] == d[t]);
                }
            }
            lemma_embedded_breaks(d, from, to, out, o as int, from);
            // The palette adds nothing.
            assert forall|j: int| h.len() <= j < o implies (#[trigger] out[j] == 0x23
                || sixel::is_param(out[j])) by {
                assert(out[j] == palette[j - h.len()]);
            }
            lemma_skip_palette(out, h.len() as int, o as int);
            if sixel::has_raster(d) {
                lemma_raster_through(out, q + 1, h.len() as int);
            }
            lemma_rebuilt_region(d, from, to, out, h.len() as int, o as int);
            // No more separators than rows to keep.
            if top > 0 {
                assert(offs[top - 1] + 1 == from);
                assert(sixel::row_breaks(d, from) == offs.subrange(top, offs.len() as int));
            } else {
                assert(offs.subrange(top, offs.len() as int) =~= offs);
            }
            if end < img.sixel_row_count && end <= offs.len() {
                assert(offs.subrange(top, offs.len() as int)[end - 1 - top] == offs[end - 1]);
                lemma_breaks_before(d, from, to, end - 1 - top);
            } else {
                lemma_breaks_before(d, from, to, offs.len() - top);
            }
        },
        None => {
            assert(region == 0);
            assert(defs.len() == 0);
            assert(palette.len() == 0);
            assert(header.len() == 0);
            assert(h.len() == 0) by {
                assert(text::find_byte(header, 0x71, 0) is None);
            }
            assert(offs.len() == 0);
            assert(top == 0 && from == 0);
            assert forall|j: int| 0 <= j < out.len() implies out[j] != 0x71 by {
                text::lemma_find_byte(d, 0x71, 0);
                if j < out.len() - 2 {
                    assert(out[j] == d[j]);
                }
            }
            text::lemma_find_byte_none(out, 0x71, 0);
            assert(out[0] == d[0]);
        },
    }
}

/// The separators found in a rebuilt sequence: those of the kept rows, or those behind a hidden
/// escape byte. The header takes `h` bytes, header and palette together `o`.
proof fn lemma_rebuilt_region(d: Seq<u8>, from: int, to: int, out: Seq<u8>, h: int, o: int)
    requires
        embedded(d, from, to, out, o),
        from < to,
        0 < h <= o,
        h == o <==> sixel::color_defs(d, sixel::data_region(d)).len() == 0,
        h < o ==> out[h] == 0x23,
        sixel::row_breaks(out, h) == sixel::row_breaks(out, o),
        sixel::row_breaks(out, o).len() == breaks_before(d, from, to),
        sixel::data_region(out) == (if sixel::has_raster(d) || out[h] == 0x22 {
            sixel::raster_end(out, h)
        } else {
            h
        }),
    ensures
        sixel::row_breaks(out, sixel::data_region(out)).len() == (if hides_escape(d, from, to) {
            breaks_before(d, sixel::raster_end(d, from), to)
        } else {
            breaks_before(d, from, to)
        }) || (sixel::row_breaks(out, sixel::data_region(out)).len() == 0 && !hides_escape(
            d,
            from,
            to,
        )),
{
    if h < o {
        assert(sixel::raster_end(out, h) == h);
    } else {
        assert(out[h] == d[from]);
        if sixel::has_raster(d) || d[from] == 0x22 {
            let e = sixel::raster_end(d, from);
            sixel::lemma_raster_end(d, from);
            lemma_embedded_raster(d, from, to, out, o, from);
            if e >= to {
                lemma_no_breaks(out, out.len() - 1);
            } else if hides_escape(d, from, to) {
                lemma_embedded_breaks(d, from, to, out, o, e);
            } else {
                assert forall|j: int| o <= j < sixel::raster_end(out, o) implies out[j]
                    != sixel::ESC by {
                    assert(out[o + (j - o + from) - from] == d[j - o + from]);
                }
                lemma_skip_raster(out, o);
            }
        }
    }
}

/// Raster attributes that run up to `k` are skipped to where skipping from `k` leads.
proof fn lemma_raster_through(d: Seq<u8>, i: int, k: int)
    requires
        0 <= i <= k <= d.len(),
        forall|j: int| i <= j < k ==> !sixel::ends_raster(#[trigger] d[j]),
    ensures
        sixel::raster_end(d, i) == sixel::raster_end(d, k),
    decreases k - i,
{
    if i < k {
        assert(!sixel::ends_raster(d[i]));
        lemma_raster_through(d, i + 1, k);
    }
}

/// In data that ends with its string terminator, all separators lie before the terminator.
pub proof fn lemma_breaks_stop(d: Seq<u8>, i: int, st: int, k: int)
    requires
        0 <= i <= d.len(),
        d.len() <= usize::MAX,
        d.len() > 0,
        sixel::st_at(d, d.len() - 2) || d.last() == 0x9c,
        sixel::st_start(d) == Some(st),
        0 <= k < sixel::row_breaks(d, i).len(),
    ensures
        sixel::row_breaks(d, i)[k] < st,
{
    lemma_row_breaks(d, i);
    let b = sixel::row_breaks(d, i)[k];
    assert(d[b as int] == 0x2d);
}

/// Clipping never emits more than the visible area: when part of an extracted sixel image is cut
/// off, the sixel rows of the resulting sequence, six pixels each, fit into the terminal rows
/// that remain visible. Where those are less than six pixels high in all, one sixel row is still
/// emitted; and where the first kept row starts with bytes that are no sixel data and hide an
/// escape byte, what stands behind that byte is emitted too.
pub proof fn law_clipped_sixel_fits(img: InlineImage, skip: int, keep: int, cell_h: int)
    requires
        extracted_sixel(img.picture()),
        0 <= skip,
        0 <= keep,
        0 <= cell_h,
        !sixel::all_visible(img.height_rows as int, skip, keep),
        sixel::visible_rows(img.height_rows as int, skip, keep) * cell_h >= 6,
        !escape_breaks_clip(img, skip, keep, cell_h),
    ensures
        sixel::clipped_sixel(img, skip, keep, cell_h) matches Some(out) ==> sixel::sixel_rows(out)
            * 6 <= sixel::visible_rows(img.height_rows as int, skip, keep) * cell_h,
{
    if !sixel::nothing_visible(img.height_rows as int, skip, keep) {
        if sixel::kept_range(img, skip, keep, cell_h) is Some {
            lemma_rebuilt_rows(img, skip, keep, cell_h);
        }
    }
}

/// An image that is cut off at the bottom only keeps its data from right behind the header on, with
/// the colour definitions that stand there: they come again behind the palette, so that the first
/// row starts with the registers, and the selected register, that it had.
pub proof fn law_first_rows_kept(img: InlineImage, keep: int, cell_h: int)
    requires
        !sixel::all_visible(img.height_rows as int, 0, keep),
        sixel::clipped_sixel(img, 0, keep, cell_h) is Some,
    ensures
        ({
            let d = img.data@;
            let region = sixel::data_region(d);
            let visible = sixel::visible_rows(img.height_rows as int, 0, keep);
            &&& sixel::kept_range(img, 0, keep, cell_h) matches Some((from, to))
            &&& from == region
            &&& sixel::clipped_sixel(img, 0, keep, cell_h) == Some(
                sixel::adjusted_header(d.subrange(0, region), visible * cell_h) + text::concat_all(
                    text::byte_lists(img.sixel_color_defs@),
                ) + d.subrange(region, to) + seq![sixel::ESC, 0x5cu8],
            )
        }),
{
    assert(0 * cell_h == 0) by (nonlinear_arith);
}

// ---------------------------------------------------------------------------
// Adjusting the header
// ---------------------------------------------------------------------------

/// Where the first three separators of `s` stand.
pub open spec fn three_separators(s: Seq<u8>, a: int, b: int, c: int) -> bool {
    &&& text::find_byte(s, 0x3b, 0) == Some(a)
    &&& text::find_byte(s, 0x3b, a + 1) == Some(b)
    &&& text::find_byte(s, 0x3b, b + 1) == Some(c)
    &&& 0 <= a < b < c < s.len()
}

/// What is split into four or more parts has three separators, and its first parts are what stands
/// between them.
proof fn lemma_four_parts(s: Seq<u8>) -> (r: (int, int, int))
    requires
        text::split(s, 0x3b).len() >= 4,
    ensures
        three_separators(s, r.0, r.1, r.2),
{
    text::lemma_find_byte(s, 0x3b, 0);
    let a = text::find_byte(s, 0x3b, 0)->0;
    assert(text::find_byte(s, 0x3b, 0) is Some);
    assert(text::split_from(s, 0x3b, a + 1).len() >= 3);
    text::lemma_find_byte(s, 0x3b, a + 1);
    let b = text::find_byte(s, 0x3b, a + 1)->0;
    assert(text::find_byte(s, 0x3b, a + 1) is Some);
    assert(text::split_from(s, 0x3b, b + 1).len() >= 2);
    text::lemma_find_byte(s, 0x3b, b + 1);
    let c = text::find_byte(s, 0x3b, b + 1)->0;
    assert(text::find_byte(s, 0x3b, b + 1) is Some);
    (a, b, c)
}

proof fn lemma_parts_between(s: Seq<u8>, a: int, b: int, c: int)
    requires
        three_separators(s, a, b, c),
    ensures
        text::split(s, 0x3b).len() >= 4,
        text::split(s, 0x3b)[0] == s.subrange(0, a),
        text::split(s, 0x3b)[1] == s.subrange(a + 1, b),
        text::split(s, 0x3b)[2] == s.subrange(b + 1, c),
{
    let s3 = text::split_from(s, 0x3b, c + 1);
    let s2 = text::split_from(s, 0x3b, b + 1);
    let s1 = text::split_from(s, 0x3b, a + 1);
    let s0 = text::split_from(s, 0x3b, 0);
    assert(s3.len() >= 1);
    assert(s2 == seq![s.subrange(b + 1, c)] + s3);
    assert(s1 == seq![s.subrange(a + 1, b)] + s2);
    assert(s0 == seq![s.subrange(0, a)] + s1);
}

/// Raster attributes with an adjusted height: all up to the third separator, the height, and what
/// stands behind the attributes.
proof fn lemma_adjusted_pieces(h: Seq<u8>, q: int, height: int) -> (r: (int, int, int))
    requires
        text::find_byte(h, 0x71, 0) == Some(q),
        sixel::with_raster_height(h, height) is Some,
    ensures
        ({
            let e = sixel::raster_end(h, q + 2);
            let m = q + 3 + r.2;
            &&& 0 <= q && q + 2 < m <= e <= h.len()
            &&& h[q + 1] == 0x22
            &&& h[m - 1] == 0x3b
            &&& forall|x: int|
                #[trigger] sixel::with_raster_height(h, x) == Some(
                    h.subrange(0, m) + text::decimal(x) + h.subrange(e, h.len() as int),
                )
            &&& three_separators(h.subrange(q + 2, e), r.0, r.1, r.2)
        }),
{
    text::lemma_find_byte(h, 0x71, 0);
    let e = sixel::raster_end(h, q + 2);
    sixel::lemma_raster_end(h, q + 2);
    let raster = h.subrange(q + 2, e);
    let (a, b, c) = lemma_four_parts(raster);
    lemma_parts_between(raster, a, b, c);
    text::lemma_find_byte(raster, 0x3b, 0);
    text::lemma_find_byte(raster, 0x3b, a + 1);
    text::lemma_find_byte(raster, 0x3b, b + 1);
    let m = q + 3 + c;
    let sep = seq![0x3bu8];
    assert forall|x: int|
        #[trigger] sixel::with_raster_height(h, x) == Some(
            h.subrange(0, m) + text::decimal(x) + h.subrange(e, h.len() as int),
        ) by {
        let head = h.subrange(0, q + 2) + raster.subrange(0, a) + sep + raster.subrange(a + 1, b)
            + sep + raster.subrange(b + 1, c) + sep;
        assert(head =~= h.subrange(0, m));
        let tail = h.subrange(e, h.len() as int);
        assert(head + text::decimal(x) + tail =~= h.subrange(0, m) + text::decimal(x) + tail);
    }
    (a, b, c)
}

/// Text whose raster attributes were adjusted is text.
proof fn lemma_adjusted_text(h: Seq<u8>, m: int, e: int, digits: Seq<u8>)
    requires
        valid_utf8(h),
        0 < m <= e <= h.len(),
        h[m - 1] == 0x3b,
        e < h.len() ==> h[e] < 0x80,
        text::all_digits(digits),
    ensures
        valid_utf8(h.subrange(0, m) + digits + h.subrange(e, h.len() as int)),
{
    strings::lemma_boundary_after_ascii(h, m - 1);
    valid_utf8_split(h, m);
    if e < h.len() {
        strings::lemma_boundary_after_ascii(h, e);
    } else {
        is_char_boundary_start_end_of_seq(h);
    }
    valid_utf8_split(h, e);
    assert forall|j: int| 0 <= j < digits.len() implies #[trigger] digits[j] < 0x80 by {
        assert(text::is_digit(digits[j]));
    }
    kitty_laws::lemma_ascii_utf8(digits);
    valid_utf8_concat(h.subrange(0, m), digits);
    valid_utf8_concat(h.subrange(0, m) + digits, h.subrange(e, h.len() as int));
}

/// The last height wins: adjusting an adjusted header is adjusting the header, and a header
/// without complete raster attributes stays as it is.
pub proof fn law_last_height_wins(header: Seq<u8>, first: int, last: int)
    requires
        0 <= first,
        0 <= last,
    ensures
        sixel::adjusted_header(sixel::adjusted_header(header, first), last)
            == sixel::adjusted_header(header, last),
        sixel::with_raster_height(external::lossy_bytes(header), first) is None
            ==> sixel::adjusted_header(header, first) == header,
{
    let h = external::lossy_bytes(header);
    assert(valid_utf8(h)) by {
        if !valid_utf8(header) {
            encode_utf8_valid_utf8(external::utf8_lossy(header));
        }
    }
    if sixel::with_raster_height(h, first) is Some {
        let q = text::find_byte(h, 0x71, 0)->0;
        let (a, b, c) = lemma_adjusted_pieces(h, q, first);
        let m = q + 3 + c;
        let e = sixel::raster_end(h, q + 2);
        text::lemma_find_byte(h, 0x71, 0);
        sixel::lemma_raster_end(h, q + 2);
        text::lemma_decimal_digits(first);
        let digits = text::decimal(first);
        let tail = h.subrange(e, h.len() as int);
        let g = h.subrange(0, m) + digits + tail;
        assert(sixel::adjusted_header(header, first) == g);
        lemma_adjusted_text(h, m, e, digits);
        assert(external::lossy_bytes(g) == g);
        // The attributes of the adjusted header: up to the third separator as before, then the
        // height.
        let ge = m + digits.len();
        assert(forall|j: int| 0 <= j < m ==> g[j] == h[j]);
        text::lemma_find_byte_unique(g, 0x71, 0, q);
        assert forall|j: int| q + 2 <= j < ge implies !sixel::ends_raster(#[trigger] g[j]) by {
            if j < m {
                assert(!sixel::ends_raster(h[j]));
            } else {
                assert(g[j] == digits[j - m]);
                assert(text::is_digit(digits[j - m]));
            }
        }
        lemma_raster_through(g, q + 2, ge as int);
        assert(sixel::raster_end(g, ge as int) == ge) by {
            if ge < g.len() {
                assert(g[ge as int] == h[e]);
            }
        }
        let raster = h.subrange(q + 2, e);
        let graster = g.subrange(q + 2, ge as int);
        text::lemma_find_byte(raster, 0x3b, 0);
        text::lemma_find_byte(raster, 0x3b, a + 1);
        text::lemma_find_byte(raster, 0x3b, b + 1);
        assert(forall|j: int| 0 <= j <= c ==> graster[j] == raster[j]);
        text::lemma_find_byte_unique(graster, 0x3b, 0, a);
        text::lemma_find_byte_unique(graster, 0x3b, a + 1, b);
        text::lemma_find_byte_unique(graster, 0x3b, b + 1, c);
        lemma_parts_between(graster, a, b, c);
        lemma_parts_between(raster, a, b, c);
        assert(graster.subrange(0, a) =~= raster.subrange(0, a));
        assert(graster.subrange(a + 1, b) =~= raster.subrange(a + 1, b));
        assert(graster.subrange(b + 1, c) =~= raster.subrange(b + 1, c));
        assert(g.subrange(0, q + 2) =~= h.subrange(0, q + 2));
        assert(g.subrange(ge as int, g.len() as int) =~= tail);
        assert(g[q + 1] == 0x22);
        assert(sixel::with_raster_height(g, last) == sixel::with_raster_height(h, last));
    }
}

} // verus!
