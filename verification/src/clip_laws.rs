//! Which rows clipping keeps of a sixel image.
use vstd::prelude::*;
use crate::document;
use crate::document_laws;
use crate::image::{ImageProtocol, InlineImage};
use crate::sixel;
use crate::sixel_laws;
use crate::text;

verus! {

/// Right before the `m`-th separator there are `m` separators, right behind it one more.
proof fn lemma_breaks_at(d: Seq<u8>, i: int, m: int)
    requires
        0 <= i <= d.len(),
        d.len() <= usize::MAX,
        0 <= m < sixel::row_breaks(d, i).len(),
    ensures
        sixel_laws::breaks_before(d, i, sixel::row_breaks(d, i)[m] as int) == m,
        sixel_laws::breaks_before(d, i, sixel::row_breaks(d, i)[m] + 1) == m + 1,
    decreases d.len() - i,
{
    sixel::lemma_token_end(d, i);
    sixel_laws::lemma_row_breaks(d, i);
    let next = sixel::token_end(d, i);
    let all = sixel::row_breaks(d, i);
    let rest = sixel::row_breaks(d, next);
    sixel_laws::lemma_row_breaks(d, next);
    if d[i] == 0x2d {
        if m > 0 {
            assert(all[m] == rest[m - 1]);
            lemma_breaks_at(d, next, m - 1);
        } else {
            assert(all[0] == i);
            assert(sixel_laws::breaks_before(d, i + 1, i + 1) == 0);
        }
    } else {
        assert(all[m] == rest[m]);
        lemma_breaks_at(d, next, m);
    }
}

/// Before a place behind all separators there are all of them.
proof fn lemma_all_breaks(d: Seq<u8>, i: int, e: int)
    requires
        0 <= i <= d.len(),
        d.len() <= usize::MAX,
        forall|k: int|
            0 <= k < sixel::row_breaks(d, i).len() ==> #[trigger] sixel::row_breaks(d, i)[k] < e,
    ensures
        sixel_laws::breaks_before(d, i, e) == sixel::row_breaks(d, i).len(),
    decreases d.len() - i,
{
    sixel_laws::lemma_row_breaks(d, i);
    let all = sixel::row_breaks(d, i);
    if i >= e {
        if all.len() > 0 {
            assert(all[0] < e);
        }
    } else if !sixel::scan_done(d, i) {
        sixel::lemma_token_end(d, i);
        let next = sixel::token_end(d, i);
        let rest = sixel::row_breaks(d, next);
        assert forall|k: int| 0 <= k < rest.len() implies #[trigger] rest[k] < e by {
            if d[i] == 0x2d {
                assert(all[k + 1] == rest[k]);
            } else {
                assert(all[k] == rest[k]);
            }
        }
        lemma_all_breaks(d, next, e);
    }
}

/// How a number of pixels is cut into pieces of six.
proof fn lemma_six(pixels: int)
    requires
        0 <= pixels,
    ensures
        6 * (pixels / 6) <= pixels < 6 * (pixels / 6) + 6,
{
}

/// Clipping keeps the sixel rows that are in view. The kept data begin with the sixel row that
/// holds the first visible pixel line, `skip * cell_h`: with `r` separators before the first kept
/// byte, that line is one of the six of row `r`. As many rows follow as fit into the visible pixel
/// lines, and at least one: up to the separator behind the last of them, or up to the string
/// terminator where the image ends. The header gets the visible height, and the palette of the
/// whole image goes before the rows.
pub proof fn law_clip_starts_at_pixel(img: InlineImage, skip: int, keep: int, cell_h: int) -> (kept:
    (int, int))
    requires
        sixel_laws::extracted_sixel(img.picture()),
        0 <= skip,
        0 <= keep,
        0 <= cell_h,
        skip > 0 || keep < img.height_rows,
        sixel::clipped_sixel(img, skip, keep, cell_h) is Some,
    ensures
        ({
            let d = img.data@;
            let region = sixel::data_region(d);
            let visible = if keep < img.height_rows - skip {
                keep
            } else {
                img.height_rows - skip
            };
            let (from, to) = kept;
            let r = sixel_laws::breaks_before(d, region, from);
            let rows = sixel_laws::breaks_before(d, from, to) + 1;
            let all = sixel::row_breaks(d, region).len() + 1;
            &&& region <= from < to < d.len()
            &&& sixel::clipped_sixel(img, skip, keep, cell_h) == Some(
                sixel::adjusted_header(d.subrange(0, region), visible * cell_h) + text::concat_all(
                    sixel::color_defs(d, region),
                ) + d.subrange(from, to) + seq![0x1bu8, 0x5cu8],
            )
            &&& r * 6 <= skip * cell_h < (r + 1) * 6
            &&& r == 0 ==> from == region
            &&& r > 0 ==> d[from - 1] == 0x2d
            &&& r + rows <= all
            &&& rows == 1 || rows * 6 <= visible * cell_h
            &&& r + rows < all ==> visible * cell_h < (rows + 1) * 6 && d[to] == 0x2d
            &&& r + rows == all ==> to == d.len() - 2 && d[to] == 0x1b && d[to + 1] == 0x5c || to
                == d.len() - 1 && d[to] == 0x9c
        }),
{
    let d = img.data@;
    assert(d.len() == img.data.len());
    let region = sixel::data_region(d);
    sixel::lemma_data_region(d);
    sixel_laws::lemma_st_start(d);
    sixel_laws::lemma_row_breaks(d, region);
    let offs = sixel::row_breaks(d, region);
    assert(img.picture().sixel_row_offsets == img.sixel_row_offsets@);
    assert(img.picture().sixel_color_defs == text::byte_lists(img.sixel_color_defs@));
    let visible = sixel::visible_rows(img.height_rows as int, skip, keep);
    let st = sixel::st_start(d)->0;
    let top = sixel::first_sixel_row(skip, cell_h);
    let count = sixel::kept_sixel_rows(img.height_rows as int, skip, keep, cell_h);
    let end = sixel::min_of(top + count, img.sixel_row_count as int);
    let (from, to) = sixel::kept_range(img, skip, keep, cell_h)->0;
    assert(0 <= visible * cell_h && 0 <= skip * cell_h) by (nonlinear_arith)
        requires
            0 <= visible,
            0 <= skip,
            0 <= cell_h,
    ;
    lemma_six(visible * cell_h);
    lemma_six(skip * cell_h);
    // The start.
    if top > 0 {
        lemma_breaks_at(d, region, top - 1);
        assert(from == offs[top - 1] + 1);
        assert(sixel::row_breaks(d, from) == offs.subrange(top, offs.len() as int));
    } else {
        assert(sixel_laws::breaks_before(d, region, region) == 0);
        assert(offs.subrange(0, offs.len() as int) =~= offs);
    }
    // The end.
    let here = sixel::row_breaks(d, from);
    if end < img.sixel_row_count {
        assert(here[end - 1 - top] == offs[end - 1]);
        lemma_breaks_at(d, from, end - 1 - top);
    } else {
        assert forall|k: int| 0 <= k < here.len() implies #[trigger] here[k] < st by {
            assert(here[k] == offs[k + top]);
            sixel_laws::lemma_breaks_stop(d, region, st, k + top);
        }
        lemma_all_breaks(d, from, st);
    }
    (from, to)
}

/// Where nothing of an image is in view, nothing is kept; an image that is wholly in view is kept as
/// it is; and where the first visible pixel line lies below all sixel rows, nothing is kept.
pub proof fn law_clip_cases(img: InlineImage, skip: int, keep: int, cell_h: int)
    requires
        0 <= skip,
        0 <= keep,
        0 <= cell_h,
    ensures
        keep == 0 || skip >= img.height_rows ==> sixel::clipped_sixel(
            img,
            skip,
            keep,
            cell_h,
        ) is None,
        skip == 0 && 0 < img.height_rows <= keep ==> sixel::clipped_sixel(img, skip, keep, cell_h)
            == Some(img.data@),
        skip > 0 && 6 * img.sixel_row_count <= skip * cell_h ==> sixel::clipped_sixel(
            img,
            skip,
            keep,
            cell_h,
        ) is None,
{
    assert(0 <= skip * cell_h) by (nonlinear_arith)
        requires
            0 <= skip,
            0 <= cell_h,
    ;
    lemma_six(skip * cell_h);
}

/// Where part of an image is in view and the row at its first visible pixel line holds data,
/// something is kept.
pub proof fn law_clip_keeps_something(img: InlineImage, skip: int, keep: int, cell_h: int, r: int)
    requires
        sixel_laws::extracted_sixel(img.picture()),
        0 <= r < sixel::row_breaks(img.data@, sixel::data_region(img.data@)).len(),
        0 <= skip < img.height_rows,
        0 < keep,
        0 <= cell_h,
        r * 6 <= skip * cell_h < (r + 1) * 6,
        r == 0 ==> sixel::data_region(img.data@) < sixel::row_breaks(
            img.data@,
            sixel::data_region(img.data@),
        )[0],
        r > 0 ==> sixel::row_breaks(img.data@, sixel::data_region(img.data@))[r - 1] + 1
            < sixel::row_breaks(img.data@, sixel::data_region(img.data@))[r],
    ensures
        sixel::clipped_sixel(img, skip, keep, cell_h) is Some,
{
    let d = img.data@;
    assert(d.len() == img.data.len());
    let region = sixel::data_region(d);
    sixel::lemma_data_region(d);
    let offs = sixel::row_breaks(d, region);
    assert(img.picture().sixel_row_offsets == img.sixel_row_offsets@);
    assert(0 <= skip * cell_h) by (nonlinear_arith)
        requires
            0 <= skip,
            0 <= cell_h,
    ;
    lemma_six(skip * cell_h);
    assert(sixel::first_sixel_row(skip, cell_h) == r);
    assert(sixel::st_start(d) is Some);
    let st = sixel::st_start(d)->0;
    let count = sixel::kept_sixel_rows(img.height_rows as int, skip, keep, cell_h);
    let end = sixel::min_of(r + count, img.sixel_row_count as int);
    sixel_laws::lemma_breaks_stop(d, region, st, r);
    lemma_ascending(d, region, r, end - 1);
}

/// Separators come in ascending order.
proof fn lemma_ascending(d: Seq<u8>, i: int, a: int, b: int)
    requires
        0 <= i <= d.len(),
        d.len() <= usize::MAX,
        0 <= a,
    ensures
        a <= b < sixel::row_breaks(d, i).len() ==> sixel::row_breaks(d, i)[a]
            <= sixel::row_breaks(d, i)[b],
{
    let all = sixel::row_breaks(d, i);
    if a < b < all.len() {
        sixel_laws::lemma_row_breaks(d, i);
        let rest = sixel::row_breaks(d, all[a] + 1);
        assert(rest == all.subrange(a + 1, all.len() as int));
        sixel_laws::lemma_row_breaks(d, all[a] + 1);
        assert(all[b] == rest[b - a - 1]);
    }
}

/// The same of the images of a processed text: clipping a sixel image starts with the sixel row that
/// holds the first visible pixel line.
pub proof fn law_document_clip_starts(
    input: Seq<char>,
    cell_w: int,
    cell_h: int,
    img: InlineImage,
    i: int,
    skip: int,
    keep: int,
) -> (kept: (int, int))
    requires
        document::processed(input, cell_w, cell_h) is Some,
        0 <= i < (document::processed(input, cell_w, cell_h)->0).images.len(),
        (document::processed(input, cell_w, cell_h)->0).images[i].image == img.picture(),
        img.protocol == ImageProtocol::Sixel,
        0 <= skip,
        0 <= keep,
        0 <= cell_h,
        skip > 0 || keep < img.height_rows,
        sixel::clipped_sixel(img, skip, keep, cell_h) is Some,
    ensures
        ({
            let d = img.data@;
            let region = sixel::data_region(d);
            let r = sixel_laws::breaks_before(d, region, kept.0);
            &&& region <= kept.0 < kept.1 < d.len()
            &&& r * 6 <= skip * cell_h < (r + 1) * 6
            &&& exists|head: Seq<u8>|
                sixel::clipped_sixel(img, skip, keep, cell_h) == Some(
                    #[trigger] (head + d.subrange(kept.0, kept.1)) + seq![0x1bu8, 0x5cu8],
                )
        }),
{
    document_laws::law_sixel_images_recorded(input, cell_w, cell_h, i);
    let kept = law_clip_starts_at_pixel(img, skip, keep, cell_h);
    let d = img.data@;
    let region = sixel::data_region(d);
    let visible = sixel::visible_rows(img.height_rows as int, skip, keep);
    let head = sixel::adjusted_header(d.subrange(0, region), visible * cell_h) + text::concat_all(
        sixel::color_defs(d, region),
    );
    assert(sixel::clipped_sixel(img, skip, keep, cell_h) == Some(
        (head + d.subrange(kept.0, kept.1)) + seq![0x1bu8, 0x5cu8],
    ));
    kept
}

} // verus!
