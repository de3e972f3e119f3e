//! What holds of every processed text.
use vstd::prelude::*;
use vstd::utf8::*;
use crate::document;
use crate::document::{DocumentModel, PlacedImage};
use crate::image::{ImageModel, ImageProtocol, InlineImage};
use crate::scan;
use crate::scan::{ScanModel, ScanToken};
use crate::sixel;
use crate::sixel_laws;
use crate::strings;

verus! {

proof fn lemma_tallest(images: Seq<ImageModel>, i: int)
    requires
        0 <= i < images.len(),
    ensures
        images[i].height_rows <= document::tallest(images),
    decreases images.len(),
{
    if i < images.len() - 1 {
        lemma_tallest(images.drop_last(), i);
        assert(images.drop_last()[i] == images[i]);
    }
}

/// An image at line `at` or below has room: it ends within the lines, and the lines below its
/// first are blank.
pub open spec fn has_room(lines: Seq<Seq<char>>, at: int, p: PlacedImage) -> bool {
    &&& at <= p.line_idx
    &&& p.line_idx - at < lines.len()
    &&& p.line_idx + p.image.height_rows - at <= lines.len()
    &&& forall|r: int|
        p.line_idx - at < r < p.line_idx + p.image.height_rows - at ==> (#[trigger] lines[r]).len()
            == 0
}

// ---------------------------------------------------------------------------
// The images of a line
// ---------------------------------------------------------------------------

/// A sixel sequence ends with its string terminator.
proof fn lemma_terminated(d: Seq<u8>, i: int)
    requires
        0 <= i,
        sixel::sixel_end_from(d, i) is Some,
    ensures
        ({
            let e = sixel::sixel_end_from(d, i)->0;
            &&& i < e <= d.len()
            &&& (i <= e - 2 && sixel::st_at(d, e - 2)) || d[e - 1] == 0x9c
        }),
    decreases d.len() - i,
{
    if i < d.len() && !sixel::st_at(d, i) && d[i] != 0x9c {
        lemma_terminated(d, i + 1);
    }
}

/// A sixel sequence in a line has its rows and colours recorded.
proof fn lemma_extracted(b: Seq<u8>, i: int, col: int, cell_w: int, cell_h: int)
    requires
        valid_utf8(b),
        0 <= i < b.len(),
        scan::token_at(b, i) is Sixel,
    ensures
        ({
            let d = b.subrange(i, scan::token_end(scan::token_at(b, i), i));
            sixel_laws::extracted_sixel(scan::sixel_picture(d, col, cell_w, cell_h))
        }),
{
    let e = scan::token_end(scan::token_at(b, i), i);
    let d = b.subrange(i, e);
    lemma_terminated(b, i + 2);
    if sixel::st_at(b, e - 2) && i + 2 <= e - 2 {
        assert(sixel::st_at(d, d.len() - 2));
    } else {
        assert(d.last() == b[e - 1]);
    }
    let region = sixel::data_region(d);
    sixel::lemma_data_region(d);
    if region < d.len() {
        strings::lemma_boundary_after_ascii(b, i);
        assert(is_char_boundary(b, i + region)) by {
            if sixel::has_raster(d) {
                sixel::lemma_raster_end(d, sixel::body_start(d));
                assert(sixel::ends_raster(d[region]));
                strings::lemma_boundary_after_ascii(b, i + region);
            } else if region > 0 {
                assert(d[region - 1] == 0x71);
                strings::lemma_boundary_after_ascii(b, i + region - 1);
            }
        }
        strings::lemma_boundary_behind(b, i, i + region);
        assert(d.subrange(0, region) =~= b.subrange(i, i + region));
    }
}

/// An image at column `col` or behind it, with recorded rows and colours if it is a sixel image.
pub open spec fn good_picture(p: ImageModel, col: int, cell_w: int, cell_h: int) -> bool {
    &&& col <= p.col
    &&& p.width_cols >= 1
    &&& p.protocol == ImageProtocol::Sixel ==> sixel_laws::extracted_sixel(p)
        && p.height_rows == sixel::cells_for(sixel::sixel_pixel_height(p.data), cell_h)
        && p.width_cols == sixel::cells_for(sixel::sixel_pixel_width(p.data), cell_w)
}

/// Images that follow each other on a line without overlap.
pub open spec fn side_by_side(images: Seq<ImageModel>) -> bool {
    forall|k: int, l: int|
        0 <= k < l < images.len() ==> (#[trigger] images[k]).col + images[k].width_cols <= (
        #[trigger] images[l]).col
}

proof fn lemma_pictures(b: Seq<u8>, i: int, col: int, cell_w: int, cell_h: int)
    requires
        valid_utf8(b),
        0 <= i,
        scan::scan_from(b, i, col, cell_w, cell_h) is Some,
    ensures
        ({
            let pics = (scan::scan_from(b, i, col, cell_w, cell_h)->0).images;
            &&& side_by_side(pics)
            &&& forall|k: int|
                0 <= k < pics.len() ==> good_picture(#[trigger] pics[k], col, cell_w, cell_h)
        }),
    decreases b.len() - i,
{
    if i < b.len() {
        scan::lemma_token_end(b, i);
        let t = scan::token_at(b, i);
        let e = scan::token_end(t, i);
        let d = b.subrange(i, e);
        let pics = (scan::scan_from(b, i, col, cell_w, cell_h)->0).images;
        match t {
            ScanToken::Sixel(_) => {
                let p = scan::sixel_picture(d, col, cell_w, cell_h);
                lemma_extracted(b, i, col, cell_w, cell_h);
                lemma_pictures(b, e, col + p.width_cols, cell_w, cell_h);
                let rest = scan::scan_from(b, e, col + p.width_cols, cell_w, cell_h)->0;
                lemma_picture_first(p, rest.images, pics, col, cell_w, cell_h);
            },
            ScanToken::Kitty(_) => {
                let p = scan::kitty_picture(d, col, cell_w, cell_h);
                lemma_pictures(b, e, col + p.width_cols, cell_w, cell_h);
                let rest = scan::scan_from(b, e, col + p.width_cols, cell_w, cell_h)->0;
                lemma_picture_first(p, rest.images, pics, col, cell_w, cell_h);
            },
            ScanToken::Escape(_) => {
                lemma_pictures(b, e, col, cell_w, cell_h);
                assert(pics =~= (scan::scan_from(b, e, col, cell_w, cell_h)->0).images);
            },
            ScanToken::Character(c, _) => {
                let next = col + strings::columns(c);
                lemma_pictures(b, e, next, cell_w, cell_h);
                let rest = (scan::scan_from(b, e, next, cell_w, cell_h)->0).images;
                assert(pics =~= rest);
                assert forall|k: int| 0 <= k < pics.len() implies good_picture(
                    #[trigger] pics[k],
                    col,
                    cell_w,
                    cell_h,
                ) by {
                    assert(good_picture(rest[k], next, cell_w, cell_h));
                }
            },
            ScanToken::Broken => {},
        }
    }
}

/// An image put before images that stand behind it.
proof fn lemma_picture_first(
    p: ImageModel,
    rest: Seq<ImageModel>,
    pics: Seq<ImageModel>,
    col: int,
    cell_w: int,
    cell_h: int,
)
    requires
        pics == seq![p] + rest,
        p.col == col,
        good_picture(p, col, cell_w, cell_h),
        side_by_side(rest),
        forall|k: int|
            0 <= k < rest.len() ==> good_picture(
                #[trigger] rest[k],
                col + p.width_cols,
                cell_w,
                cell_h,
            ),
    ensures
        side_by_side(pics),
        forall|k: int|
            0 <= k < pics.len() ==> good_picture(#[trigger] pics[k], col, cell_w, cell_h),
{
    assert forall|k: int| 0 <= k < pics.len() implies good_picture(
        #[trigger] pics[k],
        col,
        cell_w,
        cell_h,
    ) by {
        if k > 0 {
            assert(pics[k] == rest[k - 1]);
        }
    }
    assert forall|k: int, l: int| 0 <= k < l < pics.len() implies (#[trigger] pics[k]).col
        + pics[k].width_cols <= (#[trigger] pics[l]).col by {
        assert(pics[l] == rest[l - 1]);
        if k > 0 {
            assert(pics[k] == rest[k - 1]);
        }
    }
}

proof fn lemma_document_pictures(
    lines: Seq<Seq<char>>,
    k: int,
    at: int,
    cell_w: int,
    cell_h: int,
)
    requires
        0 <= k,
        document::expanded_from(lines, k, at, cell_w, cell_h) is Some,
    ensures
        ({
            let images = (document::expanded_from(lines, k, at, cell_w, cell_h)->0).images;
            &&& forall|i: int|
                0 <= i < images.len() ==> at <= (#[trigger] images[i]).line_idx && good_picture(
                    images[i].image,
                    0,
                    cell_w,
                    cell_h,
                )
            &&& forall|i: int, j: int|
                0 <= i < j < images.len() && (#[trigger] images[i]).line_idx == (
                #[trigger] images[j]).line_idx ==> images[i].image.col + images[i].image.width_cols
                    <= images[j].image.col
        }),
    decreases lines.len() - k,
{
    if k < lines.len() {
        let b = encode_utf8(lines[k]);
        encode_utf8_valid_utf8(lines[k]);
        lemma_pictures(b, 0, 0, cell_w, cell_h);
        let s = scan::scanned(lines[k], cell_w, cell_h)->0;
        let own = document::block_images(s, at);
        let next = at + document::block_lines(s).len();
        lemma_document_pictures(lines, k + 1, next, cell_w, cell_h);
        let images = (document::expanded_from(lines, k, at, cell_w, cell_h)->0).images;
        let rest = (document::expanded_from(lines, k + 1, next, cell_w, cell_h)->0).images;
        assert(images == own + rest);
        assert forall|i: int| 0 <= i < images.len() implies at <= (
        #[trigger] images[i]).line_idx && good_picture(images[i].image, 0, cell_w, cell_h) by {
            if i < own.len() {
                assert(images[i].image == s.images[i]);
            } else {
                assert(images[i] == rest[i - own.len()]);
            }
        }
        assert forall|i: int, j: int|
            0 <= i < j < images.len() && (#[trigger] images[i]).line_idx == (
            #[trigger] images[j]).line_idx implies images[i].image.col
            + images[i].image.width_cols <= images[j].image.col by {
            if i < own.len() {
                assert(images[i].image == s.images[i]);
                if j < own.len() {
                    assert(images[j].image == s.images[j]);
                } else {
                    assert(images[j] == rest[j - own.len()]);
                    assert(next <= images[j].line_idx);
                }
            } else {
                assert(images[i] == rest[i - own.len()]);
                assert(images[j] == rest[j - own.len()]);
            }
        }
    }
}

proof fn lemma_room(lines: Seq<Seq<char>>, k: int, at: int, cell_w: int, cell_h: int)
    requires
        0 <= k,
        document::expanded_from(lines, k, at, cell_w, cell_h) is Some,
    ensures
        ({
            let d = document::expanded_from(lines, k, at, cell_w, cell_h)->0;
            &&& forall|i: int|
                0 <= i < d.images.len() ==> has_room(d.lines, at, #[trigger] d.images[i])
            &&& forall|i: int, j: int|
                0 <= i < j < d.images.len() ==> (#[trigger] d.images[i]).line_idx <= (
                #[trigger] d.images[j]).line_idx
        }),
    decreases lines.len() - k,
{
    if k < lines.len() {
        let s = scan::scanned(lines[k], cell_w, cell_h)->0;
        let block = document::block_lines(s);
        let own = document::block_images(s, at);
        let next = at + block.len();
        lemma_room(lines, k + 1, next, cell_w, cell_h);
        let d = document::expanded_from(lines, k, at, cell_w, cell_h)->0;
        let rest = document::expanded_from(lines, k + 1, next, cell_w, cell_h)->0;
        assert(d.lines == block + rest.lines);
        assert(d.images == own + rest.images);
        assert forall|i: int| 0 <= i < d.images.len() implies has_room(
            d.lines,
            at,
            #[trigger] d.images[i],
        ) by {
            let p = d.images[i];
            if i < own.len() {
                assert(p == own[i]);
                lemma_tallest(s.images, i);
                assert forall|r: int|
                    p.line_idx - at < r < p.line_idx + p.image.height_rows - at implies (
                #[trigger] d.lines[r]).len() == 0 by {
                    assert(d.lines[r] == block[r]);
                }
            } else {
                assert(p == rest.images[i - own.len()]);
                assert(has_room(rest.lines, next, rest.images[i - own.len()]));
                assert forall|r: int|
                    p.line_idx - at < r < p.line_idx + p.image.height_rows - at implies (
                #[trigger] d.lines[r]).len() == 0 by {
                    assert(d.lines[r] == rest.lines[r - block.len()]);
                }
            }
        }
        assert forall|i: int, j: int| 0 <= i < j < d.images.len() implies (
        #[trigger] d.images[i]).line_idx <= (#[trigger] d.images[j]).line_idx by {
            if j >= own.len() {
                let q = rest.images[j - own.len()];
                assert(d.images[j] == q);
                assert(has_room(rest.lines, next, q));
                if i >= own.len() {
                    assert(d.images[i] == rest.images[i - own.len()]);
                }
            }
        }
    }
}

/// Every image has room: it starts on a line of the document and ends within the document, and
/// the lines that it covers below its first are blank, so it overlaps no text.
pub proof fn law_images_have_room(input: Seq<char>, cell_w: int, cell_h: int, i: int)
    requires
        document::processed(input, cell_w, cell_h) is Some,
        0 <= i < (document::processed(input, cell_w, cell_h)->0).images.len(),
    ensures
        ({
            let d = document::processed(input, cell_w, cell_h)->0;
            let p = d.images[i];
            &&& 0 <= p.line_idx < d.lines.len()
            &&& p.line_idx + p.image.height_rows <= d.lines.len()
            &&& forall|r: int|
                p.line_idx < r < p.line_idx + p.image.height_rows ==> (
                #[trigger] d.lines[r]).len() == 0
        }),
{
    lemma_room(document::merged(input), 0, 0, cell_w, cell_h);
    let d = document::processed(input, cell_w, cell_h)->0;
    assert(has_room(d.lines, 0, d.images[i]));
}

/// The images come in the order of their lines, and those on one line in the order of their
/// columns, without overlap.
pub proof fn law_images_in_order(input: Seq<char>, cell_w: int, cell_h: int, i: int, j: int)
    requires
        document::processed(input, cell_w, cell_h) is Some,
        0 <= i < j < (document::processed(input, cell_w, cell_h)->0).images.len(),
    ensures
        ({
            let d = document::processed(input, cell_w, cell_h)->0;
            let (p, q) = (d.images[i], d.images[j]);
            &&& p.line_idx <= q.line_idx
            &&& p.line_idx == q.line_idx ==> p.image.col < p.image.col + p.image.width_cols
                <= q.image.col
        }),
{
    lemma_room(document::merged(input), 0, 0, cell_w, cell_h);
    lemma_document_pictures(document::merged(input), 0, 0, cell_w, cell_h);
    let d = document::processed(input, cell_w, cell_h)->0;
    assert(good_picture(d.images[i].image, 0, cell_w, cell_h));
}

/// Every sixel image of a document has the rows, the colours and the size recorded that are found
/// in its data.
pub proof fn law_sixel_images_recorded(input: Seq<char>, cell_w: int, cell_h: int, i: int)
    requires
        document::processed(input, cell_w, cell_h) is Some,
        0 <= i < (document::processed(input, cell_w, cell_h)->0).images.len(),
        (document::processed(input, cell_w, cell_h)->0).images[i].image.protocol
            == ImageProtocol::Sixel,
    ensures
        ({
            let p = (document::processed(input, cell_w, cell_h)->0).images[i].image;
            &&& sixel_laws::extracted_sixel(p)
            &&& p.width_cols == sixel::cells_for(sixel::sixel_pixel_width(p.data), cell_w)
            &&& p.height_rows == sixel::cells_for(sixel::sixel_pixel_height(p.data), cell_h)
        }),
{
    lemma_document_pictures(document::merged(input), 0, 0, cell_w, cell_h);
    let d = document::processed(input, cell_w, cell_h)->0;
    assert(good_picture(d.images[i].image, 0, cell_w, cell_h));
}

/// Clipping a sixel image of a document never emits more than the visible area: its sixel rows,
/// six pixels each, fit into the terminal rows that remain visible. Left out are images whose
/// first kept row starts with bytes that are no sixel data and hide an escape byte, with too many
/// rows behind it.
pub proof fn law_document_sixel_fits(
    input: Seq<char>,
    cell_w: int,
    cell_h: int,
    img: InlineImage,
    i: int,
    skip: int,
    keep: int,
)
    requires
        document::processed(input, cell_w, cell_h) is Some,
        0 <= i < (document::processed(input, cell_w, cell_h)->0).images.len(),
        (document::processed(input, cell_w, cell_h)->0).images[i].image == img.picture(),
        img.protocol == ImageProtocol::Sixel,
        0 <= skip,
        0 <= keep,
        6 <= cell_h,
        skip > 0 || keep < img.height_rows,
        !sixel_laws::escape_breaks_clip(img, skip, keep, cell_h),
    ensures
        sixel::clipped_sixel(img, skip, keep, cell_h) matches Some(out) ==> sixel::sixel_rows(out)
            * 6 <= sixel::visible_rows(img.height_rows as int, skip, keep) * cell_h,
{
    law_sixel_images_recorded(input, cell_w, cell_h, i);
    if !sixel::nothing_visible(img.height_rows as int, skip, keep) {
        let visible = sixel::visible_rows(img.height_rows as int, skip, keep);
        assert(visible * cell_h >= 6) by (nonlinear_arith)
            requires
                visible >= 1,
                cell_h >= 6,
        ;
        sixel_laws::law_clipped_sixel_fits(img, skip, keep, cell_h);
    }
}

// ---------------------------------------------------------------------------
// Text without escape sequences
// ---------------------------------------------------------------------------

/// No escape character.
pub open spec fn escape_free(s: Seq<char>) -> bool {
    forall|i: int| 0 <= i < s.len() ==> #[trigger] s[i] != '\u{1b}'
}

/// Only the escape character has an escape byte in its encoding.
pub proof fn lemma_escape_byte(c: char)
    requires
        c != '\u{1b}',
    ensures
        forall|k: int|
            0 <= k < encode_scalar(c as u32).len() ==> #[trigger] encode_scalar(c as u32)[k]
                != sixel::ESC,
{
    let v = c as u32;
    char_is_scalar(c);
    if has_width_1_encoding(v) {
        assert(v & 0x7F == v) by (bit_vector)
            requires
                v <= 0x7f,
        ;
        assert(encode_scalar(v).len() == 1);
    } else {
        encode_utf8_first_scalar(seq![c]);
        strings::lemma_encode_one(c);
        let e = encode_scalar(v);
        assert(e =~= encode_utf8(seq![c]));
        assert(e[0] >= 0x80);
    }
}

proof fn lemma_escape_free_bytes(s: Seq<char>)
    requires
        escape_free(s),
    ensures
        !encode_utf8(s).contains(sixel::ESC),
    decreases s.len(),
{
    if s.len() > 0 {
        let rest = s.drop_first();
        assert(escape_free(rest)) by {
            assert forall|i: int| 0 <= i < rest.len() implies #[trigger] rest[i] != '\u{1b}' by {
                assert(rest[i] == s[i + 1]);
            }
        }
        lemma_escape_free_bytes(rest);
        lemma_escape_byte(s[0]);
        let a = encode_scalar(s[0] as u32);
        let b = encode_utf8(rest);
        let all = encode_utf8(s);
        assert(all =~= a + b);
        assert forall|k: int| 0 <= k < all.len() implies all[k] != sixel::ESC by {
            if k < a.len() {
                assert(all[k] == a[k]);
            } else {
                assert(all[k] == b[k - a.len()]);
                assert(b.contains(b[k - a.len()]));
            }
        }
    }
}

/// Scanning text without escape characters copies it.
proof fn lemma_scan_plain(s: Seq<char>, k: int, col: int, cell_w: int, cell_h: int)
    requires
        0 <= k <= s.len(),
        escape_free(s),
        scan::scan_from(
            encode_utf8(s),
            strings::byte_len(s.subrange(0, k)),
            col,
            cell_w,
            cell_h,
        ) is Some,
    ensures
        scan::scan_from(
            encode_utf8(s),
            strings::byte_len(s.subrange(0, k)),
            col,
            cell_w,
            cell_h,
        ) == Some(ScanModel { text: s.subrange(k, s.len() as int), images: seq![] }),
    decreases s.len() - k,
{
    let b = encode_utf8(s);
    let i = strings::byte_len(s.subrange(0, k));
    let here = scan::scan_from(b, i, col, cell_w, cell_h);
    let head = s.subrange(0, k);
    let tail = s.subrange(k, s.len() as int);
    strings::lemma_encode_concat(head, tail);
    assert(head + tail =~= s);
    assert(b.subrange(i, b.len() as int) =~= encode_utf8(tail));
    if k < s.len() {
        strings::lemma_byte_len(tail);
        lemma_escape_free_bytes(s);
        assert(b[i] != sixel::ESC) by {
            assert(b.contains(b[i]));
        }
        encode_utf8_first_scalar(tail);
        let c = tail[0];
        assert(c == s[k]);
        char_u32_cast(c, decode_first_scalar(encode_utf8(tail)));
        let e = i + strings::char_size(c);
        strings::lemma_byte_len_push(head, c);
        assert(head.push(c) =~= s.subrange(0, k + 1));
        strings::lemma_encode_concat(s.subrange(0, k + 1), s.subrange(k + 1, s.len() as int));
        assert(s.subrange(0, k + 1) + s.subrange(k + 1, s.len() as int) =~= s);
        assert(e <= b.len());
        assert(scan::token_at(b, i) is Character);
        assert(scan::token_at(b, i) == ScanToken::Character(c, e));
        lemma_scan_plain(s, k + 1, col + strings::columns(c), cell_w, cell_h);
        assert(seq![c] + s.subrange(k + 1, s.len() as int) =~= tail);
        assert(seq![] + Seq::<ImageModel>::empty() =~= Seq::<ImageModel>::empty());
    } else {
        assert(tail =~= seq![]);
        assert(encode_utf8(tail) =~= seq![]);
        assert(i >= b.len());
    }
}

proof fn lemma_lines_escape_free(s: Seq<char>, i: int)
    requires
        0 <= i,
        escape_free(s),
    ensures
        forall|k: int|
            0 <= k < document::lines_from(s, i).len() ==> escape_free(
                #[trigger] document::lines_from(s, i)[k],
            ),
    decreases s.len() - i,
{
    if i < s.len() {
        strings::lemma_find_char(s, '\n', i);
        let all = document::lines_from(s, i);
        match strings::find_char(s, '\n', i) {
            Some(e) => {
                lemma_lines_escape_free(s, e + 1);
                let rest = document::lines_from(s, e + 1);
                let line = s.subrange(i, e);
                assert(escape_free(document::without_cr(line))) by {
                    let l = document::without_cr(line);
                    assert forall|j: int| 0 <= j < l.len() implies #[trigger] l[j]
                        != '\u{1b}' by {
                        assert(l[j] == s[i + j]);
                    }
                }
                assert forall|k: int| 0 <= k < all.len() implies escape_free(#[trigger] all[k]) by {
                    if k > 0 {
                        assert(all[k] == rest[k - 1]);
                    }
                }
            },
            None => {
                let line = s.subrange(i, s.len() as int);
                assert(escape_free(line)) by {
                    assert forall|j: int| 0 <= j < line.len() implies #[trigger] line[j]
                        != '\u{1b}' by {
                        assert(line[j] == s[i + j]);
                    }
                }
            },
        }
    }
}

proof fn lemma_merge_plain(lines: Seq<Seq<char>>, k: int)
    requires
        0 <= k <= lines.len(),
        forall|j: int| 0 <= j < lines.len() ==> escape_free(#[trigger] lines[j]),
    ensures
        document::merged_from(lines, k, None) == lines.subrange(k, lines.len() as int),
    decreases lines.len() - k,
{
    if k < lines.len() {
        lemma_merge_plain(lines, k + 1);
        assert(escape_free(lines[k]));
        lemma_escape_free_bytes(lines[k]);
        let b = encode_utf8(lines[k]);
        assert(!document::incomplete(lines[k])) by {
            assert forall|i: int| !#[trigger] document::incomplete_at(b, i) by {
                if document::incomplete_at(b, i) {
                    assert(b.contains(b[i]));
                }
            }
        }
        assert(seq![lines[k]] + lines.subrange(k + 1, lines.len() as int) =~= lines.subrange(
            k,
            lines.len() as int,
        ));
    } else {
        assert(lines.subrange(k, lines.len() as int) =~= seq![]);
    }
}

proof fn lemma_expand_plain(lines: Seq<Seq<char>>, k: int, at: int, cell_w: int, cell_h: int)
    requires
        0 <= k <= lines.len(),
        forall|j: int| 0 <= j < lines.len() ==> escape_free(#[trigger] lines[j]),
        document::expanded_from(lines, k, at, cell_w, cell_h) is Some,
    ensures
        document::expanded_from(lines, k, at, cell_w, cell_h) == Some(
            DocumentModel { lines: lines.subrange(k, lines.len() as int), images: seq![] },
        ),
    decreases lines.len() - k,
{
    if k < lines.len() {
        let line = lines[k];
        assert(escape_free(line));
        assert(line.subrange(0, 0) =~= seq![]);
        assert(encode_utf8(line.subrange(0, 0)) =~= seq![]);
        lemma_scan_plain(line, 0, 0, cell_w, cell_h);
        assert(line.subrange(0, line.len() as int) =~= line);
        let s = scan::scanned(line, cell_w, cell_h)->0;
        assert(document::block_lines(s) =~= seq![line]);
        assert(document::block_images(s, at) =~= seq![]);
        lemma_expand_plain(lines, k + 1, at + 1, cell_w, cell_h);
        assert(seq![line] + lines.subrange(k + 1, lines.len() as int) =~= lines.subrange(
            k,
            lines.len() as int,
        ));
        assert(Seq::<PlacedImage>::empty() + Seq::<PlacedImage>::empty() =~= seq![]);
    } else {
        assert(lines.subrange(k, lines.len() as int) =~= seq![]);
    }
}

/// Text without escape characters passes through unchanged: its lines are the lines of the
/// document, and there are no images.
pub proof fn law_plain_text_unchanged(input: Seq<char>, cell_w: int, cell_h: int)
    requires
        escape_free(input),
        document::processed(input, cell_w, cell_h) is Some,
    ensures
        document::processed(input, cell_w, cell_h) == Some(
            DocumentModel { lines: document::lines_of(input), images: seq![] },
        ),
{
    let lines = document::lines_of(input);
    lemma_lines_escape_free(input, 0);
    lemma_merge_plain(lines, 0);
    assert(lines.subrange(0, lines.len() as int) =~= lines);
    lemma_expand_plain(lines, 0, 0, cell_w, cell_h);
}

/// Merging never loses or reorders text: the merged lines, one after the other, are the lines of
/// the input, one after the other.
pub proof fn law_merging_keeps_text(input: Seq<char>)
    ensures
        all_text(document::merged(input)) == all_text(document::lines_of(input)),
{
    let lines = document::lines_of(input);
    lemma_merge_text(lines, 0, None);
    assert(lines.subrange(0, lines.len() as int) =~= lines);
    assert(Seq::<char>::empty() + all_text(lines) =~= all_text(lines));
}

/// Lines, one after the other.
pub open spec fn all_text(lines: Seq<Seq<char>>) -> Seq<char>
    decreases lines.len(),
{
    if lines.len() == 0 {
        seq![]
    } else {
        lines[0] + all_text(lines.subrange(1, lines.len() as int))
    }
}

proof fn lemma_all_text_front(a: Seq<char>, rest: Seq<Seq<char>>)
    ensures
        all_text(seq![a] + rest) == a + all_text(rest),
{
    let l = seq![a] + rest;
    assert(l.subrange(1, l.len() as int) =~= rest);
}

proof fn lemma_merge_text(lines: Seq<Seq<char>>, k: int, pending: Option<Seq<char>>)
    requires
        0 <= k <= lines.len(),
    ensures
        all_text(document::merged_from(lines, k, pending)) == (match pending {
            Some(p) => p,
            None => seq![],
        }) + all_text(lines.subrange(k, lines.len() as int)),
    decreases lines.len() - k,
{
    let front = match pending {
        Some(p) => p,
        None => seq![],
    };
    let here = lines.subrange(k, lines.len() as int);
    if k < lines.len() {
        let rest = lines.subrange(k + 1, lines.len() as int);
        assert(here.subrange(1, here.len() as int) =~= rest);
        assert(all_text(here) == lines[k] + all_text(rest));
        let joined = front + lines[k];
        assert(front + (lines[k] + all_text(rest)) =~= joined + all_text(rest));
        assert(pending is None ==> joined =~= lines[k]);
        lemma_merge_text(lines, k + 1, Some(joined));
        lemma_merge_text(lines, k + 1, None);
        lemma_all_text_front(joined, document::merged_from(lines, k + 1, None));
        assert(joined + (seq![] + all_text(rest)) =~= joined + all_text(rest));
    } else {
        assert(here =~= seq![]);
        if let Some(p) = pending {
            lemma_all_text_front(p, seq![]);
            assert(seq![p] + Seq::<Seq<char>>::empty() =~= seq![p]);
        }
        assert(front + all_text(here) =~= front);
    }
}

} // verus!
