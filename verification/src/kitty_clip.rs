//! Cutting rows out of a kitty image: decode the payload, crop the pixel rows, encode again.
use vstd::prelude::*;
use crate::external;
use crate::image::InlineImage;
use crate::kitty;
use crate::kitty::{
    build_kitty_sequence, parse_kitty_chunks, parse_kitty_control, rebuild_kitty_control, ControlModel,
    KittyChunk, KittyControl,
};
use crate::kitty_laws;
use crate::sixel;
use crate::text;

verus! {

// ---------------------------------------------------------------------------
// Pixels
// ---------------------------------------------------------------------------

/// Decoded pixels with their geometry. Colour type and bit depth are the numbers of the PNG
/// format.
pub struct KittyPixels {
    pub pixels: Vec<u8>,
    pub width: usize,
    pub height: usize,
    pub color: u8,
    pub depth: u8,
}

/// Pixels with their geometry.
#[verifier::ext_equal]
pub struct PixelModel {
    pub pixels: Seq<u8>,
    pub width: int,
    pub height: int,
    pub color: u8,
    pub depth: u8,
}

impl View for KittyPixels {
    type V = PixelModel;

    open spec fn view(&self) -> PixelModel {
        PixelModel {
            pixels: self.pixels@,
            width: self.width as int,
            height: self.height as int,
            color: self.color,
            depth: self.depth,
        }
    }
}

/// Bytes per row of pixels.
pub open spec fn stride(p: PixelModel) -> int {
    p.width * external::pixel_bytes(p.color, p.depth)
}

/// What the payload of a kitty image holds once base64 and compression are undone, with the
/// parameters of its first chunk.
pub open spec fn raw_payload(d: Seq<u8>) -> Option<(ControlModel, Seq<u8>)> {
    let chunks = kitty::chunks_from(d, 0);
    if chunks.len() == 0 {
        None
    } else {
        let ctrl = kitty::control_of(chunks[0].control);
        match external::base64_decoded(kitty_laws::payloads(chunks)) {
            None => None,
            Some(bytes) => if ctrl.compressed {
                match external::zlib_unpacked(bytes) {
                    Some(raw) => Some((ctrl, raw)),
                    None => None,
                }
            } else {
                Some((ctrl, bytes))
            },
        }
    }
}

/// The pixels in a raw payload: a PNG file for format 100, else RGB (format 24) or RGBA pixels of
/// the declared size.
pub open spec fn pixels_of(ctrl: ControlModel, raw: Seq<u8>) -> Option<PixelModel> {
    if ctrl.format == 100 {
        match external::png_decoded(raw) {
            Some((pixels, width, height, color, depth)) => if width == 0 || height == 0 {
                None
            } else {
                Some(PixelModel { pixels, width, height, color, depth })
            },
            None => None,
        }
    } else if ctrl.pixel_w == 0 || ctrl.pixel_h == 0 {
        None
    } else {
        Some(
            PixelModel {
                pixels: raw,
                width: ctrl.pixel_w,
                height: ctrl.pixel_h,
                color: if ctrl.format == 24 {
                    2
                } else {
                    6
                },
                depth: 8,
            },
        )
    }
}

/// The parameters and pixels of a kitty image.
pub open spec fn kitty_pixels(d: Seq<u8>) -> Option<(ControlModel, PixelModel)> {
    match raw_payload(d) {
        Some((ctrl, raw)) => match pixels_of(ctrl, raw) {
            Some(p) => Some((ctrl, p)),
            None => None,
        },
        None => None,
    }
}

/// What decoding guarantees of the geometry.
pub open spec fn sound_geometry(ctrl: ControlModel, p: PixelModel) -> bool {
    &&& p.width > 0
    &&& p.height > 0
    &&& 1 <= external::pixel_bytes(p.color, p.depth) <= 8
    &&& ctrl.format == 100 ==> p.width <= u32::MAX && p.height <= u32::MAX && external::row_bytes(
        p.width,
        p.color,
        p.depth,
    ) <= 0x400_0000
}

/// The payloads of all chunks, one after the other.
fn collect_payloads(chunks: &Vec<KittyChunk>) -> (r: Vec<u8>)
    ensures
        r@ == kitty_laws::payloads(kitty::chunk_models(chunks@)),
{
    let ghost all = Seq::new(chunks@.len(), |i: int| chunks@[i].payload@);
    let mut out: Vec<u8> = Vec::new();
    let mut i: usize = 0;
    assert(all.subrange(0, 0) =~= seq![]);
    while i < chunks.len()
        invariant
            i <= chunks@.len(),
            all == Seq::new(chunks@.len(), |i: int| chunks@[i].payload@),
            out@ == text::concat_all(all.subrange(0, i as int)),
        decreases chunks.len() - i,
    {
        text::append_bytes(&mut out, chunks[i].payload.as_slice());
        assert(all.subrange(0, i + 1).drop_last() =~= all.subrange(0, i as int));
        i += 1;
    }
    assert(all.subrange(0, i as int) =~= all);
    assert(all =~= Seq::new(
        kitty::chunk_models(chunks@).len(),
        |i: int| kitty::chunk_models(chunks@)[i].payload,
    ));
    out
}

/// The parameters and pixels of a kitty image.
pub fn decode_kitty(data: &[u8]) -> (r: Option<(KittyControl, KittyPixels)>)
    ensures
        match r {
            Some((ctrl, p)) => kitty_pixels(data@) == Some((ctrl@, p@)) && sound_geometry(ctrl@, p@)
                && (forall|k: int|
                0 <= k < ctrl@.other_params.len() ==> kitty_laws::clean_entry(
                    #[trigger] ctrl@.other_params[k],
                ) && kitty::handed_through(ctrl@.other_params[k])),
            None => kitty_pixels(data@) is None,
        },
{
    let chunks = parse_kitty_chunks(data);
    let ghost models = kitty::chunk_models(chunks@);
    assert(models.len() == chunks@.len());
    if chunks.len() == 0 {
        return None;
    }
    assert(models[0] == chunks@[0]@);
    let ctrl = parse_kitty_control(chunks[0].control.as_slice());
    proof {
        kitty_laws::lemma_split_clean(chunks@[0].control@);
        kitty_laws::lemma_others(text::split(chunks@[0].control@, 0x2c));
    }
    let b64 = collect_payloads(&chunks);
    let decoded = match external::base64_decode(b64.as_slice()) {
        Some(v) => v,
        None => return None,
    };
    let raw = if ctrl.compressed {
        match external::zlib_unpack(decoded.as_slice()) {
            Some(v) => v,
            None => return None,
        }
    } else {
        decoded
    };
    assert(raw_payload(data@) == Some((ctrl@, raw@)));
    if ctrl.format == 100 {
        match external::png_decode(raw.as_slice()) {
            Some((pixels, width, height, color, depth)) => {
                if width == 0 || height == 0 {
                    return None;
                }
                Some((ctrl, KittyPixels { pixels, width, height, color, depth }))
            },
            None => None,
        }
    } else {
        if ctrl.pixel_w == 0 || ctrl.pixel_h == 0 {
            return None;
        }
        let p = KittyPixels {
            pixels: raw,
            width: ctrl.pixel_w,
            height: ctrl.pixel_h,
            color: if ctrl.format == 24 {
                2
            } else {
                6
            },
            depth: 8,
        };
        Some((ctrl, p))
    }
}

// ---------------------------------------------------------------------------
// Cropping
// ---------------------------------------------------------------------------

/// The first pixel row that is kept.
pub open spec fn first_pixel_row(height: int, skip: int, cell_h: int) -> int {
    sixel::min_of(skip * cell_h, height)
}

/// How many pixel rows are kept.
pub open spec fn kept_pixel_rows(height: int, skip: int, visible: int, cell_h: int) -> int {
    sixel::min_of(visible * cell_h, height - first_pixel_row(height, skip, cell_h))
}

/// The rows that `visible` terminal rows show once `skip` terminal rows are gone; `None` if there
/// are none or the pixels do not reach that far.
pub open spec fn cropped(p: PixelModel, skip: int, visible: int, cell_h: int) -> Option<
    PixelModel,
> {
    let first = first_pixel_row(p.height, skip, cell_h);
    let rows = kept_pixel_rows(p.height, skip, visible, cell_h);
    let from = first * stride(p);
    let to = from + rows * stride(p);
    if rows == 0 || to > p.pixels.len() {
        None
    } else {
        Some(PixelModel { pixels: p.pixels.subrange(from, to), height: rows, ..p })
    }
}

/// The offsets that cropping computes are machine numbers.
pub open spec fn crop_fits(p: PixelModel, skip: int, visible: int, cell_h: int) -> bool {
    let first = first_pixel_row(p.height, skip, cell_h);
    let rows = kept_pixel_rows(p.height, skip, visible, cell_h);
    &&& skip * cell_h <= usize::MAX
    &&& visible * cell_h <= usize::MAX
    &&& stride(p) <= usize::MAX
    &&& rows > 0 ==> first * stride(p) + rows * stride(p) <= usize::MAX
}

fn bytes_per_pixel(color: u8, depth: u8) -> (r: usize)
    ensures
        r == external::pixel_bytes(color, depth),
        1 <= r <= 4 * 31,
{
    let samples: usize = if color == 2 {
        3
    } else if color == 4 {
        2
    } else if color == 6 {
        4
    } else {
        1
    };
    let bytes: usize = if depth / 8 >= 1 {
        (depth / 8) as usize
    } else {
        1
    };
    assert(samples == external::color_samples(color));
    assert(1 <= samples * bytes <= 4 * 31) by (nonlinear_arith)
        requires
            1 <= samples <= 4,
            1 <= bytes <= 31,
    ;
    samples * bytes
}

/// Whether the offsets that cropping computes are machine numbers.
pub fn crop_fits_usize(p: &KittyPixels, skip_top: usize, visible_rows: usize, cell_h: usize) -> (r:
    bool)
    ensures
        r == crop_fits(p@, skip_top as int, visible_rows as int, cell_h as int),
{
    let bpp = bytes_per_pixel(p.color, p.depth);
    let (skip, visible, stride) = match (
        skip_top.checked_mul(cell_h),
        visible_rows.checked_mul(cell_h),
        p.width.checked_mul(bpp),
    ) {
        (Some(a), Some(b), Some(c)) => (a, b, c),
        _ => return false,
    };
    assert(stride == self::stride(p@));
    let first: usize = if skip <= p.height {
        skip
    } else {
        p.height
    };
    let rows: usize = if visible <= p.height - first {
        visible
    } else {
        p.height - first
    };
    assert(first == first_pixel_row(p@.height, skip_top as int, cell_h as int));
    assert(rows == kept_pixel_rows(
        p@.height,
        skip_top as int,
        visible_rows as int,
        cell_h as int,
    ));
    if rows == 0 {
        return true;
    }
    assert(first * stride >= 0 && rows * stride >= 0) by (nonlinear_arith)
        requires
            first >= 0,
            rows >= 0,
            stride >= 0,
    ;
    match (first.checked_mul(stride), rows.checked_mul(stride)) {
        (Some(a), Some(b)) => a.checked_add(b).is_some(),
        _ => false,
    }
}

/// Crop pixels to the rows that `visible_rows` terminal rows show once `skip_top` are gone.
pub fn crop_rows(p: &KittyPixels, skip_top: usize, visible_rows: usize, cell_h: usize) -> (r: Option<
    KittyPixels,
>)
    requires
        crop_fits(p@, skip_top as int, visible_rows as int, cell_h as int),
    ensures
        match r {
            Some(q) => cropped(p@, skip_top as int, visible_rows as int, cell_h as int) == Some(q@),
            None => cropped(p@, skip_top as int, visible_rows as int, cell_h as int) is None,
        },
{
    let bpp = bytes_per_pixel(p.color, p.depth);
    let stride: usize = p.width * bpp;
    let skip: usize = skip_top * cell_h;
    let visible: usize = visible_rows * cell_h;
    let first: usize = if skip <= p.height {
        skip
    } else {
        p.height
    };
    let rows: usize = if visible <= p.height - first {
        visible
    } else {
        p.height - first
    };
    if rows == 0 {
        return None;
    }
    assert(first * stride >= 0 && rows * stride >= 0) by (nonlinear_arith)
        requires
            first >= 0,
            rows >= 0,
            stride >= 0,
    ;
    let from: usize = first * stride;
    let to: usize = from + rows * stride;
    if to > p.pixels.len() {
        return None;
    }
    Some(
        KittyPixels {
            pixels: text::slice_vec(p.pixels.as_slice(), from, to),
            width: p.width,
            height: rows,
            color: p.color,
            depth: p.depth,
        },
    )
}

/// Cropped pixels are as tall as the terminal rows they are to show, or as what is left of the
/// image; they keep their width, and are exactly those rows of the uncut image, byte for byte.
pub proof fn law_cropped(p: PixelModel, skip: int, visible: int, cell_h: int)
    requires
        0 <= skip,
        0 <= visible,
        0 <= cell_h,
        p.width >= 0,
        p.height >= 0,
        cropped(p, skip, visible, cell_h) is Some,
    ensures
        ({
            let q = cropped(p, skip, visible, cell_h)->0;
            &&& q.height == sixel::min_of(visible * cell_h, p.height - skip * cell_h)
            &&& q.height >= 1
            &&& q.width == p.width && q.color == p.color && q.depth == p.depth
            &&& q.pixels.len() == q.height * stride(p)
            &&& forall|i: int|
                0 <= i < q.pixels.len() ==> #[trigger] q.pixels[i] == p.pixels[skip * cell_h
                    * stride(p) + i]
        }),
{
    let first = first_pixel_row(p.height, skip, cell_h);
    let rows = kept_pixel_rows(p.height, skip, visible, cell_h);
    let s = stride(p);
    let bytes = external::pixel_bytes(p.color, p.depth);
    assert(skip * cell_h >= 0 && visible * cell_h >= 0) by (nonlinear_arith)
        requires
            skip >= 0,
            visible >= 0,
            cell_h >= 0,
    ;
    assert(bytes >= 0) by {
        let samples = external::color_samples(p.color);
        let size = if p.depth as int / 8 >= 1 {
            p.depth as int / 8
        } else {
            1
        };
        assert(samples * size >= 0) by (nonlinear_arith)
            requires
                samples >= 1,
                size >= 1,
        ;
    }
    assert(s >= 0) by (nonlinear_arith)
        requires
            s == p.width * bytes,
            p.width >= 0,
            bytes >= 0,
    ;
    assert(first * s >= 0 && rows * s >= 0) by (nonlinear_arith)
        requires
            first >= 0,
            rows >= 0,
            s >= 0,
    ;
}

// ---------------------------------------------------------------------------
// Encoding
// ---------------------------------------------------------------------------

/// The payload that carries pixels in the format that the parameters name: a PNG file for format
/// 100, else the raw pixels, compressed where the parameters say so.
pub open spec fn encoded_payload(ctrl: ControlModel, p: PixelModel) -> Option<Seq<u8>> {
    if ctrl.format == 100 {
        external::png_encoded(p.pixels, p.width, p.height, p.color, p.depth)
    } else if ctrl.compressed {
        external::zlib_packed(p.pixels)
    } else {
        Some(p.pixels)
    }
}

/// Whether the payload of an encoded image is compressed: never for PNG files.
pub open spec fn stays_compressed(ctrl: ControlModel) -> bool {
    ctrl.format != 100 && ctrl.compressed
}

/// The sequence that carries a payload, under the parameters of `ctrl` with new dimensions.
pub open spec fn sequence_for(ctrl: ControlModel, p: PixelModel, payload: Seq<u8>) -> Seq<u8> {
    kitty::kitty_sequence(
        text::join(
            kitty::rebuilt_entries(
                ctrl.other_params,
                ctrl.format,
                p.width,
                p.height,
                stays_compressed(ctrl),
            ),
            0x2c,
        ),
        external::base64_encoded(payload),
    )
}

/// The kitty sequence that carries pixels, under the parameters of `ctrl` with new dimensions.
pub open spec fn encoded_kitty(ctrl: ControlModel, p: PixelModel) -> Option<Seq<u8>> {
    match encoded_payload(ctrl, p) {
        Some(payload) => Some(sequence_for(ctrl, p, payload)),
        None => None,
    }
}

/// The size of what a PNG encoder is handed is a machine number.
pub open spec fn png_fits(ctrl: ControlModel, p: PixelModel) -> bool {
    ctrl.format == 100 ==> (stride(p) + 1) * p.height <= usize::MAX
}

/// The base64 text of `payload` can be held in memory.
pub open spec fn base64_fits(payload: Seq<u8>) -> bool {
    (payload.len() + 2) / 3 * 4 <= isize::MAX
}

fn base64_fits_memory(payload: &[u8]) -> (r: bool)
    ensures
        r == base64_fits(payload@),
{
    let n: usize = payload.len();
    match n.checked_add(2) {
        Some(m) => match (m / 3).checked_mul(4) {
            Some(k) => k <= isize::MAX as usize,
            None => false,
        },
        None => {
            assert((n + 2) / 3 * 4 > isize::MAX);
            false
        },
    }
}

fn png_fits_usize(ctrl: &KittyControl, p: &KittyPixels) -> (r: bool)
    requires
        sound_geometry(ctrl@, p@),
    ensures
        r == png_fits(ctrl@, p@),
{
    if ctrl.format != 100 {
        return true;
    }
    let bpp = bytes_per_pixel(p.color, p.depth);
    let ghost s = stride(p@);
    assert((s + 1) * p.height >= s + 1) by (nonlinear_arith)
        requires
            s >= 0,
            p.height >= 1,
    ;
    match p.width.checked_mul(bpp) {
        Some(row) => match row.checked_add(1) {
            Some(line) => line.checked_mul(p.height).is_some(),
            None => false,
        },
        None => false,
    }
}

/// Encode pixels in the format that the parameters name.
fn encode_payload(ctrl: &KittyControl, p: &KittyPixels) -> (r: Option<Vec<u8>>)
    requires
        sound_geometry(ctrl@, p@),
        png_fits(ctrl@, p@),
    ensures
        match r {
            Some(v) => {
                &&& encoded_payload(ctrl@, p@) == Some(v@)
                &&& ctrl.format == 100 ==> external::png_decoded(v@) == Some(
                    (p@.pixels, p@.width, p@.height, p@.color, p@.depth),
                )
                &&& stays_compressed(ctrl@) ==> external::zlib_unpacked(v@) == Some(p@.pixels)
            },
            None => encoded_payload(ctrl@, p@) is None,
        },
{
    if ctrl.format == 100 {
        external::png_encode(p.pixels.as_slice(), p.width, p.height, p.color, p.depth)
    } else if ctrl.compressed {
        external::zlib_pack(p.pixels.as_slice())
    } else {
        Some(text::slice_vec(p.pixels.as_slice(), 0, p.pixels.len()))
    }
}

/// What is read back from the sequence that carries `p`: the parameters with the new dimensions,
/// and the pixels.
pub open spec fn reads_back(out: Seq<u8>, ctrl: ControlModel, p: PixelModel) -> bool {
    kitty_pixels(out) == Some(
        (
            ControlModel {
                pixel_w: p.width,
                pixel_h: p.height,
                compressed: stays_compressed(ctrl),
                ..ctrl
            },
            p,
        ),
    )
}

/// Put an encoded payload into a kitty sequence.
fn wrap_payload(ctrl: &KittyControl, p: &KittyPixels, payload: &[u8]) -> (r: Vec<u8>)
    requires
        sound_geometry(ctrl@, p@),
        base64_fits(payload@),
        encoded_payload(ctrl@, p@) == Some(payload@),
        ctrl.format == 100 ==> external::png_decoded(payload@) == Some(
            (p@.pixels, p@.width, p@.height, p@.color, p@.depth),
        ),
        ctrl.format != 100 ==> p@.color == (if ctrl.format == 24 {
            2u8
        } else {
            6u8
        }) && p@.depth == 8,
        stays_compressed(ctrl@) ==> external::zlib_unpacked(payload@) == Some(p@.pixels),
        forall|k: int|
            0 <= k < ctrl@.other_params.len() ==> kitty_laws::clean_entry(
                #[trigger] ctrl@.other_params[k],
            ) && kitty::handed_through(ctrl@.other_params[k]),
    ensures
        encoded_kitty(ctrl@, p@) == Some(r@),
        reads_back(r@, ctrl@, p@),
{
    let compressed = ctrl.format != 100 && ctrl.compressed;
    let b64 = external::base64_encode(payload);
    let control = rebuild_kitty_control(ctrl, ctrl.format, p.width, p.height, compressed);
    let out = build_kitty_sequence(control.as_slice(), b64.as_slice());
    proof {
        let c = ctrl@;
        let entries = kitty::rebuilt_entries(
            c.other_params,
            c.format,
            p@.width,
            p@.height,
            compressed,
        );
        assert(!b64@.contains(sixel::ESC)) by {
            assert forall|i: int| 0 <= i < b64@.len() implies b64@[i] != sixel::ESC by {
                assert(external::is_base64(b64@[i]));
            }
        }
        kitty_laws::lemma_rebuilt_control(
            c.other_params,
            c.format,
            p@.width,
            p@.height,
            compressed,
            false,
        );
        kitty_laws::lemma_rebuilt_control(
            c.other_params,
            c.format,
            p@.width,
            p@.height,
            compressed,
            true,
        );
        kitty_laws::law_sequence_read_back(control@, b64@);
        let more = entries.push(kitty::more_entry(true));
        assert(more.drop_last() =~= entries);
        assert(text::join(more, 0x2c) =~= control@ + seq![0x2cu8] + kitty::more_entry(true));
        let chunks = kitty::chunks_from(out@, 0);
        let read = kitty::control_of(chunks[0].control);
        assert(read == ControlModel {
            pixel_w: p@.width,
            pixel_h: p@.height,
            compressed,
            ..c
        });
        assert(external::base64_decoded(kitty_laws::payloads(chunks)) == Some(payload@));
    }
    out
}

// ---------------------------------------------------------------------------
// Clipping
// ---------------------------------------------------------------------------

/// The clipped image: nothing where no row is visible, the image as it is where all rows are, and
/// else a new sequence with just the visible pixel rows. `None` as well where the payload cannot
/// be decoded.
pub open spec fn clipped_kitty(
    data: Seq<u8>,
    height_rows: int,
    skip: int,
    keep: int,
    cell_h: int,
) -> Option<Seq<u8>> {
    if sixel::nothing_visible(height_rows, skip, keep) {
        None
    } else if sixel::all_visible(height_rows, skip, keep) {
        Some(data)
    } else {
        match kitty_pixels(data) {
            Some((ctrl, p)) => match cropped(
                p,
                skip,
                sixel::visible_rows(height_rows, skip, keep),
                cell_h,
            ) {
                Some(q) => encoded_kitty(ctrl, q),
                None => None,
            },
            None => None,
        }
    }
}

/// All sizes and offsets that clipping computes are machine numbers.
pub open spec fn kitty_clip_fits(
    data: Seq<u8>,
    height_rows: int,
    skip: int,
    keep: int,
    cell_h: int,
) -> bool {
    sixel::nothing_visible(height_rows, skip, keep) || sixel::all_visible(height_rows, skip, keep)
        || match kitty_pixels(data) {
        Some((ctrl, p)) => {
            let visible = sixel::visible_rows(height_rows, skip, keep);
            crop_fits(p, skip, visible, cell_h) && match cropped(p, skip, visible, cell_h) {
                Some(q) => png_fits(ctrl, q) && match encoded_payload(ctrl, q) {
                    Some(payload) => base64_fits(payload),
                    None => true,
                },
                None => true,
            }
        },
        None => true,
    }
}

/// What a clipped sequence shows: the image itself where nothing was cut, else exactly the
/// visible pixel rows of the image.
pub open spec fn shows_rows(
    out: Seq<u8>,
    data: Seq<u8>,
    height_rows: int,
    skip: int,
    keep: int,
    cell_h: int,
) -> bool {
    if sixel::all_visible(height_rows, skip, keep) {
        out == data
    } else {
        match kitty_pixels(data) {
            Some((ctrl, p)) => match cropped(
                p,
                skip,
                sixel::visible_rows(height_rows, skip, keep),
                cell_h,
            ) {
                Some(q) => reads_back(out, ctrl, q),
                None => false,
            },
            None => false,
        }
    }
}

fn visible_row_count(height: usize, skip: usize, keep: usize) -> (r: usize)
    requires
        skip < height,
    ensures
        r == sixel::visible_rows(height as int, skip as int, keep as int),
{
    if keep <= height - skip {
        keep
    } else {
        height - skip
    }
}

/// Build a clipped kitty image by decoding the pixel payload, cropping rows, and re-encoding. The
/// output contains only the pixels that should be visible, so its size scales with the visible
/// area rather than the full image.
///
/// `skip_top` is the number of terminal rows to remove from the top, `keep_rows` the maximum
/// number of terminal rows to keep.
///
/// Returns `None` if nothing remains after clipping.
pub fn clip_kitty(img: &InlineImage, skip_top: usize, keep_rows: usize, cell_h: usize) -> (r: Option<
    Vec<u8>,
>)
    requires
        kitty_clip_fits(
            img.data@,
            img.height_rows as int,
            skip_top as int,
            keep_rows as int,
            cell_h as int,
        ),
    ensures
        match r {
            Some(out) => {
                &&& clipped_kitty(
                    img.data@,
                    img.height_rows as int,
                    skip_top as int,
                    keep_rows as int,
                    cell_h as int,
                ) == Some(out@)
                &&& shows_rows(
                    out@,
                    img.data@,
                    img.height_rows as int,
                    skip_top as int,
                    keep_rows as int,
                    cell_h as int,
                )
            },
            None => clipped_kitty(
                img.data@,
                img.height_rows as int,
                skip_top as int,
                keep_rows as int,
                cell_h as int,
            ) is None,
        },
{
    if keep_rows == 0 || skip_top >= img.height_rows {
        return None;
    }
    let visible = visible_row_count(img.height_rows, skip_top, keep_rows);
    if skip_top == 0 && visible >= img.height_rows {
        let copy = text::slice_vec(img.data.as_slice(), 0, img.data.len());
        assert(copy@ =~= img.data@);
        return Some(copy);
    }
    let (ctrl, p) = match decode_kitty(img.data.as_slice()) {
        Some(x) => x,
        None => return None,
    };
    let q = match crop_rows(&p, skip_top, visible, cell_h) {
        Some(q) => q,
        None => return None,
    };
    match encode_payload(&ctrl, &q) {
        Some(payload) => Some(wrap_payload(&ctrl, &q, payload.as_slice())),
        None => None,
    }
}

/// Whether everything that `clip_kitty` computes on these arguments fits the machine.
pub fn clip_kitty_fits(img: &InlineImage, skip_top: usize, keep_rows: usize, cell_h: usize) -> (r:
    bool)
    ensures
        r == kitty_clip_fits(
            img.data@,
            img.height_rows as int,
            skip_top as int,
            keep_rows as int,
            cell_h as int,
        ),
{
    if keep_rows == 0 || skip_top >= img.height_rows {
        return true;
    }
    let visible = visible_row_count(img.height_rows, skip_top, keep_rows);
    if skip_top == 0 && visible >= img.height_rows {
        return true;
    }
    let (ctrl, p) = match decode_kitty(img.data.as_slice()) {
        Some(x) => x,
        None => return true,
    };
    if !crop_fits_usize(&p, skip_top, visible, cell_h) {
        return false;
    }
    let q = match crop_rows(&p, skip_top, visible, cell_h) {
        Some(q) => q,
        None => return true,
    };
    if !png_fits_usize(&ctrl, &q) {
        return false;
    }
    match encode_payload(&ctrl, &q) {
        Some(payload) => base64_fits_memory(payload.as_slice()),
        None => true,
    }
}

/// `clip_kitty` where everything that it computes fits the machine, else `None`.
pub fn try_clip_kitty(img: &InlineImage, skip_top: usize, keep_rows: usize, cell_h: usize) -> (r:
    Option<Option<Vec<u8>>>)
    ensures
        r is Some == kitty_clip_fits(
            img.data@,
            img.height_rows as int,
            skip_top as int,
            keep_rows as int,
            cell_h as int,
        ),
        match r {
            Some(Some(out)) => {
                &&& clipped_kitty(
                    img.data@,
                    img.height_rows as int,
                    skip_top as int,
                    keep_rows as int,
                    cell_h as int,
                ) == Some(out@)
                &&& shows_rows(
                    out@,
                    img.data@,
                    img.height_rows as int,
                    skip_top as int,
                    keep_rows as int,
                    cell_h as int,
                )
            },
            Some(None) => clipped_kitty(
                img.data@,
                img.height_rows as int,
                skip_top as int,
                keep_rows as int,
                cell_h as int,
            ) is None,
            None => true,
        },
{
    if clip_kitty_fits(img, skip_top, keep_rows, cell_h) {
        Some(clip_kitty(img, skip_top, keep_rows, cell_h))
    } else {
        None
    }
}

// ---------------------------------------------------------------------------
// Laws
// ---------------------------------------------------------------------------

/// Nothing is kept of an image that is not in view, and an image that is wholly in view is kept as it
/// is. Of any other the pixels are cut; what cannot be decoded is left out.
pub proof fn law_kitty_clip_cases(
    data: Seq<u8>,
    height_rows: int,
    skip: int,
    keep: int,
    cell_h: int,
)
    requires
        0 <= skip,
        0 <= keep,
        0 < height_rows,
    ensures
        keep == 0 || skip >= height_rows ==> clipped_kitty(
            data,
            height_rows,
            skip,
            keep,
            cell_h,
        ) is None,
        skip == 0 && keep >= height_rows ==> clipped_kitty(data, height_rows, skip, keep, cell_h)
            == Some(data),
        0 < keep && skip < height_rows && (skip > 0 || keep < height_rows) ==> {
            let rows = if keep < height_rows - skip {
                keep
            } else {
                height_rows - skip
            };
            match kitty_pixels(data) {
                Some((ctrl, p)) => match cropped(p, skip, rows, cell_h) {
                    Some(q) => clipped_kitty(data, height_rows, skip, keep, cell_h)
                        == encoded_kitty(ctrl, q),
                    None => clipped_kitty(data, height_rows, skip, keep, cell_h) is None,
                },
                None => clipped_kitty(data, height_rows, skip, keep, cell_h) is None,
            }
        },
{
}

/// Where the visible pixel rows are there, they are kept: cropping fails only where nothing is in
/// view or the pixels break off.
pub proof fn law_crop_succeeds(p: PixelModel, skip: int, visible: int, cell_h: int)
    requires
        0 <= skip,
        0 < visible,
        0 < cell_h,
        0 <= p.width,
        skip * cell_h < p.height,
        p.pixels.len() >= p.height * stride(p),
    ensures
        cropped(p, skip, visible, cell_h) is Some,
{
    let s = stride(p);
    let first = first_pixel_row(p.height, skip, cell_h);
    let rows = kept_pixel_rows(p.height, skip, visible, cell_h);
    let bytes = external::pixel_bytes(p.color, p.depth);
    let samples = external::color_samples(p.color);
    let size = if p.depth as int / 8 >= 1 {
        p.depth as int / 8
    } else {
        1
    };
    assert(samples * size >= 0) by (nonlinear_arith)
        requires
            samples >= 1,
            size >= 1,
    ;
    assert(0 <= s) by (nonlinear_arith)
        requires
            s == p.width * bytes,
            0 <= p.width,
            0 <= bytes,
    ;
    assert(0 < visible * cell_h) by (nonlinear_arith)
        requires
            0 < visible,
            0 < cell_h,
    ;
    assert(first * s + rows * s <= p.height * s) by (nonlinear_arith)
        requires
            first + rows <= p.height,
            0 <= s,
    ;
}

/// Raw pixels take three bytes each in format 24 and four in any other, and have the declared size.
pub proof fn law_raw_pixels(ctrl: ControlModel, raw: Seq<u8>)
    requires
        ctrl.format != 100,
        ctrl.pixel_w > 0,
        ctrl.pixel_h > 0,
    ensures
        ({
            &&& pixels_of(ctrl, raw) matches Some(p)
            &&& p.pixels == raw
            &&& p.width == ctrl.pixel_w
            &&& p.height == ctrl.pixel_h
            &&& stride(p) == ctrl.pixel_w * (if ctrl.format == 24 {
                3int
            } else {
                4int
            })
        }),
{
}

} // verus!
