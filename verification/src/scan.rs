//! Scanning a line for inline images: each becomes a run of placeholder spaces, everything else
//! is copied.
use vstd::prelude::*;
use vstd::string::*;
use vstd::utf8::*;
use crate::image::{ImageModel, ImageProtocol};
use crate::kitty;
use crate::kitty::{find_kitty_end, parse_kitty_dimensions};
use crate::sixel;
use crate::sixel::{find_sixel_end, st_here, try_analyze_sixel, ESC};
use crate::strings;
use crate::strings::{char_len, columns_of, slice_text};
use crate::text;

verus! {

/// An image extracted during line scanning (before a line index is assigned).
pub struct ExtractedImage {
    pub col: usize,
    pub width_cols: usize,
    pub height_rows: usize,
    pub data: Vec<u8>,
    pub protocol: ImageProtocol,
    pub sixel_row_count: usize,
    pub sixel_data_start: usize,
    pub sixel_row_offsets: Vec<usize>,
    pub sixel_color_defs: Vec<Vec<u8>>,
}

impl View for ExtractedImage {
    type V = ImageModel;

    open spec fn view(&self) -> ImageModel {
        ImageModel {
            col: self.col as int,
            width_cols: self.width_cols as int,
            height_rows: self.height_rows as int,
            data: self.data@,
            protocol: self.protocol,
            sixel_row_count: self.sixel_row_count as int,
            sixel_data_start: self.sixel_data_start as int,
            sixel_row_offsets: self.sixel_row_offsets@,
            sixel_color_defs: text::byte_lists(self.sixel_color_defs@),
        }
    }
}

pub open spec fn image_models(v: Seq<ExtractedImage>) -> Seq<ImageModel> {
    Seq::new(v.len(), |i: int| v[i]@)
}

/// Result of scanning a single line for image sequences.
pub struct LineScanResult {
    /// The line with image sequences replaced by placeholder spaces.
    pub cleaned: String,
    /// Images found on this line.
    pub images: Vec<ExtractedImage>,
}

// ---------------------------------------------------------------------------
// Tokens
// ---------------------------------------------------------------------------

/// Where a control sequence (ESC [ ...) ends whose parameters are looked at from `i` on: after
/// its final byte, or at the end of the line.
pub open spec fn csi_end(b: Seq<u8>, i: int) -> int
    decreases b.len() - i,
{
    if i < 0 || i >= b.len() {
        i
    } else if 0x40 <= b[i] <= 0x7e {
        i + 1
    } else {
        csi_end(b, i + 1)
    }
}

/// Where an operating system command (ESC ] ...) ends that is looked at from `i` on: after a
/// bell, after a string terminator, or at the end of the line.
pub open spec fn osc_end(b: Seq<u8>, i: int) -> int
    decreases b.len() - i,
{
    if i < 0 || i >= b.len() {
        i
    } else if b[i] == 0x07 {
        i + 1
    } else if sixel::st_at(b, i) {
        i + 2
    } else {
        osc_end(b, i + 1)
    }
}

pub proof fn lemma_sequence_ends(b: Seq<u8>, i: int)
    requires
        0 <= i <= b.len(),
    ensures
        i <= csi_end(b, i) <= b.len(),
        i <= osc_end(b, i) <= b.len(),
    decreases b.len() - i,
{
    if i < b.len() {
        lemma_sequence_ends(b, i + 1);
    }
}

/// What stands at a position of a line.
pub enum ScanToken {
    /// A sixel image up to the given end.
    Sixel(int),
    /// A kitty image up to the given end.
    Kitty(int),
    /// Another escape sequence up to the given end.
    Escape(int),
    /// A character up to the given end.
    Character(char, int),
    /// No character: the inside of one, or a piece of one.
    Broken,
}

/// The character that starts at position `i`, and where it ends; `None` inside a character.
pub open spec fn character_at(b: Seq<u8>, i: int) -> Option<(char, int)> {
    let c = decode_first_scalar(b.subrange(i, b.len() as int)) as char;
    let e = i + strings::char_size(c);
    if is_continuation_byte(b[i]) || e > b.len() {
        None
    } else {
        Some((c, e))
    }
}

/// What stands at position `i` of a line. An escape character that starts no image, control
/// sequence or command takes the character after it along.
pub open spec fn token_at(b: Seq<u8>, i: int) -> ScanToken {
    if b[i] == ESC && i + 1 < b.len() {
        if b[i + 1] == 0x50 && sixel::sixel_end(b, i) is Some {
            ScanToken::Sixel(sixel::sixel_end(b, i)->0)
        } else if b[i + 1] == 0x5f && kitty::kitty_end(b, i) is Some {
            ScanToken::Kitty(kitty::kitty_end(b, i)->0)
        } else if b[i + 1] == 0x5b {
            ScanToken::Escape(csi_end(b, i + 2))
        } else if b[i + 1] == 0x5d {
            ScanToken::Escape(osc_end(b, i + 2))
        } else {
            match character_at(b, i + 1) {
                Some((c, e)) => ScanToken::Escape(e),
                None => ScanToken::Broken,
            }
        }
    } else {
        match character_at(b, i) {
            Some((c, e)) => ScanToken::Character(c, e),
            None => ScanToken::Broken,
        }
    }
}

/// Where a token ends.
pub open spec fn token_end(t: ScanToken, i: int) -> int {
    match t {
        ScanToken::Sixel(e) => e,
        ScanToken::Kitty(e) => e,
        ScanToken::Escape(e) => e,
        ScanToken::Character(_, e) => e,
        ScanToken::Broken => i + 1,
    }
}

pub proof fn lemma_token_end(b: Seq<u8>, i: int)
    requires
        0 <= i < b.len(),
    ensures
        i < token_end(token_at(b, i), i) <= b.len(),
{
    sixel::lemma_sixel_end(b, i + 2);
    kitty::lemma_kitty_end(b, i);
    if i + 2 <= b.len() {
        lemma_sequence_ends(b, i + 2);
    }
    if let Some((c, e)) = character_at(b, i) {
        strings::lemma_char_size(c);
    }
    if let Some((c, e)) = character_at(b, i + 1) {
        strings::lemma_char_size(c);
    }
}

/// `n` spaces.
pub open spec fn spaces(n: int) -> Seq<char> {
    Seq::new(n as nat, |k: int| ' ')
}

// ---------------------------------------------------------------------------
// Lines
// ---------------------------------------------------------------------------

/// Whether a sixel image has measures: no number in it is too large, and a cell has a size.
pub open spec fn sixel_measurable(d: Seq<u8>, cell_w: int, cell_h: int) -> bool {
    cell_w > 0 && cell_h > 0 && sixel::sixel_fits(d)
}

/// A sixel image with its measures.
pub open spec fn sixel_picture(d: Seq<u8>, col: int, cell_w: int, cell_h: int) -> ImageModel {
    let start = sixel::data_region(d);
    ImageModel {
        col,
        width_cols: sixel::cells_for(sixel::sixel_pixel_width(d), cell_w),
        height_rows: sixel::cells_for(sixel::sixel_pixel_height(d), cell_h),
        data: d,
        protocol: ImageProtocol::Sixel,
        sixel_row_count: sixel::sixel_rows(d),
        sixel_data_start: sixel::data_start(d),
        sixel_row_offsets: sixel::row_breaks(d, start),
        sixel_color_defs: sixel::color_defs(d, start),
    }
}

/// A kitty image with its measures.
pub open spec fn kitty_picture(d: Seq<u8>, col: int, cell_w: int, cell_h: int) -> ImageModel {
    let (cols, rows) = kitty::kitty_cells(d, cell_w, cell_h);
    ImageModel {
        col,
        width_cols: sixel::max_of(cols, 1),
        height_rows: sixel::max_of(rows, 1),
        data: d,
        protocol: ImageProtocol::Kitty,
        sixel_row_count: 0,
        sixel_data_start: 0,
        sixel_row_offsets: seq![],
        sixel_color_defs: seq![],
    }
}

/// What scanning gives: the cleaned text and the images.
#[verifier::ext_equal]
pub struct ScanModel {
    pub text: Seq<char>,
    pub images: Seq<ImageModel>,
}

/// `text` and `images`, followed by what comes after them.
pub open spec fn followed_by(
    text: Seq<char>,
    images: Seq<ImageModel>,
    rest: Option<ScanModel>,
) -> Option<ScanModel> {
    match rest {
        Some(r) => Some(ScanModel { text: text + r.text, images: images + r.images }),
        None => None,
    }
}

/// Scanning from byte `i` and column `col` on. An image leaves as many spaces as it is wide; an
/// escape sequence is copied and takes no columns. `None` where a position falls
/// inside a character, a number is too large for the machine, or an image is measured in cells
/// without width or height.
pub open spec fn scan_from(b: Seq<u8>, i: int, col: int, cell_w: int, cell_h: int) -> Option<
    ScanModel,
>
    decreases b.len() - i,
{
    if i < 0 || i >= b.len() {
        Some(ScanModel { text: seq![], images: seq![] })
    } else {
        proof {
            lemma_token_end(b, i);
        }
        match token_at(b, i) {
            ScanToken::Sixel(e) => {
                let d = b.subrange(i, e);
                let picture = sixel_picture(d, col, cell_w, cell_h);
                if !sixel_measurable(d, cell_w, cell_h) || col + picture.width_cols > usize::MAX {
                    None
                } else {
                    followed_by(
                        spaces(picture.width_cols),
                        seq![picture],
                        scan_from(b, e, col + picture.width_cols, cell_w, cell_h),
                    )
                }
            },
            ScanToken::Kitty(e) => {
                let d = b.subrange(i, e);
                let picture = kitty_picture(d, col, cell_w, cell_h);
                if !kitty::kitty_computable(d, cell_w, cell_h) || col + picture.width_cols
                    > usize::MAX {
                    None
                } else {
                    followed_by(
                        spaces(picture.width_cols),
                        seq![picture],
                        scan_from(b, e, col + picture.width_cols, cell_w, cell_h),
                    )
                }
            },
            ScanToken::Escape(e) => followed_by(
                decode_utf8(b.subrange(i, e)),
                seq![],
                scan_from(b, e, col, cell_w, cell_h),
            ),
            ScanToken::Character(c, e) => if col + strings::columns(c) > usize::MAX {
                None
            } else {
                followed_by(
                    seq![c],
                    seq![],
                    scan_from(b, e, col + strings::columns(c), cell_w, cell_h),
                )
            },
            ScanToken::Broken => None,
        }
    }
}

/// What scanning a line gives.
pub open spec fn scanned(line: Seq<char>, cell_w: int, cell_h: int) -> Option<ScanModel> {
    scan_from(encode_utf8(line), 0, 0, cell_w, cell_h)
}

/// Appends `n` spaces.
pub fn push_spaces(out: &mut String, n: usize)
    ensures
        final(out)@ == old(out)@ + spaces(n as int),
{
    let mut i: usize = 0;
    assert(out@ =~= old(out)@ + spaces(0));
    while i < n
        invariant
            i <= n,
            out@ == old(out)@ + spaces(i as int),
        decreases n - i,
    {
        out.push(' ');
        assert(out@ =~= old(out)@ + spaces(i + 1));
        i += 1;
    }
}

/// The ends of control sequences and commands are character boundaries.
proof fn lemma_sequence_boundaries(b: Seq<u8>, i: int)
    requires
        valid_utf8(b),
        0 <= i <= b.len(),
    ensures
        is_char_boundary(b, csi_end(b, i)),
        is_char_boundary(b, osc_end(b, i)),
    decreases b.len() - i,
{
    if i < b.len() {
        lemma_sequence_boundaries(b, i + 1);
        if b[i] < 0x80 {
            strings::lemma_boundary_after_ascii(b, i);
        }
        if sixel::st_at(b, i) {
            strings::lemma_boundary_after_ascii(b, i + 1);
        }
    } else {
        is_char_boundary_start_end_of_seq(b);
    }
}

/// Escape sequences and characters start and end on character boundaries, and the text of a
/// character is the character.
pub proof fn lemma_token_text(b: Seq<u8>, i: int)
    requires
        valid_utf8(b),
        0 <= i < b.len(),
    ensures
        match token_at(b, i) {
            ScanToken::Escape(e) => i < e && is_char_boundary(b, i) && is_char_boundary(b, e),
            ScanToken::Character(c, e) => {
                &&& i < e && is_char_boundary(b, i) && is_char_boundary(b, e)
                &&& decode_utf8(b.subrange(i, e)) == seq![c]
            },
            ScanToken::Broken => is_continuation_byte(b[i]),
            _ => true,
        },
{
    lemma_token_end(b, i);
    if b[i] == ESC && i + 1 < b.len() {
        strings::lemma_boundary_after_ascii(b, i);
        lemma_sequence_boundaries(b, i + 2);
        strings::lemma_character(b, i + 1);
    } else if !is_continuation_byte(b[i]) {
        is_char_boundary_iff_not_is_continuation_byte(b, i);
        strings::lemma_character(b, i);
    }
}

fn find_csi_end(b: &[u8], from: usize) -> (r: usize)
    requires
        from <= b@.len(),
    ensures
        r == csi_end(b@, from as int),
        from <= r <= b@.len(),
{
    let n: usize = b.len();
    let mut i: usize = from;
    while i < n
        invariant
            n == b@.len(),
            from <= i <= n,
            csi_end(b@, from as int) == csi_end(b@, i as int),
        decreases n - i,
    {
        if b[i] >= 0x40 && b[i] <= 0x7e {
            return i + 1;
        }
        i += 1;
    }
    i
}

fn find_osc_end(b: &[u8], from: usize) -> (r: usize)
    requires
        from <= b@.len(),
    ensures
        r == osc_end(b@, from as int),
        from <= r <= b@.len(),
{
    let n: usize = b.len();
    let mut i: usize = from;
    while i < n
        invariant
            n == b@.len(),
            from <= i <= n,
            osc_end(b@, from as int) == osc_end(b@, i as int),
        decreases n - i,
    {
        if b[i] == 0x07 {
            return i + 1;
        }
        if st_here(b, i) {
            return i + 2;
        }
        i += 1;
    }
    i
}

/// The character that starts at byte `i` of a line, and its size.
fn char_at(line: &str, i: usize) -> (r: (char, usize))
    requires
        i < encode_utf8(line@).len(),
        !is_continuation_byte(encode_utf8(line@)[i as int]),
    ensures
        ({
            let b = encode_utf8(line@);
            &&& r.0 == decode_first_scalar(b.subrange(i as int, b.len() as int)) as char
            &&& r.1 == strings::char_size(r.0)
            &&& 1 <= r.1
            &&& i + r.1 <= b.len()
        }),
{
    let ghost b = encode_utf8(line@);
    proof {
        encode_utf8_valid_utf8(line@);
        is_char_boundary_iff_not_is_continuation_byte(b, i as int);
    }
    let rest = line.split_at(i).1;
    let ghost rb = b.subrange(i as int, b.len() as int);
    proof {
        assert(encode_utf8(rest@) =~= rb);
        assert(rest@.len() > 0) by {
            if rest@.len() == 0 {
                assert(encode_utf8(rest@) =~= seq![]);
            }
        }
        encode_utf8_first_scalar(rest@);
        char_u32_cast(rest@[0], decode_first_scalar(rb));
    }
    let mut it = rest.chars();
    let c = match it.next() {
        Some(c) => c,
        None => ' ',
    };
    assert(c == rest@[0]);
    (c, char_len(c))
}

/// Takes the measures of a kitty image.
fn kitty_image(data: Vec<u8>, col: usize, cell_w: usize, cell_h: usize) -> (r: Option<
    ExtractedImage,
>)
    ensures
        match r {
            Some(img) => {
                &&& kitty::kitty_computable(data@, cell_w as int, cell_h as int)
                &&& img@ == kitty_picture(data@, col as int, cell_w as int, cell_h as int)
            },
            None => !kitty::kitty_computable(data@, cell_w as int, cell_h as int),
        },
{
    let (w, h) = match parse_kitty_dimensions(data.as_slice(), cell_w, cell_h) {
        Some(cells) => cells,
        None => return None,
    };
    let r = ExtractedImage {
        col,
        width_cols: if w >= 1 {
            w
        } else {
            1
        },
        height_rows: if h >= 1 {
            h
        } else {
            1
        },
        data,
        protocol: ImageProtocol::Kitty,
        sixel_row_count: 0,
        sixel_data_start: 0,
        sixel_row_offsets: Vec::new(),
        sixel_color_defs: Vec::new(),
    };
    assert(r@ =~= kitty_picture(data@, col as int, cell_w as int, cell_h as int));
    Some(r)
}

/// Takes the measures of a sixel image.
fn sixel_image(data: Vec<u8>, col: usize, cell_w: usize, cell_h: usize) -> (r: Option<
    ExtractedImage,
>)
    ensures
        match r {
            Some(img) => {
                &&& sixel_measurable(data@, cell_w as int, cell_h as int)
                &&& img@ == sixel_picture(data@, col as int, cell_w as int, cell_h as int)
            },
            None => !sixel_measurable(data@, cell_w as int, cell_h as int),
        },
{
    match try_analyze_sixel(data.as_slice(), cell_w, cell_h) {
        Some(info) => {
            let r = ExtractedImage {
                col,
                width_cols: info.width_cols,
                height_rows: info.height_rows,
                data,
                protocol: ImageProtocol::Sixel,
                sixel_row_count: info.sixel_row_count,
                sixel_data_start: info.sixel_data_start,
                sixel_row_offsets: info.sixel_row_offsets,
                sixel_color_defs: info.sixel_color_defs,
            };
            assert(r@ =~= sixel_picture(data@, col as int, cell_w as int, cell_h as int));
            Some(r)
        },
        None => None,
    }
}

/// Adds an image to what was scanned so far: its placeholder, the image, its width.
fn add_image(cleaned: &mut String, images: &mut Vec<ExtractedImage>, img: ExtractedImage)
    ensures
        final(cleaned)@ == old(cleaned)@ + spaces(img.width_cols as int),
        image_models(final(images)@) == image_models(old(images)@) + seq![img@],
{
    push_spaces(cleaned, img.width_cols);
    images.push(img);
    assert(image_models(images@) =~= image_models(old(images)@) + seq![img@]);
}

/// Scans a line for inline images; `None` where a position falls inside a character, a number is
/// too large for the machine, or an image is measured in cells without width or height.
pub fn try_scan_line(line: &str, cell_w: usize, cell_h: usize) -> (r: Option<LineScanResult>)
    ensures
        match r {
            Some(s) => scanned(line@, cell_w as int, cell_h as int) == Some(
                ScanModel { text: s.cleaned@, images: image_models(s.images@) },
            ),
            None => scanned(line@, cell_w as int, cell_h as int) is None,
        },
{
    let bytes = line.as_bytes();
    let n: usize = bytes.len();
    let ghost b = encode_utf8(line@);
    let mut cleaned = String::new();
    let mut images: Vec<ExtractedImage> = Vec::new();
    let mut i: usize = 0;
    let mut col: usize = 0;
    let ghost whole = scanned(line@, cell_w as int, cell_h as int);
    proof {
        if let Some(w) = whole {
            assert(cleaned@ + w.text =~= w.text);
            assert(image_models(images@) + w.images =~= w.images);
        }
    }
    while i < n
        invariant
            bytes@ == b,
            b == encode_utf8(line@),
            n == b.len(),
            i <= n,
            whole == followed_by(
                cleaned@,
                image_models(images@),
                scan_from(b, i as int, col as int, cell_w as int, cell_h as int),
            ),
            whole == scanned(line@, cell_w as int, cell_h as int),
        decreases n - i,
    {
        let ghost text = cleaned@;
        let ghost pics = image_models(images@);
        let ghost here = scan_from(b, i as int, col as int, cell_w as int, cell_h as int);
        proof {
            lemma_token_end(b, i as int);
        }
        let escape = bytes[i] == ESC && i + 1 < n;
        if escape && bytes[i + 1] == 0x50 {
            if let Some((end, data)) = find_sixel_end(bytes, i) {
                let img = match sixel_image(data, col, cell_w, cell_h) {
                    Some(img) => img,
                    None => return None,
                };
                let width: usize = img.width_cols;
                if usize::MAX - col < width {
                    return None;
                }
                let ghost rest = scan_from(
                    b,
                    end as int,
                    col + width,
                    cell_w as int,
                    cell_h as int,
                );
                assert(here == followed_by(spaces(width as int), seq![img@], rest));
                add_image(&mut cleaned, &mut images, img);
                proof {
                    lemma_followed(text, pics, spaces(width as int), seq![img@], rest);
                }
                col += width;
                i = end;
                continue;
            }
        }
        if escape && bytes[i + 1] == 0x5f {
            if let Some((end, data)) = find_kitty_end(bytes, i) {
                let img = match kitty_image(data, col, cell_w, cell_h) {
                    Some(img) => img,
                    None => return None,
                };
                let width: usize = img.width_cols;
                if usize::MAX - col < width {
                    return None;
                }
                let ghost rest = scan_from(
                    b,
                    end as int,
                    col + width,
                    cell_w as int,
                    cell_h as int,
                );
                assert(here == followed_by(spaces(width as int), seq![img@], rest));
                add_image(&mut cleaned, &mut images, img);
                proof {
                    lemma_followed(text, pics, spaces(width as int), seq![img@], rest);
                }
                col += width;
                i = end;
                continue;
            }
        }
        if escape {
            proof {
                encode_utf8_valid_utf8(line@);
                lemma_token_text(b, i as int);
                strings::lemma_boundary_after_ascii(b, i as int);
                is_char_boundary_iff_not_is_continuation_byte(b, i + 1);
            }
            let end: usize = if bytes[i + 1] == 0x5b {
                find_csi_end(bytes, i + 2)
            } else if bytes[i + 1] == 0x5d {
                find_osc_end(bytes, i + 2)
            } else {
                let (c, size) = char_at(line, i + 1);
                i + 1 + size
            };
            let ghost copied = decode_utf8(b.subrange(i as int, end as int));
            let ghost rest = scan_from(b, end as int, col as int, cell_w as int, cell_h as int);
            assert(here == followed_by(copied, seq![], rest));
            let part = slice_text(line, i, end).unwrap();
            cleaned.append(part.as_str());
            proof {
                lemma_followed(text, pics, copied, seq![], rest);
                assert(pics + seq![] =~= pics);
            }
            i = end;
            continue;
        }
        if bytes[i] >= 0x80 && bytes[i] <= 0xbf {
            return None;
        }
        let (c, size) = char_at(line, i);
        let width: usize = columns_of(c);
        if usize::MAX - col < width {
            return None;
        }
        let ghost rest = scan_from(b, i + size, col + width, cell_w as int, cell_h as int);
        assert(here == followed_by(seq![c], seq![], rest));
        cleaned.push(c);
        proof {
            lemma_followed(text, pics, seq![c], seq![], rest);
            assert(pics + seq![] =~= pics);
            assert(text + seq![c] =~= cleaned@);
        }
        col += width;
        i += size;
    }
    proof {
        assert(cleaned@ + seq![] =~= cleaned@);
        assert(image_models(images@) + seq![] =~= image_models(images@));
    }
    Some(LineScanResult { cleaned, images })
}

/// Scanning from a character boundary on without finding an image gives the rest of the text.
proof fn lemma_no_image(b: Seq<u8>, i: int, col: int, cell_w: int, cell_h: int)
    requires
        valid_utf8(b),
        is_char_boundary(b, i),
        scan_from(b, i, col, cell_w, cell_h) matches Some(s) && s.images.len() == 0,
    ensures
        0 <= i <= b.len(),
        valid_utf8(b.subrange(i, b.len() as int)),
        (scan_from(b, i, col, cell_w, cell_h)->0).text == decode_utf8(
            b.subrange(i, b.len() as int),
        ),
    decreases b.len() - i,
{
    strings::lemma_boundary_range(b, i);
    valid_utf8_split(b, i);
    let t = b.subrange(i, b.len() as int);
    if i < b.len() {
        lemma_token_end(b, i);
        lemma_token_text(b, i);
        is_char_boundary_iff_not_is_continuation_byte(b, i);
        let e = token_end(token_at(b, i), i);
        match token_at(b, i) {
            ScanToken::Escape(_) => lemma_no_image(b, e, col, cell_w, cell_h),
            ScanToken::Character(c, _) => lemma_no_image(
                b,
                e,
                col + strings::columns(c),
                cell_w,
                cell_h,
            ),
            _ => {},
        }
        strings::lemma_boundary_behind(b, i, e);
        decode_utf8_split(t, e - i);
        assert(t.subrange(0, e - i) =~= b.subrange(i, e));
        assert(t.subrange(e - i, t.len() as int) =~= b.subrange(e, b.len() as int));
    }
}

/// A line in which no image is found comes out as it is: styles, links and other escape sequences
/// are kept.
pub proof fn law_line_without_images(line: Seq<char>, cell_w: int, cell_h: int)
    requires
        scanned(line, cell_w, cell_h) matches Some(s) && s.images.len() == 0,
    ensures
        (scanned(line, cell_w, cell_h)->0).text == line,
{
    let b = encode_utf8(line);
    encode_utf8_valid_utf8(line);
    is_char_boundary_start_end_of_seq(b);
    lemma_no_image(b, 0, 0, cell_w, cell_h);
    assert(b.subrange(0, b.len() as int) =~= b);
    encode_utf8_decode_utf8(line);
}

/// What is scanned piece by piece is scanned as a whole.
proof fn lemma_followed(
    a: Seq<char>,
    x: Seq<ImageModel>,
    b: Seq<char>,
    y: Seq<ImageModel>,
    rest: Option<ScanModel>,
)
    ensures
        followed_by(a, x, followed_by(b, y, rest)) == followed_by(a + b, x + y, rest),
{
    if let Some(r) = rest {
        assert(a + (b + r.text) =~= (a + b) + r.text);
        assert(x + (y + r.images) =~= (x + y) + r.images);
    }
}

/// Scan a line for inline image sequences (sixel and kitty), replacing them with placeholder
/// spaces and extracting the image data.
pub fn scan_line_for_images(line: &str, cell_w: usize, cell_h: usize) -> (r: LineScanResult)
    requires
        scanned(line@, cell_w as int, cell_h as int) is Some,
    ensures
        scanned(line@, cell_w as int, cell_h as int) == Some(
            ScanModel { text: r.cleaned@, images: image_models(r.images@) },
        ),
{
    try_scan_line(line, cell_w, cell_h).unwrap()
}

} // verus!
