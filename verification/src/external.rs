//! Everything the library takes on trust: functions of the standard library and of other
//! crates, each with the contract that the rest of the code relies on.
use vstd::prelude::*;
use vstd::utf8::*;

verus! {

/// The text that lossy UTF-8 decoding makes of a byte string.
pub uninterp spec fn utf8_lossy(bytes: Seq<u8>) -> Seq<char>;

/// `String::from_utf8_lossy`: a function of the bytes alone, and plain UTF-8 decoding where the
/// bytes are valid UTF-8. Invalid sequences are replaced by U+FFFD, so no ASCII character comes
/// in that was not there; where the replacements stand is not spelled out.
#[verifier::external_body]
pub(crate) fn from_utf8_lossy(bytes: &[u8]) -> (r: String)
    ensures
        r@ == utf8_lossy(bytes@),
        valid_utf8(bytes@) ==> r@ == decode_utf8(bytes@),
        forall|b: u8| b < 0x80 && #[trigger] encode_utf8(r@).contains(b) ==> bytes@.contains(b),
{
    String::from_utf8_lossy(bytes).into_owned()
}

/// The bytes of the text that lossy decoding makes of `bytes`: `bytes` themselves where they are
/// valid UTF-8.
pub open spec fn lossy_bytes(bytes: Seq<u8>) -> Seq<u8> {
    if valid_utf8(bytes) {
        bytes
    } else {
        encode_utf8(utf8_lossy(bytes))
    }
}

/// `std::str::from_utf8`, of which only success counts: it succeeds exactly on valid UTF-8.
#[verifier::external_body]
pub(crate) fn is_utf8(bytes: &[u8]) -> (r: bool)
    ensures
        r == valid_utf8(bytes@),
{
    std::str::from_utf8(bytes).is_ok()
}

/// The bytes that a base64 text (standard alphabet, with padding) stands for; `None` for
/// anything that is not canonical base64.
pub uninterp spec fn base64_decoded(b64: Seq<u8>) -> Option<Seq<u8>>;

/// `base64::engine::general_purpose::STANDARD.decode`: a function of the text alone. The decoding
/// itself is not spelled out.
#[verifier::external_body]
pub(crate) fn base64_decode(b64: &[u8]) -> (r: Option<Vec<u8>>)
    ensures
        match r {
            Some(v) => base64_decoded(b64@) == Some(v@),
            None => base64_decoded(b64@) is None,
        },
{
    base64::Engine::decode(&base64::engine::general_purpose::STANDARD, b64).ok()
}

/// The base64 text (standard alphabet, with padding) of a byte string.
pub uninterp spec fn base64_encoded(bytes: Seq<u8>) -> Seq<u8>;

/// A character of padded base64: a letter, a digit, `+`, `/` or `=`.
pub open spec fn is_base64(b: u8) -> bool {
    ||| 0x41 <= b <= 0x5a
    ||| 0x61 <= b <= 0x7a
    ||| 0x30 <= b <= 0x39
    ||| b == 0x2b
    ||| b == 0x2f
    ||| b == 0x3d
}

/// `base64::engine::general_purpose::STANDARD.encode`: a function of the bytes alone, made of
/// base64 characters, four for every three bytes begun, from which decoding gets the bytes back.
/// It panics where no buffer can have that length, hence the bound.
#[verifier::external_body]
pub(crate) fn base64_encode(bytes: &[u8]) -> (r: Vec<u8>)
    requires
        (bytes@.len() + 2) / 3 * 4 <= isize::MAX,
    ensures
        r@ == base64_encoded(bytes@),
        r@.len() == (bytes@.len() + 2) / 3 * 4,
        forall|i: int| 0 <= i < r@.len() ==> is_base64(#[trigger] r@[i]),
        base64_decoded(r@) == Some(bytes@),
{
    base64::Engine::encode(&base64::engine::general_purpose::STANDARD, bytes).into_bytes()
}

/// What a zlib stream unpacks to; `None` where decompression fails.
pub uninterp spec fn zlib_unpacked(packed: Seq<u8>) -> Option<Seq<u8>>;

/// `flate2::read::ZlibDecoder`, read to its end: a function of the stream alone. The
/// decompression itself is not spelled out.
#[verifier::external_body]
pub(crate) fn zlib_unpack(packed: &[u8]) -> (r: Option<Vec<u8>>)
    ensures
        match r {
            Some(v) => zlib_unpacked(packed@) == Some(v@),
            None => zlib_unpacked(packed@) is None,
        },
{
    let mut out = Vec::new();
    std::io::Read::read_to_end(&mut flate2::read::ZlibDecoder::new(packed), &mut out).ok()?;
    Some(out)
}

/// The zlib stream that compressing a byte string at the fast level gives.
pub uninterp spec fn zlib_packed(bytes: Seq<u8>) -> Option<Seq<u8>>;

/// `flate2::write::ZlibEncoder` at `flate2::Compression::fast()`, finished: a function of the
/// bytes alone, from which decompression gets the bytes back.
#[verifier::external_body]
pub(crate) fn zlib_pack(bytes: &[u8]) -> (r: Option<Vec<u8>>)
    ensures
        match r {
            Some(v) => zlib_packed(bytes@) == Some(v@) && zlib_unpacked(v@) == Some(bytes@),
            None => zlib_packed(bytes@) is None,
        },
{
    let mut enc = flate2::write::ZlibEncoder::new(Vec::new(), flate2::Compression::fast());
    std::io::Write::write_all(&mut enc, bytes).ok()?;
    enc.finish().ok()
}

/// Samples per pixel of a PNG colour type, by its number in the file format: greyscale (0) and
/// indexed (3) have one, RGB (2) three, greyscale with alpha (4) two, RGBA (6) four.
pub open spec fn color_samples(color: u8) -> int {
    if color == 2 {
        3
    } else if color == 4 {
        2
    } else if color == 6 {
        4
    } else {
        1
    }
}

/// Bytes per pixel, with every sample taking at least one byte.
pub open spec fn pixel_bytes(color: u8, depth: u8) -> int {
    color_samples(color) * (if depth as int / 8 >= 1 {
        depth as int / 8
    } else {
        1
    })
}

/// Bytes per row of a PNG image, where samples of less than a byte are packed.
pub open spec fn row_bytes(width: int, color: u8, depth: u8) -> int {
    (width * color_samples(color) * depth + 7) / 8
}

/// What decoding a PNG file gives: the pixel bytes of its first frame, width, height, and the
/// numbers of its colour type and bit depth; `None` where decoding fails.
pub uninterp spec fn png_decoded(file: Seq<u8>) -> Option<(Seq<u8>, int, int, u8, u8)>;

/// `png::Decoder` with its default settings, first frame: a function of the file alone, with
/// dimensions of 32 bits, the colour types and bit depths that the format knows, and rows of at
/// most the 64 MiB that the decoder allows itself. A file whose
/// pixels no buffer could hold gives nothing. The decoding itself is not spelled out.
#[verifier::external_body]
pub(crate) fn png_decode(file: &[u8]) -> (r: Option<(Vec<u8>, usize, usize, u8, u8)>)
    ensures
        match r {
            Some((px, w, h, color, depth)) => {
                &&& png_decoded(file@) == Some((px@, w as int, h as int, color, depth))
                &&& w <= u32::MAX
                &&& h <= u32::MAX
                &&& color == 0 || color == 2 || color == 3 || color == 4 || color == 6
                &&& depth == 1 || depth == 2 || depth == 4 || depth == 8 || depth == 16
                &&& row_bytes(w as int, color, depth) <= 0x400_0000
            },
            None => png_decoded(file@) is None,
        },
{
    let mut reader = png::Decoder::new(file).read_info().ok()?;
    let size = isize::try_from(reader.output_buffer_size()).ok()?;
    let mut buf = vec![0u8; size as usize];
    let frame = reader.next_frame(&mut buf).ok()?;
    buf.truncate(frame.buffer_size());
    let (w, h) = (frame.width as usize, frame.height as usize);
    Some((buf, w, h, frame.color_type as u8, frame.bit_depth as u8))
}

/// The PNG file that encoding pixels at the fast level gives.
pub uninterp spec fn png_encoded(
    pixels: Seq<u8>,
    width: int,
    height: int,
    color: u8,
    depth: u8,
) -> Option<Seq<u8>>;

/// `png::Encoder` with `png::Compression::Fast`: a function of the pixels, the dimensions, the
/// colour type and the bit depth. Decoding gets all of them back, as long as a row takes no more
/// than the 64 MiB that the decoder allows itself. The encoder multiplies row length and height,
/// hence the bound.
#[verifier::external_body]
pub(crate) fn png_encode(pixels: &[u8], width: usize, height: usize, color: u8, depth: u8) -> (r:
    Option<Vec<u8>>)
    requires
        width <= u32::MAX,
        height <= u32::MAX,
        (width * pixel_bytes(color, depth) + 1) * height <= usize::MAX,
    ensures
        match r {
            Some(v) => {
                &&& png_encoded(pixels@, width as int, height as int, color, depth) == Some(v@)
                &&& row_bytes(width as int, color, depth) <= 0x400_0000 ==> png_decoded(v@) == Some(
                    (pixels@, width as int, height as int, color, depth),
                )
            },
            None => png_encoded(pixels@, width as int, height as int, color, depth) is None,
        },
{
    let mut buf = Vec::new();
    let mut enc = png::Encoder::new(&mut buf, width as u32, height as u32);
    enc.set_color(png::ColorType::from_u8(color)?);
    enc.set_depth(png::BitDepth::from_u8(depth)?);
    enc.set_compression(png::Compression::Fast);
    let mut writer = enc.write_header().ok()?;
    writer.write_image_data(pixels).ok()?;
    drop(writer);
    Some(buf)
}

/// How many columns a terminal gives a character; `None` for control characters.
pub uninterp spec fn unicode_width(c: char) -> Option<nat>;

/// `unicode_width::UnicodeWidthChar::width`: a function of the character alone. Control characters
/// have no width, printable ASCII characters are one column wide, and no character is wider than
/// three columns. The table for the rest is not spelled out.
#[verifier::external_body]
pub(crate) fn char_width(c: char) -> (r: Option<usize>)
    ensures
        match r {
            Some(w) => unicode_width(c) == Some(w as nat) && w <= 3,
            None => unicode_width(c) is None,
        },
        r is None == ((c as u32) < 0x20 || 0x7f <= (c as u32) < 0xa0),
        0x20 <= (c as u32) < 0x7f ==> r == Some(1usize),
{
    unicode_width::UnicodeWidthChar::width(c)
}

/// The lowercase form of a text.
pub uninterp spec fn lowercase(s: Seq<char>) -> Seq<char>;

/// The lowercase form of an ASCII character.
pub open spec fn ascii_lower(c: char) -> char {
    if 0x41 <= (c as u32) <= 0x5a {
        ((c as u32) + 0x20) as char
    } else {
        c
    }
}

/// The lowercase form of an ASCII text: that of each character.
pub open spec fn ascii_lowered(s: Seq<char>) -> Seq<char> {
    Seq::new(s.len(), |i: int| ascii_lower(s[i]))
}

/// The lowercase form of a text, spelled out where it is ASCII.
pub open spec fn lowered(s: Seq<char>) -> Seq<char> {
    if is_ascii_chars(s) {
        ascii_lowered(s)
    } else {
        lowercase(s)
    }
}

/// `str::to_lowercase`: a function of the text alone, which gives each character of an ASCII text
/// in its ASCII lowercase form. The case tables for the rest are not spelled out.
#[verifier::external_body]
pub(crate) fn to_lowercase(s: &str) -> (r: String)
    ensures
        r@ == lowercase(s@),
        is_ascii_chars(s@) ==> r@ == ascii_lowered(s@),
{
    s.to_lowercase()
}

/// `String::push` appends one character.
pub assume_specification[ String::push ](s: &mut String, c: char)
    ensures
        final(s)@ == old(s)@.push(c),
;

/// `String::pop` removes the last character and returns it; an empty string has none.
pub assume_specification[ String::pop ](s: &mut String) -> (r: Option<char>)
    ensures
        old(s)@.len() == 0 ==> r is None && final(s)@ == old(s)@,
        old(s)@.len() > 0 ==> r == Some(old(s)@.last()) && final(s)@ == old(s)@.drop_last(),
;

/// `String::clear` removes all characters.
pub assume_specification[ String::clear ](s: &mut String)
    ensures
        final(s)@ == Seq::<char>::empty(),
;

} // verus!
