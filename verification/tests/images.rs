use lessi::document::{
    can_process, has_incomplete_sequence, merge_image_lines, process_input, split_lines,
    try_process_input, visible_images,
};
use lessi::image::{ImageProtocol, InlineImage};
use lessi::kitty::{
    build_kitty_sequence, find_kitty_end, kitty_chunk_has_more, parse_kitty_chunks,
    parse_kitty_control, parse_kitty_dimensions, read_kitty_png_dimensions, rebuild_kitty_control,
};
use lessi::kitty_clip::{clip_kitty, clip_kitty_fits, decode_kitty, try_clip_kitty};
use lessi::scan::{scan_line_for_images, try_scan_line};
use lessi::sixel::{
    adjust_sixel_raster_height, analyze_sixel, clip_sixel, find_sixel_end, find_st_position,
    try_analyze_sixel,
};

const CELL_W: usize = 8;
const CELL_H: usize = 16;

/// A sixel image of `rows` sixel rows, 80 pixels wide, with two colours.
fn sixel_sequence(rows: usize) -> String {
    let mut s = format!("\x1bPq\"1;1;80;{}#0;2;100;0;0#1;2;0;100;0", rows * 6);
    for row in 0..rows {
        if row > 0 {
            s.push('-');
        }
        s.push_str(&format!("#{}!40~!40?$#{}!40?!40~", row % 2, (row + 1) % 2));
    }
    s.push_str("\x1b\\");
    s
}

/// The image of a document that holds 128 sixel rows, which are 48 terminal rows.
fn sixel_image() -> InlineImage {
    let (_, images) = process_input(&sixel_sequence(128), CELL_W, CELL_H);
    images[0].clone()
}

fn rgba(width: usize, height: usize) -> Vec<u8> {
    let mut px = Vec::new();
    for y in 0..height {
        for x in 0..width {
            px.push((x * 7 + y * 13) as u8);
            px.push((x * 3 + y * 5 + x * y) as u8);
            px.push((x ^ y) as u8);
            px.push(255);
        }
    }
    px
}

fn base64_of(bytes: &[u8]) -> Vec<u8> {
    base64::Engine::encode(&base64::engine::general_purpose::STANDARD, bytes).into_bytes()
}

fn png_of(pixels: &[u8], width: usize, height: usize) -> Vec<u8> {
    let mut buf = Vec::new();
    let mut enc = png::Encoder::new(&mut buf, width as u32, height as u32);
    enc.set_color(png::ColorType::Rgba);
    enc.set_depth(png::BitDepth::Eight);
    let mut writer = enc.write_header().unwrap();
    writer.write_image_data(pixels).unwrap();
    drop(writer);
    buf
}

fn kitty_png_sequence(width: usize, height: usize) -> String {
    let file = png_of(&rgba(width, height), width, height);
    let seq = build_kitty_sequence(b"a=T,f=100,q=2", &base64_of(&file));
    String::from_utf8(seq).unwrap()
}

/// The image of a document that holds a PNG of 160 by 256 pixels, which are 16 terminal rows.
fn kitty_image() -> InlineImage {
    let (_, images) = process_input(&kitty_png_sequence(160, 256), CELL_W, CELL_H);
    images[0].clone()
}

fn raw_image(control: &[u8], payload: &[u8], height_rows: usize) -> InlineImage {
    InlineImage {
        line_idx: 0,
        col: 0,
        height_rows,
        width_cols: 1,
        data: build_kitty_sequence(control, &base64_of(payload)),
        protocol: ImageProtocol::Kitty,
        sixel_row_count: 0,
        sixel_data_start: 0,
        sixel_row_offsets: vec![],
        sixel_color_defs: vec![],
    }
}

fn strings(v: &[&str]) -> Vec<String> {
    v.iter().map(|s| s.to_string()).collect()
}

// --- sixel -----------------------------------------------------------------

#[test]
fn sixel_image_processing() {
    let (lines, images) = process_input(&sixel_sequence(128), CELL_W, CELL_H);
    assert_eq!(lines.len(), 48);
    assert_eq!(lines[0], " ".repeat(10));
    assert!(lines[1..].iter().all(|l| l.is_empty()));
    assert_eq!(images.len(), 1);
    let img = &images[0];
    assert_eq!(img.line_idx, 0);
    assert_eq!(img.col, 0);
    assert_eq!(img.height_rows, 48);
    assert_eq!(img.width_cols, 10);
    assert_eq!(img.protocol, ImageProtocol::Sixel);
    assert_eq!(img.sixel_row_count, 128);
    assert_eq!(
        img.sixel_data_start,
        "\x1bPq\"1;1;80;768#0;2;100;0;0#1;2;0;100;0".len()
    );
    assert_eq!(img.sixel_row_offsets.len(), 127);
    assert_eq!(img.sixel_color_defs.len(), 2);
    assert_eq!(img.sixel_color_defs[1], b"#1;2;0;100;0".to_vec());
    assert_eq!(img.data.len(), sixel_sequence(128).len());
}

#[test]
fn sixel_no_clip_needed() {
    let img = sixel_image();
    let clipped = clip_sixel(&img, 0, img.height_rows + 10, CELL_H).expect("nothing to clip");
    assert_eq!(clipped.len(), img.data.len());
    assert_eq!(clipped, img.data);
}

#[test]
fn sixel_clip_top_half_scrolled_off() {
    let img = sixel_image();
    let skip_top = img.height_rows / 2;
    let clipped = clip_sixel(&img, skip_top, img.height_rows, CELL_H).expect("partly visible");
    let info = analyze_sixel(&clipped, CELL_W, CELL_H);
    assert_eq!(info.sixel_row_count, 64);
    assert_eq!(info.height_rows, 24);
    assert!(clipped.starts_with(b"\x1bPq\"1;1;80;384#0;2;100;0;0#1;2;0;100;0"));
    assert!(clipped.ends_with(b"\x1b\\"));
}

#[test]
fn sixel_clip_bottom_cropped() {
    let img = sixel_image();
    let clipped = clip_sixel(&img, 0, img.height_rows / 2, CELL_H).expect("partly visible");
    let info = analyze_sixel(&clipped, CELL_W, CELL_H);
    assert_eq!(info.sixel_row_count, 64);
    // Behind the palette come the definitions that the first row starts with.
    let mut start = b"\x1bPq\"1;1;80;384#0;2;100;0;0#1;2;0;100;0".to_vec();
    start.extend_from_slice(b"#0;2;100;0;0#1;2;0;100;0#0!40~");
    assert!(clipped.starts_with(&start));
    assert_eq!(info.sixel_color_defs.len(), 4);
}

#[test]
fn sixel_first_row_keeps_its_colours() {
    // The first row is drawn in register 0, also where register 1 is defined below it.
    let (_, images) = process_input("\x1bPq#0;2;0;0;0A-#1;2;9;9;9B\x1b\\", 8, 6);
    let img = &images[0];
    assert_eq!((img.sixel_data_start, img.height_rows), (13, 2));
    assert_eq!(
        clip_sixel(img, 0, 1, 6).unwrap(),
        b"\x1bPq#0;2;0;0;0#1;2;9;9;9#0;2;0;0;0A\x1b\\".to_vec()
    );
    assert_eq!(
        clip_sixel(img, 1, 1, 6).unwrap(),
        b"\x1bPq#0;2;0;0;0#1;2;9;9;9#1;2;9;9;9B\x1b\\".to_vec()
    );
    // A register that is defined again below keeps its first colour in the first row.
    let (_, images) = process_input("\x1bPq#0;2;0;0;0A-#0;2;9;9;9B\x1b\\", 8, 6);
    assert_eq!(
        clip_sixel(&images[0], 0, 1, 6).unwrap(),
        b"\x1bPq#0;2;0;0;0#0;2;9;9;9#0;2;0;0;0A\x1b\\".to_vec()
    );
}

#[test]
fn sixel_clip_middle_visible() {
    let img = sixel_image();
    let clipped =
        clip_sixel(&img, img.height_rows / 4, img.height_rows / 2, CELL_H).expect("partly visible");
    assert_eq!(analyze_sixel(&clipped, CELL_W, CELL_H).sixel_row_count, 64);
}

#[test]
fn sixel_clip_single_row_visible() {
    let img = sixel_image();
    let clipped = clip_sixel(&img, img.height_rows - 1, 1, CELL_H).expect("one row is visible");
    assert_eq!(analyze_sixel(&clipped, CELL_W, CELL_H).sixel_row_count, 2);
}

#[test]
fn sixel_clip_first_row_entering_viewport() {
    let img = sixel_image();
    let clipped = clip_sixel(&img, 0, 1, CELL_H).expect("one row is visible");
    let info = analyze_sixel(&clipped, CELL_W, CELL_H);
    assert!(info.sixel_row_count * 6 <= CELL_H);
    assert_eq!(info.sixel_row_count, 2);
}

#[test]
fn sixel_clip_entering_viewport_5_rows() {
    let img = sixel_image();
    let available = 5;
    let clipped = clip_sixel(&img, 0, available, CELL_H).expect("five rows are visible");
    let info = analyze_sixel(&clipped, CELL_W, CELL_H);
    assert!(info.sixel_row_count * 6 <= available * CELL_H);
    assert_eq!(info.sixel_row_count, 13);
}

#[test]
fn sixel_clip_last_row_leaving_viewport() {
    let img = sixel_image();
    let clipped =
        clip_sixel(&img, img.height_rows - 1, img.height_rows, CELL_H).expect("one row is visible");
    assert!(analyze_sixel(&clipped, CELL_W, CELL_H).sixel_row_count * 6 <= CELL_H);
}

#[test]
fn sixel_fully_scrolled_past() {
    let img = sixel_image();
    assert!(clip_sixel(&img, img.height_rows, 10, CELL_H).is_none());
    assert!(clip_sixel(&img, img.height_rows + 100, 10, CELL_H).is_none());
}

#[test]
fn sixel_clip_zero_keep_rows() {
    let img = sixel_image();
    assert!(clip_sixel(&img, 0, 0, CELL_H).is_none());
}

#[test]
fn visible_images_at_various_offsets() {
    let input = sixel_sequence(128);
    let (lines, images) = process_input(&input, CELL_W, CELL_H);
    let img = &images[0];
    let viewport_height = 24;
    assert_eq!(lines.len(), 48);
    let offsets = [
        (0, 1),
        (img.height_rows / 4, 1),
        (img.height_rows / 2, 1),
        (img.height_rows.saturating_sub(1), 1),
        (img.height_rows, 0),
        (img.height_rows + 1, 0),
        (lines.len().saturating_sub(viewport_height), 1),
    ];
    for (offset, count) in offsets {
        assert_eq!(visible_images(&images, offset, viewport_height).len(), count);
    }
}

#[test]
fn demo_file_image_entering_viewport() {
    let mut text = String::new();
    for i in 0..80 {
        text.push_str(&format!("line {i} of the text\n"));
    }
    let input = format!("{}\n{}", text, sixel_sequence(128));
    for cell_h in [16, 20, 24, 28, 32] {
        let cell_w = 8usize;
        let (_lines, images) = process_input(&input, cell_w, cell_h);
        assert_eq!(images.len(), 1);
        let img = &images[0];
        let viewport_height = 44usize;
        let scroll_offset = img.line_idx.saturating_sub(viewport_height - 1);
        let vis = visible_images(&images, scroll_offset, viewport_height);
        assert_eq!(vis.len(), 1);
        let skip_top = scroll_offset.saturating_sub(img.line_idx);
        let viewport_row = img.line_idx.saturating_sub(scroll_offset);
        let available = viewport_height.saturating_sub(viewport_row);
        assert_eq!(skip_top, 0);
        assert_eq!(viewport_row, viewport_height - 1);
        assert_eq!(available, 1);
        assert!(skip_top > 0 || img.height_rows > available);
        let clipped = clip_sixel(img, skip_top, available, cell_h).expect("one row is visible");
        let info = analyze_sixel(&clipped, cell_w, cell_h);
        assert!(info.sixel_row_count * 6 <= cell_h);
        assert!(clipped.len() < img.data.len() / 2);
    }
}

#[test]
fn sixel_without_raster_attributes() {
    let data = b"\x1bPq!12~$!5~-~~\x1b\\";
    let info = analyze_sixel(data, CELL_W, CELL_H);
    assert_eq!(info.sixel_row_count, 2);
    assert_eq!(info.width_cols, 2);
    assert_eq!(info.height_rows, 1);
    assert_eq!(info.sixel_data_start, 3);
    assert_eq!(info.sixel_row_offsets, vec![11]);
    assert!(info.sixel_color_defs.is_empty());
}

#[test]
fn sixel_data_starts_behind_colour_definitions() {
    let info = analyze_sixel(b"\x1bPq#0;2;0;0;0~\x1b\\", CELL_W, CELL_H);
    assert_eq!(info.sixel_data_start, 13);
    assert_eq!(info.sixel_color_defs, vec![b"#0;2;0;0;0".to_vec()]);
    // Selecting a colour is no definition.
    let info = analyze_sixel(b"\x1bPq\"1;1;8;6#0;2;0;0;0#1;2;9;9;9#0~\x1b\\", CELL_W, CELL_H);
    assert_eq!(info.sixel_data_start, "\x1bPq\"1;1;8;6#0;2;0;0;0#1;2;9;9;9".len());
    assert_eq!(analyze_sixel(b"\x1bPq#0~\x1b\\", CELL_W, CELL_H).sixel_data_start, 3);
}

#[test]
fn sixel_with_an_escape_inside() {
    // What stands behind an inner escape is no picture, so clipping does not count its rows.
    let input = "\x1bPq\"1;1;8;48#0;2;0;0;0~-~-~-~-~-~\x1bX-----\x1b\\";
    let (_, images) = process_input(input, CELL_W, CELL_H);
    assert_eq!(images[0].sixel_row_count, 6);
    assert_eq!(images[0].height_rows, 3);
    for (skip, keep) in [(1, 1), (0, 1), (1, 2), (2, 1)] {
        let clipped = clip_sixel(&images[0], skip, keep, CELL_H).unwrap();
        assert!(analyze_sixel(&clipped, CELL_W, CELL_H).sixel_row_count * 6 <= keep * CELL_H);
    }
}

#[test]
fn sixel_repeat_count_too_large() {
    let data = b"\x1bPq!99999999999999999999999999~\x1b\\";
    assert!(try_analyze_sixel(data, CELL_W, CELL_H).is_none());
}

#[test]
fn sixel_sequence_ends() {
    assert_eq!(find_sixel_end(b"xx\x1bPq~\x1b\\yy", 2).map(|r| r.0), Some(8));
    assert_eq!(find_sixel_end(b"\x1bPq~\x9cyy", 0).map(|r| r.0), Some(5));
    assert!(find_sixel_end(b"\x1bPq~", 0).is_none());
    assert_eq!(find_st_position(b"\x1bPq~\x1b\\"), Some(4));
    assert_eq!(find_st_position(b"\x1bPq~\x9c"), Some(4));
    assert_eq!(find_st_position(b"\x1bPq~\x1b\\xx"), Some(4));
    assert_eq!(find_st_position(b"\x1bPq~"), None);
}

#[test]
fn sixel_raster_height_is_adjusted() {
    let h = adjust_sixel_raster_height(b"\x1bPq\"1;1;80;768", 32);
    assert_eq!(h, b"\x1bPq\"1;1;80;32".to_vec());
    assert_eq!(adjust_sixel_raster_height(b"\x1bPq", 32), b"\x1bPq".to_vec());
    assert_eq!(adjust_sixel_raster_height(b"\x1bPq\"1;1", 32), b"\x1bPq\"1;1".to_vec());
    // The last height wins.
    assert_eq!(adjust_sixel_raster_height(&h, 7), b"\x1bPq\"1;1;80;7".to_vec());
    // Bytes that are no text are replaced.
    assert_eq!(
        adjust_sixel_raster_height(b"\x1bP\xffq\"1;1;8;9", 6),
        "\x1bP\u{fffd}q\"1;1;8;6".as_bytes().to_vec()
    );
}

// --- kitty -----------------------------------------------------------------

#[test]
fn kitty_image_processing() {
    let (lines, images) = process_input(&kitty_png_sequence(160, 256), CELL_W, CELL_H);
    assert_eq!(lines.len(), 16);
    assert_eq!(lines[0], " ".repeat(20));
    assert_eq!(images.len(), 1);
    let img = &images[0];
    assert_eq!(img.line_idx, 0);
    assert_eq!(img.col, 0);
    assert_eq!(img.height_rows, 16);
    assert_eq!(img.width_cols, 20);
    assert_eq!(img.protocol, ImageProtocol::Kitty);
    assert_eq!(img.sixel_row_count, 0);
    assert_eq!(img.sixel_data_start, 0);
    assert!(img.sixel_row_offsets.is_empty());
    assert!(img.sixel_color_defs.is_empty());
}

#[test]
fn kitty_no_clip_needed() {
    let img = kitty_image();
    let clipped = clip_kitty(&img, 0, img.height_rows + 10, CELL_H).expect("nothing to clip");
    assert_eq!(clipped.len(), img.data.len());
    assert_eq!(clipped, img.data);
}

#[test]
fn kitty_clip_top_half_scrolled_off() {
    let img = kitty_image();
    let skip_top = img.height_rows / 2;
    let clipped = clip_kitty(&img, skip_top, img.height_rows, CELL_H).expect("partly visible");
    let (_, p) = decode_kitty(&clipped).unwrap();
    let max_h = (img.height_rows - skip_top) * CELL_H;
    assert!(p.height > 0 && p.height <= max_h);
    assert_eq!(p.height, 128);
    assert_eq!(p.width, 160);
}

#[test]
fn kitty_clip_bottom_cropped() {
    let img = kitty_image();
    let clipped = clip_kitty(&img, 0, img.height_rows / 2, CELL_H).expect("partly visible");
    let (_, p) = decode_kitty(&clipped).unwrap();
    assert_eq!(p.height, 128);
    assert_eq!(p.pixels, rgba(160, 256)[..160 * 4 * 128].to_vec());
}

#[test]
fn kitty_clip_middle_visible() {
    let img = kitty_image();
    let clipped =
        clip_kitty(&img, img.height_rows / 4, img.height_rows / 2, CELL_H).expect("partly visible");
    let (_, p) = decode_kitty(&clipped).unwrap();
    assert_eq!(p.pixels, rgba(160, 256)[160 * 4 * 64..160 * 4 * 192].to_vec());
}

#[test]
fn kitty_clip_single_row_visible() {
    let img = kitty_image();
    let clipped = clip_kitty(&img, img.height_rows - 1, 1, CELL_H).expect("one row is visible");
    assert_eq!(decode_kitty(&clipped).unwrap().1.height, 16);
}

#[test]
fn kitty_clip_first_row_entering_viewport() {
    let img = kitty_image();
    let clipped = clip_kitty(&img, 0, 1, CELL_H).expect("one row is visible");
    assert!(decode_kitty(&clipped).unwrap().1.height <= CELL_H);
}

#[test]
fn kitty_clip_entering_viewport_5_rows() {
    let img = kitty_image();
    let clipped = clip_kitty(&img, 0, 5, CELL_H).expect("five rows are visible");
    assert!(decode_kitty(&clipped).unwrap().1.height <= 5 * CELL_H);
}

#[test]
fn kitty_clip_last_row_leaving_viewport() {
    let img = kitty_image();
    let clipped =
        clip_kitty(&img, img.height_rows - 1, img.height_rows, CELL_H).expect("one row is visible");
    assert!(decode_kitty(&clipped).unwrap().1.height <= CELL_H);
}

#[test]
fn kitty_fully_scrolled_past() {
    let img = kitty_image();
    assert!(clip_kitty(&img, img.height_rows, 10, CELL_H).is_none());
    assert!(clip_kitty(&img, img.height_rows + 100, 10, CELL_H).is_none());
}

#[test]
fn kitty_clip_zero_keep_rows() {
    let img = kitty_image();
    assert!(clip_kitty(&img, 0, 0, CELL_H).is_none());
}

#[test]
fn kitty_clip_reduces_size() {
    let img = kitty_image();
    let clipped = clip_kitty(&img, 0, 1, CELL_H).expect("one row is visible");
    assert!(clipped.len() < img.data.len() / 2);
}

#[test]
fn kitty_clip_preserves_pixel_content() {
    let img = kitty_image();
    let (_, orig) = decode_kitty(&img.data).unwrap();
    let skip = 5;
    let keep = 5;
    let clipped = clip_kitty(&img, skip, keep, CELL_H).expect("partly visible");
    let (_, clip) = decode_kitty(&clipped).unwrap();
    assert_eq!(clip.width, orig.width);
    let bpp = orig.pixels.len() / (orig.width * orig.height);
    let stride = orig.width * bpp;
    let skip_pixels = skip * CELL_H;
    let orig_slice = &orig.pixels[skip_pixels * stride..(skip_pixels + clip.height) * stride];
    assert_eq!(clip.pixels, orig_slice.to_vec());
}

#[test]
fn kitty_raw_pixels_are_clipped() {
    let px = rgba(10, 40);
    let img = raw_image(b"a=T,f=32,s=10,v=40,i=7", &px, 3);
    let clipped = clip_kitty(&img, 1, 1, CELL_H).expect("one row is visible");
    let (ctrl, p) = decode_kitty(&clipped).unwrap();
    assert_eq!((p.width, p.height), (10, 16));
    assert_eq!(p.pixels, px[10 * 4 * 16..10 * 4 * 32].to_vec());
    assert!(!ctrl.compressed);
    assert!(clipped.starts_with(b"\x1b_Ga=T,i=7,f=32,s=10,v=16;"));
}

#[test]
fn kitty_compressed_pixels_are_clipped() {
    let px = rgba(10, 40);
    let mut enc = flate2::write::ZlibEncoder::new(Vec::new(), flate2::Compression::best());
    std::io::Write::write_all(&mut enc, &px).unwrap();
    let packed = enc.finish().unwrap();
    let img = raw_image(b"a=T,f=32,s=10,v=40,o=z", &packed, 3);
    let clipped = clip_kitty(&img, 0, 2, CELL_H).expect("two rows are visible");
    assert!(clipped.starts_with(b"\x1b_Ga=T,f=32,s=10,v=32,o=z;"));
    let (ctrl, p) = decode_kitty(&clipped).unwrap();
    assert!(ctrl.compressed);
    assert_eq!(p.pixels, px[..10 * 4 * 32].to_vec());
}

#[test]
fn kitty_clip_needs_decodable_pixels() {
    let px = rgba(10, 40);
    // Too few pixels for the declared size.
    assert!(clip_kitty(&raw_image(b"f=32,s=10,v=400", &px, 25), 20, 5, CELL_H).is_none());
    // No size at all.
    assert!(clip_kitty(&raw_image(b"f=32", &px, 3), 1, 1, CELL_H).is_none());
    // Not compressed although it says so, no PNG although it says so.
    assert!(clip_kitty(&raw_image(b"f=32,s=10,v=40,o=z", &px, 3), 1, 1, CELL_H).is_none());
    assert!(clip_kitty(&raw_image(b"f=100", &px, 3), 1, 1, CELL_H).is_none());
    // No base64.
    let mut bad = raw_image(b"f=32,s=10,v=40", &px, 3);
    bad.data = b"\x1b_Gf=32,s=10,v=40;???\x1b\\".to_vec();
    assert!(clip_kitty(&bad, 1, 1, CELL_H).is_none());
    // No chunk.
    bad.data = b"xyz".to_vec();
    assert!(clip_kitty(&bad, 1, 1, CELL_H).is_none());
}

#[test]
fn kitty_clip_too_large() {
    let px = rgba(10, 40);
    let img = raw_image(b"f=32,s=18446744073709551615,v=40", &px, 3);
    assert!(!clip_kitty_fits(&img, 1, 1, CELL_H));
    assert!(try_clip_kitty(&img, 1, 1, CELL_H).is_none());
    let small = raw_image(b"f=32,s=10,v=40", &px, 3);
    assert!(clip_kitty_fits(&small, 1, 1, CELL_H));
    assert_eq!(try_clip_kitty(&small, 1, 1, CELL_H), Some(clip_kitty(&small, 1, 1, CELL_H)));
}

#[test]
fn kitty_sequences_in_chunks() {
    let payload = vec![b'A'; 4096 * 2 + 10];
    let seq = build_kitty_sequence(b"a=T,f=100", &payload);
    let chunks = parse_kitty_chunks(&seq);
    assert_eq!(chunks.len(), 3);
    assert_eq!(chunks[0].control, b"a=T,f=100,m=1".to_vec());
    assert_eq!(chunks[1].control, b"m=1".to_vec());
    assert_eq!(chunks[2].control, b"m=0".to_vec());
    assert_eq!(chunks[0].payload.len(), 4096);
    assert_eq!(chunks[2].payload.len(), 10);
    assert_eq!(find_kitty_end(&seq, 0).map(|r| r.0), Some(seq.len()));
    let single = build_kitty_sequence(b"a=T", b"AAAA");
    assert_eq!(single, b"\x1b_Ga=T;AAAA\x1b\\".to_vec());
    // A run of chunks that breaks off ends with its first chunk.
    let cut = &seq[..seq.len() - 5];
    assert_eq!(find_kitty_end(cut, 0).map(|r| r.0), Some(3 + 13 + 1 + 4096 + 2));
    assert!(find_kitty_end(b"\x1b_Ga=T;AAAA", 0).is_none());
    assert!(kitty_chunk_has_more(b"\x1b_Ga=T,m=1;AA\x1b\\"));
    assert!(!kitty_chunk_has_more(b"\x1b_Ga=T,m=0;m=1\x1b\\"));
}

#[test]
fn kitty_control_strings() {
    let c = parse_kitty_control(b"a=T,f=24,s=3,v=x,o=z,r=5,m=1,i=9,junk,f=32");
    assert_eq!(c.format, 32);
    assert_eq!(c.pixel_w, 3);
    assert_eq!(c.pixel_h, 0);
    assert!(c.compressed);
    assert_eq!(c.other_params, vec![b"a=T".to_vec(), b"i=9".to_vec()]);
    assert_eq!(
        rebuild_kitty_control(&c, 100, 8, 16, false),
        b"a=T,i=9,f=100,s=8,v=16".to_vec()
    );
    // Text that is no UTF-8 is replaced.
    let chunks = parse_kitty_chunks(b"\x1b_Ga=\xff;AA\x1b\\");
    assert_eq!(chunks[0].control, "a=\u{fffd}".as_bytes().to_vec());
}

#[test]
fn kitty_dimensions() {
    assert_eq!(parse_kitty_dimensions(b"\x1b_Gc=5,r=3;\x1b\\", 8, 16), Some((5, 3)));
    assert_eq!(parse_kitty_dimensions(b"\x1b_Gs=17,v=33;\x1b\\", 8, 16), Some((3, 3)));
    assert_eq!(parse_kitty_dimensions(b"\x1b_Gc=5,s=17,v=33;\x1b\\", 8, 16), Some((5, 3)));
    assert_eq!(parse_kitty_dimensions(b"\x1b_Ga=d\x1b\\", 8, 16), Some((1, 1)));
    assert_eq!(parse_kitty_dimensions(b"\x1b_X", 8, 16), Some((1, 1)));
    assert_eq!(parse_kitty_dimensions(b"\x1b_Gc=5,r=3;\x1b\\", 0, 0), Some((5, 3)));
    assert_eq!(parse_kitty_dimensions(b"\x1b_Gs=17;\x1b\\", 8, 0), Some((3, 1)));
    assert_eq!(parse_kitty_dimensions(b"\x1b_Gs=17;\x1b\\", 0, 16), None);
    assert_eq!(parse_kitty_dimensions(b"\x1b_Gv=17;\x1b\\", 8, 0), None);
    let png = kitty_png_sequence(20, 40);
    assert_eq!(parse_kitty_dimensions(png.as_bytes(), 8, 16), Some((3, 3)));
    assert_eq!(read_kitty_png_dimensions(png.as_bytes()), Some((20, 40)));
    assert_eq!(read_kitty_png_dimensions(b"\x1b_Gf=100;AAAA\x1b\\"), None);
}

// --- lines and documents ---------------------------------------------------

#[test]
fn lines_are_split_like_text_files() {
    assert_eq!(split_lines("a\nb\r\nc\r"), strings(&["a", "b", "c\r"]));
    assert_eq!(split_lines("a\n\n"), strings(&["a", ""]));
    assert_eq!(split_lines(""), strings(&[]));
    assert_eq!(split_lines("\n"), strings(&[""]));
}

#[test]
fn image_lines_are_merged() {
    assert_eq!(
        merge_image_lines("x\n\x1bPq~\n~\x1b\\y\nz"),
        strings(&["x", "\x1bPq~~\x1b\\y", "z"])
    );
    assert!(has_incomplete_sequence("\x1bPq~"));
    assert!(has_incomplete_sequence("\x1b_Ga=T;AA"));
    assert!(!has_incomplete_sequence("\x1bPq~\x1b\\"));
    assert_eq!(merge_image_lines("\x1bPq~\nabc"), strings(&["\x1bPq~abc"]));
}

#[test]
fn plain_text_is_unchanged() {
    let (lines, images) = process_input("héllo\nwörld 漢字\n\nend", CELL_W, CELL_H);
    assert_eq!(lines, strings(&["héllo", "wörld 漢字", "", "end"]));
    assert!(images.is_empty());
}

#[test]
fn escape_sequences_take_no_columns() {
    let line = "\x1b[31mab\x1b[0m\x1b]8;;http://x\x07\x1b7漢\x1b_Gc=2,r=1;\x1b\\z";
    let r = scan_line_for_images(line, CELL_W, CELL_H);
    assert_eq!(r.cleaned, "\x1b[31mab\x1b[0m\x1b]8;;http://x\x07\x1b7漢  z");
    assert_eq!(r.images.len(), 1);
    assert_eq!(r.images[0].col, 4);
    assert_eq!(r.images[0].width_cols, 2);
}

#[test]
fn sequences_that_are_no_image_are_copied() {
    for line in [
        "\x1b]8;;\u{e9}\x07",
        "\x1b]0;é\x1b\\x",
        "\x1b]0;unfinished 漢字",
        "\x1b[3é1mx\x1b[",
        "\x1bé\x1b😀z",
        "a\x1b[31mb\x1b7c\x1b",
        "\x1bPunfinished",
    ] {
        let r = scan_line_for_images(line, CELL_W, CELL_H);
        assert_eq!(r.cleaned, line);
        assert!(r.images.is_empty());
    }
    let (lines, _) = process_input("\x1b]8;;http://é.example\x07x", CELL_W, CELL_H);
    assert_eq!(lines, strings(&["\x1b]8;;http://é.example\x07x"]));
    let r = scan_line_for_images("a\x1b", CELL_W, CELL_H);
    assert_eq!(r.cleaned, "a\x1b");
}

#[test]
fn lines_that_cannot_be_scanned() {
    // The second byte of U+1701 ends the image, in the middle of the character.
    assert!(try_scan_line("\x1bPq~\u{1701}", CELL_W, CELL_H).is_none());
    assert!(!can_process("\x1bPq~\u{1701}", CELL_W, CELL_H));
    assert!(try_process_input("ok\n\x1bPq~\u{1701}", CELL_W, CELL_H).is_none());
    assert!(try_process_input("ok", CELL_W, CELL_H).is_some());
}

#[test]
fn built_sequences_have_chunks_of_limited_size() {
    for (len, count) in [(0usize, 1usize), (1, 1), (4096, 1), (4097, 2), (8192, 2), (8193, 3)] {
        let payload = vec![b'A'; len];
        let chunks = parse_kitty_chunks(&build_kitty_sequence(b"a=T", &payload));
        assert_eq!(chunks.len(), count);
        assert!(chunks.iter().all(|c| c.payload.len() <= 4096));
        let joined: Vec<u8> = chunks.iter().flat_map(|c| c.payload.clone()).collect();
        assert_eq!(joined, payload);
        let first: &[u8] = if count == 1 { b"a=T" } else { b"a=T,m=1" };
        assert_eq!(chunks[0].control, first.to_vec());
    }
}

#[test]
fn images_on_one_line_stand_side_by_side() {
    let input = "ab\x1b_Gc=3,r=1;\x1b\\\x1b[1mx\x1bPq!20~\x1b\\\x1b_Gc=1,r=2;\x1b\\";
    let (_, images) = process_input(input, CELL_W, CELL_H);
    let places: Vec<(usize, usize, usize)> =
        images.iter().map(|i| (i.line_idx, i.col, i.width_cols)).collect();
    assert_eq!(places, vec![(0, 2, 3), (0, 6, 3), (0, 9, 1)]);
}

#[test]
fn images_have_room_and_come_in_order() {
    let input = "a\n\x1b_Gc=2,r=3;\x1b\\b\x1b_Gc=1,r=2;\x1b\\\nc\n\x1b_Gc=1,r=1;\x1b\\";
    let (lines, images) = process_input(input, CELL_W, CELL_H);
    assert_eq!(lines, strings(&["a", "  b ", "", "", "c", " "]));
    let places: Vec<(usize, usize, usize)> =
        images.iter().map(|i| (i.line_idx, i.col, i.height_rows)).collect();
    assert_eq!(places, vec![(1, 0, 3), (1, 3, 2), (5, 0, 1)]);
}

fn ansi_fixture() -> String {
    let mut s = String::new();
    for y in 0..40 {
        for x in 0..20 {
            s.push_str(&format!("\x1b[48;2;{};{};0m ", x * 10, y * 6));
        }
        s.push_str("\x1b[0m\n");
    }
    s
}

fn viewport_slice(lines: &[String], scroll_offset: usize, viewport_height: usize) -> Vec<u8> {
    let end = (scroll_offset + viewport_height).min(lines.len());
    lines[scroll_offset..end].join("\n").into_bytes()
}

#[test]
fn ansi_processing() {
    let input = ansi_fixture();
    let (lines, images) = process_input(&input, CELL_W, CELL_H);
    assert_eq!(lines.len(), 40);
    assert_eq!(images.len(), 0);
    let expected: Vec<&str> = input.lines().collect();
    assert_eq!(lines.first().map_or(0, |l| l.len()), expected[0].len());
    assert_eq!(lines.last().map_or(0, |l| l.len()), expected[39].len());
}

#[test]
fn ansi_clip_top_half_scrolled_off() {
    let input = ansi_fixture();
    let (lines, _) = process_input(&input, CELL_W, CELL_H);
    let mid = lines.len() / 2;
    let expected: Vec<&str> = input.lines().skip(mid).collect();
    assert_eq!(viewport_slice(&lines, mid, lines.len()), expected.join("\n").into_bytes());
}

#[test]
fn ansi_clip_bottom_cropped() {
    let input = ansi_fixture();
    let (lines, _) = process_input(&input, CELL_W, CELL_H);
    let mid = lines.len() / 2;
    let expected: Vec<&str> = input.lines().take(mid).collect();
    assert_eq!(viewport_slice(&lines, 0, mid), expected.join("\n").into_bytes());
}

#[test]
fn ansi_clip_middle_visible() {
    let input = ansi_fixture();
    let (lines, _) = process_input(&input, CELL_W, CELL_H);
    let quarter = lines.len() / 4;
    let expected: Vec<&str> = input.lines().skip(quarter).take(lines.len() / 2).collect();
    assert_eq!(
        viewport_slice(&lines, quarter, lines.len() / 2),
        expected.join("\n").into_bytes()
    );
}

#[test]
fn ansi_clip_single_row_visible() {
    let input = ansi_fixture();
    let (lines, _) = process_input(&input, CELL_W, CELL_H);
    let expected: Vec<&str> = input.lines().skip(lines.len() - 1).collect();
    assert_eq!(viewport_slice(&lines, lines.len() - 1, 1), expected.join("\n").into_bytes());
}

#[test]
fn cells_without_a_size() {
    // Without images the size of a cell does not matter.
    let (lines, images) = try_process_input("a\nb", 0, 0).unwrap();
    assert_eq!(lines, vec!["a", "b"]);
    assert!(images.is_empty());
    assert!(try_process_input("\x1bPq~\x1b\\", 0, 16).is_none());
    assert!(try_process_input("\x1bPq~\x1b\\", 8, 0).is_none());
    assert!(try_process_input("\x1bPq~\x1b\\", 8, 16).is_some());
    assert!(try_analyze_sixel(b"\x1bPq~\x1b\\", 8, 0).is_none());
    let (lines, images) = try_process_input("\x1b_Gc=2,r=2;\x1b\\", 0, 0).unwrap();
    assert_eq!(lines, vec!["  ", ""]);
    assert_eq!(images[0].height_rows, 2);
    assert!(try_process_input("\x1b_Gc=2,v=2;\x1b\\", 8, 0).is_none());
}
