//! Inline images and the line model they are embedded in.
use vstd::prelude::*;
use crate::text;

verus! {

/// An inline image extracted from the input stream.
#[derive(Clone, Debug)]
pub struct InlineImage {
    /// The line index in the final (expanded) line model where the image starts.
    pub line_idx: usize,
    /// The column (character position) where the image was found on that line.
    pub col: usize,
    /// How many terminal rows this image occupies.
    pub height_rows: usize,
    /// How many terminal columns this image occupies.
    pub width_cols: usize,
    /// The raw escape sequence data (complete, ready to emit).
    pub data: Vec<u8>,
    /// The protocol used.
    pub protocol: ImageProtocol,
    /// Number of sixel data rows in the image (only meaningful for sixel).
    /// A sixel row is 6 pixels tall.
    pub sixel_row_count: usize,
    /// Byte offset within `data` where the sixel header ends and repeatable
    /// row data begins (right after colour definitions, at the first data character).
    /// For kitty images this is 0.
    pub sixel_data_start: usize,
    /// Byte offsets within `data` of each sixel row separator (`-`).
    /// Entry i gives the byte index of the `-` that ends row i.
    /// For kitty images this is empty.
    pub sixel_row_offsets: Vec<usize>,
    /// All sixel colour definitions found anywhere in the data, as raw byte sequences.
    /// Each entry is a complete definition like `#0;2;100;0;0` (without trailing data).
    pub sixel_color_defs: Vec<Vec<u8>>,
}

/// What is known of an image before it is given a line: where on its line it stands, how large it
/// is, and its data.
#[verifier::ext_equal]
pub struct ImageModel {
    pub col: int,
    pub width_cols: int,
    pub height_rows: int,
    pub data: Seq<u8>,
    pub protocol: ImageProtocol,
    pub sixel_row_count: int,
    pub sixel_data_start: int,
    pub sixel_row_offsets: Seq<usize>,
    pub sixel_color_defs: Seq<Seq<u8>>,
}

impl InlineImage {
    /// The image without its line.
    pub open spec fn picture(self) -> ImageModel {
        ImageModel {
            col: self.col as int,
            width_cols: self.width_cols as int,
            height_rows: self.height_rows as int,
            data: self.data@,
            protocol: self.protocol,
            sixel_row_count: self.sixel_row_count as int,
            sixel_data_start: self.sixel_data_start as int,
            sixel_row_offsets: self.sixel_row_offsets@,
            sixel_color_defs: text::byte_lists(self.sixel_color_defs@),
        }
    }

    /// The offsets point into the data.
    pub open spec fn wf(self) -> bool {
        let p = self.picture();
        &&& p.sixel_data_start <= p.data.len()
        &&& forall|i: int|
            0 <= i < p.sixel_row_offsets.len() ==> #[trigger] p.sixel_row_offsets[i]
                < p.data.len()
    }
}

#[derive(Clone, Copy, Debug, PartialEq, Eq, Structural)]
pub enum ImageProtocol {
    Sixel,
    Kitty,
}

} // verus!
