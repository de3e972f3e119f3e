//! From input text to the line model: lines that hold an image sequence are merged, images are
//! taken out, and blank lines are put in so that each image has room.
use vstd::prelude::*;
use vstd::string::*;
use vstd::utf8::*;
use crate::image::{ImageModel, InlineImage};
use crate::kitty;
use crate::kitty::find_kitty_end;
use crate::scan;
use crate::scan::{scan_line_for_images, try_scan_line, ExtractedImage, ScanModel};
use crate::sixel;
use crate::sixel::{find_sixel_end, ESC};
use crate::sixel_laws;
use crate::strings;
use crate::strings::{chars_string, position_char, to_chars};

verus! {

/// The texts of a list of strings.
pub open spec fn texts(v: Seq<String>) -> Seq<Seq<char>> {
    Seq::new(v.len(), |i: int| v[i]@)
}

// ---------------------------------------------------------------------------
// Lines
// ---------------------------------------------------------------------------

/// A line without the carriage return that belongs to its line ending.
pub open spec fn without_cr(line: Seq<char>) -> Seq<char> {
    if line.len() > 0 && line.last() == '\r' {
        line.drop_last()
    } else {
        line
    }
}

/// The lines of `s` from `i` on. A line ends at a newline, or at a carriage return followed by
/// one; the last line ending is optional.
pub open spec fn lines_from(s: Seq<char>, i: int) -> Seq<Seq<char>>
    decreases s.len() - i,
{
    if i < 0 || i >= s.len() {
        seq![]
    } else {
        match strings::find_char(s, '\n', i) {
            Some(k) => {
                proof {
                    strings::lemma_find_char(s, '\n', i);
                }
                seq![without_cr(s.subrange(i, k))] + lines_from(s, k + 1)
            },
            None => seq![s.subrange(i, s.len() as int)],
        }
    }
}

/// The lines of a text.
pub open spec fn lines_of(s: Seq<char>) -> Seq<Seq<char>> {
    lines_from(s, 0)
}

/// The lines of a text.
pub fn split_lines(input: &str) -> (r: Vec<String>)
    ensures
        texts(r@) == lines_of(input@),
{
    let s = to_chars(input);
    let n: usize = s.len();
    let mut out: Vec<String> = Vec::new();
    let mut i: usize = 0;
    assert(texts(out@) + lines_from(s@, 0) =~= lines_of(s@));
    while i < n
        invariant
            n == s@.len(),
            i <= n,
            lines_of(s@) == texts(out@) + lines_from(s@, i as int),
        decreases n - i,
    {
        let ghost before = texts(out@);
        let ghost rest = lines_from(s@, i as int);
        let (end, next): (usize, usize) = match position_char(s.as_slice(), '\n', i) {
            Some(k) => if k > i && s[k - 1] == '\r' {
                (k - 1, k + 1)
            } else {
                (k, k + 1)
            },
            None => (n, n),
        };
        let line = chars_string(s.as_slice(), i, end);
        assert(rest == seq![line@] + lines_from(s@, next as int)) by {
            match strings::find_char(s@, '\n', i as int) {
                Some(k) => {
                    let whole = s@.subrange(i as int, k);
                    if k > i {
                        assert(whole.last() == s@[k - 1]);
                    }
                    assert(without_cr(whole) =~= line@);
                },
                None => {
                    assert(rest =~= seq![line@] + lines_from(s@, next as int));
                },
            }
        }
        out.push(line);
        assert(texts(out@) =~= before + seq![line@]);
        assert(lines_of(s@) =~= texts(out@) + lines_from(s@, next as int));
        i = next;
    }
    assert(texts(out@) =~= lines_of(s@));
    out
}

// ---------------------------------------------------------------------------
// Merging
// ---------------------------------------------------------------------------

/// Whether an image sequence starts at `i` and does not end in `b`.
pub open spec fn incomplete_at(b: Seq<u8>, i: int) -> bool {
    &&& 0 <= i
    &&& i + 1 < b.len()
    &&& b[i] == ESC
    &&& (b[i + 1] == 0x50 && sixel::sixel_end(b, i) is None) || (b[i + 1] == 0x5f
        && kitty::kitty_end(b, i) is None)
}

/// Whether some image sequence starts in a line and does not end in it.
pub open spec fn incomplete(line: Seq<char>) -> bool {
    exists|i: int| #[trigger] incomplete_at(encode_utf8(line), i)
}

/// The merged lines from line `k` on, while `pending` waits for the end of an image sequence.
pub open spec fn merged_from(lines: Seq<Seq<char>>, k: int, pending: Option<Seq<char>>) -> Seq<
    Seq<char>,
>
    decreases lines.len() - k,
{
    if k < 0 || k >= lines.len() {
        match pending {
            Some(p) => seq![p],
            None => seq![],
        }
    } else {
        match pending {
            Some(p) => if incomplete(p + lines[k]) {
                merged_from(lines, k + 1, Some(p + lines[k]))
            } else {
                seq![p + lines[k]] + merged_from(lines, k + 1, None)
            },
            None => if incomplete(lines[k]) {
                merged_from(lines, k + 1, Some(lines[k]))
            } else {
                seq![lines[k]] + merged_from(lines, k + 1, None)
            },
        }
    }
}

/// The lines of a text, with lines that an image sequence runs over joined into one.
pub open spec fn merged(input: Seq<char>) -> Seq<Seq<char>> {
    merged_from(lines_of(input), 0, None)
}

/// Whether some image sequence starts in a line and does not end in it.
pub fn has_incomplete_sequence(line: &str) -> (r: bool)
    ensures
        r == incomplete(line@),
{
    let bytes = line.as_bytes();
    let n: usize = bytes.len();
    let mut i: usize = 0;
    while i < n
        invariant
            n == bytes@.len(),
            i <= n,
            bytes@ == encode_utf8(line@),
            forall|j: int| j < i ==> !#[trigger] incomplete_at(bytes@, j),
        decreases n - i,
    {
        if bytes[i] == ESC && i + 1 < n {
            if bytes[i + 1] == 0x50 && find_sixel_end(bytes, i).is_none() {
                assert(incomplete_at(bytes@, i as int));
                return true;
            }
            if bytes[i + 1] == 0x5f && find_kitty_end(bytes, i).is_none() {
                assert(incomplete_at(bytes@, i as int));
                return true;
            }
        }
        i += 1;
    }
    false
}

/// Whether all image sequences that start in a line end in it.
pub fn sequence_complete(line: &str) -> (r: bool)
    ensures
        r == !incomplete(line@),
{
    !has_incomplete_sequence(line)
}

/// The lines of a text, with lines that an image sequence runs over joined into one.
pub fn merge_image_lines(input: &str) -> (r: Vec<String>)
    ensures
        texts(r@) == merged(input@),
{
    let lines = split_lines(input);
    let ghost all = texts(lines@);
    let mut result: Vec<String> = Vec::new();
    let mut pending: Option<String> = None;
    let mut k: usize = 0;
    assert(texts(result@) + merged(input@) =~= merged(input@));
    while k < lines.len()
        invariant
            k <= lines@.len(),
            all == texts(lines@),
            merged(input@) == texts(result@) + merged_from(
                all,
                k as int,
                match pending {
                    Some(p) => Some(p@),
                    None => None,
                },
            ),
        decreases lines.len() - k,
    {
        let ghost before = texts(result@);
        assert(all[k as int] == lines@[k as int]@);
        match pending {
            Some(p) => {
                let joined = p.concat(lines[k].as_str());
                if sequence_complete(joined.as_str()) {
                    pending = None;
                    result.push(joined);
                    assert(texts(result@) =~= before + seq![joined@]);
                    assert(merged(input@) =~= texts(result@) + merged_from(all, k + 1, None));
                } else {
                    pending = Some(joined);
                }
            },
            None => {
                let line = lines[k].clone();
                if has_incomplete_sequence(line.as_str()) {
                    pending = Some(line);
                } else {
                    pending = None;
                    result.push(line);
                    assert(texts(result@) =~= before + seq![line@]);
                    assert(merged(input@) =~= texts(result@) + merged_from(all, k + 1, None));
                }
            },
        }
        k += 1;
    }
    let ghost before = texts(result@);
    match pending {
        Some(p) => {
            result.push(p);
            assert(texts(result@) =~= before + seq![p@]);
        },
        None => {
            assert(before + seq![] =~= before);
        },
    }
    result
}

// ---------------------------------------------------------------------------
// The line model
// ---------------------------------------------------------------------------

/// An image with the line that it starts on.
#[verifier::ext_equal]
pub struct PlacedImage {
    pub line_idx: int,
    pub image: ImageModel,
}

/// Lines and images.
#[verifier::ext_equal]
pub struct DocumentModel {
    pub lines: Seq<Seq<char>>,
    pub images: Seq<PlacedImage>,
}

pub open spec fn placed_images(v: Seq<InlineImage>) -> Seq<PlacedImage> {
    Seq::new(v.len(), |i: int| PlacedImage { line_idx: v[i].line_idx as int, image: v[i].picture() })
}

/// The height of the tallest image, 0 if there is none.
pub open spec fn tallest(images: Seq<ImageModel>) -> int
    decreases images.len(),
{
    if images.len() == 0 {
        0
    } else {
        sixel::max_of(tallest(images.drop_last()), images.last().height_rows)
    }
}

/// The lines that a scanned line takes: the cleaned text, and blank lines below it as far as its
/// images reach.
pub open spec fn block_lines(s: ScanModel) -> Seq<Seq<char>> {
    Seq::new(
        sixel::max_of(tallest(s.images), 1) as nat,
        |r: int|
            if r == 0 {
                s.text
            } else {
                seq![]
            },
    )
}

/// The images of a scanned line, put on a line.
pub open spec fn block_images(s: ScanModel, line_idx: int) -> Seq<PlacedImage> {
    Seq::new(s.images.len(), |i: int| PlacedImage { line_idx, image: s.images[i] })
}

/// Lines and images, followed by what comes after them.
pub open spec fn doc_followed(
    lines: Seq<Seq<char>>,
    images: Seq<PlacedImage>,
    rest: Option<DocumentModel>,
) -> Option<DocumentModel> {
    match rest {
        Some(d) => Some(DocumentModel { lines: lines + d.lines, images: images + d.images }),
        None => None,
    }
}

/// The line model of merged lines from line `k` on, the first of which becomes line `at`. `None`
/// where some line cannot be scanned.
pub open spec fn expanded_from(
    lines: Seq<Seq<char>>,
    k: int,
    at: int,
    cell_w: int,
    cell_h: int,
) -> Option<DocumentModel>
    decreases lines.len() - k,
{
    if k < 0 || k >= lines.len() {
        Some(DocumentModel { lines: seq![], images: seq![] })
    } else {
        match scan::scanned(lines[k], cell_w, cell_h) {
            None => None,
            Some(s) => doc_followed(
                block_lines(s),
                block_images(s, at),
                expanded_from(lines, k + 1, at + block_lines(s).len(), cell_w, cell_h),
            ),
        }
    }
}

/// The line model of a text.
pub open spec fn processed(input: Seq<char>, cell_w: int, cell_h: int) -> Option<DocumentModel> {
    expanded_from(merged(input), 0, 0, cell_w, cell_h)
}

/// Whether a line can be scanned.
#[verifier::opaque]
spec fn scannable(line: Seq<char>, cell_w: int, cell_h: int) -> bool {
    scan::scanned(line, cell_w, cell_h) is Some
}

/// The line model exists exactly where all lines can be scanned.
proof fn lemma_expanded(lines: Seq<Seq<char>>, k: int, at: int, cell_w: int, cell_h: int)
    requires
        0 <= k,
    ensures
        expanded_from(lines, k, at, cell_w, cell_h) is Some == (forall|j: int|
            k <= j < lines.len() ==> scannable(#[trigger] lines[j], cell_w, cell_h)),
    decreases lines.len() - k,
{
    reveal(scannable);
    if k < lines.len() {
        if let Some(s) = scan::scanned(lines[k], cell_w, cell_h) {
            lemma_expanded(lines, k + 1, at + block_lines(s).len(), cell_w, cell_h);
        }
    }
}

/// The offsets of a picture point into its data.
pub open spec fn sound_picture(p: ImageModel) -> bool {
    &&& p.sixel_data_start <= p.data.len()
    &&& forall|i: int|
        0 <= i < p.sixel_row_offsets.len() ==> #[trigger] p.sixel_row_offsets[i] < p.data.len()
    &&& p.height_rows >= 1
    &&& p.width_cols >= 1
}

proof fn lemma_scan_sound(b: Seq<u8>, i: int, col: int, cell_w: int, cell_h: int)
    requires
        0 <= i,
        b.len() <= usize::MAX,
        scan::scan_from(b, i, col, cell_w, cell_h) is Some,
    ensures
        forall|k: int|
            0 <= k < (scan::scan_from(b, i, col, cell_w, cell_h)->0).images.len()
                ==> sound_picture(
                #[trigger] (scan::scan_from(b, i, col, cell_w, cell_h)->0).images[k],
            ),
    decreases b.len() - i,
{
    if i < b.len() {
        scan::lemma_token_end(b, i);
        let t = scan::token_at(b, i);
        let e = scan::token_end(t, i);
        let d = b.subrange(i, e);
        let pics = (scan::scan_from(b, i, col, cell_w, cell_h)->0).images;
        match t {
            scan::ScanToken::Sixel(_) => {
                let p = scan::sixel_picture(d, col, cell_w, cell_h);
                sixel::lemma_data_region(d);
                sixel::lemma_defs_end(d, sixel::data_region(d));
                sixel_laws::lemma_row_breaks(d, sixel::data_region(d));
                assert(sound_picture(p));
                lemma_scan_sound(b, e, col + p.width_cols, cell_w, cell_h);
                let rest = (scan::scan_from(b, e, col + p.width_cols, cell_w, cell_h)->0).images;
                assert(pics == seq![p] + rest);
                assert forall|k: int| 0 <= k < pics.len() implies sound_picture(
                    #[trigger] pics[k],
                ) by {
                    if k > 0 {
                        assert(pics[k] == rest[k - 1]);
                    }
                }
            },
            scan::ScanToken::Kitty(_) => {
                let p = scan::kitty_picture(d, col, cell_w, cell_h);
                assert(sound_picture(p));
                lemma_scan_sound(b, e, col + p.width_cols, cell_w, cell_h);
                let rest = (scan::scan_from(b, e, col + p.width_cols, cell_w, cell_h)->0).images;
                assert(pics == seq![p] + rest);
                assert forall|k: int| 0 <= k < pics.len() implies sound_picture(
                    #[trigger] pics[k],
                ) by {
                    if k > 0 {
                        assert(pics[k] == rest[k - 1]);
                    }
                }
            },
            scan::ScanToken::Escape(_) => {
                lemma_scan_sound(b, e, col, cell_w, cell_h);
                assert(pics =~= (scan::scan_from(b, e, col, cell_w, cell_h)->0).images);
            },
            scan::ScanToken::Character(c, _) => {
                let next = col + strings::columns(c);
                lemma_scan_sound(b, e, next, cell_w, cell_h);
                assert(pics =~= (scan::scan_from(b, e, next, cell_w, cell_h)->0).images);
            },
            scan::ScanToken::Broken => {},
        }
    }
}

/// Whether a line can be scanned.
fn can_scan(line: &str, cell_w: usize, cell_h: usize) -> (r: bool)
    ensures
        r == scannable(line@, cell_w as int, cell_h as int),
{
    reveal(scannable);
    try_scan_line(line, cell_w, cell_h).is_some()
}

/// Whether a text can be processed.
pub fn can_process(input: &str, cell_w: usize, cell_h: usize) -> (r: bool)
    ensures
        r == processed(input@, cell_w as int, cell_h as int) is Some,
{
    let lines = merge_image_lines(input);
    let ghost all = texts(lines@);
    proof {
        lemma_expanded(all, 0, 0, cell_w as int, cell_h as int);
    }
    let ghost ok = processed(input@, cell_w as int, cell_h as int) is Some;
    let mut k: usize = 0;
    while k < lines.len()
        invariant
            k <= lines@.len(),
            all == texts(lines@),
            ok == (forall|j: int|
                0 <= j < all.len() ==> scannable(#[trigger] all[j], cell_w as int, cell_h as int)),
            ok == processed(input@, cell_w as int, cell_h as int) is Some,
            forall|j: int|
                0 <= j < k ==> scannable(#[trigger] all[j], cell_w as int, cell_h as int),
        decreases lines.len() - k,
    {
        assert(all[k as int] == lines@[k as int]@);
        if !can_scan(lines[k].as_str(), cell_w, cell_h) {
            return false;
        }
        k += 1;
    }
    true
}

/// The height of the tallest image.
fn tallest_image(images: &Vec<ExtractedImage>) -> (r: usize)
    ensures
        r == tallest(scan::image_models(images@)),
{
    let ghost all = scan::image_models(images@);
    let mut max: usize = 0;
    let mut i: usize = 0;
    assert(all.subrange(0, 0).len() == 0);
    while i < images.len()
        invariant
            i <= images@.len(),
            all == scan::image_models(images@),
            max == tallest(all.subrange(0, i as int)),
        decreases images.len() - i,
    {
        assert(all.subrange(0, i + 1).drop_last() =~= all.subrange(0, i as int));
        assert(all.subrange(0, i + 1).last() == images@[i as int]@);
        if images[i].height_rows > max {
            max = images[i].height_rows;
        }
        i += 1;
    }
    assert(all.subrange(0, i as int) =~= all);
    max
}

/// Gives an image its line.
fn place_image(img: ExtractedImage, line_idx: usize) -> (r: InlineImage)
    ensures
        r.line_idx == line_idx,
        r.picture() == img@,
{
    InlineImage {
        line_idx,
        col: img.col,
        height_rows: img.height_rows,
        width_cols: img.width_cols,
        data: img.data,
        protocol: img.protocol,
        sixel_row_count: img.sixel_row_count,
        sixel_data_start: img.sixel_data_start,
        sixel_row_offsets: img.sixel_row_offsets,
        sixel_color_defs: img.sixel_color_defs,
    }
}

/// Adds the images of a scanned line.
fn add_images(all: &mut Vec<InlineImage>, images: Vec<ExtractedImage>, line_idx: usize)
    ensures
        placed_images(final(all)@) == placed_images(old(all)@) + Seq::new(
            images@.len(),
            |i: int| PlacedImage { line_idx: line_idx as int, image: images@[i]@ },
        ),
{
    let ghost given = images@;
    let ghost start = placed_images(old(all)@);
    let ghost want = Seq::new(
        given.len(),
        |i: int| PlacedImage { line_idx: line_idx as int, image: given[i]@ },
    );
    assert(placed_images(all@) =~= start + want.subrange(0, 0));
    for img in it: images
        invariant
            it.seq() == given,
            want == Seq::new(
                given.len(),
                |i: int| PlacedImage { line_idx: line_idx as int, image: given[i]@ },
            ),
            placed_images(all@) == start + want.subrange(0, it.index()),
    {
        let ghost before = placed_images(all@);
        let ghost done = it.index();
        assert(img == given[done]);
        all.push(place_image(img, line_idx));
        assert(placed_images(all@) =~= before.push(want[done]));
        assert(placed_images(all@) =~= start + want.subrange(0, done + 1));
    }
    assert(want.subrange(0, given.len() as int) =~= want);
}

/// Adds the lines of a scanned line: its text and blank lines.
fn add_lines(all: &mut Vec<String>, cleaned: String, height: usize)
    ensures
        texts(final(all)@) == texts(old(all)@) + Seq::new(
            sixel::max_of(height as int, 1) as nat,
            |r: int|
                if r == 0 {
                    cleaned@
                } else {
                    seq![]
                },
        ),
{
    let ghost start = texts(old(all)@);
    let ghost want = Seq::new(
        sixel::max_of(height as int, 1) as nat,
        |r: int|
            if r == 0 {
                cleaned@
            } else {
                Seq::<char>::empty()
            },
    );
    all.push(cleaned);
    assert(texts(all@) =~= start + want.subrange(0, 1));
    let mut r: usize = 1;
    while r < height
        invariant
            1 <= r,
            r <= want.len(),
            want.len() == sixel::max_of(height as int, 1),
            forall|j: int| 1 <= j < want.len() ==> #[trigger] want[j] == Seq::<char>::empty(),
            texts(all@) == start + want.subrange(0, r as int),
        decreases height - r,
    {
        let ghost before = texts(all@);
        let blank = String::new();
        all.push(blank);
        assert(blank@ =~= want[r as int]);
        assert(texts(all@) =~= before.push(want[r as int]));
        assert(texts(all@) =~= start + want.subrange(0, r + 1));
        r += 1;
    }
    assert(want.subrange(0, r as int) =~= want);
    assert(texts(all@) =~= start + Seq::new(
        sixel::max_of(height as int, 1) as nat,
        |r: int|
            if r == 0 {
                cleaned@
            } else {
                seq![]
            },
    ));
}

/// What is put together piece by piece is put together as a whole.
proof fn lemma_doc_followed(
    a: Seq<Seq<char>>,
    x: Seq<PlacedImage>,
    b: Seq<Seq<char>>,
    y: Seq<PlacedImage>,
    rest: Option<DocumentModel>,
)
    ensures
        doc_followed(a, x, doc_followed(b, y, rest)) == doc_followed(a + b, x + y, rest),
{
    if let Some(d) = rest {
        assert(a + (b + d.lines) =~= (a + b) + d.lines);
        assert(x + (y + d.images) =~= (x + y) + d.images);
    }
}

/// Sound images stay sound when those of a scanned line are put behind them.
proof fn lemma_images_wf(before: Seq<InlineImage>, after: Seq<InlineImage>, s: ScanModel, at: int)
    requires
        forall|i: int| 0 <= i < before.len() ==> (#[trigger] before[i]).wf(),
        placed_images(after) == placed_images(before) + block_images(s, at),
        forall|i: int| 0 <= i < s.images.len() ==> sound_picture(#[trigger] s.images[i]),
    ensures
        forall|i: int| 0 <= i < after.len() ==> (#[trigger] after[i]).wf(),
{
    assert(placed_images(after).len() == after.len());
    assert forall|i: int| 0 <= i < after.len() implies (#[trigger] after[i]).wf() by {
        let p = placed_images(after)[i];
        if i < before.len() {
            assert(p == placed_images(before)[i]);
            assert(before[i].wf());
            assert(after[i].picture() == before[i].picture());
        } else {
            assert(p == block_images(s, at)[i - before.len()]);
            assert(sound_picture(s.images[i - before.len()]));
        }
    }
}

/// Process all input lines: extract images, insert blank spacer lines, and return the expanded
/// line list and the image list with correct line indices.
pub fn process_input(input: &str, cell_w: usize, cell_h: usize) -> (r: (
    Vec<String>,
    Vec<InlineImage>,
))
    requires
        processed(input@, cell_w as int, cell_h as int) is Some,
    ensures
        processed(input@, cell_w as int, cell_h as int) == Some(
            DocumentModel { lines: texts(r.0@), images: placed_images(r.1@) },
        ),
        forall|i: int| 0 <= i < r.1@.len() ==> (#[trigger] r.1@[i]).wf(),
{
    let merged_lines = merge_image_lines(input);
    let ghost all = texts(merged_lines@);
    let ghost (cw, ch) = (cell_w as int, cell_h as int);
    let mut lines: Vec<String> = Vec::new();
    let mut images: Vec<InlineImage> = Vec::new();
    let ghost whole = processed(input@, cw, ch);
    proof {
        let d = whole->0;
        assert(texts(lines@) + d.lines =~= d.lines);
        assert(placed_images(images@) + d.images =~= d.images);
    }
    let mut k: usize = 0;
    while k < merged_lines.len()
        invariant
            k <= merged_lines@.len(),
            all == texts(merged_lines@),
            cw == cell_w,
            ch == cell_h,
            whole is Some,
            whole == doc_followed(
                texts(lines@),
                placed_images(images@),
                expanded_from(all, k as int, lines@.len() as int, cw, ch),
            ),
            forall|i: int| 0 <= i < images@.len() ==> (#[trigger] images@[i]).wf(),
        decreases merged_lines.len() - k,
    {
        assert(all[k as int] == merged_lines@[k as int]@);
        let at: usize = lines.len();
        let _size: usize = strings::str_len(merged_lines[k].as_str());
        let ghost before_lines = texts(lines@);
        let ghost before_images = placed_images(images@);
        let ghost old_images = images@;
        let scan = scan_line_for_images(merged_lines[k].as_str(), cell_w, cell_h);
        let ghost s = ScanModel { text: scan.cleaned@, images: scan::image_models(scan.images@) };
        let ghost rest = expanded_from(all, k + 1, at + block_lines(s).len(), cw, ch);
        assert(expanded_from(all, k as int, at as int, cw, ch) == doc_followed(
            block_lines(s),
            block_images(s, at as int),
            rest,
        ));
        let height = tallest_image(&scan.images);
        let ghost found = scan.images@;
        add_lines(&mut lines, scan.cleaned, height);
        add_images(&mut images, scan.images, at);
        proof {
            assert(texts(lines@) =~= before_lines + block_lines(s));
            assert(placed_images(images@) =~= before_images + block_images(s, at as int));
            lemma_doc_followed(
                before_lines,
                before_images,
                block_lines(s),
                block_images(s, at as int),
                rest,
            );
            lemma_scan_sound(encode_utf8(all[k as int]), 0, 0, cw, ch);
            lemma_images_wf(old_images, images@, s, at as int);
        }
        k += 1;
    }
    proof {
        assert(texts(lines@) + seq![] =~= texts(lines@));
        assert(placed_images(images@) + seq![] =~= placed_images(images@));
    }
    (lines, images)
}

/// `process_input` where the text can be processed, else `None`.
pub fn try_process_input(input: &str, cell_w: usize, cell_h: usize) -> (r: Option<
    (Vec<String>, Vec<InlineImage>),
>)
    ensures
        match r {
            Some((lines, images)) => {
                &&& processed(input@, cell_w as int, cell_h as int) == Some(
                    DocumentModel { lines: texts(lines@), images: placed_images(images@) },
                )
                &&& forall|i: int| 0 <= i < images@.len() ==> (#[trigger] images@[i]).wf()
            },
            None => processed(input@, cell_w as int, cell_h as int) is None,
        },
{
    if can_process(input, cell_w, cell_h) {
        Some(process_input(input, cell_w, cell_h))
    } else {
        None
    }
}

// ---------------------------------------------------------------------------
// Visibility
// ---------------------------------------------------------------------------

/// Whether an image overlaps a viewport of `height` lines that starts at line `top`.
pub open spec fn overlaps(img: InlineImage, top: int, height: int) -> bool {
    img.line_idx < top + height && img.line_idx + img.height_rows > top
}

/// The images that overlap a viewport, in their order.
pub open spec fn overlapping(images: Seq<InlineImage>, top: int, height: int) -> Seq<InlineImage>
    decreases images.len(),
{
    if images.len() == 0 {
        seq![]
    } else if overlaps(images.last(), top, height) {
        overlapping(images.drop_last(), top, height).push(images.last())
    } else {
        overlapping(images.drop_last(), top, height)
    }
}

/// For a given scroll offset and viewport, return which images overlap the viewport.
pub fn visible_images(images: &[InlineImage], scroll_offset: usize, viewport_height: usize) -> (r:
    Vec<&InlineImage>)
    requires
        scroll_offset + viewport_height <= usize::MAX,
        forall|i: int|
            0 <= i < images@.len() ==> (#[trigger] images@[i]).line_idx + images@[i].height_rows
                <= usize::MAX,
    ensures
        r@.len() == overlapping(images@, scroll_offset as int, viewport_height as int).len(),
        forall|i: int|
            0 <= i < r@.len() ==> *(#[trigger] r@[i]) == overlapping(
                images@,
                scroll_offset as int,
                viewport_height as int,
            )[i],
{
    let viewport_end: usize = scroll_offset + viewport_height;
    let mut out: Vec<&InlineImage> = Vec::new();
    let mut i: usize = 0;
    let ghost all = images@;
    let ghost (top, height) = (scroll_offset as int, viewport_height as int);
    assert(all.subrange(0, 0).len() == 0);
    while i < images.len()
        invariant
            i <= all.len(),
            all == images@,
            viewport_end == top + height,
            top == scroll_offset,
            forall|i: int|
                0 <= i < images@.len() ==> (#[trigger] images@[i]).line_idx
                    + images@[i].height_rows <= usize::MAX,
            out@.len() == overlapping(all.subrange(0, i as int), top, height).len(),
            forall|j: int|
                0 <= j < out@.len() ==> *(#[trigger] out@[j]) == overlapping(
                    all.subrange(0, i as int),
                    top,
                    height,
                )[j],
        decreases images.len() - i,
    {
        let img = &images[i];
        assert(all.subrange(0, i + 1).drop_last() =~= all.subrange(0, i as int));
        assert(all.subrange(0, i + 1).last() == *img);
        let img_end: usize = img.line_idx + img.height_rows;
        if img.line_idx < viewport_end && img_end > scroll_offset {
            out.push(img);
        }
        i += 1;
    }
    assert(all.subrange(0, i as int) =~= all);
    out
}

} // verus!
