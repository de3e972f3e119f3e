//! What is known of the terminal, and what follows from it: the size of a character cell, whether
//! to page at all, and what is written without paging.
use vstd::prelude::*;
use vstd::string::*;
use vstd::utf8::*;
use crate::external;
use crate::image::InlineImage;
use crate::sixel::ESC;
use crate::strings::to_chars;
use crate::text;

verus! {

// ---------------------------------------------------------------------------
// Cell size
// ---------------------------------------------------------------------------

/// What a terminal reports of its window: rows and columns, and its size in pixels.
#[derive(Clone, Copy, Debug, PartialEq, Eq, Structural)]
pub struct WindowSize {
    pub rows: u16,
    pub cols: u16,
    pub xpixel: u16,
    pub ypixel: u16,
}

/// Width and height of a cell in a window, where all numbers are reported.
pub open spec fn window_cell(w: WindowSize) -> Option<(int, int)> {
    if w.xpixel > 0 && w.ypixel > 0 && w.rows > 0 && w.cols > 0 {
        Some((w.xpixel as int / w.cols as int, w.ypixel as int / w.rows as int))
    } else {
        None
    }
}

/// The cell size in the first window, at or after the `i`-th, that has one.
pub open spec fn windows_cell(sizes: Seq<WindowSize>, i: int) -> Option<(int, int)>
    decreases sizes.len() - i,
{
    if i < 0 || i >= sizes.len() {
        None
    } else if window_cell(sizes[i]) is Some {
        window_cell(sizes[i])
    } else {
        windows_cell(sizes, i + 1)
    }
}

/// The parameters of a cell size report: what stands between ESC [ and `t`.
pub open spec fn report_params(buf: Seq<u8>) -> Option<Seq<u8>> {
    match text::find_byte(buf, ESC, 0) {
        Some(e) => if e + 1 < buf.len() && buf[e + 1] == 0x5b {
            match text::find_byte(buf, 0x74, e + 2) {
                Some(t) => Some(buf.subrange(e + 2, t)),
                None => None,
            }
        } else {
            None
        },
        None => None,
    }
}

/// The cell size in a report ESC [ 6 ; height ; width t: two numbers that are not 0.
pub open spec fn reported_cell(buf: Seq<u8>) -> Option<(int, int)> {
    match report_params(buf) {
        Some(params) => {
            let parts = text::split(params, 0x3b);
            if valid_utf8(params) && parts.len() >= 3 && parts[0] == seq![0x36u8] {
                match (
                    text::parse_unsigned(parts[1], usize::MAX as int),
                    text::parse_unsigned(parts[2], usize::MAX as int),
                ) {
                    (Some(h), Some(w)) => if h > 0 && w > 0 {
                        Some((w, h))
                    } else {
                        None
                    },
                    _ => None,
                }
            } else {
                None
            }
        },
        None => None,
    }
}

/// The cell size: from the windows, else from a report, else 8 by 16 pixels.
pub open spec fn cell_size(sizes: Seq<WindowSize>, reply: Option<Seq<u8>>) -> (int, int) {
    match windows_cell(sizes, 0) {
        Some(size) => size,
        None => match reply {
            Some(buf) => match reported_cell(buf) {
                Some(size) => size,
                None => (8, 16),
            },
            None => (8, 16),
        },
    }
}

/// Width and height of a cell in the first window that reports all numbers.
pub fn query_cell_size_ioctl(sizes: &[WindowSize]) -> (r: Option<(usize, usize)>)
    ensures
        match r {
            Some((w, h)) => windows_cell(sizes@, 0) == Some((w as int, h as int)),
            None => windows_cell(sizes@, 0) is None,
        },
{
    let mut i: usize = 0;
    while i < sizes.len()
        invariant
            i <= sizes@.len(),
            windows_cell(sizes@, 0) == windows_cell(sizes@, i as int),
        decreases sizes.len() - i,
    {
        let w = sizes[i];
        if w.xpixel > 0 && w.ypixel > 0 && w.rows > 0 && w.cols > 0 {
            return Some(((w.xpixel / w.cols) as usize, (w.ypixel / w.rows) as usize));
        }
        i += 1;
    }
    None
}

/// Whether the end of a report, `t`, has been read.
pub fn reply_complete(buf: &[u8]) -> (r: bool)
    ensures
        r == buf@.contains(0x74),
{
    proof {
        text::lemma_find_byte(buf@, 0x74, 0);
    }
    match text::position(buf, 0x74, 0) {
        Some(k) => {
            assert(buf@[k as int] == 0x74);
            true
        },
        None => false,
    }
}

/// Parse a cell size report: ESC [ 6 ; cell_h ; cell_w t
pub fn parse_cell_size_response(buf: &[u8]) -> (r: Option<(usize, usize)>)
    ensures
        match r {
            Some((w, h)) => reported_cell(buf@) == Some((w as int, h as int)),
            None => reported_cell(buf@) is None,
        },
{
    let n: usize = buf.len();
    let e: usize = match text::position(buf, ESC, 0) {
        Some(e) => e,
        None => return None,
    };
    if e + 1 >= n || buf[e + 1] != 0x5b {
        return None;
    }
    let t: usize = match text::position(buf, 0x74, e + 2) {
        Some(t) => t,
        None => return None,
    };
    let params = text::slice_vec(buf, e + 2, t);
    if !external::is_utf8(params.as_slice()) {
        return None;
    }
    let parts = text::split_bytes(params.as_slice(), 0x3b);
    let ghost all = text::split(params@, 0x3b);
    assert(all.len() == parts@.len());
    if parts.len() < 3 {
        return None;
    }
    assert(all[0] == parts@[0]@ && all[1] == parts@[1]@ && all[2] == parts@[2]@);
    let six = parts[0].len() == 1 && parts[0][0] == 0x36;
    proof {
        if six {
            assert(all[0] =~= seq![0x36u8]);
        } else if all[0] == seq![0x36u8] {
            assert(all[0].len() == 1 && all[0][0] == 0x36);
        }
    }
    if !six {
        return None;
    }
    match (text::parse_usize(parts[1].as_slice()), text::parse_usize(parts[2].as_slice())) {
        (Some(h), Some(w)) => if h > 0 && w > 0 {
            Some((w, h))
        } else {
            None
        },
        _ => None,
    }
}

/// The size of a character cell in pixels, from what the terminal reports: the window sizes of the
/// standard streams, and the reply to a query, if one was made. Falls back to 8 by 16.
pub fn query_cell_size(sizes: &[WindowSize], reply: Option<&[u8]>) -> (r: (usize, usize))
    ensures
        (r.0 as int, r.1 as int) == cell_size(
            sizes@,
            match reply {
                Some(buf) => Some(buf@),
                None => None,
            },
        ),
{
    if let Some(size) = query_cell_size_ioctl(sizes) {
        return size;
    }
    if let Some(buf) = reply {
        if let Some(size) = parse_cell_size_response(buf) {
            return size;
        }
    }
    (8, 16)
}

// ---------------------------------------------------------------------------
// To page or not to page
// ---------------------------------------------------------------------------

/// The flags in the value of the LESS environment variable: `F` and `X`.
pub open spec fn less_flags(value: Option<Seq<char>>) -> (bool, bool) {
    match value {
        Some(v) => (v.contains('F'), v.contains('X')),
        None => (false, false),
    }
}

/// Parse single-character flags from the value of the LESS environment variable, if it is set.
/// Returns (quit_if_one_screen, no_init).
pub fn parse_less_env(value: Option<&str>) -> (r: (bool, bool))
    ensures
        r == less_flags(
            match value {
                Some(v) => Some(v@),
                None => None,
            },
        ),
{
    match value {
        Some(v) => {
            let s = to_chars(v);
            let mut quit_if_one_screen = false;
            let mut no_init = false;
            let mut i: usize = 0;
            while i < s.len()
                invariant
                    i <= s@.len(),
                    quit_if_one_screen == s@.subrange(0, i as int).contains('F'),
                    no_init == s@.subrange(0, i as int).contains('X'),
                decreases s.len() - i,
            {
                let ghost before = s@.subrange(0, i as int);
                let ghost after = s@.subrange(0, i + 1);
                let c = s[i];
                proof {
                    assert(after[i as int] == c);
                    assert(forall|j: int| 0 <= j < i ==> before[j] == after[j]);
                    if before.contains('F') {
                        let j = choose|j: int| 0 <= j < before.len() && before[j] == 'F';
                        assert(after[j] == 'F');
                    }
                    if before.contains('X') {
                        let j = choose|j: int| 0 <= j < before.len() && before[j] == 'X';
                        assert(after[j] == 'X');
                    }
                    if after.contains('F') && c != 'F' {
                        let j = choose|j: int| 0 <= j < after.len() && after[j] == 'F';
                        assert(before[j] == 'F');
                    }
                    if after.contains('X') && c != 'X' {
                        let j = choose|j: int| 0 <= j < after.len() && after[j] == 'X';
                        assert(before[j] == 'X');
                    }
                }
                if c == 'F' {
                    quit_if_one_screen = true;
                } else if c == 'X' {
                    no_init = true;
                }
                i += 1;
            }
            assert(s@.subrange(0, i as int) =~= s@);
            (quit_if_one_screen, no_init)
        },
        None => (false, false),
    }
}

/// Whether content fits the viewport of a terminal of the given height, if that is known.
pub open spec fn fits(line_count: int, terminal_height: Option<u16>) -> bool {
    match terminal_height {
        Some(h) => line_count <= if h >= 1 {
            h - 1
        } else {
            0
        },
        None => false,
    }
}

/// Whether content fits the viewport of a terminal of the given height, if that is known: one row
/// is for the status line.
pub fn fits_in_viewport(line_count: usize, terminal_height: Option<u16>) -> (r: bool)
    ensures
        r == fits(line_count as int, terminal_height),
{
    match terminal_height {
        Some(h) => {
            let viewport: usize = if h >= 1 {
                (h - 1) as usize
            } else {
                0
            };
            line_count <= viewport
        },
        None => false,
    }
}

/// Whether to page.
pub open spec fn pages(is_tty: bool, quit_if_one_screen: bool, fits: bool) -> bool {
    is_tty && !(quit_if_one_screen && fits)
}

/// Whether to page: only on a terminal, and not if content that fits it is to be written as it is.
pub fn should_page(is_tty: bool, quit_if_one_screen: bool, fits: bool) -> (r: bool)
    ensures
        r == pages(is_tty, quit_if_one_screen, fits),
{
    if !is_tty {
        false
    } else if quit_if_one_screen && fits {
        false
    } else {
        true
    }
}

// ---------------------------------------------------------------------------
// Output without paging
// ---------------------------------------------------------------------------

/// One thing to write: a line, or the data of an image, by their index.
#[derive(Clone, Copy, Debug, PartialEq, Eq, Structural)]
pub enum OutputItem {
    Line(usize),
    Image(usize),
}

/// Where the run of images ends that start on line `line`, from the `k`-th on.
pub open spec fn run_end(lines: Seq<int>, line: int, k: int) -> int
    decreases lines.len() - k,
{
    if 0 <= k < lines.len() && lines[k] == line {
        run_end(lines, line, k + 1)
    } else {
        k
    }
}

/// The images from the `from`-th up to (not including) the `to`-th.
pub open spec fn image_items(from: int, to: int) -> Seq<OutputItem> {
    Seq::new(
        (if to >= from {
            to - from
        } else {
            0
        }) as nat,
        |i: int| OutputItem::Image((from + i) as usize),
    )
}

/// What is written from line `line` on, with the images from the `k`-th on: each line, followed by
/// the images that start on it. Images are written to terminals only.
pub open spec fn output_from(
    line_count: int,
    starts: Seq<int>,
    is_tty: bool,
    line: int,
    k: int,
) -> Seq<OutputItem>
    decreases line_count - line,
{
    if line >= line_count {
        seq![]
    } else {
        let end = run_end(starts, line, k);
        seq![OutputItem::Line(line as usize)] + (if is_tty {
            image_items(k, end)
        } else {
            seq![]
        }) + output_from(line_count, starts, is_tty, line + 1, end)
    }
}

/// The lines that images start on.
pub open spec fn image_lines(images: Seq<InlineImage>) -> Seq<int> {
    Seq::new(images.len(), |i: int| images[i].line_idx as int)
}

/// What is written without paging: each line, followed by the images that start on it, so that
/// they are drawn where the blank lines below keep room for them.
pub fn direct_output(line_count: usize, images: &[InlineImage], is_tty: bool) -> (r: Vec<OutputItem>)
    ensures
        r@ == output_from(line_count as int, image_lines(images@), is_tty, 0, 0),
{
    let ghost starts = image_lines(images@);
    let n: usize = images.len();
    let mut out: Vec<OutputItem> = Vec::new();
    let mut k: usize = 0;
    let mut line: usize = 0;
    let ghost whole = output_from(line_count as int, starts, is_tty, 0, 0);
    assert(out@ + whole =~= whole);
    while line < line_count
        invariant
            n == images@.len(),
            starts == image_lines(images@),
            line <= line_count,
            k <= n,
            whole == out@ + output_from(
                line_count as int,
                starts,
                is_tty,
                line as int,
                k as int,
            ),
        decreases line_count - line,
    {
        let ghost before = out@;
        let ghost first = k as int;
        let ghost end = run_end(starts, line as int, first);
        out.push(OutputItem::Line(line));
        let ghost with_line = out@;
        assert(with_line =~= before + seq![OutputItem::Line(line)]);
        assert(out@ =~= with_line + (if is_tty {
            image_items(first, first)
        } else {
            seq![]
        }));
        while k < n && images[k].line_idx == line
            invariant
                n == images@.len(),
                starts == image_lines(images@),
                first <= k <= n,
                end == run_end(starts, line as int, first),
                end == run_end(starts, line as int, k as int),
                out@ == with_line + (if is_tty {
                    image_items(first, k as int)
                } else {
                    seq![]
                }),
            decreases n - k,
        {
            if is_tty {
                out.push(OutputItem::Image(k));
                assert(out@ =~= with_line + image_items(first, k + 1));
            }
            assert(starts[k as int] == images@[k as int].line_idx);
            k += 1;
        }
        proof {
            if k < n {
                assert(starts[k as int] == images@[k as int].line_idx);
            }
            assert(end == k);
            let rest = output_from(line_count as int, starts, is_tty, line + 1, end);
            let pics = if is_tty {
                image_items(first, end)
            } else {
                Seq::<OutputItem>::empty()
            };
            assert(before + (seq![OutputItem::Line(line)] + pics + rest) =~= out@ + rest);
        }
        line += 1;
    }
    assert(out@ + seq![] =~= out@);
    out
}

/// The images that are written, in their order.
pub open spec fn images_written(items: Seq<OutputItem>) -> Seq<int>
    decreases items.len(),
{
    if items.len() == 0 {
        seq![]
    } else {
        match items[0] {
            OutputItem::Image(i) => seq![i as int] + images_written(
                items.subrange(1, items.len() as int),
            ),
            OutputItem::Line(_) => images_written(items.subrange(1, items.len() as int)),
        }
    }
}

/// The numbers from `from` up to (not including) `to`.
pub open spec fn numbers(from: int, to: int) -> Seq<int> {
    Seq::new(
        (if to >= from {
            to - from
        } else {
            0
        }) as nat,
        |i: int| from + i,
    )
}

proof fn lemma_images_written_concat(a: Seq<OutputItem>, b: Seq<OutputItem>)
    ensures
        images_written(a + b) == images_written(a) + images_written(b),
    decreases a.len(),
{
    if a.len() == 0 {
        assert(a + b =~= b);
        assert(images_written(a) + images_written(b) =~= images_written(b));
    } else {
        let rest = a.subrange(1, a.len() as int);
        lemma_images_written_concat(rest, b);
        assert((a + b).subrange(1, (a + b).len() as int) =~= rest + b);
        match a[0] {
            OutputItem::Image(i) => {
                assert(seq![i as int] + (images_written(rest) + images_written(b)) =~= (
                seq![i as int] + images_written(rest)) + images_written(b));
            },
            OutputItem::Line(_) => {},
        }
    }
}

proof fn lemma_image_items(from: int, to: int)
    requires
        0 <= from <= to <= usize::MAX,
    ensures
        images_written(image_items(from, to)) == numbers(from, to),
    decreases to - from,
{
    let items = image_items(from, to);
    if from < to {
        lemma_image_items(from + 1, to);
        assert(items.subrange(1, items.len() as int) =~= image_items(from + 1, to));
        assert(items[0] == OutputItem::Image(from as usize));
        assert(seq![from] + numbers(from + 1, to) =~= numbers(from, to));
    } else {
        assert(images_written(items) =~= numbers(from, to));
    }
}

pub proof fn lemma_run_end(starts: Seq<int>, line: int, k: int)
    requires
        0 <= k <= starts.len(),
    ensures
        k <= run_end(starts, line, k) <= starts.len(),
        forall|j: int| k <= j < run_end(starts, line, k) ==> #[trigger] starts[j] == line,
        run_end(starts, line, k) < starts.len() ==> starts[run_end(starts, line, k)] != line,
    decreases starts.len() - k,
{
    if k < starts.len() && starts[k] == line {
        lemma_run_end(starts, line, k + 1);
    }
}

proof fn lemma_all_written(line_count: int, starts: Seq<int>, line: int, k: int)
    requires
        0 <= k <= starts.len() <= usize::MAX,
        forall|i: int, j: int|
            0 <= i < j < starts.len() ==> (#[trigger] starts[i]) <= (#[trigger] starts[j]),
        forall|i: int| k <= i < starts.len() ==> line <= #[trigger] starts[i] < line_count,
    ensures
        images_written(output_from(line_count, starts, true, line, k)) == numbers(
            k,
            starts.len() as int,
        ),
    decreases line_count - line,
{
    if line >= line_count {
        if k < starts.len() {
            assert(starts[k] < line_count);
        }
        assert(numbers(k, starts.len() as int) =~= seq![]);
    } else {
        let end = run_end(starts, line, k);
        lemma_run_end(starts, line, k);
        assert forall|i: int| end <= i < starts.len() implies line + 1 <= #[trigger] starts[i]
            < line_count by {
            if end < i {
                assert(starts[end] <= starts[i]);
            }
            assert(starts[end] != line);
        }
        lemma_all_written(line_count, starts, line + 1, end);
        let head = seq![OutputItem::Line(line as usize)];
        let pics = image_items(k, end);
        let rest = output_from(line_count, starts, true, line + 1, end);
        lemma_images_written_concat(head + pics, rest);
        lemma_images_written_concat(head, pics);
        lemma_image_items(k, end);
        let none = Seq::<OutputItem>::empty();
        assert(images_written(none) =~= seq![]);
        assert(head.subrange(1, head.len() as int) =~= none);
        assert(images_written(head) =~= seq![]);
        assert(numbers(k, end) + numbers(end, starts.len() as int) =~= numbers(
            k,
            starts.len() as int,
        ));
        assert(seq![] + numbers(k, end) =~= numbers(k, end));
    }
}

/// Without paging, a terminal gets every image exactly once and in order, as long as the images
/// come in the order of their lines and start on lines of the document.
pub proof fn law_direct_output_complete(line_count: int, starts: Seq<int>)
    requires
        starts.len() <= usize::MAX,
        forall|i: int, j: int|
            0 <= i < j < starts.len() ==> (#[trigger] starts[i]) <= (#[trigger] starts[j]),
        forall|i: int| 0 <= i < starts.len() ==> 0 <= #[trigger] starts[i] < line_count,
    ensures
        images_written(output_from(line_count, starts, true, 0, 0)) == numbers(
            0,
            starts.len() as int,
        ),
{
    lemma_all_written(line_count, starts, 0, 0);
}

} // verus!
