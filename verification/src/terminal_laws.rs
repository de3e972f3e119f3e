//! What is found out about the terminal, and what is written without paging.
use vstd::prelude::*;
use vstd::utf8::*;
use crate::kitty_laws;
use crate::state;
use crate::state_laws;
use crate::terminal;
use crate::terminal::{OutputItem, WindowSize};
use crate::text;

verus! {

// ---------------------------------------------------------------------------
// Cells
// ---------------------------------------------------------------------------

/// A cell is as wide as fits into the window as often as there are columns, and as high as fits as
/// often as there are rows. A window with a number missing has no cell.
pub proof fn law_window_cell(w: WindowSize)
    ensures
        terminal::window_cell(w) is Some <==> w.rows > 0 && w.cols > 0 && w.xpixel > 0 && w.ypixel
            > 0,
        terminal::window_cell(w) matches Some((cw, ch)) ==> {
            &&& cw * w.cols <= w.xpixel < (cw + 1) * w.cols
            &&& ch * w.rows <= w.ypixel < (ch + 1) * w.rows
        },
{
    if let Some((cw, ch)) = terminal::window_cell(w) {
        let (x, c) = (w.xpixel as int, w.cols as int);
        let (y, r) = (w.ypixel as int, w.rows as int);
        assert(cw * c <= x && x < (cw + 1) * c) by (nonlinear_arith)
            requires
                cw == x / c,
                0 < c,
        ;
        assert(ch * r <= y && y < (ch + 1) * r) by (nonlinear_arith)
            requires
                ch == y / r,
                0 < r,
        ;
    }
}

proof fn lemma_windows(sizes: Seq<WindowSize>, i: int, k: int)
    requires
        0 <= i <= k,
        forall|j: int|
            i <= j < k && j < sizes.len() ==> terminal::window_cell(#[trigger] sizes[j]) is None,
        k < sizes.len() ==> terminal::window_cell(sizes[k]) is Some,
    ensures
        k < sizes.len() ==> terminal::windows_cell(sizes, i) == terminal::window_cell(sizes[k]),
        k >= sizes.len() ==> terminal::windows_cell(sizes, i) is None,
    decreases k - i,
{
    if i < k && i < sizes.len() {
        assert(terminal::window_cell(sizes[i]) is None);
        lemma_windows(sizes, i + 1, k);
    }
}

/// The first window that has a cell decides, whatever is reported. Without one a report decides,
/// and without a report a cell is 8 pixels wide and 16 high.
pub proof fn law_cell_size(sizes: Seq<WindowSize>, reply: Option<Seq<u8>>, k: int)
    requires
        0 <= k <= sizes.len(),
        forall|j: int| 0 <= j < k ==> terminal::window_cell(#[trigger] sizes[j]) is None,
        k < sizes.len() ==> terminal::window_cell(sizes[k]) is Some,
    ensures
        k < sizes.len() ==> Some(terminal::cell_size(sizes, reply)) == terminal::window_cell(
            sizes[k],
        ),
        k == sizes.len() ==> match reply {
            Some(buf) => match terminal::reported_cell(buf) {
                Some(size) => terminal::cell_size(sizes, reply) == size,
                None => terminal::cell_size(sizes, reply) == (8int, 16int),
            },
            None => terminal::cell_size(sizes, reply) == (8int, 16int),
        },
{
    lemma_windows(sizes, 0, k);
}

/// The report of a cell: ESC [ 6 ; height ; width t.
pub open spec fn report(h: int, w: int) -> Seq<u8> {
    seq![0x1bu8, 0x5bu8] + text::join(
        seq![seq![0x36u8], text::decimal(h), text::decimal(w)],
        0x3b,
    ) + seq![0x74u8]
}

proof fn lemma_number(n: int)
    requires
        0 <= n <= usize::MAX,
    ensures
        text::parse_unsigned(text::decimal(n), usize::MAX as int) == Some(n),
        text::all_digits(text::decimal(n)),
        !text::decimal(n).contains(0x3bu8),
{
    text::lemma_decimal_digits(n);
    let d = text::decimal(n);
    assert(text::is_digit(d[0]));
    if d.contains(0x3bu8) {
        let j = choose|j: int| 0 <= j < d.len() && d[j] == 0x3bu8;
        assert(text::is_digit(d[j]));
    }
}

/// A report is read: the first number behind the 6 is the height, the second the width, whatever
/// comes behind it. A cell without height or width is none.
pub proof fn law_report_read(h: int, w: int, rest: Seq<u8>)
    requires
        0 <= h <= usize::MAX,
        0 <= w <= usize::MAX,
    ensures
        terminal::reported_cell(report(h, w) + rest) == (if h > 0 && w > 0 {
            Some((w, h))
        } else {
            None
        }),
{
    let parts = seq![seq![0x36u8], text::decimal(h), text::decimal(w)];
    let p = text::join(parts, 0x3b);
    let buf = report(h, w) + rest;
    lemma_number(h);
    lemma_number(w);
    let six = seq![0x36u8];
    assert(text::all_digits(six));
    assert(!six.contains(0x3bu8));
    assert forall|k: int| 0 <= k < parts.len() implies !(#[trigger] parts[k]).contains(0x3b)
        && text::all_digits(parts[k]) by {
    }
    kitty_laws::lemma_split_join(parts, 0x3b);
    // The bytes between the introducer and the `t`.
    let two = parts.drop_last();
    let one = two.drop_last();
    assert(one =~= seq![six]);
    assert(two =~= seq![six, text::decimal(h)]);
    assert(text::join(one, 0x3b) == six);
    let a = six.push(0x3b) + text::decimal(h);
    assert(text::join(two, 0x3b) == a);
    assert(p == a.push(0x3b) + text::decimal(w));
    assert forall|j: int| 0 <= j < p.len() implies (text::is_digit(#[trigger] p[j]) || p[j]
        == 0x3b) by {
        if j == 0 {
            assert(p[j] == 0x36);
        } else if 2 <= j < a.len() {
            assert(p[j] == text::decimal(h)[j - 2]);
            assert(text::is_digit(text::decimal(h)[j - 2]));
        } else if j > a.len() {
            assert(p[j] == text::decimal(w)[j - a.len() - 1]);
            assert(text::is_digit(text::decimal(w)[j - a.len() - 1]));
        }
    }
    let t = 2 + p.len() as int;
    assert(buf[0] == 0x1b && buf[1] == 0x5b && buf[t] == 0x74);
    text::lemma_find_byte_unique(buf, 0x1b, 0, 0);
    assert forall|j: int| 2 <= j < t implies buf[j] != 0x74 by {
        assert(buf[j] == p[j - 2]);
        assert(text::is_digit(p[j - 2]) || p[j - 2] == 0x3b);
    }
    text::lemma_find_byte_unique(buf, 0x74, 2, t);
    assert(buf.subrange(2, t) =~= p);
    assert forall|j: int| 0 <= j < p.len() implies #[trigger] p[j] < 0x80 by {
        assert(text::is_digit(p[j]) || p[j] == 0x3b);
    }
    kitty_laws::lemma_ascii_utf8(p);
    assert(parts[0] == six && parts[1] == text::decimal(h) && parts[2] == text::decimal(w));
}

// ---------------------------------------------------------------------------
// To page or not to page
// ---------------------------------------------------------------------------

/// Content fits a terminal exactly if all its lines are shown there at once.
pub proof fn law_fits(line_count: int, height: u16)
    requires
        0 <= line_count,
    ensures
        terminal::fits(line_count, Some(height)) <==> forall|line: int|
            0 <= line < line_count ==> #[trigger] state_laws::shown(
                state::initial(line_count, state::minus(height as int, 1)),
                line,
            ),
        !terminal::fits(line_count, None),
{
    let m = state::initial(line_count, state::minus(height as int, 1));
    if !terminal::fits(line_count, Some(height)) {
        assert(!state_laws::shown(m, line_count - 1));
    }
}

/// Paging is for terminals. It is left out only where that was asked for and the content fits.
pub proof fn law_pages(quit_if_one_screen: bool, fits: bool)
    ensures
        !terminal::pages(false, quit_if_one_screen, fits),
        terminal::pages(true, false, fits),
        terminal::pages(true, true, fits) == !fits,
{
}

/// An `F` anywhere asks for no paging of short content, an `X` for no initialisation; nothing else
/// asks for either.
pub proof fn law_less_flags(a: Seq<char>, c: char, b: Seq<char>)
    ensures
        terminal::less_flags(Some(a + seq!['F'] + b)).0,
        terminal::less_flags(Some(a + seq!['X'] + b)).1,
        c != 'F' ==> terminal::less_flags(Some(a + seq![c])).0 == terminal::less_flags(Some(a)).0,
        c != 'X' ==> terminal::less_flags(Some(a + seq![c])).1 == terminal::less_flags(Some(a)).1,
        terminal::less_flags(Some(seq![])) == (false, false),
        terminal::less_flags(None) == (false, false),
{
    let n = a.len() as int;
    assert((a + seq!['F'] + b)[n] == 'F');
    assert((a + seq!['X'] + b)[n] == 'X');
    if c != 'F' {
        lemma_contains_behind(a, c, 'F');
    }
    if c != 'X' {
        lemma_contains_behind(a, c, 'X');
    }
}

proof fn lemma_contains_behind(a: Seq<char>, c: char, x: char)
    requires
        c != x,
    ensures
        (a + seq![c]).contains(x) == a.contains(x),
{
    let s = a + seq![c];
    if a.contains(x) {
        let j = choose|j: int| 0 <= j < a.len() && a[j] == x;
        assert(s[j] == x);
    }
    if s.contains(x) {
        let j = choose|j: int| 0 <= j < s.len() && s[j] == x;
        assert(a[j] == x);
    }
}

// ---------------------------------------------------------------------------
// Output without paging
// ---------------------------------------------------------------------------

/// The lines that are written, in their order.
pub open spec fn lines_written(items: Seq<OutputItem>) -> Seq<int>
    decreases items.len(),
{
    if items.len() == 0 {
        seq![]
    } else {
        match items.last() {
            OutputItem::Line(i) => lines_written(items.drop_last()).push(i as int),
            OutputItem::Image(_) => lines_written(items.drop_last()),
        }
    }
}

proof fn lemma_lines_written(a: Seq<OutputItem>, b: Seq<OutputItem>)
    ensures
        lines_written(a + b) == lines_written(a) + lines_written(b),
    decreases b.len(),
{
    if b.len() == 0 {
        assert(a + b =~= a);
        assert(lines_written(a) + lines_written(b) =~= lines_written(a));
    } else {
        lemma_lines_written(a, b.drop_last());
        assert((a + b).drop_last() =~= a + b.drop_last());
        assert((a + b).last() == b.last());
        if let OutputItem::Line(i) = b.last() {
            assert((lines_written(a) + lines_written(b.drop_last())).push(i as int)
                =~= lines_written(a) + lines_written(b.drop_last()).push(i as int));
        }
    }
}

proof fn lemma_one_line(line: int)
    requires
        0 <= line <= usize::MAX,
    ensures
        lines_written(seq![OutputItem::Line(line as usize)]) == seq![line],
{
    let head = seq![OutputItem::Line(line as usize)];
    let none = Seq::<OutputItem>::empty();
    assert(head.drop_last() =~= none);
    assert(lines_written(none) =~= Seq::<int>::empty());
    assert(Seq::<int>::empty().push(line) =~= seq![line]);
}

proof fn lemma_no_lines(items: Seq<OutputItem>)
    requires
        forall|j: int| 0 <= j < items.len() ==> #[trigger] items[j] is Image,
    ensures
        lines_written(items) == Seq::<int>::empty(),
    decreases items.len(),
{
    if items.len() > 0 {
        assert(items[items.len() - 1] is Image);
        let init = items.drop_last();
        assert forall|j: int| 0 <= j < init.len() implies #[trigger] init[j] is Image by {
            assert(init[j] == items[j]);
        }
        lemma_no_lines(init);
    }
}

proof fn lemma_all_lines(line_count: int, starts: Seq<int>, is_tty: bool, line: int, k: int)
    requires
        0 <= line <= line_count <= usize::MAX,
    ensures
        lines_written(terminal::output_from(line_count, starts, is_tty, line, k))
            == terminal::numbers(line, line_count),
    decreases line_count - line,
{
    if line < line_count {
        let end = terminal::run_end(starts, line, k);
        let head = seq![OutputItem::Line(line as usize)];
        let pics = if is_tty {
            terminal::image_items(k, end)
        } else {
            Seq::<OutputItem>::empty()
        };
        let rest = terminal::output_from(line_count, starts, is_tty, line + 1, end);
        lemma_all_lines(line_count, starts, is_tty, line + 1, end);
        lemma_no_lines(pics);
        lemma_lines_written(head, pics);
        lemma_lines_written(head + pics, rest);
        lemma_one_line(line);
        assert(seq![line] + Seq::<int>::empty() + terminal::numbers(line + 1, line_count)
            =~= terminal::numbers(line, line_count));
    } else {
        assert(terminal::numbers(line, line_count) =~= seq![]);
    }
}

/// Without paging every line is written once and in order, to a terminal or not.
pub proof fn law_every_line_written(line_count: int, starts: Seq<int>, is_tty: bool)
    requires
        0 <= line_count <= usize::MAX,
    ensures
        lines_written(terminal::output_from(line_count, starts, is_tty, 0, 0))
            == terminal::numbers(0, line_count),
{
    lemma_all_lines(line_count, starts, is_tty, 0, 0);
}

/// What does not go to a terminal gets no images: the output is the lines alone.
pub proof fn law_no_images_elsewhere(line_count: int, starts: Seq<int>, line: int, k: int)
    requires
        0 <= line <= line_count <= usize::MAX,
    ensures
        ({
            let items = terminal::output_from(line_count, starts, false, line, k);
            &&& items.len() == line_count - line
            &&& forall|j: int|
                0 <= j < items.len() ==> #[trigger] items[j] == OutputItem::Line(
                    (line + j) as usize,
                )
        }),
    decreases line_count - line,
{
    let items = terminal::output_from(line_count, starts, false, line, k);
    if line < line_count {
        let end = terminal::run_end(starts, line, k);
        law_no_images_elsewhere(line_count, starts, line + 1, end);
        let rest = terminal::output_from(line_count, starts, false, line + 1, end);
        assert forall|j: int| 0 <= j < items.len() implies #[trigger] items[j] == OutputItem::Line(
            (line + j) as usize,
        ) by {
            if j > 0 {
                assert(items[j] == rest[j - 1]);
            }
        }
    }
}

/// Images are written right behind the line that they start on: what is written up to an image is
/// lines up to its own, and no line behind it.
pub proof fn law_images_behind_line(line_count: int, starts: Seq<int>, p: int, i: usize)
    requires
        0 <= line_count <= usize::MAX,
        starts.len() <= usize::MAX,
        0 <= p < terminal::output_from(line_count, starts, true, 0, 0).len(),
        terminal::output_from(line_count, starts, true, 0, 0)[p] == OutputItem::Image(i),
    ensures
        i < starts.len(),
        lines_written(terminal::output_from(line_count, starts, true, 0, 0).subrange(0, p))
            == terminal::numbers(0, starts[i as int] + 1),
{
    lemma_image_place(line_count, starts, 0, 0, p, i);
}

proof fn lemma_image_place(
    line_count: int,
    starts: Seq<int>,
    line: int,
    k: int,
    p: int,
    i: usize,
)
    requires
        0 <= line <= line_count <= usize::MAX,
        0 <= k <= starts.len() <= usize::MAX,
        0 <= p < terminal::output_from(line_count, starts, true, line, k).len(),
        terminal::output_from(line_count, starts, true, line, k)[p] == OutputItem::Image(i),
    ensures
        i < starts.len(),
        line <= starts[i as int],
        lines_written(terminal::output_from(line_count, starts, true, line, k).subrange(0, p))
            == terminal::numbers(line, starts[i as int] + 1),
    decreases line_count - line,
{
    let items = terminal::output_from(line_count, starts, true, line, k);
    let end = terminal::run_end(starts, line, k);
    terminal::lemma_run_end(starts, line, k);
    let head = seq![OutputItem::Line(line as usize)];
    let pics = terminal::image_items(k, end);
    let rest = terminal::output_from(line_count, starts, true, line + 1, end);
    let here = head + pics;
    lemma_one_line(line);
    if p < here.len() {
        assert(items[p] == pics[p - 1]);
        assert(i == k + p - 1);
        let some = pics.subrange(0, p - 1);
        lemma_no_lines(some);
        lemma_lines_written(head, some);
        assert(items.subrange(0, p) =~= head + some);
        assert(seq![line] + Seq::<int>::empty() =~= terminal::numbers(line, line + 1));
    } else {
        let q = p - here.len();
        assert(items[p] == rest[q]);
        lemma_image_place(line_count, starts, line + 1, end, q, i);
        lemma_no_lines(pics);
        lemma_lines_written(head, pics);
        lemma_lines_written(here, rest.subrange(0, q));
        assert(items.subrange(0, p) =~= here + rest.subrange(0, q));
        assert(seq![line] + Seq::<int>::empty() + terminal::numbers(
            line + 1,
            starts[i as int] + 1,
        ) =~= terminal::numbers(line, starts[i as int] + 1));
    }
}

} // verus!
