//! How a text is cut into lines, which lines are joined, and how much room images get.
use vstd::prelude::*;
use vstd::utf8::*;
use crate::document;
use crate::scan::ScanModel;
use crate::strings;

verus! {

// ---------------------------------------------------------------------------
// Line endings
// ---------------------------------------------------------------------------

/// Lines behind `a` are what they are alone.
proof fn lemma_lines_behind(a: Seq<char>, b: Seq<char>, i: int)
    requires
        0 <= i <= b.len(),
    ensures
        document::lines_from(a + b, a.len() + i) == document::lines_from(b, i),
    decreases b.len() - i,
{
    let s = a + b;
    let n = a.len() as int;
    if i < b.len() {
        strings::lemma_find_char(b, '\n', i);
        strings::lemma_find_char(s, '\n', n + i);
        assert(forall|j: int| 0 <= j < b.len() ==> s[n + j] == b[j]);
        match strings::find_char(b, '\n', i) {
            Some(k) => {
                assert(s[n + k] == '\n');
                assert forall|j: int| n + i <= j < n + k implies s[j] != '\n' by {
                    assert(s[n + (j - n)] == b[j - n]);
                }
                assert(strings::find_char(s, '\n', n + i) == Some(n + k));
                assert(s.subrange(n + i, n + k) =~= b.subrange(i, k));
                lemma_lines_behind(a, b, k + 1);
            },
            None => {
                assert forall|j: int| n + i <= j < s.len() implies s[j] != '\n' by {
                    assert(s[n + (j - n)] == b[j - n]);
                }
                assert(strings::find_char(s, '\n', n + i) is None);
                assert(s.subrange(n + i, s.len() as int) =~= b.subrange(i, b.len() as int));
            },
        }
    }
}

/// A line ends at a newline, and a carriage return right before the newline belongs to the line
/// ending. Without a line ending the rest of the text is a line, unless it is empty.
pub proof fn law_line_endings(line: Seq<char>, rest: Seq<char>)
    requires
        !line.contains('\n'),
    ensures
        line.len() == 0 || line.last() != '\r' ==> document::lines_of(line + seq!['\n'] + rest)
            == seq![line] + document::lines_of(rest),
        document::lines_of(line + seq!['\r', '\n'] + rest) == seq![line] + document::lines_of(rest),
        line.len() > 0 ==> document::lines_of(line) == seq![line],
        document::lines_of(seq![]) == Seq::<Seq<char>>::empty(),
{
    assert forall|j: int| 0 <= j < line.len() implies line[j] != '\n' by {
        if line[j] == '\n' {
            assert(line.contains('\n'));
        }
    }
    strings::lemma_find_char(line, '\n', 0);
    assert(line.subrange(0, line.len() as int) =~= line);
    let cr = line.push('\r');
    lemma_first_line(line, rest);
    lemma_first_line(cr, rest);
    assert(cr.drop_last() =~= line);
    assert(cr + seq!['\n'] + rest =~= line + seq!['\r', '\n'] + rest);
}

proof fn lemma_first_line(line: Seq<char>, rest: Seq<char>)
    requires
        forall|j: int| 0 <= j < line.len() ==> line[j] != '\n',
    ensures
        document::lines_of(line + seq!['\n'] + rest) == seq![document::without_cr(line)]
            + document::lines_of(rest),
{
    let s = line + seq!['\n'] + rest;
    let n = line.len() as int;
    assert(s[n] == '\n');
    assert(forall|j: int| 0 <= j < n ==> s[j] == line[j]);
    strings::lemma_find_char(s, '\n', 0);
    assert(strings::find_char(s, '\n', 0) == Some(n));
    assert(s.subrange(0, n) =~= line);
    lemma_lines_behind(line + seq!['\n'], rest, 0);
}

// ---------------------------------------------------------------------------
// Joined lines
// ---------------------------------------------------------------------------

proof fn lemma_merged_complete(lines: Seq<Seq<char>>, k: int, pending: Option<Seq<char>>)
    requires
        0 <= k,
    ensures
        forall|i: int|
            0 <= i < document::merged_from(lines, k, pending).len() - 1 ==> !document::incomplete(
                #[trigger] document::merged_from(lines, k, pending)[i],
            ),
    decreases lines.len() - k,
{
    let all = document::merged_from(lines, k, pending);
    if k < lines.len() {
        let joined = match pending {
            Some(p) => p + lines[k],
            None => lines[k],
        };
        if document::incomplete(joined) {
            lemma_merged_complete(lines, k + 1, Some(joined));
            let rest = document::merged_from(lines, k + 1, Some(joined));
            assert(all == rest);
            assert forall|i: int| 0 <= i < all.len() - 1 implies !document::incomplete(
                #[trigger] all[i],
            ) by {
                assert(all[i] == rest[i]);
            }
        } else {
            lemma_merged_complete(lines, k + 1, None);
            let rest = document::merged_from(lines, k + 1, None);
            assert(all == seq![joined] + rest);
            assert forall|i: int| 0 <= i < all.len() - 1 implies !document::incomplete(
                #[trigger] all[i],
            ) by {
                if i > 0 {
                    assert(all[i] == rest[i - 1]);
                }
            }
        }
    }
}

/// Joining completes image sequences: of the joined lines only the last can hold one that does not
/// end in it.
pub proof fn law_sequences_completed(input: Seq<char>, i: int)
    requires
        0 <= i < document::merged(input).len() - 1,
    ensures
        !document::incomplete(document::merged(input)[i]),
{
    lemma_merged_complete(document::lines_of(input), 0, None);
}

proof fn lemma_nothing_joined(lines: Seq<Seq<char>>, k: int)
    requires
        0 <= k <= lines.len(),
        forall|i: int| 0 <= i < lines.len() ==> !document::incomplete(#[trigger] lines[i]),
    ensures
        document::merged_from(lines, k, None) == lines.subrange(k, lines.len() as int),
    decreases lines.len() - k,
{
    if k < lines.len() {
        assert(!document::incomplete(lines[k]));
        lemma_nothing_joined(lines, k + 1);
        assert(seq![lines[k]] + lines.subrange(k + 1, lines.len() as int) =~= lines.subrange(
            k,
            lines.len() as int,
        ));
    } else {
        assert(lines.subrange(k, lines.len() as int) =~= seq![]);
    }
}

/// Lines are joined for nothing else: where every image sequence ends in its line, the lines stay as
/// they are.
pub proof fn law_complete_lines_stay(input: Seq<char>)
    requires
        forall|i: int|
            0 <= i < document::lines_of(input).len() ==> !document::incomplete(
                #[trigger] document::lines_of(input)[i],
            ),
    ensures
        document::merged(input) == document::lines_of(input),
{
    let lines = document::lines_of(input);
    lemma_nothing_joined(lines, 0);
    assert(lines.subrange(0, lines.len() as int) =~= lines);
}

// ---------------------------------------------------------------------------
// Room for images
// ---------------------------------------------------------------------------

/// A scanned line takes one line for its text, and just as many blank ones below as its tallest image
/// needs.
pub proof fn law_block(s: ScanModel)
    ensures
        ({
            let b = document::block_lines(s);
            &&& b.len() >= 1
            &&& b[0] == s.text
            &&& forall|r: int| 1 <= r < b.len() ==> (#[trigger] b[r]).len() == 0
            &&& forall|i: int|
                0 <= i < s.images.len() ==> (#[trigger] s.images[i]).height_rows <= b.len()
            &&& b.len() > 1 ==> exists|i: int|
                0 <= i < s.images.len() && (#[trigger] s.images[i]).height_rows == b.len()
        }),
{
    lemma_tallest(s, s.images.len() as int);
    assert(s.images.subrange(0, s.images.len() as int) =~= s.images);
}

proof fn lemma_tallest(s: ScanModel, n: int)
    requires
        0 <= n <= s.images.len(),
    ensures
        ({
            let t = document::tallest(s.images.subrange(0, n));
            &&& 0 <= t
            &&& forall|i: int| 0 <= i < n ==> (#[trigger] s.images[i]).height_rows <= t
            &&& t > 0 ==> exists|i: int|
                0 <= i < n && (#[trigger] s.images[i]).height_rows == t
        }),
    decreases n,
{
    if n > 0 {
        lemma_tallest(s, n - 1);
        let some = s.images.subrange(0, n);
        assert(some.drop_last() =~= s.images.subrange(0, n - 1));
        assert(some.last() == s.images[n - 1]);
    }
}

/// The images of a scanned line are put on its first line, in their order.
pub proof fn law_block_images(s: ScanModel, at: int, i: int)
    requires
        0 <= i < s.images.len(),
    ensures
        document::block_images(s, at).len() == s.images.len(),
        document::block_images(s, at)[i].line_idx == at,
        document::block_images(s, at)[i].image == s.images[i],
{
}

} // verus!
