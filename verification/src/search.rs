//! Searching the plain text of lines, without regard to case.
use vstd::prelude::*;
use vstd::string::*;
use vstd::utf8::*;
use crate::ansi::ParsedLine;
use crate::external;
use crate::strings;
use crate::strings::str_len;

verus! {

/// A match: its line, and its byte range in that line.
#[derive(Clone, Copy, Debug, PartialEq, Eq, Structural)]
pub struct SearchMatch {
    pub line_idx: usize,
    pub start: usize,
    pub end: usize,
}

// ---------------------------------------------------------------------------
// Finding bytes
// ---------------------------------------------------------------------------

/// Whether `p` stands at position `k` of `h`.
pub open spec fn occurs_at(h: Seq<u8>, p: Seq<u8>, k: int) -> bool {
    0 <= k && k + p.len() <= h.len() && h.subrange(k, k + p.len()) == p
}

/// The first position at or after `i` where `p` stands in `h`.
pub open spec fn find_bytes(h: Seq<u8>, p: Seq<u8>, i: int) -> Option<int>
    decreases h.len() + 1 - i,
{
    if i < 0 || i > h.len() {
        None
    } else if occurs_at(h, p, i) {
        Some(i)
    } else {
        find_bytes(h, p, i + 1)
    }
}

pub proof fn lemma_find_bytes(h: Seq<u8>, p: Seq<u8>, i: int)
    requires
        0 <= i,
    ensures
        match find_bytes(h, p, i) {
            Some(k) => i <= k <= h.len() && occurs_at(h, p, k) && (forall|j: int|
                i <= j < k ==> !#[trigger] occurs_at(h, p, j)),
            None => forall|j: int| i <= j ==> !#[trigger] occurs_at(h, p, j),
        },
    decreases h.len() + 1 - i,
{
    if i <= h.len() && !occurs_at(h, p, i) {
        lemma_find_bytes(h, p, i + 1);
    }
}

/// Whether `p` stands at position `k` of `h`.
fn stands_at(h: &[u8], p: &[u8], k: usize) -> (r: bool)
    requires
        k <= h@.len(),
    ensures
        r == occurs_at(h@, p@, k as int),
{
    let m: usize = h.len();
    let n: usize = p.len();
    if m - k < n {
        return false;
    }
    let mut i: usize = 0;
    while i < n
        invariant
            m == h@.len(),
            n == p@.len(),
            k + n <= m,
            i <= n,
            forall|j: int| 0 <= j < i ==> h@[k + j] == p@[j],
        decreases n - i,
    {
        if h[k + i] != p[i] {
            assert(h@.subrange(k as int, k + n)[i as int] != p@[i as int]);
            return false;
        }
        i += 1;
    }
    assert(h@.subrange(k as int, k + n) =~= p@);
    true
}

/// The first position at or after `from` where `p` stands in `h`.
pub fn find_in(h: &[u8], p: &[u8], from: usize) -> (r: Option<usize>)
    requires
        from <= h@.len(),
    ensures
        match r {
            Some(k) => find_bytes(h@, p@, from as int) == Some(k as int) && from <= k <= h@.len(),
            None => find_bytes(h@, p@, from as int) is None,
        },
{
    let n: usize = h.len();
    let mut i: usize = from;
    loop
        invariant
            n == h@.len(),
            from <= i <= n,
            find_bytes(h@, p@, from as int) == find_bytes(h@, p@, i as int),
        decreases n - i,
    {
        if stands_at(h, p, i) {
            return Some(i);
        }
        if i == n {
            assert(find_bytes(h@, p@, n + 1) is None);
            return None;
        }
        i += 1;
    }
}

// ---------------------------------------------------------------------------
// Matches
// ---------------------------------------------------------------------------

/// The matches of `p` in the line `h` from byte `start` on; the next search starts one byte behind
/// the start of a match. `None` where a search would start inside a character or behind the end,
/// or an offset is too large for the machine.
pub open spec fn matches_from(h: Seq<u8>, p: Seq<u8>, start: int, line_idx: int, len: int) -> Option<
    Seq<SearchMatch>,
>
    decreases h.len() - start,
{
    if start < 0 || start > h.len() || !is_char_boundary(h, start) {
        None
    } else {
        match find_bytes(h, p, start) {
            None => Some(seq![]),
            Some(k) => {
                proof {
                    lemma_find_bytes(h, p, start);
                }
                if k + len > usize::MAX || k >= h.len() {
                    None
                } else {
                    match matches_from(h, p, k + 1, line_idx, len) {
                        Some(rest) => Some(
                            seq![
                                SearchMatch {
                                    line_idx: line_idx as usize,
                                    start: k as usize,
                                    end: (k + len) as usize,
                                },
                            ] + rest,
                        ),
                        None => None,
                    }
                }
            },
        }
    }
}

/// The matches in one line, given in lowercase.
pub open spec fn line_matched(lower: Seq<char>, query: Seq<char>, line_idx: int, len: int) -> Option<
    Seq<SearchMatch>,
> {
    matches_from(encode_utf8(lower), encode_utf8(query), 0, line_idx, len)
}

/// The matches in the lines from the `k`-th on. A match is as long as the query as it was typed.
pub open spec fn lines_matched(query: Seq<char>, lines: Seq<Seq<char>>, k: int) -> Option<
    Seq<SearchMatch>,
>
    decreases lines.len() - k,
{
    if k < 0 || k >= lines.len() {
        Some(seq![])
    } else {
        match (
            line_matched(
                external::lowered(lines[k]),
                external::lowered(query),
                k,
                strings::byte_len(query),
            ),
            lines_matched(query, lines, k + 1),
        ) {
            (Some(a), Some(b)) => Some(a + b),
            _ => None,
        }
    }
}

/// The plain texts of lines.
pub open spec fn plain_texts(content: Seq<ParsedLine>) -> Seq<Seq<char>> {
    Seq::new(content.len(), |i: int| content[i].plain@)
}

/// All matches of a query; an empty query has none.
pub open spec fn search_matches(query: Seq<char>, lines: Seq<Seq<char>>) -> Option<
    Seq<SearchMatch>,
> {
    if query.len() == 0 {
        Some(seq![])
    } else {
        lines_matched(query, lines, 0)
    }
}

/// The matches in one line, given in lowercase like the query; `len` is the length of the query as
/// it was typed.
pub fn find_line_matches(lower: &str, query: &str, line_idx: usize, len: usize) -> (r: Option<
    Vec<SearchMatch>,
>)
    ensures
        match r {
            Some(v) => line_matched(lower@, query@, line_idx as int, len as int) == Some(v@),
            None => line_matched(lower@, query@, line_idx as int, len as int) is None,
        },
{
    let h = lower.as_bytes();
    let p = query.as_bytes();
    let n: usize = h.len();
    let mut out: Vec<SearchMatch> = Vec::new();
    let mut start: usize = 0;
    let ghost whole = line_matched(lower@, query@, line_idx as int, len as int);
    assert(match whole {
        Some(w) => out@ + w == w,
        None => true,
    });
    loop
        invariant
            n == h@.len(),
            h@ == encode_utf8(lower@),
            p@ == encode_utf8(query@),
            start <= n,
            whole == line_matched(lower@, query@, line_idx as int, len as int),
            whole == (match matches_from(h@, p@, start as int, line_idx as int, len as int) {
                Some(rest) => Some(out@ + rest),
                None => None,
            }),
        decreases n - start,
    {
        if !lower.is_char_boundary(start) {
            return None;
        }
        let k: usize = match find_in(h, p, start) {
            Some(k) => k,
            None => {
                assert(out@ + seq![] =~= out@);
                return Some(out);
            },
        };
        if k >= n || usize::MAX - k < len {
            return None;
        }
        let ghost before = out@;
        let m = SearchMatch { line_idx, start: k, end: k + len };
        out.push(m);
        proof {
            if let Some(rest) = matches_from(h@, p@, k + 1, line_idx as int, len as int) {
                assert(before + (seq![m] + rest) =~= out@ + rest);
            }
        }
        start = k + 1;
    }
}

/// All matches of a query; `None` where a search would start inside a character.
pub fn try_find_search_matches(query: &str, content: &[ParsedLine]) -> (r: Option<Vec<SearchMatch>>)
    ensures
        match r {
            Some(v) => search_matches(query@, plain_texts(content@)) == Some(v@),
            None => search_matches(query@, plain_texts(content@)) is None,
        },
{
    let mut out: Vec<SearchMatch> = Vec::new();
    if query.is_empty() {
        return Some(out);
    }
    let ghost lines = plain_texts(content@);
    let len = str_len(query);
    let lower_query = external::to_lowercase(query);
    let n: usize = content.len();
    let mut i: usize = 0;
    let ghost whole = lines_matched(query@, lines, 0);
    assert(match whole {
        Some(w) => out@ + w == w,
        None => true,
    });
    while i < n
        invariant
            n == content@.len(),
            i <= n,
            query@.len() > 0,
            lines == plain_texts(content@),
            len == strings::byte_len(query@),
            lower_query@ == external::lowered(query@),
            whole == lines_matched(query@, lines, 0),
            whole == (match lines_matched(query@, lines, i as int) {
                Some(rest) => Some(out@ + rest),
                None => None,
            }),
        decreases n - i,
    {
        let lower = external::to_lowercase(content[i].plain.as_str());
        assert(lines[i as int] == content@[i as int].plain@);
        let found = match find_line_matches(lower.as_str(), lower_query.as_str(), i, len) {
            Some(v) => v,
            None => return None,
        };
        let ghost before = out@;
        let mut j: usize = 0;
        assert(out@ =~= before + found@.subrange(0, 0));
        while j < found.len()
            invariant
                j <= found@.len(),
                out@ == before + found@.subrange(0, j as int),
            decreases found.len() - j,
        {
            out.push(found[j]);
            assert(out@ =~= before + found@.subrange(0, j + 1));
            j += 1;
        }
        assert(found@.subrange(0, j as int) =~= found@);
        proof {
            if let Some(rest) = lines_matched(query@, lines, i + 1) {
                assert(before + (found@ + rest) =~= out@ + rest);
            }
        }
        i += 1;
    }
    assert(out@ + seq![] =~= out@);
    Some(out)
}

/// All matches of a query, without regard to case.
pub fn find_search_matches(query: &str, content: &[ParsedLine]) -> (r: Vec<SearchMatch>)
    requires
        search_matches(query@, plain_texts(content@)) is Some,
    ensures
        search_matches(query@, plain_texts(content@)) == Some(r@),
{
    try_find_search_matches(query, content).unwrap()
}

// ---------------------------------------------------------------------------
// Laws
// ---------------------------------------------------------------------------

/// The matches in a line are exactly the places where the query stands, in ascending order.
pub open spec fn lists_occurrences(
    ms: Seq<SearchMatch>,
    h: Seq<u8>,
    p: Seq<u8>,
    start: int,
    line_idx: int,
    len: int,
) -> bool {
    &&& forall|i: int|
        0 <= i < ms.len() ==> {
            let m = #[trigger] ms[i];
            &&& m.line_idx == line_idx
            &&& m.start >= start
            &&& m.end == m.start + len
            &&& occurs_at(h, p, m.start as int)
        }
    &&& forall|i: int, j: int|
        0 <= i < j < ms.len() ==> (#[trigger] ms[i]).start < (#[trigger] ms[j]).start
    &&& forall|k: int|
        start <= k && #[trigger] occurs_at(h, p, k) ==> exists|i: int|
            0 <= i < ms.len() && (#[trigger] ms[i]).start == k
}

proof fn lemma_matches(h: Seq<u8>, p: Seq<u8>, start: int, line_idx: int, len: int)
    requires
        0 <= start,
        0 <= line_idx <= usize::MAX,
        h.len() <= usize::MAX,
        0 <= len,
        matches_from(h, p, start, line_idx, len) is Some,
    ensures
        lists_occurrences(
            matches_from(h, p, start, line_idx, len)->0,
            h,
            p,
            start,
            line_idx,
            len,
        ),
    decreases h.len() - start,
{
    lemma_find_bytes(h, p, start);
    let ms = matches_from(h, p, start, line_idx, len)->0;
    if let Some(k) = find_bytes(h, p, start) {
        lemma_matches(h, p, k + 1, line_idx, len);
        let rest = matches_from(h, p, k + 1, line_idx, len)->0;
        let first = ms[0];
        assert(first.start == k);
        assert forall|i: int| 0 <= i < ms.len() implies {
            let m = #[trigger] ms[i];
            &&& m.line_idx == line_idx
            &&& m.start >= start
            &&& m.end == m.start + len
            &&& occurs_at(h, p, m.start as int)
        } by {
            if i > 0 {
                assert(ms[i] == rest[i - 1]);
            }
        }
        assert forall|i: int, j: int| 0 <= i < j < ms.len() implies (#[trigger] ms[i]).start < (
        #[trigger] ms[j]).start by {
            assert(ms[j] == rest[j - 1]);
            if i > 0 {
                assert(ms[i] == rest[i - 1]);
            }
        }
        assert forall|x: int| start <= x && #[trigger] occurs_at(h, p, x) implies exists|i: int|
            0 <= i < ms.len() && (#[trigger] ms[i]).start == x by {
            if x == k {
                assert(ms[0].start == x);
            } else {
                assert(x > k);
                let i = choose|i: int| 0 <= i < rest.len() && (#[trigger] rest[i]).start == x;
                assert(ms[i + 1] == rest[i]);
            }
        }
    }
}

/// The matches of a line are exactly the places where the query stands in it (both in lowercase),
/// in ascending order; overlapping ones are all listed.
pub proof fn law_matches_are_occurrences(
    lower: Seq<char>,
    query: Seq<char>,
    line_idx: int,
    len: int,
)
    requires
        0 <= line_idx <= usize::MAX,
        strings::byte_len(lower) <= usize::MAX,
        0 <= len,
        line_matched(lower, query, line_idx, len) is Some,
    ensures
        lists_occurrences(
            line_matched(lower, query, line_idx, len)->0,
            encode_utf8(lower),
            encode_utf8(query),
            0,
            line_idx,
            len,
        ),
{
    lemma_matches(encode_utf8(lower), encode_utf8(query), 0, line_idx, len);
}

/// Matches are in the order of their lines, and within a line in the order of their starts.
pub open spec fn in_order(ms: Seq<SearchMatch>) -> bool {
    forall|i: int, j: int|
        0 <= i < j < ms.len() ==> (#[trigger] ms[i]).line_idx < (#[trigger] ms[j]).line_idx || (
        ms[i].line_idx == ms[j].line_idx && ms[i].start < ms[j].start)
}

/// Whether some match is on the given line and starts at the given byte.
pub open spec fn has_match(ms: Seq<SearchMatch>, line_idx: int, start: int) -> bool {
    exists|i: int|
        0 <= i < ms.len() && (#[trigger] ms[i]).line_idx == line_idx && ms[i].start == start
}

/// A machine can hold the lowercase form of every line.
pub open spec fn lines_fit(lines: Seq<Seq<char>>) -> bool {
    &&& lines.len() <= usize::MAX
    &&& forall|i: int|
        0 <= i < lines.len() ==> strings::byte_len(external::lowered(#[trigger] lines[i]))
            <= usize::MAX
}

proof fn lemma_lines_matched(query: Seq<char>, lines: Seq<Seq<char>>, k: int)
    requires
        0 <= k <= lines.len(),
        lines_fit(lines),
        lines_matched(query, lines, k) is Some,
    ensures
        ({
            let ms = lines_matched(query, lines, k)->0;
            let p = encode_utf8(external::lowered(query));
            &&& in_order(ms)
            &&& forall|i: int| 0 <= i < ms.len() ==> k <= (#[trigger] ms[i]).line_idx < lines.len()
            &&& forall|line: int, x: int|
                k <= line < lines.len() && 0 <= x ==> #[trigger] has_match(ms, line, x)
                    == occurs_at(encode_utf8(external::lowered(lines[line])), p, x)
        }),
    decreases lines.len() - k,
{
    if k < lines.len() {
        let h = encode_utf8(external::lowered(lines[k]));
        let p = encode_utf8(external::lowered(query));
        let len = strings::byte_len(query);
        assert(strings::byte_len(external::lowered(lines[k])) <= usize::MAX);
        lemma_matches(h, p, 0, k, len);
        lemma_lines_matched(query, lines, k + 1);
        let a = line_matched(
            external::lowered(lines[k]),
            external::lowered(query),
            k,
            len,
        )->0;
        let b = lines_matched(query, lines, k + 1)->0;
        let ms = lines_matched(query, lines, k)->0;
        assert(ms == a + b);
        assert forall|i: int| 0 <= i < ms.len() implies k <= (#[trigger] ms[i]).line_idx
            < lines.len() by {
            if i < a.len() {
                assert(ms[i] == a[i]);
            } else {
                assert(ms[i] == b[i - a.len()]);
            }
        }
        assert forall|i: int, j: int| 0 <= i < j < ms.len() implies (#[trigger] ms[i]).line_idx < (
        #[trigger] ms[j]).line_idx || (ms[i].line_idx == ms[j].line_idx && ms[i].start
            < ms[j].start) by {
            if j < a.len() {
                assert(ms[i] == a[i] && ms[j] == a[j]);
            } else if i >= a.len() {
                assert(ms[i] == b[i - a.len()] && ms[j] == b[j - a.len()]);
            } else {
                assert(ms[i] == a[i] && ms[j] == b[j - a.len()]);
            }
        }
        assert forall|line: int, x: int|
            k <= line < lines.len() && 0 <= x implies #[trigger] has_match(ms, line, x)
            == occurs_at(encode_utf8(external::lowered(lines[line])), p, x) by {
            if line == k {
                if occurs_at(h, p, x) {
                    let i = choose|i: int| 0 <= i < a.len() && (#[trigger] a[i]).start == x;
                    assert(ms[i] == a[i]);
                }
                if has_match(ms, line, x) {
                    let i = choose|i: int|
                        0 <= i < ms.len() && (#[trigger] ms[i]).line_idx == line && ms[i].start
                            == x;
                    if i < a.len() {
                        assert(ms[i] == a[i]);
                    } else {
                        assert(ms[i] == b[i - a.len()]);
                    }
                }
            } else {
                if has_match(b, line, x) {
                    let i = choose|i: int|
                        0 <= i < b.len() && (#[trigger] b[i]).line_idx == line && b[i].start == x;
                    assert(ms[i + a.len()] == b[i]);
                }
                if has_match(ms, line, x) {
                    let i = choose|i: int|
                        0 <= i < ms.len() && (#[trigger] ms[i]).line_idx == line && ms[i].start
                            == x;
                    if i < a.len() {
                        assert(ms[i] == a[i]);
                    } else {
                        assert(ms[i] == b[i - a.len()]);
                        assert(has_match(b, line, x));
                    }
                }
            }
        }
    }
}

/// A search finds exactly the places where the query stands, without regard to case, and lists
/// them in the order of the text.
pub proof fn law_search_complete(query: Seq<char>, lines: Seq<Seq<char>>, line: int, x: int)
    requires
        query.len() > 0,
        lines_fit(lines),
        search_matches(query, lines) is Some,
        0 <= line < lines.len(),
        0 <= x,
    ensures
        in_order(search_matches(query, lines)->0),
        has_match(search_matches(query, lines)->0, line, x) == occurs_at(
            encode_utf8(external::lowered(lines[line])),
            encode_utf8(external::lowered(query)),
            x,
        ),
{
    lemma_lines_matched(query, lines, 0);
    assert(has_match(search_matches(query, lines)->0, line, x) == occurs_at(
        encode_utf8(external::lowered(lines[line])),
        encode_utf8(external::lowered(query)),
        x,
    ));
}

/// Every match is on a line of the text.
pub proof fn law_matches_on_lines(query: Seq<char>, lines: Seq<Seq<char>>, i: int)
    requires
        lines_fit(lines),
        search_matches(query, lines) is Some,
        0 <= i < (search_matches(query, lines)->0).len(),
    ensures
        (search_matches(query, lines)->0)[i].line_idx < lines.len(),
{
    lemma_lines_matched(query, lines, 0);
}

proof fn lemma_searchable(h: Seq<u8>, p: Seq<u8>, start: int, line_idx: int, len: int)
    requires
        valid_utf8(h),
        is_char_boundary(h, start),
        p.len() > 0,
        p[0] < 0x80,
        0 <= len,
        h.len() + len <= usize::MAX,
    ensures
        matches_from(h, p, start, line_idx, len) is Some,
    decreases h.len() - start,
{
    strings::lemma_boundary_range(h, start);
    lemma_find_bytes(h, p, start);
    if let Some(k) = find_bytes(h, p, start) {
        assert(h.subrange(k, k + p.len())[0] == h[k]);
        assert(h[k] < 0x80);
        is_char_boundary_iff_not_is_continuation_byte(h, k);
        strings::lemma_boundary_after_ascii(h, k);
        lemma_searchable(h, p, k + 1, line_idx, len);
    }
}

/// Where the lowercase query starts with an ASCII character, a line can always be searched, as
/// long as line and query fit the machine.
pub proof fn law_ascii_query_searchable(
    lower: Seq<char>,
    query: Seq<char>,
    line_idx: int,
    len: int,
)
    requires
        query.len() > 0,
        (query[0] as u32) < 0x80,
        0 <= len,
        strings::byte_len(lower) + len <= usize::MAX,
    ensures
        line_matched(lower, query, line_idx, len) is Some,
{
    let h = encode_utf8(lower);
    let p = encode_utf8(query);
    encode_utf8_valid_utf8(lower);
    is_char_boundary_start_end_of_seq(h);
    let v = query[0] as u32;
    assert(v & 0x7F == v) by (bit_vector)
        requires
            v < 0x80,
    ;
    assert(p[0] == encode_scalar(v)[0]);
    lemma_searchable(h, p, 0, line_idx, len);
}

/// The lowercase form of an ASCII text is as long, and ASCII too.
proof fn lemma_ascii_lowered(s: Seq<char>)
    requires
        is_ascii_chars(s),
    ensures
        external::lowered(s).len() == s.len(),
        is_ascii_chars(external::lowered(s)),
        strings::byte_len(external::lowered(s)) == strings::byte_len(s) == s.len(),
{
    let t = external::lowered(s);
    assert forall|i: int| 0 <= i < t.len() implies 0 <= #[trigger] (t[i] as nat) < 128 by {
        assert(0 <= (s[i] as nat) < 128);
    }
    assert(is_ascii_chars(t));
    is_ascii_chars_encode_utf8(s);
    is_ascii_chars_encode_utf8(t);
}

proof fn lemma_ascii_lines(query: Seq<char>, lines: Seq<Seq<char>>, k: int)
    requires
        0 <= k,
        query.len() > 0,
        is_ascii_chars(query),
        forall|i: int|
            0 <= i < lines.len() ==> is_ascii_chars(#[trigger] lines[i]) && lines[i].len()
                + query.len() <= usize::MAX,
    ensures
        lines_matched(query, lines, k) is Some,
    decreases lines.len() - k,
{
    if k < lines.len() {
        lemma_ascii_lowered(query);
        lemma_ascii_lowered(lines[k]);
        let q = external::lowered(query);
        assert((q[0] as nat) < 128);
        law_ascii_query_searchable(external::lowered(lines[k]), q, k, query.len() as int);
        lemma_ascii_lines(query, lines, k + 1);
    }
}

/// ASCII text can always be searched for an ASCII query, as long as a line and the query together
/// fit the machine.
pub proof fn law_ascii_search(query: Seq<char>, lines: Seq<Seq<char>>)
    requires
        is_ascii_chars(query),
        forall|i: int|
            0 <= i < lines.len() ==> is_ascii_chars(#[trigger] lines[i]) && lines[i].len()
                + query.len() <= usize::MAX,
    ensures
        search_matches(query, lines) is Some,
{
    if query.len() > 0 {
        lemma_ascii_lines(query, lines, 0);
    }
}

proof fn lemma_match_lengths(query: Seq<char>, lines: Seq<Seq<char>>, k: int)
    requires
        0 <= k <= lines.len(),
        lines_fit(lines),
        lines_matched(query, lines, k) is Some,
    ensures
        forall|i: int|
            0 <= i < (lines_matched(query, lines, k)->0).len() ==> (
            #[trigger] (lines_matched(query, lines, k)->0)[i]).end == (lines_matched(
                query,
                lines,
                k,
            )->0)[i].start + strings::byte_len(query),
    decreases lines.len() - k,
{
    if k < lines.len() {
        let h = encode_utf8(external::lowered(lines[k]));
        let p = encode_utf8(external::lowered(query));
        let len = strings::byte_len(query);
        assert(strings::byte_len(external::lowered(lines[k])) <= usize::MAX);
        lemma_matches(h, p, 0, k, len);
        lemma_match_lengths(query, lines, k + 1);
        let a = line_matched(
            external::lowered(lines[k]),
            external::lowered(query),
            k,
            len,
        )->0;
        let b = lines_matched(query, lines, k + 1)->0;
        let ms = lines_matched(query, lines, k)->0;
        assert(ms == a + b);
        assert forall|i: int| 0 <= i < ms.len() implies (#[trigger] ms[i]).end == ms[i].start
            + len by {
            if i < a.len() {
                assert(ms[i] == a[i]);
            } else {
                assert(ms[i] == b[i - a.len()]);
            }
        }
    }
}

/// Every match is as many bytes long as the query.
pub proof fn law_match_length(query: Seq<char>, lines: Seq<Seq<char>>, i: int)
    requires
        lines_fit(lines),
        search_matches(query, lines) is Some,
        0 <= i < (search_matches(query, lines)->0).len(),
    ensures
        ({
            let m = (search_matches(query, lines)->0)[i];
            m.end == m.start + strings::byte_len(query)
        }),
{
    lemma_match_lengths(query, lines, 0);
}

/// Whether two ASCII characters are one letter, or the same character.
pub open spec fn same_letter(a: char, b: char) -> bool {
    ||| a == b
    ||| 'A' <= a <= 'Z' && b as u32 == a as u32 + 32
    ||| 'A' <= b <= 'Z' && a as u32 == b as u32 + 32
}

/// A search in ASCII text finds the query wherever its letters stand, in upper or lower case.
pub proof fn law_case_ignored(query: Seq<char>, lines: Seq<Seq<char>>, line: int, x: int)
    requires
        query.len() > 0,
        lines.len() <= usize::MAX,
        is_ascii_chars(query),
        forall|i: int|
            0 <= i < lines.len() ==> is_ascii_chars(#[trigger] lines[i]) && lines[i].len()
                + query.len() <= usize::MAX,
        0 <= line < lines.len(),
        0 <= x,
    ensures
        search_matches(query, lines) is Some,
        has_match(search_matches(query, lines)->0, line, x) <==> x + query.len()
            <= lines[line].len() && forall|j: int|
            0 <= j < query.len() ==> same_letter(lines[line][x + j], #[trigger] query[j]),
{
    law_ascii_search(query, lines);
    assert(lines_fit(lines)) by {
        assert forall|i: int| 0 <= i < lines.len() implies strings::byte_len(
            external::lowered(#[trigger] lines[i]),
        ) <= usize::MAX by {
            lemma_ascii_lowered(lines[i]);
        }
    }
    law_search_complete(query, lines, line, x);
    let (s, q) = (lines[line], query);
    let (ls, lq) = (external::lowered(s), external::lowered(q));
    lemma_ascii_lowered(s);
    lemma_ascii_lowered(q);
    is_ascii_chars_encode_utf8(ls);
    is_ascii_chars_encode_utf8(lq);
    let (h, p) = (encode_utf8(ls), encode_utf8(lq));
    assert forall|j: int| 0 <= j < q.len() && x + q.len() <= s.len() implies (h[x + j] == p[j]
        <==> same_letter(s[x + j], #[trigger] q[j])) by {
        assert(0 <= (s[x + j] as nat) < 128);
        assert(0 <= (q[j] as nat) < 128);
        assert(ls[x + j] == external::ascii_lower(s[x + j]));
        assert(lq[j] == external::ascii_lower(q[j]));
        assert(h[x + j] == ls[x + j] as u8);
        assert(p[j] == lq[j] as u8);
    }
    if x + q.len() <= s.len() {
        let part = h.subrange(x, x + p.len());
        if occurs_at(h, p, x) {
            assert forall|j: int| 0 <= j < q.len() implies same_letter(
                s[x + j],
                #[trigger] q[j],
            ) by {
                assert(part[j] == h[x + j]);
            }
        }
        if forall|j: int| 0 <= j < q.len() ==> same_letter(s[x + j], #[trigger] q[j]) {
            assert forall|j: int| 0 <= j < p.len() implies part[j] == p[j] by {
                assert(same_letter(s[x + j], q[j]));
            }
            assert(part =~= p);
        }
    }
}

} // verus!
