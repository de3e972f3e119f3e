//! Text as characters: searching, byte offsets, and columns.
use vstd::prelude::*;
use vstd::string::*;
use vstd::utf8::*;
use crate::external;

verus! {

// ---------------------------------------------------------------------------
// Characters
// ---------------------------------------------------------------------------

/// How many bytes a character takes in UTF-8.
pub open spec fn char_size(c: char) -> int {
    encode_scalar(c as u32).len() as int
}

/// How many bytes a text takes in UTF-8.
pub open spec fn byte_len(s: Seq<char>) -> int {
    encode_utf8(s).len() as int
}

/// How many columns a character takes on the screen.
pub open spec fn columns(c: char) -> int {
    if (c as u32) < 0x20 || 0x7f <= (c as u32) < 0xa0 {
        0
    } else if (c as u32) < 0x7f {
        1
    } else {
        match external::unicode_width(c) {
            Some(w) => w as int,
            None => 0,
        }
    }
}

/// How many columns a text takes on the screen.
pub open spec fn text_columns(s: Seq<char>) -> int
    decreases s.len(),
{
    if s.len() == 0 {
        0
    } else {
        text_columns(s.drop_last()) + columns(s.last())
    }
}

/// How many bytes a character takes in UTF-8.
pub fn char_len(c: char) -> (r: usize)
    ensures
        r == char_size(c),
        1 <= r <= 4,
{
    let v: u32 = c as u32;
    proof {
        char_is_scalar(c);
    }
    if v <= 0x7f {
        1
    } else if v <= 0x7ff {
        2
    } else if v <= 0xffff {
        3
    } else {
        4
    }
}

/// How many columns a character takes on the screen.
pub fn columns_of(c: char) -> (r: usize)
    ensures
        r == columns(c),
        r <= 3,
{
    match external::char_width(c) {
        Some(w) => w,
        None => 0,
    }
}

// ---------------------------------------------------------------------------
// Byte offsets
// ---------------------------------------------------------------------------

pub proof fn lemma_encode_concat(a: Seq<char>, b: Seq<char>)
    ensures
        encode_utf8(a + b) == encode_utf8(a) + encode_utf8(b),
    decreases a.len(),
{
    if a.len() == 0 {
        assert(a + b =~= b);
        assert(encode_utf8(a) + encode_utf8(b) =~= encode_utf8(b));
    } else {
        lemma_encode_concat(a.drop_first(), b);
        assert((a + b).drop_first() =~= a.drop_first() + b);
        assert(encode_utf8(a + b) =~= encode_utf8(a) + encode_utf8(b));
    }
}

pub proof fn lemma_encode_one(c: char)
    ensures
        encode_utf8(seq![c]) == encode_scalar(c as u32),
{
    assert(seq![c].drop_first() =~= Seq::<char>::empty());
    assert(encode_utf8(Seq::<char>::empty()) =~= Seq::<u8>::empty());
    assert(encode_utf8(seq![c]) =~= encode_scalar(c as u32));
}

pub proof fn lemma_byte_len_push(s: Seq<char>, c: char)
    ensures
        byte_len(s.push(c)) == byte_len(s) + char_size(c),
{
    assert(s.push(c) =~= s + seq![c]);
    lemma_encode_concat(s, seq![c]);
    lemma_encode_one(c);
}

pub proof fn lemma_char_size(c: char)
    ensures
        1 <= char_size(c) <= 4,
{
    char_is_scalar(c);
}

pub proof fn lemma_byte_len(s: Seq<char>)
    ensures
        s.len() <= byte_len(s) <= 4 * s.len(),
    decreases s.len(),
{
    if s.len() > 0 {
        lemma_byte_len(s.drop_last());
        lemma_byte_len_push(s.drop_last(), s.last());
        lemma_char_size(s.last());
        assert(s.drop_last().push(s.last()) =~= s);
    } else {
        assert(encode_utf8(s) =~= seq![]);
    }
}

/// The length of a string in bytes.
pub fn str_len(s: &str) -> (r: usize)
    ensures
        r == byte_len(s@),
{
    s.as_bytes().len()
}

// ---------------------------------------------------------------------------
// Conversions
// ---------------------------------------------------------------------------

/// The characters of a string.
pub fn to_chars(s: &str) -> (r: Vec<char>)
    ensures
        r@ == s@,
{
    let mut out: Vec<char> = Vec::new();
    for c in it: s.chars()
        invariant
            out@ == s@.subrange(0, it.index()),
            it.seq() == s@,
    {
        out.push(c);
        assert(out@ =~= s@.subrange(0, it.index() + 1));
    }
    assert(out@ =~= s@);
    out
}

/// The string of some characters.
pub fn chars_string(cs: &[char], from: usize, to: usize) -> (r: String)
    requires
        from <= to <= cs@.len(),
    ensures
        r@ == cs@.subrange(from as int, to as int),
{
    let mut out = String::new();
    let mut i: usize = from;
    while i < to
        invariant
            from <= i <= to <= cs@.len(),
            out@ == cs@.subrange(from as int, i as int),
        decreases to - i,
    {
        out.push(cs[i]);
        assert(out@ =~= cs@.subrange(from as int, i + 1));
        i += 1;
    }
    out
}

/// A copy of a string.
pub fn copy_str(s: &str) -> (r: String)
    ensures
        r@ == s@,
{
    s.to_owned()
}

/// Whether two strings are the same text.
pub fn same_text(a: &String, b: &String) -> (r: bool)
    ensures
        r == (a@ == b@),
{
    *a == *b
}

// ---------------------------------------------------------------------------
// Searching
// ---------------------------------------------------------------------------

/// The position of the first `c` in `s` at or after `i`.
pub open spec fn find_char(s: Seq<char>, c: char, i: int) -> Option<int>
    decreases s.len() - i,
{
    if i < 0 || i >= s.len() {
        None
    } else if s[i] == c {
        Some(i)
    } else {
        find_char(s, c, i + 1)
    }
}

pub proof fn lemma_find_char(s: Seq<char>, c: char, i: int)
    requires
        0 <= i,
    ensures
        match find_char(s, c, i) {
            Some(k) => i <= k < s.len() && s[k] == c && (forall|j: int|
                i <= j < k ==> s[j] != c),
            None => forall|j: int| i <= j < s.len() ==> s[j] != c,
        },
    decreases s.len() - i,
{
    if i < s.len() && s[i] != c {
        lemma_find_char(s, c, i + 1);
    }
}

/// The position of the first `c` in `s` at or after `from`.
pub fn position_char(s: &[char], c: char, from: usize) -> (r: Option<usize>)
    ensures
        match r {
            Some(k) => find_char(s@, c, from as int) == Some(k as int) && from <= k < s@.len(),
            None => find_char(s@, c, from as int) is None,
        },
{
    let mut i: usize = from;
    while i < s.len()
        invariant
            from <= i,
            find_char(s@, c, from as int) == find_char(s@, c, i as int),
        decreases s.len() - i,
    {
        if s[i] == c {
            return Some(i);
        }
        i += 1;
    }
    None
}

// ---------------------------------------------------------------------------
// Slicing by byte offsets
// ---------------------------------------------------------------------------

/// The text between two byte offsets; `None` where an offset falls inside a character, lies behind
/// the end, or the offsets are in the wrong order.
pub open spec fn byte_slice(s: Seq<char>, from: int, to: int) -> Option<Seq<char>> {
    let b = encode_utf8(s);
    if from <= to && is_char_boundary(b, from) && is_char_boundary(b, to) {
        Some(decode_utf8(b.subrange(from, to)))
    } else {
        None
    }
}

/// A boundary of a text is a boundary of its part behind an earlier boundary.
pub proof fn lemma_boundary_behind(b: Seq<u8>, from: int, to: int)
    requires
        valid_utf8(b),
        from <= to,
        is_char_boundary(b, from),
        is_char_boundary(b, to),
    ensures
        0 <= from <= to <= b.len(),
        valid_utf8(b.subrange(from, b.len() as int)),
        is_char_boundary(b.subrange(from, b.len() as int), to - from),
        valid_utf8(b.subrange(from, to)),
{
    lemma_boundary_range(b, from);
    lemma_boundary_range(b, to);
    valid_utf8_split(b, from);
    let t = b.subrange(from, b.len() as int);
    if to < b.len() {
        is_char_boundary_iff_not_is_continuation_byte(b, to);
        assert(t[to - from] == b[to]);
        is_char_boundary_iff_not_is_continuation_byte(t, to - from);
    } else {
        is_char_boundary_start_end_of_seq(t);
    }
    valid_utf8_split(t, to - from);
    assert(t.subrange(0, to - from) =~= b.subrange(from, to));
}

/// A boundary lies within the text.
pub proof fn lemma_boundary_range(b: Seq<u8>, k: int)
    requires
        valid_utf8(b),
        is_char_boundary(b, k),
    ensures
        0 <= k <= b.len(),
{
}

/// Behind a character there is a boundary, and decoding its bytes gives the character.
pub proof fn lemma_character(b: Seq<u8>, i: int)
    requires
        valid_utf8(b),
        is_char_boundary(b, i),
        i < b.len(),
    ensures
        0 <= i,
        !is_continuation_byte(b[i]),
        ({
            let c = decode_first_scalar(b.subrange(i, b.len() as int)) as char;
            let e = i + char_size(c);
            &&& i < e <= b.len()
            &&& is_char_boundary(b, e)
            &&& valid_utf8(b.subrange(i, e))
            &&& decode_utf8(b.subrange(i, e)) == seq![c]
        }),
{
    lemma_boundary_range(b, i);
    is_char_boundary_iff_not_is_continuation_byte(b, i);
    valid_utf8_split(b, i);
    let t = b.subrange(i, b.len() as int);
    decode_utf8_first_scalar(t);
    let c = decode_first_scalar(t) as char;
    let size = length_of_first_scalar(t);
    lemma_char_size(c);
    let u = pop_first_scalar(t);
    assert(take_first_scalar(t).len() == size);
    let e = i + size;
    if e < b.len() {
        is_char_boundary_start_end_of_seq(u);
        is_char_boundary_iff_not_is_continuation_byte(u, 0);
        assert(u[0] == b[e]);
        is_char_boundary_iff_not_is_continuation_byte(b, e);
    } else {
        is_char_boundary_start_end_of_seq(b);
    }
    lemma_encode_one(c);
    assert(b.subrange(i, e) =~= encode_utf8(seq![c]));
    encode_utf8_decode_utf8(seq![c]);
    encode_utf8_valid_utf8(seq![c]);
}

/// An ASCII byte is a character, and behind it there is a boundary.
pub proof fn lemma_boundary_after_ascii(b: Seq<u8>, k: int)
    requires
        valid_utf8(b),
        0 <= k < b.len(),
        b[k] < 0x80,
    ensures
        is_char_boundary(b, k),
        is_char_boundary(b, k + 1),
{
    is_char_boundary_iff_not_is_continuation_byte(b, k);
    lemma_character(b, k);
    valid_utf8_split(b, k);
    let t = b.subrange(k, b.len() as int);
    assert(t[0] == b[k]);
    assert(length_of_first_scalar(t) == 1);
    decode_utf8_first_scalar(t);
    assert(take_first_scalar(t).len() == 1);
}

/// The text between two byte offsets.
pub fn slice_text(s: &str, from: usize, to: usize) -> (r: Option<String>)
    ensures
        match r {
            Some(t) => byte_slice(s@, from as int, to as int) == Some(t@),
            None => byte_slice(s@, from as int, to as int) is None,
        },
{
    if from > to || !s.is_char_boundary(from) || !s.is_char_boundary(to) {
        return None;
    }
    let ghost b = encode_utf8(s@);
    proof {
        encode_utf8_valid_utf8(s@);
        lemma_boundary_behind(b, from as int, to as int);
    }
    let tail = s.split_at(from).1;
    let part = tail.split_at(to - from).0;
    proof {
        assert(encode_utf8(part@) =~= b.subrange(from as int, to as int));
        encode_utf8_decode_utf8(part@);
    }
    Some(copy_str(part))
}

/// Slices that follow each other are the slice from the first to the last offset.
pub proof fn lemma_slices_join(s: Seq<char>, a: int, b: int, c: int)
    requires
        a <= b <= c,
        byte_slice(s, a, b) is Some,
        byte_slice(s, b, c) is Some,
    ensures
        byte_slice(s, a, c) == Some((byte_slice(s, a, b)->0) + (byte_slice(s, b, c)->0)),
{
    let e = encode_utf8(s);
    encode_utf8_valid_utf8(s);
    lemma_boundary_behind(e, a, b);
    lemma_boundary_behind(e, b, c);
    lemma_boundary_behind(e, a, c);
    let whole = e.subrange(a, c);
    let tail = e.subrange(a, e.len() as int);
    assert(is_char_boundary(whole, b - a)) by {
        if b < c {
            is_char_boundary_iff_not_is_continuation_byte(e, b);
            assert(whole[b - a] == e[b]);
            is_char_boundary_iff_not_is_continuation_byte(whole, b - a);
        } else {
            is_char_boundary_start_end_of_seq(whole);
        }
    }
    decode_utf8_split(whole, b - a);
    assert(whole.subrange(0, b - a) =~= e.subrange(a, b));
    assert(whole.subrange(b - a, whole.len() as int) =~= e.subrange(b, c));
}

/// The slice over all of a text is the text.
pub proof fn lemma_slice_all(s: Seq<char>)
    ensures
        byte_slice(s, 0, byte_len(s)) == Some(s),
{
    let e = encode_utf8(s);
    encode_utf8_valid_utf8(s);
    is_char_boundary_start_end_of_seq(e);
    assert(e.subrange(0, e.len() as int) =~= e);
    encode_utf8_decode_utf8(s);
}

} // verus!
