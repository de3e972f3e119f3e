//! Where image sequences begin and end, and where the images of a line are.
use vstd::prelude::*;
use vstd::utf8::*;
use crate::document;
use crate::document_laws;
use crate::image::ImageModel;
use crate::kitty;
use crate::kitty_laws;
use crate::scan;
use crate::scan::{ScanModel, ScanToken};
use crate::screen_laws;
use crate::sixel;
use crate::size_laws;
use crate::strings;
use crate::text;

verus! {

// ---------------------------------------------------------------------------
// Ends of sequences
// ---------------------------------------------------------------------------

/// Bytes that end no sequence.
pub open spec fn endless(c: Seq<u8>) -> bool {
    forall|j: int| 0 <= j < c.len() ==> #[trigger] c[j] != 0x1b && c[j] != 0x9c
}

proof fn lemma_sixel_end(d: Seq<u8>, i: int, e: int)
    requires
        0 <= i <= e <= d.len(),
        forall|j: int| i <= j < e ==> #[trigger] d[j] != 0x1b && d[j] != 0x9c,
    ensures
        sixel::sixel_end_from(d, i) == sixel::sixel_end_from(d, e),
    decreases e - i,
{
    if i < e {
        assert(d[i] != 0x1b && d[i] != 0x9c);
        lemma_sixel_end(d, i + 1, e);
    }
}

/// A sixel sequence starts with ESC P and ends behind the first string terminator, ESC \ or its
/// one-byte form; without one it does not end.
pub proof fn law_sixel_end(before: Seq<u8>, c: Seq<u8>, rest: Seq<u8>)
    requires
        endless(c),
    ensures
        ({
            let start = before + seq![0x1bu8, 0x50u8] + c;
            &&& sixel::sixel_end(start + seq![0x1bu8, 0x5cu8] + rest, before.len() as int) == Some(
                (start.len() + 2) as int,
            )
            &&& sixel::sixel_end(start + seq![0x9cu8] + rest, before.len() as int) == Some(
                (start.len() + 1) as int,
            )
            &&& sixel::sixel_end(start, before.len() as int) is None
        }),
{
    let start = before + seq![0x1bu8, 0x50u8] + c;
    let i = before.len() as int + 2;
    let e = start.len() as int;
    let two = start + seq![0x1bu8, 0x5cu8] + rest;
    let one = start + seq![0x9cu8] + rest;
    assert forall|j: int| i <= j < e implies #[trigger] start[j] != 0x1b && start[j] != 0x9c by {
        assert(start[j] == c[j - i]);
    }
    assert forall|j: int| i <= j < e implies #[trigger] two[j] != 0x1b && two[j] != 0x9c by {
        assert(two[j] == start[j]);
    }
    assert forall|j: int| i <= j < e implies #[trigger] one[j] != 0x1b && one[j] != 0x9c by {
        assert(one[j] == start[j]);
    }
    lemma_sixel_end(start, i, e);
    lemma_sixel_end(two, i, e);
    lemma_sixel_end(one, i, e);
    assert(two[e] == 0x1b && two[e + 1] == 0x5c);
    assert(one[e] == 0x9c);
}

proof fn lemma_st_end(d: Seq<u8>, i: int, e: int)
    requires
        0 <= i <= e,
        e + 1 < d.len(),
        d[e] == 0x1b,
        d[e + 1] == 0x5c,
        forall|j: int| i <= j < e ==> #[trigger] d[j] != 0x1b,
    ensures
        kitty::st_end_from(d, i) == Some(e + 2),
    decreases e - i,
{
    if i < e {
        assert(d[i] != 0x1b);
        lemma_st_end(d, i + 1, e);
    }
}

/// The entry that announces another chunk.
pub open spec fn announces(control: Seq<u8>) -> bool {
    text::split(control, 0x2c).contains(seq![0x6du8, 0x3du8, 0x31u8])
}

/// A chunk in a sequence: where it ends, and whether it announces another.
proof fn lemma_chunk_span(d: Seq<u8>, i: int, control: Seq<u8>, payload: Seq<u8>, tail: Seq<u8>)
    requires
        0 <= i <= d.len(),
        d.subrange(i, d.len() as int) == kitty::chunk_bytes(control, payload) + tail,
        !control.contains(0x3b),
        !control.contains(0x1b),
        !payload.contains(0x1b),
    ensures
        ({
            let e = i + kitty::chunk_bytes(control, payload).len();
            &&& e <= d.len()
            &&& kitty::st_end_from(d, i + 2) == Some(e)
            &&& kitty::single_chunk_end(d, i) == Some(e)
            &&& kitty::has_more(d.subrange(i, e)) == announces(control)
            &&& d.subrange(e, d.len() as int) == tail
        }),
{
    let c = kitty::chunk_bytes(control, payload);
    let t = d.subrange(i, d.len() as int);
    let e = i + c.len();
    assert(t.len() == c.len() + tail.len());
    assert forall|j: int| 0 <= j < c.len() implies d[i + j] == #[trigger] c[j] by {
        assert(t[j] == d[i + j]);
    }
    assert(d.subrange(i, e) =~= c);
    assert(d.subrange(e, d.len() as int) =~= tail) by {
        assert forall|j: int| 0 <= j < tail.len() implies d[e + j] == #[trigger] tail[j] by {
            assert(t[c.len() + j] == d[i + (c.len() + j)]);
        }
    }
    assert(c[0] == 0x1b && c[1] == 0x5f && c[2] == 0x47);
    let m = c.len() - 2;
    assert(c[m] == 0x1b && c[m + 1] == 0x5c);
    assert forall|j: int| i + 2 <= j < i + m implies #[trigger] d[j] != 0x1b by {
        let x = j - i;
        assert(d[i + x] == c[x]);
        if 3 <= x < 3 + control.len() {
            assert(c[x] == control[x - 3]);
            assert(control.contains(control[x - 3]));
        } else if x > 3 + control.len() {
            assert(c[x] == payload[x - 4 - control.len()]);
            assert(payload.contains(payload[x - 4 - control.len()]));
        }
    }
    assert(d[i + m] == c[m] && d[i + (m + 1)] == c[m + 1]);
    assert(d[i + 0] == c[0] && d[i + 1] == c[1]);
    lemma_st_end(d, i + 2, i + m);
    let k = 3 + control.len() as int;
    assert(c[k] == 0x3b);
    assert forall|j: int| 3 <= j < k implies c[j] != 0x3b by {
        assert(c[j] == control[j - 3]);
        assert(control.contains(control[j - 3]));
    }
    text::lemma_find_byte_unique(c, 0x3b, 3, k);
    assert(c.subrange(3, k) =~= control);
}

proof fn lemma_more_announces(more: bool)
    ensures
        announces(kitty::more_entry(more)) == more,
        !kitty::more_entry(more).contains(0x3b),
        !kitty::more_entry(more).contains(0x1b),
{
    let e = kitty::more_entry(more);
    let yes = seq![0x6du8, 0x3du8, 0x31u8];
    text::lemma_find_byte_none(e, 0x2c, 0);
    assert(e.subrange(0, e.len() as int) =~= e);
    assert(text::split(e, 0x2c) =~= seq![e]);
    if more {
        assert(e =~= yes);
        assert(seq![e][0] == yes);
    } else {
        assert(e[2] != yes[2]);
        assert(!seq![e].contains(yes));
    }
}

proof fn lemma_chain(d: Seq<u8>, i: int, payload: Seq<u8>, k: int, rest: Seq<u8>)
    requires
        0 <= i <= d.len(),
        0 <= k < payload.len(),
        !payload.contains(0x1b),
        d.subrange(i, d.len() as int) == kitty::continuation(payload, k) + rest,
    ensures
        kitty::chain_end(d, i) == Some(i + kitty::continuation(payload, k).len()),
    decreases payload.len() - k,
{
    let e = kitty::piece_end(payload, k);
    let piece = payload.subrange(k, e);
    let more = e < payload.len();
    let c = kitty::chunk_bytes(kitty::more_entry(more), piece);
    let behind = kitty::continuation(payload, e);
    assert(kitty::continuation(payload, k) == c + behind);
    assert((c + behind) + rest =~= c + (behind + rest));
    assert(!piece.contains(0x1b)) by {
        assert(forall|j: int| 0 <= j < piece.len() ==> piece[j] == payload[k + j]);
        if piece.contains(0x1b) {
            let j = choose|j: int| 0 <= j < piece.len() && piece[j] == 0x1b;
            assert(payload[k + j] == 0x1b);
        }
    }
    lemma_more_announces(more);
    lemma_chunk_span(d, i, kitty::more_entry(more), piece, behind + rest);
    if more {
        lemma_chain(d, (i + c.len()) as int, payload, e, rest);
    } else {
        assert(behind.len() == 0);
    }
}

/// A built kitty sequence is found as a whole, however many chunks it takes and whatever follows it:
/// every chunk but the last announces another.
pub proof fn law_built_sequence_found(control: Seq<u8>, payload: Seq<u8>, rest: Seq<u8>)
    requires
        !control.contains(0x3b),
        !control.contains(0x1b),
        !announces(control),
        !payload.contains(0x1b),
    ensures
        kitty::kitty_end(kitty::kitty_sequence(control, payload) + rest, 0) == Some(
            kitty::kitty_sequence(control, payload).len() as int,
        ),
{
    let whole = kitty::kitty_sequence(control, payload);
    let d = whole + rest;
    let size = kitty::KITTY_CHUNK_SIZE as int;
    assert(d.subrange(0, d.len() as int) =~= d);
    if payload.len() <= size {
        lemma_chunk_span(d, 0, control, payload, rest);
    } else {
        let me = kitty::more_entry(true);
        let first = control + seq![0x2cu8] + me;
        let piece = payload.subrange(0, size);
        let behind = kitty::continuation(payload, size);
        assert(!piece.contains(0x1b)) by {
            if piece.contains(0x1b) {
                let j = choose|j: int| 0 <= j < piece.len() && piece[j] == 0x1b;
                assert(payload[j] == 0x1b);
            }
        }
        assert forall|x: u8| x == 0x3b || x == 0x1b implies !first.contains(x) by {
            if first.contains(x) {
                let j = choose|j: int| 0 <= j < first.len() && first[j] == x;
                if j < control.len() {
                    assert(control[j] == x);
                }
            }
        }
        assert(announces(first)) by {
            assert(!me.contains(0x2c));
            assert(control.push(0x2c) + me =~= first);
            kitty_laws::lemma_split_push(control, me, 0x2c, 0);
            let parts = text::split(control, 0x2c).push(me);
            assert(parts[parts.len() - 1] == me);
            assert(me =~= seq![0x6du8, 0x3du8, 0x31u8]);
        }
        let c = kitty::chunk_bytes(first, piece);
        assert(d =~= c + (behind + rest));
        lemma_chunk_span(d, 0, first, piece, behind + rest);
        lemma_chain(d, c.len() as int, payload, size, rest);
    }
}

/// A chunk carries at most 4096 bytes of the payload, and a payload is cut into no more chunks than
/// that takes.
pub proof fn law_chunk_sizes(control: Seq<u8>, payload: Seq<u8>)
    requires
        kitty::clean_control(control),
        !payload.contains(0x1b),
    ensures
        ({
            let chunks = kitty::chunks_from(kitty::kitty_sequence(control, payload), 0);
            &&& forall|i: int|
                0 <= i < chunks.len() ==> (#[trigger] chunks[i]).payload.len() <= 4096
            &&& payload.len() > 0 ==> (chunks.len() - 1) * 4096 < payload.len() <= chunks.len()
                * 4096
            &&& payload.len() == 0 ==> chunks.len() == 1
        }),
{
    kitty_laws::law_sequence_read_back(control, payload);
}

// ---------------------------------------------------------------------------
// The declared height
// ---------------------------------------------------------------------------

/// Adjusting a header with a declared size declares the new height and leaves everything else.
pub proof fn law_adjusted_height(lead: Seq<u8>, a: int, b: int, w: int, h: int, n: int)
    requires
        0 <= a <= usize::MAX,
        0 <= b <= usize::MAX,
        0 <= w <= usize::MAX,
        0 <= h <= usize::MAX,
        0 <= n,
        forall|j: int| 0 <= j < lead.len() ==> #[trigger] lead[j] != 0x71,
        valid_utf8(size_laws::header_with_size(lead, a, b, w, h)),
    ensures
        sixel::adjusted_header(size_laws::header_with_size(lead, a, b, w, h), n)
            == size_laws::header_with_size(lead, a, b, w, n),
{
    let max = usize::MAX as int;
    let parts = seq![text::decimal(a), text::decimal(b), text::decimal(w), text::decimal(h)];
    let head = size_laws::header_with_size(lead, a, b, w, h);
    let q = lead.len() as int;
    let numbers = text::join(parts, 0x3b);
    size_laws::lemma_decimal_read(a, max);
    size_laws::lemma_decimal_read(b, max);
    size_laws::lemma_decimal_read(w, max);
    size_laws::lemma_decimal_read(h, max);
    assert forall|k: int| 0 <= k < parts.len() implies text::all_digits(#[trigger] parts[k]) && !(
    parts[k]).contains(0x3b) by {
    }
    kitty_laws::lemma_split_join(parts, 0x3b);
    assert(head[q] == 0x71 && head[q + 1] == 0x22);
    assert(forall|j: int| 0 <= j < q ==> head[j] == lead[j]);
    text::lemma_find_byte_unique(head, 0x71, 0, q);
    let e = head.len() as int;
    sixel::lemma_raster_end(head, q + 2);
    assert(sixel::raster_end(head, q + 2) == e) by {
        let r = sixel::raster_end(head, q + 2);
        if r < e {
            assert(head[r] == numbers[r - q - 2]);
            size_laws::lemma_joined_bytes(parts, r - q - 2);
        }
    }
    assert(head.subrange(q + 2, e) =~= numbers);
    lemma_four(text::decimal(a), text::decimal(b), text::decimal(w), text::decimal(n));
    let start = lead + seq![0x71u8, 0x22u8];
    assert(head.subrange(0, q + 2) =~= start);
    assert(head.subrange(e, e) =~= Seq::<u8>::empty());
    let sep = seq![0x3bu8];
    assert(start + parts[0] + sep + parts[1] + sep + parts[2] + sep + text::decimal(n)
        + Seq::<u8>::empty() =~= start + (parts[0] + sep + parts[1] + sep + parts[2] + sep
        + text::decimal(n)));
}

proof fn lemma_four(a: Seq<u8>, b: Seq<u8>, c: Seq<u8>, d: Seq<u8>)
    ensures
        text::join(seq![a, b, c, d], 0x3b) == a + seq![0x3bu8] + b + seq![0x3bu8] + c
            + seq![0x3bu8] + d,
{
    let four = seq![a, b, c, d];
    let three = four.drop_last();
    let two = three.drop_last();
    let one = two.drop_last();
    assert(one =~= seq![a]);
    assert(text::join(one, 0x3b) == a);
    assert(text::join(two, 0x3b) =~= a + seq![0x3bu8] + b);
    assert(text::join(three, 0x3b) =~= a + seq![0x3bu8] + b + seq![0x3bu8] + c);
    assert(text::join(four, 0x3b) =~= a + seq![0x3bu8] + b + seq![0x3bu8] + c + seq![0x3bu8] + d);
}

// ---------------------------------------------------------------------------
// Images of a line
// ---------------------------------------------------------------------------

/// What stands at a character that is no escape character.
proof fn lemma_text_token(s: Seq<char>, k: int)
    requires
        0 <= k < s.len(),
        s[k] != '\u{1b}',
    ensures
        ({
            let i = strings::byte_len(s.subrange(0, k));
            let e = strings::byte_len(s.subrange(0, k + 1));
            &&& 0 <= i < e <= encode_utf8(s).len()
            &&& scan::token_at(encode_utf8(s), i) == ScanToken::Character(s[k], e)
        }),
{
    let b = encode_utf8(s);
    let head = s.subrange(0, k);
    let i = strings::byte_len(head);
    let tail = s.subrange(k, s.len() as int);
    strings::lemma_encode_concat(head, tail);
    assert(head + tail =~= s);
    assert(b.subrange(i, b.len() as int) =~= encode_utf8(tail));
    encode_utf8_first_scalar(tail);
    let c = tail[0];
    assert(c == s[k]);
    char_u32_cast(c, decode_first_scalar(encode_utf8(tail)));
    let rest = tail.subrange(1, tail.len() as int);
    assert(seq![c] + rest =~= tail);
    strings::lemma_encode_concat(seq![c], rest);
    strings::lemma_encode_one(c);
    strings::lemma_char_size(c);
    document_laws::lemma_escape_byte(c);
    assert(b[i] == encode_utf8(tail)[0]);
    assert(b[i] == encode_scalar(c as u32)[0]);
    strings::lemma_byte_len_push(head, c);
    assert(head.push(c) =~= s.subrange(0, k + 1));
}

proof fn lemma_followed_twice(c: char, part: Seq<char>, rest: Option<ScanModel>)
    ensures
        scan::followed_by(seq![c], seq![], scan::followed_by(part, seq![], rest))
            == scan::followed_by(seq![c] + part, seq![], rest),
{
    let none = Seq::<ImageModel>::empty();
    if let Some(r) = rest {
        assert(seq![c] + (part + r.text) =~= (seq![c] + part) + r.text);
        assert(none + (none + r.images) =~= none + r.images);
    }
}

proof fn lemma_one_column(c: char, part: Seq<char>)
    ensures
        strings::text_columns(seq![c] + part) == strings::columns(c) + strings::text_columns(part),
{
    screen_laws::lemma_text_columns(seq![c], part);
    assert(seq![c].drop_last() =~= Seq::<char>::empty());
    assert(strings::text_columns(Seq::<char>::empty()) == 0);
}

/// Scanning copies text up to the first escape character and counts its columns.
proof fn lemma_scan_text(s: Seq<char>, k: int, n: int, col: int, cell_w: int, cell_h: int)
    requires
        0 <= k <= n <= s.len(),
        forall|j: int| 0 <= j < n ==> #[trigger] s[j] != '\u{1b}',
        scan::scan_from(
            encode_utf8(s),
            strings::byte_len(s.subrange(0, k)),
            col,
            cell_w,
            cell_h,
        ) is Some,
    ensures
        scan::scan_from(
            encode_utf8(s),
            strings::byte_len(s.subrange(0, k)),
            col,
            cell_w,
            cell_h,
        ) == scan::followed_by(
            s.subrange(k, n),
            seq![],
            scan::scan_from(
                encode_utf8(s),
                strings::byte_len(s.subrange(0, n)),
                col + strings::text_columns(s.subrange(k, n)),
                cell_w,
                cell_h,
            ),
        ),
    decreases n - k,
{
    let b = encode_utf8(s);
    let i = strings::byte_len(s.subrange(0, k));
    let none = Seq::<ImageModel>::empty();
    if k < n {
        let c = s[k];
        lemma_text_token(s, k);
        let next = col + strings::columns(c);
        lemma_scan_text(s, k + 1, n, next, cell_w, cell_h);
        let part = s.subrange(k + 1, n);
        assert(seq![c] + part =~= s.subrange(k, n));
        lemma_one_column(c, part);
        let after = scan::scan_from(
            b,
            strings::byte_len(s.subrange(0, n)),
            next + strings::text_columns(part),
            cell_w,
            cell_h,
        );
        lemma_followed_twice(c, part, after);
    } else {
        assert(s.subrange(k, n) =~= Seq::<char>::empty());
        assert(strings::text_columns(Seq::<char>::empty()) == 0);
        if let Some(r) = scan::scan_from(b, i, col, cell_w, cell_h) {
            assert(Seq::<char>::empty() + r.text =~= r.text);
            assert(none + r.images =~= r.images);
        }
    }
}

/// An image behind text: it is put in the column behind that text, its data are its sequence, and
/// in the cleaned line as many spaces stand for it as it has columns.
pub proof fn law_image_column(a: Seq<char>, z: Seq<char>, cell_w: int, cell_h: int)
    requires
        forall|j: int| 0 <= j < a.len() ==> #[trigger] a[j] != '\u{1b}',
        z.len() > 0,
        scan::scanned(a + z, cell_w, cell_h) is Some,
        ({
            let t = scan::token_at(encode_utf8(a + z), strings::byte_len(a));
            t is Sixel || t is Kitty
        }),
    ensures
        ({
            let b = encode_utf8(a + z);
            let n = strings::byte_len(a);
            let e = scan::token_end(scan::token_at(b, n), n);
            let s = scan::scanned(a + z, cell_w, cell_h)->0;
            let p = s.images[0];
            &&& s.images.len() > 0
            &&& p.col == strings::text_columns(a)
            &&& p.data == b.subrange(n, e)
            &&& a.len() + p.width_cols <= s.text.len()
            &&& forall|j: int| 0 <= j < a.len() ==> #[trigger] s.text[j] == a[j]
            &&& forall|j: int|
                a.len() <= j < a.len() + p.width_cols ==> #[trigger] s.text[j] == ' '
        }),
{
    let s = a + z;
    let n = a.len() as int;
    let b = encode_utf8(s);
    assert(s.subrange(0, 0) =~= Seq::<char>::empty());
    assert(encode_utf8(Seq::<char>::empty()) =~= Seq::<u8>::empty());
    assert(s.subrange(0, n) =~= a);
    lemma_scan_text(s, 0, n, 0, cell_w, cell_h);
    strings::lemma_encode_concat(a, z);
    strings::lemma_byte_len(z);
    let i = strings::byte_len(a);
    let col = strings::text_columns(a);
    let after = scan::scan_from(b, i, col, cell_w, cell_h)->0;
    let r = scan::scanned(s, cell_w, cell_h)->0;
    assert(r.text == a + after.text);
    assert(r.images =~= after.images);
    let p = after.images[0];
    match scan::token_at(b, i) {
        ScanToken::Sixel(e) => {
            let rest = scan::scan_from(b, e, col + p.width_cols, cell_w, cell_h)->0;
            assert(after.text == scan::spaces(p.width_cols) + rest.text);
        },
        ScanToken::Kitty(e) => {
            let rest = scan::scan_from(b, e, col + p.width_cols, cell_w, cell_h)->0;
            assert(after.text == scan::spaces(p.width_cols) + rest.text);
        },
        _ => {},
    }
}

/// Where ESC P starts a sixel sequence that ends, it is taken for an image up to its end, and ESC _
/// for a kitty image likewise; ESC [ and ESC ] start other escape sequences.
pub proof fn law_sixel_taken(b: Seq<u8>, i: int)
    requires
        0 <= i,
        i + 1 < b.len(),
        b[i] == 0x1b,
    ensures
        b[i + 1] == 0x50 && sixel::sixel_end(b, i) is Some ==> scan::token_at(b, i)
            == ScanToken::Sixel(sixel::sixel_end(b, i)->0),
        b[i + 1] == 0x5f && kitty::kitty_end(b, i) is Some ==> scan::token_at(b, i)
            == ScanToken::Kitty(kitty::kitty_end(b, i)->0),
        b[i + 1] == 0x5b || b[i + 1] == 0x5d ==> scan::token_at(b, i) is Escape,
{
}

/// A control sequence takes all up to its final byte, a command all up to a bell or a string
/// terminator; both take the rest of the line where they do not end.
pub proof fn law_escape_ends(b: Seq<u8>, i: int, k: int)
    requires
        0 <= i <= k <= b.len(),
    ensures
        (forall|j: int| i <= j < k ==> !(0x40 <= #[trigger] b[j] <= 0x7e)) ==> {
            &&& k < b.len() && 0x40 <= b[k] <= 0x7e ==> scan::csi_end(b, i) == k + 1
            &&& k == b.len() ==> scan::csi_end(b, i) == b.len()
        },
        (forall|j: int| i <= j < k ==> #[trigger] b[j] != 0x07 && b[j] != 0x1b) ==> {
            &&& k < b.len() && b[k] == 0x07 ==> scan::osc_end(b, i) == k + 1
            &&& k + 1 < b.len() && b[k] == 0x1b && b[k + 1] == 0x5c ==> scan::osc_end(b, i) == k + 2
            &&& k == b.len() ==> scan::osc_end(b, i) == b.len()
        },
    decreases k - i,
{
    if i < k {
        law_escape_ends(b, i + 1, k);
    }
}

/// Where a run of chunks breaks off, the first chunk is an image by itself.
pub proof fn law_broken_chain(control: Seq<u8>, payload: Seq<u8>)
    requires
        !control.contains(0x3b),
        !control.contains(0x1b),
        !payload.contains(0x1b),
    ensures
        kitty::kitty_end(kitty::chunk_bytes(control, payload), 0) == Some(
            kitty::chunk_bytes(control, payload).len() as int,
        ),
{
    let d = kitty::chunk_bytes(control, payload);
    let none = Seq::<u8>::empty();
    assert(d.subrange(0, d.len() as int) =~= d + none);
    lemma_chunk_span(d, 0, control, payload, none);
    assert(kitty::chain_end(d, d.len() as int) is None);
}

/// A line in which a sixel sequence starts and does not end is incomplete.
pub proof fn law_incomplete_line(before: Seq<u8>, c: Seq<u8>, line: Seq<char>)
    requires
        endless(c),
        encode_utf8(line) == before + seq![0x1bu8, 0x50u8] + c,
    ensures
        document::incomplete(line),
{
    law_sixel_end(before, c, seq![]);
    let b = encode_utf8(line);
    let i = before.len() as int;
    assert(b[i] == 0x1b && b[i + 1] == 0x50);
    assert(document::incomplete_at(b, i));
}

// ---------------------------------------------------------------------------
// Control entries
// ---------------------------------------------------------------------------

/// Whether an entry is one that clipping writes anew: f, s, v, o, r, m, y and h.
pub open spec fn written_anew(part: Seq<u8>) -> bool {
    &&& part.len() >= 2
    &&& part[1] == 0x3d
    &&& part[0] == 0x66 || part[0] == 0x73 || part[0] == 0x76 || part[0] == 0x6f || part[0] == 0x72
        || part[0] == 0x6d || part[0] == 0x79 || part[0] == 0x68
}

/// All other entries of the form `key=value` are handed through, in their order, and nothing else is.
pub proof fn law_handed_through(parts: Seq<Seq<u8>>)
    ensures
        kitty::others(parts) == parts.filter(
            |p: Seq<u8>| p.contains(0x3d) && !written_anew(p),
        ),
    decreases parts.len(),
{
    reveal(Seq::filter);
    if parts.len() > 0 {
        law_handed_through(parts.drop_last());
    }
}

/// Without entries to the contrary a kitty image is uncompressed RGBA of unknown size.
pub proof fn law_default_control(parts: Seq<Seq<u8>>, control: Seq<u8>)
    requires
        text::split(control, 0x2c) == parts,
        forall|i: int| 0 <= i < parts.len() ==> !written_anew(#[trigger] parts[i]),
    ensures
        ({
            let c = kitty::control_of(control);
            &&& c.format == 32
            &&& c.pixel_w == 0
            &&& c.pixel_h == 0
            &&& !c.compressed
        }),
{
    lemma_no_value(parts, 0x66);
    lemma_no_value(parts, 0x73);
    lemma_no_value(parts, 0x76);
    lemma_no_value(parts, 0x6f);
}

proof fn lemma_no_value(parts: Seq<Seq<u8>>, key: u8)
    requires
        key == 0x66 || key == 0x73 || key == 0x76 || key == 0x6f,
        forall|i: int| 0 <= i < parts.len() ==> !written_anew(#[trigger] parts[i]),
    ensures
        kitty::last_value(parts, key) is None,
    decreases parts.len(),
{
    if parts.len() > 0 {
        assert(!written_anew(parts[parts.len() - 1]));
        let init = parts.drop_last();
        assert forall|i: int| 0 <= i < init.len() implies !written_anew(#[trigger] init[i]) by {
            assert(init[i] == parts[i]);
        }
        lemma_no_value(init, key);
    }
}

} // verus!
