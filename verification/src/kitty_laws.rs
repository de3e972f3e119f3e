//! Reading back what was built: control strings, chunks and payloads.
use vstd::prelude::*;
use vstd::utf8::*;
use crate::kitty;
use crate::kitty::ChunkModel;
use crate::sixel;
use crate::text;

verus! {

// ---------------------------------------------------------------------------
// Splitting and joining
// ---------------------------------------------------------------------------

/// Splitting `a sep b`, where `b` holds no `sep`, splits `a` and appends `b`.
pub proof fn lemma_split_push(a: Seq<u8>, b: Seq<u8>, sep: u8, i: int)
    requires
        0 <= i <= a.len(),
        !b.contains(sep),
    ensures
        text::split_from(a.push(sep) + b, sep, i) == text::split_from(a, sep, i).push(b),
    decreases a.len() - i,
{
    let s = a.push(sep) + b;
    text::lemma_find_byte(a, sep, i);
    match text::find_byte(a, sep, i) {
        Some(k) => {
            text::lemma_find_byte_unique(s, sep, i, k);
            lemma_split_push(a, b, sep, k + 1);
            assert(s.subrange(i, k) =~= a.subrange(i, k));
            let head = seq![a.subrange(i, k)];
            assert(text::split_from(a, sep, i) == head + text::split_from(a, sep, k + 1));
            assert(text::split_from(s, sep, i) == head + text::split_from(s, sep, k + 1));
            assert((head + text::split_from(a, sep, k + 1)).push(b) =~= head + text::split_from(
                a,
                sep,
                k + 1,
            ).push(b));
        },
        None => {
            let k = a.len() as int;
            assert(s[k] == sep);
            text::lemma_find_byte_unique(s, sep, i, k);
            assert(s.subrange(i, k) =~= a.subrange(i, k));
            assert forall|j: int| k + 1 <= j < s.len() implies s[j] != sep by {
                assert(s[j] == b[j - k - 1]);
            }
            text::lemma_find_byte_none(s, sep, k + 1);
            assert(s.subrange(k + 1, s.len() as int) =~= b);
            assert(text::split_from(s, sep, k + 1) == seq![b]);
            assert(text::split_from(s, sep, i) =~= text::split_from(a, sep, i).push(b));
        },
    }
}

/// Splitting what was joined gives the parts back.
pub proof fn lemma_split_join(parts: Seq<Seq<u8>>, sep: u8)
    requires
        parts.len() > 0,
        forall|k: int| 0 <= k < parts.len() ==> !(#[trigger] parts[k]).contains(sep),
    ensures
        text::split(text::join(parts, sep), sep) == parts,
    decreases parts.len(),
{
    assert(!parts[parts.len() - 1].contains(sep));
    if parts.len() == 1 {
        let s = parts[0];
        assert forall|j: int| 0 <= j < s.len() implies s[j] != sep by {
            if s[j] == sep {
                assert(s.contains(sep));
            }
        }
        text::lemma_find_byte_none(s, sep, 0);
        assert(s.subrange(0, s.len() as int) =~= s);
        assert(text::split(s, sep) =~= parts);
    } else {
        let init = parts.drop_last();
        assert forall|k: int| 0 <= k < init.len() implies !(#[trigger] init[k]).contains(sep) by {
            assert(init[k] == parts[k]);
        }
        lemma_split_join(init, sep);
        lemma_split_push(text::join(init, sep), parts.last(), sep, 0);
        assert(init.push(parts.last()) =~= parts);
    }
}

/// The pieces of a split hold no separator.
pub proof fn lemma_split_no_sep(s: Seq<u8>, sep: u8, i: int)
    requires
        0 <= i <= s.len(),
    ensures
        text::split_from(s, sep, i).len() > 0,
        forall|k: int|
            0 <= k < text::split_from(s, sep, i).len() ==> !(#[trigger] text::split_from(
                s,
                sep,
                i,
            )[k]).contains(sep),
    decreases s.len() - i,
{
    text::lemma_find_byte(s, sep, i);
    let all = text::split_from(s, sep, i);
    match text::find_byte(s, sep, i) {
        Some(e) => {
            lemma_split_no_sep(s, sep, e + 1);
            let rest = text::split_from(s, sep, e + 1);
            assert forall|k: int| 0 <= k < all.len() implies !(#[trigger] all[k]).contains(
                sep,
            ) by {
                if k == 0 {
                    assert(all[0] == s.subrange(i, e));
                    assert(forall|j: int| 0 <= j < e - i ==> all[0][j] == s[i + j]);
                } else {
                    assert(all[k] == rest[k - 1]);
                }
            }
        },
        None => {
            assert(all[0] == s.subrange(i, s.len() as int));
            assert(forall|j: int| 0 <= j < s.len() - i ==> all[0][j] == s[i + j]);
        },
    }
}

/// Cutting text at an ASCII byte leaves text on both sides.
proof fn lemma_utf8_cut(s: Seq<u8>, k: int)
    requires
        valid_utf8(s),
        0 <= k < s.len(),
        s[k] < 0x80,
    ensures
        valid_utf8(s.subrange(0, k)),
        valid_utf8(s.subrange(k + 1, s.len() as int)),
{
    is_char_boundary_iff_not_is_continuation_byte(s, k);
    valid_utf8_split(s, k);
    let rest = s.subrange(k, s.len() as int);
    assert(rest[0] == s[k]);
    assert(pop_first_scalar(rest) =~= s.subrange(k + 1, s.len() as int));
}

/// The pieces of text split at an ASCII byte are text.
proof fn lemma_split_utf8(s: Seq<u8>, sep: u8, i: int)
    requires
        0 <= i <= s.len(),
        valid_utf8(s.subrange(i, s.len() as int)),
        sep < 0x80,
    ensures
        forall|k: int|
            0 <= k < text::split_from(s, sep, i).len() ==> valid_utf8(
                #[trigger] text::split_from(s, sep, i)[k],
            ),
    decreases s.len() - i,
{
    text::lemma_find_byte(s, sep, i);
    let all = text::split_from(s, sep, i);
    match text::find_byte(s, sep, i) {
        Some(e) => {
            let t = s.subrange(i, s.len() as int);
            lemma_utf8_cut(t, e - i);
            assert(t.subrange(0, e - i) =~= s.subrange(i, e));
            assert(t.subrange(e - i + 1, t.len() as int) =~= s.subrange(e + 1, s.len() as int));
            lemma_split_utf8(s, sep, e + 1);
            let rest = text::split_from(s, sep, e + 1);
            assert forall|k: int| 0 <= k < all.len() implies valid_utf8(#[trigger] all[k]) by {
                if k > 0 {
                    assert(all[k] == rest[k - 1]);
                }
            }
        },
        None => {},
    }
}

/// An entry that can stand in a control string: text without `,`, `;` or escape bytes.
pub open spec fn clean_entry(e: Seq<u8>) -> bool {
    kitty::clean_control(e) && !e.contains(0x2c)
}

pub proof fn lemma_ascii_utf8(s: Seq<u8>)
    requires
        forall|i: int| 0 <= i < s.len() ==> #[trigger] s[i] < 0x80,
    ensures
        valid_utf8(s),
{
    assert(partial_valid_utf8(s, 0)) by {
        assert(s.subrange(0, 0).len() == 0);
    }
    assert forall|i: int| 0 <= 0 <= i < s.len() <= s.len() implies #[trigger] is_leading_byte_width_1(
        s[i],
    ) by {
        assert(s[i] < 0x80);
    }
    partial_valid_utf8_extend_ascii_block(s, 0, s.len() as int);
    assert(s.subrange(0, s.len() as int) =~= s);
}

/// Joining clean entries gives a clean control string.
pub proof fn lemma_join_clean(parts: Seq<Seq<u8>>)
    requires
        forall|k: int| 0 <= k < parts.len() ==> clean_entry(#[trigger] parts[k]),
    ensures
        kitty::clean_control(text::join(parts, 0x2c)),
    decreases parts.len(),
{
    if parts.len() == 0 {
        lemma_ascii_utf8(seq![]);
    } else {
        assert(clean_entry(parts[parts.len() - 1]));
        if parts.len() > 1 {
            let init = parts.drop_last();
            assert forall|k: int| 0 <= k < init.len() implies clean_entry(#[trigger] init[k]) by {
                assert(init[k] == parts[k]);
            }
            lemma_join_clean(init);
            let a = text::join(init, 0x2c);
            let b = parts.last();
            let j = text::join(parts, 0x2c);
            lemma_ascii_utf8(seq![0x2cu8]);
            valid_utf8_concat(a, seq![0x2cu8]);
            assert(a + seq![0x2cu8] =~= a.push(0x2c));
            valid_utf8_concat(a.push(0x2c), b);
            assert forall|x: u8| x == 0x3b || x == sixel::ESC implies !j.contains(x) by {
                assert forall|i: int| 0 <= i < j.len() implies j[i] != x by {
                    if i < a.len() {
                        assert(j[i] == a[i]);
                        assert(a.contains(a[i]));
                    } else if i > a.len() {
                        assert(j[i] == b[i - a.len() - 1]);
                        assert(b.contains(b[i - a.len() - 1]));
                    }
                }
            }
        }
    }
}

/// The entries of a clean control string are clean.
pub proof fn lemma_split_clean(control: Seq<u8>)
    requires
        kitty::clean_control(control),
    ensures
        forall|k: int|
            0 <= k < text::split(control, 0x2c).len() ==> clean_entry(
                #[trigger] text::split(control, 0x2c)[k],
            ),
{
    let parts = text::split(control, 0x2c);
    lemma_split_no_sep(control, 0x2c, 0);
    assert(control.subrange(0, control.len() as int) =~= control);
    lemma_split_utf8(control, 0x2c, 0);
    crate::sixel_laws::lemma_split_bytes_from(control, 0x2c, 0);
    assert forall|k: int| 0 <= k < parts.len() implies clean_entry(#[trigger] parts[k]) by {
        let p = parts[k];
        assert forall|x: u8| x == 0x3b || x == sixel::ESC implies !p.contains(x) by {
            assert forall|i: int| 0 <= i < p.len() implies p[i] != x by {
                assert(control.contains(text::split_from(control, 0x2c, 0)[k][i]));
            }
        }
    }
}

/// The entries handed through are entries.
pub proof fn lemma_others(parts: Seq<Seq<u8>>)
    requires
        forall|k: int| 0 <= k < parts.len() ==> clean_entry(#[trigger] parts[k]),
    ensures
        forall|k: int|
            0 <= k < kitty::others(parts).len() ==> clean_entry(
                #[trigger] kitty::others(parts)[k],
            ) && kitty::handed_through(kitty::others(parts)[k]),
    decreases parts.len(),
{
    if parts.len() > 0 {
        let init = parts.drop_last();
        assert forall|k: int| 0 <= k < init.len() implies clean_entry(#[trigger] init[k]) by {
            assert(init[k] == parts[k]);
        }
        lemma_others(init);
        assert(clean_entry(parts[parts.len() - 1]));
        let all = kitty::others(parts);
        let before = kitty::others(init);
        assert forall|k: int| 0 <= k < all.len() implies clean_entry(#[trigger] all[k])
            && kitty::handed_through(all[k]) by {
            if k < before.len() {
                assert(all[k] == before[k]);
            }
        }
    }
}

/// Entries handed through have no managed key, and are handed through again.
proof fn lemma_others_through(other: Seq<Seq<u8>>, key: u8)
    requires
        forall|k: int| 0 <= k < other.len() ==> kitty::handed_through(#[trigger] other[k]),
        kitty::managed_key(key),
    ensures
        kitty::last_value(other, key) is None,
        kitty::others(other) == other,
    decreases other.len(),
{
    if other.len() > 0 {
        let init = other.drop_last();
        assert forall|k: int| 0 <= k < init.len() implies kitty::handed_through(
            #[trigger] init[k],
        ) by {
            assert(init[k] == other[k]);
        }
        lemma_others_through(init, key);
        assert(kitty::handed_through(other[other.len() - 1]));
        assert(init.push(other.last()) =~= other);
    }
}

/// A `key=number` entry is clean and reads back as the number.
proof fn lemma_number_entry(key: u8, n: int, max: int)
    requires
        0 <= n <= max,
        0x61 <= key <= 0x7a,
    ensures
        ({
            let e = seq![key, 0x3du8] + text::decimal(n);
            &&& clean_entry(e)
            &&& kitty::has_key(e, key)
            &&& text::parse_unsigned(e.subrange(2, e.len() as int), max) == Some(n)
        }),
{
    let digits = text::decimal(n);
    let e = seq![key, 0x3du8] + digits;
    text::lemma_decimal_digits(n);
    assert(e.subrange(2, e.len() as int) =~= digits);
    assert(text::is_digit(digits[0]));
    assert forall|i: int| 0 <= i < e.len() implies #[trigger] e[i] < 0x80 && e[i] != 0x3b && e[i]
        != sixel::ESC && e[i] != 0x2c by {
        if i >= 2 {
            assert(text::is_digit(digits[i - 2]));
        }
    }
    lemma_ascii_utf8(e);
}

proof fn lemma_small_entry(e: Seq<u8>)
    requires
        forall|i: int|
            0 <= i < e.len() ==> #[trigger] e[i] < 0x80 && e[i] != 0x3b && e[i] != sixel::ESC
                && e[i] != 0x2c,
    ensures
        clean_entry(e),
{
    lemma_ascii_utf8(e);
}

/// What a rebuilt control string says: the new format, size and compression, and the entries
/// handed through. A further `m=` entry changes nothing.
pub proof fn lemma_rebuilt_control(
    other: Seq<Seq<u8>>,
    format: int,
    width: int,
    height: int,
    compressed: bool,
    more: bool,
)
    requires
        forall|k: int|
            0 <= k < other.len() ==> clean_entry(#[trigger] other[k]) && kitty::handed_through(
                other[k],
            ),
        0 <= format <= u32::MAX,
        0 <= width <= usize::MAX,
        0 <= height <= usize::MAX,
    ensures
        ({
            let entries = kitty::rebuilt_entries(other, format, width, height, compressed);
            let all = if more {
                entries.push(kitty::more_entry(true))
            } else {
                entries
            };
            let control = text::join(all, 0x2c);
            &&& kitty::clean_control(control)
            &&& kitty::control_of(control) == kitty::ControlModel {
                format,
                pixel_w: width,
                pixel_h: height,
                compressed,
                other_params: other,
            }
        }),
{
    let fe = seq![0x66u8, 0x3du8] + text::decimal(format);
    let se = seq![0x73u8, 0x3du8] + text::decimal(width);
    let ve = seq![0x76u8, 0x3du8] + text::decimal(height);
    let oe = seq![0x6fu8, 0x3du8, 0x7au8];
    let me = kitty::more_entry(true);
    lemma_number_entry(0x66, format, u32::MAX as int);
    lemma_number_entry(0x73, width, usize::MAX as int);
    lemma_number_entry(0x76, height, usize::MAX as int);
    lemma_small_entry(oe);
    lemma_small_entry(me);
    lemma_others_through(other, 0x66);
    lemma_others_through(other, 0x73);
    lemma_others_through(other, 0x76);
    lemma_others_through(other, 0x6f);
    let p1 = other.push(fe);
    let p2 = p1.push(se);
    let p3 = p2.push(ve);
    assert(p1.drop_last() =~= other);
    assert(p2.drop_last() =~= p1);
    assert(p3.drop_last() =~= p2);
    let entries = kitty::rebuilt_entries(other, format, width, height, compressed);
    assert(p3.push(oe).drop_last() =~= p3);
    assert(oe.subrange(2, 3) =~= seq![0x7au8]);
    let all = if more {
        entries.push(me)
    } else {
        entries
    };
    assert(entries.push(me).drop_last() =~= entries);
    assert(fe.contains(0x3d)) by {
        assert(fe[1] == 0x3d);
    }
    // Each entry in turn.
    assert(kitty::control_of_parts(p3) == kitty::ControlModel {
        format,
        pixel_w: width,
        pixel_h: height,
        compressed: false,
        other_params: other,
    }) by {
        assert(kitty::last_value(p3, 0x76) == Some(ve.subrange(2, ve.len() as int)));
        assert(kitty::last_value(p3, 0x73) == kitty::last_value(p2, 0x73));
        assert(kitty::last_value(p3, 0x66) == kitty::last_value(p2, 0x66));
        assert(kitty::last_value(p2, 0x66) == kitty::last_value(p1, 0x66));
        assert(kitty::last_value(p3, 0x6f) == kitty::last_value(p2, 0x6f));
        assert(kitty::last_value(p2, 0x6f) == kitty::last_value(p1, 0x6f));
        assert(kitty::last_value(p1, 0x6f) == kitty::last_value(other, 0x6f));
        assert(!kitty::handed_through(fe) && !kitty::handed_through(se)
            && !kitty::handed_through(ve));
        assert(kitty::others(p3) == kitty::others(p2));
        assert(kitty::others(p2) == kitty::others(p1));
        assert(kitty::others(p1) == kitty::others(other));
    }
    let model = kitty::ControlModel {
        format,
        pixel_w: width,
        pixel_h: height,
        compressed,
        other_params: other,
    };
    assert(kitty::control_of_parts(entries) == model) by {
        if compressed {
            assert(entries == p3.push(oe));
            assert(!kitty::handed_through(oe));
        }
    }
    assert(kitty::control_of_parts(all) == model) by {
        if more {
            assert(!kitty::handed_through(me));
        }
    }
    assert forall|k: int| 0 <= k < all.len() implies clean_entry(#[trigger] all[k]) by {
        if k < other.len() {
            assert(all[k] == other[k]);
        } else if k == other.len() {
            assert(all[k] == fe);
        } else if k == other.len() + 1 {
            assert(all[k] == se);
        } else if k == other.len() + 2 {
            assert(all[k] == ve);
        } else if k < entries.len() {
            assert(all[k] == oe);
        } else {
            assert(all[k] == me);
        }
    }
    lemma_join_clean(all);
    assert forall|k: int| 0 <= k < all.len() implies !(#[trigger] all[k]).contains(0x2c) by {
        assert(clean_entry(all[k]));
    }
    lemma_split_join(all, 0x2c);
}

// ---------------------------------------------------------------------------
// Chunks
// ---------------------------------------------------------------------------

proof fn lemma_control_end_is(d: Seq<u8>, i: int, e: int)
    requires
        0 <= i <= e < d.len(),
        forall|j: int| i <= j < e ==> #[trigger] d[j] != 0x3b && d[j] != sixel::ESC,
        d[e] == 0x3b,
    ensures
        kitty::control_end(d, i) == e,
    decreases e - i,
{
    if i < e {
        assert(d[i] != 0x3b);
        lemma_control_end_is(d, i + 1, e);
    }
}

proof fn lemma_payload_end_is(d: Seq<u8>, i: int, e: int)
    requires
        0 <= i <= e,
        forall|j: int| i <= j < e ==> #[trigger] d[j] != sixel::ESC,
        sixel::st_at(d, e),
    ensures
        kitty::payload_end(d, i) == e,
    decreases e - i,
{
    if i < e {
        assert(d[i] != sixel::ESC);
        lemma_payload_end_is(d, i + 1, e);
    }
}

/// A chunk written at `i` is read back as it was written.
proof fn lemma_chunk_read(d: Seq<u8>, i: int, control: Seq<u8>, payload: Seq<u8>, rest: Seq<u8>)
    requires
        0 <= i <= d.len(),
        d.subrange(i, d.len() as int) == kitty::chunk_bytes(control, payload) + rest,
        kitty::clean_control(control),
        !payload.contains(sixel::ESC),
    ensures
        kitty::chunk_starts(d, i),
        kitty::chunk_at(d, i) == (
            ChunkModel { control, payload },
            i + kitty::chunk_bytes(control, payload).len(),
        ),
{
    let c = kitty::chunk_bytes(control, payload);
    let t = d.subrange(i, d.len() as int);
    assert(t.len() == c.len() + rest.len());
    assert forall|j: int| 0 <= j < c.len() implies d[i + j] == #[trigger] c[j] by {
        assert(t[j] == (c + rest)[j]);
        assert(t[j] == d[i + j]);
    }
    assert(c.len() == 3 + control.len() + 1 + payload.len() + 2);
    assert(c[0] == sixel::ESC && c[1] == 0x5f && c[2] == 0x47);
    assert(kitty::chunk_starts(d, i));
    let ce = i + 3 + control.len();
    assert(c[3 + control.len() as int] == 0x3b);
    assert forall|j: int| i + 3 <= j < ce implies #[trigger] d[j] != 0x3b && d[j]
        != sixel::ESC by {
        assert(d[j] == c[j - i]);
        assert(c[j - i] == control[j - i - 3]);
        assert(control.contains(control[j - i - 3]));
    }
    lemma_control_end_is(d, i + 3, ce);
    assert(d.subrange(i + 3, ce) =~= control) by {
        assert forall|j: int| 0 <= j < control.len() implies d[i + 3 + j] == control[j] by {
            assert(c[3 + j] == control[j]);
        }
    }
    let pe = ce + 1 + payload.len();
    assert(c[4 + control.len() as int + payload.len()] == sixel::ESC);
    assert(c[5 + control.len() as int + payload.len()] == 0x5c);
    assert(d[pe] == sixel::ESC && d[pe + 1] == 0x5c);
    assert forall|j: int| ce + 1 <= j < pe implies #[trigger] d[j] != sixel::ESC by {
        assert(d[j] == c[j - i]);
        assert(c[j - i] == payload[j - ce - 1]);
        assert(payload.contains(payload[j - ce - 1]));
    }
    lemma_payload_end_is(d, ce + 1, pe);
    assert(d.subrange(ce + 1, pe) =~= payload) by {
        assert forall|j: int| 0 <= j < payload.len() implies d[ce + 1 + j] == payload[j] by {
            assert(c[4 + control.len() as int + j] == payload[j]);
        }
    }
}

/// The payloads of chunks, one after the other.
pub open spec fn payloads(chunks: Seq<ChunkModel>) -> Seq<u8> {
    text::concat_all(Seq::new(chunks.len(), |i: int| chunks[i].payload))
}

pub proof fn lemma_concat_front(parts: Seq<Seq<u8>>)
    requires
        parts.len() > 0,
    ensures
        text::concat_all(parts) == parts[0] + text::concat_all(
            parts.subrange(1, parts.len() as int),
        ),
    decreases parts.len(),
{
    let tail = parts.subrange(1, parts.len() as int);
    if parts.len() == 1 {
        assert(text::concat_all(parts.drop_last()) =~= seq![]) by {
            assert(parts.drop_last().len() == 0);
        }
        assert(text::concat_all(parts) =~= parts[0] + text::concat_all(tail));
    } else {
        lemma_concat_front(parts.drop_last());
        assert(parts.drop_last().subrange(1, parts.len() - 1) =~= tail.drop_last());
        assert(text::concat_all(parts) =~= parts[0] + text::concat_all(tail));
    }
}

proof fn lemma_small_front(c: ChunkModel, rest: Seq<ChunkModel>)
    requires
        c.payload.len() <= kitty::KITTY_CHUNK_SIZE,
        small_payloads(rest),
    ensures
        small_payloads(seq![c] + rest),
{
    let all = seq![c] + rest;
    assert forall|i: int| 0 <= i < all.len() implies (#[trigger] all[i]).payload.len()
        <= kitty::KITTY_CHUNK_SIZE by {
        if i > 0 {
            assert(all[i] == rest[i - 1]);
        }
    }
}

proof fn lemma_payloads_front(c: ChunkModel, rest: Seq<ChunkModel>)
    ensures
        payloads(seq![c] + rest) == c.payload + payloads(rest),
{
    let all = seq![c] + rest;
    let ps = Seq::new(all.len(), |i: int| all[i].payload);
    lemma_concat_front(ps);
    assert(ps.subrange(1, ps.len() as int) =~= Seq::new(rest.len(), |i: int| rest[i].payload));
}

/// How many chunks it takes to carry `n` bytes.
pub open spec fn chunks_for(n: int) -> int {
    (n + kitty::KITTY_CHUNK_SIZE - 1) / (kitty::KITTY_CHUNK_SIZE as int)
}

/// No chunk carries more than the largest payload of a chunk.
pub open spec fn small_payloads(chunks: Seq<ChunkModel>) -> bool {
    forall|i: int|
        0 <= i < chunks.len() ==> (#[trigger] chunks[i]).payload.len() <= kitty::KITTY_CHUNK_SIZE
}

/// The continuation chunks carry exactly the rest of the payload.
proof fn lemma_continuation_read(d: Seq<u8>, i: int, payload: Seq<u8>, k: int)
    requires
        0 <= i <= d.len(),
        0 <= k <= payload.len(),
        d.subrange(i, d.len() as int) == kitty::continuation(payload, k),
        !payload.contains(sixel::ESC),
    ensures
        payloads(kitty::chunks_from(d, i)) == payload.subrange(k, payload.len() as int),
        kitty::chunks_from(d, i).len() == chunks_for(payload.len() - k),
        small_payloads(kitty::chunks_from(d, i)),
    decreases payload.len() - k,
{
    if k >= payload.len() {
        assert(d.subrange(i, d.len() as int).len() == 0);
        assert(kitty::chunks_from(d, i) =~= seq![]);
        assert(payloads(kitty::chunks_from(d, i)) =~= payload.subrange(k, payload.len() as int));
    } else {
        let e = kitty::piece_end(payload, k);
        let control = kitty::more_entry(e < payload.len());
        let piece = payload.subrange(k, e);
        let rest = kitty::continuation(payload, e);
        lemma_small_entry(control);
        assert(!piece.contains(sixel::ESC)) by {
            assert(forall|j: int| 0 <= j < piece.len() ==> piece[j] == payload[k + j]);
        }
        lemma_chunk_read(d, i, control, piece, rest);
        let c = kitty::chunk_bytes(control, piece);
        let next = i + c.len();
        let t = d.subrange(i, d.len() as int);
        assert(t == c + rest);
        assert(t.len() == d.len() - i);
        assert(next <= d.len());
        assert(t.subrange(c.len() as int, t.len() as int) =~= rest);
        assert(d.subrange(next, d.len() as int) =~= t.subrange(c.len() as int, t.len() as int));
        lemma_continuation_read(d, next, payload, e);
        lemma_payloads_front(ChunkModel { control, payload: piece }, kitty::chunks_from(d, next));
        lemma_small_front(ChunkModel { control, payload: piece }, kitty::chunks_from(d, next));
        assert(piece + payload.subrange(e, payload.len() as int) =~= payload.subrange(
            k,
            payload.len() as int,
        ));
    }
}

/// What is read back of a built sequence.
spec fn read_back(control: Seq<u8>, payload: Seq<u8>, first: Seq<u8>) -> bool {
    let chunks = kitty::chunks_from(kitty::kitty_sequence(control, payload), 0);
    &&& chunks.len() == sixel::max_of(1, chunks_for(payload.len() as int))
    &&& small_payloads(chunks)
    &&& payloads(chunks) == payload
    &&& chunks[0].control == first
}

/// A control string stays clean with an entry that announces more chunks.
proof fn lemma_more_control(control: Seq<u8>)
    requires
        kitty::clean_control(control),
    ensures
        kitty::clean_control(control + seq![0x2cu8] + kitty::more_entry(true)),
{
    let me = kitty::more_entry(true);
    let first = control + seq![0x2cu8] + me;
    lemma_small_entry(me);
    lemma_ascii_utf8(seq![0x2cu8]);
    valid_utf8_concat(control, seq![0x2cu8]);
    valid_utf8_concat(control + seq![0x2cu8], me);
    assert forall|x: u8| x == 0x3b || x == sixel::ESC implies !first.contains(x) by {
        assert forall|i: int| 0 <= i < first.len() implies first[i] != x by {
            if i < control.len() {
                assert(first[i] == control[i]);
                assert(control.contains(control[i]));
            }
        }
    }
}

proof fn lemma_short_read_back(control: Seq<u8>, payload: Seq<u8>)
    requires
        kitty::clean_control(control),
        !payload.contains(sixel::ESC),
        payload.len() <= kitty::KITTY_CHUNK_SIZE,
    ensures
        read_back(control, payload, control),
{
    let d = kitty::kitty_sequence(control, payload);
    let rest = Seq::<u8>::empty();
    assert(d.subrange(0, d.len() as int) =~= d);
    assert(d =~= kitty::chunk_bytes(control, payload) + rest);
    lemma_chunk_read(d, 0, control, payload, rest);
    let next = kitty::chunk_bytes(control, payload).len() as int;
    let c = ChunkModel { control, payload };
    assert(kitty::chunks_from(d, next) =~= seq![]);
    lemma_payloads_front(c, seq![]);
    lemma_small_front(c, seq![]);
    assert(kitty::chunks_from(d, 0) == seq![c] + kitty::chunks_from(d, next));
    assert(payloads(seq![]) =~= seq![]);
    assert(payload + payloads(seq![]) =~= payload);
}

proof fn lemma_long_read_back(control: Seq<u8>, payload: Seq<u8>)
    requires
        kitty::clean_control(control),
        !payload.contains(sixel::ESC),
        payload.len() > kitty::KITTY_CHUNK_SIZE,
    ensures
        read_back(control, payload, control + seq![0x2cu8] + kitty::more_entry(true)),
{
    let d = kitty::kitty_sequence(control, payload);
    let size = kitty::KITTY_CHUNK_SIZE as int;
    let first = control + seq![0x2cu8] + kitty::more_entry(true);
    let piece = payload.subrange(0, size);
    let rest = kitty::continuation(payload, size);
    assert(d.subrange(0, d.len() as int) =~= d);
    lemma_more_control(control);
    assert(!piece.contains(sixel::ESC)) by {
        assert(forall|j: int| 0 <= j < piece.len() ==> piece[j] == payload[j]);
    }
    lemma_chunk_read(d, 0, first, piece, rest);
    let next = kitty::chunk_bytes(first, piece).len() as int;
    assert(d.subrange(next, d.len() as int) =~= rest);
    lemma_continuation_read(d, next, payload, size);
    let c = ChunkModel { control: first, payload: piece };
    lemma_payloads_front(c, kitty::chunks_from(d, next));
    lemma_small_front(c, kitty::chunks_from(d, next));
    assert(kitty::chunks_from(d, 0) == seq![c] + kitty::chunks_from(d, next));
    assert(piece + payload.subrange(size, payload.len() as int) =~= payload);
}

/// Parsing a built sequence gives the payload back, in as many chunks of limited size as it takes
/// (one for an empty payload), and the control string in the first chunk (with `m=1` added where
/// there are several chunks).
pub proof fn law_sequence_read_back(control: Seq<u8>, payload: Seq<u8>)
    requires
        kitty::clean_control(control),
        !payload.contains(sixel::ESC),
    ensures
        ({
            let chunks = kitty::chunks_from(kitty::kitty_sequence(control, payload), 0);
            &&& chunks.len() == sixel::max_of(1, chunks_for(payload.len() as int))
            &&& small_payloads(chunks)
            &&& payloads(chunks) == payload
            &&& chunks[0].control == (if payload.len() <= kitty::KITTY_CHUNK_SIZE {
                control
            } else {
                control + seq![0x2cu8] + kitty::more_entry(true)
            })
        }),
{
    if payload.len() <= kitty::KITTY_CHUNK_SIZE {
        lemma_short_read_back(control, payload);
    } else {
        lemma_long_read_back(control, payload);
    }
}

} // verus!
