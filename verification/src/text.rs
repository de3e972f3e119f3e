//! Byte-string helpers: searching, splitting, joining, and decimal numbers.
use vstd::prelude::*;

verus! {

/// The position of the first `b` in `s` at or after `i`.
pub open spec fn find_byte(s: Seq<u8>, b: u8, i: int) -> Option<int>
    decreases s.len() - i,
{
    if i < 0 || i >= s.len() {
        None
    } else if s[i] == b {
        Some(i)
    } else {
        find_byte(s, b, i + 1)
    }
}

pub proof fn lemma_find_byte(s: Seq<u8>, b: u8, i: int)
    requires
        0 <= i,
    ensures
        match find_byte(s, b, i) {
            Some(k) => i <= k < s.len() && s[k] == b && (forall|j: int|
                i <= j < k ==> s[j] != b),
            None => forall|j: int| i <= j < s.len() ==> s[j] != b,
        },
    decreases s.len() - i,
{
    if i < s.len() && s[i] != b {
        lemma_find_byte(s, b, i + 1);
    }
}

/// A position that holds `b` with no earlier `b` from `i` on is what `find_byte` gives.
pub proof fn lemma_find_byte_unique(s: Seq<u8>, b: u8, i: int, k: int)
    requires
        0 <= i <= k < s.len(),
        s[k] == b,
        forall|j: int| i <= j < k ==> s[j] != b,
    ensures
        find_byte(s, b, i) == Some(k),
{
    lemma_find_byte(s, b, i);
}

pub proof fn lemma_find_byte_none(s: Seq<u8>, b: u8, i: int)
    requires
        0 <= i,
        forall|j: int| i <= j < s.len() ==> s[j] != b,
    ensures
        find_byte(s, b, i) is None,
{
    lemma_find_byte(s, b, i);
}

/// Position of the first `b` in `s` at or after `from`.
pub fn position(s: &[u8], b: u8, from: usize) -> (r: Option<usize>)
    ensures
        match r {
            Some(k) => find_byte(s@, b, from as int) == Some(k as int) && from <= k < s@.len(),
            None => find_byte(s@, b, from as int) is None,
        },
{
    let mut i: usize = from;
    while i < s.len()
        invariant
            from <= i,
            find_byte(s@, b, from as int) == find_byte(s@, b, i as int),
        decreases s.len() - i,
    {
        if s[i] == b {
            return Some(i);
        }
        i += 1;
    }
    None
}

/// The pieces of `s` from `i` on between separators `sep`; there is always at least one piece.
pub open spec fn split_from(s: Seq<u8>, sep: u8, i: int) -> Seq<Seq<u8>>
    decreases s.len() - i,
{
    if i < 0 || i > s.len() {
        seq![]
    } else {
        match find_byte(s, sep, i) {
            Some(k) => {
                proof {
                    lemma_find_byte(s, sep, i);
                }
                seq![s.subrange(i, k)] + split_from(s, sep, k + 1)
            },
            None => seq![s.subrange(i, s.len() as int)],
        }
    }
}

/// The pieces of `s` between separators `sep`.
pub open spec fn split(s: Seq<u8>, sep: u8) -> Seq<Seq<u8>> {
    split_from(s, sep, 0)
}

/// The contents of a list of byte strings.
pub open spec fn byte_lists(v: Seq<Vec<u8>>) -> Seq<Seq<u8>> {
    Seq::new(v.len(), |i: int| v[i]@)
}

/// The bytes of `s[from..to]` as an owned vector.
pub fn slice_vec(s: &[u8], from: usize, to: usize) -> (r: Vec<u8>)
    requires
        from <= to <= s@.len(),
    ensures
        r@ == s@.subrange(from as int, to as int),
{
    vstd::slice::slice_to_vec(vstd::slice::slice_subrange(s, from, to))
}

/// Splits `s` at every `sep`.
pub fn split_bytes(s: &[u8], sep: u8) -> (r: Vec<Vec<u8>>)
    ensures
        byte_lists(r@) == split(s@, sep),
        r@.len() >= 1,
{
    let mut parts: Vec<Vec<u8>> = Vec::new();
    let mut start: usize = 0;
    let n: usize = s.len();
    loop
        invariant
            n == s@.len(),
            start <= n,
            split(s@, sep) == byte_lists(parts@) + split_from(s@, sep, start as int),
        decreases n - start,
    {
        match position(s, sep, start) {
            Some(k) => {
                let piece = slice_vec(s, start, k);
                let ghost before = byte_lists(parts@);
                parts.push(piece);
                assert(byte_lists(parts@) =~= before.push(piece@));
                start = k + 1;
                assert(split(s@, sep) =~= byte_lists(parts@) + split_from(s@, sep, start as int));
            },
            None => {
                let piece = slice_vec(s, start, n);
                let ghost before = byte_lists(parts@);
                parts.push(piece);
                assert(byte_lists(parts@) =~= before.push(piece@));
                assert(split(s@, sep) =~= byte_lists(parts@));
                return parts;
            },
        }
    }
}

/// Appends the bytes of `b` to `out`.
pub fn append_bytes(out: &mut Vec<u8>, b: &[u8])
    ensures
        final(out)@ == old(out)@ + b@,
{
    let mut i: usize = 0;
    while i < b.len()
        invariant
            i <= b@.len(),
            out@ == old(out)@ + b@.subrange(0, i as int),
        decreases b.len() - i,
    {
        out.push(b[i]);
        i += 1;
        assert(b@.subrange(0, i as int) =~= b@.subrange(0, i - 1).push(b@[i - 1]));
        assert(out@ =~= old(out)@ + b@.subrange(0, i as int));
    }
    assert(b@.subrange(0, i as int) =~= b@);
}

/// The pieces written one after the other with `sep` between them.
pub open spec fn join(parts: Seq<Seq<u8>>, sep: u8) -> Seq<u8>
    decreases parts.len(),
{
    if parts.len() == 0 {
        seq![]
    } else if parts.len() == 1 {
        parts[0]
    } else {
        join(parts.drop_last(), sep).push(sep) + parts.last()
    }
}

/// The concatenation of all pieces.
pub open spec fn concat_all(parts: Seq<Seq<u8>>) -> Seq<u8>
    decreases parts.len(),
{
    if parts.len() == 0 {
        seq![]
    } else {
        concat_all(parts.drop_last()) + parts.last()
    }
}

pub open spec fn is_digit(b: u8) -> bool {
    0x30 <= b <= 0x39
}

pub open spec fn all_digits(s: Seq<u8>) -> bool {
    forall|i: int| 0 <= i < s.len() ==> is_digit(#[trigger] s[i])
}

/// The number that a string of decimal digits denotes.
pub open spec fn digits_value(s: Seq<u8>) -> int
    decreases s.len(),
{
    if s.len() == 0 {
        0
    } else {
        digits_value(s.drop_last()) * 10 + (s.last() - 0x30)
    }
}

pub proof fn lemma_digits_value_bounds(s: Seq<u8>)
    requires
        all_digits(s),
    ensures
        digits_value(s) >= 0,
    decreases s.len(),
{
    if s.len() > 0 {
        assert(all_digits(s.drop_last()));
        assert(is_digit(s[s.len() - 1]));
        lemma_digits_value_bounds(s.drop_last());
    }
}

/// A prefix of a string of digits denotes no larger a number.
pub proof fn lemma_digits_value_prefix(s: Seq<u8>, k: int)
    requires
        all_digits(s),
        0 <= k <= s.len(),
    ensures
        0 <= digits_value(s.subrange(0, k)) <= digits_value(s),
    decreases s.len(),
{
    lemma_digits_value_bounds(s);
    if k == s.len() {
        assert(s.subrange(0, k) =~= s);
    } else {
        assert(all_digits(s.drop_last()));
        assert(is_digit(s[s.len() - 1]));
        lemma_digits_value_prefix(s.drop_last(), k);
        assert(s.drop_last().subrange(0, k) =~= s.subrange(0, k));
        lemma_digits_value_bounds(s.drop_last());
    }
}

/// What reading `s` as an unsigned decimal number gives: an optional `+`, at least one digit,
/// nothing else, and no more than `max`.
pub open spec fn parse_unsigned(s: Seq<u8>, max: int) -> Option<int> {
    let d = if s.len() > 0 && s[0] == 0x2b {
        s.subrange(1, s.len() as int)
    } else {
        s
    };
    if d.len() > 0 && all_digits(d) && digits_value(d) <= max {
        Some(digits_value(d))
    } else {
        None
    }
}

/// What reading `s` as a signed 64-bit decimal number gives: an optional sign, at least one
/// digit, nothing else, and within range.
pub open spec fn parse_signed(s: Seq<u8>) -> Option<int> {
    let signed = s.len() > 0 && (s[0] == 0x2b || s[0] == 0x2d);
    let d = if signed {
        s.subrange(1, s.len() as int)
    } else {
        s
    };
    if d.len() > 0 && all_digits(d) {
        let v = if s[0] == 0x2d {
            -digits_value(d)
        } else {
            digits_value(d)
        };
        if i64::MIN <= v <= i64::MAX {
            Some(v)
        } else {
            None
        }
    } else {
        None
    }
}

/// Reads the digits of `s` from `from` on; `None` unless they are all digits and the number is
/// at most `max`.
pub fn digits_up_to(s: &[u8], from: usize, max: u64) -> (r: Option<u64>)
    requires
        from < s@.len(),
    ensures
        ({
            let d = s@.subrange(from as int, s@.len() as int);
            match r {
                Some(v) => all_digits(d) && digits_value(d) == v && v <= max,
                None => !all_digits(d) || digits_value(d) > max,
            }
        }),
{
    let ghost d = s@.subrange(from as int, s@.len() as int);
    let mut v: u64 = 0;
    let mut i: usize = from;
    while i < s.len()
        invariant
            from <= i <= s@.len(),
            d == s@.subrange(from as int, s@.len() as int),
            all_digits(d.subrange(0, i - from)),
            v == digits_value(d.subrange(0, i - from)),
            v <= max,
        decreases s.len() - i,
    {
        let b = s[i];
        assert(d[i - from] == b);
        if b < 0x30 || b > 0x39 {
            assert(!is_digit(d[i - from]));
            return None;
        }
        let x: u64 = (b - 0x30) as u64;
        assert(d.subrange(0, i + 1 - from).drop_last() =~= d.subrange(0, i - from));
        assert(d.subrange(0, i + 1 - from).last() == b);
        assert(digits_value(d.subrange(0, i + 1 - from)) == v * 10 + x);
        if x > max || v > (max - x) / 10 {
            proof {
                assert(v * 10 + x > max);
                if all_digits(d) {
                    lemma_digits_value_prefix(d, i + 1 - from);
                }
            }
            return None;
        }
        assert forall|j: int| 0 <= j < i + 1 - from implies is_digit(
            #[trigger] d.subrange(0, i + 1 - from)[j],
        ) by {
            if j < i - from {
                assert(d.subrange(0, i + 1 - from)[j] == d.subrange(0, i - from)[j]);
            }
        }
        v = v * 10 + x;
        i += 1;
    }
    assert(d.subrange(0, i - from) =~= d);
    Some(v)
}

/// Reads an unsigned decimal number of at most `max`.
fn parse_unsigned_up_to(s: &[u8], max: u64) -> (r: Option<u64>)
    ensures
        match r {
            Some(v) => parse_unsigned(s@, max as int) == Some(v as int) && v <= max,
            None => parse_unsigned(s@, max as int) is None,
        },
{
    let from: usize = if s.len() > 0 && s[0] == 0x2b {
        1
    } else {
        0
    };
    if from >= s.len() {
        return None;
    }
    assert(from == 0 ==> s@.subrange(0, s@.len() as int) =~= s@);
    digits_up_to(s, from, max)
}

/// Reads a `usize`.
pub fn parse_usize(s: &[u8]) -> (r: Option<usize>)
    ensures
        match r {
            Some(v) => parse_unsigned(s@, usize::MAX as int) == Some(v as int),
            None => parse_unsigned(s@, usize::MAX as int) is None,
        },
{
    match parse_unsigned_up_to(s, usize::MAX as u64) {
        Some(v) => Some(v as usize),
        None => None,
    }
}

/// Reads a `u32`.
pub fn parse_u32(s: &[u8]) -> (r: Option<u32>)
    ensures
        match r {
            Some(v) => parse_unsigned(s@, u32::MAX as int) == Some(v as int),
            None => parse_unsigned(s@, u32::MAX as int) is None,
        },
{
    match parse_unsigned_up_to(s, u32::MAX as u64) {
        Some(v) => Some(v as u32),
        None => None,
    }
}

/// Reads an `i64`.
pub fn parse_i64(s: &[u8]) -> (r: Option<i64>)
    ensures
        match r {
            Some(v) => parse_signed(s@) == Some(v as int),
            None => parse_signed(s@) is None,
        },
{
    if s.len() == 0 {
        return None;
    }
    let neg = s[0] == 0x2d;
    let from: usize = if neg || s[0] == 0x2b {
        1
    } else {
        0
    };
    if from >= s.len() {
        return None;
    }
    assert(from == 0 ==> s@.subrange(0, s@.len() as int) =~= s@);
    let limit: u64 = if neg {
        0x8000_0000_0000_0000
    } else {
        0x7fff_ffff_ffff_ffff
    };
    match digits_up_to(s, from, limit) {
        Some(v) => {
            if !neg {
                Some(v as i64)
            } else if v == 0x8000_0000_0000_0000 {
                Some(i64::MIN)
            } else {
                Some(-(v as i64))
            }
        },
        None => None,
    }
}

/// The decimal digits of `n`, without leading zeros.
pub open spec fn decimal(n: int) -> Seq<u8>
    decreases n,
{
    if n < 10 {
        seq![(0x30 + n) as u8]
    } else {
        decimal(n / 10).push((0x30 + n % 10) as u8)
    }
}

/// Writing a number and reading it back gives the number.
pub proof fn lemma_decimal_digits(n: int)
    requires
        0 <= n,
    ensures
        decimal(n).len() > 0,
        all_digits(decimal(n)),
        digits_value(decimal(n)) == n,
    decreases n,
{
    if n < 10 {
        assert(decimal(n).drop_last() =~= Seq::<u8>::empty());
        assert(digits_value(Seq::<u8>::empty()) == 0);
    } else {
        lemma_decimal_digits(n / 10);
        assert(decimal(n).drop_last() =~= decimal(n / 10));
        assert forall|i: int| 0 <= i < decimal(n).len() implies is_digit(
            #[trigger] decimal(n)[i],
        ) by {
            if i < decimal(n / 10).len() {
                assert(decimal(n)[i] == decimal(n / 10)[i]);
            }
        }
    }
}

/// The decimal digits of `n` as bytes.
pub fn decimal_bytes(n: usize) -> (r: Vec<u8>)
    ensures
        r@ == decimal(n as int),
    decreases n,
{
    if n < 10 {
        let mut r: Vec<u8> = Vec::new();
        r.push(0x30 + n as u8);
        assert(r@ =~= decimal(n as int));
        r
    } else {
        let mut r = decimal_bytes(n / 10);
        r.push(0x30 + (n % 10) as u8);
        r
    }
}

/// A number is read back: with a plus sign or without, and with a minus sign as its negative, as far
/// as it is in range. A sign alone, and nothing at all, are no numbers.
pub proof fn law_numbers_read(n: int, max: int)
    requires
        0 <= n,
    ensures
        parse_unsigned(decimal(n), max) == (if n <= max {
            Some(n)
        } else {
            None
        }),
        parse_unsigned(seq![0x2bu8] + decimal(n), max) == (if n <= max {
            Some(n)
        } else {
            None
        }),
        parse_unsigned(seq![0x2du8] + decimal(n), max) is None,
        n <= i64::MAX ==> parse_signed(decimal(n)) == Some(n) && parse_signed(
            seq![0x2bu8] + decimal(n),
        ) == Some(n),
        n <= i64::MAX + 1 ==> parse_signed(seq![0x2du8] + decimal(n)) == Some(-n),
        n > i64::MAX ==> parse_signed(decimal(n)) is None,
        parse_unsigned(seq![], max) is None,
        parse_unsigned(seq![0x2bu8], max) is None,
        parse_signed(seq![]) is None,
        parse_signed(seq![0x2du8]) is None,
{
    lemma_decimal_digits(n);
    let d = decimal(n);
    assert(is_digit(d[0]));
    let plus = seq![0x2bu8] + d;
    let minus = seq![0x2du8] + d;
    assert(plus[0] == 0x2b && minus[0] == 0x2d);
    assert(plus.subrange(1, plus.len() as int) =~= d);
    assert(minus.subrange(1, minus.len() as int) =~= d);
    assert(!is_digit(minus[0]));
}

/// Anything but digits behind an optional sign is no number.
pub proof fn law_no_number(s: Seq<u8>, k: int, max: int)
    requires
        0 <= k < s.len(),
        !(0x30 <= s[k] <= 0x39),
        k > 0 || s[0] != 0x2b && s[0] != 0x2d,
    ensures
        parse_unsigned(s, max) is None,
        parse_signed(s) is None,
{
    let t = s.subrange(1, s.len() as int);
    if k > 0 {
        assert(t[k - 1] == s[k]);
        assert(!is_digit(t[k - 1]));
    }
    assert(!is_digit(s[k]));
}

} // verus!
