//! Kitty graphics: finding a sequence, measuring it, and cutting rows out of it.
use vstd::prelude::*;
use vstd::string::*;
use vstd::utf8::*;
use crate::external;
use crate::sixel;
use crate::sixel::{div_ceil, st_here, ESC};
use crate::text;

verus! {

/// Maximum base64 payload bytes per chunk.
pub const KITTY_CHUNK_SIZE: usize = 4096;

// ---------------------------------------------------------------------------
// Sequence boundaries
// ---------------------------------------------------------------------------

/// The end (exclusive) of the first two-byte string terminator at or after `i`.
pub open spec fn st_end_from(d: Seq<u8>, i: int) -> Option<int>
    decreases d.len() - i,
{
    if i < 0 || i >= d.len() {
        None
    } else if sixel::st_at(d, i) {
        Some(i + 2)
    } else {
        st_end_from(d, i + 1)
    }
}

pub proof fn lemma_st_end(d: Seq<u8>, i: int)
    requires
        0 <= i,
    ensures
        match st_end_from(d, i) {
            Some(e) => i + 2 <= e <= d.len() && sixel::st_at(d, e - 2) && (forall|j: int|
                i <= j < e - 2 ==> !sixel::st_at(d, j)),
            None => forall|j: int| i <= j ==> !sixel::st_at(d, j),
        },
    decreases d.len() - i,
{
    if i < d.len() && !sixel::st_at(d, i) {
        lemma_st_end(d, i + 1);
    }
}

/// Whether a kitty graphics chunk starts here: ESC _ G.
pub open spec fn chunk_starts(d: Seq<u8>, i: int) -> bool {
    0 <= i && i + 2 < d.len() && d[i] == ESC && d[i + 1] == 0x5f && d[i + 2] == 0x47
}

/// The control part of a chunk: what follows ESC _ G up to the first `;`, or to the first escape
/// byte if there is no `;`. `None` if the bytes do not start with ESC _ G.
pub open spec fn control_part(chunk: Seq<u8>) -> Option<Seq<u8>> {
    if chunk_starts(chunk, 0) {
        let end = match text::find_byte(chunk, 0x3b, 3) {
            Some(k) => k,
            None => match text::find_byte(chunk, ESC, 3) {
                Some(k) => k,
                None => chunk.len() as int,
            },
        };
        Some(chunk.subrange(3, end))
    } else {
        None
    }
}

/// Whether a chunk announces another one: its control part has the entry `m=1`.
pub open spec fn has_more(chunk: Seq<u8>) -> bool {
    match control_part(chunk) {
        Some(control) => text::split(control, 0x2c).contains(seq![0x6du8, 0x3du8, 0x31u8]),
        None => false,
    }
}

/// The end of the single chunk that starts at `i`.
pub open spec fn single_chunk_end(d: Seq<u8>, i: int) -> Option<int> {
    if i + 2 >= d.len() || d[i] != ESC || d[i + 1] != 0x5f {
        None
    } else {
        st_end_from(d, i + 2)
    }
}

/// The end of the run of continuation chunks from `i` on, up to and including the first that
/// announces no other; `None` if the run breaks off.
pub open spec fn chain_end(d: Seq<u8>, i: int) -> Option<int>
    decreases d.len() - i,
{
    if i < 0 {
        None
    } else {
        match single_chunk_end(d, i) {
            None => None,
            Some(e) => {
                proof {
                    lemma_st_end(d, i + 2);
                }
                if has_more(d.subrange(i, e)) {
                    chain_end(d, e)
                } else {
                    Some(e)
                }
            },
        }
    }
}

/// The end of the kitty sequence that starts at `start`: of its first chunk, or of the whole run
/// of chunks if the first announces more and the run is complete.
pub open spec fn kitty_end(d: Seq<u8>, start: int) -> Option<int> {
    match st_end_from(d, start + 2) {
        None => None,
        Some(e) => if has_more(d.subrange(start, e)) {
            match chain_end(d, e) {
                Some(last) => Some(last),
                None => Some(e),
            }
        } else {
            Some(e)
        },
    }
}

pub proof fn lemma_chain_end(d: Seq<u8>, i: int)
    requires
        0 <= i,
    ensures
        match chain_end(d, i) {
            Some(e) => i < e <= d.len(),
            None => true,
        },
    decreases d.len() - i,
{
    if let Some(e) = single_chunk_end(d, i) {
        lemma_st_end(d, i + 2);
        if has_more(d.subrange(i, e)) {
            lemma_chain_end(d, e);
        }
    }
}

pub proof fn lemma_kitty_end(d: Seq<u8>, start: int)
    requires
        0 <= start,
    ensures
        match kitty_end(d, start) {
            Some(e) => start + 2 < e <= d.len(),
            None => true,
        },
{
    lemma_st_end(d, start + 2);
    if let Some(e) = st_end_from(d, start + 2) {
        lemma_chain_end(d, e);
    }
}

fn find_st_end(d: &[u8], from: usize) -> (r: Option<usize>)
    ensures
        match r {
            Some(e) => st_end_from(d@, from as int) == Some(e as int) && from + 2 <= e
                <= d@.len(),
            None => st_end_from(d@, from as int) is None,
        },
{
    let mut i: usize = from;
    let n: usize = d.len();
    while i < n
        invariant
            n == d@.len(),
            from <= i,
            st_end_from(d@, from as int) == st_end_from(d@, i as int),
        decreases n - i,
    {
        if st_here(d, i) {
            return Some(i + 2);
        }
        i += 1;
    }
    None
}

/// Whether ESC _ G stands at `i`.
fn chunk_here(d: &[u8], i: usize) -> (r: bool)
    requires
        i + 2 < d@.len(),
    ensures
        r == chunk_starts(d@, i as int),
{
    let n: usize = d.len();
    d[i] == ESC && d[i + 1] == 0x5f && d[i + 2] == 0x47
}

/// The control part of a chunk.
fn chunk_control(chunk: &[u8]) -> (r: Option<Vec<u8>>)
    ensures
        match r {
            Some(c) => control_part(chunk@) == Some(c@),
            None => control_part(chunk@) is None,
        },
{
    let n: usize = chunk.len();
    if n < 3 || !chunk_here(chunk, 0) {
        return None;
    }
    let end: usize = match text::position(chunk, 0x3b, 3) {
        Some(k) => k,
        None => match text::position(chunk, ESC, 3) {
            Some(k) => k,
            None => n,
        },
    };
    Some(text::slice_vec(chunk, 3, end))
}

/// Whether a chunk announces another one.
pub fn kitty_chunk_has_more(chunk: &[u8]) -> (r: bool)
    ensures
        r == has_more(chunk@),
{
    let control = match chunk_control(chunk) {
        Some(c) => c,
        None => return false,
    };
    let parts = text::split_bytes(control.as_slice(), 0x2c);
    let ghost want = seq![0x6du8, 0x3du8, 0x31u8];
    let ghost all = text::split(control@, 0x2c);
    assert(all.len() == parts@.len());
    let mut i: usize = 0;
    while i < parts.len()
        invariant
            i <= parts@.len(),
            all == text::byte_lists(parts@),
            all == text::split(control@, 0x2c),
            control_part(chunk@) == Some(control@),
            want == seq![0x6du8, 0x3du8, 0x31u8],
            forall|j: int| 0 <= j < i ==> all[j] != want,
        decreases parts.len() - i,
    {
        let p = &parts[i];
        assert(all[i as int] == p@);
        if p.len() == 3 && p[0] == 0x6d && p[1] == 0x3d && p[2] == 0x31 {
            assert(all[i as int] =~= want);
            return true;
        }
        assert(all[i as int] != want) by {
            if all[i as int] == want {
                assert(p@.len() == 3 && p@[0] == 0x6d && p@[1] == 0x3d && p@[2] == 0x31);
            }
        }
        i += 1;
    }
    assert(!all.contains(want));
    false
}

/// The end of the single chunk that starts at `start`, and its bytes.
pub fn find_single_kitty_chunk(bytes: &[u8], start: usize) -> (r: Option<(usize, Vec<u8>)>)
    requires
        start + 2 <= usize::MAX,
    ensures
        match r {
            Some((end, data)) => {
                &&& single_chunk_end(bytes@, start as int) == Some(end as int)
                &&& start + 2 < end <= bytes@.len()
                &&& data@ == bytes@.subrange(start as int, end as int)
            },
            None => single_chunk_end(bytes@, start as int) is None,
        },
{
    if start + 2 >= bytes.len() || bytes[start] != ESC || bytes[start + 1] != 0x5f {
        return None;
    }
    match find_st_end(bytes, start + 2) {
        Some(end) => Some((end, text::slice_vec(bytes, start, end))),
        None => None,
    }
}

/// The end of the run of continuation chunks from `from` on.
fn find_chain_end(bytes: &[u8], from: usize) -> (r: Option<usize>)
    requires
        from <= bytes@.len(),
    ensures
        match r {
            Some(e) => chain_end(bytes@, from as int) == Some(e as int) && from < e <= bytes@.len(),
            None => chain_end(bytes@, from as int) is None,
        },
{
    let n: usize = bytes.len();
    let mut at: usize = from;
    loop
        invariant
            n == bytes@.len(),
            from <= at <= n,
            chain_end(bytes@, from as int) == chain_end(bytes@, at as int),
        decreases n - at,
    {
        if at >= n || n - at <= 2 {
            return None;
        }
        match find_single_kitty_chunk(bytes, at) {
            None => {
                return None;
            },
            Some((end, chunk)) => {
                if !kitty_chunk_has_more(chunk.as_slice()) {
                    return Some(end);
                }
                at = end;
            },
        }
    }
}

/// Find the end of a kitty graphics sequence starting at `start`: the position after it, and its
/// bytes.
pub fn find_kitty_end(bytes: &[u8], start: usize) -> (r: Option<(usize, Vec<u8>)>)
    requires
        start + 2 <= usize::MAX,
    ensures
        match r {
            Some((end, data)) => {
                &&& kitty_end(bytes@, start as int) == Some(end as int)
                &&& start + 2 < end <= bytes@.len()
                &&& data@ == bytes@.subrange(start as int, end as int)
            },
            None => kitty_end(bytes@, start as int) is None,
        },
{
    let end: usize = match find_st_end(bytes, start + 2) {
        Some(e) => e,
        None => return None,
    };
    let chunk = text::slice_vec(bytes, start, end);
    if kitty_chunk_has_more(chunk.as_slice()) {
        match find_chain_end(bytes, end) {
            Some(last) => Some((last, text::slice_vec(bytes, start, last))),
            None => Some((end, chunk)),
        }
    } else {
        Some((end, chunk))
    }
}

// ---------------------------------------------------------------------------
// Chunks
// ---------------------------------------------------------------------------

/// A parsed chunk from a kitty graphics sequence.
pub struct KittyChunk {
    /// The control parameters (between `G` and `;` or the terminator), as text.
    pub control: Vec<u8>,
    /// The payload bytes (between `;` and the terminator). Empty if there is no payload.
    pub payload: Vec<u8>,
}

/// Control and payload of a chunk.
pub struct ChunkModel {
    pub control: Seq<u8>,
    pub payload: Seq<u8>,
}

impl View for KittyChunk {
    type V = ChunkModel;

    open spec fn view(&self) -> ChunkModel {
        ChunkModel { control: self.control@, payload: self.payload@ }
    }
}

pub open spec fn chunk_models(v: Seq<KittyChunk>) -> Seq<ChunkModel> {
    Seq::new(v.len(), |i: int| v[i]@)
}

/// Where the control part that starts at `i` ends: at a `;`, an escape byte or the end.
pub open spec fn control_end(d: Seq<u8>, i: int) -> int
    decreases d.len() - i,
{
    if 0 <= i < d.len() && d[i] != 0x3b && d[i] != ESC {
        control_end(d, i + 1)
    } else {
        i
    }
}

/// Where the payload that starts at `i` ends: at a string terminator or the end.
pub open spec fn payload_end(d: Seq<u8>, i: int) -> int
    decreases d.len() - i,
{
    if 0 <= i < d.len() && !sixel::st_at(d, i) {
        payload_end(d, i + 1)
    } else {
        i
    }
}

pub proof fn lemma_control_end(d: Seq<u8>, i: int)
    requires
        0 <= i <= d.len(),
    ensures
        i <= control_end(d, i) <= d.len(),
        forall|j: int| i <= j < control_end(d, i) ==> d[j] != 0x3b && #[trigger] d[j] != ESC,
    decreases d.len() - i,
{
    if i < d.len() && d[i] != 0x3b && d[i] != ESC {
        lemma_control_end(d, i + 1);
    }
}

pub proof fn lemma_payload_end(d: Seq<u8>, i: int)
    requires
        0 <= i <= d.len(),
    ensures
        i <= payload_end(d, i) <= d.len(),
    decreases d.len() - i,
{
    if i < d.len() && !sixel::st_at(d, i) {
        lemma_payload_end(d, i + 1);
    }
}

/// The chunk that starts at `i` and the position from which to look for the next one.
pub open spec fn chunk_at(d: Seq<u8>, i: int) -> (ChunkModel, int) {
    let c = control_end(d, i + 3);
    let control = external::lossy_bytes(d.subrange(i + 3, c));
    let (payload, end) = if c < d.len() && d[c] == 0x3b {
        let p = payload_end(d, c + 1);
        (d.subrange(c + 1, p), p)
    } else {
        (seq![], c)
    };
    let next = if sixel::st_at(d, end) {
        end + 2
    } else {
        end
    };
    (ChunkModel { control, payload }, next)
}

pub proof fn lemma_chunk_at(d: Seq<u8>, i: int)
    requires
        chunk_starts(d, i),
    ensures
        i + 3 <= chunk_at(d, i).1 <= d.len(),
{
    lemma_control_end(d, i + 3);
    let c = control_end(d, i + 3);
    if c < d.len() {
        lemma_payload_end(d, c + 1);
    }
}

/// All chunks from `i` on.
pub open spec fn chunks_from(d: Seq<u8>, i: int) -> Seq<ChunkModel>
    decreases d.len() - i,
{
    if i < 0 || i + 2 >= d.len() {
        seq![]
    } else if chunk_starts(d, i) {
        proof {
            lemma_chunk_at(d, i);
        }
        seq![chunk_at(d, i).0] + chunks_from(d, chunk_at(d, i).1)
    } else {
        chunks_from(d, i + 1)
    }
}

/// The lossily decoded text of some bytes, as bytes.
fn lossy_text(bytes: &[u8]) -> (r: Vec<u8>)
    ensures
        r@ == external::lossy_bytes(bytes@),
        valid_utf8(r@),
        forall|b: u8| b < 0x80 && #[trigger] r@.contains(b) ==> bytes@.contains(b),
{
    let s = external::from_utf8_lossy(bytes);
    proof {
        broadcast use {
            vstd::utf8::decode_utf8_encode_utf8,
            vstd::utf8::encode_utf8_valid_utf8,
        };

    }
    vstd::slice::slice_to_vec(s.as_str().as_bytes())
}

/// A control string that can be written back into a chunk: text without `;` or escape bytes.
pub open spec fn clean_control(control: Seq<u8>) -> bool {
    &&& valid_utf8(control)
    &&& !control.contains(0x3b)
    &&& !control.contains(ESC)
}

/// Parse all kitty chunks from raw image data.
/// Each chunk has the form: ESC _ G <control> [; <payload>] ESC \
pub fn parse_kitty_chunks(data: &[u8]) -> (r: Vec<KittyChunk>)
    ensures
        chunk_models(r@) == chunks_from(data@, 0),
        forall|k: int| 0 <= k < r@.len() ==> clean_control((#[trigger] r@[k]).control@),
{
    let n: usize = data.len();
    let mut chunks: Vec<KittyChunk> = Vec::new();
    let mut i: usize = 0;
    assert(chunk_models(chunks@) + chunks_from(data@, 0) =~= chunks_from(data@, 0));
    while i < n && n - i > 2
        invariant
            n == data@.len(),
            i <= n,
            chunks_from(data@, 0) == chunk_models(chunks@) + chunks_from(data@, i as int),
            forall|k: int|
                0 <= k < chunks@.len() ==> clean_control((#[trigger] chunks@[k]).control@),
        decreases n - i,
    {
        if chunk_here(data, i) {
            let ghost from = i as int;
            proof {
                lemma_chunk_at(data@, i as int);
                lemma_control_end(data@, i + 3);
            }
            i += 3;
            let start: usize = i;
            while i < n && data[i] != 0x3b && data[i] != ESC
                invariant
                    n == data@.len(),
                    start <= i <= n,
                    control_end(data@, start as int) == control_end(data@, i as int),
                decreases n - i,
            {
                i += 1;
            }
            let slice = vstd::slice::slice_subrange(data, start, i);
            let control = lossy_text(slice);
            proof {
                assert(!slice@.contains(0x3b)) by {
                    assert(forall|j: int|
                        0 <= j < slice@.len() ==> slice@[j] == #[trigger] data@[start + j]);
                }
                assert(!slice@.contains(ESC)) by {
                    assert(forall|j: int|
                        0 <= j < slice@.len() ==> slice@[j] == #[trigger] data@[start + j]);
                }
            }
            let mut payload: Vec<u8> = Vec::new();
            if i < n && data[i] == 0x3b {
                i += 1;
                let payload_start: usize = i;
                while i < n && !st_here(data, i)
                    invariant
                        n == data@.len(),
                        payload_start <= i <= n,
                        payload_end(data@, payload_start as int) == payload_end(data@, i as int),
                    decreases n - i,
                {
                    i += 1;
                }
                payload = text::slice_vec(data, payload_start, i);
            }
            if i < n && st_here(data, i) {
                i += 2;
            }
            let ghost before = chunk_models(chunks@);
            assert(payload@ =~= chunk_at(data@, from).0.payload);
            let chunk = KittyChunk { control, payload };
            chunks.push(chunk);
            assert(chunk_models(chunks@) =~= before.push(chunk@));
            assert(chunk_at(data@, from) == (chunk@, i as int));
            assert(chunks_from(data@, 0) =~= chunk_models(chunks@) + chunks_from(data@, i as int));
        } else {
            i += 1;
        }
    }
    assert(chunk_models(chunks@) + chunks_from(data@, i as int) =~= chunk_models(chunks@));
    chunks
}

// ---------------------------------------------------------------------------
// Control parameters
// ---------------------------------------------------------------------------

/// Whether an entry has the form `key=...` with the one-letter key `key`.
pub open spec fn has_key(part: Seq<u8>, key: u8) -> bool {
    part.len() >= 2 && part[0] == key && part[1] == 0x3d
}

/// The value of the last entry with the one-letter key `key`.
pub open spec fn last_value(parts: Seq<Seq<u8>>, key: u8) -> Option<Seq<u8>>
    decreases parts.len(),
{
    if parts.len() == 0 {
        None
    } else if has_key(parts.last(), key) {
        Some(parts.last().subrange(2, parts.last().len() as int))
    } else {
        last_value(parts.drop_last(), key)
    }
}

/// The number that the last entry with key `key` holds: `default` where there is no such entry
/// or it holds no number up to `max`.
pub open spec fn number_of(parts: Seq<Seq<u8>>, key: u8, default: int, max: int) -> int {
    match last_value(parts, key) {
        Some(v) => match text::parse_unsigned(v, max) {
            Some(n) => n,
            None => default,
        },
        None => default,
    }
}

/// The keys that clipping manages itself: f, s, v, o, r, m, y, h.
pub open spec fn managed_key(key: u8) -> bool {
    key == 0x66 || key == 0x73 || key == 0x76 || key == 0x6f || key == 0x72 || key == 0x6d || key
        == 0x79 || key == 0x68
}

/// Whether an entry is handed through: a `key=value` pair whose key clipping does not manage.
pub open spec fn handed_through(part: Seq<u8>) -> bool {
    part.contains(0x3d) && !(part.len() >= 2 && part[1] == 0x3d && managed_key(part[0]))
}

/// The entries that are handed through.
pub open spec fn others(parts: Seq<Seq<u8>>) -> Seq<Seq<u8>>
    decreases parts.len(),
{
    if parts.len() == 0 {
        seq![]
    } else if handed_through(parts.last()) {
        others(parts.drop_last()).push(parts.last())
    } else {
        others(parts.drop_last())
    }
}

/// Parsed control parameters from a kitty graphics chunk.
pub struct KittyControl {
    /// f= (24 = RGB, 32 = RGBA, 100 = PNG)
    pub format: u32,
    /// s=
    pub pixel_w: usize,
    /// v=
    pub pixel_h: usize,
    /// o=z
    pub compressed: bool,
    /// All other key=value pairs, verbatim (a, c, i, p, t, ...).
    pub other_params: Vec<Vec<u8>>,
}

/// What a control string says.
pub struct ControlModel {
    pub format: int,
    pub pixel_w: int,
    pub pixel_h: int,
    pub compressed: bool,
    pub other_params: Seq<Seq<u8>>,
}

impl View for KittyControl {
    type V = ControlModel;

    open spec fn view(&self) -> ControlModel {
        ControlModel {
            format: self.format as int,
            pixel_w: self.pixel_w as int,
            pixel_h: self.pixel_h as int,
            compressed: self.compressed,
            other_params: text::byte_lists(self.other_params@),
        }
    }
}

/// The parameters in a list of entries; a later entry overrides an earlier one.
pub open spec fn control_of_parts(parts: Seq<Seq<u8>>) -> ControlModel {
    ControlModel {
        format: number_of(parts, 0x66, 32, u32::MAX as int),
        pixel_w: number_of(parts, 0x73, 0, usize::MAX as int),
        pixel_h: number_of(parts, 0x76, 0, usize::MAX as int),
        compressed: last_value(parts, 0x6f) == Some(seq![0x7au8]),
        other_params: others(parts),
    }
}

/// The parameters in a control string.
pub open spec fn control_of(control: Seq<u8>) -> ControlModel {
    control_of_parts(text::split(control, 0x2c))
}

/// Whether `b` occurs in `s`.
fn has_byte(s: &[u8], b: u8) -> (r: bool)
    ensures
        r == s@.contains(b),
{
    proof {
        text::lemma_find_byte(s@, b, 0);
    }
    match text::position(s, b, 0) {
        Some(k) => {
            assert(s@[k as int] == b);
            true
        },
        None => false,
    }
}

fn is_managed_key(key: u8) -> (r: bool)
    ensures
        r == managed_key(key),
{
    key == 0x66 || key == 0x73 || key == 0x76 || key == 0x6f || key == 0x72 || key == 0x6d || key
        == 0x79 || key == 0x68
}

/// Extract structured control parameters from the first chunk's control string.
pub fn parse_kitty_control(control: &[u8]) -> (r: KittyControl)
    ensures
        r@ == control_of(control@),
{
    let parts = text::split_bytes(control, 0x2c);
    let ghost all = text::split(control@, 0x2c);
    assert(all.len() == parts@.len());
    let mut format: u32 = 32;
    let mut pixel_w: usize = 0;
    let mut pixel_h: usize = 0;
    let mut compressed = false;
    let mut other_params: Vec<Vec<u8>> = Vec::new();
    let mut i: usize = 0;
    assert(all.subrange(0, 0).len() == 0);
    assert(text::byte_lists(other_params@) =~= others(all.subrange(0, 0)));
    while i < parts.len()
        invariant
            i <= parts@.len(),
            all == text::byte_lists(parts@),
            format == number_of(all.subrange(0, i as int), 0x66, 32, u32::MAX as int),
            pixel_w == number_of(all.subrange(0, i as int), 0x73, 0, usize::MAX as int),
            pixel_h == number_of(all.subrange(0, i as int), 0x76, 0, usize::MAX as int),
            compressed == (last_value(all.subrange(0, i as int), 0x6f) == Some(seq![0x7au8])),
            text::byte_lists(other_params@) == others(all.subrange(0, i as int)),
        decreases parts.len() - i,
    {
        let p = &parts[i];
        let n: usize = p.len();
        let ghost now = all.subrange(0, i + 1);
        assert(now.last() == p@);
        assert(now.drop_last() =~= all.subrange(0, i as int));
        if n >= 2 && p[1] == 0x3d && is_managed_key(p[0]) {
            assert(p@.contains(0x3d)) by {
                assert(p@[1] == 0x3d);
            }
            let key = p[0];
            let value = text::slice_vec(p.as_slice(), 2, n);
            if key == 0x66 {
                format = match text::parse_u32(value.as_slice()) {
                    Some(v) => v,
                    None => 32,
                };
            } else if key == 0x73 {
                pixel_w = match text::parse_usize(value.as_slice()) {
                    Some(v) => v,
                    None => 0,
                };
            } else if key == 0x76 {
                pixel_h = match text::parse_usize(value.as_slice()) {
                    Some(v) => v,
                    None => 0,
                };
            } else if key == 0x6f {
                compressed = value.len() == 1 && value[0] == 0x7a;
                assert(compressed == (value@ =~= seq![0x7au8]));
            }
        } else if has_byte(p.as_slice(), 0x3d) {
            let ghost before = text::byte_lists(other_params@);
            other_params.push(text::slice_vec(p.as_slice(), 0, n));
            assert(p@.subrange(0, n as int) =~= p@);
            assert(text::byte_lists(other_params@) =~= before.push(p@));
        }
        i += 1;
    }
    assert(all.subrange(0, i as int) =~= all);
    KittyControl { format, pixel_w, pixel_h, compressed, other_params }
}

/// The entries of a rebuilt control string.
pub open spec fn rebuilt_entries(
    other: Seq<Seq<u8>>,
    format: int,
    width: int,
    height: int,
    compressed: bool,
) -> Seq<Seq<u8>> {
    let dims = other.push(seq![0x66u8, 0x3du8] + text::decimal(format)).push(
        seq![0x73u8, 0x3du8] + text::decimal(width),
    ).push(seq![0x76u8, 0x3du8] + text::decimal(height));
    if compressed {
        dims.push(seq![0x6fu8, 0x3du8, 0x7au8])
    } else {
        dims
    }
}

/// Appends `sep` (unless `out` is still to get its first entry) and an entry.
fn append_entry(out: &mut Vec<u8>, parts: Ghost<Seq<Seq<u8>>>, first: bool, entry: &[u8])
    requires
        old(out)@ == text::join(parts@, 0x2c),
        first == (parts@.len() == 0),
    ensures
        final(out)@ == text::join(parts@.push(entry@), 0x2c),
{
    let ghost all = parts@.push(entry@);
    assert(all.drop_last() =~= parts@);
    assert(all.last() == entry@);
    if !first {
        out.push(0x2c);
    }
    text::append_bytes(out, entry);
    if first {
        assert(out@ =~= entry@);
    } else {
        assert(out@ =~= text::join(parts@, 0x2c).push(0x2c) + entry@);
    }
}

/// A `key=number` entry.
fn number_entry(key: u8, n: usize) -> (r: Vec<u8>)
    ensures
        r@ == seq![key, 0x3du8] + text::decimal(n as int),
{
    let mut r: Vec<u8> = Vec::new();
    r.push(key);
    r.push(0x3d);
    let digits = text::decimal_bytes(n);
    text::append_bytes(&mut r, digits.as_slice());
    assert(r@ =~= seq![key, 0x3du8] + text::decimal(n as int));
    r
}

/// Rebuild a kitty control string with updated dimensions and format.
///
/// Does not emit `r=` (display rows): the terminal calculates the row count from the pixel data.
/// An explicit `r=` would make the terminal scale the image to fit that many rows.
pub fn rebuild_kitty_control(
    ctrl: &KittyControl,
    new_format: u32,
    new_pixel_w: usize,
    new_pixel_h: usize,
    new_compressed: bool,
) -> (r: Vec<u8>)
    ensures
        r@ == text::join(
            rebuilt_entries(
                ctrl@.other_params,
                new_format as int,
                new_pixel_w as int,
                new_pixel_h as int,
                new_compressed,
            ),
            0x2c,
        ),
{
    let mut out: Vec<u8> = Vec::new();
    let ghost other = ctrl@.other_params;
    let mut i: usize = 0;
    assert(other.subrange(0, 0) =~= seq![]);
    assert(out@ =~= text::join(seq![], 0x2c));
    while i < ctrl.other_params.len()
        invariant
            i <= ctrl.other_params@.len(),
            other == text::byte_lists(ctrl.other_params@),
            out@ == text::join(other.subrange(0, i as int), 0x2c),
        decreases ctrl.other_params.len() - i,
    {
        let p = &ctrl.other_params[i];
        append_entry(&mut out, Ghost(other.subrange(0, i as int)), i == 0, p.as_slice());
        assert(other.subrange(0, i as int).push(p@) =~= other.subrange(0, i + 1));
        i += 1;
    }
    assert(other.subrange(0, i as int) =~= other);
    let e1 = number_entry(0x66, new_format as usize);
    append_entry(&mut out, Ghost(other), i == 0, e1.as_slice());
    let ghost p1 = other.push(e1@);
    let e2 = number_entry(0x73, new_pixel_w);
    append_entry(&mut out, Ghost(p1), false, e2.as_slice());
    let ghost p2 = p1.push(e2@);
    let e3 = number_entry(0x76, new_pixel_h);
    append_entry(&mut out, Ghost(p2), false, e3.as_slice());
    if new_compressed {
        let ghost p3 = p2.push(e3@);
        let mut e4: Vec<u8> = Vec::new();
        e4.push(0x6f);
        e4.push(0x3d);
        e4.push(0x7a);
        append_entry(&mut out, Ghost(p3), false, e4.as_slice());
        assert(e4@ =~= seq![0x6fu8, 0x3du8, 0x7au8]);
    }
    out
}

// ---------------------------------------------------------------------------
// Building sequences
// ---------------------------------------------------------------------------

/// One chunk: ESC _ G, the control part, `;`, the payload and the string terminator.
pub open spec fn chunk_bytes(control: Seq<u8>, payload: Seq<u8>) -> Seq<u8> {
    seq![ESC, 0x5fu8, 0x47u8] + control + seq![0x3bu8] + payload + seq![ESC, 0x5cu8]
}

/// `m=1`, or `m=0` for the last chunk.
pub open spec fn more_entry(more: bool) -> Seq<u8> {
    seq![0x6du8, 0x3du8, if more {
        0x31u8
    } else {
        0x30u8
    }]
}

/// The end of the payload piece that starts at `i`.
pub open spec fn piece_end(payload: Seq<u8>, i: int) -> int {
    sixel::min_of(i + KITTY_CHUNK_SIZE, payload.len() as int)
}

/// The continuation chunks that carry the payload from `i` on.
pub open spec fn continuation(payload: Seq<u8>, i: int) -> Seq<u8>
    decreases payload.len() - i,
{
    if i >= payload.len() {
        seq![]
    } else {
        let e = piece_end(payload, i);
        chunk_bytes(more_entry(e < payload.len()), payload.subrange(i, e)) + continuation(
            payload,
            e,
        )
    }
}

/// The complete sequence for a control string and a payload: one chunk if the payload is short
/// enough, else a first chunk that announces more, and continuation chunks.
pub open spec fn kitty_sequence(control: Seq<u8>, payload: Seq<u8>) -> Seq<u8> {
    if payload.len() <= KITTY_CHUNK_SIZE {
        chunk_bytes(control, payload)
    } else {
        chunk_bytes(
            control + seq![0x2cu8] + more_entry(true),
            payload.subrange(0, KITTY_CHUNK_SIZE as int),
        ) + continuation(payload, KITTY_CHUNK_SIZE as int)
    }
}

/// Appends one chunk.
fn append_chunk(out: &mut Vec<u8>, control: &[u8], payload: &[u8])
    ensures
        final(out)@ == old(out)@ + chunk_bytes(control@, payload@),
{
    out.push(ESC);
    out.push(0x5f);
    out.push(0x47);
    text::append_bytes(out, control);
    out.push(0x3b);
    text::append_bytes(out, payload);
    out.push(ESC);
    out.push(0x5c);
    assert(out@ =~= old(out)@ + chunk_bytes(control@, payload@));
}

/// Build a complete (possibly multi-chunk) kitty sequence.
pub fn build_kitty_sequence(control: &[u8], b64_payload: &[u8]) -> (r: Vec<u8>)
    ensures
        r@ == kitty_sequence(control@, b64_payload@),
{
    let n: usize = b64_payload.len();
    let mut result: Vec<u8> = Vec::new();
    if n <= KITTY_CHUNK_SIZE {
        append_chunk(&mut result, control, b64_payload);
        assert(result@ =~= chunk_bytes(control@, b64_payload@));
        return result;
    }
    let mut first = vstd::slice::slice_to_vec(control);
    first.push(0x2c);
    first.push(0x6d);
    first.push(0x3d);
    first.push(0x31);
    assert(first@ =~= control@ + seq![0x2cu8] + more_entry(true));
    let piece = vstd::slice::slice_subrange(b64_payload, 0, KITTY_CHUNK_SIZE);
    append_chunk(&mut result, first.as_slice(), piece);
    let ghost whole = kitty_sequence(control@, b64_payload@);
    let mut i: usize = KITTY_CHUNK_SIZE;
    assert(whole =~= result@ + continuation(b64_payload@, i as int));
    while i < n
        invariant
            n == b64_payload@.len(),
            i <= n,
            whole == result@ + continuation(b64_payload@, i as int),
        decreases n - i,
    {
        let e: usize = if n - i <= KITTY_CHUNK_SIZE {
            n
        } else {
            i + KITTY_CHUNK_SIZE
        };
        let mut ctl: Vec<u8> = Vec::new();
        ctl.push(0x6d);
        ctl.push(0x3d);
        ctl.push(
            if e < n {
                0x31
            } else {
                0x30
            },
        );
        assert(ctl@ =~= more_entry(e < n));
        let piece = vstd::slice::slice_subrange(b64_payload, i, e);
        let ghost before = result@;
        append_chunk(&mut result, ctl.as_slice(), piece);
        assert(whole =~= result@ + continuation(b64_payload@, e as int));
        i = e;
    }
    assert(whole =~= result@);
    result
}

// ---------------------------------------------------------------------------
// Dimensions
// ---------------------------------------------------------------------------

/// The big-endian 32-bit number at `i`.
pub open spec fn be32(b: Seq<u8>, i: int) -> int {
    b[i] * 0x1000000 + b[i + 1] * 0x10000 + b[i + 2] * 0x100 + b[i + 3]
}

/// The PNG signature.
pub open spec fn png_signature() -> Seq<u8> {
    seq![0x89u8, 0x50u8, 0x4eu8, 0x47u8, 0x0du8, 0x0au8, 0x1au8, 0x0au8]
}

/// Width and height in the header of a PNG file: the signature, then length and name of the
/// header chunk, then both numbers. `None` where the file is too short, the signature is wrong or
/// a number is 0.
pub open spec fn png_size(b: Seq<u8>) -> Option<(int, int)> {
    if b.len() >= 24 && b.subrange(0, 8) == png_signature() && be32(b, 16) > 0 && be32(b, 20)
        > 0 {
        Some((be32(b, 16), be32(b, 20)))
    } else {
        None
    }
}

fn read_be32(b: &[u8], i: usize) -> (r: usize)
    requires
        i + 4 <= b@.len(),
    ensures
        r == be32(b@, i as int),
{
    let n: usize = b.len();
    let v: u32 = b[i] as u32 * 0x1000000 + b[i + 1] as u32 * 0x10000 + b[i + 2] as u32 * 0x100 + b[i
        + 3] as u32;
    v as usize
}

/// Width and height in the header of a PNG file.
pub fn read_png_size(b: &[u8]) -> (r: Option<(usize, usize)>)
    ensures
        match r {
            Some((w, h)) => png_size(b@) == Some((w as int, h as int)),
            None => png_size(b@) is None,
        },
{
    if b.len() < 24 {
        return None;
    }
    let signed = b[0] == 0x89 && b[1] == 0x50 && b[2] == 0x4e && b[3] == 0x47 && b[4] == 0x0d && b[5]
        == 0x0a && b[6] == 0x1a && b[7] == 0x0a;
    proof {
        let s = b@.subrange(0, 8);
        let t = png_signature();
        if signed {
            assert(s =~= t);
        } else if s == t {
            assert(s[0] == t[0] && s[1] == t[1] && s[2] == t[2] && s[3] == t[3] && s[4] == t[4]
                && s[5] == t[5] && s[6] == t[6] && s[7] == t[7]);
        }
    }
    if !signed {
        return None;
    }
    let w = read_be32(b, 16);
    let h = read_be32(b, 20);
    if w > 0 && h > 0 {
        Some((w, h))
    } else {
        None
    }
}

/// Width and height in the PNG header inside the first chunk's payload.
pub open spec fn payload_png_size(d: Seq<u8>) -> Option<(int, int)> {
    let chunks = chunks_from(d, 0);
    if chunks.len() == 0 {
        None
    } else {
        match external::base64_decoded(chunks[0].payload) {
            Some(file) => png_size(file),
            None => None,
        }
    }
}

/// Read pixel dimensions from the PNG header inside a kitty image's payload.
/// Only needs the first chunk's payload (the header is always at the start).
pub fn read_kitty_png_dimensions(data: &[u8]) -> (r: Option<(usize, usize)>)
    ensures
        match r {
            Some((w, h)) => payload_png_size(data@) == Some((w as int, h as int)),
            None => payload_png_size(data@) is None,
        },
{
    let chunks = parse_kitty_chunks(data);
    assert(chunk_models(chunks@).len() == chunks@.len());
    if chunks.len() == 0 {
        return None;
    }
    assert(chunk_models(chunks@)[0] == chunks@[0]@);
    match external::base64_decode(chunks[0].payload.as_slice()) {
        Some(file) => read_png_size(file.as_slice()),
        None => None,
    }
}

/// Columns and rows of an image whose control part declares `cols` and `rows` (0 where it does
/// not), given its pixel size (0 where unknown).
pub open spec fn cells_of(
    cols: int,
    rows: int,
    pixel_w: int,
    pixel_h: int,
    cell_w: int,
    cell_h: int,
) -> (int, int) {
    (
        sixel::max_of(
            if cols == 0 && pixel_w > 0 {
                sixel::ceil_div(pixel_w, cell_w)
            } else {
                cols
            },
            1,
        ),
        sixel::max_of(
            if rows == 0 && pixel_h > 0 {
                sixel::ceil_div(pixel_h, cell_h)
            } else {
                rows
            },
            1,
        ),
    )
}

/// Whether those columns and rows can be computed: no cell without width or height is counted.
pub open spec fn cells_computable(
    cols: int,
    rows: int,
    pixel_w: int,
    pixel_h: int,
    cell_w: int,
    cell_h: int,
) -> bool {
    &&& cols == 0 && pixel_w > 0 ==> cell_w > 0
    &&& rows == 0 && pixel_h > 0 ==> cell_h > 0
}

/// What a kitty image says of its size, 0 where it says nothing: columns and rows (c=, r=), and
/// width and height in pixels (s=, v=), or from the PNG header where the control part gives
/// neither of them.
pub open spec fn kitty_size(d: Seq<u8>) -> Option<(int, int, int, int)> {
    match control_part(d) {
        None => None,
        Some(control) => {
            let parts = text::split(control, 0x2c);
            let max = usize::MAX as int;
            let cols = number_of(parts, 0x63, 0, max);
            let rows = number_of(parts, 0x72, 0, max);
            let w = number_of(parts, 0x73, 0, max);
            let h = number_of(parts, 0x76, 0, max);
            let format = number_of(parts, 0x66, 32, u32::MAX as int);
            if (cols == 0 || rows == 0) && w == 0 && h == 0 && format == 100 {
                match payload_png_size(d) {
                    Some((pw, ph)) => Some((cols, rows, pw, ph)),
                    None => Some((cols, rows, w, h)),
                }
            } else {
                Some((cols, rows, w, h))
            }
        },
    }
}

/// How many columns and rows a kitty image occupies: as declared, else computed from its size in
/// pixels, and at least one.
pub open spec fn kitty_cells(d: Seq<u8>, cell_w: int, cell_h: int) -> (int, int) {
    match kitty_size(d) {
        None => (1, 1),
        Some((cols, rows, w, h)) => cells_of(cols, rows, w, h, cell_w, cell_h),
    }
}

/// Whether columns and rows of a kitty image can be computed.
pub open spec fn kitty_computable(d: Seq<u8>, cell_w: int, cell_h: int) -> bool {
    match kitty_size(d) {
        None => true,
        Some((cols, rows, w, h)) => cells_computable(cols, rows, w, h, cell_w, cell_h),
    }
}

/// Columns and rows from declared cells and pixel size.
pub fn cells_from_size(
    cols: usize,
    rows: usize,
    pixel_w: usize,
    pixel_h: usize,
    cell_w: usize,
    cell_h: usize,
) -> (r: (usize, usize))
    requires
        cells_computable(
            cols as int,
            rows as int,
            pixel_w as int,
            pixel_h as int,
            cell_w as int,
            cell_h as int,
        ),
    ensures
        (r.0 as int, r.1 as int) == cells_of(
            cols as int,
            rows as int,
            pixel_w as int,
            pixel_h as int,
            cell_w as int,
            cell_h as int,
        ),
{
    let c: usize = if cols == 0 && pixel_w > 0 {
        div_ceil(pixel_w, cell_w)
    } else {
        cols
    };
    let r: usize = if rows == 0 && pixel_h > 0 {
        div_ceil(pixel_h, cell_h)
    } else {
        rows
    };
    (
        if c >= 1 {
            c
        } else {
            1
        },
        if r >= 1 {
            r
        } else {
            1
        },
    )
}

/// What a kitty image says of its size: columns, rows, width and height in pixels.
pub fn read_kitty_size(data: &[u8]) -> (r: Option<(usize, usize, usize, usize)>)
    ensures
        match r {
            Some((cols, rows, w, h)) => kitty_size(data@) == Some(
                (cols as int, rows as int, w as int, h as int),
            ),
            None => kitty_size(data@) is None,
        },
{
    let control = match chunk_control(data) {
        Some(c) => c,
        None => return None,
    };
    let parts = text::split_bytes(control.as_slice(), 0x2c);
    let ghost all = text::split(control@, 0x2c);
    assert(all.len() == parts@.len());
    let mut cols: usize = 0;
    let mut rows: usize = 0;
    let mut pixel_w: usize = 0;
    let mut pixel_h: usize = 0;
    let mut format: u32 = 32;
    let mut i: usize = 0;
    assert(all.subrange(0, 0).len() == 0);
    while i < parts.len()
        invariant
            i <= parts@.len(),
            all == text::byte_lists(parts@),
            cols == number_of(all.subrange(0, i as int), 0x63, 0, usize::MAX as int),
            rows == number_of(all.subrange(0, i as int), 0x72, 0, usize::MAX as int),
            pixel_w == number_of(all.subrange(0, i as int), 0x73, 0, usize::MAX as int),
            pixel_h == number_of(all.subrange(0, i as int), 0x76, 0, usize::MAX as int),
            format == number_of(all.subrange(0, i as int), 0x66, 32, u32::MAX as int),
        decreases parts.len() - i,
    {
        let p = &parts[i];
        let n: usize = p.len();
        let ghost now = all.subrange(0, i + 1);
        assert(now.last() == p@);
        assert(now.drop_last() =~= all.subrange(0, i as int));
        if n >= 2 && p[1] == 0x3d {
            let key = p[0];
            let value = text::slice_vec(p.as_slice(), 2, n);
            if key == 0x66 {
                format = match text::parse_u32(value.as_slice()) {
                    Some(v) => v,
                    None => 32,
                };
            } else {
                let number: usize = match text::parse_usize(value.as_slice()) {
                    Some(v) => v,
                    None => 0,
                };
                if key == 0x63 {
                    cols = number;
                } else if key == 0x72 {
                    rows = number;
                } else if key == 0x73 {
                    pixel_w = number;
                } else if key == 0x76 {
                    pixel_h = number;
                }
            }
        }
        i += 1;
    }
    assert(all.subrange(0, i as int) =~= all);
    if (cols == 0 || rows == 0) && pixel_w == 0 && pixel_h == 0 && format == 100 {
        match read_kitty_png_dimensions(data) {
            Some((w, h)) => {
                pixel_w = w;
                pixel_h = h;
            },
            None => {},
        }
    }
    Some((cols, rows, pixel_w, pixel_h))
}

/// How many columns and rows a kitty image occupies; `None` where that depends on a cell without
/// width or height.
pub fn parse_kitty_dimensions(data: &[u8], cell_w: usize, cell_h: usize) -> (r: Option<
    (usize, usize),
>)
    ensures
        match r {
            Some((cols, rows)) => {
                &&& kitty_computable(data@, cell_w as int, cell_h as int)
                &&& (cols as int, rows as int) == kitty_cells(data@, cell_w as int, cell_h as int)
            },
            None => !kitty_computable(data@, cell_w as int, cell_h as int),
        },
{
    match read_kitty_size(data) {
        Some((cols, rows, w, h)) => {
            if (cols == 0 && w > 0 && cell_w == 0) || (rows == 0 && h > 0 && cell_h == 0) {
                None
            } else {
                Some(cells_from_size(cols, rows, w, h, cell_w, cell_h))
            }
        },
        None => Some((1, 1)),
    }
}

} // verus!
