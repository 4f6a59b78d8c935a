//! Serialization of queries and responses: a stable tagged-variant binary
//! format, little-endian throughout. A string travels as a 64-bit byte count
//! followed by its UTF-8 bytes; a list as a 64-bit element count followed by
//! the elements. Decoding accepts a buffer only when it is consumed exactly.

use crate::protocol::QueryView;
use crate::protocol::ResponseView;
use crate::protocol::TbonQuery;
use crate::protocol::TbonResponse;
use vstd::bytes::*;
use vstd::prelude::*;
use vstd::slice::slice_subrange;
use vstd::slice::slice_to_vec;
use vstd::utf8::decode_utf8;
use vstd::utf8::encode_utf8;
use vstd::utf8::encode_utf8_decode_utf8;
use vstd::utf8::encode_utf8_valid_utf8;
use vstd::utf8::valid_utf8;

verus! {

pub const TAG_QUERY_JOIN: u8 = 0;

pub const TAG_QUERY_PIVOT: u8 = 1;

pub const TAG_QUERY_COUNT: u8 = 2;

pub const TAG_QUERY_HISTOGRAM: u8 = 3;

pub const TAG_QUERY_LIST_KEYS: u8 = 4;

pub const TAG_QUERY_VALUES: u8 = 5;

pub const TAG_RESP_ERROR: u8 = 0;

pub const TAG_RESP_OKAY: u8 = 1;

pub const TAG_RESP_COUNT: u8 = 2;

pub const TAG_RESP_PIVOT: u8 = 3;

pub const TAG_RESP_HISTOGRAM: u8 = 4;

pub const TAG_RESP_LIST_KEYS: u8 = 5;

pub const TAG_RESP_VALUES: u8 = 6;

// ---------------------------------------------------------------------------
// Specification of the byte format.
// ---------------------------------------------------------------------------
/// A string on the wire: byte count, then UTF-8 bytes.
pub open spec fn spec_encode_str(s: Seq<char>) -> Seq<u8> {
    spec_u64_to_le_bytes(encode_utf8(s).len() as u64) + encode_utf8(s)
}

/// A query on the wire: one tag byte, then the payload of its variant.
pub open spec fn spec_encode_query(q: QueryView) -> Seq<u8> {
    match q {
        QueryView::Join(id) => seq![TAG_QUERY_JOIN] + spec_u32_to_le_bytes(id),
        QueryView::Pivot(addr) => seq![TAG_QUERY_PIVOT] + spec_encode_str(addr),
        QueryView::Count => seq![TAG_QUERY_COUNT],
        QueryView::Histogram(key) => seq![TAG_QUERY_HISTOGRAM] + spec_encode_str(key),
        QueryView::ListKeys => seq![TAG_QUERY_LIST_KEYS],
        QueryView::Values(key) => seq![TAG_QUERY_VALUES] + spec_encode_str(key),
    }
}

/// Reads a `u32` at position `i`.
pub open spec fn spec_take_u32(b: Seq<u8>, i: int) -> Option<(u32, int)> {
    if 0 <= i && i + 4 <= b.len() {
        Some((spec_u32_from_le_bytes(b.subrange(i, i + 4)), i + 4))
    } else {
        None
    }
}

/// Reads a `u64` at position `i`.
pub open spec fn spec_take_u64(b: Seq<u8>, i: int) -> Option<(u64, int)> {
    if 0 <= i && i + 8 <= b.len() {
        Some((spec_u64_from_le_bytes(b.subrange(i, i + 8)), i + 8))
    } else {
        None
    }
}

/// Reads a string at position `i`: its byte count, then that many bytes,
/// which must be UTF-8.
pub open spec fn spec_take_str(b: Seq<u8>, i: int) -> Option<(Seq<char>, int)> {
    match spec_take_u64(b, i) {
        None => None,
        Some((n, j)) => {
            if j + n <= b.len() && valid_utf8(b.subrange(j, j + n)) {
                Some((decode_utf8(b.subrange(j, j + n)), j + n))
            } else {
                None
            }
        },
    }
}

/// The query a buffer decodes to, if the buffer is exactly one well-formed
/// query.
pub open spec fn spec_decode_query(b: Seq<u8>) -> Option<QueryView> {
    if b.len() < 1 {
        None
    } else if b[0] == TAG_QUERY_JOIN {
        match spec_take_u32(b, 1) {
            Some((id, j)) => if j == b.len() {
                Some(QueryView::Join(id))
            } else {
                None
            },
            None => None,
        }
    } else if b[0] == TAG_QUERY_PIVOT {
        match spec_take_str(b, 1) {
            Some((addr, j)) => if j == b.len() {
                Some(QueryView::Pivot(addr))
            } else {
                None
            },
            None => None,
        }
    } else if b[0] == TAG_QUERY_COUNT {
        if b.len() == 1 {
            Some(QueryView::Count)
        } else {
            None
        }
    } else if b[0] == TAG_QUERY_HISTOGRAM {
        match spec_take_str(b, 1) {
            Some((key, j)) => if j == b.len() {
                Some(QueryView::Histogram(key))
            } else {
                None
            },
            None => None,
        }
    } else if b[0] == TAG_QUERY_LIST_KEYS {
        if b.len() == 1 {
            Some(QueryView::ListKeys)
        } else {
            None
        }
    } else if b[0] == TAG_QUERY_VALUES {
        match spec_take_str(b, 1) {
            Some((key, j)) => if j == b.len() {
                Some(QueryView::Values(key))
            } else {
                None
            },
            None => None,
        }
    } else {
        None
    }
}

// ---------------------------------------------------------------------------
// Executable writers.
// ---------------------------------------------------------------------------
/// Appends a `u32`, little-endian.
fn push_u32(out: &mut Vec<u8>, x: u32)
    ensures
        final(out)@ == old(out)@ + spec_u32_to_le_bytes(x),
{
    let mut b = u32_to_le_bytes(x);
    out.append(&mut b);
}

/// Appends a `u64`, little-endian.
fn push_u64(out: &mut Vec<u8>, x: u64)
    ensures
        final(out)@ == old(out)@ + spec_u64_to_le_bytes(x),
{
    let mut b = u64_to_le_bytes(x);
    out.append(&mut b);
}

/// Appends a string: byte count, then UTF-8 bytes.
fn push_str(out: &mut Vec<u8>, s: &str)
    ensures
        final(out)@ == old(out)@ + spec_encode_str(s@),
{
    let bytes = s.as_bytes();
    push_u64(out, bytes.len() as u64);
    out.extend_from_slice(bytes);
}

/// Serializes a query.
pub fn encode_query(q: &TbonQuery) -> (out: Vec<u8>)
    ensures
        out@ == spec_encode_query(q@),
{
    let mut out: Vec<u8> = Vec::new();
    match q {
        TbonQuery::Join(id) => {
            out.push(TAG_QUERY_JOIN);
            push_u32(&mut out, *id);
        },
        TbonQuery::Pivot(addr) => {
            out.push(TAG_QUERY_PIVOT);
            push_str(&mut out, addr.as_str());
        },
        TbonQuery::Count => {
            out.push(TAG_QUERY_COUNT);
        },
        TbonQuery::Histogram(key) => {
            out.push(TAG_QUERY_HISTOGRAM);
            push_str(&mut out, key.as_str());
        },
        TbonQuery::ListKeys => {
            out.push(TAG_QUERY_LIST_KEYS);
        },
        TbonQuery::Values(key) => {
            out.push(TAG_QUERY_VALUES);
            push_str(&mut out, key.as_str());
        },
    }
    assert(out@ =~= spec_encode_query(q@));
    out
}

// ---------------------------------------------------------------------------
// Executable readers.
// ---------------------------------------------------------------------------
/// Relies on `String::from_utf8`: it succeeds exactly on UTF-8 input and
/// yields the string those bytes spell.
#[verifier::external_body]
fn string_from_utf8(bytes: Vec<u8>) -> (r: Option<String>)
    ensures
        r is Some <==> valid_utf8(bytes@),
        r matches Some(s) ==> s@ == decode_utf8(bytes@),
{
    String::from_utf8(bytes).ok()
}

/// Reads a `u32` at `pos`.
fn take_u32(b: &Vec<u8>, pos: usize) -> (r: Option<(u32, usize)>)
    requires
        pos <= b@.len(),
    ensures
        r matches Some(p) ==> spec_take_u32(b@, pos as int) == Some((p.0, p.1 as int)) && p.1
            <= b@.len(),
        r is None ==> spec_take_u32(b@, pos as int) is None,
{
    if b.len() - pos < 4 {
        return None;
    }
    let x = u32_from_le_bytes(slice_subrange(b.as_slice(), pos, pos + 4));
    Some((x, pos + 4))
}

/// Reads a `u64` at `pos`.
fn take_u64(b: &Vec<u8>, pos: usize) -> (r: Option<(u64, usize)>)
    requires
        pos <= b@.len(),
    ensures
        r matches Some(p) ==> spec_take_u64(b@, pos as int) == Some((p.0, p.1 as int)) && p.1
            <= b@.len(),
        r is None ==> spec_take_u64(b@, pos as int) is None,
{
    if b.len() - pos < 8 {
        return None;
    }
    let x = u64_from_le_bytes(slice_subrange(b.as_slice(), pos, pos + 8));
    Some((x, pos + 8))
}

/// Reads a string at `pos`.
fn take_string(b: &Vec<u8>, pos: usize) -> (r: Option<(String, usize)>)
    requires
        pos <= b@.len(),
    ensures
        r matches Some(p) ==> spec_take_str(b@, pos as int) == Some((p.0@, p.1 as int)) && p.1
            <= b@.len(),
        r is None ==> spec_take_str(b@, pos as int) is None,
{
    let (n, j) = match take_u64(b, pos) {
        Some(p) => p,
        None => { return None },
    };
    if n > (b.len() - j) as u64 {
        return None;
    }
    let end = j + (n as usize);
    let raw = slice_to_vec(slice_subrange(b.as_slice(), j, end));
    match string_from_utf8(raw) {
        Some(s) => Some((s, end)),
        None => None,
    }
}

/// Deserializes a buffer that should hold exactly one query.
pub fn decode_query(b: &Vec<u8>) -> (r: Option<TbonQuery>)
    ensures
        r matches Some(q) ==> spec_decode_query(b@) == Some(q@),
        r is None ==> spec_decode_query(b@) is None,
{
    if b.len() < 1 {
        return None;
    }
    let tag = b[0];
    if tag == TAG_QUERY_JOIN {
        match take_u32(b, 1) {
            Some((id, j)) => if j == b.len() {
                Some(TbonQuery::Join(id))
            } else {
                None
            },
            None => None,
        }
    } else if tag == TAG_QUERY_PIVOT {
        match take_string(b, 1) {
            Some((addr, j)) => if j == b.len() {
                Some(TbonQuery::Pivot(addr))
            } else {
                None
            },
            None => None,
        }
    } else if tag == TAG_QUERY_COUNT {
        if b.len() == 1 {
            Some(TbonQuery::Count)
        } else {
            None
        }
    } else if tag == TAG_QUERY_HISTOGRAM {
        match take_string(b, 1) {
            Some((key, j)) => if j == b.len() {
                Some(TbonQuery::Histogram(key))
            } else {
                None
            },
            None => None,
        }
    } else if tag == TAG_QUERY_LIST_KEYS {
        if b.len() == 1 {
            Some(TbonQuery::ListKeys)
        } else {
            None
        }
    } else if tag == TAG_QUERY_VALUES {
        match take_string(b, 1) {
            Some((key, j)) => if j == b.len() {
                Some(TbonQuery::Values(key))
            } else {
                None
            },
            None => None,
        }
    } else {
        None
    }
}

// ---------------------------------------------------------------------------
// Round trip.
// ---------------------------------------------------------------------------
/// Reading a `u32` whose encoding sits at `i` gives it back.
proof fn lemma_take_u32_frame(b: Seq<u8>, i: int, x: u32)
    requires
        0 <= i,
        i + 4 <= b.len(),
        b.subrange(i, i + 4) == spec_u32_to_le_bytes(x),
    ensures
        spec_take_u32(b, i) == Some((x, i + 4)),
{
    lemma_auto_spec_u32_to_from_le_bytes();
    assert(spec_u32_to_le_bytes(x).len() == 4);
    assert(spec_u32_from_le_bytes(spec_u32_to_le_bytes(x)) == x);
}

/// Reading a `u64` whose encoding sits at `i` gives it back.
proof fn lemma_take_u64_frame(b: Seq<u8>, i: int, x: u64)
    requires
        0 <= i,
        i + 8 <= b.len(),
        b.subrange(i, i + 8) == spec_u64_to_le_bytes(x),
    ensures
        spec_take_u64(b, i) == Some((x, i + 8)),
{
    lemma_auto_spec_u64_to_from_le_bytes();
    assert(spec_u64_to_le_bytes(x).len() == 8);
    assert(spec_u64_from_le_bytes(spec_u64_to_le_bytes(x)) == x);
}

/// Reading a string whose encoding sits at `i` gives it back.
proof fn lemma_take_str_frame(b: Seq<u8>, i: int, s: Seq<char>)
    requires
        0 <= i,
        encode_utf8(s).len() < 0x1_0000_0000_0000_0000,
        i + spec_encode_str(s).len() <= b.len(),
        b.subrange(i, i + spec_encode_str(s).len()) == spec_encode_str(s),
    ensures
        spec_take_str(b, i) == Some((s, i + spec_encode_str(s).len())),
{
    let e = encode_utf8(s);
    let n = e.len() as u64;
    lemma_auto_spec_u64_to_from_le_bytes();
    assert(spec_u64_to_le_bytes(n).len() == 8);
    let enc = spec_encode_str(s);
    assert(enc.len() == 8 + e.len());
    assert forall|k: int| 0 <= k < enc.len() implies b[i + k] == enc[k] by {
        assert(b.subrange(i, i + enc.len())[k] == enc[k]);
    }
    assert(b.subrange(i, i + 8) =~= spec_u64_to_le_bytes(n));
    lemma_take_u64_frame(b, i, n);
    assert forall|k: int| 0 <= k < e.len() implies b[i + 8 + k] == e[k] by {
        assert(b.subrange(i, i + enc.len())[8 + k] == enc[8 + k]);
        assert(enc[8 + k] == e[k]);
    }
    assert(b.subrange(i + 8, i + 8 + e.len()) =~= e);
    encode_utf8_valid_utf8(s);
    encode_utf8_decode_utf8(s);
}

// ---------------------------------------------------------------------------
// Responses.
// ---------------------------------------------------------------------------
/// A run of `u64` values on the wire, back to back.
pub open spec fn spec_encode_u64s(s: Seq<u64>) -> Seq<u8>
    decreases s.len(),
{
    if s.len() == 0 {
        Seq::empty()
    } else {
        spec_u64_to_le_bytes(s[0]) + spec_encode_u64s(s.drop_first())
    }
}

/// A run of strings on the wire, back to back.
pub open spec fn spec_encode_strs(s: Seq<Seq<char>>) -> Seq<u8>
    decreases s.len(),
{
    if s.len() == 0 {
        Seq::empty()
    } else {
        spec_encode_str(s[0]) + spec_encode_strs(s.drop_first())
    }
}

/// A run of string-value pairs on the wire, back to back.
pub open spec fn spec_encode_pairs(s: Seq<(Seq<char>, u64)>) -> Seq<u8>
    decreases s.len(),
{
    if s.len() == 0 {
        Seq::empty()
    } else {
        spec_encode_str(s[0].0) + spec_u64_to_le_bytes(s[0].1) + spec_encode_pairs(s.drop_first())
    }
}

/// A response on the wire: one tag byte, then the payload of its variant;
/// each list travels as an element count followed by the elements.
pub open spec fn spec_encode_response(r: ResponseView) -> Seq<u8> {
    match r {
        ResponseView::Error(m) => seq![TAG_RESP_ERROR] + spec_encode_str(m),
        ResponseView::Okay => seq![TAG_RESP_OKAY],
        ResponseView::Count(n) => seq![TAG_RESP_COUNT] + spec_u32_to_le_bytes(n),
        ResponseView::Pivot(id, addr) => seq![TAG_RESP_PIVOT] + spec_u32_to_le_bytes(id)
            + spec_encode_str(addr),
        ResponseView::Histogram(ts, counts) => seq![TAG_RESP_HISTOGRAM] + spec_u64_to_le_bytes(ts)
            + spec_u64_to_le_bytes(counts.len() as u64) + spec_encode_u64s(counts),
        ResponseView::ListKeys(keys) => seq![TAG_RESP_LIST_KEYS] + spec_u64_to_le_bytes(
            keys.len() as u64,
        ) + spec_encode_strs(keys),
        ResponseView::Values(entries) => seq![TAG_RESP_VALUES] + spec_u64_to_le_bytes(
            entries.len() as u64,
        ) + spec_encode_pairs(entries),
    }
}

/// Reads `n` consecutive `u64` values at position `i`.
pub open spec fn spec_take_u64s(b: Seq<u8>, i: int, n: nat) -> Option<(Seq<u64>, int)>
    decreases n,
{
    if n == 0 {
        Some((Seq::empty(), i))
    } else {
        match spec_take_u64(b, i) {
            None => None,
            Some((x, j)) => match spec_take_u64s(b, j, (n - 1) as nat) {
                None => None,
                Some((rest, k)) => Some((seq![x] + rest, k)),
            },
        }
    }
}

/// Reads `n` consecutive strings at position `i`.
pub open spec fn spec_take_strs(b: Seq<u8>, i: int, n: nat) -> Option<(Seq<Seq<char>>, int)>
    decreases n,
{
    if n == 0 {
        Some((Seq::empty(), i))
    } else {
        match spec_take_str(b, i) {
            None => None,
            Some((x, j)) => match spec_take_strs(b, j, (n - 1) as nat) {
                None => None,
                Some((rest, k)) => Some((seq![x] + rest, k)),
            },
        }
    }
}

/// Reads `n` consecutive string-value pairs at position `i`.
pub open spec fn spec_take_pairs(b: Seq<u8>, i: int, n: nat) -> Option<
    (Seq<(Seq<char>, u64)>, int),
>
    decreases n,
{
    if n == 0 {
        Some((Seq::empty(), i))
    } else {
        match spec_take_str(b, i) {
            None => None,
            Some((k0, j)) => match spec_take_u64(b, j) {
                None => None,
                Some((v0, j2)) => match spec_take_pairs(b, j2, (n - 1) as nat) {
                    None => None,
                    Some((rest, k)) => Some((seq![(k0, v0)] + rest, k)),
                },
            },
        }
    }
}

/// The response a buffer decodes to, if the buffer is exactly one
/// well-formed response.
pub open spec fn spec_decode_response(b: Seq<u8>) -> Option<ResponseView> {
    if b.len() < 1 {
        None
    } else if b[0] == TAG_RESP_ERROR {
        match spec_take_str(b, 1) {
            Some((m, j)) => if j == b.len() {
                Some(ResponseView::Error(m))
            } else {
                None
            },
            None => None,
        }
    } else if b[0] == TAG_RESP_OKAY {
        if b.len() == 1 {
            Some(ResponseView::Okay)
        } else {
            None
        }
    } else if b[0] == TAG_RESP_COUNT {
        match spec_take_u32(b, 1) {
            Some((n, j)) => if j == b.len() {
                Some(ResponseView::Count(n))
            } else {
                None
            },
            None => None,
        }
    } else if b[0] == TAG_RESP_PIVOT {
        match spec_take_u32(b, 1) {
            Some((id, j)) => match spec_take_str(b, j) {
                Some((addr, k)) => if k == b.len() {
                    Some(ResponseView::Pivot(id, addr))
                } else {
                    None
                },
                None => None,
            },
            None => None,
        }
    } else if b[0] == TAG_RESP_HISTOGRAM {
        match spec_take_u64(b, 1) {
            Some((ts, j)) => match spec_take_u64(b, j) {
                Some((n, j2)) => match spec_take_u64s(b, j2, n as nat) {
                    Some((counts, k)) => if k == b.len() {
                        Some(ResponseView::Histogram(ts, counts))
                    } else {
                        None
                    },
                    None => None,
                },
                None => None,
            },
            None => None,
        }
    } else if b[0] == TAG_RESP_LIST_KEYS {
        match spec_take_u64(b, 1) {
            Some((n, j)) => match spec_take_strs(b, j, n as nat) {
                Some((keys, k)) => if k == b.len() {
                    Some(ResponseView::ListKeys(keys))
                } else {
                    None
                },
                None => None,
            },
            None => None,
        }
    } else if b[0] == TAG_RESP_VALUES {
        match spec_take_u64(b, 1) {
            Some((n, j)) => match spec_take_pairs(b, j, n as nat) {
                Some((entries, k)) => if k == b.len() {
                    Some(ResponseView::Values(entries))
                } else {
                    None
                },
                None => None,
            },
            None => None,
        }
    } else {
        None
    }
}

/// Appending one more element extends the run's encoding on the right.
proof fn lemma_encode_u64s_push(s: Seq<u64>, x: u64)
    ensures
        spec_encode_u64s(s.push(x)) == spec_encode_u64s(s) + spec_u64_to_le_bytes(x),
    decreases s.len(),
{
    if s.len() == 0 {
        assert(s.push(x)[0] == x);
        assert(s.push(x).drop_first() =~= s);
        assert(spec_encode_u64s(s.push(x)) =~= spec_encode_u64s(s) + spec_u64_to_le_bytes(x));
    } else {
        assert(s.push(x).drop_first() =~= s.drop_first().push(x));
        lemma_encode_u64s_push(s.drop_first(), x);
        assert(spec_encode_u64s(s.push(x)) =~= spec_encode_u64s(s) + spec_u64_to_le_bytes(x));
    }
}

/// Appending one more string extends the run's encoding on the right.
proof fn lemma_encode_strs_push(s: Seq<Seq<char>>, x: Seq<char>)
    ensures
        spec_encode_strs(s.push(x)) == spec_encode_strs(s) + spec_encode_str(x),
    decreases s.len(),
{
    if s.len() == 0 {
        assert(s.push(x)[0] == x);
        assert(s.push(x).drop_first() =~= s);
        assert(spec_encode_strs(s.push(x)) =~= spec_encode_strs(s) + spec_encode_str(x));
    } else {
        assert(s.push(x).drop_first() =~= s.drop_first().push(x));
        lemma_encode_strs_push(s.drop_first(), x);
        assert(spec_encode_strs(s.push(x)) =~= spec_encode_strs(s) + spec_encode_str(x));
    }
}

/// Appending one more pair extends the run's encoding on the right.
proof fn lemma_encode_pairs_push(s: Seq<(Seq<char>, u64)>, x: (Seq<char>, u64))
    ensures
        spec_encode_pairs(s.push(x)) == spec_encode_pairs(s) + spec_encode_str(x.0)
            + spec_u64_to_le_bytes(x.1),
    decreases s.len(),
{
    if s.len() == 0 {
        assert(s.push(x)[0] == x);
        assert(s.push(x).drop_first() =~= s);
        assert(spec_encode_pairs(s.push(x)) =~= spec_encode_pairs(s) + spec_encode_str(x.0)
            + spec_u64_to_le_bytes(x.1));
    } else {
        assert(s.push(x).drop_first() =~= s.drop_first().push(x));
        lemma_encode_pairs_push(s.drop_first(), x);
        assert(spec_encode_pairs(s.push(x)) =~= spec_encode_pairs(s) + spec_encode_str(x.0)
            + spec_u64_to_le_bytes(x.1));
    }
}

/// Serializes a response.
pub fn encode_response(r: &TbonResponse) -> (out: Vec<u8>)
    ensures
        out@ == spec_encode_response(r@),
{
    let mut out: Vec<u8> = Vec::new();
    match r {
        TbonResponse::Error(m) => {
            out.push(TAG_RESP_ERROR);
            push_str(&mut out, m.as_str());
        },
        TbonResponse::Okay => {
            out.push(TAG_RESP_OKAY);
        },
        TbonResponse::Count(n) => {
            out.push(TAG_RESP_COUNT);
            push_u32(&mut out, *n);
        },
        TbonResponse::Pivot(id, addr) => {
            out.push(TAG_RESP_PIVOT);
            push_u32(&mut out, *id);
            push_str(&mut out, addr.as_str());
        },
        TbonResponse::Histogram(ts, counts) => {
            out.push(TAG_RESP_HISTOGRAM);
            push_u64(&mut out, *ts);
            push_u64(&mut out, counts.len() as u64);
            let ghost pre = out@;
            let n = counts.len();
            let mut i: usize = 0;
            while i < n
                invariant
                    i <= n,
                    n == counts@.len(),
                    out@ == pre + spec_encode_u64s(counts@.take(i as int)),
                decreases n - i,
            {
                push_u64(&mut out, counts[i]);
                proof {
                    lemma_encode_u64s_push(counts@.take(i as int), counts@[i as int]);
                    assert(counts@.take(i + 1) =~= counts@.take(i as int).push(counts@[i as int]));
                }
                i = i + 1;
            }
            assert(counts@.take(n as int) =~= counts@);
        },
        TbonResponse::ListKeys(keys) => {
            out.push(TAG_RESP_LIST_KEYS);
            push_u64(&mut out, keys.len() as u64);
            let ghost kv = keys@.map_values(|k: String| k@);
            let ghost pre = out@;
            let n = keys.len();
            let mut i: usize = 0;
            while i < n
                invariant
                    i <= n,
                    n == keys@.len(),
                    kv == keys@.map_values(|k: String| k@),
                    out@ == pre + spec_encode_strs(kv.take(i as int)),
                decreases n - i,
            {
                push_str(&mut out, keys[i].as_str());
                proof {
                    lemma_encode_strs_push(kv.take(i as int), kv[i as int]);
                    assert(kv.take(i + 1) =~= kv.take(i as int).push(kv[i as int]));
                }
                i = i + 1;
            }
            assert(kv.take(n as int) =~= kv);
        },
        TbonResponse::Values(entries) => {
            out.push(TAG_RESP_VALUES);
            push_u64(&mut out, entries.len() as u64);
            let ghost ev = entries@.map_values(|e: (String, u64)| (e.0@, e.1));
            let ghost pre = out@;
            let n = entries.len();
            let mut i: usize = 0;
            while i < n
                invariant
                    i <= n,
                    n == entries@.len(),
                    ev == entries@.map_values(|e: (String, u64)| (e.0@, e.1)),
                    out@ == pre + spec_encode_pairs(ev.take(i as int)),
                decreases n - i,
            {
                push_str(&mut out, entries[i].0.as_str());
                push_u64(&mut out, entries[i].1);
                proof {
                    lemma_encode_pairs_push(ev.take(i as int), ev[i as int]);
                    assert(ev.take(i + 1) =~= ev.take(i as int).push(ev[i as int]));
                }
                i = i + 1;
            }
            assert(ev.take(n as int) =~= ev);
        },
    }
    assert(out@ =~= spec_encode_response(r@));
    out
}

/// Reads `n` consecutive `u64` values starting at `pos`.
fn take_u64s(b: &Vec<u8>, pos: usize, n: u64) -> (r: Option<(Vec<u64>, usize)>)
    requires
        pos <= b@.len(),
    ensures
        r matches Some(p) ==> spec_take_u64s(b@, pos as int, n as nat) == Some(
            (p.0@, p.1 as int),
        ) && p.1 <= b@.len(),
        r is None ==> spec_take_u64s(b@, pos as int, n as nat) is None,
{
    let ghost start = pos as int;
    proof {
        match spec_take_u64s(b@, start, n as nat) {
            Some((rest, end)) => {
                assert(Seq::<u64>::empty() + rest =~= rest);
            },
            None => {},
        }
    }
    let mut acc: Vec<u64> = Vec::new();
    let mut cur = pos;
    let mut k: u64 = 0;
    while k < n
        invariant
            k <= n,
            cur <= b@.len(),
            start == pos as int,
            spec_take_u64s(b@, start, n as nat) == (match spec_take_u64s(
                b@,
                cur as int,
                (n - k) as nat,
            ) {
                Some((rest, end)) => Some((acc@ + rest, end)),
                None => None::<(Seq<u64>, int)>,
            }),
        decreases n - k,
    {
        match take_u64(b, cur) {
            Some((x, p2)) => {
                proof {
                    match spec_take_u64s(b@, p2 as int, (n - k - 1) as nat) {
                        Some((rest, end)) => {
                            assert(acc@.push(x) + rest =~= acc@ + (seq![x] + rest));
                        },
                        None => {},
                    }
                }
                acc.push(x);
                cur = p2;
                k = k + 1;
            },
            None => {
                return None;
            },
        }
    }
    proof {
        assert(acc@ + Seq::<u64>::empty() =~= acc@);
    }
    Some((acc, cur))
}

/// Reads `n` consecutive strings starting at `pos`.
fn take_strings(b: &Vec<u8>, pos: usize, n: u64) -> (r: Option<(Vec<String>, usize)>)
    requires
        pos <= b@.len(),
    ensures
        r matches Some(p) ==> spec_take_strs(b@, pos as int, n as nat) == Some(
            (p.0@.map_values(|s: String| s@), p.1 as int),
        ) && p.1 <= b@.len(),
        r is None ==> spec_take_strs(b@, pos as int, n as nat) is None,
{
    let ghost start = pos as int;
    proof {
        match spec_take_strs(b@, start, n as nat) {
            Some((rest, end)) => {
                assert(Seq::<Seq<char>>::empty() + rest =~= rest);
            },
            None => {},
        }
    }
    let mut acc: Vec<String> = Vec::new();
    let mut cur = pos;
    let mut k: u64 = 0;
    while k < n
        invariant
            k <= n,
            cur <= b@.len(),
            start == pos as int,
            spec_take_strs(b@, start, n as nat) == (match spec_take_strs(
                b@,
                cur as int,
                (n - k) as nat,
            ) {
                Some((rest, end)) => Some((acc@.map_values(|s: String| s@) + rest, end)),
                None => None::<(Seq<Seq<char>>, int)>,
            }),
        decreases n - k,
    {
        match take_string(b, cur) {
            Some((x, p2)) => {
                proof {
                    let av = acc@.map_values(|s: String| s@);
                    match spec_take_strs(b@, p2 as int, (n - k - 1) as nat) {
                        Some((rest, end)) => {
                            assert(acc@.push(x).map_values(|s: String| s@) =~= av.push(x@));
                            assert(av.push(x@) + rest =~= av + (seq![x@] + rest));
                        },
                        None => {},
                    }
                    assert(acc@.push(x).map_values(|s: String| s@) =~= av.push(x@));
                }
                acc.push(x);
                cur = p2;
                k = k + 1;
            },
            None => {
                return None;
            },
        }
    }
    proof {
        assert(acc@.map_values(|s: String| s@) + Seq::<Seq<char>>::empty() =~= acc@.map_values(
            |s: String| s@,
        ));
    }
    Some((acc, cur))
}

/// Reads `n` consecutive string-value pairs starting at `pos`.
fn take_pairs(b: &Vec<u8>, pos: usize, n: u64) -> (r: Option<(Vec<(String, u64)>, usize)>)
    requires
        pos <= b@.len(),
    ensures
        r matches Some(p) ==> spec_take_pairs(b@, pos as int, n as nat) == Some(
            (p.0@.map_values(|e: (String, u64)| (e.0@, e.1)), p.1 as int),
        ) && p.1 <= b@.len(),
        r is None ==> spec_take_pairs(b@, pos as int, n as nat) is None,
{
    let ghost start = pos as int;
    proof {
        match spec_take_pairs(b@, start, n as nat) {
            Some((rest, end)) => {
                assert(Seq::<(Seq<char>, u64)>::empty() + rest =~= rest);
            },
            None => {},
        }
    }
    let mut acc: Vec<(String, u64)> = Vec::new();
    let mut cur = pos;
    let mut k: u64 = 0;
    while k < n
        invariant
            k <= n,
            cur <= b@.len(),
            start == pos as int,
            spec_take_pairs(b@, start, n as nat) == (match spec_take_pairs(
                b@,
                cur as int,
                (n - k) as nat,
            ) {
                Some((rest, end)) => Some(
                    (acc@.map_values(|e: (String, u64)| (e.0@, e.1)) + rest, end),
                ),
                None => None::<(Seq<(Seq<char>, u64)>, int)>,
            }),
        decreases n - k,
    {
        let (key, p2) = match take_string(b, cur) {
            Some(p) => p,
            None => { return None },
        };
        let (val, p3) = match take_u64(b, p2) {
            Some(p) => p,
            None => { return None },
        };
        proof {
            let av = acc@.map_values(|e: (String, u64)| (e.0@, e.1));
            match spec_take_pairs(b@, p3 as int, (n - k - 1) as nat) {
                Some((rest, end)) => {
                    assert(acc@.push((key, val)).map_values(|e: (String, u64)| (e.0@, e.1))
                        =~= av.push((key@, val)));
                    assert(av.push((key@, val)) + rest =~= av + (seq![(key@, val)] + rest));
                },
                None => {},
            }
            assert(acc@.push((key, val)).map_values(|e: (String, u64)| (e.0@, e.1)) =~= av.push(
                (key@, val),
            ));
        }
        acc.push((key, val));
        cur = p3;
        k = k + 1;
    }
    proof {
        let av = acc@.map_values(|e: (String, u64)| (e.0@, e.1));
        assert(av + Seq::<(Seq<char>, u64)>::empty() =~= av);
    }
    Some((acc, cur))
}

/// Deserializes a buffer that should hold exactly one response.
pub fn decode_response(b: &Vec<u8>) -> (r: Option<TbonResponse>)
    ensures
        r matches Some(resp) ==> spec_decode_response(b@) == Some(resp@),
        r is None ==> spec_decode_response(b@) is None,
{
    if b.len() < 1 {
        return None;
    }
    let tag = b[0];
    if tag == TAG_RESP_ERROR {
        match take_string(b, 1) {
            Some((m, j)) => if j == b.len() {
                Some(TbonResponse::Error(m))
            } else {
                None
            },
            None => None,
        }
    } else if tag == TAG_RESP_OKAY {
        if b.len() == 1 {
            Some(TbonResponse::Okay)
        } else {
            None
        }
    } else if tag == TAG_RESP_COUNT {
        match take_u32(b, 1) {
            Some((n, j)) => if j == b.len() {
                Some(TbonResponse::Count(n))
            } else {
                None
            },
            None => None,
        }
    } else if tag == TAG_RESP_PIVOT {
        let (id, j) = match take_u32(b, 1) {
            Some(p) => p,
            None => { return None },
        };
        match take_string(b, j) {
            Some((addr, k)) => if k == b.len() {
                Some(TbonResponse::Pivot(id, addr))
            } else {
                None
            },
            None => None,
        }
    } else if tag == TAG_RESP_HISTOGRAM {
        let (ts, j) = match take_u64(b, 1) {
            Some(p) => p,
            None => { return None },
        };
        let (n, j2) = match take_u64(b, j) {
            Some(p) => p,
            None => { return None },
        };
        match take_u64s(b, j2, n) {
            Some((counts, k)) => if k == b.len() {
                Some(TbonResponse::Histogram(ts, counts))
            } else {
                None
            },
            None => None,
        }
    } else if tag == TAG_RESP_LIST_KEYS {
        let (n, j) = match take_u64(b, 1) {
            Some(p) => p,
            None => { return None },
        };
        match take_strings(b, j, n) {
            Some((keys, k)) => if k == b.len() {
                Some(TbonResponse::ListKeys(keys))
            } else {
                None
            },
            None => None,
        }
    } else if tag == TAG_RESP_VALUES {
        let (n, j) = match take_u64(b, 1) {
            Some(p) => p,
            None => { return None },
        };
        match take_pairs(b, j, n) {
            Some((entries, k)) => if k == b.len() {
                Some(TbonResponse::Values(entries))
            } else {
                None
            },
            None => None,
        }
    } else {
        None
    }
}

/// The encodings of the fixed-width integers have fixed width.
proof fn lemma_le_lens()
    ensures
        forall|x: u32| (#[trigger] spec_u32_to_le_bytes(x)).len() == 4,
        forall|x: u64| (#[trigger] spec_u64_to_le_bytes(x)).len() == 8,
{
    lemma_auto_spec_u32_to_from_le_bytes();
    lemma_auto_spec_u64_to_from_le_bytes();
    assert forall|x: u32| (#[trigger] spec_u32_to_le_bytes(x)).len() == 4 by {
        assert(spec_u32_to_le_bytes(x).len() == 4);
    }
    assert forall|x: u64| (#[trigger] spec_u64_to_le_bytes(x)).len() == 8 by {
        assert(spec_u64_to_le_bytes(x).len() == 8);
    }
}

/// A stretch of the buffer equal to `x + y` splits into a stretch equal to
/// `x` and one equal to `y`.
proof fn lemma_split_parts(b: Seq<u8>, i: int, x: Seq<u8>, y: Seq<u8>)
    requires
        0 <= i,
        i + x.len() + y.len() <= b.len(),
        b.subrange(i, i + x.len() + y.len()) == x + y,
    ensures
        b.subrange(i, i + x.len()) == x,
        b.subrange(i + x.len(), i + x.len() + y.len()) == y,
{
    assert forall|k: int| 0 <= k < x.len() implies b[i + k] == x[k] by {
        let sub = b.subrange(i, i + x.len() + y.len());
        assert(sub[k] == b[i + k]);
        assert(sub[k] == (x + y)[k]);
        assert((x + y)[k] == x[k]);
    }
    assert(b.subrange(i, i + x.len()) =~= x);
    assert forall|k: int| 0 <= k < y.len() implies b[i + x.len() + k] == y[k] by {
        let sub = b.subrange(i, i + x.len() + y.len());
        assert(sub[x.len() + k] == b[i + (x.len() + k)]);
        assert(sub[x.len() + k] == (x + y)[x.len() + k]);
        assert((x + y)[x.len() + k] == y[k]);
        assert(b[i + (x.len() + k)] == b[i + x.len() + k]);
    }
    assert(b.subrange(i + x.len(), i + x.len() + y.len()) =~= y);
}

/// Reading a run of `u64` values whose encoding sits at `i` gives it back.
proof fn lemma_take_u64s_frame(b: Seq<u8>, i: int, s: Seq<u64>)
    requires
        0 <= i,
        i + spec_encode_u64s(s).len() <= b.len(),
        b.subrange(i, i + spec_encode_u64s(s).len()) == spec_encode_u64s(s),
    ensures
        spec_take_u64s(b, i, s.len()) == Some((s, i + spec_encode_u64s(s).len())),
    decreases s.len(),
{
    lemma_le_lens();
    if s.len() > 0 {
        let head = spec_u64_to_le_bytes(s[0]);
        let rest = spec_encode_u64s(s.drop_first());
        lemma_split_parts(b, i, head, rest);
        lemma_take_u64_frame(b, i, s[0]);
        lemma_take_u64s_frame(b, i + 8, s.drop_first());
        assert(seq![s[0]] + s.drop_first() =~= s);
    } else {
        assert(s =~= Seq::<u64>::empty());
    }
}

/// Reading a run of strings whose encoding sits at `i` gives it back.
proof fn lemma_take_strs_frame(b: Seq<u8>, i: int, s: Seq<Seq<char>>)
    requires
        0 <= i,
        forall|k: int| 0 <= k < s.len() ==> encode_utf8(#[trigger] s[k]).len()
            < 0x1_0000_0000_0000_0000,
        i + spec_encode_strs(s).len() <= b.len(),
        b.subrange(i, i + spec_encode_strs(s).len()) == spec_encode_strs(s),
    ensures
        spec_take_strs(b, i, s.len()) == Some((s, i + spec_encode_strs(s).len())),
    decreases s.len(),
{
    lemma_le_lens();
    if s.len() > 0 {
        let head = spec_encode_str(s[0]);
        let rest = spec_encode_strs(s.drop_first());
        lemma_split_parts(b, i, head, rest);
        lemma_take_str_frame(b, i, s[0]);
        assert(forall|k: int|
            0 <= k < s.drop_first().len() ==> encode_utf8(#[trigger] s.drop_first()[k]).len()
                < 0x1_0000_0000_0000_0000);
        lemma_take_strs_frame(b, i + head.len(), s.drop_first());
        assert(seq![s[0]] + s.drop_first() =~= s);
    } else {
        assert(s =~= Seq::<Seq<char>>::empty());
    }
}

/// Reading a run of string-value pairs whose encoding sits at `i` gives it
/// back.
proof fn lemma_take_pairs_frame(b: Seq<u8>, i: int, s: Seq<(Seq<char>, u64)>)
    requires
        0 <= i,
        forall|k: int| 0 <= k < s.len() ==> encode_utf8((#[trigger] s[k]).0).len()
            < 0x1_0000_0000_0000_0000,
        i + spec_encode_pairs(s).len() <= b.len(),
        b.subrange(i, i + spec_encode_pairs(s).len()) == spec_encode_pairs(s),
    ensures
        spec_take_pairs(b, i, s.len()) == Some((s, i + spec_encode_pairs(s).len())),
    decreases s.len(),
{
    lemma_le_lens();
    if s.len() > 0 {
        let head_key = spec_encode_str(s[0].0);
        let head_val = spec_u64_to_le_bytes(s[0].1);
        let rest = spec_encode_pairs(s.drop_first());
        lemma_split_parts(b, i, head_key + head_val, rest);
        lemma_split_parts(b, i, head_key, head_val);
        lemma_take_str_frame(b, i, s[0].0);
        lemma_take_u64_frame(b, i + head_key.len(), s[0].1);
        assert(forall|k: int|
            0 <= k < s.drop_first().len() ==> encode_utf8((#[trigger] s.drop_first()[k]).0).len()
                < 0x1_0000_0000_0000_0000);
        lemma_take_pairs_frame(b, i + head_key.len() + 8, s.drop_first());
        assert(seq![s[0]] + s.drop_first() =~= s);
    } else {
        assert(s =~= Seq::<(Seq<char>, u64)>::empty());
    }
}

/// Validity of a response for the wire: every string and list is short
/// enough for its 64-bit length header. Every value built from in-memory
/// vectors satisfies this.
pub open spec fn response_wf(r: ResponseView) -> bool {
    match r {
        ResponseView::Error(m) => encode_utf8(m).len() < 0x1_0000_0000_0000_0000,
        ResponseView::Okay => true,
        ResponseView::Count(_) => true,
        ResponseView::Pivot(_, addr) => encode_utf8(addr).len() < 0x1_0000_0000_0000_0000,
        ResponseView::Histogram(_, counts) => counts.len() < 0x1_0000_0000_0000_0000,
        ResponseView::ListKeys(keys) => keys.len() < 0x1_0000_0000_0000_0000 && forall|k: int|
            0 <= k < keys.len() ==> encode_utf8(#[trigger] keys[k]).len()
                < 0x1_0000_0000_0000_0000,
        ResponseView::Values(entries) => entries.len() < 0x1_0000_0000_0000_0000 && forall|k: int|
            0 <= k < entries.len() ==> encode_utf8((#[trigger] entries[k]).0).len()
                < 0x1_0000_0000_0000_0000,
    }
}

/// Wire round trip for responses: deserializing a serialized response
/// returns an equal value, for every well-formed response.
pub proof fn lemma_response_round_trip(r: ResponseView)
    requires
        response_wf(r),
    ensures
        spec_decode_response(spec_encode_response(r)) == Some(r),
{
    let b = spec_encode_response(r);
    lemma_le_lens();
    match r {
        ResponseView::Error(m) => {
            let enc = spec_encode_str(m);
            assert(b.subrange(1, 1 + enc.len() as int) =~= enc);
            lemma_take_str_frame(b, 1, m);
        },
        ResponseView::Okay => {
        },
        ResponseView::Count(n) => {
            assert(b.subrange(1, 5) =~= spec_u32_to_le_bytes(n));
            lemma_take_u32_frame(b, 1, n);
        },
        ResponseView::Pivot(id, addr) => {
            let le = spec_u32_to_le_bytes(id);
            let enc = spec_encode_str(addr);
            assert(b.subrange(1, 1 + le.len() as int + enc.len() as int) =~= le + enc);
            lemma_split_parts(b, 1, le, enc);
            lemma_take_u32_frame(b, 1, id);
            lemma_take_str_frame(b, 5, addr);
        },
        ResponseView::Histogram(ts, counts) => {
            let le_ts = spec_u64_to_le_bytes(ts);
            let le_n = spec_u64_to_le_bytes(counts.len() as u64);
            let enc = spec_encode_u64s(counts);
            assert(b.subrange(1, 1 + (le_ts + le_n).len() as int + enc.len() as int) =~= (le_ts + le_n) + enc);
            lemma_split_parts(b, 1, le_ts + le_n, enc);
            lemma_split_parts(b, 1, le_ts, le_n);
            lemma_take_u64_frame(b, 1, ts);
            lemma_take_u64_frame(b, 9, counts.len() as u64);
            lemma_take_u64s_frame(b, 17, counts);
            assert((counts.len() as u64) as nat == counts.len());
        },
        ResponseView::ListKeys(keys) => {
            let le_n = spec_u64_to_le_bytes(keys.len() as u64);
            let enc = spec_encode_strs(keys);
            assert(b.subrange(1, 1 + le_n.len() as int + enc.len() as int) =~= le_n + enc);
            lemma_split_parts(b, 1, le_n, enc);
            lemma_take_u64_frame(b, 1, keys.len() as u64);
            lemma_take_strs_frame(b, 9, keys);
            assert((keys.len() as u64) as nat == keys.len());
        },
        ResponseView::Values(entries) => {
            let le_n = spec_u64_to_le_bytes(entries.len() as u64);
            let enc = spec_encode_pairs(entries);
            assert(b.subrange(1, 1 + le_n.len() as int + enc.len() as int) =~= le_n + enc);
            lemma_split_parts(b, 1, le_n, enc);
            lemma_take_u64_frame(b, 1, entries.len() as u64);
            lemma_take_pairs_frame(b, 9, entries);
            assert((entries.len() as u64) as nat == entries.len());
        },
    }
}

/// Wire round trip for queries: deserializing a serialized query returns an
/// equal value, for every query whose strings a header can measure.
pub proof fn lemma_query_round_trip(q: QueryView)
    requires
        q matches QueryView::Pivot(a) ==> encode_utf8(a).len() < 0x1_0000_0000_0000_0000,
        q matches QueryView::Histogram(k) ==> encode_utf8(k).len() < 0x1_0000_0000_0000_0000,
        q matches QueryView::Values(k) ==> encode_utf8(k).len() < 0x1_0000_0000_0000_0000,
    ensures
        spec_decode_query(spec_encode_query(q)) == Some(q),
{
    let b = spec_encode_query(q);
    lemma_auto_spec_u32_to_from_le_bytes();
    lemma_auto_spec_u64_to_from_le_bytes();
    assert forall|x: u32| (#[trigger] spec_u32_to_le_bytes(x)).len() == 4 by {
        assert(spec_u32_to_le_bytes(x).len() == 4);
    }
    assert forall|x: u64| (#[trigger] spec_u64_to_le_bytes(x)).len() == 8 by {
        assert(spec_u64_to_le_bytes(x).len() == 8);
    }
    match q {
        QueryView::Join(id) => {
            assert(b.subrange(1, 5) =~= spec_u32_to_le_bytes(id));
            lemma_take_u32_frame(b, 1, id);
        },
        QueryView::Pivot(addr) => {
            assert(b.subrange(1, 1 + spec_encode_str(addr).len() as int) =~= spec_encode_str(
                addr,
            ));
            lemma_take_str_frame(b, 1, addr);
        },
        QueryView::Count => {
        },
        QueryView::Histogram(key) => {
            assert(b.subrange(1, 1 + spec_encode_str(key).len() as int) =~= spec_encode_str(key));
            lemma_take_str_frame(b, 1, key);
        },
        QueryView::ListKeys => {
        },
        QueryView::Values(key) => {
            assert(b.subrange(1, 1 + spec_encode_str(key).len() as int) =~= spec_encode_str(key));
            lemma_take_str_frame(b, 1, key);
        },
    }
}

} // verus!
