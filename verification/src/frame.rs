//! Frame codec: converts between a raw byte stream and discrete message
//! payloads. A frame is a block of `Key: Value` header lines, each terminated
//! by CRLF, ended by one empty line, followed by a body of exactly the byte
//! count that the mandatory `Content-Length` header declares. Unknown headers
//! are ignored, as is any header line that is not the length header; a
//! header block without the length field, or with a duplicated or malformed
//! length value, is a framing error; end of stream inside a header block or
//! body is a truncation error; end of stream before any byte of the next
//! frame is a clean end.

use vstd::prelude::*;
use crate::text::{is_digit, dec_digits, dec_val, digit_run_end, lemma_digit_run_end_bounds,
    lemma_digit_run_end_of_block, lemma_dec_digits_are_digits, lemma_dec_val_of_digits,
    u64_to_dec, parse_dec_run};

verus! {

/// The bytes of the literal header name `Content-Length`.
pub open spec fn length_field_name() -> Seq<u8> {
    seq![67u8, 111u8, 110u8, 116u8, 101u8, 110u8, 116u8, 45u8, 76u8, 101u8, 110u8, 103u8, 116u8, 104u8]
}

/// Space or horizontal tab, the padding accepted around a header value.
pub open spec fn is_header_ws(c: u8) -> bool {
    c == 32 || c == 9
}

/// First position `j >= i` where a CRLF pair starts, if any.
pub open spec fn find_crlf(b: Seq<u8>, i: int) -> Option<int>
    decreases b.len() - i when 0 <= i <= b.len()
{
    if i + 2 > b.len() {
        None
    } else if b[i] == 13 && b[i + 1] == 10 {
        Some(i)
    } else {
        find_crlf(b, i + 1)
    }
}

/// First position of byte `t` in `[i, end)`, if any.
pub open spec fn find_byte(b: Seq<u8>, i: int, end: int, t: u8) -> Option<int>
    decreases end - i when 0 <= i <= end <= b.len()
{
    if i == end {
        None
    } else if b[i] == t {
        Some(i)
    } else {
        find_byte(b, i + 1, end, t)
    }
}

/// First position in `[i, end)` that is not header padding, or `end`.
pub open spec fn skip_header_ws(b: Seq<u8>, i: int, end: int) -> int
    decreases end - i when 0 <= i <= end <= b.len()
{
    if i == end {
        i
    } else if is_header_ws(b[i]) {
        skip_header_ws(b, i + 1, end)
    } else {
        i
    }
}

/// The declared byte count in the value region `[i, end)` of a length header
/// line: optional padding, a non-empty digit run, optional padding, nothing
/// else. `None` when the value is not such an unsigned integer.
pub open spec fn length_value(b: Seq<u8>, i: int, end: int) -> Option<int>
    recommends
        0 <= i <= end <= b.len(),
{
    let a = skip_header_ws(b, i, end);
    let e = digit_run_end(b, a, end);
    if e == a {
        None
    } else if skip_header_ws(b, e, end) != end {
        None
    } else {
        Some(dec_val(b.subrange(a, e)))
    }
}

/// Result of one attempt to decode the next frame from the unconsumed bytes.
pub enum FrameStep {
    /// A complete frame: its payload and how many bytes it consumed.
    Frame { payload: Seq<u8>, used: int },
    /// The bytes end inside a frame and the stream is still open.
    NeedMore,
    /// The stream ended before any byte of the next frame: a clean end.
    End,
    /// The header block cannot be trusted: the byte boundary is lost.
    Framing,
    /// The stream ended inside a header block or body.
    Truncation,
}

/// Scans header lines from `i` with `len` the length value seen so far, and
/// says what the bytes `b` amount to when `eof` tells whether the stream has
/// ended.
pub open spec fn scan_headers(b: Seq<u8>, i: int, eof: bool, len: Option<int>) -> FrameStep
    decreases b.len() - i when 0 <= i <= b.len()
{
    match find_crlf(b, i) {
        None => if eof {
            FrameStep::Truncation
        } else {
            FrameStep::NeedMore
        },
        Some(j) => {
            if j < i || j + 2 > b.len() {
                // never taken: a found CRLF lies at or after `i`, inside `b`
                FrameStep::NeedMore
            } else if j == i {
                match len {
                    None => FrameStep::Framing,
                    Some(n) => {
                        if n <= b.len() - (i + 2) {
                            FrameStep::Frame { payload: b.subrange(i + 2, i + 2 + n), used: i + 2 + n }
                        } else if eof {
                            FrameStep::Truncation
                        } else {
                            FrameStep::NeedMore
                        }
                    },
                }
            } else {
                match find_byte(b, i, j, 58) {
                    None => scan_headers(b, j + 2, eof, len),
                    Some(c) => {
                        if c < i {
                            // never taken: a found colon lies at or after `i`
                            FrameStep::NeedMore
                        } else if b.subrange(i, c) == length_field_name() {
                            if len is Some {
                                FrameStep::Framing
                            } else {
                                match length_value(b, c + 1, j) {
                                    None => FrameStep::Framing,
                                    Some(n) => if n > usize::MAX {
                                        FrameStep::Framing
                                    } else {
                                        scan_headers(b, j + 2, eof, Some(n))
                                    },
                                }
                            }
                        } else {
                            scan_headers(b, j + 2, eof, len)
                        }
                    },
                }
            }
        },
    }
}

/// What the unconsumed bytes `b` of a stream hold, `eof` saying whether the
/// stream has ended after them.
pub open spec fn decode_frame_spec(b: Seq<u8>, eof: bool) -> FrameStep {
    if b.len() == 0 {
        if eof {
            FrameStep::End
        } else {
            FrameStep::NeedMore
        }
    } else {
        scan_headers(b, 0, eof, None)
    }
}

/// The encoding of a payload: `Content-Length: <n>`, CRLF, an empty line,
/// then the payload bytes themselves.
pub open spec fn encode_frame_spec(p: Seq<u8>) -> Seq<u8> {
    length_field_name() + seq![58u8, 32u8] + dec_digits(p.len()) + seq![13u8, 10u8, 13u8, 10u8] + p
}

pub proof fn lemma_find_crlf_first(b: Seq<u8>, i: int, j: int)
    requires
        0 <= i <= j,
        j + 2 <= b.len(),
        forall|k: int| i <= k < j ==> b[k] != 13,
        b[j] == 13,
        b[j + 1] == 10,
    ensures
        find_crlf(b, i) == Some(j),
    decreases j - i,
{
    if i < j {
        lemma_find_crlf_first(b, i + 1, j);
    }
}

pub proof fn lemma_find_byte_first(b: Seq<u8>, i: int, end: int, t: u8, c: int)
    requires
        0 <= i <= c < end <= b.len(),
        forall|k: int| i <= k < c ==> b[k] != t,
        b[c] == t,
    ensures
        find_byte(b, i, end, t) == Some(c),
    decreases c - i,
{
    if i < c {
        lemma_find_byte_first(b, i + 1, end, t, c);
    }
}

/// Round trip through the frame codec: however an encoded frame is followed
/// by more stream bytes, and whether or not the stream has ended, decoding
/// finds exactly the original payload and consumes exactly the encoding.
pub proof fn lemma_frame_round_trip(p: Seq<u8>, rest: Seq<u8>, eof: bool)
    requires
        p.len() <= usize::MAX,
    ensures
        decode_frame_spec(encode_frame_spec(p) + rest, eof) == (FrameStep::Frame {
            payload: p,
            used: encode_frame_spec(p).len() as int,
        }),
{
    let enc = encode_frame_spec(p);
    let b = enc + rest;
    let digits = dec_digits(p.len());
    let d = digits.len() as int;
    let n = p.len() as int;
    lemma_dec_digits_are_digits(p.len());
    lemma_dec_val_of_digits(p.len());
    assert(b.len() == 20 + d + n + rest.len());
    assert(forall|k: int| 0 <= k < 14 ==> b[k] == length_field_name()[k]);
    assert(b[14] == 58);
    assert(b[15] == 32);
    assert(forall|k: int| 0 <= k < d ==> b[16 + k] == digits[k]);
    assert(b[16 + d] == 13);
    assert(b[17 + d] == 10);
    assert(b[18 + d] == 13);
    assert(b[19 + d] == 10);
    assert(forall|k: int| 0 <= k < n ==> b[20 + d + k] == p[k]);
    let j = 16 + d;
    assert(forall|k: int| 0 <= k < 14 ==> length_field_name()[k] != 13 && length_field_name()[k] != 58);
    assert(forall|k: int| 0 <= k < j ==> b[k] != 13) by {
        assert(forall|k: int| 16 <= k < j ==> is_digit(#[trigger] b[k]));
    }
    lemma_find_crlf_first(b, 0, j);
    assert(forall|k: int| 0 <= k < 14 ==> b[k] != 58);
    lemma_find_byte_first(b, 0, j, 58, 14);
    assert(b.subrange(0, 14) =~= length_field_name());
    // the value region of the length header line
    assert(is_digit(b[16]) && !is_header_ws(b[16]));
    assert(skip_header_ws(b, 16, j) == 16);
    assert(skip_header_ws(b, 15, j) == 16);
    lemma_digit_run_end_of_block(b, 16, 16 + d, j);
    assert(skip_header_ws(b, 16 + d, j) == j);
    assert(b.subrange(16, 16 + d) =~= digits);
    assert(length_value(b, 15, j) == Some(n));
    assert(scan_headers(b, 0, eof, None) == scan_headers(b, j + 2, eof, Some(n)));
    // the empty line and the body
    lemma_find_crlf_first(b, 18 + d, 18 + d);
    assert(b.subrange(20 + d, 20 + d + n) =~= p);
    assert(scan_headers(b, 18 + d, eof, Some(n)) == (FrameStep::Frame { payload: p, used: 20 + d + n }));
    assert(enc.len() == 20 + d + n);
}

pub proof fn lemma_find_crlf_bounds(b: Seq<u8>, i: int)
    requires
        0 <= i <= b.len(),
    ensures
        match find_crlf(b, i) {
            Some(j) => i <= j && j + 2 <= b.len() && b[j] == 13 && b[j + 1] == 10
                && forall|k: int| i <= k < j ==> !(#[trigger] b[k] == 13 && b[k + 1] == 10),
            None => forall|k: int| i <= k && k + 2 <= b.len() ==> !(#[trigger] b[k] == 13 && b[k + 1] == 10),
        },
    decreases b.len() - i,
{
    if i + 2 > b.len() {
    } else if b[i] == 13 && b[i + 1] == 10 {
    } else {
        lemma_find_crlf_bounds(b, i + 1);
    }
}

pub proof fn lemma_find_byte_bounds(b: Seq<u8>, i: int, end: int, t: u8)
    requires
        0 <= i <= end <= b.len(),
    ensures
        match find_byte(b, i, end, t) {
            Some(c) => i <= c < end && b[c] == t && forall|k: int| i <= k < c ==> b[k] != t,
            None => forall|k: int| i <= k < end ==> b[k] != t,
        },
    decreases end - i,
{
    if i < end && b[i] != t {
        lemma_find_byte_bounds(b, i + 1, end, t);
    }
}

pub proof fn lemma_skip_header_ws_bounds(b: Seq<u8>, i: int, end: int)
    requires
        0 <= i <= end <= b.len(),
    ensures
        i <= skip_header_ws(b, i, end) <= end,
        skip_header_ws(b, i, end) < end ==> !is_header_ws(b[skip_header_ws(b, i, end)]),
        forall|k: int| i <= k < skip_header_ws(b, i, end) ==> is_header_ws(b[k]),
    decreases end - i,
{
    if i < end && is_header_ws(b[i]) {
        lemma_skip_header_ws_bounds(b, i + 1, end);
    }
}

/// Copies `b[from..to]` into a fresh vector.
pub fn copy_range(b: &[u8], from: usize, to: usize) -> (r: Vec<u8>)
    requires
        from <= to <= b@.len(),
    ensures
        r@ == b@.subrange(from as int, to as int),
{
    let mut out: Vec<u8> = Vec::new();
    let mut k: usize = from;
    while k < to
        invariant
            from <= k <= to <= b@.len(),
            out@ == b@.subrange(from as int, k as int),
        decreases to - k,
    {
        out.push(b[k]);
        proof {
            assert(b@.subrange(from as int, k + 1 as int)
                =~= b@.subrange(from as int, k as int).push(b@[k as int]));
        }
        k = k + 1;
    }
    out
}

/// Finds the first CRLF pair at or after `start`.
pub fn find_crlf_at(b: &[u8], start: usize) -> (r: Option<usize>)
    requires
        start <= b@.len(),
    ensures
        match r {
            Some(j) => find_crlf(b@, start as int) == Some(j as int),
            None => find_crlf(b@, start as int) is None,
        },
{
    let mut i: usize = start;
    while b.len() >= 2 && i <= b.len() - 2 && !(b[i] == 13 && b[i + 1] == 10)
        invariant
            start <= i <= b@.len(),
            find_crlf(b@, start as int) == find_crlf(b@, i as int),
        decreases b@.len() - i,
    {
        i = i + 1;
    }
    if b.len() >= 2 && i <= b.len() - 2 {
        Some(i)
    } else {
        None
    }
}

/// Finds the first `t` byte in `[i, end)`.
pub fn find_byte_at(b: &[u8], i: usize, end: usize, t: u8) -> (r: Option<usize>)
    requires
        i <= end <= b@.len(),
    ensures
        match r {
            Some(c) => find_byte(b@, i as int, end as int, t) == Some(c as int),
            None => find_byte(b@, i as int, end as int, t) is None,
        },
{
    let mut k: usize = i;
    while k < end && b[k] != t
        invariant
            i <= k <= end <= b@.len(),
            find_byte(b@, i as int, end as int, t) == find_byte(b@, k as int, end as int, t),
        decreases end - k,
    {
        k = k + 1;
    }
    if k < end {
        Some(k)
    } else {
        None
    }
}

/// First non-padding position in `[i, end)`.
pub fn skip_header_ws_at(b: &[u8], i: usize, end: usize) -> (r: usize)
    requires
        i <= end <= b@.len(),
    ensures
        r == skip_header_ws(b@, i as int, end as int),
        i <= r <= end,
{
    let mut k: usize = i;
    while k < end && (b[k] == 32 || b[k] == 9)
        invariant
            i <= k <= end <= b@.len(),
            skip_header_ws(b@, i as int, end as int) == skip_header_ws(b@, k as int, end as int),
        decreases end - k,
    {
        k = k + 1;
    }
    k
}

#[derive(Debug, Clone, Copy, PartialEq, Eq, Structural)]
pub enum FrameError {
    /// The length header is missing, duplicated or malformed, or a header
    /// line has no colon: the byte boundary cannot be trusted afterwards.
    Framing,
    /// The stream ended in the middle of a frame.
    Truncation,
}

/// Outcome of [`decode_frame`].
#[derive(Debug)]
pub enum FrameDecode {
    /// A complete frame: the payload and the number of bytes consumed.
    Frame(Vec<u8>, usize),
    /// The buffered bytes stop inside a frame and more may yet arrive.
    NeedMore,
    /// Clean end of stream: no byte of a next frame was read.
    End,
    Fail(FrameError),
}

impl View for FrameDecode {
    type V = FrameStep;

    open spec fn view(&self) -> FrameStep {
        match self {
            FrameDecode::Frame(p, u) => FrameStep::Frame { payload: p@, used: *u as int },
            FrameDecode::NeedMore => FrameStep::NeedMore,
            FrameDecode::End => FrameStep::End,
            FrameDecode::Fail(FrameError::Framing) => FrameStep::Framing,
            FrameDecode::Fail(FrameError::Truncation) => FrameStep::Truncation,
        }
    }
}

/// Decodes the next frame out of the unconsumed bytes `b`; `eof` says whether
/// the stream has ended after them. The caller drops the consumed bytes on
/// `Frame` and otherwise reads more, stops, or closes the session.
pub fn decode_frame(b: &[u8], eof: bool) -> (r: FrameDecode)
    ensures
        r@ == decode_frame_spec(b@, eof),
{
    let ghost bs = b@;
    if b.len() == 0 {
        if eof {
            return FrameDecode::End;
        } else {
            return FrameDecode::NeedMore;
        }
    }
    let mut i: usize = 0;
    let mut len: Option<usize> = None;
    loop
        invariant
            i <= bs.len(),
            bs == b@,
            bs.len() > 0,
            bs.len() <= usize::MAX,
            scan_headers(bs, 0, eof, None) == scan_headers(
                bs,
                i as int,
                eof,
                match len {
                    Some(n) => Some(n as int),
                    None => None::<int>,
                },
            ),
        decreases bs.len() - i,
    {
        let ghost len_spec: Option<int> = match len {
            Some(n) => Some(n as int),
            None => None::<int>,
        };
        match find_crlf_at(b, i) {
            None => {
                if eof {
                    return FrameDecode::Fail(FrameError::Truncation);
                } else {
                    return FrameDecode::NeedMore;
                }
            },
            Some(j) => {
                proof {
                    lemma_find_crlf_bounds(bs, i as int);
                }
                if j == i {
                    match len {
                        None => {
                            return FrameDecode::Fail(FrameError::Framing);
                        },
                        Some(n) => {
                            if n <= b.len() - (i + 2) {
                                let payload = copy_range(b, i + 2, i + 2 + n);
                                return FrameDecode::Frame(payload, i + 2 + n);
                            } else if eof {
                                return FrameDecode::Fail(FrameError::Truncation);
                            } else {
                                return FrameDecode::NeedMore;
                            }
                        },
                    }
                } else {
                    match find_byte_at(b, i, j, 58) {
                        None => {
                            i = j + 2;
                        },
                        Some(c) => {
                            proof {
                                lemma_find_byte_bounds(bs, i as int, j as int, 58);
                            }
                            let is_length = key_is_length_field(b, i, c);
                            if is_length {
                                if len.is_some() {
                                    return FrameDecode::Fail(FrameError::Framing);
                                }
                                match parse_length_value(b, c + 1, j) {
                                    None => {
                                        return FrameDecode::Fail(FrameError::Framing);
                                    },
                                    Some(n) => {
                                        len = Some(n);
                                        i = j + 2;
                                    },
                                }
                            } else {
                                i = j + 2;
                            }
                        },
                    }
                }
            },
        }
    }
}

/// Says whether `b[i..c]` is exactly the length field name.
fn key_is_length_field(b: &[u8], i: usize, c: usize) -> (r: bool)
    requires
        i <= c <= b@.len(),
    ensures
        r == (b@.subrange(i as int, c as int) == length_field_name()),
{
    let name: [u8; 14] = [67, 111, 110, 116, 101, 110, 116, 45, 76, 101, 110, 103, 116, 104];
    if c - i != 14 {
        proof {
            assert(b@.subrange(i as int, c as int).len() != length_field_name().len());
        }
        return false;
    }
    let mut k: usize = 0;
    while k < 14
        invariant
            k <= 14,
            i + 14 == c,
            c <= b@.len(),
            name@ == length_field_name(),
            forall|m: int| 0 <= m < k ==> b@[i + m] == length_field_name()[m],
        decreases 14 - k,
    {
        if b[i + k] != name[k] {
            proof {
                assert(b@.subrange(i as int, c as int)[k as int] != length_field_name()[k as int]);
            }
            return false;
        }
        k = k + 1;
    }
    proof {
        assert(b@.subrange(i as int, c as int) =~= length_field_name());
    }
    true
}

/// Parses the value region `[i, end)` of a length header line; `None` when it
/// is not an unsigned integer that fits the machine.
fn parse_length_value(b: &[u8], i: usize, end: usize) -> (r: Option<usize>)
    requires
        i <= end <= b@.len(),
    ensures
        match r {
            Some(n) => length_value(b@, i as int, end as int) == Some(n as int),
            None => (match length_value(b@, i as int, end as int) {
                Some(m) => m > usize::MAX,
                None => true,
            }),
        },
{
    let a = skip_header_ws_at(b, i, end);
    let (val, e) = parse_dec_run(b, a, end);
    if e == a {
        return None;
    }
    let rest = skip_header_ws_at(b, e, end);
    if rest != end {
        return None;
    }
    match val {
        None => {
            proof {
                let run = b@.subrange(a as int, e as int);
                assert(forall|k: int| 0 <= k < run.len() ==> is_digit(#[trigger] run[k]));
            }
            None
        },
        Some(v) => {
            if v > usize::MAX as u64 {
                None
            } else {
                Some(v as usize)
            }
        },
    }
}

/// Encodes a payload as one frame: the length header, an empty line, and the
/// payload bytes verbatim; the declared count is the exact byte length.
pub fn encode_frame(p: &[u8]) -> (r: Vec<u8>)
    ensures
        r@ == encode_frame_spec(p@),
{
    let mut out: Vec<u8> = Vec::new();
    let name: [u8; 14] = [67, 111, 110, 116, 101, 110, 116, 45, 76, 101, 110, 103, 116, 104];
    let mut k: usize = 0;
    while k < 14
        invariant
            k <= 14,
            name@ == length_field_name(),
            out@ == length_field_name().subrange(0, k as int),
        decreases 14 - k,
    {
        out.push(name[k]);
        proof {
            assert(length_field_name().subrange(0, k + 1 as int)
                =~= length_field_name().subrange(0, k as int).push(length_field_name()[k as int]));
        }
        k = k + 1;
    }
    proof {
        assert(out@ =~= length_field_name());
    }
    out.push(58);
    out.push(32);
    let mut digits = u64_to_dec(p.len() as u64);
    out.append(&mut digits);
    out.push(13);
    out.push(10);
    out.push(13);
    out.push(10);
    let mut body = copy_range(p, 0, p.len());
    out.append(&mut body);
    proof {
        assert(p@.subrange(0, p@.len() as int) =~= p@);
        assert(out@ =~= encode_frame_spec(p@));
    }
    out
}

} // verus!
