//! The byte-level grammar of the structured text that message payloads are
//! written in: whitespace, strings with the standard escapes, numbers
//! scanned as maximal runs, arrays and objects. The message codec reads
//! envelope fields through it and carries opaque payload values as the exact
//! byte spans this scanner accepts.

use vstd::prelude::*;
use crate::text::{is_digit, digit_run_end};

verus! {

/// Structural whitespace: space, tab, line feed, carriage return.
pub open spec fn is_json_ws(c: u8) -> bool {
    c == 32 || c == 9 || c == 10 || c == 13
}

/// First position at or after `i` that is past the end or not whitespace.
pub open spec fn skip_json_ws(b: Seq<u8>, i: int) -> int
    decreases b.len() - i when 0 <= i <= b.len()
{
    if i == b.len() {
        i
    } else if is_json_ws(b[i]) {
        skip_json_ws(b, i + 1)
    } else {
        i
    }
}

pub proof fn lemma_skip_json_ws_bounds(b: Seq<u8>, i: int)
    requires
        0 <= i <= b.len(),
    ensures
        i <= skip_json_ws(b, i) <= b.len(),
        skip_json_ws(b, i) < b.len() ==> !is_json_ws(b[skip_json_ws(b, i)]),
        forall|k: int| i <= k < skip_json_ws(b, i) ==> is_json_ws(b[k]),
    decreases b.len() - i,
{
    if i < b.len() && is_json_ws(b[i]) {
        lemma_skip_json_ws_bounds(b, i + 1);
    }
}

/// First non-whitespace position at or after `i`.
pub fn skip_json_ws_at(b: &[u8], i: usize) -> (r: usize)
    requires
        i <= b@.len(),
    ensures
        r == skip_json_ws(b@, i as int),
        i <= r <= b@.len(),
{
    let mut k: usize = i;
    while k < b.len() && (b[k] == 32 || b[k] == 9 || b[k] == 10 || b[k] == 13)
        invariant
            i <= k <= b@.len(),
            skip_json_ws(b@, i as int) == skip_json_ws(b@, k as int),
        decreases b@.len() - k,
    {
        k = k + 1;
    }
    k
}

/// Value of an ASCII hex digit, or 16 when the byte is not one.
pub open spec fn hex_val(c: u8) -> int {
    if 48 <= c && c <= 57 {
        c - 48
    } else if 97 <= c && c <= 102 {
        c - 87
    } else if 65 <= c && c <= 70 {
        c - 55
    } else {
        16
    }
}

pub open spec fn is_hex(c: u8) -> bool {
    hex_val(c) < 16
}

/// The code unit named by the four hex digits that start at `i`.
pub open spec fn hex4(b: Seq<u8>, i: int) -> int
    recommends
        0 <= i && i + 4 <= b.len(),
{
    hex_val(b[i]) * 4096 + hex_val(b[i + 1]) * 256 + hex_val(b[i + 2]) * 16 + hex_val(b[i + 3])
}

/// The byte a single-character escape stands for, or `None` when the byte
/// after the backslash is not such an escape.
pub open spec fn short_escape(c: u8) -> Option<u8> {
    if c == 34 {
        Some(34u8)
    } else if c == 92 {
        Some(92u8)
    } else if c == 47 {
        Some(47u8)
    } else if c == 98 {
        Some(8u8)
    } else if c == 102 {
        Some(12u8)
    } else if c == 110 {
        Some(10u8)
    } else if c == 114 {
        Some(13u8)
    } else if c == 116 {
        Some(9u8)
    } else {
        None
    }
}

/// The rest of a string after its opening quote: the unescaped content bytes
/// and the position after the closing quote. The escapes are the standard
/// ones: `\"`, `\\`, `\/`, `\b`, `\f`, `\n`, `\r`, `\t`, and `\uXXXX`, a
/// high surrogate pairing with a following low surrogate; the decoded code
/// point joins the content as its UTF-8 bytes. Any other byte stands for
/// itself.
pub open spec fn parse_string_body(b: Seq<u8>, i: int) -> Option<(Seq<u8>, int)>
    decreases b.len() - i when 0 <= i <= b.len()
{
    if i == b.len() {
        None
    } else if b[i] == 34 {
        Some((Seq::empty(), i + 1))
    } else if b[i] == 92 {
        if i + 2 > b.len() {
            None
        } else if short_escape(b[i + 1]) is Some {
            match parse_string_body(b, i + 2) {
                None => None,
                Some((c, j)) => Some((seq![short_escape(b[i + 1]).unwrap()] + c, j)),
            }
        } else if b[i + 1] == 117 {
            if i + 6 > b.len() || !(is_hex(b[i + 2]) && is_hex(b[i + 3]) && is_hex(b[i + 4])
                && is_hex(b[i + 5])) {
                None
            } else {
                let cu = hex4(b, i + 2);
                if 0xD800 <= cu && cu <= 0xDBFF {
                    if i + 12 > b.len() || b[i + 6] != 92 || b[i + 7] != 117 || !(is_hex(b[i + 8])
                        && is_hex(b[i + 9]) && is_hex(b[i + 10]) && is_hex(b[i + 11])) {
                        None
                    } else {
                        let lo = hex4(b, i + 8);
                        if !(0xDC00 <= lo && lo <= 0xDFFF) {
                            None
                        } else {
                            let cp = 0x10000 + (cu - 0xD800) * 0x400 + (lo - 0xDC00);
                            match parse_string_body(b, i + 12) {
                                None => None,
                                Some((c, j)) => Some((
                                    vstd::utf8::encode_scalar(cp as u32) + c,
                                    j,
                                )),
                            }
                        }
                    }
                } else if 0xDC00 <= cu && cu <= 0xDFFF {
                    None
                } else {
                    match parse_string_body(b, i + 6) {
                        None => None,
                        Some((c, j)) => Some((vstd::utf8::encode_scalar(cu as u32) + c, j)),
                    }
                }
            }
        } else {
            None
        }
    } else {
        match parse_string_body(b, i + 1) {
            None => None,
            Some((c, j)) => Some((seq![b[i]] + c, j)),
        }
    }
}

pub proof fn lemma_parse_string_body_bounds(b: Seq<u8>, i: int)
    requires
        0 <= i <= b.len(),
    ensures
        parse_string_body(b, i) matches Some((c, j)) ==> i < j <= b.len(),
    decreases b.len() - i,
{
    if i < b.len() {
        if b[i] == 92 {
            if i + 2 <= b.len() {
                if short_escape(b[i + 1]) is Some {
                    lemma_parse_string_body_bounds(b, i + 2);
                } else if b[i + 1] == 117 && i + 6 <= b.len() {
                    lemma_parse_string_body_bounds(b, i + 6);
                    if i + 12 <= b.len() {
                        lemma_parse_string_body_bounds(b, i + 12);
                    }
                }
            }
        } else if b[i] != 34 {
            lemma_parse_string_body_bounds(b, i + 1);
        }
    }
}

fn short_escape_at(c: u8) -> (r: Option<u8>)
    ensures
        r == short_escape(c),
{
    if c == 34 {
        Some(34)
    } else if c == 92 {
        Some(92)
    } else if c == 47 {
        Some(47)
    } else if c == 98 {
        Some(8)
    } else if c == 102 {
        Some(12)
    } else if c == 110 {
        Some(10)
    } else if c == 114 {
        Some(13)
    } else if c == 116 {
        Some(9)
    } else {
        None
    }
}

fn hex_val_at(c: u8) -> (r: u32)
    ensures
        r == hex_val(c),
{
    if c >= 48 && c <= 57 {
        (c - 48) as u32
    } else if c >= 97 && c <= 102 {
        (c - 87) as u32
    } else if c >= 65 && c <= 70 {
        (c - 55) as u32
    } else {
        16
    }
}

/// Appends the UTF-8 encoding of one scalar value.
fn push_scalar(out: &mut Vec<u8>, cu: u32)
    requires
        vstd::utf8::is_scalar(cu),
    ensures
        final(out)@ == old(out)@ + vstd::utf8::encode_scalar(cu),
{
    if cu <= 0x7F {
        out.push((cu & 0x7F) as u8);
    } else if cu <= 0x7FF {
        out.push(0xC0u8 | ((cu >> 6u32) & 0x1F) as u8);
        out.push(0x80u8 | (cu & 0x3F) as u8);
    } else if cu <= 0xFFFF {
        out.push(0xE0u8 | ((cu >> 12u32) & 0x0F) as u8);
        out.push(0x80u8 | ((cu >> 6u32) & 0x3F) as u8);
        out.push(0x80u8 | (cu & 0x3F) as u8);
    } else {
        out.push(0xF0u8 | ((cu >> 18u32) & 0x7) as u8);
        out.push(0x80u8 | ((cu >> 12u32) & 0x3F) as u8);
        out.push(0x80u8 | ((cu >> 6u32) & 0x3F) as u8);
        out.push(0x80u8 | (cu & 0x3F) as u8);
    }
    proof {
        assert(out@ =~= old(out)@ + vstd::utf8::encode_scalar(cu));
    }
}

/// Reads a string body in place, returning the unescaped content and the
/// position after the closing quote.
pub fn parse_string_body_at(b: &[u8], i: usize) -> (r: Option<(Vec<u8>, usize)>)
    requires
        i <= b@.len(),
    ensures
        match r {
            Some((c, j)) => parse_string_body(b@, i as int) == Some((c@, j as int)) && j <= b@.len(),
            None => parse_string_body(b@, i as int) is None,
        },
{
    let mut acc: Vec<u8> = Vec::new();
    let mut k: usize = i;
    loop
        invariant
            i <= k <= b@.len(),
            (match parse_string_body(b@, k as int) {
                Some((c, j)) => parse_string_body(b@, i as int) == Some((acc@ + c, j)),
                None => parse_string_body(b@, i as int) is None,
            }),
        decreases b@.len() - k,
    {
        if k == b.len() {
            return None;
        }
        let c = b[k];
        if c == 34 {
            proof {
                lemma_parse_string_body_bounds(b@, k as int);
                assert(acc@ + Seq::<u8>::empty() =~= acc@);
            }
            return Some((acc, k + 1));
        } else if c == 92 {
            if k + 1 >= b.len() {
                return None;
            }
            match short_escape_at(b[k + 1]) {
                Some(mapped) => {
                    let ghost acc0 = acc@;
                    acc.push(mapped);
                    proof {
                        assert(forall|c2: Seq<u8>| acc@ + c2 =~= acc0 + (seq![mapped] + c2));
                    }
                    k = k + 2;
                },
                None => {
                    if b[k + 1] != 117 {
                        return None;
                    }
                    if b.len() - k < 6 {
                        return None;
                    }
                    let h0 = hex_val_at(b[k + 2]);
                    let h1 = hex_val_at(b[k + 3]);
                    let h2 = hex_val_at(b[k + 4]);
                    let h3 = hex_val_at(b[k + 5]);
                    if h0 >= 16 || h1 >= 16 || h2 >= 16 || h3 >= 16 {
                        return None;
                    }
                    let cu: u32 = h0 * 4096 + h1 * 256 + h2 * 16 + h3;
                    proof {
                        assert(cu == hex4(b@, k + 2));
                    }
                    if 0xD800 <= cu && cu <= 0xDBFF {
                        if b.len() - k < 12 || b[k + 6] != 92 || b[k + 7] != 117 {
                            return None;
                        }
                        let g0 = hex_val_at(b[k + 8]);
                        let g1 = hex_val_at(b[k + 9]);
                        let g2 = hex_val_at(b[k + 10]);
                        let g3 = hex_val_at(b[k + 11]);
                        if g0 >= 16 || g1 >= 16 || g2 >= 16 || g3 >= 16 {
                            return None;
                        }
                        let lo: u32 = g0 * 4096 + g1 * 256 + g2 * 16 + g3;
                        proof {
                            assert(lo == hex4(b@, k + 8));
                        }
                        if !(0xDC00 <= lo && lo <= 0xDFFF) {
                            return None;
                        }
                        let cp: u32 = 0x10000 + (cu - 0xD800) * 0x400 + (lo - 0xDC00);
                        let ghost acc0 = acc@;
                        push_scalar(&mut acc, cp);
                        proof {
                            assert(forall|c2: Seq<u8>| acc@ + c2 =~= acc0
                                + (vstd::utf8::encode_scalar(cp) + c2));
                        }
                        k = k + 12;
                    } else if 0xDC00 <= cu && cu <= 0xDFFF {
                        return None;
                    } else {
                        let ghost acc0 = acc@;
                        push_scalar(&mut acc, cu);
                        proof {
                            assert(forall|c2: Seq<u8>| acc@ + c2 =~= acc0
                                + (vstd::utf8::encode_scalar(cu) + c2));
                        }
                        k = k + 6;
                    }
                },
            }
        } else {
            let ghost acc0 = acc@;
            acc.push(c);
            proof {
                assert(forall|c2: Seq<u8>| acc@ + c2 =~= acc0 + (seq![b@[k as int]] + c2));
            }
            k = k + 1;
        }
    }
}

/// The lower-case hex digit for a value below sixteen.
pub open spec fn hex_digit(n: int) -> u8 {
    if n < 10 {
        (48 + n) as u8
    } else {
        (87 + n) as u8
    }
}

/// How one byte is written inside a string: quote and backslash escaped,
/// the named control escapes for their bytes, `\u00XX` for the remaining
/// control bytes, and every other byte verbatim.
pub open spec fn esc_byte(c: u8) -> Seq<u8> {
    if c == 34 || c == 92 {
        seq![92u8, c]
    } else if c == 8 {
        seq![92u8, 98u8]
    } else if c == 9 {
        seq![92u8, 116u8]
    } else if c == 10 {
        seq![92u8, 110u8]
    } else if c == 12 {
        seq![92u8, 102u8]
    } else if c == 13 {
        seq![92u8, 114u8]
    } else if c < 32 {
        seq![92u8, 117u8, 48u8, 48u8, hex_digit(c as int / 16), hex_digit(c as int % 16)]
    } else {
        seq![c]
    }
}

/// A string's content as written on the wire.
pub open spec fn esc(s: Seq<u8>) -> Seq<u8>
    decreases s.len(),
{
    if s.len() == 0 {
        Seq::empty()
    } else {
        esc_byte(s[0]) + esc(s.drop_first())
    }
}

pub proof fn lemma_esc_push(s: Seq<u8>, c: u8)
    ensures
        esc(s.push(c)) == esc(s) + esc_byte(c),
    decreases s.len(),
{
    let t = s.push(c);
    assert(t.len() == s.len() + 1);
    if s.len() == 0 {
        assert(t[0] == c);
        assert(t.drop_first() =~= Seq::<u8>::empty());
        assert(esc(t) == esc_byte(c) + esc(t.drop_first()));
        assert(esc(t.drop_first()) == Seq::<u8>::empty());
        assert(esc(t) =~= esc(s) + esc_byte(c));
    } else {
        assert(t.drop_first() =~= s.drop_first().push(c));
        lemma_esc_push(s.drop_first(), c);
        assert(t[0] == s[0]);
        assert(esc(t) == esc_byte(s[0]) + esc(t.drop_first()));
        assert(esc(t.drop_first()) == esc(s.drop_first()) + esc_byte(c));
        assert(esc(s) == esc_byte(s[0]) + esc(s.drop_first()));
        assert(esc(t) =~= esc(s) + esc_byte(c));
    }
}

/// Appends a string's content in wire form.
pub fn escape_append(out: &mut Vec<u8>, s: &[u8])
    ensures
        final(out)@ == old(out)@ + esc(s@),
{
    let ghost base = out@;
    let mut k: usize = 0;
    proof {
        assert(s@.subrange(0, 0) =~= Seq::<u8>::empty());
        assert(base + esc(s@.subrange(0, 0)) =~= base);
    }
    while k < s.len()
        invariant
            k <= s@.len(),
            out@ == base + esc(s@.subrange(0, k as int)),
        decreases s@.len() - k,
    {
        let c = s[k];
        if c == 34 || c == 92 {
            out.push(92);
            out.push(c);
        } else if c == 8 {
            out.push(92);
            out.push(98);
        } else if c == 9 {
            out.push(92);
            out.push(116);
        } else if c == 10 {
            out.push(92);
            out.push(110);
        } else if c == 12 {
            out.push(92);
            out.push(102);
        } else if c == 13 {
            out.push(92);
            out.push(114);
        } else if c < 32 {
            out.push(92);
            out.push(117);
            out.push(48);
            out.push(48);
            let hi = c / 16;
            let lo = c % 16;
            out.push(if hi < 10 { 48 + hi } else { 87 + hi });
            out.push(if lo < 10 { 48 + lo } else { 87 + lo });
        } else {
            out.push(c);
        }
        proof {
            lemma_esc_push(s@.subrange(0, k as int), c);
            assert(s@.subrange(0, k + 1 as int) =~= s@.subrange(0, k as int).push(c));
            assert(out@ =~= base + esc(s@.subrange(0, k + 1 as int)));
        }
        k = k + 1;
    }
    proof {
        assert(s@.subrange(0, s@.len() as int) =~= s@);
    }
}

/// A byte that can stand inside a number token.
pub open spec fn is_num_byte(c: u8) -> bool {
    is_digit(c) || c == 45 || c == 43 || c == 46 || c == 101 || c == 69
}

/// End of the maximal run of number bytes starting at `i`.
pub open spec fn num_run_end(b: Seq<u8>, i: int) -> int
    decreases b.len() - i when 0 <= i <= b.len()
{
    if i == b.len() {
        i
    } else if is_num_byte(b[i]) {
        num_run_end(b, i + 1)
    } else {
        i
    }
}

pub proof fn lemma_num_run_end_bounds(b: Seq<u8>, i: int)
    requires
        0 <= i <= b.len(),
    ensures
        i <= num_run_end(b, i) <= b.len(),
        num_run_end(b, i) < b.len() ==> !is_num_byte(b[num_run_end(b, i)]),
        forall|k: int| i <= k < num_run_end(b, i) ==> is_num_byte(b[k]),
    decreases b.len() - i,
{
    if i < b.len() && is_num_byte(b[i]) {
        lemma_num_run_end_bounds(b, i + 1);
    }
}

pub fn num_run_end_at(b: &[u8], i: usize) -> (r: usize)
    requires
        i <= b@.len(),
    ensures
        r == num_run_end(b@, i as int),
        i <= r <= b@.len(),
{
    let mut k: usize = i;
    while k < b.len() && (b[k] >= 48 && b[k] <= 57 || b[k] == 45 || b[k] == 43 || b[k] == 46
        || b[k] == 101 || b[k] == 69)
        invariant
            i <= k <= b@.len(),
            num_run_end(b@, i as int) == num_run_end(b@, k as int),
        decreases b@.len() - k,
    {
        k = k + 1;
    }
    k
}

/// End of one value starting at `i` (no leading whitespace): a string, an
/// object, an array, `true`, `false`, `null`, or a number token.
pub open spec fn scan_value(b: Seq<u8>, i: int) -> Option<int>
    decreases b.len() - i, 0int when 0 <= i <= b.len()
{
    if i == b.len() {
        None
    } else if b[i] == 34 {
        match parse_string_body(b, i + 1) {
            None => None,
            Some((c, j)) => Some(j),
        }
    } else if b[i] == 123 {
        scan_object_rest(b, i + 1, true)
    } else if b[i] == 91 {
        scan_array_rest(b, i + 1, true)
    } else if b[i] == 116 {
        if i + 4 <= b.len() && b[i + 1] == 114 && b[i + 2] == 117 && b[i + 3] == 101 {
            Some(i + 4)
        } else {
            None
        }
    } else if b[i] == 102 {
        if i + 5 <= b.len() && b[i + 1] == 97 && b[i + 2] == 108 && b[i + 3] == 115 && b[i + 4] == 101 {
            Some(i + 5)
        } else {
            None
        }
    } else if b[i] == 110 {
        if i + 4 <= b.len() && b[i + 1] == 117 && b[i + 2] == 108 && b[i + 3] == 108 {
            Some(i + 4)
        } else {
            None
        }
    } else if is_digit(b[i]) || b[i] == 45 {
        Some(num_run_end(b, i))
    } else {
        None
    }
}

/// The rest of an object after `{` (with `first` true) or after a member's
/// comma (with `first` false): returns the position after the closing `}`.
pub open spec fn scan_object_rest(b: Seq<u8>, i: int, first: bool) -> Option<int>
    decreases b.len() - i, 1int when 0 <= i <= b.len()
{
    let a = skip_json_ws(b, i);
    if a < i || a >= b.len() {
        None
    } else if b[a] == 125 && first {
        Some(a + 1)
    } else if b[a] == 34 {
        match parse_string_body(b, a + 1) {
            None => None,
            Some((k, j)) => {
                if j < a || j > b.len() {
                    None
                } else {
                    let c = skip_json_ws(b, j);
                    if c >= b.len() || b[c] != 58 {
                        None
                    } else {
                        let v = skip_json_ws(b, c + 1);
                        if v <= i || v > b.len() {
                            None
                        } else {
                            match scan_value(b, v) {
                                None => None,
                                Some(e) => {
                                    if e < v || e > b.len() {
                                        None
                                    } else {
                                        let t = skip_json_ws(b, e);
                                        if t < b.len() && b[t] == 125 {
                                            Some(t + 1)
                                        } else if t < b.len() && b[t] == 44 && t + 1 > i {
                                            scan_object_rest(b, t + 1, false)
                                        } else {
                                            None
                                        }
                                    }
                                },
                            }
                        }
                    }
                }
            },
        }
    } else {
        None
    }
}

/// The rest of an array after `[` (with `first` true) or after an element's
/// comma (with `first` false): returns the position after the closing `]`.
pub open spec fn scan_array_rest(b: Seq<u8>, i: int, first: bool) -> Option<int>
    decreases b.len() - i, 1int when 0 <= i <= b.len()
{
    let a = skip_json_ws(b, i);
    if a < i || a >= b.len() {
        None
    } else if b[a] == 93 && first {
        Some(a + 1)
    } else if a <= i - 1 {
        None
    } else {
        match scan_value(b, a) {
            None => None,
            Some(e) => {
                if e <= i || e > b.len() {
                    None
                } else {
                    let t = skip_json_ws(b, e);
                    if t < b.len() && b[t] == 93 {
                        Some(t + 1)
                    } else if t < b.len() && b[t] == 44 && t + 1 > i {
                        scan_array_rest(b, t + 1, false)
                    } else {
                        None
                    }
                }
            },
        }
    }
}

/// A byte span that is exactly one value of the grammar: what an opaque
/// payload holds.
pub open spec fn is_value_text(p: Seq<u8>) -> bool {
    scan_value(p, 0) == Some(p.len() as int)
}

pub proof fn lemma_scan_value_bounds(b: Seq<u8>, i: int)
    requires
        0 <= i <= b.len(),
    ensures
        scan_value(b, i) matches Some(j) ==> i < j <= b.len(),
    decreases b.len() - i, 0int,
{
    if i < b.len() {
        if b[i] == 34 {
            lemma_parse_string_body_bounds(b, i + 1);
        } else if b[i] == 123 {
            lemma_scan_object_rest_bounds(b, i + 1, true);
        } else if b[i] == 91 {
            lemma_scan_array_rest_bounds(b, i + 1, true);
        } else if is_digit(b[i]) || b[i] == 45 {
            lemma_num_run_end_bounds(b, i);
        }
    }
}

pub proof fn lemma_scan_object_rest_bounds(b: Seq<u8>, i: int, first: bool)
    requires
        0 <= i <= b.len(),
    ensures
        scan_object_rest(b, i, first) matches Some(j) ==> i < j <= b.len(),
    decreases b.len() - i, 1int,
{
    let a = skip_json_ws(b, i);
    lemma_skip_json_ws_bounds(b, i);
    if a < i || a >= b.len() {
    } else if b[a] == 125 && first {
    } else if b[a] == 34 {
        lemma_parse_string_body_bounds(b, a + 1);
        match parse_string_body(b, a + 1) {
            None => {},
            Some((k, j)) => {
                if a <= j <= b.len() {
                    let c = skip_json_ws(b, j);
                    lemma_skip_json_ws_bounds(b, j);
                    if c < b.len() && b[c] == 58 {
                        let v = skip_json_ws(b, c + 1);
                        lemma_skip_json_ws_bounds(b, c + 1);
                        if i < v <= b.len() {
                            lemma_scan_value_bounds(b, v);
                            match scan_value(b, v) {
                                None => {},
                                Some(e) => {
                                    if v <= e <= b.len() {
                                        let t = skip_json_ws(b, e);
                                        lemma_skip_json_ws_bounds(b, e);
                                        if t < b.len() && b[t] == 44 && t + 1 > i {
                                            lemma_scan_object_rest_bounds(b, t + 1, false);
                                        }
                                    }
                                },
                            }
                        }
                    }
                }
            },
        }
    }
}

pub proof fn lemma_scan_array_rest_bounds(b: Seq<u8>, i: int, first: bool)
    requires
        0 <= i <= b.len(),
    ensures
        scan_array_rest(b, i, first) matches Some(j) ==> i < j <= b.len(),
    decreases b.len() - i, 1int,
{
    let a = skip_json_ws(b, i);
    lemma_skip_json_ws_bounds(b, i);
    if a < i || a >= b.len() {
    } else if b[a] == 93 && first {
    } else if a <= i - 1 {
    } else {
        lemma_scan_value_bounds(b, a);
        match scan_value(b, a) {
            None => {},
            Some(e) => {
                if i < e <= b.len() {
                    let t = skip_json_ws(b, e);
                    lemma_skip_json_ws_bounds(b, e);
                    if t < b.len() && b[t] == 44 && t + 1 > i {
                        lemma_scan_array_rest_bounds(b, t + 1, false);
                    }
                }
            },
        }
    }
}

/// Escaping adds nothing to bytes that need no escape.
pub proof fn lemma_esc_plain(s: Seq<u8>)
    requires
        forall|k: int| 0 <= k < s.len() ==> s[k] != 34 && s[k] != 92 && s[k] >= 32,
    ensures
        esc(s) == s,
    decreases s.len(),
{
    if s.len() > 0 {
        lemma_esc_plain(s.drop_first());
        assert(esc(s) =~= s);
    }
}

/// Parsing inverts escaping: the wire form of `s` followed by the closing
/// quote parses back to exactly `s`.
pub proof fn lemma_parse_string_of_esc(b: Seq<u8>, i: int, s: Seq<u8>)
    requires
        0 <= i,
        i + esc(s).len() + 1 <= b.len(),
        b.subrange(i, i + esc(s).len() + 1) == esc(s) + seq![34u8],
    ensures
        parse_string_body(b, i) == Some((s, i + esc(s).len() + 1)),
    decreases s.len(),
{
    let w = esc(s);
    assert forall|t: int| 0 <= t < w.len() + 1 implies b[i + t] == (w + seq![34u8])[t] by {
        assert(b.subrange(i, i + w.len() + 1 as int)[t] == (w + seq![34u8])[t]);
        assert(b.subrange(i, i + w.len() + 1 as int)[t] == b[i + t]);
    }
    assert(b[i + 0] == (w + seq![34u8])[0]);
    if w.len() >= 1 {
        assert(b[i + 1] == (w + seq![34u8])[1]);
    }
    if s.len() == 0 {
        assert(b[i] == 34);
        assert(parse_string_body(b, i) == Some((Seq::<u8>::empty(), i + 1)));
        assert(Seq::<u8>::empty() =~= s);
    } else {
        let c = s[0];
        let rest = s.drop_first();
        let wr = esc(rest);
        let eb = esc_byte(c);
        assert(w == eb + wr);
        let n = eb.len() as int;
        assert forall|t: int| 0 <= t < n implies b[i + t] == eb[t] by {
            assert((w + seq![34u8])[t] == eb[t]);
        }
        assert(b.subrange(i + n, i + n + wr.len() + 1) =~= wr + seq![34u8]) by {
            assert forall|t: int| 0 <= t < wr.len() + 1
                implies #[trigger] b.subrange(i + n, i + n + wr.len() + 1)[t]
                    == (wr + seq![34u8])[t] by {
                assert(b.subrange(i + n, i + n + wr.len() + 1)[t] == b[i + n + t]);
                assert(b[i + (n + t)] == (w + seq![34u8])[n + t]);
                if n + t < w.len() {
                    assert((w + seq![34u8])[n + t] == wr[t]);
                } else {
                    assert((w + seq![34u8])[n + t] == 34);
                }
            }
        }
        lemma_parse_string_of_esc(b, i + n, rest);
        if c == 34 || c == 92 {
            assert(b[i] == 92 && b[i + 1] == c);
            assert(short_escape(c) == Some(c));
            assert(seq![c] + rest =~= s);
        } else if c == 8 || c == 9 || c == 10 || c == 12 || c == 13 {
            assert(b[i] == 92);
            assert(short_escape(b[i + 1]) == Some(c));
            assert(seq![c] + rest =~= s);
        } else if c < 32 {
            assert(b[i] == 92 && b[i + 1] == 117);
            assert(short_escape(117u8) is None);
            assert(b[i + 2] == 48 && b[i + 3] == 48);
            assert(b[i + 4] == hex_digit(c as int / 16) && b[i + 5] == hex_digit(c as int % 16));
            assert(hex_val(48) == 0);
            assert(hex_val(hex_digit(c as int / 16)) == c as int / 16 && is_hex(hex_digit(c as int / 16)));
            assert(hex_val(hex_digit(c as int % 16)) == c as int % 16 && is_hex(hex_digit(c as int % 16)));
            let cu = hex4(b, i + 2);
            assert(cu == (c as int / 16) * 16 + (c as int % 16));
            assert(cu == c);
            assert(!(0xD800 <= cu && cu <= 0xDBFF) && !(0xDC00 <= cu && cu <= 0xDFFF));
            assert(vstd::utf8::encode_scalar(cu as u32) =~= seq![c]) by {
                assert(vstd::utf8::has_width_1_encoding(cu as u32));
                assert(((c as u32) & 0x7F) as u8 == c) by (bit_vector)
                    requires c < 32;
            }
            assert(vstd::utf8::encode_scalar(cu as u32) + rest =~= s);
        } else {
            assert(b[i] == c);
            assert(c != 34 && c != 92);
            assert(seq![c] + rest =~= s);
        }
    }
}

/// A parsed string reads only the bytes it consumed: the same bytes at any
/// other position in any buffer parse the same way.
pub proof fn lemma_parse_string_body_shift(b1: Seq<u8>, i: int, c: Seq<u8>, j: int, b2: Seq<u8>, d: int)
    requires
        0 <= i <= b1.len(),
        parse_string_body(b1, i) == Some((c, j)),
        0 <= i + d,
        j + d <= b2.len(),
        forall|k: int| i <= k < j ==> b2[k + d] == b1[k],
    ensures
        parse_string_body(b2, i + d) == Some((c, j + d)),
    decreases b1.len() - i,
{
    lemma_parse_string_body_bounds(b1, i);
    if b1[i] == 34 {
    } else if b1[i] == 92 {
        if short_escape(b1[i + 1]) is Some {
            lemma_parse_string_body_bounds(b1, i + 2);
            let (c2, j2) = parse_string_body(b1, i + 2).unwrap();
            assert(i + 2 < j);
            lemma_parse_string_body_shift(b1, i + 2, c2, j2, b2, d);
        } else {
            let cu = hex4(b1, i + 2);
            if 0xD800 <= cu && cu <= 0xDBFF {
                lemma_parse_string_body_bounds(b1, i + 12);
                let (c2, j2) = parse_string_body(b1, i + 12).unwrap();
                assert(i + 12 < j);
                lemma_parse_string_body_shift(b1, i + 12, c2, j2, b2, d);
                assert(b2[i + d + 2] == b1[i + 2] && b2[i + d + 3] == b1[i + 3]
                    && b2[i + d + 4] == b1[i + 4] && b2[i + d + 5] == b1[i + 5]);
                assert(b2[i + d + 8] == b1[i + 8] && b2[i + d + 9] == b1[i + 9]
                    && b2[i + d + 10] == b1[i + 10] && b2[i + d + 11] == b1[i + 11]);
                assert(hex4(b2, i + d + 2) == hex4(b1, i + 2));
                assert(hex4(b2, i + d + 8) == hex4(b1, i + 8));
            } else {
                lemma_parse_string_body_bounds(b1, i + 6);
                let (c2, j2) = parse_string_body(b1, i + 6).unwrap();
                assert(i + 6 < j);
                lemma_parse_string_body_shift(b1, i + 6, c2, j2, b2, d);
                assert(b2[i + d + 2] == b1[i + 2] && b2[i + d + 3] == b1[i + 3]
                    && b2[i + d + 4] == b1[i + 4] && b2[i + d + 5] == b1[i + 5]);
                assert(hex4(b2, i + d + 2) == hex4(b1, i + 2));
            }
        }
    } else {
        lemma_parse_string_body_bounds(b1, i + 1);
        let (c2, j2) = parse_string_body(b1, i + 1).unwrap();
        lemma_parse_string_body_shift(b1, i + 1, c2, j2, b2, d);
    }
}

/// Skipped whitespace reads only the bytes up to and including its stop.
pub proof fn lemma_skip_json_ws_shift(b1: Seq<u8>, i: int, b2: Seq<u8>, d: int)
    requires
        0 <= i <= b1.len(),
        skip_json_ws(b1, i) < b1.len(),
        0 <= i + d,
        skip_json_ws(b1, i) + d < b2.len(),
        forall|k: int| i <= k <= skip_json_ws(b1, i) ==> b2[k + d] == b1[k],
    ensures
        skip_json_ws(b2, i + d) == skip_json_ws(b1, i) + d,
    decreases b1.len() - i,
{
    lemma_skip_json_ws_bounds(b1, i);
    if i < b1.len() && is_json_ws(b1[i]) {
        lemma_skip_json_ws_shift(b1, i + 1, b2, d);
    }
}

/// A number run reads only its own bytes and the byte that ends it.
pub proof fn lemma_num_run_shift(b1: Seq<u8>, i: int, b2: Seq<u8>, d: int)
    requires
        0 <= i <= b1.len(),
        0 <= i + d,
        num_run_end(b1, i) + d <= b2.len(),
        forall|k: int| i <= k < num_run_end(b1, i) ==> b2[k + d] == b1[k],
        num_run_end(b1, i) == b1.len() || !is_num_byte(b1[num_run_end(b1, i)]),
        num_run_end(b1, i) + d == b2.len() || !is_num_byte(b2[num_run_end(b1, i) + d]),
    ensures
        num_run_end(b2, i + d) == num_run_end(b1, i) + d,
    decreases b1.len() - i,
{
    lemma_num_run_end_bounds(b1, i);
    if i < b1.len() && is_num_byte(b1[i]) {
        lemma_num_run_shift(b1, i + 1, b2, d);
    }
}

/// A scanned value reads only the bytes it consumed and, for a bare number,
/// the byte after them: the same bytes anywhere scan to the same end.
pub proof fn lemma_scan_value_shift(b1: Seq<u8>, i: int, m: int, b2: Seq<u8>, d: int)
    requires
        0 <= i <= b1.len(),
        scan_value(b1, i) == Some(m),
        0 <= i + d,
        m + d <= b2.len(),
        forall|k: int| i <= k < m ==> b2[k + d] == b1[k],
        m == b1.len() || !is_num_byte(b1[m]),
        m + d == b2.len() || !is_num_byte(b2[m + d]),
    ensures
        scan_value(b2, i + d) == Some(m + d),
    decreases b1.len() - i, 0int,
{
    lemma_scan_value_bounds(b1, i);
    if b1[i] == 34 {
        let (c, j) = parse_string_body(b1, i + 1).unwrap();
        lemma_parse_string_body_bounds(b1, i + 1);
        lemma_parse_string_body_shift(b1, i + 1, c, j, b2, d);
    } else if b1[i] == 123 {
        lemma_scan_object_rest_shift(b1, i + 1, m, b2, d, true);
    } else if b1[i] == 91 {
        lemma_scan_array_rest_shift(b1, i + 1, m, b2, d, true);
    } else if b1[i] == 116 || b1[i] == 102 || b1[i] == 110 {
    } else {
        lemma_num_run_shift(b1, i, b2, d);
    }
}

#[verifier::rlimit(100)]
#[verifier::spinoff_prover]
pub proof fn lemma_scan_object_rest_shift(b1: Seq<u8>, i: int, m: int, b2: Seq<u8>, d: int, first: bool)
    requires
        0 <= i <= b1.len(),
        scan_object_rest(b1, i, first) == Some(m),
        0 <= i + d,
        m + d <= b2.len(),
        forall|k: int| i <= k < m ==> b2[k + d] == b1[k],
    ensures
        scan_object_rest(b2, i + d, first) == Some(m + d),
    decreases b1.len() - i, 1int,
{
    lemma_scan_object_rest_bounds(b1, i, first);
    let a = skip_json_ws(b1, i);
    lemma_skip_json_ws_bounds(b1, i);
    assert(i <= a < b1.len());
    if b1[a] == 125 && first {
        assert(m == a + 1);
        lemma_skip_json_ws_shift(b1, i, b2, d);
    } else {
        assert(b1[a] == 34);
        let (key, j) = parse_string_body(b1, a + 1).unwrap();
        lemma_parse_string_body_bounds(b1, a + 1);
        let c = skip_json_ws(b1, j);
        lemma_skip_json_ws_bounds(b1, j);
        assert(c < b1.len() && b1[c] == 58);
        let v = skip_json_ws(b1, c + 1);
        lemma_skip_json_ws_bounds(b1, c + 1);
        let e = scan_value(b1, v).unwrap();
        lemma_scan_value_bounds(b1, v);
        let t = skip_json_ws(b1, e);
        lemma_skip_json_ws_bounds(b1, e);
        if b1[t] == 125 {
            assert(m == t + 1);
        } else {
            assert(b1[t] == 44);
            lemma_scan_object_rest_bounds(b1, t + 1, false);
            assert(m > t + 1);
        }
        assert(t < m);
        assert(a + 1 < j && j <= c && c < v && v < e && e <= t);
        lemma_skip_json_ws_shift(b1, i, b2, d);
        lemma_parse_string_body_shift(b1, a + 1, key, j, b2, d);
        lemma_skip_json_ws_shift(b1, j, b2, d);
        lemma_skip_json_ws_shift(b1, c + 1, b2, d);
        assert(e == b1.len() || !is_num_byte(b1[e])) by {
            if t > e {
                assert(is_json_ws(b1[e]));
            }
        }
        lemma_scan_value_shift(b1, v, e, b2, d);
        lemma_skip_json_ws_shift(b1, e, b2, d);
        if b1[t] == 125 {
        } else {
            lemma_scan_object_rest_shift(b1, t + 1, m, b2, d, false);
        }
    }
}

#[verifier::rlimit(100)]
#[verifier::spinoff_prover]
pub proof fn lemma_scan_array_rest_shift(b1: Seq<u8>, i: int, m: int, b2: Seq<u8>, d: int, first: bool)
    requires
        0 <= i <= b1.len(),
        scan_array_rest(b1, i, first) == Some(m),
        0 <= i + d,
        m + d <= b2.len(),
        forall|k: int| i <= k < m ==> b2[k + d] == b1[k],
    ensures
        scan_array_rest(b2, i + d, first) == Some(m + d),
    decreases b1.len() - i, 1int,
{
    lemma_scan_array_rest_bounds(b1, i, first);
    let a = skip_json_ws(b1, i);
    lemma_skip_json_ws_bounds(b1, i);
    assert(i <= a < b1.len());
    if b1[a] == 93 && first {
        assert(m == a + 1);
        lemma_skip_json_ws_shift(b1, i, b2, d);
    } else {
        let e = scan_value(b1, a).unwrap();
        lemma_scan_value_bounds(b1, a);
        let t = skip_json_ws(b1, e);
        lemma_skip_json_ws_bounds(b1, e);
        if b1[t] == 93 {
            assert(m == t + 1);
        } else {
            assert(b1[t] == 44);
            lemma_scan_array_rest_bounds(b1, t + 1, false);
            assert(m > t + 1);
        }
        assert(t < m);
        assert(a < e && e <= t);
        lemma_skip_json_ws_shift(b1, i, b2, d);
        assert(e == b1.len() || !is_num_byte(b1[e])) by {
            if t > e {
                assert(is_json_ws(b1[e]));
            }
        }
        lemma_scan_value_shift(b1, a, e, b2, d);
        lemma_skip_json_ws_shift(b1, e, b2, d);
        if b1[t] == 93 {
        } else {
            lemma_scan_array_rest_shift(b1, t + 1, m, b2, d, false);
        }
    }
}

/// A payload that is exactly one value text scans to its own end wherever it
/// is embedded, as long as a number cannot run on into the next byte.
pub proof fn lemma_value_text_embedded(p: Seq<u8>, b: Seq<u8>, v: int)
    requires
        is_value_text(p),
        0 <= v,
        v + p.len() <= b.len(),
        b.subrange(v, v + p.len()) == p,
        v + p.len() == b.len() || !is_num_byte(b[v + p.len()]),
    ensures
        scan_value(b, v) == Some(v + p.len()),
{
    assert(forall|k: int| 0 <= k < p.len() ==> b[k + v] == p[k]) by {
        assert(forall|k: int| 0 <= k < p.len() ==> #[trigger] b.subrange(v, v + p.len())[k] == b[k + v]);
    }
    lemma_scan_value_shift(p, 0, p.len() as int, b, v);
}

/// Scans one value starting at `i`, returning the position after it.
pub fn scan_value_at(b: &[u8], i: usize) -> (r: Option<usize>)
    requires
        i <= b@.len(),
    ensures
        match r {
            Some(j) => scan_value(b@, i as int) == Some(j as int) && i < j <= b@.len(),
            None => scan_value(b@, i as int) is None,
        },
    decreases b@.len() - i, 0int,
{
    proof {
        lemma_scan_value_bounds(b@, i as int);
    }
    if i == b.len() {
        return None;
    }
    let c = b[i];
    if c == 34 {
        match parse_string_body_at(b, i + 1) {
            None => None,
            Some((_, j)) => {
                proof {
                    lemma_parse_string_body_bounds(b@, i + 1 as int);
                }
                Some(j)
            },
        }
    } else if c == 123 {
        scan_object_rest_at(b, i + 1, true)
    } else if c == 91 {
        scan_array_rest_at(b, i + 1, true)
    } else if c == 116 {
        if b.len() - i >= 4 && b[i + 1] == 114 && b[i + 2] == 117 && b[i + 3] == 101 {
            Some(i + 4)
        } else {
            None
        }
    } else if c == 102 {
        if b.len() - i >= 5 && b[i + 1] == 97 && b[i + 2] == 108 && b[i + 3] == 115 && b[i + 4] == 101 {
            Some(i + 5)
        } else {
            None
        }
    } else if c == 110 {
        if b.len() - i >= 4 && b[i + 1] == 117 && b[i + 2] == 108 && b[i + 3] == 108 {
            Some(i + 4)
        } else {
            None
        }
    } else if c >= 48 && c <= 57 || c == 45 {
        Some(num_run_end_at(b, i))
    } else {
        None
    }
}

fn scan_object_rest_at(b: &[u8], i: usize, first: bool) -> (r: Option<usize>)
    requires
        i <= b@.len(),
    ensures
        match r {
            Some(j) => scan_object_rest(b@, i as int, first) == Some(j as int) && i < j <= b@.len(),
            None => scan_object_rest(b@, i as int, first) is None,
        },
    decreases b@.len() - i, 1int,
{
    proof {
        lemma_scan_object_rest_bounds(b@, i as int, first);
        lemma_skip_json_ws_bounds(b@, i as int);
    }
    let a = skip_json_ws_at(b, i);
    if a >= b.len() {
        return None;
    }
    if b[a] == 125 && first {
        return Some(a + 1);
    }
    if b[a] != 34 {
        return None;
    }
    match parse_string_body_at(b, a + 1) {
        None => None,
        Some((_, j)) => {
            proof {
                lemma_parse_string_body_bounds(b@, a + 1 as int);
                lemma_skip_json_ws_bounds(b@, j as int);
            }
            let c = skip_json_ws_at(b, j);
            if c >= b.len() || b[c] != 58 {
                return None;
            }
            proof {
                lemma_skip_json_ws_bounds(b@, c + 1 as int);
            }
            let v = skip_json_ws_at(b, c + 1);
            match scan_value_at(b, v) {
                None => None,
                Some(e) => {
                    proof {
                        lemma_skip_json_ws_bounds(b@, e as int);
                    }
                    let t = skip_json_ws_at(b, e);
                    if t < b.len() && b[t] == 125 {
                        Some(t + 1)
                    } else if t < b.len() && b[t] == 44 {
                        scan_object_rest_at(b, t + 1, false)
                    } else {
                        None
                    }
                },
            }
        },
    }
}

fn scan_array_rest_at(b: &[u8], i: usize, first: bool) -> (r: Option<usize>)
    requires
        i <= b@.len(),
    ensures
        match r {
            Some(j) => scan_array_rest(b@, i as int, first) == Some(j as int) && i < j <= b@.len(),
            None => scan_array_rest(b@, i as int, first) is None,
        },
    decreases b@.len() - i, 1int,
{
    proof {
        lemma_scan_array_rest_bounds(b@, i as int, first);
        lemma_skip_json_ws_bounds(b@, i as int);
    }
    let a = skip_json_ws_at(b, i);
    if a >= b.len() {
        return None;
    }
    if b[a] == 93 && first {
        return Some(a + 1);
    }
    match scan_value_at(b, a) {
        None => None,
        Some(e) => {
            proof {
                lemma_skip_json_ws_bounds(b@, e as int);
            }
            let t = skip_json_ws_at(b, e);
            if t < b.len() && b[t] == 93 {
                Some(t + 1)
            } else if t < b.len() && b[t] == 44 {
                scan_array_rest_at(b, t + 1, false)
            } else {
                None
            }
        },
    }
}

} // verus!
