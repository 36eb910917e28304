//! Query errors and the MLIR string literals that queries read and write.

use vstd::prelude::*;
use vstd::string::StringSliceAdditionalSpecFns;
use vstd::utf8::{decode_utf8, encode_scalar, encode_utf8, encode_utf8_decode_utf8, encode_utf8_valid_utf8, has_width_1_encoding, last_continuation_byte, leading_byte_width_1, leading_byte_width_2, leading_byte_width_3, leading_byte_width_4, second_last_continuation_byte, third_last_continuation_byte, valid_utf8};

verus! {

/// A query that could not be parsed: where, and why.
#[derive(Clone, Debug, PartialEq, Eq)]
pub struct QueryError {
    pub position: usize,
    pub message: &'static str,
}

/// Why evaluating a query failed.
#[derive(Clone, Debug, PartialEq, Eq)]
pub struct EvaluationError {
    message: String,
}

impl EvaluationError {
    pub closed spec fn spec_message(&self) -> Seq<char> {
        self.message@
    }

    pub fn new(message: String) -> (r: EvaluationError)
        ensures
            r.spec_message() == message@,
    {
        EvaluationError { message }
    }

    pub fn message(&self) -> (r: &str)
        ensures
            r@ == self.spec_message(),
    {
        self.message.as_str()
    }
}

/// The value of a hexadecimal digit.
pub open spec fn hex_value(b: u8) -> Option<u8> {
    if 0x30 <= b <= 0x39 {
        Some((b - 0x30) as u8)
    } else if 0x61 <= b <= 0x66 {
        Some((b - 0x61 + 10) as u8)
    } else if 0x41 <= b <= 0x46 {
        Some((b - 0x41 + 10) as u8)
    } else {
        None
    }
}

pub fn hex_digit(byte: u8) -> (r: Option<u8>)
    ensures
        r == hex_value(byte),
{
    if 0x30 <= byte && byte <= 0x39 {
        Some(byte - 0x30)
    } else if 0x61 <= byte && byte <= 0x66 {
        Some(byte - 0x61 + 10)
    } else if 0x41 <= byte && byte <= 0x46 {
        Some(byte - 0x41 + 10)
    } else {
        None
    }
}

/// The bytes that the body of a string literal stands for, from `i` on: `\\`
/// and `\"` stand for themselves, `\` and two hex digits for one byte.
pub open spec fn unescape_from(b: Seq<u8>, i: int) -> Option<Seq<u8>>
    decreases b.len() - i,
{
    if i < 0 || i >= b.len() {
        Some(seq![])
    } else if b[i] != 0x5c {
        match unescape_from(b, i + 1) {
            Some(rest) => Some(seq![b[i]] + rest),
            None => None,
        }
    } else if i + 1 >= b.len() {
        None
    } else if b[i + 1] == 0x5c || b[i + 1] == 0x22 {
        match unescape_from(b, i + 2) {
            Some(rest) => Some(seq![b[i + 1]] + rest),
            None => None,
        }
    } else if i + 2 >= b.len() {
        None
    } else {
        match (hex_value(b[i + 1]), hex_value(b[i + 2]), unescape_from(b, i + 3)) {
            (Some(high), Some(low), Some(rest)) => Some(seq![(high * 16 + low) as u8] + rest),
            _ => None,
        }
    }
}

/// The bytes that a quoted literal stands for.
pub open spec fn decoded_literal(b: Seq<u8>) -> Option<Seq<u8>> {
    if b.len() >= 2 && b[0] == 0x22 && b[b.len() - 1] == 0x22 {
        unescape_from(b.subrange(1, b.len() - 1), 0)
    } else {
        None
    }
}

/// A UTF-8 string from bytes; `None` when they are not valid UTF-8. Calls std's
/// `String::from_utf8`, whose contract here is taken on trust: it succeeds
/// exactly on bytes that are valid UTF-8, and the string it returns encodes to
/// those same bytes.
#[verifier::external_body]
fn string_from_utf8(bytes: Vec<u8>) -> (r: Option<String>)
    ensures
        r is Some <==> valid_utf8(bytes@),
        r matches Some(s) ==> encode_utf8(s@) == bytes@,
{
    String::from_utf8(bytes).ok()
}

proof fn lemma_width_2(b0: u8, b1: u8)
    by (bit_vector)
    requires
        0xc0 <= b0 <= 0xdf,
        0x80 <= b1 <= 0xbf,
    ensures
        (0x80 <= ((((b0 & 0x1F) as u32) << 6) | ((b1 & 0x3f) as u32))) == (b0 >= 0xc2),
        ((((b0 & 0x1F) as u32) << 6) | ((b1 & 0x3f) as u32)) < 0xD800,
{
}

proof fn lemma_width_3(b0: u8, b1: u8, b2: u8)
    by (bit_vector)
    requires
        0xe0 <= b0 <= 0xef,
        0x80 <= b1 <= 0xbf,
        0x80 <= b2 <= 0xbf,
    ensures
        (0x800 <= ((((b0 & 0x0F) as u32) << 12) | (((b1 & 0x3f) as u32) << 6) | ((b2 & 0x3f) as u32)))
            == (b0 != 0xe0 || b1 >= 0xa0),
        (0xD800 <= ((((b0 & 0x0F) as u32) << 12) | (((b1 & 0x3f) as u32) << 6) | ((b2 & 0x3f) as u32))
            <= 0xDFFF) == (b0 == 0xed && b1 >= 0xa0),
{
}

proof fn lemma_width_4(b0: u8, b1: u8, b2: u8, b3: u8)
    by (bit_vector)
    requires
        0xf0 <= b0 <= 0xf7,
        0x80 <= b1 <= 0xbf,
        0x80 <= b2 <= 0xbf,
        0x80 <= b3 <= 0xbf,
    ensures
        (0x10000 <= ((((b0 & 0x07) as u32) << 18) | (((b1 & 0x3f) as u32) << 12) | (((b2 & 0x3f) as u32)
            << 6) | ((b3 & 0x3f) as u32)) <= 0x10ffff) == ((b0 == 0xf0 && b1 >= 0x90) || (0xf1 <= b0
            <= 0xf3) || (b0 == 0xf4 && b1 <= 0x8f)),
        0x10000 <= ((((b0 & 0x07) as u32) << 18) | (((b1 & 0x3f) as u32) << 12) | (((b2 & 0x3f) as u32)
            << 6) | ((b3 & 0x3f) as u32)) ==> !(0xD800 <= ((((b0 & 0x07) as u32) << 18) | (((b1
            & 0x3f) as u32) << 12) | (((b2 & 0x3f) as u32) << 6) | ((b3 & 0x3f) as u32)) <= 0xDFFF),
{
}

fn continuation(b: u8) -> (r: bool)
    ensures
        r == (0x80 <= b <= 0xbf),
{
    0x80 <= b && b <= 0xbf
}

/// The width of the well-formed UTF-8 scalar that `bytes` start with at `i`, or
/// 0 where they start with none.
fn scalar_width(bytes: &[u8], i: usize) -> (w: usize)
    requires
        i < bytes@.len(),
    ensures
        w == 0 <==> !vstd::utf8::valid_first_scalar(bytes@.subrange(i as int, bytes@.len() as int)),
        w > 0 ==> w == vstd::utf8::length_of_first_scalar(
            bytes@.subrange(i as int, bytes@.len() as int),
        ),
{
    let ghost s = bytes@.subrange(i as int, bytes@.len() as int);
    let n = bytes.len() - i;
    let b0 = bytes[i];
    assert(s[0] == b0);
    if b0 <= 0x7f {
        return 1;
    }
    if b0 < 0xc0 || b0 > 0xf7 {
        return 0;
    }
    if b0 <= 0xdf {
        if n < 2 || !continuation(bytes[i + 1]) {
            return 0;
        }
        let b1 = bytes[i + 1];
        assert(s[1] == b1);
        proof {
            lemma_width_2(b0, b1);
        }
        return if b0 >= 0xc2 {
            2
        } else {
            0
        };
    }
    if b0 <= 0xef {
        if n < 3 || !continuation(bytes[i + 1]) || !continuation(bytes[i + 2]) {
            return 0;
        }
        let b1 = bytes[i + 1];
        let b2 = bytes[i + 2];
        assert(s[1] == b1 && s[2] == b2);
        proof {
            lemma_width_3(b0, b1, b2);
        }
        return if (b0 != 0xe0 || b1 >= 0xa0) && !(b0 == 0xed && b1 >= 0xa0) {
            3
        } else {
            0
        };
    }
    if n < 4 || !continuation(bytes[i + 1]) || !continuation(bytes[i + 2]) || !continuation(
        bytes[i + 3],
    ) {
        return 0;
    }
    let b1 = bytes[i + 1];
    let b2 = bytes[i + 2];
    let b3 = bytes[i + 3];
    assert(s[1] == b1 && s[2] == b2 && s[3] == b3);
    proof {
        lemma_width_4(b0, b1, b2, b3);
    }
    if (b0 == 0xf0 && b1 >= 0x90) || (0xf1 <= b0 && b0 <= 0xf3) || (b0 == 0xf4 && b1 <= 0x8f) {
        4
    } else {
        0
    }
}

/// Whether `bytes` are valid UTF-8.
pub(crate) fn valid_utf8_bytes(bytes: &[u8]) -> (r: bool)
    ensures
        r == valid_utf8(bytes@),
{
    let n = bytes.len();
    let mut i: usize = 0;
    assert(bytes@.subrange(0, n as int) =~= bytes@);
    while i < n
        invariant
            n == bytes@.len(),
            i <= n,
            valid_utf8(bytes@) == valid_utf8(bytes@.subrange(i as int, n as int)),
        decreases n - i,
    {
        let ghost s = bytes@.subrange(i as int, n as int);
        let w = scalar_width(bytes, i);
        if w == 0 {
            return false;
        }
        assert(vstd::utf8::pop_first_scalar(s) =~= bytes@.subrange(i + w, n as int));
        i = i + w;
    }
    assert(bytes@.subrange(i as int, n as int).len() == 0);
    true
}

/// The text of `bytes` when they are valid UTF-8, and the empty text otherwise.
pub(crate) fn utf8_or_empty(bytes: &[u8]) -> (r: String)
    ensures
        valid_utf8(bytes@) ==> encode_utf8(r@) == bytes@,
        !valid_utf8(bytes@) ==> r@.len() == 0,
{
    let mut copy: Vec<u8> = Vec::new();
    let mut i: usize = 0;
    while i < bytes.len()
        invariant
            i <= bytes@.len(),
            copy@ == bytes@.subrange(0, i as int),
        decreases bytes@.len() - i,
    {
        copy.push(bytes[i]);
        i = i + 1;
        assert(copy@ =~= bytes@.subrange(0, i as int));
    }
    assert(bytes@.subrange(0, i as int) =~= bytes@);
    match string_from_utf8(copy) {
        Some(text) => text,
        None => String::new(),
    }
}

fn unescape(b: &[u8]) -> (r: Option<Vec<u8>>)
    ensures
        match r {
            Some(v) => unescape_from(b@, 0) == Some(v@),
            None => unescape_from(b@, 0) is None,
        },
{
    let n = b.len();
    let mut out: Vec<u8> = Vec::new();
    let mut cursor: usize = 0;
    while cursor < n
        invariant
            n == b@.len(),
            cursor <= n,
            unescape_from(b@, 0) == match unescape_from(b@, cursor as int) {
                Some(rest) => Some(out@ + rest),
                None => None,
            },
        decreases n - cursor,
    {
        let ghost before = out@;
        if b[cursor] != 0x5c {
            out.push(b[cursor]);
            proof {
                match unescape_from(b@, cursor + 1) {
                    Some(rest) => {
                        assert(before + (seq![b@[cursor as int]] + rest) =~= out@ + rest);
                    },
                    None => {},
                }
            }
            cursor = cursor + 1;
        } else {
            if n - cursor < 2 {
                return None;
            }
            let escaped = b[cursor + 1];
            if escaped == 0x5c || escaped == 0x22 {
                out.push(escaped);
                proof {
                    match unescape_from(b@, cursor + 2) {
                        Some(rest) => {
                            assert(before + (seq![escaped] + rest) =~= out@ + rest);
                        },
                        None => {},
                    }
                }
                cursor = cursor + 2;
            } else {
                if n - cursor < 3 {
                    return None;
                }
                let high = match hex_digit(escaped) {
                    None => {
                        return None;
                    },
                    Some(h) => h,
                };
                let low = match hex_digit(b[cursor + 2]) {
                    None => {
                        return None;
                    },
                    Some(l) => l,
                };
                let byte = high * 16 + low;
                out.push(byte);
                proof {
                    match unescape_from(b@, cursor + 3) {
                        Some(rest) => {
                            assert(before + (seq![byte] + rest) =~= out@ + rest);
                        },
                        None => {},
                    }
                }
                cursor = cursor + 3;
            }
        }
    }
    assert(out@ + Seq::<u8>::empty() =~= out@);
    Some(out)
}

/// The text of a quoted MLIR string literal, when its escapes are valid and it
/// stands for UTF-8 text.
pub fn decode_mlir_string(spelling: &str) -> (r: Option<String>)
    ensures
        match decoded_literal(spelling.spec_bytes()) {
            Some(bytes) => if valid_utf8(bytes) {
                r matches Some(s) && encode_utf8(s@) == bytes
            } else {
                r is None
            },
            None => r is None,
        },
{
    let b = spelling.as_bytes();
    let n = b.len();
    if n < 2 || b[0] != 0x22 || b[n - 1] != 0x22 {
        return None;
    }
    let inner = vstd::slice::slice_subrange(b, 1, n - 1);
    match unescape(inner) {
        None => None,
        Some(bytes) => string_from_utf8(bytes),
    }
}

/// `b` with `\` and `"` escaped by a `\`.
pub open spec fn escape_bytes(b: Seq<u8>) -> Seq<u8>
    decreases b.len(),
{
    if b.len() == 0 {
        seq![]
    } else if b.last() == 0x5c || b.last() == 0x22 {
        escape_bytes(b.drop_last()) + seq![0x5cu8, b.last()]
    } else {
        escape_bytes(b.drop_last()) + seq![b.last()]
    }
}

/// The quoted, escaped spelling of `b`.
pub open spec fn quoted_bytes(b: Seq<u8>) -> Seq<u8> {
    seq![0x22u8] + escape_bytes(b) + seq![0x22u8]
}

fn quote_bytes(b: &[u8]) -> (r: Vec<u8>)
    ensures
        r@ == quoted_bytes(b@),
{
    let mut out: Vec<u8> = Vec::new();
    out.push(0x22);
    let mut k: usize = 0;
    while k < b.len()
        invariant
            k <= b@.len(),
            out@ == seq![0x22u8] + escape_bytes(b@.subrange(0, k as int)),
        decreases b@.len() - k,
    {
        let ghost before = out@;
        assert(b@.subrange(0, k + 1).drop_last() =~= b@.subrange(0, k as int));
        if b[k] == 0x5c || b[k] == 0x22 {
            out.push(0x5c);
        }
        out.push(b[k]);
        assert(out@ =~= seq![0x22u8] + escape_bytes(b@.subrange(0, k + 1)));
        k = k + 1;
    }
    out.push(0x22);
    assert(b@.subrange(0, k as int) =~= b@);
    assert(out@ =~= quoted_bytes(b@));
    out
}

/// `c` as it stands in an MLIR string literal: `\\` and `"` take a `\\` before them.
pub open spec fn escape_char(c: char) -> Seq<char> {
    if c == '\\' || c == '"' {
        seq!['\\', c]
    } else {
        seq![c]
    }
}

/// `v` with each character escaped.
pub open spec fn escape_chars(v: Seq<char>) -> Seq<char>
    decreases v.len(),
{
    if v.len() == 0 {
        seq![]
    } else {
        escape_char(v[0]) + escape_chars(v.drop_first())
    }
}

/// The MLIR string literal that spells `v`.
pub open spec fn quoted_chars(v: Seq<char>) -> Seq<char> {
    seq!['"'] + escape_chars(v) + seq!['"']
}

/// Encoding two texts one after the other encodes each in turn.
proof fn lemma_encode_concat(a: Seq<char>, b: Seq<char>)
    ensures
        encode_utf8(a + b) == encode_utf8(a) + encode_utf8(b),
    decreases a.len(),
{
    if a.len() == 0 {
        assert(a + b =~= b);
    } else {
        assert((a + b).drop_first() =~= a.drop_first() + b);
        lemma_encode_concat(a.drop_first(), b);
    }
}

/// Escaping two byte texts one after the other escapes each in turn.
proof fn lemma_escape_concat(a: Seq<u8>, b: Seq<u8>)
    ensures
        escape_bytes(a + b) == escape_bytes(a) + escape_bytes(b),
    decreases b.len(),
{
    if b.len() == 0 {
        assert(a + b =~= a);
    } else {
        assert((a + b).drop_last() =~= a + b.drop_last());
        lemma_escape_concat(a, b.drop_last());
    }
}

/// Bytes with no `\\` or `"` escape to themselves.
proof fn lemma_escape_plain(x: Seq<u8>)
    requires
        forall|i: int| 0 <= i < x.len() ==> #[trigger] x[i] != 0x5c && x[i] != 0x22,
    ensures
        escape_bytes(x) == x,
    decreases x.len(),
{
    if x.len() > 0 {
        lemma_escape_plain(x.drop_last());
        assert(x.drop_last().push(x.last()) =~= x);
    }
}

/// Escaping the encoding of one character encodes its escape.
proof fn lemma_escape_scalar(c: char)
    ensures
        escape_bytes(encode_scalar(c as u32)) == encode_utf8(escape_char(c)),
{
    let u = c as u32;
    vstd::utf8::char_is_scalar(c);
    reveal_with_fuel(encode_utf8, 3);
    reveal_with_fuel(escape_bytes, 2);
    if c == '\\' || c == '"' {
        assert(u == 0x5c || u == 0x22);
        assert(leading_byte_width_1(u) == u) by (bit_vector)
            requires
                u == 0x5c || u == 0x22,
        ;
        let b = leading_byte_width_1(u);
        assert(encode_scalar(u) =~= seq![b]);
        assert(seq![b].drop_last() =~= Seq::<u8>::empty());
        assert(escape_bytes(encode_scalar(u)) =~= seq![0x5cu8, b]);
        let bs = '\\' as u32;
        assert(bs == 0x5c);
        assert(leading_byte_width_1(bs) == 0x5c) by (bit_vector)
            requires
                bs == 0x5c,
        ;
        let ec = escape_char(c);
        assert(ec[0] == '\\' && ec[1] == c);
        assert(ec.drop_first() =~= seq![c]);
        assert(ec.drop_first().drop_first() =~= Seq::<char>::empty());
        assert(encode_utf8(seq![c]) =~= seq![b]);
        assert(encode_utf8(ec) =~= seq![0x5cu8] + seq![b]);
        assert(escape_bytes(encode_scalar(u)) =~= encode_utf8(escape_char(c)));
    } else {
        assert(u != 0x5c && u != 0x22);
        let e = encode_scalar(u);
        if has_width_1_encoding(u) {
            assert(leading_byte_width_1(u) == u) by (bit_vector)
                requires
                    u <= 0x7f,
            ;
        } else {
            assert(leading_byte_width_2(u) >= 0x80 && leading_byte_width_3(u) >= 0x80
                && leading_byte_width_4(u) >= 0x80 && last_continuation_byte(u) >= 0x80
                && second_last_continuation_byte(u) >= 0x80 && third_last_continuation_byte(u)
                >= 0x80) by (bit_vector);
        }
        lemma_escape_plain(e);
        assert(escape_char(c).drop_first() =~= Seq::<char>::empty());
        assert(encode_utf8(escape_char(c)) =~= e);
    }
}

/// Escaping the encoding of a text encodes its escape.
proof fn lemma_escape_encode(v: Seq<char>)
    ensures
        escape_bytes(encode_utf8(v)) == encode_utf8(escape_chars(v)),
    decreases v.len(),
{
    if v.len() > 0 {
        lemma_escape_encode(v.drop_first());
        lemma_escape_scalar(v[0]);
        lemma_escape_concat(encode_scalar(v[0] as u32), encode_utf8(v.drop_first()));
        lemma_encode_concat(escape_char(v[0]), escape_chars(v.drop_first()));
    }
}

/// The quoted bytes of an encoded text encode its quoted spelling.
pub proof fn lemma_quoted_encoding(v: Seq<char>)
    ensures
        quoted_bytes(encode_utf8(v)) == encode_utf8(quoted_chars(v)),
        valid_utf8(quoted_bytes(encode_utf8(v))),
{
    lemma_escape_encode(v);
    reveal_with_fuel(encode_utf8, 2);
    let q = seq!['"'];
    assert(encode_utf8(q) =~= seq![0x22u8]) by {
        assert(leading_byte_width_1(0x22u32) == 0x22) by (bit_vector);
        assert(q.drop_first() =~= Seq::<char>::empty());
    }
    lemma_encode_concat(q, escape_chars(v));
    lemma_encode_concat(q + escape_chars(v), q);
    encode_utf8_valid_utf8(quoted_chars(v));
}

/// Quotes a string as an MLIR string literal, escaping `\\` and `"`.
pub fn quote_mlir_string(value: &str) -> (r: String)
    ensures
        r@ == quoted_chars(value@),
{
    let quoted = quote_bytes(value.as_bytes());
    proof {
        lemma_quoted_encoding(value@);
    }
    match string_from_utf8(quoted) {
        Some(s) => {
            proof {
                encode_utf8_decode_utf8(s@);
                encode_utf8_decode_utf8(quoted_chars(value@));
            }
            s
        },
        None => String::new(),
    }
}

/// The literal that `quote_mlir_string` writes for a text reads back as that
/// text's bytes.
pub proof fn lemma_quote_round_trip(v: Seq<char>)
    ensures
        decoded_literal(encode_utf8(quoted_chars(v))) == Some(encode_utf8(v)),
        valid_utf8(encode_utf8(v)),
{
    lemma_quoted_encoding(v);
    lemma_decode_quoted(encode_utf8(v));
    encode_utf8_valid_utf8(v);
}

/// The hexadecimal digit that spells `d` (below 16): `0`-`9`, then `A`-`F`
/// where `upper`, else `a`-`f`.
pub open spec fn hex_digit_spelling(d: u8, upper: bool) -> u8 {
    if d < 10 {
        ('0' as u8 + d) as u8
    } else if upper {
        ('A' as u8 + d - 10) as u8
    } else {
        ('a' as u8 + d - 10) as u8
    }
}

/// The escape `\HL` of byte `x`: a backslash, then its high and low
/// hexadecimal digits.
pub open spec fn hex_escape(x: u8, upper: bool) -> Seq<u8> {
    seq!['\\' as u8, hex_digit_spelling(x / 16, upper), hex_digit_spelling(x % 16, upper)]
}

/// Every byte of `b` written as its hexadecimal escape, in upper-case digits.
pub open spec fn hex_escaped(b: Seq<u8>) -> Seq<u8>
    decreases b.len(),
{
    if b.len() == 0 {
        seq![]
    } else {
        hex_escape(b[0], true) + hex_escaped(b.drop_first())
    }
}

/// Unescaping a text after a prefix reads the text alone.
proof fn lemma_unescape_after(p: Seq<u8>, r: Seq<u8>, j: int)
    requires
        0 <= j,
    ensures
        unescape_from(p + r, p.len() + j) == unescape_from(r, j),
    decreases r.len() - j,
{
    let w = p + r;
    let n = p.len() as int;
    if j < r.len() {
        assert(w[n + j] == r[j]);
        if j + 1 <= r.len() {
            lemma_unescape_after(p, r, j + 1);
        }
        if j + 2 <= r.len() {
            lemma_unescape_after(p, r, j + 2);
        }
        if j + 1 < r.len() {
            assert(w[n + j + 1] == r[j + 1]);
        }
        if j + 2 < r.len() {
            assert(w[n + j + 2] == r[j + 2]);
        }
        if j + 3 <= r.len() {
            lemma_unescape_after(p, r, j + 3);
        }
    }
}

/// A backslash and two hexadecimal digits, of either case, stand for the one
/// byte whose value they spell, whatever that byte is (`\C3` for 0xC3 too),
/// before whatever follows.
pub proof fn lemma_hex_escape(x: u8, upper: bool, rest: Seq<u8>)
    ensures
        unescape_from(hex_escape(x, upper) + rest, 0) == match unescape_from(rest, 0) {
            Some(t) => Some(seq![x] + t),
            None => None,
        },
        unescape_from(hex_escape(x, upper), 0) == Some(seq![x]),
{
    let h = hex_escape(x, upper);
    let hi = x / 16;
    let lo = x % 16;
    assert(hi * 16 + lo == x);
    assert(hex_value(hex_digit_spelling(hi, upper)) == Some(hi));
    assert(hex_value(hex_digit_spelling(lo, upper)) == Some(lo));
    let w = h + rest;
    assert(w[0] == 0x5c && w[1] == h[1] && w[2] == h[2]);
    lemma_unescape_after(h, rest, 0);
    assert(unescape_from(h, 3) == Some(Seq::<u8>::empty()));
    assert(seq![x] + Seq::<u8>::empty() =~= seq![x]);
}

/// A backslash followed by a byte that is neither a hexadecimal digit, nor a
/// backslash, nor a quote, is no valid escape: a text holding one does not
/// unescape.
pub proof fn lemma_bad_escape_refused(c: u8, rest: Seq<u8>)
    requires
        !('0' as u8 <= c <= '9' as u8),
        !('a' as u8 <= c <= 'f' as u8),
        !('A' as u8 <= c <= 'F' as u8),
        c != '\\' as u8,
        c != '"' as u8,
    ensures
        unescape_from(seq!['\\' as u8, c] + rest, 0) is None,
{
    let w = seq!['\\' as u8, c] + rest;
    assert(w[0] == 0x5c && w[1] == c);
    assert(hex_value(c) is None);
}

/// Writing every byte of any text as its hexadecimal escape, and reading the
/// literal back, gives the text.
pub proof fn lemma_hex_escapes_round_trip(b: Seq<u8>)
    ensures
        unescape_from(hex_escaped(b), 0) == Some(b),
        decoded_literal(seq!['"' as u8] + hex_escaped(b) + seq!['"' as u8]) == Some(b),
    decreases b.len(),
{
    if b.len() > 0 {
        lemma_hex_escapes_round_trip(b.drop_first());
        lemma_hex_escape(b[0], true, hex_escaped(b.drop_first()));
        assert(seq![b[0]] + b.drop_first() =~= b);
    } else {
        assert(unescape_from(hex_escaped(b), 0) == Some(Seq::<u8>::empty()));
        assert(b =~= Seq::<u8>::empty());
    }
    let q = seq!['"' as u8] + hex_escaped(b) + seq!['"' as u8];
    assert(q.subrange(1, q.len() - 1) =~= hex_escaped(b));
}

/// Unescaping the escaped bytes gives them back.
proof fn lemma_unescape_escape(b: Seq<u8>)
    ensures
        unescape_from(escape_bytes(b), 0) == Some(b),
    decreases b.len(),
{
    if b.len() > 0 {
        lemma_unescape_escape(b.drop_last());
        lemma_unescape_append(escape_bytes(b.drop_last()), b.last());
        assert(b.drop_last().push(b.last()) =~= b);
    } else {
        assert(escape_bytes(b) =~= Seq::<u8>::empty());
    }
}

/// Appending the escape of one byte to an escaped text appends that byte to what it stands for.
proof fn lemma_unescape_append(e: Seq<u8>, c: u8)
    requires
        unescape_from(e, 0) is Some,
    ensures
        unescape_from(
            e + if c == 0x5c || c == 0x22 {
                seq![0x5cu8, c]
            } else {
                seq![c]
            },
            0,
        ) == Some(unescape_from(e, 0).unwrap().push(c)),
{
    let tail = if c == 0x5c || c == 0x22 {
        seq![0x5cu8, c]
    } else {
        seq![c]
    };
    if c == 0x5c || c == 0x22 {
        assert(tail == seq![0x5cu8, c]);
        assert(unescape_from(tail, 2) == Some(Seq::<u8>::empty()));
        assert(unescape_from(tail, 0) == Some(seq![c] + Seq::<u8>::empty()));
    } else {
        assert(unescape_from(tail, 1) == Some(Seq::<u8>::empty()));
        assert(unescape_from(tail, 0) == Some(seq![c] + Seq::<u8>::empty()));
    }
    assert(seq![c] + Seq::<u8>::empty() =~= seq![c]);
    lemma_unescape_shift(e, tail, 0);
    assert(unescape_from(e, 0).unwrap() + seq![c] =~= unescape_from(e, 0).unwrap().push(c));
}

/// Unescaping `e + tail` from a position of `e` where `e` unescapes to the end.
proof fn lemma_unescape_shift(e: Seq<u8>, tail: Seq<u8>, i: int)
    requires
        0 <= i <= e.len(),
        unescape_from(e, i) is Some,
        tail == seq![0x5cu8, 0x5cu8] || tail == seq![0x5cu8, 0x22u8] || (tail.len() == 1 && tail[0]
            != 0x5c),
    ensures
        unescape_from(e + tail, i) == Some(
            unescape_from(e, i).unwrap() + unescape_from(tail, 0).unwrap(),
        ),
        unescape_from(tail, 0) is Some,
    decreases e.len() - i,
{
    let whole = e + tail;
    if tail.len() == 1 {
        assert(unescape_from(tail, 1) == Some(Seq::<u8>::empty()));
    } else {
        assert(unescape_from(tail, 2) == Some(Seq::<u8>::empty()));
    }
    if i == e.len() {
        assert(unescape_from(e, i) == Some(Seq::<u8>::empty()));
        assert forall|k: int| 0 <= k < tail.len() implies whole[e.len() + k] == tail[k] by {}
        if tail.len() == 1 {
            assert(unescape_from(whole, i + 1) == Some(Seq::<u8>::empty()));
            assert(seq![tail[0]] + Seq::<u8>::empty() =~= seq![tail[0]]);
        } else {
            assert(unescape_from(whole, i + 2) == Some(Seq::<u8>::empty()));
            assert(seq![tail[1]] + Seq::<u8>::empty() =~= seq![tail[1]]);
        }
        assert(Seq::<u8>::empty() + unescape_from(tail, 0).unwrap() =~= unescape_from(tail, 0).unwrap());
    } else {
        assert(whole[i] == e[i]);
        if e[i] != 0x5c {
            lemma_unescape_shift(e, tail, i + 1);
            assert(seq![e[i]] + (unescape_from(e, i + 1).unwrap() + unescape_from(tail, 0).unwrap())
                =~= (seq![e[i]] + unescape_from(e, i + 1).unwrap()) + unescape_from(tail, 0).unwrap());
        } else {
            assert(i + 1 < e.len());
            assert(whole[i + 1] == e[i + 1]);
            if e[i + 1] == 0x5c || e[i + 1] == 0x22 {
                lemma_unescape_shift(e, tail, i + 2);
                assert(seq![e[i + 1]] + (unescape_from(e, i + 2).unwrap() + unescape_from(tail, 0).unwrap())
                    =~= (seq![e[i + 1]] + unescape_from(e, i + 2).unwrap()) + unescape_from(tail, 0).unwrap());
            } else {
                assert(i + 2 < e.len());
                assert(whole[i + 2] == e[i + 2]);
                lemma_unescape_shift(e, tail, i + 3);
                let x = (hex_value(e[i + 1]).unwrap() * 16 + hex_value(e[i + 2]).unwrap()) as u8;
                assert(seq![x] + (unescape_from(e, i + 3).unwrap() + unescape_from(tail, 0).unwrap())
                    =~= (seq![x] + unescape_from(e, i + 3).unwrap()) + unescape_from(tail, 0).unwrap());
            }
        }
    }
}

/// Quoting then decoding gives back the bytes: the literal that `quote_mlir_string`
/// writes reads back as the text it was given.
pub proof fn lemma_decode_quoted(b: Seq<u8>)
    ensures
        decoded_literal(quoted_bytes(b)) == Some(b),
{
    let q = quoted_bytes(b);
    assert(q.subrange(1, q.len() - 1) =~= escape_bytes(b));
    lemma_unescape_escape(b);
}

} // verus!
