//! HTTP/1.1 requests: the head, the query string, and the accounting of the body.
//!
//! Supported subset: request line and headers, bodies with a Content-Length, and
//! keep-alive. A head whose framing two parsers could read differently is refused.

use vstd::prelude::*;

use crate::number;
use crate::number::{parse_digits, parse_unsigned};
use crate::proxy;
use crate::strmap;
use crate::strmap::StrMap;
use crate::text;
use crate::text::{
    chars_are, chars_of, copy_of, find_at, lower_chars, one_of, split_chars, split_once_chars, str_eq,
    string_of, strip_chars, trim_end_chars, upper_chars,
};

verus! {

/// The longest request head, in bytes.
pub const MAX_HEADER_BYTES: usize = 65536;

/// Cap on the number of header lines, so that a head cannot be all one-byte headers.
pub const MAX_HEADERS: usize = 100;

/// How long a head may take to arrive, in seconds, however slowly it trickles.
pub const HEAD_TIMEOUT_SECS: u64 = 10;

/// How long a read of a body may wait, in seconds.
pub const BODY_TIMEOUT_SECS: u64 = 60;

/// How long a write may wait before the peer is taken for gone, in seconds.
pub const WRITE_TIMEOUT_SECS: u64 = 120;

// ---------------------------------------------------------------------------
// The query string
// ---------------------------------------------------------------------------

/// The text that `String::from_utf8_lossy` makes of ill-formed UTF-8.
pub uninterp spec fn utf8_lossy(bytes: Seq<u8>) -> Seq<char>;

/// The text that bytes stand for: what they encode, or, where they are not well-formed
/// UTF-8, what is left of it after the ill-formed runs were replaced.
pub open spec fn text_of_bytes(bytes: Seq<u8>) -> Seq<char> {
    if vstd::utf8::valid_utf8(bytes) {
        vstd::utf8::decode_utf8(bytes)
    } else {
        utf8_lossy(bytes)
    }
}

/// `String::from_utf8_lossy`: well-formed bytes decode to exactly the characters that
/// they encode. What becomes of ill-formed bytes is a function of the bytes, and is
/// only named here.
#[verifier::external_body]
pub(crate) fn decode_lossy(bytes: &[u8]) -> (r: String)
    ensures
        vstd::utf8::valid_utf8(bytes@) ==> r@ == vstd::utf8::decode_utf8(bytes@),
        !vstd::utf8::valid_utf8(bytes@) ==> r@ == utf8_lossy(bytes@),
{
    String::from_utf8_lossy(bytes).into_owned()
}

/// The byte that two hexadecimal characters stand for.
pub open spec fn hex_byte(a: u8, b: u8) -> Option<nat> {
    number::read_unsigned(seq![a as char, b as char], 16, 255)
}

/// The bytes that a percent-encoded run stands for, from position `i` on. `%` opens an
/// escape only when two characters follow it and they are a hexadecimal byte.
pub open spec fn unescaped_from(b: Seq<u8>, i: int) -> Seq<u8>
    decreases b.len() - i,
{
    if i < 0 || i >= b.len() {
        seq![]
    } else if b[i] == 0x25 && i + 2 < b.len() && hex_byte(b[i + 1], b[i + 2]) is Some {
        seq![hex_byte(b[i + 1], b[i + 2])->0 as u8] + unescaped_from(b, i + 3)
    } else if b[i] == 0x2b {
        seq![0x20u8] + unescaped_from(b, i + 1)
    } else {
        seq![b[i]] + unescaped_from(b, i + 1)
    }
}

/// The text that a percent-encoded text stands for.
pub open spec fn url_decoded(s: Seq<char>) -> Seq<char> {
    text_of_bytes(unescaped_from(vstd::utf8::encode_utf8(s), 0))
}

/// The bytes that a percent-encoded run stands for.
pub fn unescape(bytes: &[u8]) -> (r: Vec<u8>)
    ensures
        r@ == unescaped_from(bytes@, 0),
{
    let n: usize = bytes.len();
    let mut r: Vec<u8> = Vec::new();
    let mut i: usize = 0;
    assert(r@ + unescaped_from(bytes@, 0) =~= unescaped_from(bytes@, 0));
    while i < n
        invariant
            i <= n,
            n == bytes@.len(),
            r@ + unescaped_from(bytes@, i as int) == unescaped_from(bytes@, 0),
        decreases n - i,
    {
        let ghost before = r@;
        let ghost at = i as int;
        let b: u8 = bytes[i];
        if b == 0x25 && n - i > 2 {
            let pair: [char; 2] = [bytes[i + 1] as char, bytes[i + 2] as char];
            assert(pair@ =~= seq![bytes@[i + 1] as char, bytes@[i + 2] as char]);
            match parse_unsigned(pair.as_slice(), 16, 255) {
                Some(v) => {
                    r.push(v as u8);
                    i += 3;
                },
                None => {
                    r.push(b);
                    i += 1;
                },
            }
        } else if b == 0x2b {
            r.push(0x20);
            i += 1;
        } else {
            r.push(b);
            i += 1;
        }
        assert(r@ + unescaped_from(bytes@, i as int) =~= before + unescaped_from(bytes@, at));
    }
    assert(unescaped_from(bytes@, i as int) =~= Seq::<u8>::empty());
    assert(r@ =~= unescaped_from(bytes@, 0));
    r
}

/// Decodes a percent-encoded text.
pub fn urldecode(s: &str) -> (r: String)
    ensures
        r@ == url_decoded(s@),
{
    let bytes = unescape(s.as_bytes());
    decode_lossy(bytes.as_slice())
}

/// The hexadecimal digit of a number below sixteen, in upper case.
pub open spec fn hex_digit(d: int) -> char {
    if d < 10 {
        (48 + d) as u8 as char
    } else {
        (55 + d) as u8 as char
    }
}

/// Bytes, each written as `%` and two hexadecimal digits.
pub open spec fn escaped(bytes: Seq<u8>) -> Seq<char>
    decreases bytes.len(),
{
    if bytes.len() == 0 {
        seq![]
    } else {
        seq!['%', hex_digit(bytes[0] as int / 16), hex_digit(bytes[0] as int % 16)] + escaped(
            bytes.skip(1),
        )
    }
}

/// A text with every byte of it escaped.
pub open spec fn pct(s: Seq<char>) -> Seq<char> {
    escaped(vstd::utf8::encode_utf8(s))
}

/// Whether three characters are `%` and two hexadecimal digits, of either case, for a byte.
pub open spec fn is_escape(e: Seq<char>, byte: u8) -> bool {
    &&& e.len() == 3
    &&& e[0] == '%'
    &&& number::digit_worth(e[1]) < 16
    &&& number::digit_worth(e[2]) < 16
    &&& number::digit_worth(e[1]) * 16 + number::digit_worth(e[2]) == byte
}

/// Whether a text writes every byte as an escape.
pub open spec fn is_escaped(e: Seq<char>, bytes: Seq<u8>) -> bool
    decreases bytes.len(),
{
    if bytes.len() == 0 {
        e.len() == 0
    } else {
        e.len() >= 3 && is_escape(e.take(3), bytes[0]) && is_escaped(e.skip(3), bytes.skip(1))
    }
}

/// A text whose bytes are all escaped, with digits of either case, decodes to itself,
/// whatever it holds. What stands behind it adds the bytes that it stands for alone; so
/// where those are well-formed, it decodes as it does alone.
pub proof fn law_escapes_are_undone(s: Seq<char>, e: Seq<char>, t: Seq<char>)
    requires
        is_escaped(e, vstd::utf8::encode_utf8(s)),
    ensures
        url_decoded(e) == s,
        unescaped_from(vstd::utf8::encode_utf8(e + t), 0) == vstd::utf8::encode_utf8(s)
            + unescaped_from(vstd::utf8::encode_utf8(t), 0),
        vstd::utf8::valid_utf8(unescaped_from(vstd::utf8::encode_utf8(t), 0)) ==> url_decoded(e + t)
            == s + url_decoded(t),
{
    let b = vstd::utf8::encode_utf8(s);
    let none = Seq::<char>::empty();
    lemma_unescape_escaped(b, e, none);
    assert(vstd::utf8::encode_utf8(none) =~= Seq::<u8>::empty());
    assert(unescaped_from(vstd::utf8::encode_utf8(none), 0) =~= Seq::<u8>::empty());
    assert(e + none =~= e);
    assert(b + Seq::<u8>::empty() =~= b);
    vstd::utf8::encode_utf8_valid_utf8(s);
    vstd::utf8::encode_utf8_decode_utf8(s);
    lemma_unescape_escaped(b, e, t);
    let u = unescaped_from(vstd::utf8::encode_utf8(t), 0);
    if vstd::utf8::valid_utf8(u) {
        let d = vstd::utf8::decode_utf8(u);
        vstd::utf8::decode_utf8_encode_utf8(u);
        lemma_encode_concat(s, d);
        vstd::utf8::encode_utf8_valid_utf8(s + d);
        vstd::utf8::encode_utf8_decode_utf8(s + d);
    }
}

/// Percent-encoding a text and decoding it gives the text back. What stands behind it adds
/// the bytes that it stands for alone; so where those are well-formed, it decodes as it does
/// alone.
pub proof fn law_percent_encoding_is_undone(s: Seq<char>, t: Seq<char>)
    ensures
        url_decoded(pct(s)) == s,
        unescaped_from(vstd::utf8::encode_utf8(pct(s) + t), 0) == vstd::utf8::encode_utf8(s)
            + unescaped_from(vstd::utf8::encode_utf8(t), 0),
        vstd::utf8::valid_utf8(unescaped_from(vstd::utf8::encode_utf8(t), 0)) ==> url_decoded(
            pct(s) + t,
        ) == s + url_decoded(t),
{
    lemma_escaped(vstd::utf8::encode_utf8(s));
    law_escapes_are_undone(s, pct(s), t);
}

proof fn lemma_escaped(bytes: Seq<u8>)
    ensures
        is_escaped(escaped(bytes), bytes),
    decreases bytes.len(),
{
    if bytes.len() > 0 {
        let b = bytes[0] as int;
        let first = seq!['%', hex_digit(b / 16), hex_digit(b % 16)];
        let e = escaped(bytes);
        lemma_escaped(bytes.skip(1));
        assert(e.take(3) =~= first);
        assert(e.skip(3) =~= escaped(bytes.skip(1)));
        lemma_hex_digit(b / 16);
        lemma_hex_digit(b % 16);
    }
}

proof fn lemma_hex_digit(d: int)
    requires
        0 <= d < 16,
    ensures
        number::digit_worth(hex_digit(d)) == d,
{
}

proof fn lemma_encode_concat(a: Seq<char>, b: Seq<char>)
    ensures
        vstd::utf8::encode_utf8(a + b) == vstd::utf8::encode_utf8(a) + vstd::utf8::encode_utf8(b),
    decreases a.len(),
{
    if a.len() == 0 {
        assert(a + b =~= b);
    } else {
        lemma_encode_concat(a.drop_first(), b);
        assert((a + b).drop_first() =~= a.drop_first() + b);
    }
    assert(vstd::utf8::encode_utf8(a + b) =~= vstd::utf8::encode_utf8(a) + vstd::utf8::encode_utf8(b));
}

proof fn lemma_unescape_shift(x: Seq<u8>, y: Seq<u8>, j: int)
    requires
        0 <= j <= y.len(),
    ensures
        unescaped_from(x + y, x.len() + j) == unescaped_from(y, j),
    decreases y.len() - j,
{
    let z = x + y;
    if j < y.len() {
        assert(z[x.len() + j] == y[j]);
        lemma_unescape_shift(x, y, j + 1);
        if j + 2 < y.len() {
            assert(z[x.len() + j + 1] == y[j + 1]);
            assert(z[x.len() + j + 2] == y[j + 2]);
            lemma_unescape_shift(x, y, j + 3);
        }
    }
}

proof fn lemma_unescape_escaped(bytes: Seq<u8>, e: Seq<char>, t: Seq<char>)
    requires
        is_escaped(e, bytes),
    ensures
        unescaped_from(vstd::utf8::encode_utf8(e + t), 0) == bytes + unescaped_from(
            vstd::utf8::encode_utf8(t),
            0,
        ),
    decreases bytes.len(),
{
    let tail = unescaped_from(vstd::utf8::encode_utf8(t), 0);
    if bytes.len() == 0 {
        assert(e + t =~= t);
        assert(bytes + tail =~= tail);
    } else {
        let first = e.take(3);
        let rest = e.skip(3) + t;
        lemma_unescape_escaped(bytes.skip(1), e.skip(3), t);
        assert(e + t =~= first + rest);
        lemma_encode_concat(first, rest);
        assert(vstd::utf8::is_ascii_chars(first)) by {
            assert forall|i: int| 0 <= i < first.len() implies '\0' <= #[trigger] first[i]
                && first[i] <= '\u{7f}' by {
                if i == 1 {
                    assert(number::digit_worth(first[1]) < 16);
                } else if i == 2 {
                    assert(number::digit_worth(first[2]) < 16);
                }
            }
        }
        vstd::utf8::is_ascii_chars_encode_utf8(first);
        let x = vstd::utf8::encode_utf8(first);
        let y = vstd::utf8::encode_utf8(rest);
        let z = x + y;
        assert(x.len() == 3);
        assert(z[0] == first[0] as u8 && z[1] == first[1] as u8 && z[2] == first[2] as u8);
        let pair = seq![first[1], first[2]];
        assert(seq![z[1] as char, z[2] as char] =~= pair);
        assert(pair.drop_last() =~= seq![first[1]]);
        assert(seq![first[1]].drop_last() =~= Seq::<char>::empty());
        assert(number::number_of(seq![first[1]].drop_last(), 16) == 0);
        assert(number::number_of(seq![first[1]], 16) == number::digit_worth(first[1]));
        assert(number::number_of(pair, 16) == bytes[0]);
        assert(first[1] != '+');
        assert(hex_byte(z[1], z[2]) == Some(bytes[0] as nat));
        lemma_unescape_shift(x, y, 0);
        assert(seq![bytes[0]] + (bytes.skip(1) + tail) =~= bytes + tail);
    }
}

/// The parameter that one `key=value` piece of a query stands for.
pub open spec fn param_of(piece: Seq<char>) -> (Seq<char>, Seq<char>) {
    match text::split_once(piece, seq!['=']) {
        Some((k, v)) => (url_decoded(k), url_decoded(v)),
        None => (url_decoded(piece), url_decoded(Seq::<char>::empty())),
    }
}

/// The parameters that the pieces of a query stand for. A later piece replaces an
/// earlier one of the same key, and an empty piece stands for nothing.
pub open spec fn params_of(pieces: Seq<Seq<char>>) -> Seq<(Seq<char>, Seq<char>)>
    decreases pieces.len(),
{
    if pieces.len() == 0 {
        seq![]
    } else {
        let before = params_of(pieces.drop_last());
        if pieces.last().len() == 0 {
            before
        } else {
            strmap::put(before, param_of(pieces.last()).0, param_of(pieces.last()).1)
        }
    }
}

/// The path and the query of a request target.
pub open spec fn target_parts(url: Seq<char>) -> (Seq<char>, Seq<char>) {
    match text::split_once(url, seq!['?']) {
        Some((path, query)) => (path, query),
        None => (url, seq![]),
    }
}

/// Splits a request target into its path, its decoded parameters and its raw query.
pub fn parse_url(url: &[char]) -> (r: (String, StrMap, String))
    ensures
        r.0@ == target_parts(url@).0,
        r.1@ == params_of(text::split(target_parts(url@).1, seq!['&'])),
        r.2@ == target_parts(url@).1,
{
    let (path, query): (Vec<char>, Vec<char>) = match split_once_chars(url, '?') {
        Some((path, query)) => (path, query),
        None => {
            let whole = copy_of(url, 0, url.len());
            assert(whole@ =~= url@);
            let none: Vec<char> = Vec::new();
            assert(none@ =~= Seq::<char>::empty());
            (whole, none)
        },
    };
    let amp: [char; 1] = ['&'];
    assert(amp@ =~= seq!['&']);
    let pieces = split_chars(query.as_slice(), amp.as_slice());
    let ghost ps = text::rows(pieces@);
    let mut params = StrMap::new();
    let mut i: usize = 0;
    assert(ps.take(0) =~= Seq::<Seq<char>>::empty());
    while i < pieces.len()
        invariant
            i <= pieces@.len(),
            ps == text::rows(pieces@),
            params@ == params_of(ps.take(i as int)),
        decreases pieces@.len() - i,
    {
        assert(ps.take(i + 1).drop_last() =~= ps.take(i as int));
        assert(ps.take(i + 1).last() == pieces@[i as int]@);
        let piece = pieces[i].as_slice();
        if piece.len() > 0 {
            let (k, v): (Vec<char>, Vec<char>) = match split_once_chars(piece, '=') {
                Some((k, v)) => (k, v),
                None => {
                    let whole = copy_of(piece, 0, piece.len());
                    assert(whole@ =~= piece@);
                    let none: Vec<char> = Vec::new();
                    assert(none@ =~= Seq::<char>::empty());
                    (whole, none)
                },
            };
            let key = urldecode(string_of(k.as_slice()).as_str());
            let value = urldecode(string_of(v.as_slice()).as_str());
            params.insert(key, value);
        }
        i += 1;
    }
    assert(ps.take(ps.len() as int) =~= ps);
    (string_of(path.as_slice()), params, string_of(query.as_slice()))
}

// ---------------------------------------------------------------------------
// The request head
// ---------------------------------------------------------------------------

/// A request, without its body.
pub struct Request {
    pub method: String,
    pub path: String,
    pub params: StrMap,
    /// The query string as it came, kept so that a proxy can forward it unchanged.
    pub raw_query: String,
    /// Header names are in lower case.
    pub headers: StrMap,
    pub content_length: u64,
    /// How much of the body has been read.
    pub body_consumed: u64,
    pub keep_alive: bool,
}

/// What a request denotes.
pub struct RequestView {
    pub method: Seq<char>,
    pub path: Seq<char>,
    pub params: Seq<(Seq<char>, Seq<char>)>,
    pub raw_query: Seq<char>,
    pub headers: Seq<(Seq<char>, Seq<char>)>,
    pub content_length: u64,
    pub body_consumed: u64,
    pub keep_alive: bool,
}

impl View for Request {
    type V = RequestView;

    open spec fn view(&self) -> RequestView {
        RequestView {
            method: self.method@,
            path: self.path@,
            params: self.params@,
            raw_query: self.raw_query@,
            headers: self.headers@,
            content_length: self.content_length,
            body_consumed: self.body_consumed,
            keep_alive: self.keep_alive,
        }
    }
}

/// Why a request head was refused.
#[derive(Clone, Copy, Debug, PartialEq, Eq, Structural)]
pub enum HeadError {
    NonAscii,
    RequestLine,
    Method,
    Version,
    TooManyHeaders,
    Folding,
    NoColon,
    HeaderName,
    HeaderNameCharacter,
    ConflictingHeader,
    BothFramings,
    MalformedLength,
    LengthOutOfRange,
}

impl HeadError {
    /// The message that goes with the refusal.
    pub open spec fn text(self) -> Seq<char> {
        match self {
            HeadError::NonAscii => "non-ASCII byte in request head"@,
            HeadError::RequestLine => "request line must be exactly 'METHOD TARGET VERSION'"@,
            HeadError::Method => "bad method"@,
            HeadError::Version => "unsupported HTTP version"@,
            HeadError::TooManyHeaders => "too many headers"@,
            HeadError::Folding => "obsolete line folding is not supported"@,
            HeadError::NoColon => "header line without a colon"@,
            HeadError::HeaderName => "bad header name"@,
            HeadError::HeaderNameCharacter => "illegal character in header name"@,
            HeadError::ConflictingHeader => "conflicting duplicate header"@,
            HeadError::BothFramings =>
                "Content-Length and Transfer-Encoding must not both be present"@,
            HeadError::MalformedLength => "malformed Content-Length"@,
            HeadError::LengthOutOfRange => "Content-Length out of range"@,
        }
    }

    /// The message that goes with the refusal.
    pub fn message(self) -> (r: &'static str)
        ensures
            r@ == self.text(),
    {
        match self {
            HeadError::NonAscii => "non-ASCII byte in request head",
            HeadError::RequestLine => "request line must be exactly 'METHOD TARGET VERSION'",
            HeadError::Method => "bad method",
            HeadError::Version => "unsupported HTTP version",
            HeadError::TooManyHeaders => "too many headers",
            HeadError::Folding => "obsolete line folding is not supported",
            HeadError::NoColon => "header line without a colon",
            HeadError::HeaderName => "bad header name",
            HeadError::HeaderNameCharacter => "illegal character in header name",
            HeadError::ConflictingHeader => "conflicting duplicate header",
            HeadError::BothFramings => "Content-Length and Transfer-Encoding must not both be present",
            HeadError::MalformedLength => "malformed Content-Length",
            HeadError::LengthOutOfRange => "Content-Length out of range",
        }
    }
}

/// An ASCII letter.
pub open spec fn is_letter(c: char) -> bool {
    ('a' <= c && c <= 'z') || ('A' <= c && c <= 'Z')
}

/// The characters besides letters and digits that a header name may hold.
pub open spec fn token_marks() -> Seq<char> {
    seq!['!', '#', '$', '%', '&', '\'', '*', '+', '-', '.', '^', '_', '`', '|', '~']
}

/// A character that a header name may hold.
pub open spec fn is_token_char(c: char) -> bool {
    is_letter(c) || ('0' <= c && c <= '9') || token_marks().contains(c)
}

/// The characters that are dropped around a header value.
pub open spec fn blanks() -> Seq<char> {
    seq!['\t', '\n', '\x0b', '\x0c', '\r', ' ']
}

/// A method: letters, at least one.
pub open spec fn is_method(s: Seq<char>) -> bool {
    s.len() > 0 && forall|i: int| 0 <= i < s.len() ==> is_letter(#[trigger] s[i])
}

/// A header name: characters that a name may hold.
pub open spec fn is_token(s: Seq<char>) -> bool {
    forall|i: int| 0 <= i < s.len() ==> is_token_char(#[trigger] s[i])
}

/// The name and the value that one header line holds. The name comes in lower case and
/// the value without the blanks around it.
pub open spec fn header_of(line: Seq<char>) -> Result<(Seq<char>, Seq<char>), HeadError> {
    if line[0] == ' ' || line[0] == '\t' {
        Err(HeadError::Folding)
    } else {
        match text::split_once(line, seq![':']) {
            None => Err(HeadError::NoColon),
            Some((name, value)) => if name.len() == 0 || name.last() == ' ' || name.last() == '\t' {
                Err(HeadError::HeaderName)
            } else if !is_token(name) {
                Err(HeadError::HeaderNameCharacter)
            } else {
                Ok((text::lower(name), text::strip(value, blanks())))
            },
        }
    }
}

/// How many lines are not empty.
pub open spec fn filled(lines: Seq<Seq<char>>) -> nat
    decreases lines.len(),
{
    if lines.len() == 0 {
        0
    } else if lines.last().len() == 0 {
        filled(lines.drop_last())
    } else {
        filled(lines.drop_last()) + 1
    }
}

/// The headers that the lines behind the request line hold, or why the first line that
/// cannot be taken is refused. A repeated header is taken once when its values agree.
pub open spec fn headers_of(lines: Seq<Seq<char>>) -> Result<
    Seq<(Seq<char>, Seq<char>)>,
    HeadError,
>
    decreases lines.len(),
{
    if lines.len() == 0 {
        Ok(seq![])
    } else {
        match headers_of(lines.drop_last()) {
            Err(e) => Err(e),
            Ok(h) => if lines.last().len() == 0 {
                Ok(h)
            } else if filled(lines) > MAX_HEADERS {
                Err(HeadError::TooManyHeaders)
            } else {
                match header_of(lines.last()) {
                    Err(e) => Err(e),
                    Ok((name, value)) => match strmap::lookup(h, name) {
                        Some(known) => if known == value {
                            Ok(h)
                        } else {
                            Err(HeadError::ConflictingHeader)
                        },
                        None => Ok(h.push((name, value))),
                    },
                }
            },
        }
    }
}

/// The length of the body that the headers announce.
pub open spec fn body_length(h: Seq<(Seq<char>, Seq<char>)>) -> Result<u64, HeadError> {
    match strmap::lookup(h, "content-length"@) {
        None => Ok(0),
        Some(raw) => if strmap::lookup(h, "transfer-encoding"@) is Some {
            Err(HeadError::BothFramings)
        } else if raw.len() == 0 || !number::all_digits(raw, 10) {
            Err(HeadError::MalformedLength)
        } else if number::number_of(raw, 10) > u64::MAX {
            Err(HeadError::LengthOutOfRange)
        } else {
            Ok(number::number_of(raw, 10) as u64)
        },
    }
}

/// Whether the connection stays open after the response.
pub open spec fn stays_open(h: Seq<(Seq<char>, Seq<char>)>, version: Seq<char>) -> bool {
    match strmap::lookup(h, "connection"@) {
        Some(c) => if text::within(text::lower(c), "close"@) {
            false
        } else {
            text::within(text::lower(c), "keep-alive"@) || version == "HTTP/1.1"@
        },
        None => version == "HTTP/1.1"@,
    }
}

/// The lines of a head, the empty ones that end it left out.
pub open spec fn head_lines(head: Seq<char>) -> Seq<Seq<char>> {
    text::split(text::trim_end(head, seq!['\r', '\n', '\r', '\n']), seq!['\r', '\n'])
}

/// The request that a head in ASCII stands for, or why it is refused.
pub open spec fn request_of_text(head: Seq<char>) -> Result<RequestView, HeadError> {
    let lines = head_lines(head);
    let parts = text::split(lines[0], seq![' ']);
    if parts.len() != 3 {
        Err(HeadError::RequestLine)
    } else if !is_method(parts[0]) {
        Err(HeadError::Method)
    } else if parts[2] != "HTTP/1.0"@ && parts[2] != "HTTP/1.1"@ {
        Err(HeadError::Version)
    } else {
        match headers_of(lines.skip(1)) {
            Err(e) => Err(e),
            Ok(h) => match body_length(h) {
                Err(e) => Err(e),
                Ok(n) => Ok(
                    RequestView {
                        method: text::upper(parts[0]),
                        path: target_parts(parts[1]).0,
                        params: params_of(text::split(target_parts(parts[1]).1, seq!['&'])),
                        raw_query: target_parts(parts[1]).1,
                        headers: h,
                        content_length: n,
                        body_consumed: 0,
                        keep_alive: stays_open(h, parts[2]),
                    },
                ),
            },
        }
    }
}

/// Bytes read as characters of the same number.
pub open spec fn latin(bytes: Seq<u8>) -> Seq<char> {
    Seq::new(bytes.len(), |i: int| bytes[i] as char)
}

/// Whether every byte is ASCII.
pub open spec fn ascii(bytes: Seq<u8>) -> bool {
    forall|i: int| 0 <= i < bytes.len() ==> #[trigger] bytes[i] < 0x80
}

/// The request that a head stands for, or why it is refused.
pub open spec fn request_of(head: Seq<u8>) -> Result<RequestView, HeadError> {
    if !ascii(head) {
        Err(HeadError::NonAscii)
    } else {
        request_of_text(latin(head))
    }
}

fn is_letter_char(c: char) -> (r: bool)
    ensures
        r == is_letter(c),
{
    ('a' <= c && c <= 'z') || ('A' <= c && c <= 'Z')
}

/// Whether a byte may stand in a header name (the token characters of RFC 9110).
pub fn is_token_byte(b: u8) -> (r: bool)
    ensures
        r == is_token_char(b as char),
{
    let c: char = b as char;
    let marks: [char; 15] = [
        '!', '#', '$', '%', '&', '\'', '*', '+', '-', '.', '^', '_', '`', '|', '~',
    ];
    assert(marks@ =~= token_marks());
    is_letter_char(c) || ('0' <= c && c <= '9') || one_of(c, marks.as_slice())
}

fn names_method(s: &[char]) -> (r: bool)
    ensures
        r == is_method(s@),
{
    let mut i: usize = 0;
    while i < s.len()
        invariant
            i <= s@.len(),
            forall|j: int| 0 <= j < i ==> is_letter(#[trigger] s@[j]),
        decreases s@.len() - i,
    {
        if !is_letter_char(s[i]) {
            return false;
        }
        i += 1;
    }
    s.len() > 0
}

fn names_header(s: &[char]) -> (r: bool)
    ensures
        r == is_token(s@),
{
    let mut i: usize = 0;
    while i < s.len()
        invariant
            i <= s@.len(),
            forall|j: int| 0 <= j < i ==> is_token_char(#[trigger] s@[j]),
        decreases s@.len() - i,
    {
        let c: char = s[i];
        let fits = '!' <= c && c <= '~' && is_token_byte(c as u8);
        if !fits {
            return false;
        }
        i += 1;
    }
    true
}

fn plain_decimal(s: &[char]) -> (r: bool)
    ensures
        r == number::all_digits(s@, 10),
{
    let mut i: usize = 0;
    while i < s.len()
        invariant
            i <= s@.len(),
            forall|j: int| 0 <= j < i ==> number::digit_worth(#[trigger] s@[j]) < 10,
        decreases s@.len() - i,
    {
        if s[i] < '0' || s[i] > '9' {
            assert(number::digit_worth(s@[i as int]) >= 10);
            return false;
        }
        i += 1;
    }
    true
}

/// Reads one header line.
fn parse_header(line: &[char]) -> (r: Result<(Vec<char>, Vec<char>), HeadError>)
    requires
        line@.len() > 0,
    ensures
        match r {
            Ok((n, v)) => header_of(line@) == Ok::<(Seq<char>, Seq<char>), HeadError>((n@, v@)),
            Err(e) => header_of(line@) == Err::<(Seq<char>, Seq<char>), HeadError>(e),
        },
{
    if line[0] == ' ' || line[0] == '\t' {
        return Err(HeadError::Folding);
    }
    match split_once_chars(line, ':') {
        None => Err(HeadError::NoColon),
        Some((name, value)) => {
            let n: usize = name.len();
            if n == 0 || name[n - 1] == ' ' || name[n - 1] == '\t' {
                return Err(HeadError::HeaderName);
            }
            if !names_header(name.as_slice()) {
                return Err(HeadError::HeaderNameCharacter);
            }
            let set: [char; 6] = ['\t', '\n', '\x0b', '\x0c', '\r', ' '];
            assert(set@ =~= blanks());
            Ok((lower_chars(name.as_slice()), strip_chars(value.as_slice(), set.as_slice())))
        },
    }
}

/// Reads the header lines, from line `from` on.
fn parse_headers(lines: &Vec<Vec<char>>, from: usize) -> (r: Result<StrMap, HeadError>)
    requires
        from <= lines@.len(),
    ensures
        match r {
            Ok(h) => headers_of(text::rows(lines@).skip(from as int)) == Ok::<
                Seq<(Seq<char>, Seq<char>)>,
                HeadError,
            >(h@),
            Err(e) => headers_of(text::rows(lines@).skip(from as int)) == Err::<
                Seq<(Seq<char>, Seq<char>)>,
                HeadError,
            >(e),
        },
{
    let ghost ls = text::rows(lines@).skip(from as int);
    let n: usize = lines.len();
    let mut headers = StrMap::new();
    let mut count: usize = 0;
    let mut i: usize = from;
    assert(ls.take(0) =~= Seq::<Seq<char>>::empty());
    while i < n
        invariant
            from <= i <= n,
            n == lines@.len(),
            ls == text::rows(lines@).skip(from as int),
            count == filled(ls.take(i - from)),
            count <= i - from,
            headers_of(ls.take(i - from)) == Ok::<Seq<(Seq<char>, Seq<char>)>, HeadError>(headers@),
        decreases n - i,
    {
        let line = lines[i].as_slice();
        proof {
            assert(ls.take(i - from + 1).drop_last() =~= ls.take(i - from));
            assert(ls.take(i - from + 1).last() == line@);
        }
        if line.len() > 0 {
            count += 1;
            if count > MAX_HEADERS {
                proof {
                    lemma_headers_stop(ls, i - from + 1);
                }
                return Err(HeadError::TooManyHeaders);
            }
            match parse_header(line) {
                Err(e) => {
                    proof {
                        lemma_headers_stop(ls, i - from + 1);
                    }
                    return Err(e);
                },
                Ok((name, value)) => {
                    let key = string_of(name.as_slice());
                    let known: Option<bool> = match headers.get(key.as_str()) {
                        Some(existing) => Some(
                            chars_are(value.as_slice(), existing.as_str()),
                        ),
                        None => None,
                    };
                    match known {
                        Some(agrees) => {
                            if !agrees {
                                proof {
                                    lemma_headers_stop(ls, i - from + 1);
                                }
                                return Err(HeadError::ConflictingHeader);
                            }
                        },
                        None => {
                            proof {
                                strmap::lemma_position(headers@, key@, 0);
                            }
                            headers.insert(key, string_of(value.as_slice()));
                        },
                    }
                },
            }
        }
        i += 1;
    }
    assert(ls.take(n - from) =~= ls);
    Ok(headers)
}

/// A line that is refused stops the reading of the lines behind it.
proof fn lemma_headers_stop(lines: Seq<Seq<char>>, k: int)
    requires
        0 <= k <= lines.len(),
        headers_of(lines.take(k)) is Err,
    ensures
        headers_of(lines) == headers_of(lines.take(k)),
    decreases lines.len() - k,
{
    if k == lines.len() {
        assert(lines.take(k) =~= lines);
    } else {
        assert(lines.take(k + 1).drop_last() =~= lines.take(k));
        lemma_headers_stop(lines, k + 1);
    }
}

/// Reads the length of the body from the headers.
fn parse_length(headers: &StrMap) -> (r: Result<u64, HeadError>)
    ensures
        r == body_length(headers@),
{
    match headers.get("content-length") {
        None => Ok(0),
        Some(raw) => {
            if headers.contains_key("transfer-encoding") {
                return Err(HeadError::BothFramings);
            }
            let digits = chars_of(raw.as_str());
            if digits.len() == 0 || !plain_decimal(digits.as_slice()) {
                return Err(HeadError::MalformedLength);
            }
            assert(digits@.skip(0) =~= raw@);
            match parse_digits(digits.as_slice(), 0, 10, u64::MAX) {
                Some(v) => Ok(v),
                None => Err(HeadError::LengthOutOfRange),
            }
        },
    }
}

/// Whether a text holds another.
fn holds(s: &[char], pat: &str) -> (r: bool)
    ensures
        r == text::within(s@, pat@),
{
    let wanted = chars_of(pat);
    match find_at(s, wanted.as_slice(), 0) {
        Some(_) => true,
        None => false,
    }
}

/// Reads from the headers whether the connection stays open.
fn parse_keep_alive(headers: &StrMap, version: &[char]) -> (r: bool)
    ensures
        r == stays_open(headers@, version@),
{
    let latest = chars_are(version, "HTTP/1.1");
    match headers.get("connection") {
        Some(raw) => {
            let given = chars_of(raw.as_str());
            let c = lower_chars(given.as_slice());
            if holds(c.as_slice(), "close") {
                false
            } else if holds(c.as_slice(), "keep-alive") {
                true
            } else {
                latest
            }
        },
        None => latest,
    }
}

/// Reads a request head that is complete, refusing anything ambiguous.
///
/// Two parsers that disagree about where a request ends are the basis of request
/// smuggling, so a head that could be read in two ways is refused rather than guessed.
pub fn parse_head(head: &[u8]) -> (r: Result<Request, HeadError>)
    ensures
        match r {
            Ok(request) => request_of(head@) == Ok::<RequestView, HeadError>(request@),
            Err(e) => request_of(head@) == Err::<RequestView, HeadError>(e),
        },
{
    let total: usize = head.len();
    let mut chars: Vec<char> = Vec::new();
    let mut i: usize = 0;
    while i < total
        invariant
            i <= total,
            total == head@.len(),
            chars@.len() == i,
            forall|j: int| 0 <= j < i ==> #[trigger] head@[j] < 0x80,
            forall|j: int| 0 <= j < i ==> chars@[j] == head@[j] as char,
        decreases total - i,
    {
        let b: u8 = head[i];
        if b >= 0x80 {
            return Err(HeadError::NonAscii);
        }
        chars.push(b as char);
        i += 1;
    }
    assert(chars@ =~= latin(head@));
    let double: [char; 4] = ['\r', '\n', '\r', '\n'];
    assert(double@ =~= seq!['\r', '\n', '\r', '\n']);
    let crlf: [char; 2] = ['\r', '\n'];
    assert(crlf@ =~= seq!['\r', '\n']);
    let space: [char; 1] = [' '];
    assert(space@ =~= seq![' ']);
    let trimmed = trim_end_chars(chars.as_slice(), double.as_slice());
    let lines = split_chars(trimmed.as_slice(), crlf.as_slice());
    let ghost ls = text::rows(lines@);
    assert(ls == head_lines(latin(head@)));
    let parts = split_chars(lines[0].as_slice(), space.as_slice());
    let ghost ps = text::rows(parts@);
    assert(ls[0] == lines@[0]@);
    assert(ps == text::split(ls[0], seq![' ']));
    if parts.len() != 3 {
        return Err(HeadError::RequestLine);
    }
    assert(ps[0] == parts@[0]@ && ps[1] == parts@[1]@ && ps[2] == parts@[2]@);
    let method = parts[0].as_slice();
    if !names_method(method) {
        return Err(HeadError::Method);
    }
    let version = parts[2].as_slice();
    if !chars_are(version, "HTTP/1.0") && !chars_are(version, "HTTP/1.1") {
        return Err(HeadError::Version);
    }
    let headers = match parse_headers(&lines, 1) {
        Ok(h) => h,
        Err(e) => return Err(e),
    };
    let content_length: u64 = match parse_length(&headers) {
        Ok(n) => n,
        Err(e) => return Err(e),
    };
    let keep_alive = parse_keep_alive(&headers, version);
    let (path, params, raw_query) = parse_url(parts[1].as_slice());
    let upper = upper_chars(method);
    Ok(
        Request {
            method: string_of(upper.as_slice()),
            path,
            params,
            raw_query,
            headers,
            content_length,
            body_consumed: 0,
            keep_alive,
        },
    )
}

impl Request {
    /// The value of a header, whatever the case of the name that asks for it.
    pub fn header(&self, name: &str) -> (r: Option<&str>)
        ensures
            match r {
                Some(v) => strmap::lookup(self@.headers, text::lower(name@)) == Some(v@),
                None => strmap::lookup(self@.headers, text::lower(name@)) is None,
            },
    {
        let given = chars_of(name);
        let key = string_of(lower_chars(given.as_slice()).as_slice());
        match self.headers.get(key.as_str()) {
            Some(v) => Some(v.as_str()),
            None => None,
        }
    }
}

/// What a parameter that says yes or no says: `true` and `1` yes, `false` and `0` no,
/// anything else, or nothing, what is the default.
pub open spec fn bool_param_of(
    params: Seq<(Seq<char>, Seq<char>)>,
    key: Seq<char>,
    default: bool,
) -> bool {
    match strmap::lookup(params, key) {
        Some(v) => if v == "true"@ || v == "1"@ {
            true
        } else if v == "false"@ || v == "0"@ {
            false
        } else {
            default
        },
        None => default,
    }
}

/// Reads a parameter that says yes or no.
pub fn bool_param(params: &StrMap, key: &str, default: bool) -> (r: bool)
    ensures
        r == bool_param_of(params@, key@, default),
{
    match params.get(key) {
        Some(v) => {
            if str_eq(v.as_str(), "true") || str_eq(v.as_str(), "1") {
                true
            } else if str_eq(v.as_str(), "false") || str_eq(v.as_str(), "0") {
                false
            } else {
                default
            }
        },
        None => default,
    }
}

/// The unsigned decimal number that a parameter holds, when it holds one up to `max`.
pub open spec fn number_param_of(
    params: Seq<(Seq<char>, Seq<char>)>,
    key: Seq<char>,
    base: nat,
    max: nat,
) -> Option<nat> {
    match strmap::lookup(params, key) {
        Some(v) => number::read_unsigned(v, base, max),
        None => None,
    }
}

/// Reads a parameter that holds a number.
pub fn number_param(params: &StrMap, key: &str, base: u64, max: u64) -> (r: Option<u64>)
    requires
        2 <= base <= 36,
    ensures
        match r {
            Some(n) => number_param_of(params@, key@, base as nat, max as nat) == Some(n as nat),
            None => number_param_of(params@, key@, base as nat, max as nat) is None,
        },
{
    match params.get(key) {
        Some(v) => {
            let chars = chars_of(v.as_str());
            parse_unsigned(chars.as_slice(), base, max)
        },
        None => None,
    }
}

// ---------------------------------------------------------------------------
// Reading a head off a connection
// ---------------------------------------------------------------------------

/// The kinds of input errors that the server tells apart.
#[derive(Clone, Copy, Debug, PartialEq, Eq, Structural)]
pub enum IoKind {
    InvalidData,
    TimedOut,
    WouldBlock,
    UnexpectedEof,
    Other,
}

/// What the connection gave while a head was being read.
#[derive(Clone, Copy, Debug, PartialEq, Eq, Structural)]
pub enum ReadEvent {
    /// The time for the head has run out.
    Late,
    /// The peer closed its side.
    Eof,
    /// One more byte.
    Byte(u8),
    /// Reading failed.
    Failed(IoKind),
}

/// What is to be done after an event.
#[derive(Clone, Copy, Debug, PartialEq, Eq, Structural)]
pub enum HeadStep {
    /// Read on.
    More,
    /// The head is complete.
    Complete,
    /// The peer closed the connection between two requests.
    Closed,
    /// Stop: no head came.
    Failed(ReadError),
}

/// Why no request came off a connection.
#[derive(Clone, Copy, Debug, PartialEq, Eq, Structural)]
pub enum ReadError {
    TimedOut,
    EofInHead,
    TooLarge,
    Io(IoKind),
    Head(HeadError),
}

impl ReadError {
    /// The kind of input error that this is.
    pub open spec fn kind_of(self) -> IoKind {
        match self {
            ReadError::TimedOut => IoKind::TimedOut,
            ReadError::EofInHead => IoKind::UnexpectedEof,
            ReadError::TooLarge => IoKind::InvalidData,
            ReadError::Io(k) => k,
            ReadError::Head(_) => IoKind::InvalidData,
        }
    }

    /// The kind of input error that this is.
    pub fn kind(self) -> (r: IoKind)
        ensures
            r == self.kind_of(),
    {
        match self {
            ReadError::TimedOut => IoKind::TimedOut,
            ReadError::EofInHead => IoKind::UnexpectedEof,
            ReadError::TooLarge => IoKind::InvalidData,
            ReadError::Io(k) => k,
            ReadError::Head(_) => IoKind::InvalidData,
        }
    }

    /// The message of the error; an input error brings its own.
    pub open spec fn text(self) -> Option<Seq<char>> {
        match self {
            ReadError::TimedOut => Some("timed out reading the request head"@),
            ReadError::EofInHead => Some("eof in request head"@),
            ReadError::TooLarge => Some("request head too large"@),
            ReadError::Io(_) => None,
            ReadError::Head(e) => Some(e.text()),
        }
    }

    /// The message of the error; an input error brings its own.
    pub fn message(self) -> (r: Option<&'static str>)
        ensures
            match r {
                Some(m) => self.text() == Some(m@),
                None => self.text() is None,
            },
    {
        match self {
            ReadError::TimedOut => Some("timed out reading the request head"),
            ReadError::EofInHead => Some("eof in request head"),
            ReadError::TooLarge => Some("request head too large"),
            ReadError::Io(_) => None,
            ReadError::Head(e) => Some(e.message()),
        }
    }
}

/// Whether bytes end with an empty line.
pub open spec fn ends_head(bytes: Seq<u8>) -> bool {
    &&& bytes.len() >= 4
    &&& bytes[bytes.len() - 4] == 13
    &&& bytes[bytes.len() - 3] == 10
    &&& bytes[bytes.len() - 2] == 13
    &&& bytes[bytes.len() - 1] == 10
}

/// What is to be done once `bytes` have come.
pub open spec fn progress(bytes: Seq<u8>) -> HeadStep {
    if bytes.len() > MAX_HEADER_BYTES {
        HeadStep::Failed(ReadError::TooLarge)
    } else if ends_head(bytes) {
        HeadStep::Complete
    } else {
        HeadStep::More
    }
}

/// Reads a request head byte by byte, up to the first empty line.
pub struct HeadReader {
    pub head: Vec<u8>,
}

impl HeadReader {
    /// A reader that has read nothing.
    pub fn new() -> (r: HeadReader)
        ensures
            r.head@ == Seq::<u8>::empty(),
    {
        HeadReader { head: Vec::new() }
    }

    /// Takes what the connection gave and says how to go on.
    pub fn step(&mut self, event: ReadEvent) -> (r: HeadStep)
        ensures
            match event {
                ReadEvent::Late => r == HeadStep::Failed(ReadError::TimedOut) && final(self).head@
                    == old(self).head@,
                ReadEvent::Eof => r == (if old(self).head@.len() == 0 {
                    HeadStep::Closed
                } else {
                    HeadStep::Failed(ReadError::EofInHead)
                }) && final(self).head@ == old(self).head@,
                ReadEvent::Byte(b) => final(self).head@ == old(self).head@.push(b) && r == progress(
                    final(self).head@,
                ),
                ReadEvent::Failed(k) => r == HeadStep::Failed(ReadError::Io(k)) && final(self).head@
                    == old(self).head@,
            },
    {
        match event {
            ReadEvent::Late => HeadStep::Failed(ReadError::TimedOut),
            ReadEvent::Eof => {
                if self.head.len() == 0 {
                    HeadStep::Closed
                } else {
                    HeadStep::Failed(ReadError::EofInHead)
                }
            },
            ReadEvent::Byte(b) => {
                self.head.push(b);
                let n: usize = self.head.len();
                if n > MAX_HEADER_BYTES {
                    HeadStep::Failed(ReadError::TooLarge)
                } else if n >= 4 && self.head[n - 4] == 13 && self.head[n - 3] == 10 && self.head[n - 2]
                    == 13 && self.head[n - 1] == 10 {
                    HeadStep::Complete
                } else {
                    HeadStep::More
                }
            },
            ReadEvent::Failed(k) => HeadStep::Failed(ReadError::Io(k)),
        }
    }
}

/// Reads the request off a head that is complete.
pub fn read_request(reader: &HeadReader) -> (r: Result<Request, ReadError>)
    ensures
        match r {
            Ok(request) => request_of(reader.head@) == Ok::<RequestView, HeadError>(request@),
            Err(e) => e is Head && request_of(reader.head@) == Err::<RequestView, HeadError>(
                e->Head_0,
            ),
        },
{
    match parse_head(reader.head.as_slice()) {
        Ok(request) => Ok(request),
        Err(e) => Err(ReadError::Head(e)),
    }
}

/// Four bytes: a line end and an empty line.
pub open spec fn empty_line() -> Seq<char> {
    seq!['\r', '\n', '\r', '\n']
}

/// How many bytes at the end of `bytes` are the beginning of an empty line.
pub open spec fn begun(bytes: Seq<u8>) -> int {
    let n = bytes.len();
    if n >= 3 && bytes[n - 3] == 13 && bytes[n - 2] == 10 && bytes[n - 1] == 13 {
        3
    } else if n >= 2 && bytes[n - 2] == 13 && bytes[n - 1] == 10 {
        2
    } else if n >= 1 && bytes[n - 1] == 13 {
        1
    } else {
        0
    }
}

/// The bytes, with what is missing of an empty line at their end.
pub open spec fn closed_off(bytes: Seq<u8>) -> Seq<u8> {
    bytes + seq![13u8, 10, 13, 10].skip(begun(bytes))
}

/// The head that is made of `data`: all of it up to the first empty line, where that fits
/// into a head, and else as much of it as fits, with the empty line that ends it.
pub open spec fn head_in(data: Seq<u8>) -> Seq<u8> {
    match text::find(latin(data), empty_line()) {
        Some(i) if i + 4 <= MAX_HEADER_BYTES => data.take(i + 4),
        _ => closed_off(
            data.take(
                if data.len() <= MAX_HEADER_BYTES - 4 {
                    data.len() as int
                } else {
                    MAX_HEADER_BYTES - 4
                },
            ),
        ),
    }
}

/// Shapes bytes into a head that a reader could have delivered: it ends with an empty
/// line, holds no other, and is no longer than a head may be.
pub fn as_head(data: &[u8]) -> (r: Vec<u8>)
    ensures
        r@ == head_in(data@),
        ends_head(r@),
        text::find(latin(r@), empty_line()) == Some(r@.len() - 4),
        r@.len() <= MAX_HEADER_BYTES,
{
    let n: usize = data.len();
    let mut chars: Vec<char> = Vec::new();
    let mut head: Vec<u8> = Vec::new();
    let mut i: usize = 0;
    while i < n
        invariant
            i <= n,
            n == data@.len(),
            chars@ == latin(data@.take(i as int)),
            head@ == data@.take(i as int),
        decreases n - i,
    {
        chars.push(data[i] as char);
        head.push(data[i]);
        i += 1;
        assert(data@.take(i as int) =~= data@.take(i - 1).push(data@[i - 1]));
        assert(chars@ =~= latin(data@.take(i as int)));
    }
    assert(data@.take(n as int) =~= data@);
    proof {
        law_shaped_head_is_whole(data@);
    }
    let line: [char; 4] = ['\r', '\n', '\r', '\n'];
    assert(line@ =~= empty_line());
    if let Some(at) = find_at(chars.as_slice(), line.as_slice(), 0) {
        if at <= MAX_HEADER_BYTES - 4 {
            head.truncate(at + 4);
            return head;
        }
    }
    if n > MAX_HEADER_BYTES - 4 {
        head.truncate(MAX_HEADER_BYTES - 4);
    }
    let ghost cut = head@;
    let k: usize = head.len();
    let crlf_cr = k >= 3 && head[k - 3] == 13 && head[k - 2] == 10 && head[k - 1] == 13;
    let crlf = k >= 2 && head[k - 2] == 13 && head[k - 1] == 10;
    let cr = k >= 1 && head[k - 1] == 13;
    if !crlf_cr {
        if !crlf {
            if !cr {
                head.push(13);
            }
            head.push(10);
        }
        head.push(13);
    }
    head.push(10);
    assert(head@ =~= closed_off(cut));
    head
}

/// Whatever bytes a head is made of, it ends with an empty line, holds no other, and is no
/// longer than a head may be: a reader that is fed it takes all of it and stops there.
pub proof fn law_shaped_head_is_whole(data: Seq<u8>)
    ensures
        ends_head(head_in(data)),
        text::find(latin(head_in(data)), empty_line()) == Some(head_in(data).len() - 4),
        head_in(data).len() <= MAX_HEADER_BYTES,
        forall|k: int|
            0 <= k <= head_in(data).len() ==> #[trigger] progress(head_in(data).take(k)) == (if k
                == head_in(data).len() {
                HeadStep::Complete
            } else {
                HeadStep::More
            }),
{
    let t = latin(data);
    let r = head_in(data);
    let u = latin(r);
    let last = r.len() - 4;
    text::lemma_find_from(t, empty_line(), 0);
    text::lemma_find_from(u, empty_line(), 0);
    assert forall|s: Seq<u8>, j: int| #[trigger]
        text::occurs_at(latin(s), empty_line(), j) <==> 0 <= j && j + 4 <= s.len() && s[j] == 13
            && s[j + 1] == 10 && s[j + 2] == 13 && s[j + 3] == 10 by {
        lemma_empty_line_at(s, j);
    }
    match text::find(t, empty_line()) {
        Some(i) if i + 4 <= MAX_HEADER_BYTES => {
            assert(text::occurs_at(u, empty_line(), last));
            assert forall|j: int| 0 <= j < last implies !text::occurs_at(u, empty_line(), j) by {
                assert(!text::occurs_at(t, empty_line(), j));
            }
        },
        _ => {
            let n = if data.len() <= MAX_HEADER_BYTES - 4 {
                data.len() as int
            } else {
                MAX_HEADER_BYTES - 4
            };
            let cut = data.take(n);
            assert(r == closed_off(cut));
            assert(text::occurs_at(u, empty_line(), last));
            assert forall|j: int| 0 <= j < last implies !text::occurs_at(u, empty_line(), j) by {
                assert(!text::occurs_at(t, empty_line(), j));
                if j + 4 > n && text::occurs_at(u, empty_line(), j) {
                    assert(r[j] == cut[j]);
                    if j + 1 < n {
                        assert(r[j + 1] == cut[j + 1]);
                    }
                    if j + 2 < n {
                        assert(r[j + 2] == cut[j + 2]);
                    }
                }
            }
        },
    }
    assert(text::occurs_at(u, empty_line(), last));
    assert forall|k: int| 0 <= k <= r.len() implies #[trigger] progress(r.take(k)) == (if k
        == r.len() {
        HeadStep::Complete
    } else {
        HeadStep::More
    }) by {
        if k < r.len() && ends_head(r.take(k)) {
            assert(text::occurs_at(u, empty_line(), k - 4));
        }
    }
}

proof fn lemma_empty_line_at(s: Seq<u8>, j: int)
    ensures
        text::occurs_at(latin(s), empty_line(), j) <==> 0 <= j && j + 4 <= s.len() && s[j] == 13
            && s[j + 1] == 10 && s[j + 2] == 13 && s[j + 3] == 10,
{
    if 0 <= j && j + 4 <= s.len() {
        let part = latin(s).subrange(j, j + 4);
        if part == empty_line() {
            assert(part[0] == '\r' && part[1] == '\n' && part[2] == '\r' && part[3] == '\n');
        }
        if s[j] == 13 && s[j + 1] == 10 && s[j + 2] == 13 && s[j + 3] == 10 {
            assert(part =~= empty_line());
        }
    }
}

/// A reader that is fed a connection's bytes goes on until the first empty line and
/// stops there: it never takes a byte of what follows the head.
pub proof fn law_reader_stops_at_first_empty_line(data: Seq<u8>, k: int)
    requires
        text::find(latin(data), empty_line()) is Some,
        text::find(latin(data), empty_line())->0 + 4 <= MAX_HEADER_BYTES,
        0 <= k <= text::find(latin(data), empty_line())->0 + 4,
    ensures
        progress(data.take(k)) == (if k == text::find(latin(data), empty_line())->0 + 4 {
            HeadStep::Complete
        } else {
            HeadStep::More
        }),
        head_in(data) == data.take(text::find(latin(data), empty_line())->0 + 4),
{
    let t = latin(data);
    text::lemma_find_from(t, empty_line(), 0);
    let i = text::find(t, empty_line())->0;
    let b = data.take(k);
    assert(t.subrange(i, i + 4)[0] == '\r');
    assert(t.subrange(i, i + 4)[1] == '\n');
    assert(t.subrange(i, i + 4)[2] == '\r');
    assert(t.subrange(i, i + 4)[3] == '\n');
    if k < i + 4 && ends_head(b) {
        assert(t.subrange(k - 4, k) =~= empty_line());
        assert(text::occurs_at(t, empty_line(), k - 4));
    }
    if k == i + 4 {
        assert(t[i] == data[i] as char);
        assert(t[i + 1] == data[i + 1] as char);
        assert(t[i + 2] == data[i + 2] as char);
        assert(t[i + 3] == data[i + 3] as char);
    }
}

// ---------------------------------------------------------------------------
// The body
// ---------------------------------------------------------------------------

/// How much of a body is read at a time.
pub const BODY_CHUNK: usize = 65536;

/// Beyond this, an unread body is not worth draining to keep a connection.
pub const MAX_DRAIN_BYTES: u64 = 1048576;

/// Why a body was not read.
#[derive(Clone, Copy, Debug, PartialEq, Eq, Structural)]
pub enum BodyError {
    TooLarge,
    Eof,
    DrainTooLarge,
}

impl BodyError {
    /// The message of the error.
    pub open spec fn text(self) -> Seq<char> {
        match self {
            BodyError::TooLarge => "body too large"@,
            BodyError::Eof => "eof in request body"@,
            BodyError::DrainTooLarge => "undrained body too large; closing"@,
        }
    }

    /// The message of the error.
    pub fn message(self) -> (r: &'static str)
        ensures
            r@ == self.text(),
    {
        match self {
            BodyError::TooLarge => "body too large",
            BodyError::Eof => "eof in request body",
            BodyError::DrainTooLarge => "undrained body too large; closing",
        }
    }
}

/// How many of `left` bytes are asked for at once.
pub open spec fn ask_for(left: int) -> int {
    if left < BODY_CHUNK {
        left
    } else {
        BODY_CHUNK as int
    }
}

fn ask(left: u64) -> (r: usize)
    ensures
        r == ask_for(left as int),
{
    if left < BODY_CHUNK as u64 {
        left as usize
    } else {
        BODY_CHUNK
    }
}

/// A body that is being read as a whole. It grows as bytes arrive, so that a length
/// that is only announced costs nothing.
pub struct BodyReader {
    pub body: Vec<u8>,
    pub length: u64,
}

impl BodyReader {
    /// No more has come than was announced.
    pub open spec fn wf(&self) -> bool {
        self.body@.len() <= self.length
    }

    /// How many bytes to ask for next; none when the body is complete.
    pub fn want(&self) -> (r: usize)
        requires
            self.wf(),
        ensures
            r == ask_for(self.length - self.body@.len()),
            r == 0 <==> self.body@.len() == self.length,
    {
        ask(self.length - self.body.len() as u64)
    }

    /// Takes the bytes that came, no more than were asked for. None means that the peer
    /// stopped in the middle of the body.
    pub fn accept(&mut self, chunk: &[u8]) -> (r: Result<(), BodyError>)
        requires
            old(self).wf(),
            chunk@.len() <= ask_for(old(self).length - old(self).body@.len()),
        ensures
            final(self).wf(),
            final(self).length == old(self).length,
            final(self).body@ == old(self).body@ + chunk@,
            r == (if chunk@.len() == 0 {
                Err::<(), BodyError>(BodyError::Eof)
            } else {
                Ok::<(), BodyError>(())
            }),
    {
        if chunk.len() == 0 {
            assert(self.body@ + chunk@ =~= self.body@);
            return Err(BodyError::Eof);
        }
        self.body.extend_from_slice(chunk);
        Ok(())
    }

    /// Hands the complete body out and notes in the request that it was read.
    pub fn finish(self, request: &mut Request) -> (r: Vec<u8>)
        requires
            self.wf(),
            self.body@.len() == self.length,
            self.length == old(request)@.content_length,
        ensures
            r@ == self.body@,
            r@.len() == old(request)@.content_length,
            final(request)@ == (RequestView {
                body_consumed: old(request)@.content_length,
                ..old(request)@
            }),
    {
        request.body_consumed = request.content_length;
        self.body
    }
}

/// Starts to read the body of a request as a whole, unless it is longer than `max`.
pub fn read_body(request: &Request, max: u64) -> (r: Result<BodyReader, BodyError>)
    ensures
        match r {
            Ok(b) => request@.content_length <= max && b.wf() && b.length == request@.content_length
                && b.body@ == Seq::<u8>::empty(),
            Err(e) => request@.content_length > max && e == BodyError::TooLarge,
        },
{
    if request.content_length > max {
        Err(BodyError::TooLarge)
    } else {
        Ok(BodyReader { body: Vec::new(), length: request.content_length })
    }
}

/// What is to be done with the part of a body that nobody read.
#[derive(Clone, Copy, Debug, PartialEq, Eq, Structural)]
pub enum Drain {
    Nothing,
    Read(u64),
    Refuse,
}

impl Request {
    /// No more of the body was read than was announced.
    pub open spec fn wf(&self) -> bool {
        self@.body_consumed <= self@.content_length
    }

    /// Notes that `n` bytes of a streamed body came. None means that the peer stopped in
    /// the middle of the body.
    pub fn stream_took(&mut self, n: usize) -> (r: Result<(), BodyError>)
        requires
            old(self).wf(),
            n <= ask_for(old(self)@.content_length - old(self)@.body_consumed),
        ensures
            final(self).wf(),
            final(self)@ == (RequestView {
                body_consumed: (old(self)@.body_consumed + n) as u64,
                ..old(self)@
            }),
            r == (if n == 0 {
                Err::<(), BodyError>(BodyError::Eof)
            } else {
                Ok::<(), BodyError>(())
            }),
    {
        self.body_consumed = self.body_consumed + n as u64;
        if n == 0 {
            Err(BodyError::Eof)
        } else {
            Ok(())
        }
    }

    /// Notes that the rest of the body was read and dropped.
    pub fn drained(&mut self)
        ensures
            final(self)@ == (RequestView {
                body_consumed: old(self)@.content_length,
                ..old(self)@
            }),
    {
        self.body_consumed = self.content_length;
    }
}

/// How many bytes to ask for next when the body is streamed; none at its end.
pub fn stream_body(request: &Request) -> (r: usize)
    requires
        request.wf(),
    ensures
        r == ask_for(request@.content_length - request@.body_consumed),
        r == 0 <==> request@.body_consumed == request@.content_length,
{
    ask(request.content_length - request.body_consumed)
}

/// What is to be done with the rest of the body so that the connection can be used again.
/// A long rest is not read: a refused request does not buy the right to make the server
/// read megabytes.
pub fn drain_body(request: &Request) -> (r: Drain)
    requires
        request.wf(),
    ensures
        r == (if request@.body_consumed == request@.content_length {
            Drain::Nothing
        } else if request@.content_length - request@.body_consumed > MAX_DRAIN_BYTES {
            Drain::Refuse
        } else {
            Drain::Read((request@.content_length - request@.body_consumed) as u64)
        }),
{
    let rest: u64 = request.content_length - request.body_consumed;
    if rest == 0 {
        Drain::Nothing
    } else if rest > MAX_DRAIN_BYTES {
        Drain::Refuse
    } else {
        Drain::Read(rest)
    }
}

// ---------------------------------------------------------------------------
// What holds of every head that is accepted
// ---------------------------------------------------------------------------

/// A header as the rest of the server expects it: a name in lower case that is not
/// empty and holds name characters only, and a value without a line break.
pub open spec fn sound_header(header: (Seq<char>, Seq<char>)) -> bool {
    &&& header.0.len() > 0
    &&& header.0 == text::lower(header.0)
    &&& is_token(header.0)
    &&& !text::within(header.1, seq!['\r', '\n'])
}

proof fn lemma_header_sound(line: Seq<char>)
    requires
        line.len() > 0,
        !text::within(line, seq!['\r', '\n']),
        header_of(line) is Ok,
    ensures
        sound_header(header_of(line)->Ok_0),
{
    let crlf = seq!['\r', '\n'];
    let (name, value) = text::split_once(line, seq![':'])->0;
    text::lemma_find_from(line, seq![':'], 0);
    let i = text::find(line, seq![':'])->0;
    let lowered = text::lower(name);
    assert forall|k: int| 0 <= k < lowered.len() implies text::lower_char(#[trigger] lowered[k])
        == lowered[k] && is_token_char(lowered[k]) by {
        assert(is_token_char(name[k]));
        if 'A' <= name[k] && name[k] <= 'Z' {
        } else {
            assert(lowered[k] == name[k]);
        }
    }
    assert(text::lower(lowered) =~= lowered);
    assert(value =~= line.subrange(i + 1, line.len() as int));
    text::lemma_part_free(line, crlf, i + 1, line.len() as int);
    text::lemma_strip_free(value, blanks(), crlf);
}

/// The headers of a head are sound, and no name stands twice.
pub proof fn law_headers_are_sound(lines: Seq<Seq<char>>)
    requires
        headers_of(lines) is Ok,
        forall|i: int|
            0 <= i < lines.len() ==> !text::within(#[trigger] lines[i], seq!['\r', '\n']),
    ensures
        forall|i: int|
            0 <= i < headers_of(lines)->Ok_0.len() ==> sound_header(
                #[trigger] headers_of(lines)->Ok_0[i],
            ),
        strmap::distinct_keys(headers_of(lines)->Ok_0),
    decreases lines.len(),
{
    if lines.len() > 0 {
        assert forall|i: int| 0 <= i < lines.drop_last().len() implies !text::within(
            #[trigger] lines.drop_last()[i],
            seq!['\r', '\n'],
        ) by {
            assert(lines.drop_last()[i] == lines[i]);
        }
        law_headers_are_sound(lines.drop_last());
        let h = headers_of(lines.drop_last())->Ok_0;
        let line = lines.last();
        assert(line == lines[lines.len() - 1]);
        if line.len() > 0 {
            lemma_header_sound(line);
            let (name, value) = header_of(line)->Ok_0;
            if strmap::lookup(h, name) is None {
                strmap::lemma_position(h, name, 0);
                strmap::law_put_keeps_keys_distinct(h, name, value);
                assert(strmap::put(h, name, value) == h.push((name, value)));
            }
        }
    }
}

/// What every accepted head has: ASCII bytes only, a method of upper-case letters, sound headers of which
/// none stands twice, a path without a query, at most one kind of framing, and a body
/// length that is the plain decimal number of its header, or zero without one.
pub proof fn law_accepted_head(head: Seq<u8>)
    requires
        request_of(head) is Ok,
    ensures
        forall|i: int| 0 <= i < head.len() ==> head[i] < 0x80,
        ({
            let r = request_of(head)->Ok_0;
            &&& r.method.len() > 0
            &&& forall|i: int|
                0 <= i < r.method.len() ==> 'A' <= #[trigger] r.method[i] && r.method[i] <= 'Z'
            &&& forall|i: int| 0 <= i < r.headers.len() ==> sound_header(#[trigger] r.headers[i])
            &&& strmap::distinct_keys(r.headers)
            &&& !text::within(r.path, seq!['?'])
            &&& !(strmap::lookup(r.headers, "content-length"@) is Some && strmap::lookup(
                r.headers,
                "transfer-encoding"@,
            ) is Some)
            &&& match strmap::lookup(r.headers, "content-length"@) {
                Some(raw) => number::read_digits(raw, 10, u64::MAX as nat) == Some(
                    r.content_length as nat,
                ),
                None => r.content_length == 0,
            }
            &&& r.body_consumed == 0
        }),
{
    let t = latin(head);
    let crlf = seq!['\r', '\n'];
    let lines = head_lines(t);
    let trimmed = text::trim_end(t, seq!['\r', '\n', '\r', '\n']);
    text::lemma_split_free(trimmed, crlf, 0);
    let rest = lines.skip(1);
    assert forall|i: int| 0 <= i < rest.len() implies !text::within(#[trigger] rest[i], crlf) by {
        assert(rest[i] == lines[i + 1]);
    }
    law_headers_are_sound(rest);
    let parts = text::split(lines[0], seq![' ']);
    let r = request_of(head)->Ok_0;
    assert forall|i: int| 0 <= i < r.method.len() implies 'A' <= #[trigger] r.method[i]
        && r.method[i] <= 'Z' by {
        assert(is_letter(parts[0][i]));
    }
    let url = parts[1];
    text::lemma_find_from(url, seq!['?'], 0);
    match text::find(url, seq!['?']) {
        Some(k) => {
            text::lemma_find_from(url.take(k), seq!['?'], 0);
            if text::within(url.take(k), seq!['?']) {
                let j = text::find(url.take(k), seq!['?'])->0;
                assert(url.take(k).subrange(j, j + 1) =~= url.subrange(j, j + 1));
                assert(text::occurs_at(url, seq!['?'], j));
            }
        },
        None => {},
    }
}

/// A header that can be written down and read back: it is sound, in ASCII, and its value
/// has no blanks around it.
pub open spec fn plain_header(header: (Seq<char>, Seq<char>)) -> bool {
    &&& sound_header(header)
    &&& vstd::utf8::is_ascii_chars(header.1)
    &&& text::is_bare(header.1, blanks())
}

proof fn lemma_part_ascii(x: Seq<char>, s: Seq<char>)
    requires
        vstd::utf8::is_ascii_chars(s),
        text::is_part(x, s),
    ensures
        vstd::utf8::is_ascii_chars(x),
{
    let (a, b) = choose|a: int, b: int| 0 <= a <= b <= s.len() && x == #[trigger] s.subrange(a, b);
    assert forall|i: int| 0 <= i < x.len() implies '\0' <= #[trigger] x[i] && x[i] <= '\u{7f}' by {
        assert(x[i] == s[a + i]);
    }
}

proof fn lemma_part_crlf(x: Seq<char>, s: Seq<char>)
    requires
        !text::within(s, seq!['\r', '\n']),
        text::is_part(x, s),
    ensures
        !text::within(x, seq!['\r', '\n']),
{
    let (a, b) = choose|a: int, b: int| 0 <= a <= b <= s.len() && x == #[trigger] s.subrange(a, b);
    text::lemma_part_free(s, seq!['\r', '\n'], a, b);
}

proof fn lemma_header_plain(line: Seq<char>)
    requires
        line.len() > 0,
        !text::within(line, seq!['\r', '\n']),
        vstd::utf8::is_ascii_chars(line),
        header_of(line) is Ok,
    ensures
        plain_header(header_of(line)->Ok_0),
{
    lemma_header_sound(line);
    let (name, value) = text::split_once(line, seq![':'])->0;
    text::lemma_find_from(line, seq![':'], 0);
    let i = text::find(line, seq![':'])->0;
    assert(value =~= line.subrange(i + 1, line.len() as int));
    lemma_part_ascii(value, line);
    let (a, b) = text::lemma_strip_is_part(value, blanks());
    assert(text::strip(value, blanks()) == value.subrange(a, b));
    lemma_part_ascii(text::strip(value, blanks()), value);
    text::lemma_strip_bare(value, blanks());
}

proof fn lemma_headers_plain(lines: Seq<Seq<char>>)
    requires
        headers_of(lines) is Ok,
        forall|i: int|
            0 <= i < lines.len() ==> !text::within(#[trigger] lines[i], seq!['\r', '\n'])
                && vstd::utf8::is_ascii_chars(lines[i]),
    ensures
        forall|i: int|
            0 <= i < headers_of(lines)->Ok_0.len() ==> plain_header(
                #[trigger] headers_of(lines)->Ok_0[i],
            ),
        headers_of(lines)->Ok_0.len() <= filled(lines),
        headers_of(lines)->Ok_0.len() <= MAX_HEADERS,
    decreases lines.len(),
{
    if lines.len() > 0 {
        let front = lines.drop_last();
        assert forall|i: int| 0 <= i < front.len() implies !text::within(
            #[trigger] front[i],
            seq!['\r', '\n'],
        ) && vstd::utf8::is_ascii_chars(front[i]) by {
            assert(front[i] == lines[i]);
        }
        lemma_headers_plain(front);
        let line = lines.last();
        assert(line == lines[lines.len() - 1]);
        if line.len() > 0 {
            lemma_header_plain(line);
        }
    }
}

/// What an accepted head leaves to be written down again: headers that can be read back,
/// no more of them than a head may have, and a query in ASCII without a blank or a line
/// break.
pub proof fn lemma_accepted_parts(head: Seq<u8>)
    requires
        request_of(head) is Ok,
    ensures
        ({
            let r = request_of(head)->Ok_0;
            &&& forall|i: int| 0 <= i < r.headers.len() ==> plain_header(#[trigger] r.headers[i])
            &&& r.headers.len() <= MAX_HEADERS
            &&& vstd::utf8::is_ascii_chars(r.raw_query)
            &&& !r.raw_query.contains(' ')
            &&& !text::within(r.raw_query, seq!['\r', '\n'])
            &&& r.params == params_of(text::split(r.raw_query, seq!['&']))
            &&& body_length(r.headers) == Ok::<u64, HeadError>(r.content_length)
            &&& r.body_consumed == 0
        }),
{
    let t = latin(head);
    let crlf = seq!['\r', '\n'];
    let pat = seq!['\r', '\n', '\r', '\n'];
    let trimmed = text::trim_end(t, pat);
    let lines = head_lines(t);
    assert(vstd::utf8::is_ascii_chars(t));
    lemma_trim_is_part(t, pat);
    lemma_part_ascii(trimmed, t);
    text::lemma_split_free(trimmed, crlf, 0);
    text::lemma_split_is_part(trimmed, crlf, 0);
    assert forall|i: int| 0 <= i < lines.len() implies vstd::utf8::is_ascii_chars(
        #[trigger] lines[i],
    ) by {
        lemma_part_ascii(lines[i], trimmed);
    }
    let rest = lines.skip(1);
    assert forall|i: int| 0 <= i < rest.len() implies !text::within(#[trigger] rest[i], crlf)
        && vstd::utf8::is_ascii_chars(rest[i]) by {
        assert(rest[i] == lines[i + 1]);
    }
    lemma_headers_plain(rest);
    let parts = text::split(lines[0], seq![' ']);
    text::lemma_split_free(lines[0], seq![' '], 0);
    text::lemma_split_is_part(lines[0], seq![' '], 0);
    let url = parts[1];
    lemma_part_ascii(url, lines[0]);
    lemma_part_crlf(url, lines[0]);
    text::lemma_char_free(url, ' ');
    let query = target_parts(url).1;
    text::lemma_find_from(url, seq!['?'], 0);
    match text::find(url, seq!['?']) {
        Some(k) => {
            assert(query =~= url.subrange(k + 1, url.len() as int));
        },
        None => {
            assert(query =~= url.subrange(0, 0));
        },
    }
    lemma_part_ascii(query, url);
    lemma_part_crlf(query, url);
    if query.contains(' ') {
        let i = choose|i: int| 0 <= i < query.len() && query[i] == ' ';
        let (a, b) = choose|a: int, b: int|
            0 <= a <= b <= url.len() && query == #[trigger] url.subrange(a, b);
        assert(url[a + i] == ' ');
    }
}

proof fn lemma_trim_is_part(s: Seq<char>, pat: Seq<char>)
    ensures
        text::is_part(text::trim_end(s, pat), s),
    decreases s.len(),
{
    if pat.len() > 0 && text::occurs_at(s, pat, s.len() - pat.len()) {
        let t = s.take(s.len() - pat.len());
        lemma_trim_is_part(t, pat);
        let x = text::trim_end(s, pat);
        let (a, b) = choose|a: int, b: int|
            0 <= a <= b <= t.len() && x == #[trigger] t.subrange(a, b);
        assert(t.subrange(a, b) =~= s.subrange(a, b));
    } else {
        assert(s =~= s.subrange(0, s.len() as int));
    }
}

// ---------------------------------------------------------------------------
// What the parts of a request stand for
// ---------------------------------------------------------------------------

/// What decoding does to the bytes, one after the other: a plus is a blank; a percent sign
/// with two hexadecimal digits behind it is the byte that they write, a plus in the place of the
/// first standing for none; a percent sign without them is itself; and every other byte is
/// itself. What follows is decoded as it is alone.
pub proof fn law_bytes_are_decoded_one_by_one(b: u8, y: Seq<u8>)
    ensures
        unescaped_from(Seq::empty(), 0).len() == 0,
        y.len() >= 2 && y[0] == 0x2b && number::digit_worth(y[1] as char) < 16 ==> unescaped_from(
            seq![0x25u8] + y,
            0,
        ) == seq![number::digit_worth(y[1] as char) as u8] + unescaped_from(y.skip(2), 0),
        y.len() >= 2 && y[0] == 0x2b && number::digit_worth(y[1] as char) >= 16 ==> unescaped_from(
            seq![0x25u8] + y,
            0,
        ) == seq![0x25u8] + unescaped_from(y, 0),
        b != 0x25 && b != 0x2b ==> unescaped_from(seq![b] + y, 0) == seq![b] + unescaped_from(y, 0),
        unescaped_from(seq![0x2bu8] + y, 0) == seq![0x20u8] + unescaped_from(y, 0),
        y.len() < 2 ==> unescaped_from(seq![0x25u8] + y, 0) == seq![0x25u8] + unescaped_from(y, 0),
        y.len() >= 2 && y[0] != 0x2b && (number::digit_worth(y[0] as char) >= 16
            || number::digit_worth(y[1] as char) >= 16) ==> unescaped_from(seq![0x25u8] + y, 0)
            == seq![0x25u8] + unescaped_from(y, 0),
        y.len() >= 2 && number::digit_worth(y[0] as char) < 16 && number::digit_worth(y[1] as char)
            < 16 ==> unescaped_from(seq![0x25u8] + y, 0) == seq![
            (number::digit_worth(y[0] as char) * 16 + number::digit_worth(y[1] as char)) as u8,
        ] + unescaped_from(y.skip(2), 0),
{
    let p = seq![0x25u8] + y;
    lemma_unescape_shift(seq![b], y, 0);
    assert((seq![b] + y)[0] == b);
    lemma_unescape_shift(seq![0x2bu8], y, 0);
    assert((seq![0x2bu8] + y)[0] == 0x2b);
    lemma_unescape_shift(seq![0x25u8], y, 0);
    assert(p[0] == 0x25);
    if y.len() >= 2 {
        assert(p[1] == y[0] && p[2] == y[1]);
        let pair = seq![y[0] as char, y[1] as char];
        assert(pair[0] == y[0] as char && pair[1] == y[1] as char);
        if number::digit_worth(y[0] as char) < 16 && number::digit_worth(y[1] as char) < 16 {
            assert(pair.drop_last() =~= seq![y[0] as char]);
            assert(seq![y[0] as char].drop_last() =~= Seq::<char>::empty());
            reveal_with_fuel(number::number_of, 3);
            assert(number::number_of(pair, 16) == number::digit_worth(y[0] as char) * 16
                + number::digit_worth(y[1] as char));
            assert(number::all_digits(pair, 16));
            assert(y[0] as char != '+');
            assert(hex_byte(p[1], p[2]) is Some);
            lemma_unescape_shift(p.take(3), p.skip(3), 0);
            assert(p =~= p.take(3) + p.skip(3));
            assert(p.skip(3) =~= y.skip(2));
        } else if y[0] != 0x2b {
            assert(y[0] as char != '+');
            assert(!number::all_digits(pair, 16));
        } else {
            assert(y[0] as char == '+');
            assert(pair.skip(1) =~= seq![y[1] as char]);
            assert(seq![y[1] as char].drop_last() =~= Seq::<char>::empty());
            reveal_with_fuel(number::number_of, 2);
            assert(number::number_of(seq![y[1] as char], 16) == number::digit_worth(y[1] as char));
            if number::digit_worth(y[1] as char) < 16 {
                assert(number::all_digits(seq![y[1] as char], 16));
                assert(hex_byte(p[1], p[2]) is Some);
                lemma_unescape_shift(p.take(3), p.skip(3), 0);
                assert(p =~= p.take(3) + p.skip(3));
                assert(p.skip(3) =~= y.skip(2));
            } else {
                assert(seq![y[1] as char][0] == y[1] as char);
                assert(!number::all_digits(seq![y[1] as char], 16));
            }
        }
    }
}

proof fn lemma_scalar_bytes(c: char)
    ensures
        c as u32 <= 0x7f ==> vstd::utf8::encode_scalar(c as u32) == seq![c as u8],
        c as u32 > 0x7f ==> forall|i: int|
            0 <= i < vstd::utf8::encode_scalar(c as u32).len() ==> #[trigger] vstd::utf8::encode_scalar(
                c as u32,
            )[i] >= 0x80,
        c != '%' && c != '+' ==> forall|i: int|
            0 <= i < vstd::utf8::encode_scalar(c as u32).len() ==> #[trigger] vstd::utf8::encode_scalar(
                c as u32,
            )[i] != 0x25 && vstd::utf8::encode_scalar(c as u32)[i] != 0x2b,
{
    let v = c as u32;
    let e = vstd::utf8::encode_scalar(v);
    if v <= 0x7f {
        let one = seq![c];
        assert(vstd::utf8::is_ascii_chars(one));
        vstd::utf8::is_ascii_chars_encode_utf8(one);
        assert(one.drop_first() =~= Seq::<char>::empty());
        assert(vstd::utf8::encode_utf8(one.drop_first()) =~= Seq::<u8>::empty());
        assert(vstd::utf8::encode_utf8(one) =~= e);
        assert(e =~= seq![c as u8]);
        if c != '%' && c != '+' {
            assert(c as u8 != 0x25 && c as u8 != 0x2b);
        }
    } else {
        assert forall|x: u8| #![trigger 0xC0u8 | x] (0xC0u8 | x) >= 0x80 by {
            assert((0xC0u8 | x) >= 0x80u8) by (bit_vector);
        }
        assert forall|x: u8| #![trigger 0xE0u8 | x] (0xE0u8 | x) >= 0x80 by {
            assert((0xE0u8 | x) >= 0x80u8) by (bit_vector);
        }
        assert forall|x: u8| #![trigger 0xF0u8 | x] (0xF0u8 | x) >= 0x80 by {
            assert((0xF0u8 | x) >= 0x80u8) by (bit_vector);
        }
        assert forall|x: u8| #![trigger 0x80u8 | x] (0x80u8 | x) >= 0x80 by {
            assert((0x80u8 | x) >= 0x80u8) by (bit_vector);
        }
    }
}

proof fn lemma_bytes_of_others(s: Seq<char>)
    requires
        !s.contains('%'),
        !s.contains('+'),
    ensures
        forall|i: int|
            0 <= i < vstd::utf8::encode_utf8(s).len() ==> #[trigger] vstd::utf8::encode_utf8(s)[i]
                != 0x25 && vstd::utf8::encode_utf8(s)[i] != 0x2b,
    decreases s.len(),
{
    if s.len() > 0 {
        let rest = s.drop_first();
        assert(s[0] != '%' && s[0] != '+');
        if rest.contains('%') {
            let i = choose|i: int| 0 <= i < rest.len() && rest[i] == '%';
            assert(s[i + 1] == '%');
        }
        if rest.contains('+') {
            let i = choose|i: int| 0 <= i < rest.len() && rest[i] == '+';
            assert(s[i + 1] == '+');
        }
        lemma_bytes_of_others(rest);
        lemma_scalar_bytes(s[0]);
        let first = vstd::utf8::encode_scalar(s[0] as u32);
        let all = vstd::utf8::encode_utf8(s);
        assert forall|i: int| 0 <= i < all.len() implies #[trigger] all[i] != 0x25 && all[i] != 0x2b by {
            if i < first.len() {
                assert(all[i] == first[i]);
            } else {
                assert(all[i] == vstd::utf8::encode_utf8(rest)[i - first.len()]);
            }
        }
    }
}

proof fn lemma_unescape_others(x: Seq<u8>, y: Seq<u8>)
    requires
        forall|i: int| 0 <= i < x.len() ==> #[trigger] x[i] != 0x25 && x[i] != 0x2b,
    ensures
        unescaped_from(x + y, 0) == x + unescaped_from(y, 0),
    decreases x.len(),
{
    if x.len() == 0 {
        assert(x + y =~= y);
        assert(x + unescaped_from(y, 0) =~= unescaped_from(y, 0));
    } else {
        let rest = x.skip(1);
        assert forall|i: int| 0 <= i < rest.len() implies #[trigger] rest[i] != 0x25 && rest[i]
            != 0x2b by {
            assert(rest[i] == x[i + 1]);
        }
        lemma_unescape_others(rest, y);
        law_bytes_are_decoded_one_by_one(x[0], rest + y);
        assert(x + y =~= seq![x[0]] + (rest + y));
        assert(x + unescaped_from(y, 0) =~= seq![x[0]] + (rest + unescaped_from(y, 0)));
    }
}

/// A text without a percent sign and without a plus stands for itself, whatever it holds, and
/// what follows it adds the bytes that it stands for alone; so where those are well-formed,
/// it decodes as it does alone.
pub proof fn law_other_characters_stand_for_themselves(s: Seq<char>, t: Seq<char>)
    requires
        !s.contains('%'),
        !s.contains('+'),
    ensures
        url_decoded(s) == s,
        unescaped_from(vstd::utf8::encode_utf8(s + t), 0) == vstd::utf8::encode_utf8(s)
            + unescaped_from(vstd::utf8::encode_utf8(t), 0),
        vstd::utf8::valid_utf8(unescaped_from(vstd::utf8::encode_utf8(t), 0)) ==> url_decoded(s + t)
            == s + url_decoded(t),
{
    let x = vstd::utf8::encode_utf8(s);
    lemma_bytes_of_others(s);
    lemma_unescape_others(x, Seq::empty());
    assert(x + Seq::<u8>::empty() =~= x);
    assert(unescaped_from(Seq::<u8>::empty(), 0) =~= Seq::<u8>::empty());
    vstd::utf8::encode_utf8_valid_utf8(s);
    vstd::utf8::encode_utf8_decode_utf8(s);
    lemma_encode_concat(s, t);
    lemma_unescape_others(x, vstd::utf8::encode_utf8(t));
    let u = unescaped_from(vstd::utf8::encode_utf8(t), 0);
    if vstd::utf8::valid_utf8(u) {
        let d = vstd::utf8::decode_utf8(u);
        vstd::utf8::decode_utf8_encode_utf8(u);
        lemma_encode_concat(s, d);
        vstd::utf8::encode_utf8_valid_utf8(s + d);
        vstd::utf8::encode_utf8_decode_utf8(s + d);
    }
}

/// A plus stands for one blank, and what follows it adds the bytes that it stands for alone.
pub proof fn law_plus_stands_for_a_blank(t: Seq<char>)
    ensures
        url_decoded(seq!['+']) == seq![' '],
        unescaped_from(vstd::utf8::encode_utf8(seq!['+'] + t), 0) == seq![0x20u8] + unescaped_from(
            vstd::utf8::encode_utf8(t),
            0,
        ),
        vstd::utf8::valid_utf8(unescaped_from(vstd::utf8::encode_utf8(t), 0)) ==> url_decoded(
            seq!['+'] + t,
        ) == seq![' '] + url_decoded(t),
{
    let plus = seq!['+'];
    let blank = seq![' '];
    lemma_encode_concat(plus, t);
    assert(vstd::utf8::is_ascii_chars(plus));
    assert(vstd::utf8::is_ascii_chars(blank));
    vstd::utf8::is_ascii_chars_encode_utf8(plus);
    vstd::utf8::is_ascii_chars_encode_utf8(blank);
    assert(vstd::utf8::encode_utf8(plus) =~= seq![0x2bu8]);
    assert(vstd::utf8::encode_utf8(blank) =~= seq![0x20u8]);
    law_bytes_are_decoded_one_by_one(0, vstd::utf8::encode_utf8(t));
    law_bytes_are_decoded_one_by_one(0, Seq::empty());
    assert(seq![0x2bu8] + Seq::<u8>::empty() =~= seq![0x2bu8]);
    assert(unescaped_from(Seq::<u8>::empty(), 0) =~= Seq::<u8>::empty());
    assert(seq![0x20u8] + Seq::<u8>::empty() =~= seq![0x20u8]);
    vstd::utf8::encode_utf8_valid_utf8(blank);
    vstd::utf8::encode_utf8_decode_utf8(blank);
    let u = unescaped_from(vstd::utf8::encode_utf8(t), 0);
    if vstd::utf8::valid_utf8(u) {
        let d = vstd::utf8::decode_utf8(u);
        vstd::utf8::decode_utf8_encode_utf8(u);
        lemma_encode_concat(blank, d);
        vstd::utf8::encode_utf8_valid_utf8(blank + d);
        vstd::utf8::encode_utf8_decode_utf8(blank + d);
    }
}

/// Bytes that are well-formed stand for exactly what they encode, and others for what is left of
/// all of them after the ill-formed runs were replaced.
pub proof fn law_well_formed_bytes_stand_for_their_text(s: Seq<char>, bytes: Seq<u8>)
    ensures
        text_of_bytes(vstd::utf8::encode_utf8(s)) == s,
        vstd::utf8::valid_utf8(vstd::utf8::encode_utf8(s)),
        vstd::utf8::valid_utf8(bytes) ==> text_of_bytes(bytes) == vstd::utf8::decode_utf8(bytes),
        !vstd::utf8::valid_utf8(bytes) ==> text_of_bytes(bytes) == utf8_lossy(bytes),
        url_decoded(s) == text_of_bytes(unescaped_from(vstd::utf8::encode_utf8(s), 0)),
{
    vstd::utf8::encode_utf8_valid_utf8(s);
    vstd::utf8::encode_utf8_decode_utf8(s);
}

/// One more piece of a query sets one parameter: `k=v` sets the decoded key to the decoded
/// value, in the place of an earlier value, and leaves every other one; a piece without `=`
/// sets its key to the empty text; an empty piece sets nothing.
pub proof fn law_each_piece_sets_its_parameter(
    pieces: Seq<Seq<char>>,
    k: Seq<char>,
    v: Seq<char>,
    other: Seq<char>,
)
    requires
        !k.contains('='),
    ensures
        params_of(Seq::empty()).len() == 0,
        params_of(pieces.push(Seq::empty())) == params_of(pieces),
        strmap::lookup(params_of(pieces.push(k + seq!['='] + v)), url_decoded(k)) == Some(
            url_decoded(v),
        ),
        other != url_decoded(k) ==> strmap::lookup(params_of(pieces.push(k + seq!['='] + v)), other)
            == strmap::lookup(params_of(pieces), other),
        k.len() > 0 ==> strmap::lookup(params_of(pieces.push(k)), url_decoded(k)) == Some(
            Seq::<char>::empty(),
        ),
        k.len() > 0 && other != url_decoded(k) ==> strmap::lookup(params_of(pieces.push(k)), other)
            == strmap::lookup(params_of(pieces), other),
{
    let none = Seq::<char>::empty();
    let piece = k + seq!['='] + v;
    text::lemma_split_once_first(k, '=', v);
    text::lemma_char_free(k, '=');
    law_other_characters_stand_for_themselves(none, none);
    assert(pieces.push(none).drop_last() =~= pieces);
    assert(pieces.push(piece).drop_last() =~= pieces);
    assert(pieces.push(k).drop_last() =~= pieces);
    assert(piece.len() > 0);
    strmap::law_put_then_lookup(params_of(pieces), url_decoded(k), url_decoded(v), other);
    strmap::law_put_then_lookup(params_of(pieces), url_decoded(k), none, other);
}

/// The path of a target is what stands before the first question mark, and the query what
/// stands behind it; without one all of it is the path.
pub proof fn law_target_is_path_and_query(p: Seq<char>, q: Seq<char>)
    requires
        !p.contains('?'),
    ensures
        target_parts(p + seq!['?'] + q) == (p, q),
        target_parts(p) == (p, Seq::<char>::empty()),
{
    text::lemma_split_once_first(p, '?', q);
    text::lemma_char_free(p, '?');
}

/// The characters of a header name, by their codes, and those that are dropped around a value. A
/// method is letters, at least one, and a name is made of such characters.
pub proof fn law_characters_of_headers(c: char, s: Seq<char>, bytes: Seq<u8>)
    ensures
        is_letter(c) <==> 65 <= c as u32 <= 90 || 97 <= c as u32 <= 122,
        is_token_char(c) <==> {
            let n = c as u32;
            n == 33 || 35 <= n <= 39 || n == 42 || n == 43 || n == 45 || n == 46 || 48 <= n <= 57 || 65
                <= n <= 90 || 94 <= n <= 122 || n == 124 || n == 126
        },
        blanks().contains(c) <==> 9 <= c as u32 <= 13 || c as u32 == 32,
        is_method(s) <==> s.len() > 0 && forall|i: int| 0 <= i < s.len() ==> is_letter(#[trigger] s[i]),
        is_token(s) <==> forall|i: int| 0 <= i < s.len() ==> is_token_char(#[trigger] s[i]),
        ascii(bytes) <==> forall|i: int| 0 <= i < bytes.len() ==> #[trigger] bytes[i] < 128,
{
    let m = token_marks();
    assert(m[0] == '!' && m[1] == '#' && m[2] == '$' && m[3] == '%' && m[4] == '&' && m[5] == '\''
        && m[6] == '*' && m[7] == '+' && m[8] == '-' && m[9] == '.' && m[10] == '^' && m[11] == '_'
        && m[12] == '`' && m[13] == '|' && m[14] == '~');
    let b = blanks();
    assert(b[0] == '\t' && b[1] == '\n' && b[2] == '\x0b' && b[3] == '\x0c' && b[4] == '\r' && b[5]
        == ' ');
}

/// A header line is a name, a colon and a value, with blanks around the value or without: the
/// name is taken in lower case, and the value as it is.
pub proof fn law_header_line_is_name_and_value(
    name: Seq<char>,
    a: Seq<char>,
    value: Seq<char>,
    b: Seq<char>,
)
    requires
        name.len() > 0,
        is_token(name),
        text::is_bare(value, blanks()),
        forall|i: int| 0 <= i < a.len() ==> blanks().contains(#[trigger] a[i]),
        forall|i: int| 0 <= i < b.len() ==> blanks().contains(#[trigger] b[i]),
    ensures
        header_of(name + seq![':'] + (a + value + b)) == Ok::<(Seq<char>, Seq<char>), HeadError>(
            (text::lower(name), value),
        ),
{
    let rest = a + value + b;
    let line = name + seq![':'] + rest;
    assert(is_token_char(name[0]));
    assert(is_token_char(name[name.len() - 1]));
    law_characters_of_headers(name[0], name, Seq::empty());
    law_characters_of_headers(name.last(), name, Seq::empty());
    assert(line[0] == name[0]);
    if name.contains(':') {
        let i = choose|i: int| 0 <= i < name.len() && name[i] == ':';
        assert(is_token_char(name[i]));
        law_characters_of_headers(name[i], name, Seq::empty());
    }
    text::lemma_split_once_first(name, ':', rest);
    text::law_strip_drops_the_ends_alone(a, value, b, blanks());
}

/// A header line that begins with a blank continues the one before it, which is refused; so
/// is a line without a colon, one without a name or with a blank behind it, and one with a
/// character in the name that a name may not hold.
pub proof fn law_malformed_header_lines_are_refused(name: Seq<char>, value: Seq<char>, i: int)
    requires
        !name.contains(':'),
    ensures
        header_of(seq![' '] + value) == Err::<(Seq<char>, Seq<char>), HeadError>(HeadError::Folding),
        header_of(seq!['\t'] + value) == Err::<(Seq<char>, Seq<char>), HeadError>(HeadError::Folding),
        name.len() > 0 && name[0] != ' ' && name[0] != '\t' ==> header_of(name) == Err::<
            (Seq<char>, Seq<char>),
            HeadError,
        >(HeadError::NoColon),
        header_of(seq![':'] + value) == Err::<(Seq<char>, Seq<char>), HeadError>(
            HeadError::HeaderName,
        ),
        name.len() > 0 && name[0] != ' ' && name[0] != '\t' && (name.last() == ' ' || name.last()
            == '\t') ==> header_of(name + seq![':'] + value) == Err::<
            (Seq<char>, Seq<char>),
            HeadError,
        >(HeadError::HeaderName),
        0 <= i < name.len() && !is_token_char(name[i]) && name[0] != ' ' && name[0] != '\t'
            && name.last() != ' ' && name.last() != '\t' ==> header_of(name + seq![':'] + value)
            == Err::<(Seq<char>, Seq<char>), HeadError>(HeadError::HeaderNameCharacter),
{
    let none = Seq::<char>::empty();
    text::lemma_split_once_first(name, ':', value);
    text::lemma_split_once_first(none, ':', value);
    assert(none + seq![':'] + value =~= seq![':'] + value);
    text::lemma_char_free(name, ':');
    if name.len() > 0 {
        assert((name + seq![':'] + value)[0] == name[0]);
    }
    assert((seq![':'] + value)[0] == ':');
    assert((seq![' '] + value)[0] == ' ');
    assert((seq!['\t'] + value)[0] == '\t');
}

/// The headers after one more line: a new name is added at the end; a known name with the
/// same value changes nothing, and with another one is refused; an empty line is passed over;
/// and the line after the hundredth is refused.
pub proof fn law_header_lines_are_taken_one_by_one(lines: Seq<Seq<char>>, line: Seq<char>)
    requires
        headers_of(lines) is Ok,
    ensures
        headers_of(Seq::empty()) == Ok::<Seq<(Seq<char>, Seq<char>)>, HeadError>(Seq::empty()),
        filled(Seq::empty()) == 0,
        filled(lines.push(line)) == filled(lines) + (if line.len() == 0 {
            0int
        } else {
            1
        }),
        line.len() == 0 ==> headers_of(lines.push(line)) == headers_of(lines),
        line.len() > 0 && filled(lines) >= 100 ==> headers_of(lines.push(line)) == Err::<
            Seq<(Seq<char>, Seq<char>)>,
            HeadError,
        >(HeadError::TooManyHeaders),
        line.len() > 0 && filled(lines) < 100 && header_of(line) is Err ==> headers_of(lines.push(line))
            == Err::<Seq<(Seq<char>, Seq<char>)>, HeadError>(header_of(line)->Err_0),
        line.len() > 0 && filled(lines) < 100 && header_of(line) is Ok ==> {
            let h = headers_of(lines)->Ok_0;
            let (name, value) = header_of(line)->Ok_0;
            &&& strmap::lookup(h, name) is None ==> headers_of(lines.push(line)) == Ok::<
                Seq<(Seq<char>, Seq<char>)>,
                HeadError,
            >(h + seq![(name, value)])
            &&& strmap::lookup(h, name) == Some(value) ==> headers_of(lines.push(line)) == headers_of(
                lines,
            )
            &&& strmap::lookup(h, name) is Some && strmap::lookup(h, name) != Some(value)
                ==> headers_of(lines.push(line)) == Err::<Seq<(Seq<char>, Seq<char>)>, HeadError>(
                HeadError::ConflictingHeader,
            )
        },
{
    assert(lines.push(line).drop_last() =~= lines);
    assert(lines.push(line).last() == line);
    if line.len() > 0 && filled(lines) < 100 && header_of(line) is Ok {
        let h = headers_of(lines)->Ok_0;
        let (name, value) = header_of(line)->Ok_0;
        assert(h.push((name, value)) =~= h + seq![(name, value)]);
    }
}

/// A refused line refuses the head, with the reason of the first one.
pub proof fn law_first_refused_line_decides(lines: Seq<Seq<char>>, more: Seq<Seq<char>>)
    requires
        headers_of(lines) is Err,
    ensures
        headers_of(lines + more) == headers_of(lines),
{
    assert((lines + more).take(lines.len() as int) =~= lines);
    lemma_headers_stop(lines + more, lines.len() as int);
}

/// The body is as long as its header says, in plain decimal digits, and empty without that
/// header; a length beside a transfer encoding, one that is no plain number, and one that is
/// too large are refused.
pub proof fn law_length_is_what_the_header_says(h: Seq<(Seq<char>, Seq<char>)>, n: nat, i: int)
    ensures
        strmap::lookup(h, "content-length"@) is None ==> body_length(h) == Ok::<u64, HeadError>(0),
        strmap::lookup(h, "content-length"@) == Some(number::decimal(n)) && strmap::lookup(
            h,
            "transfer-encoding"@,
        ) is None && n <= u64::MAX ==> body_length(h) == Ok::<u64, HeadError>(n as u64),
        strmap::lookup(h, "content-length"@) == Some(number::decimal(n)) && strmap::lookup(
            h,
            "transfer-encoding"@,
        ) is None && n > u64::MAX ==> body_length(h) == Err::<u64, HeadError>(
            HeadError::LengthOutOfRange,
        ),
        strmap::lookup(h, "content-length"@) is Some && strmap::lookup(h, "transfer-encoding"@) is Some
            ==> body_length(h) == Err::<u64, HeadError>(HeadError::BothFramings),
        strmap::lookup(h, "content-length"@) matches Some(raw) ==> strmap::lookup(
            h,
            "transfer-encoding"@,
        ) is None ==> (raw.len() == 0 || (0 <= i < raw.len() && !('0' <= raw[i] && raw[i] <= '9')))
            ==> body_length(h) == Err::<u64, HeadError>(HeadError::MalformedLength),
        body_length(h) matches Ok(m) ==> strmap::lookup(h, "content-length"@) matches Some(raw)
            ==> number::read_digits(raw, 10, u64::MAX as nat) == Some(m as nat),
{
    number::law_numeral_reads_back(n, 10, n);
    match strmap::lookup(h, "content-length"@) {
        Some(raw) => {
            if 0 <= i < raw.len() && !('0' <= raw[i] && raw[i] <= '9') {
                assert(number::digit_worth(raw[i]) >= 10);
            }
        },
        None => {},
    }
}

/// A connection closes when its header says so, stays open when its header says that, and
/// otherwise goes by the version: 1.1 stays open and 1.0 does not.
pub proof fn law_connection_goes_by_header_and_version(
    h: Seq<(Seq<char>, Seq<char>)>,
    version: Seq<char>,
    a: Seq<char>,
    b: Seq<char>,
)
    ensures
        strmap::lookup(h, "connection"@) is None ==> stays_open(h, "HTTP/1.1"@) && !stays_open(
            h,
            "HTTP/1.0"@,
        ),
        strmap::lookup(h, "connection"@) matches Some(c) ==> text::lower(c) == a + "close"@ + b
            ==> !stays_open(h, version),
        strmap::lookup(h, "connection"@) matches Some(c) ==> text::within(
            text::lower(c),
            "keep-alive"@,
        ) && !text::within(text::lower(c), "close"@) ==> stays_open(h, version),
        strmap::lookup(h, "connection"@) matches Some(c) ==> !text::within(
            text::lower(c),
            "keep-alive"@,
        ) && !text::within(text::lower(c), "close"@) ==> stays_open(h, "HTTP/1.1"@) && !stays_open(
            h,
            "HTTP/1.0"@,
        ),
{
    reveal_strlit("HTTP/1.1");
    reveal_strlit("HTTP/1.0");
    assert("HTTP/1.1"@[7] != "HTTP/1.0"@[7]);
    text::law_what_stands_between_is_found(a, "close"@, b);
}

/// A request line and header lines, each with its end, and an empty line are read as what
/// they say: the method in upper case, the target, the version, and the headers, and nothing
/// else; what is refused of them refuses the request.
pub proof fn law_request_is_read_line_by_line(
    method: Seq<char>,
    target: Seq<char>,
    version: Seq<char>,
    lines: Seq<Seq<char>>,
)
    requires
        is_method(method),
        !target.contains(' '),
        !text::within(target, seq!['\r', '\n']),
        version == "HTTP/1.1"@ || version == "HTTP/1.0"@,
        forall|i: int|
            0 <= i < lines.len() ==> (#[trigger] lines[i]).len() >= 2 && !text::within(
                lines[i],
                seq!['\r', '\n'],
            ),
    ensures
        ({
            let first = method + seq![' '] + target + seq![' '] + version;
            let head = text::join(seq![first] + lines, seq!['\r', '\n']) + seq![
                '\r',
                '\n',
                '\r',
                '\n',
            ];
            let r = request_of_text(head);
            &&& headers_of(lines) is Err ==> r == Err::<RequestView, HeadError>(headers_of(lines)->Err_0)
            &&& headers_of(lines) is Ok && body_length(headers_of(lines)->Ok_0) is Err ==> r == Err::<
                RequestView,
                HeadError,
            >(body_length(headers_of(lines)->Ok_0)->Err_0)
            &&& headers_of(lines) is Ok && body_length(headers_of(lines)->Ok_0) is Ok ==> {
                &&& r is Ok
                &&& r->Ok_0.method == text::upper(method)
                &&& r->Ok_0.path == target_parts(target).0
                &&& r->Ok_0.raw_query == target_parts(target).1
                &&& r->Ok_0.params == params_of(text::split(target_parts(target).1, seq!['&']))
                &&& r->Ok_0.headers == headers_of(lines)->Ok_0
                &&& r->Ok_0.content_length == body_length(headers_of(lines)->Ok_0)->Ok_0
                &&& r->Ok_0.body_consumed == 0
                &&& r->Ok_0.keep_alive == stays_open(headers_of(lines)->Ok_0, version)
            }
        }),
{
    let crlf = seq!['\r', '\n'];
    let first = method + seq![' '] + target + seq![' '] + version;
    let all = seq![first] + lines;
    let head = text::join(all, crlf) + seq!['\r', '\n', '\r', '\n'];
    lemma_first_line_parts(method, target, version);
    lemma_first_line_free(method, target, version);
    lemma_lines_of_head(first, lines);
    assert(head_lines(head) == all);
    assert(all[0] == first);
    assert(all.skip(1) =~= lines);
    let parts = seq![method, target, version];
    assert(parts[0] == method && parts[1] == target && parts[2] == version);
}

/// A request line falls into its three parts.
pub proof fn lemma_first_line_parts(method: Seq<char>, target: Seq<char>, version: Seq<char>)
    requires
        is_method(method),
        !target.contains(' '),
        version == "HTTP/1.1"@ || version == "HTTP/1.0"@,
    ensures
        text::split(method + seq![' '] + target + seq![' '] + version, seq![' ']) == seq![
            method,
            target,
            version,
        ],
{
    reveal_strlit("HTTP/1.1");
    reveal_strlit("HTTP/1.0");
    let first = method + seq![' '] + target + seq![' '] + version;
    assert(!version.contains(' ')) by {
        assert(version.len() == 8);
        assert(version[0] == 'H' && version[1] == 'T' && version[2] == 'T' && version[3] == 'P'
            && version[4] == '/' && version[5] == '1' && version[6] == '.' && version[7] != ' ');
    }
    assert(!method.contains(' ')) by {
        if method.contains(' ') {
            let i = choose|i: int| 0 <= i < method.len() && method[i] == ' ';
            assert(is_letter(method[i]));
        }
    }
    let tail = target + seq![' '] + version;
    text::lemma_split_first(method, ' ', tail);
    text::lemma_split_first(target, ' ', version);
    text::lemma_char_free(version, ' ');
    text::lemma_split_whole(version, seq![' ']);
    assert(first =~= method + seq![' '] + tail);
    assert(seq![method] + (seq![target] + seq![version]) =~= seq![method, target, version]);
}

proof fn lemma_lines_of_head(first: Seq<char>, lines: Seq<Seq<char>>)
    requires
        first.len() >= 2,
        !text::within(first, seq!['\r', '\n']),
        forall|i: int|
            0 <= i < lines.len() ==> (#[trigger] lines[i]).len() >= 2 && !text::within(
                lines[i],
                seq!['\r', '\n'],
            ),
    ensures
        head_lines(
            text::join(seq![first] + lines, seq!['\r', '\n']) + seq!['\r', '\n', '\r', '\n'],
        ) == seq![first] + lines,
{
    let crlf = seq!['\r', '\n'];
    let all = seq![first] + lines;
    assert forall|i: int| 0 <= i < all.len() implies (#[trigger] all[i]).len() >= 2 && !text::within(
        all[i],
        crlf,
    ) by {
        if i > 0 {
            assert(all[i] == lines[i - 1]);
        }
    }
    assert(all.last() == all[all.len() - 1]);
    proxy::lemma_trimmed(all);
    text::lemma_split_pairs(all, '\r', '\n');
}

/// A request line holds no line end.
pub proof fn lemma_first_line_free(method: Seq<char>, target: Seq<char>, version: Seq<char>)
    requires
        is_method(method),
        !text::within(target, seq!['\r', '\n']),
        version == "HTTP/1.1"@ || version == "HTTP/1.0"@,
    ensures
        !text::within(
            method + seq![' '] + target + seq![' '] + version,
            seq!['\r', '\n'],
        ),
{
    reveal_strlit("HTTP/1.1");
    reveal_strlit("HTTP/1.0");
    let first = method + seq![' '] + target + seq![' '] + version;
    let m = method.len() as int;
    let n = m + 1 + target.len();
    text::lemma_pair_free(first, '\r', '\n');
    text::lemma_pair_free(target, '\r', '\n');
    assert forall|i: int| !text::pair_at(first, '\r', '\n', i) by {
        if text::pair_at(first, '\r', '\n', i) {
            if i < m {
                assert(is_letter(method[i]));
                assert(first[i] == method[i]);
            } else if i == m {
                assert(first[i] == ' ');
            } else if i < n {
                assert(first[i] == target[i - m - 1]);
                if i + 1 < n {
                    assert(first[i + 1] == target[i - m]);
                    assert(text::pair_at(target, '\r', '\n', i - m - 1));
                } else {
                    assert(first[i + 1] == ' ');
                }
            } else if i == n {
                assert(first[i] == ' ');
            } else {
                assert(first[i] == version[i - n - 1]);
                assert(version[0] == 'H' && version[1] == 'T' && version[2] == 'T' && version[3] == 'P'
                    && version[4] == '/' && version[5] == '1' && version[6] == '.');
                assert(version[7] == '1' || version[7] == '0');
            }
        }
    }
}

/// A request line is refused that has not three parts, whose first part is no method, or whose
/// last is no version of the two.
pub proof fn law_malformed_request_lines_are_refused(head: Seq<char>)
    ensures
        ({
            let parts = text::split(head_lines(head)[0], seq![' ']);
            &&& parts.len() != 3 ==> request_of_text(head) == Err::<RequestView, HeadError>(
                HeadError::RequestLine,
            )
            &&& parts.len() == 3 && parts[0].len() == 0 ==> request_of_text(head) == Err::<
                RequestView,
                HeadError,
            >(HeadError::Method)
            &&& parts.len() == 3 && (exists|i: int|
                0 <= i < parts[0].len() && !is_letter(#[trigger] parts[0][i])) ==> request_of_text(head)
                == Err::<RequestView, HeadError>(HeadError::Method)
            &&& parts.len() == 3 && is_method(parts[0]) && parts[2] != "HTTP/1.0"@ && parts[2]
                != "HTTP/1.1"@ ==> request_of_text(head) == Err::<RequestView, HeadError>(
                HeadError::Version,
            )
        }),
{
}

/// A head with a byte that is not ASCII is refused, and every other one is read as the
/// characters of its bytes.
pub proof fn law_heads_are_ascii(head: Seq<u8>, i: int)
    requires
        0 <= i < head.len(),
    ensures
        head[i] >= 0x80 ==> request_of(head) == Err::<RequestView, HeadError>(HeadError::NonAscii),
        (forall|k: int| 0 <= k < head.len() ==> #[trigger] head[k] < 0x80) ==> request_of(head)
            == request_of_text(latin(head)),
        latin(head).len() == head.len(),
        latin(head)[i] as u32 == head[i],
{
}

/// A request denotes what it holds.
pub proof fn law_request_denotes_itself(r: Request)
    ensures
        r@.method == r.method@,
        r@.path == r.path@,
        r@.params == r.params@,
        r@.raw_query == r.raw_query@,
        r@.headers == r.headers@,
        r@.content_length == r.content_length,
        r@.body_consumed == r.body_consumed,
        r@.keep_alive == r.keep_alive,
{
}

/// A parameter says yes with `true` and `1` and no with `false` and `0`; whatever else it
/// says, or when it is not there, the default holds.
pub proof fn law_yes_and_no_parameters(
    params: Seq<(Seq<char>, Seq<char>)>,
    key: Seq<char>,
    default: bool,
)
    ensures
        strmap::lookup(params, key) == Some("true"@) ==> bool_param_of(params, key, default),
        strmap::lookup(params, key) == Some("1"@) ==> bool_param_of(params, key, default),
        strmap::lookup(params, key) == Some("false"@) ==> !bool_param_of(params, key, default),
        strmap::lookup(params, key) == Some("0"@) ==> !bool_param_of(params, key, default),
        strmap::lookup(params, key) is None ==> bool_param_of(params, key, default) == default,
        strmap::lookup(params, key) matches Some(v) ==> v != "true"@ && v != "1"@ && v != "false"@ && v
            != "0"@ ==> bool_param_of(params, key, default) == default,
{
    reveal_strlit("true");
    reveal_strlit("false");
    reveal_strlit("1");
    reveal_strlit("0");
    assert("true"@.len() == 4 && "false"@.len() == 5 && "1"@.len() == 1 && "0"@.len() == 1);
    assert("1"@[0] != "0"@[0]);
}

/// A parameter that holds a number is read as that number, up to the largest one that is
/// asked for; one that is missing, larger or no number is read as nothing.
pub proof fn law_number_parameters(
    params: Seq<(Seq<char>, Seq<char>)>,
    key: Seq<char>,
    n: nat,
    base: nat,
    max: nat,
)
    requires
        2 <= base <= 16,
    ensures
        strmap::lookup(params, key) is None ==> number_param_of(params, key, base, max) is None,
        strmap::lookup(params, key) == Some(number::numeral(n, base)) && n <= max ==> number_param_of(
            params,
            key,
            base,
            max,
        ) == Some(n),
        strmap::lookup(params, key) == Some(number::numeral(n, base)) && n > max ==> number_param_of(
            params,
            key,
            base,
            max,
        ) is None,
        strmap::lookup(params, key) matches Some(v) ==> number_param_of(params, key, base, max)
            == number::read_unsigned(v, base, max),
{
    number::law_numeral_reads_back(n, base, n);
    assert(number::numeral(n, base).len() > 0);
    assert(number::all_digits(number::numeral(n, base), base));
    assert(number::digit_worth(number::numeral(n, base)[0]) < base);
}

/// Each refusal of a head has its own message.
pub proof fn law_refusals_have_their_messages()
    ensures
        HeadError::NonAscii.text() == "non-ASCII byte in request head"@,
        HeadError::RequestLine.text() == "request line must be exactly 'METHOD TARGET VERSION'"@,
        HeadError::Method.text() == "bad method"@,
        HeadError::Version.text() == "unsupported HTTP version"@,
        HeadError::TooManyHeaders.text() == "too many headers"@,
        HeadError::Folding.text() == "obsolete line folding is not supported"@,
        HeadError::NoColon.text() == "header line without a colon"@,
        HeadError::HeaderName.text() == "bad header name"@,
        HeadError::HeaderNameCharacter.text() == "illegal character in header name"@,
        HeadError::ConflictingHeader.text() == "conflicting duplicate header"@,
        HeadError::BothFramings.text() == "Content-Length and Transfer-Encoding must not both be present"@,
        HeadError::MalformedLength.text() == "malformed Content-Length"@,
        HeadError::LengthOutOfRange.text() == "Content-Length out of range"@,
        BodyError::TooLarge.text() == "body too large"@,
        BodyError::Eof.text() == "eof in request body"@,
        BodyError::DrainTooLarge.text() == "undrained body too large; closing"@,
        ReadError::TimedOut.text() == Some("timed out reading the request head"@),
        ReadError::EofInHead.text() == Some("eof in request head"@),
        ReadError::TooLarge.text() == Some("request head too large"@),
        forall|k: IoKind| (#[trigger] ReadError::Io(k).text()) is None,
        forall|e: HeadError| (#[trigger] ReadError::Head(e).text()) == Some(e.text()),
        ReadError::TimedOut.kind_of() == IoKind::TimedOut,
        ReadError::EofInHead.kind_of() == IoKind::UnexpectedEof,
        ReadError::TooLarge.kind_of() == IoKind::InvalidData,
        forall|k: IoKind| (#[trigger] ReadError::Io(k).kind_of()) == k,
        forall|e: HeadError| (#[trigger] ReadError::Head(e).kind_of()) == IoKind::InvalidData,
{
}

/// A head is complete as soon as its last four bytes are two line ends, and not before; one of
/// more than 64 KiB is refused.
pub proof fn law_head_ends_with_an_empty_line(bytes: Seq<u8>)
    ensures
        bytes.len() + 4 <= 65536 ==> progress(bytes + seq![13u8, 10, 13, 10]) == HeadStep::Complete,
        bytes.len() <= 65536 && (bytes.len() < 4 || bytes.skip(bytes.len() - 4) != seq![
            13u8,
            10,
            13,
            10,
        ]) ==> progress(bytes) == HeadStep::More,
        bytes.len() > 65536 ==> progress(bytes) == HeadStep::Failed(ReadError::TooLarge),
        MAX_HEADER_BYTES == 64 * 1024,
        MAX_HEADERS == 100,
        HEAD_TIMEOUT_SECS == 10,
        BODY_TIMEOUT_SECS == 60,
        WRITE_TIMEOUT_SECS == 120,
        BODY_CHUNK == 64 * 1024,
        MAX_DRAIN_BYTES == 1024 * 1024,
{
    if bytes.len() >= 4 && ends_head(bytes) {
        assert(bytes.skip(bytes.len() - 4) =~= seq![13u8, 10, 13, 10]);
    }
}

/// A body is asked for in parts of at most 64 KiB, never more than is left of it, and
/// something as long as anything is left.
pub proof fn law_body_is_asked_for_in_parts(left: int)
    requires
        left >= 0,
    ensures
        left <= 65536 ==> ask_for(left) == left,
        left > 65536 ==> ask_for(left) == 65536,
{
}

/// A head that is made of bytes without an empty line has all of them in front, as many as
/// fit, and behind them only what is missing of one.
pub proof fn law_shaped_head_keeps_its_bytes(data: Seq<u8>)
    requires
        text::find(latin(data), empty_line()) is None,
    ensures
        data.len() <= 65532 ==> head_in(data).len() <= data.len() + 4 && data.len() < head_in(data).len()
            && head_in(data).take(data.len() as int) == data,
        data.len() > 65532 ==> 65532 < head_in(data).len() && head_in(data).take(65532) == data.take(
            65532,
        ),
{
    let n: int = if data.len() <= 65532 {
        data.len() as int
    } else {
        65532
    };
    let cut = data.take(n);
    assert(head_in(data) == closed_off(cut));
    assert(0 <= begun(cut) <= 3);
    assert(head_in(data).take(n) =~= cut);
    if data.len() <= 65532 {
        assert(cut =~= data);
    }
}

/// The empty line at the end of a head does not count, and without one the lines are what
/// stands between the line ends.
pub proof fn law_lines_of_a_head(head: Seq<char>)
    ensures
        head_lines(head + empty_line()) == head_lines(head),
        (forall|x: Seq<char>| head != #[trigger] (x + empty_line())) ==> head_lines(head)
            == text::split(head, seq!['\r', '\n']),
        empty_line() == seq!['\r', '\n', '\r', '\n'],
{
    text::law_trim_drops_the_end_alone(head, empty_line());
}

/// Whatever its lines are, a head whose first line has a method, a target and a version of the
/// two is the request that this line and the headers behind it say, or is refused as they are.
pub proof fn law_head_is_read_by_its_lines(head: Seq<char>)
    requires
        text::split(head_lines(head)[0], seq![' ']).len() == 3,
        is_method(text::split(head_lines(head)[0], seq![' '])[0]),
        text::split(head_lines(head)[0], seq![' '])[2] == "HTTP/1.1"@ || text::split(
            head_lines(head)[0],
            seq![' '],
        )[2] == "HTTP/1.0"@,
    ensures
        ({
            let parts = text::split(head_lines(head)[0], seq![' ']);
            let h = headers_of(head_lines(head).skip(1));
            let r = request_of_text(head);
            &&& h is Err ==> r == Err::<RequestView, HeadError>(h->Err_0)
            &&& h is Ok && body_length(h->Ok_0) is Err ==> r == Err::<RequestView, HeadError>(
                body_length(h->Ok_0)->Err_0,
            )
            &&& h is Ok && body_length(h->Ok_0) is Ok ==> r is Ok && r->Ok_0.method == text::upper(
                parts[0],
            ) && r->Ok_0.path == target_parts(parts[1]).0 && r->Ok_0.raw_query == target_parts(
                parts[1],
            ).1 && r->Ok_0.headers == h->Ok_0 && r->Ok_0.content_length == body_length(h->Ok_0)->Ok_0
                && r->Ok_0.body_consumed == 0 && r->Ok_0.keep_alive == stays_open(h->Ok_0, parts[2])
                && r->Ok_0.params == params_of(text::split(target_parts(parts[1]).1, seq!['&']))
        }),
{
}

} // verus!
