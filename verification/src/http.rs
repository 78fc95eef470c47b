//! The two ends of an HTTP `GET`: the bytes of the request, and what the
//! head of the response says.

use crate::wire::{append, copy_range, same_bytes};
use vstd::prelude::*;
use vstd::string::StringSliceAdditionalSpecFns;

verus! {

/// A header: its name, and its value with all ASCII whitespace taken out.
pub type Header = (Vec<u8>, Vec<u8>);

/// A query parameter: its name and its value, not yet encoded.
pub type Parameter = (Vec<u8>, Vec<u8>);

/// A response.
#[derive(Debug)]
pub struct Response {
    pub status: u32,
    pub content: Vec<u8>,
    pub headers: Vec<Header>,
}

/// What the head of a response says.
#[derive(Debug, PartialEq)]
pub struct ResponseHead {
    pub status: u32,
    /// The length of the body, if the head gives it; if not, the body runs
    /// to the end of the connection.
    pub content_length: Option<usize>,
    /// The headers in the order in which they came. Of two with the same
    /// name the later one counts.
    pub headers: Vec<Header>,
}

/// Why the head of a response was turned down.
#[derive(Clone, Copy, Debug, PartialEq, Eq, Structural)]
pub enum HttpError {
    /// Neither a status line nor a `Content-Length`.
    NoContentLength,
    /// A `Content-Length`, and no status line.
    NoStatus,
    /// A `Content-Length` that is not a number that fits.
    BadContentLength,
}

/// Whether a byte goes into a URL as it is: letters, digits, `-`, `.`,
/// `_` and `~`.
pub open spec fn unreserved(b: u8) -> bool {
    (0x30 <= b <= 0x39) || (0x41 <= b <= 0x5a) || (0x61 <= b <= 0x7a) || b == 0x2d || b == 0x2e || b == 0x5f || b
        == 0x7e
}

/// The upper-case hexadecimal digit for `n`.
pub open spec fn hex_digit(n: u8) -> u8 {
    if n < 10 {
        (0x30 + n) as u8
    } else {
        (0x41 - 10 + n) as u8
    }
}

/// A byte as it goes into a URL: itself, or `%` and its two hexadecimal
/// digits.
pub open spec fn percent_encoded_byte(b: u8) -> Seq<u8> {
    if unreserved(b) {
        seq![b]
    } else {
        seq![0x25u8, hex_digit(b >> 4), hex_digit(b & 15)]
    }
}

/// Bytes as they go into a URL.
pub open spec fn percent_encoded(data: Seq<u8>) -> Seq<u8>
    decreases data.len(),
{
    if data.len() == 0 {
        Seq::empty()
    } else {
        percent_encoded(data.drop_last()) + percent_encoded_byte(data.last())
    }
}

/// `urlencoding::encode_binary`: every byte but letters, digits, `-`, `.`,
/// `_` and `~` becomes `%` and two upper-case hexadecimal digits.
#[verifier::external_body]
fn percent_encode(data: &[u8]) -> (r: Vec<u8>)
    ensures
        r@ == percent_encoded(data@),
{
    urlencoding::encode_binary(data).into_owned().into_bytes()
}

/// The query string of the first `k` parameters: `?` before the first and
/// `&` before each other, then name, `=` and value, both encoded.
pub open spec fn query_of(parameters: Seq<Parameter>, k: int) -> Seq<u8>
    decreases k,
{
    if k <= 0 {
        Seq::empty()
    } else {
        query_of(parameters, k - 1) + seq![if k == 1 { 0x3fu8 } else { 0x26u8 }] + percent_encoded(
            parameters[k - 1].0@,
        ) + seq![0x3du8] + percent_encoded(parameters[k - 1].1@)
    }
}

/// The request for `path` on `host` with the given query parameters.
pub open spec fn request_of(path: Seq<u8>, host: Seq<u8>, parameters: Seq<Parameter>) -> Seq<u8> {
    "GET ".spec_bytes() + path + query_of(parameters, parameters.len() as int) + " HTTP/1.1\r\n".spec_bytes()
        + "Host: ".spec_bytes() + host + "\r\n".spec_bytes() + "\r\n".spec_bytes()
}

/// The bytes of a `GET` request: the request line with the path and the
/// encoded query, the `Host` header, and the blank line.
pub fn request(path: &[u8], host: &[u8], parameters: &Vec<Parameter>) -> (r: Vec<u8>)
    ensures
        r@ == request_of(path@, host@, parameters@),
{
    let mut buf: Vec<u8> = Vec::new();
    append(&mut buf, "GET ".as_bytes());
    append(&mut buf, path);
    let ghost base = buf@;
    let mut k: usize = 0;
    assert(buf@ =~= base + query_of(parameters@, 0));
    while k < parameters.len()
        invariant
            k <= parameters@.len(),
            buf@ == base + query_of(parameters@, k as int),
        decreases parameters@.len() - k,
    {
        buf.push(if k == 0 { 0x3fu8 } else { 0x26u8 });
        let name = percent_encode(parameters[k].0.as_slice());
        append(&mut buf, name.as_slice());
        buf.push(0x3du8);
        let value = percent_encode(parameters[k].1.as_slice());
        append(&mut buf, value.as_slice());
        k += 1;
        assert(buf@ =~= base + query_of(parameters@, k as int));
    }
    append(&mut buf, " HTTP/1.1\r\n".as_bytes());
    append(&mut buf, "Host: ".as_bytes());
    append(&mut buf, host);
    append(&mut buf, "\r\n".as_bytes());
    append(&mut buf, "\r\n".as_bytes());
    assert(buf@ =~= request_of(path@, host@, parameters@));
    buf
}

/// Whether a byte is ASCII whitespace: space, tab, line feed, vertical
/// tab, form feed or carriage return.
pub open spec fn is_space(b: u8) -> bool {
    b == 0x20 || (0x09 <= b <= 0x0d)
}

/// The bytes of `s` that are not ASCII whitespace, in their order.
pub open spec fn stripped(s: Seq<u8>) -> Seq<u8>
    decreases s.len(),
{
    if s.len() == 0 {
        s
    } else if is_space(s.last()) {
        stripped(s.drop_last())
    } else {
        stripped(s.drop_last()).push(s.last())
    }
}

/// Takes every ASCII whitespace byte out of `s`, wherever it stands.
pub fn strip_leading_whitespace(s: &mut Vec<u8>)
    ensures
        final(s)@ == stripped(old(s)@),
{
    let mut out: Vec<u8> = Vec::new();
    let mut i: usize = 0;
    assert(s@.take(0) =~= Seq::<u8>::empty());
    while i < s.len()
        invariant
            i <= s@.len(),
            s@ == old(s)@,
            out@ == stripped(s@.take(i as int)),
        decreases s@.len() - i,
    {
        assert(s@.take(i + 1).drop_last() =~= s@.take(i as int));
        let b = s[i];
        if !(b == 0x20 || (0x09 <= b && b <= 0x0d)) {
            out.push(b);
        }
        i += 1;
    }
    assert(s@.take(i as int) =~= s@);
    *s = out;
}

/// Whether a byte is an ASCII digit.
pub open spec fn is_digit(b: u8) -> bool {
    0x30 <= b <= 0x39
}

/// The number of bytes that the character starting with `lead` takes in
/// UTF-8.
pub open spec fn char_width(lead: u8) -> int {
    if 0xc0 <= lead <= 0xdf {
        2
    } else if 0xe0 <= lead <= 0xef {
        3
    } else if 0xf0 <= lead <= 0xf7 {
        4
    } else {
        1
    }
}

/// The status that a line of the head gives: the three digits after
/// `HTTP/1`, one character of any kind, `1` or `0`, and a space.
pub open spec fn status_in(line: Seq<u8>) -> Option<u32> {
    if line.len() < 7 {
        None
    } else {
        let at = 6 + char_width(line[6]);
        if line.len() >= at + 5 && line.subrange(0, 6) == "HTTP/1".spec_bytes() && (line[at] == 0x31 || line[at]
            == 0x30) && line[at + 1] == 0x20 && is_digit(line[at + 2]) && is_digit(line[at + 3]) && is_digit(
            line[at + 4],
        ) {
            Some(((line[at + 2] - 0x30) * 100 + (line[at + 3] - 0x30) * 10 + (line[at + 4] - 0x30)) as u32)
        } else {
            None
        }
    }
}

/// Whether `line` holds a colon.
pub open spec fn has_colon(line: Seq<u8>) -> bool {
    exists|i: int| 0 <= i < line.len() && #[trigger] line[i] == 0x3a
}

/// The place of the first colon in `line`.
pub open spec fn colon_index(line: Seq<u8>) -> int {
    choose|i: int| 0 <= i < line.len() && #[trigger] line[i] == 0x3a && forall|j: int| 0 <= j < i ==> line[j] != 0x3a
}

/// The header that a line of the head gives: the name before the first
/// colon, and after it the value, with its whitespace taken out.
pub open spec fn header_in(line: Seq<u8>) -> Option<(Seq<u8>, Seq<u8>)> {
    if has_colon(line) {
        let i = colon_index(line);
        Some((line.subrange(0, i), stripped(line.subrange(i + 1, line.len() as int))))
    } else {
        None
    }
}

/// The status that the first `k` lines give: that of the last line that
/// gives one.
pub open spec fn status_of(lines: Seq<Vec<u8>>, k: int) -> Option<u32>
    decreases k,
{
    if k <= 0 {
        None
    } else {
        match status_in(lines[k - 1]@) {
            Some(status) => Some(status),
            None => status_of(lines, k - 1),
        }
    }
}

/// The headers that the first `k` lines give, in order.
pub open spec fn headers_of(lines: Seq<Vec<u8>>, k: int) -> Seq<(Seq<u8>, Seq<u8>)>
    decreases k,
{
    if k <= 0 {
        Seq::empty()
    } else {
        match header_in(lines[k - 1]@) {
            Some(header) => headers_of(lines, k - 1).push(header),
            None => headers_of(lines, k - 1),
        }
    }
}

/// The value of the last of the first `k` headers with the name `name`.
pub open spec fn lookup(headers: Seq<(Seq<u8>, Seq<u8>)>, name: Seq<u8>, k: int) -> Option<Seq<u8>>
    decreases k,
{
    if k <= 0 {
        None
    } else if headers[k - 1].0 == name {
        Some(headers[k - 1].1)
    } else {
        lookup(headers, name, k - 1)
    }
}

/// The number that decimal digits stand for.
pub open spec fn decimal_value(digits: Seq<u8>) -> int
    decreases digits.len(),
{
    if digits.len() == 0 {
        0
    } else {
        decimal_value(digits.drop_last()) * 10 + (digits.last() - 0x30)
    }
}

/// Whether all the bytes are ASCII digits.
pub open spec fn all_digits(s: Seq<u8>) -> bool {
    forall|i: int| 0 <= i < s.len() ==> is_digit(#[trigger] s[i])
}

/// The number that `s` stands for: one or more decimal digits, with `+`
/// before them or not, that do not go beyond `usize`.
pub open spec fn parsed_length(s: Seq<u8>) -> Option<usize> {
    let digits = if s.len() > 0 && s[0] == 0x2b {
        s.skip(1)
    } else {
        s
    };
    if digits.len() > 0 && all_digits(digits) && decimal_value(digits) <= usize::MAX {
        Some(decimal_value(digits) as usize)
    } else {
        None
    }
}

/// The headers as mathematical values.
pub open spec fn header_views(headers: Seq<Header>) -> Seq<(Seq<u8>, Seq<u8>)> {
    Seq::new(headers.len(), |i: int| (headers[i].0@, headers[i].1@))
}

/// What the lines of a head say, or why they are turned down.
pub open spec fn head_of(lines: Seq<Vec<u8>>) -> Result<(u32, Option<usize>, Seq<(Seq<u8>, Seq<u8>)>), HttpError> {
    let headers = headers_of(lines, lines.len() as int);
    let status = status_of(lines, lines.len() as int);
    let length = lookup(headers, "Content-Length".spec_bytes(), headers.len() as int);
    if length is Some && parsed_length(length->Some_0) is None {
        Err(HttpError::BadContentLength)
    } else if status is None {
        if length is None {
            Err(HttpError::NoContentLength)
        } else {
            Err(HttpError::NoStatus)
        }
    } else if length is Some {
        Ok((status->Some_0, parsed_length(length->Some_0), headers))
    } else {
        Ok((status->Some_0, None, headers))
    }
}

proof fn lemma_decimal_grows(s: Seq<u8>, k: int)
    requires
        all_digits(s),
        0 <= k <= s.len(),
    ensures
        0 <= decimal_value(s.take(k)) <= decimal_value(s),
    decreases s.len() - k,
{
    if k < s.len() {
        lemma_decimal_grows(s, k + 1);
        assert(s.take(k + 1).drop_last() =~= s.take(k));
        lemma_decimal_nonneg(s.take(k));
    } else {
        assert(s.take(k) =~= s);
        lemma_decimal_nonneg(s);
    }
}

proof fn lemma_decimal_nonneg(s: Seq<u8>)
    requires
        all_digits(s),
    ensures
        0 <= decimal_value(s),
    decreases s.len(),
{
    if s.len() > 0 {
        lemma_decimal_nonneg(s.drop_last());
    }
}

fn status_line(line: &[u8]) -> (r: Option<u32>)
    ensures
        r == status_in(line@),
{
    if line.len() < 7 {
        return None;
    }
    let lead = line[6];
    let width: usize = if 0xc0 <= lead && lead <= 0xdf {
        2
    } else if 0xe0 <= lead && lead <= 0xef {
        3
    } else if 0xf0 <= lead && lead <= 0xf7 {
        4
    } else {
        1
    };
    let at = 6 + width;
    if line.len() < at + 5 {
        return None;
    }
    let start = vstd::slice::slice_subrange(line, 0, 6);
    if !same_bytes(start, "HTTP/1".as_bytes()) {
        return None;
    }
    if !(line[at] == 0x31 || line[at] == 0x30) || line[at + 1] != 0x20 {
        return None;
    }
    let (a, b, c) = (line[at + 2], line[at + 3], line[at + 4]);
    if !(0x30 <= a && a <= 0x39 && 0x30 <= b && b <= 0x39 && 0x30 <= c && c <= 0x39) {
        return None;
    }
    Some((a - 0x30) as u32 * 100 + (b - 0x30) as u32 * 10 + (c - 0x30) as u32)
}

fn header_line(line: &[u8]) -> (r: Option<Header>)
    ensures
        r is Some <==> header_in(line@) is Some,
        r matches Some(h) ==> (h.0@, h.1@) == header_in(line@)->Some_0,
{
    let mut i: usize = 0;
    while i < line.len()
        invariant
            i <= line@.len(),
            forall|j: int| 0 <= j < i ==> line@[j] != 0x3a,
        decreases line@.len() - i,
    {
        if line[i] == 0x3a {
            let name = copy_range(line, 0, i);
            let mut value = copy_range(line, i + 1, line.len());
            strip_leading_whitespace(&mut value);
            proof {
                let c = colon_index(line@);
                assert(c == i);
            }
            return Some((name, value));
        }
        i += 1;
    }
    None
}

fn parse_length(s: &[u8]) -> (r: Option<usize>)
    ensures
        r == parsed_length(s@),
{
    let start: usize = if s.len() > 0 && s[0] == 0x2b {
        1
    } else {
        0
    };
    let ghost digits = if s@.len() > 0 && s@[0] == 0x2b {
        s@.skip(1)
    } else {
        s@
    };
    assert(digits =~= s@.skip(start as int));
    if s.len() == start {
        return None;
    }
    let mut value: usize = 0;
    let mut i: usize = start;
    assert(digits.take(0) =~= Seq::<u8>::empty());
    while i < s.len()
        invariant
            start <= i <= s@.len(),
            start < s@.len(),
            digits == s@.skip(start as int),
            digits == (if s@.len() > 0 && s@[0] == 0x2b {
                s@.skip(1)
            } else {
                s@
            }),
            all_digits(digits.take(i - start)),
            value == decimal_value(digits.take(i - start)),
        decreases s@.len() - i,
    {
        let b = s[i];
        assert(digits[i - start] == b);
        if !(0x30 <= b && b <= 0x39) {
            assert(!all_digits(digits));
            return None;
        }
        let d = (b - 0x30) as usize;
        proof {
            assert(digits.take(i + 1 - start).drop_last() =~= digits.take(i - start));
            assert(all_digits(digits.take(i + 1 - start))) by {
                assert forall|j: int| 0 <= j < i + 1 - start implies is_digit(#[trigger] digits.take(i + 1 - start)[j]) by {
                    if j < i - start {
                        assert(digits.take(i - start)[j] == digits.take(i + 1 - start)[j]);
                    }
                }
            }
        }
        assert(digits.take(i + 1 - start).last() == b);
        assert(decimal_value(digits.take(i + 1 - start)) == value * 10 + d);
        if value > (usize::MAX - d) / 10 {
            proof {
                if all_digits(digits) {
                    lemma_decimal_grows(digits, i + 1 - start);
                }
            }
            return None;
        }
        value = value * 10 + d;
        i += 1;
    }
    proof {
        assert(digits.take(i - start) =~= digits);
    }
    Some(value)
}

fn find_header<'a>(headers: &'a Vec<Header>, name: &[u8]) -> (r: Option<&'a [u8]>)
    ensures
        r is Some <==> lookup(header_views(headers@), name@, headers@.len() as int) is Some,
        r matches Some(v) ==> v@ == lookup(header_views(headers@), name@, headers@.len() as int)->Some_0,
{
    let mut k: usize = headers.len();
    while k > 0
        invariant
            k <= headers@.len(),
            lookup(header_views(headers@), name@, headers@.len() as int) == lookup(
                header_views(headers@),
                name@,
                k as int,
            ),
        decreases k,
    {
        if same_bytes(headers[k - 1].0.as_slice(), name) {
            return Some(headers[k - 1].1.as_slice());
        }
        k -= 1;
    }
    None
}

impl ResponseHead {
    /// Reads the head of a response from its lines, the blank line that
    /// ends it left out.
    ///
    /// The status is that of the last status line. A line with a colon is
    /// a header. The head is turned down if it has no status line, or a
    /// `Content-Length` that is not a number.
    pub fn parse(lines: &Vec<Vec<u8>>) -> (r: Result<ResponseHead, HttpError>)
        ensures
            match r {
                Ok(head) => head_of(lines@) == Ok::<(u32, Option<usize>, Seq<(Seq<u8>, Seq<u8>)>), HttpError>(
                    (head.status, head.content_length, header_views(head.headers@)),
                ),
                Err(e) => head_of(lines@) == Err::<(u32, Option<usize>, Seq<(Seq<u8>, Seq<u8>)>), HttpError>(e),
            },
    {
        let mut status: Option<u32> = None;
        let mut headers: Vec<Header> = Vec::new();
        let mut k: usize = 0;
        assert(header_views(headers@) =~= headers_of(lines@, 0));
        while k < lines.len()
            invariant
                k <= lines@.len(),
                status == status_of(lines@, k as int),
                header_views(headers@) == headers_of(lines@, k as int),
            decreases lines@.len() - k,
        {
            let line = lines[k].as_slice();
            match status_line(line) {
                Some(found) => {
                    status = Some(found);
                },
                None => {},
            }
            match header_line(line) {
                Some(header) => {
                    let ghost before = header_views(headers@);
                    let ghost view = (header.0@, header.1@);
                    headers.push(header);
                    assert(header_views(headers@) =~= before.push(view));
                },
                None => {},
            }
            k += 1;
        }
        let length = match find_header(&headers, "Content-Length".as_bytes()) {
            Some(value) => match parse_length(value) {
                Some(n) => Some(n),
                None => {
                    return Err(HttpError::BadContentLength);
                },
            },
            None => None,
        };
        match status {
            None => if length.is_none() {
                Err(HttpError::NoContentLength)
            } else {
                Err(HttpError::NoStatus)
            },
            Some(status) => Ok(ResponseHead { status, content_length: length, headers }),
        }
    }
}

} // verus!
