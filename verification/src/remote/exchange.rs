//! What the HTTP backends ask of a server and make of its replies.
//!
//! A request is a plain value: whoever can reach the network sends it, and hands the
//! status, the headers and the body of the reply back.
use vstd::prelude::*;
use vstd::string::*;

use crate::stream_cache;
use crate::stream_cache::range_header;
use crate::text;

verus! {

/// An HTTP request.
#[derive(Debug)]
pub struct HttpRequest {
    pub method: &'static str,
    pub url: String,
    pub headers: Vec<(&'static str, String)>,
    pub body: Option<&'static str>,
    /// User name and password for basic authentication.
    pub basic_auth: Option<(String, String)>,
}

/// What an [`HttpRequest`] says.
#[verifier::ext_equal]
pub struct RequestView {
    pub method: Seq<char>,
    pub url: Seq<char>,
    pub headers: Seq<(Seq<char>, Seq<char>)>,
    pub body: Option<Seq<char>>,
    pub basic_auth: Option<(Seq<char>, Seq<char>)>,
}

impl View for HttpRequest {
    type V = RequestView;

    open spec fn view(&self) -> RequestView {
        RequestView {
            method: self.method@,
            url: self.url@,
            headers: Seq::new(
                self.headers@.len(),
                |i: int| (self.headers@[i].0@, self.headers@[i].1@),
            ),
            body: match self.body {
                Some(b) => Some(b@),
                None => None,
            },
            basic_auth: match self.basic_auth {
                Some((user, password)) => Some((user@, password@)),
                None => None,
            },
        }
    }
}

/// A request without a body, and with a `Range` header where `range` says which
/// bytes it asks for.
pub open spec fn plain_request(
    method: Seq<char>,
    url: Seq<char>,
    range: Option<(u64, u64)>,
    basic_auth: Option<(Seq<char>, Seq<char>)>,
) -> RequestView {
    RequestView {
        method,
        url,
        headers: match range {
            Some((start, end)) => seq![("Range"@, stream_cache::range_text(start, end))],
            None => Seq::empty(),
        },
        body: None,
        basic_auth,
    }
}

/// A request without a body, and with a `Range` header where `range` says which
/// bytes it asks for.
pub fn request(
    method: &'static str,
    url: String,
    range: Option<(u64, u64)>,
    basic_auth: Option<(String, String)>,
) -> (r: HttpRequest)
    ensures
        r@ == plain_request(
            method@,
            url@,
            range,
            match basic_auth {
                Some((user, password)) => Some((user@, password@)),
                None => None,
            },
        ),
{
    let mut headers: Vec<(&'static str, String)> = Vec::new();
    match range {
        Some((start, end)) => {
            headers.push(("Range", range_header(start, end)));
        },
        None => {},
    }
    HttpRequest { method, url, headers, body: None, basic_auth }
}

/// How a status is written out, as in `404 Not Found`.
pub uninterp spec fn status_text(code: u16) -> Seq<char>;

/// `reqwest::StatusCode`, made from a number and written out: the number, a space and
/// a reason that depends on the number alone. A number outside the admitted range has
/// no status.
#[verifier::external_body]
pub(crate) fn status_line(code: u16) -> (r: String)
    requires
        100 <= code <= 999,
    ensures
        r@ == status_text(code),
        text::starts_with(r@, text::decimal(code as nat).push(' ')),
{
    reqwest::StatusCode::from_u16(code).unwrap().to_string()
}

/// The reply says that the request succeeded.
pub open spec fn succeeded(status: u16) -> bool {
    200 <= status < 300
}

/// Whether the reply says that the request succeeded.
pub fn is_success(status: u16) -> (r: bool)
    ensures
        r == succeeded(status),
{
    200 <= status && status < 300
}

/// The smaller of a position and a length.
pub open spec fn clamped(pos: int, len: nat) -> int {
    if pos < len {
        pos
    } else {
        len as int
    }
}

/// The bytes `[start, end]` of a file, as far as it goes, from the body of a
/// successful reply: a server that ignores `Range` answers 200 with the whole file,
/// any other reply holds the range itself.
pub open spec fn range_of(status: u16, body: Seq<u8>, start: u64, end: u64) -> Seq<u8> {
    if status == 200 {
        body.subrange(clamped(start as int, body.len()), clamped(end + 1, body.len()))
    } else {
        body
    }
}

/// The bytes `[start, end]` from the body of a successful reply. A server that
/// ignores `Range` answers 200 with the whole file; it is sliced here rather than
/// handing the player the wrong bytes.
pub fn range_reply(status: u16, body: Vec<u8>, start: u64, end: u64) -> (r: Vec<u8>)
    requires
        status == 200 ==> start <= end < u64::MAX,
    ensures
        r@ == range_of(status, body@, start, end),
{
    if status != 200 {
        return body;
    }
    let n: usize = body.len();
    let from: usize = if start < n as u64 {
        start as usize
    } else {
        n
    };
    let to: usize = if end + 1 < n as u64 {
        (end + 1) as usize
    } else {
        n
    };
    let mut r: Vec<u8> = Vec::new();
    let mut i: usize = from;
    while i < to
        invariant
            from <= i <= to <= n,
            n == body@.len(),
            r@ == body@.subrange(from as int, i as int),
        decreases to - i,
    {
        r.push(body[i]);
        i = i + 1;
        assert(r@ =~= body@.subrange(from as int, i as int));
    }
    r
}

/// The size that a `Content-Length` header reports, where it is there and readable.
pub fn size_from_header(content_length: Option<&str>) -> (r: Option<u64>)
    ensures
        r == match content_length {
            Some(v) => text::parse_decimal(v@),
            None => None,
        },
{
    match content_length {
        Some(v) => text::parse_u64(v),
        None => None,
    }
}

/// A reply that ignores the range and one that heeds it yield the same bytes: those of
/// the range, as far as the file has them.
pub proof fn law_range_or_whole(file: Seq<u8>, start: u64, end: u64)
    requires
        start <= end,
        start <= file.len(),
    ensures
        ({
            let there = file.subrange(start as int, clamped(end + 1, file.len()));
            &&& range_of(200, file, start, end) == there
            &&& range_of(206, there, start, end) == there
        }),
{
}

/// A request carries what it was made with. Where it asks for a range of bytes it has one header,
/// which reads as that range; otherwise it has none.
pub proof fn law_request(
    method: Seq<char>,
    url: Seq<char>,
    range: Option<(u64, u64)>,
    basic_auth: Option<(Seq<char>, Seq<char>)>,
)
    ensures
        ({
            let r = plain_request(method, url, range, basic_auth);
            &&& r.method == method
            &&& r.url == url
            &&& r.basic_auth == basic_auth
            &&& r.body is None
            &&& match range {
                Some((start, end)) => r.headers.len() == 1 && r.headers[0].0 == "Range"@
                    && stream_cache::requested_range(Some(r.headers[0].1)) == (start, Some(end)),
                None => r.headers.len() == 0,
            }
        }),
{
    match range {
        Some((start, end)) => {
            stream_cache::law_range_header_round_trip(start, end);
        },
        None => {},
    }
}

/// Of a whole file, a range has the bytes from its first to its last, as far as the file goes, each
/// in its place; any other successful reply is the range itself.
pub proof fn law_range_of(status: u16, body: Seq<u8>, start: u64, end: u64, k: int)
    requires
        start <= end,
    ensures
        ({
            let bytes = range_of(200, body, start, end);
            &&& start >= body.len() ==> bytes.len() == 0
            &&& start < body.len() <= end ==> bytes.len() == body.len() - start
            &&& end < body.len() ==> bytes.len() == end - start + 1
            &&& 0 <= k < bytes.len() ==> bytes[k] == body[start + k]
        }),
        status != 200 ==> range_of(status, body, start, end) == body,
{
}

/// The replies that say a request succeeded are those of the two hundreds.
pub proof fn law_succeeded(status: u16)
    ensures
        succeeded(status) <==> status / 100 == 2,
{
}

/// A request says what its fields hold.
pub proof fn law_requests_say_what_they_hold(r: HttpRequest, i: int)
    ensures
        r@.method == r.method@,
        r@.url == r.url@,
        r@.headers.len() == r.headers@.len(),
        0 <= i < r.headers@.len() ==> r@.headers[i] == (r.headers@[i].0@, r.headers@[i].1@),
        r.body matches Some(b) ==> r@.body == Some(b@),
        r.body is None <==> r@.body is None,
        r.basic_auth matches Some(auth) ==> r@.basic_auth == Some((auth.0@, auth.1@)),
        r.basic_auth is None <==> r@.basic_auth is None,
{
}

} // verus!
