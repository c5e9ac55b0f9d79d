//! `gdrive://` URI scheme — streams Google Drive videos with seeking.
//!
//! All the streaming smarts (block cache, in-flight de-dup, read-ahead) live in
//! [`crate::stream_cache`]; this module only knows how to talk to the Drive API: file
//! metadata for size/type, and `files.get?alt=media` with a Range header for the bytes.
use vstd::prelude::*;
use vstd::string::*;

use crate::percent;
use crate::remote::exchange;
use crate::stream_cache;
use crate::stream_cache::{status_only, StreamResponse};
use crate::text;

verus! {

/// The scheme this module serves.
pub const SCHEME: &'static str = "gdrive";

// =====================================================================
// Which file
// =====================================================================

/// What the path of a request names: the rest after its leading slashes, decoded.
pub open spec fn named(path: Seq<char>) -> Option<Seq<char>> {
    percent::decoded(text::trim_start_char(path, '/'))
}

/// The id of the file that a request is for, from the path of its URI.
pub fn decode_file_id(path: &str) -> (r: Option<String>)
    ensures
        match r {
            Some(id) => named(path@) == Some(id@),
            None => named(path@) is None,
        },
{
    percent::decode(text::trim_start_matches(path, '/'))
}

/// The id of the file that a request is for. A request for none is a bad one.
pub fn requested_file(path: &str) -> (r: Result<String, StreamResponse>)
    ensures
        match r {
            Ok(id) => named(path@) == Some(id@) && id@.len() > 0,
            Err(response) => response@ == stream_cache::bare(400) && (named(path@) matches Some(id)
                ==> id.len() == 0),
        },
{
    match decode_file_id(path) {
        Some(id) => if !id.as_str().is_empty() {
            Ok(id)
        } else {
            Err(status_only(400))
        },
        None => Err(status_only(400)),
    }
}

/// The answer where access has lapsed: the frontend can then offer "Reconnect Google
/// Drive" instead of a generic retry.
pub fn unauthorized() -> (r: StreamResponse)
    ensures
        r@ == stream_cache::bare(401),
{
    status_only(401)
}

/// An id that was percent-encoded into a path names the file.
pub proof fn law_encoded_id_is_named(id: Seq<char>)
    requires
        id.len() > 0,
    ensures
        named("/"@ + percent::encoded(id)) == Some(id),
{
    reveal_strlit("/");
    percent::law_decode_encode(id);
    percent::lemma_encoded_start(id);
    let coded = percent::encoded(id);
    let path = "/"@ + coded;
    assert(path.skip(1) =~= coded);
    reveal_with_fuel(text::trim_start_char, 2);
}

// =====================================================================
// Metadata and blocks
// =====================================================================

/// The address of a file's size and type.
pub fn meta_url(file_id: &str) -> (r: String)
    ensures
        r@ == "https://www.googleapis.com/drive/v3/files/"@ + file_id@
            + "?fields=size,mimeType&supportsAllDrives=true"@,
{
    let mut r: String = "https://www.googleapis.com/drive/v3/files/".to_owned();
    r.append(file_id);
    r.append("?fields=size,mimeType&supportsAllDrives=true");
    r
}

/// The address of a file's bytes.
pub fn media_url(file_id: &str) -> (r: String)
    ensures
        r@ == "https://www.googleapis.com/drive/v3/files/"@ + file_id@
            + "?alt=media&supportsAllDrives=true"@,
{
    let mut r: String = "https://www.googleapis.com/drive/v3/files/".to_owned();
    r.append(file_id);
    r.append("?alt=media&supportsAllDrives=true");
    r
}

/// `serde_json::Value`.
#[verifier::external_type_specification]
#[verifier::external_body]
pub struct ExValue(serde_json::Value);

/// The JSON value that bytes hold, if they hold one.
pub uninterp spec fn json_value(bytes: Seq<u8>) -> Option<serde_json::Value>;

/// The members of a JSON object that are strings; any other value has none.
pub uninterp spec fn text_members(v: serde_json::Value) -> Map<Seq<char>, Seq<char>>;

/// `serde_json::from_slice`: a function of the bytes alone. Which bytes are JSON is left
/// unsaid.
#[verifier::external_body]
fn parse_json(bytes: &Vec<u8>) -> (r: Option<serde_json::Value>)
    ensures
        r == json_value(bytes@),
{
    serde_json::from_slice(bytes).ok()
}

/// `serde_json::Value::get` and `as_str`: the member of that name, if it is a string.
#[verifier::external_body]
fn text_member<'a>(v: &'a serde_json::Value, name: &str) -> (r: Option<&'a str>)
    ensures
        match r {
            Some(s) => text_members(*v).contains_key(name@) && text_members(*v)[name@] == s@,
            None => !text_members(*v).contains_key(name@),
        },
{
    v.get(name).and_then(|m| m.as_str())
}

/// The contents of an optional string.
pub open spec fn opt_str(s: Option<&str>) -> Option<Seq<char>> {
    match s {
        Some(s) => Some(s@),
        None => None,
    }
}

/// A member of a map, if it is there.
pub open spec fn member(m: Map<Seq<char>, Seq<char>>, name: Seq<char>) -> Option<Seq<char>> {
    if m.contains_key(name) {
        Some(m[name])
    } else {
        None
    }
}

/// Size and content type from what Drive reports: an unreadable size is 0, and whatever
/// is no video is served as MP4.
pub open spec fn described(size: Option<Seq<char>>, mime: Option<Seq<char>>) -> (u64, Seq<char>) {
    (
        match size {
            Some(s) => match text::parse_decimal(s) {
                Some(n) => n,
                None => 0,
            },
            None => 0,
        },
        match mime {
            Some(m) => if text::starts_with(m, "video/"@) {
                m
            } else {
                "video/mp4"@
            },
            None => "video/mp4"@,
        },
    )
}

/// Size and content type from what Drive reports.
pub fn describe(size: Option<&str>, mime: Option<&str>) -> (r: (u64, String))
    ensures
        (r.0, r.1@) == described(opt_str(size), opt_str(mime)),
{
    let total: u64 = match size {
        Some(s) => match text::parse_u64(s) {
            Some(n) => n,
            None => 0,
        },
        None => 0,
    };
    let content_type: &str = match mime {
        Some(m) => if text::begins_with(m, "video/") {
            m
        } else {
            "video/mp4"
        },
        None => "video/mp4",
    };
    (total, content_type.to_owned())
}

/// File size and content type, from the reply of the Drive metadata endpoint.
pub fn fetch_meta(status: u16, body: &Vec<u8>) -> (r: Result<(u64, String), String>)
    requires
        100 <= status <= 999,
    ensures
        match r {
            Ok((total, content_type)) => exchange::succeeded(status) && json_value(body@) is Some
                && (total, content_type@) == described(
                member(text_members(json_value(body@)->0), "size"@),
                member(text_members(json_value(body@)->0), "mimeType"@),
            ),
            Err(e) => if exchange::succeeded(status) {
                json_value(body@) is None && e@ == "error decoding response body"@
            } else {
                e@ == "metadata "@ + exchange::status_text(status)
            },
        },
{
    if !exchange::is_success(status) {
        let mut e: String = "metadata ".to_owned();
        e.append(exchange::status_line(status).as_str());
        return Err(e);
    }
    match parse_json(body) {
        Some(json) => Ok(describe(text_member(&json, "size"), text_member(&json, "mimeType"))),
        None => Err("error decoding response body".to_owned()),
    }
}

/// One block's bytes, from the reply to the request for them.
pub fn fetch_block(status: u16, body: Vec<u8>) -> (r: Result<Vec<u8>, String>)
    requires
        100 <= status <= 999,
    ensures
        match r {
            Ok(bytes) => exchange::succeeded(status) && bytes@ == body@,
            Err(e) => !exchange::succeeded(status) && e@ == "block "@ + exchange::status_text(
                status,
            ),
        },
{
    if !exchange::is_success(status) {
        let mut e: String = "block ".to_owned();
        e.append(exchange::status_line(status).as_str());
        return Err(e);
    }
    Ok(body)
}

/// The size that Drive reports is the size of the file, and a type of videos is its type. Where
/// either is missing or of no use, the size is zero and the type is MP4.
pub proof fn law_described(n: u64, kind: Seq<char>, size: Option<Seq<char>>, mime: Option<Seq<char>>)
    ensures
        described(Some(text::decimal(n as nat)), mime).0 == n,
        (size matches Some(s) ==> text::parse_decimal(s) is None) ==> described(size, mime).0 == 0,
        described(size, Some("video/"@ + kind)).1 == "video/"@ + kind,
        (mime matches Some(m) ==> !text::starts_with(m, "video/"@)) ==> described(size, mime).1
            == "video/mp4"@,
{
    text::lemma_decimal_round_trip(n);
    text::law_strip_prefix("video/"@, kind, kind);
}

/// Slashes in front of an id are no part of it, however many there are.
pub proof fn law_leading_slashes_name_nothing(slashes: Seq<char>, rest: Seq<char>)
    requires
        forall|i: int| 0 <= i < slashes.len() ==> #[trigger] slashes[i] == '/',
        rest.len() > 0,
        rest[0] != '/',
    ensures
        named(slashes + rest) == percent::decoded(rest),
        named(slashes) == percent::decoded(Seq::empty()),
{
    text::law_trim_char(rest, slashes, '/');
    assert(text::trim_start_char(slashes, '/') =~= Seq::empty());
}

/// A member of a map is there with its value, or not there.
pub proof fn law_member(m: Map<Seq<char>, Seq<char>>, name: Seq<char>, value: Seq<char>)
    ensures
        member(m.insert(name, value), name) == Some(value),
        member(m.remove(name), name) is None,
{
}

} // verus!
