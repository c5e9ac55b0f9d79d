//! `srv://` URI scheme — streams videos from a saved server with seeking.
//!
//! All the streaming smarts (block cache, in-flight de-dup, read-ahead) live in
//! [`crate::stream_cache`]; this module only resolves the `srv:<serverId>:<path>` URI and
//! says what a file is.
use vstd::prelude::*;
use vstd::string::*;

use crate::drive_protocol;
use crate::percent;
use crate::remote;
use crate::stream_cache;
use crate::stream_cache::{status_only, StreamResponse};
use crate::text;

verus! {

/// The scheme this module serves.
pub const SCHEME: &'static str = "srv";

/// The stored URI that the path of a request stands for.
pub open spec fn requested_uri(path: Seq<char>) -> Option<Seq<char>> {
    match percent::decoded(text::trim_start_char(path, '/')) {
        Some(rest) => Some("srv:"@ + rest),
        None => None,
    }
}

/// The stored URI that a request is for, from the path of its URI. The frontend hands us
/// `<serverId>:<path>`, percent-encoded into a single path segment.
pub fn decode_uri(path: &str) -> (r: Option<String>)
    ensures
        match r {
            Some(uri) => requested_uri(path@) == Some(uri@),
            None => requested_uri(path@) is None,
        },
{
    match percent::decode(text::trim_start_matches(path, '/')) {
        Some(rest) => {
            let mut uri: String = "srv:".to_owned();
            uri.append(rest.as_str());
            Some(uri)
        },
        None => None,
    }
}

/// What a request is for.
#[derive(Debug)]
pub struct StreamTarget {
    /// The stored URI, by which the stream is cached.
    pub uri: String,
    pub server_id: String,
    pub path: String,
}

/// What a request is for, from the path of its URI. A request that names no file on a
/// server is a bad one.
pub fn requested_target(path: &str) -> (r: Result<StreamTarget, StreamResponse>)
    ensures
        match r {
            Ok(t) => requested_uri(path@) == Some(t.uri@) && remote::uri_parts(t.uri@) == Some(
                (t.server_id@, t.path@),
            ),
            Err(response) => response@ == stream_cache::bare(400) && (requested_uri(
                path@,
            ) matches Some(uri) ==> remote::uri_parts(uri) is None),
        },
{
    match decode_uri(path) {
        Some(uri) => match remote::split_uri(uri.as_str()) {
            Some((server_id, path)) => Ok(StreamTarget { uri, server_id, path }),
            None => Err(status_only(400)),
        },
        None => Err(status_only(400)),
    }
}

/// Size and content type of a file, from what its server answers when asked for the size.
pub fn fetch_meta(path: &str, size: Result<u64, String>) -> (r: Result<(u64, String), String>)
    ensures
        match r {
            Ok((total, content_type)) => size == Ok::<u64, String>(total) && content_type@
                == remote::mime_of(remote::lowercase(remote::extension(path@))),
            Err(e) => size == Err::<u64, String>(e),
        },
{
    match size {
        Ok(total) => Ok((total, remote::guess_mime(path).to_owned())),
        Err(e) => Err(e),
    }
}

/// A server id and a path, percent-encoded into one path segment, lead back to that server
/// and path.
pub proof fn law_stream_address(id: Seq<char>, path: Seq<char>)
    requires
        id.len() > 0,
        path.len() > 0,
        !id.contains(':'),
    ensures
        requested_uri("/"@ + percent::encoded(id + ":"@ + path)) == Some(
            remote::uri_of(id, path),
        ),
        remote::uri_parts(remote::uri_of(id, path)) == Some((id, path)),
{
    let address = id + ":"@ + path;
    drive_protocol::law_encoded_id_is_named(address);
    remote::law_split_make(id, path);
    assert("srv:"@ + address =~= remote::uri_of(id, path));
}

/// Slashes in front of an address are no part of it, however many there are, and what is left is
/// decoded; an address that cannot be decoded names nothing.
pub proof fn law_leading_slashes_address_nothing(slashes: Seq<char>, rest: Seq<char>)
    requires
        forall|i: int| 0 <= i < slashes.len() ==> #[trigger] slashes[i] == '/',
        rest.len() > 0,
        rest[0] != '/',
    ensures
        percent::decoded(rest) matches Some(address) ==> requested_uri(slashes + rest) == Some(
            "srv:"@ + address,
        ),
        percent::decoded(rest) is None ==> requested_uri(slashes + rest) is None,
{
    text::law_trim_char(rest, slashes, '/');
}

} // verus!
