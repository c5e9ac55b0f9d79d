//! Reading a resource of a course, whichever source it comes from.
use vstd::prelude::*;
use vstd::string::*;

use crate::remote;
use crate::text;

verus! {

/// Resources larger than this are refused rather than loaded into memory. Course PDFs
/// are typically a few MB; this only guards against a mislabelled multi-GB file freezing
/// the app.
pub const MAX_RESOURCE_BYTES: u64 = 256 * 1024 * 1024;

/// The report of a resource that is too large.
pub open spec fn too_large(size: u64) -> Seq<char> {
    "Resource is too large to open in the app ("@ + text::decimal(size as nat / (1024 * 1024))
        + " MB)"@
}

/// Whether a resource of this size may be loaded.
pub fn ensure_size(size: u64) -> (r: Result<(), String>)
    ensures
        match r {
            Ok(_) => size <= MAX_RESOURCE_BYTES,
            Err(e) => size > MAX_RESOURCE_BYTES && e@ == too_large(size),
        },
{
    if size > MAX_RESOURCE_BYTES {
        let mut e: String = "Resource is too large to open in the app (".to_owned();
        e.append(text::decimal_of(size / (1024 * 1024)).as_str());
        e.append(" MB)");
        return Err(e);
    }
    Ok(())
}

/// Whether a local file may be loaded, from what the file system says of it.
pub fn ensure_local(is_file: bool, size: u64) -> (r: Result<(), String>)
    ensures
        match r {
            Ok(_) => is_file && size <= MAX_RESOURCE_BYTES,
            Err(e) => e@ == if is_file {
                too_large(size)
            } else {
                "Resource is not a file"@
            } && (is_file ==> size > MAX_RESOURCE_BYTES),
        },
{
    if !is_file {
        return Err("Resource is not a file".to_owned());
    }
    ensure_size(size)
}

/// The number of a resource, with a minus sign where it is below zero.
pub open spec fn signed_decimal(n: int) -> Seq<char> {
    if n < 0 {
        "-"@ + text::decimal((-n) as nat)
    } else {
        text::decimal(n as nat)
    }
}

/// The report of a resource that is not in the database.
pub fn not_found(resource_id: i64) -> (r: String)
    ensures
        r@ == "Resource "@ + signed_decimal(resource_id as int) + " not found"@,
{
    let mut e: String = "Resource ".to_owned();
    if resource_id < 0 {
        e.append("-");
        let below: u64 = (-(resource_id + 1)) as u64 + 1;
        e.append(text::decimal_of(below).as_str());
        assert(e@ =~= "Resource "@ + signed_decimal(resource_id as int));
    } else {
        e.append(text::decimal_of(resource_id as u64).as_str());
    }
    e.append(" not found");
    e
}

/// Where a resource is read from.
pub enum ResourceSource {
    /// Google Drive, by the id of the file.
    Drive(String),
    /// A saved server, and the path there.
    Remote(String, String),
    /// The local file system.
    Local,
}

/// Where the resource that is stored as `path` is read from.
pub fn resource_source(path: &str) -> (r: ResourceSource)
    ensures
        match r {
            ResourceSource::Drive(id) => text::strip_prefix(path@, "gdrive:"@) == Some(id@),
            ResourceSource::Remote(server_id, remote_path) => text::strip_prefix(
                path@,
                "gdrive:"@,
            ) is None && remote::uri_parts(path@) == Some((server_id@, remote_path@)),
            ResourceSource::Local => text::strip_prefix(path@, "gdrive:"@) is None
                && remote::uri_parts(path@) is None,
        },
{
    match text::without_prefix(path, "gdrive:") {
        Some(id) => ResourceSource::Drive(id.to_owned()),
        None => match remote::split_uri(path) {
            Some((server_id, remote_path)) => ResourceSource::Remote(server_id, remote_path),
            None => ResourceSource::Local,
        },
    }
}

/// A path on a saved server is read from that server.
pub proof fn law_server_resource(id: Seq<char>, path: Seq<char>)
    requires
        id.len() > 0,
        path.len() > 0,
        !id.contains(':'),
    ensures
        text::strip_prefix(remote::uri_of(id, path), "gdrive:"@) is None,
        remote::uri_parts(remote::uri_of(id, path)) == Some((id, path)),
{
    reveal_strlit("gdrive:");
    reveal_strlit("srv:");
    remote::law_split_make(id, path);
    let uri = remote::uri_of(id, path);
    assert(uri[0] == 's');
    if text::starts_with(uri, "gdrive:"@) {
        assert(uri.take(7)[0] == uri[0]);
        assert("gdrive:"@[0] == 'g');
    }
}

/// A resource of more than 256 megabytes is too large, and one that is too large is reported with
/// its size in whole megabytes.
pub proof fn law_too_large(size: u64)
    ensures
        ({
            let number = text::split_once(
                text::strip_prefix(
                    too_large(size),
                    "Resource is too large to open in the app ("@,
                )->0,
                seq![' '],
            );
            &&& size > MAX_RESOURCE_BYTES <==> size > 256 * 1048576
            &&& text::starts_with(too_large(size), "Resource is too large to open in the app ("@)
            &&& number matches Some((megabytes, unit)) && unit == "MB)"@ && (text::parse_decimal(
                megabytes,
            ) matches Some(n) && n * 1048576 <= size < (n + 1) * 1048576)
        }),
{
    let n = (size / 1048576) as u64;
    let d = text::decimal(n as nat);
    text::lemma_decimal_round_trip(n);
    if d.contains(' ') {
        let i = choose|i: int| 0 <= i < d.len() && d[i] == ' ';
        assert(text::is_digit(d[i]));
    }
    reveal_strlit(" MB)");
    reveal_strlit("MB)");
    let rest = d + seq![' '] + "MB)"@;
    assert(d + " MB)"@ =~= rest);
    let head = "Resource is too large to open in the app ("@;
    assert(too_large(size) =~= head + rest);
    text::law_strip_prefix(head, rest, rest);
    text::law_split_once_char(d, ' ', "MB)"@);
}

/// A number below zero is written with a minus sign in front of what it lacks to zero, any other
/// as it is.
pub proof fn law_signed_decimal(n: u64)
    ensures
        text::parse_decimal(signed_decimal(n as int)) == Some(n),
        n > 0 ==> signed_decimal(-(n as int)) == "-"@ + signed_decimal(n as int),
{
    text::lemma_decimal_round_trip(n);
}

/// A path on Drive is read from Drive, by what follows the scheme, and is no path on a server.
pub proof fn law_drive_resource(id: Seq<char>)
    ensures
        text::strip_prefix("gdrive:"@ + id, "gdrive:"@) == Some(id),
        remote::uri_parts("gdrive:"@ + id) is None,
{
    let path = "gdrive:"@ + id;
    text::law_strip_prefix("gdrive:"@, id, path);
    reveal_strlit("gdrive:");
    reveal_strlit("srv:");
    if text::starts_with(path, "srv:"@) {
        assert(path.take(4)[0] == path[0]);
        assert(path[0] == 'g' && "srv:"@[0] == 's');
    }
}

} // verus!
