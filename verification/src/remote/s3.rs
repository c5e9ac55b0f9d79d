//! S3-compatible object storage — MinIO, Backblaze B2, Cloudflare R2, Wasabi, AWS.
//!
//! Object stores have no directories: keys are flat strings that merely look like paths.
//! `ListObjectsV2` with `delimiter=/` fakes one level of hierarchy — matching keys come
//! back as objects, and everything below a shared prefix collapses into a "common
//! prefix" we present as a folder. That's enough for the parser, which only ever asks
//! for one level at a time.
//!
//! Requests are signed with `rusty-s3` (presigned URLs); this module says which URL to
//! fetch and reads the replies.
use vstd::prelude::*;
use vstd::string::*;

use super::exchange;
use super::exchange::HttpRequest;
use super::{NodeView, RemoteNode, ServerConfig, ServerSecrets};
use crate::text;

verus! {

/// How long a presigned URL is valid, in seconds. URLs are used immediately; a short
/// window is plenty and limits how long a leaked URL stays valid.
pub const SIGN_TTL: u64 = 120;

// =====================================================================
// Buckets and signing
// =====================================================================

/// `url::Url`.
#[verifier::external_type_specification]
#[verifier::external_body]
pub struct ExUrl(url::Url);

/// `rusty_s3::Bucket`.
#[verifier::external_type_specification]
#[verifier::external_body]
pub struct ExBucket(rusty_s3::Bucket);

/// `rusty_s3::Credentials`.
#[verifier::external_type_specification]
#[verifier::external_body]
pub struct ExCredentials(rusty_s3::Credentials);

/// `rusty_s3::actions::ListObjectsV2`.
#[verifier::external_type_specification]
#[verifier::external_body]
pub struct ExListObjectsV2<'a>(rusty_s3::actions::ListObjectsV2<'a>);

/// The text of a URL, which determines it.
pub uninterp spec fn url_text(u: url::Url) -> Seq<char>;

/// The text of the URL that a string is read as, or why it is none.
pub uninterp spec fn parsed_url(s: Seq<char>) -> Result<Seq<char>, Seq<char>>;

/// What a bucket is: the URL its objects lie below, and its region.
#[verifier::ext_equal]
pub struct BucketView {
    pub base_url: Seq<char>,
    pub region: Seq<char>,
}

/// What a bucket is.
pub uninterp spec fn bucket_view(b: rusty_s3::Bucket) -> BucketView;

/// The URL that the objects of the bucket `name` at an endpoint lie below, or why there
/// is none.
pub uninterp spec fn bucket_url(
    endpoint: Seq<char>,
    path_style: bool,
    name: Seq<char>,
) -> Result<Seq<char>, Seq<char>>;

/// The access key and the secret key of credentials.
pub uninterp spec fn key_pair(c: rusty_s3::Credentials) -> (Seq<char>, Seq<char>);

/// What a presigned URL is made from.
#[verifier::ext_equal]
pub struct SignTarget {
    pub bucket: BucketView,
    pub keys: (Seq<char>, Seq<char>),
    /// The request is a `HEAD`, not a `GET`.
    pub head: bool,
    /// The object asked for, or the bucket itself.
    pub object: Option<Seq<char>>,
    pub query: Map<Seq<char>, Seq<char>>,
}

/// The presigned URL for a request, valid for `ttl` seconds from `time` on.
pub uninterp spec fn signed_url(target: SignTarget, ttl: u64, time: int) -> Seq<char>;

/// What a listing asks for.
pub uninterp spec fn list_target(a: rusty_s3::actions::ListObjectsV2<'_>) -> SignTarget;

/// `url` is a presigned URL for a request; when it was signed is left open.
pub open spec fn is_signed(url: Seq<char>, target: SignTarget) -> bool {
    exists|time: int| url == #[trigger] signed_url(target, SIGN_TTL, time)
}

/// The base URL of a bucket is one that requests can be signed for: an `http` or `https`
/// URL, which always has a host.
pub open spec fn signable(bucket: BucketView) -> bool {
    text::starts_with(bucket.base_url, "http://"@) || text::starts_with(
        bucket.base_url,
        "https://"@,
    )
}

/// `url::Url::parse`: a function of the string alone. Which strings are URLs is left
/// unsaid.
#[verifier::external_body]
fn parse_url(s: &str) -> (r: Result<url::Url, String>)
    ensures
        match r {
            Ok(u) => parsed_url(s@) == Ok::<_, Seq<char>>(url_text(u)),
            Err(e) => parsed_url(s@) == Err::<Seq<char>, _>(e@),
        },
{
    url::Url::parse(s).map_err(|e| e.to_string())
}

/// `rusty_s3::Bucket::new` with path-style or virtual-host-style URLs. What the base URL
/// is, and when there is none, is left unsaid, but for this: unless it is path-style and
/// the name could be read as a URL scheme, it is an `http` or `https` URL.
#[verifier::external_body]
fn new_bucket(endpoint: url::Url, path_style: bool, name: String, region: String) -> (r: Result<
    rusty_s3::Bucket,
    String,
>)
    ensures
        match r {
            Ok(b) => bucket_url(url_text(endpoint), path_style, name@) == Ok::<_, Seq<char>>(
                bucket_view(b).base_url,
            ) && bucket_view(b).region == region@ && (!path_style || !name@.contains(':')
                ==> signable(bucket_view(b))),
            Err(e) => bucket_url(url_text(endpoint), path_style, name@) == Err::<Seq<char>, _>(e@),
        },
{
    let style = match path_style {
        true => rusty_s3::UrlStyle::Path,
        false => rusty_s3::UrlStyle::VirtualHost,
    };
    rusty_s3::Bucket::new(endpoint, style, name, region).map_err(|e| e.to_string())
}

/// `rusty_s3::Bucket::base_url`.
#[verifier::external_body]
fn base_url(b: &rusty_s3::Bucket) -> (r: &str)
    ensures
        r@ == bucket_view(*b).base_url,
{
    b.base_url().as_str()
}

/// `rusty_s3::Credentials::new`: holds the two keys.
#[verifier::external_body]
fn new_credentials(key: &str, secret: &str) -> (r: rusty_s3::Credentials)
    ensures
        key_pair(r) == (key@, secret@),
{
    rusty_s3::Credentials::new(key, secret)
}

/// `rusty_s3::Bucket::list_objects_v2`: a listing of the bucket with the two parameters
/// that every listing has.
#[verifier::external_body]
fn list_objects<'a>(b: &'a rusty_s3::Bucket, c: &'a rusty_s3::Credentials) -> (r:
    rusty_s3::actions::ListObjectsV2<'a>)
    ensures
        list_target(r) == (SignTarget {
            bucket: bucket_view(*b),
            keys: key_pair(*c),
            head: false,
            object: None,
            query: map!["list-type"@ => "2"@, "encoding-type"@ => "url"@],
        }),
{
    b.list_objects_v2(Some(c))
}

/// What a listing asks for, with one more parameter.
pub open spec fn with_parameter(
    target: SignTarget,
    name: Seq<char>,
    value: Seq<char>,
) -> SignTarget {
    SignTarget { query: target.query.insert(name, value), ..target }
}

/// `rusty_s3::actions::ListObjectsV2::with_prefix`: sets the parameter `prefix`.
#[verifier::external_body]
fn with_prefix(a: &mut rusty_s3::actions::ListObjectsV2<'_>, prefix: String)
    ensures
        list_target(*final(a)) == with_parameter(list_target(*old(a)), "prefix"@, prefix@),
{
    a.with_prefix(prefix)
}

/// `rusty_s3::actions::ListObjectsV2::with_delimiter`: sets the parameter `delimiter`.
#[verifier::external_body]
fn with_delimiter(a: &mut rusty_s3::actions::ListObjectsV2<'_>, delimiter: String)
    ensures
        list_target(*final(a)) == with_parameter(list_target(*old(a)), "delimiter"@, delimiter@),
{
    a.with_delimiter(delimiter)
}

/// `rusty_s3::actions::ListObjectsV2::with_continuation_token`: sets the parameter
/// `continuation-token`.
#[verifier::external_body]
fn with_continuation_token(a: &mut rusty_s3::actions::ListObjectsV2<'_>, token: String)
    ensures
        list_target(*final(a)) == with_parameter(
            list_target(*old(a)),
            "continuation-token"@,
            token@,
        ),
{
    a.with_continuation_token(token)
}

/// `rusty_s3::actions::S3Action::sign` on a listing: the URL depends on the time, of
/// which nothing is said. A bucket whose base URL has no host cannot be signed for.
#[verifier::external_body]
fn sign_list(a: &rusty_s3::actions::ListObjectsV2<'_>, ttl: u64) -> (r: String)
    requires
        signable(list_target(*a).bucket),
    ensures
        exists|time: int| r@ == #[trigger] signed_url(list_target(*a), ttl, time),
{
    rusty_s3::actions::S3Action::sign(a, std::time::Duration::from_secs(ttl)).to_string()
}

/// What a request for an object asks for.
pub open spec fn object_target(
    bucket: BucketView,
    keys: (Seq<char>, Seq<char>),
    head: bool,
    object: Seq<char>,
) -> SignTarget {
    SignTarget { bucket, keys, head, object: Some(object), query: Map::empty() }
}

/// `rusty_s3::Bucket::get_object`, signed: the URL depends on the time, of which nothing
/// is said. A bucket whose base URL has no host cannot be signed for, and an object name
/// that begins with a slash might replace the host.
#[verifier::external_body]
fn sign_get(b: &rusty_s3::Bucket, c: &rusty_s3::Credentials, object: &str, ttl: u64) -> (r: String)
    requires
        signable(bucket_view(*b)),
        object@.len() > 0 ==> object@[0] != '/',
    ensures
        exists|time: int|
            r@ == #[trigger] signed_url(
                object_target(bucket_view(*b), key_pair(*c), false, object@),
                ttl,
                time,
            ),
{
    let action = b.get_object(Some(c), object);
    rusty_s3::actions::S3Action::sign(&action, std::time::Duration::from_secs(ttl)).to_string()
}

/// `rusty_s3::Bucket::head_object`, signed: as for `get_object`.
#[verifier::external_body]
fn sign_head(b: &rusty_s3::Bucket, c: &rusty_s3::Credentials, object: &str, ttl: u64) -> (r: String)
    requires
        signable(bucket_view(*b)),
        object@.len() > 0 ==> object@[0] != '/',
    ensures
        exists|time: int|
            r@ == #[trigger] signed_url(
                object_target(bucket_view(*b), key_pair(*c), true, object@),
                ttl,
                time,
            ),
{
    let action = b.head_object(Some(c), object);
    rusty_s3::actions::S3Action::sign(&action, std::time::Duration::from_secs(ttl)).to_string()
}

// =====================================================================
// Keys
// =====================================================================

/// The key of a path: our paths are `/a/b`, S3 keys are `a/b`.
pub open spec fn key(path: Seq<char>) -> Seq<char> {
    text::trim_start_char(path, '/')
}

/// The prefix that the keys in a directory share. It carries a trailing slash so that
/// `delimiter` groups on it.
pub open spec fn prefix(path: Seq<char>) -> Seq<char> {
    let k = key(path);
    if k.len() == 0 || k.last() == '/' {
        k
    } else {
        k.push('/')
    }
}

/// Our paths are `/a/b`; S3 keys are `a/b`.
pub fn key_of(path: &str) -> (r: String)
    ensures
        r@ == key(path@),
{
    text::trim_start_matches(path, '/').to_owned()
}

/// Directory prefixes carry a trailing slash so `delimiter` groups on them.
pub fn prefix_of(path: &str) -> (r: String)
    ensures
        r@ == prefix(path@),
{
    let k = text::trim_start_matches(path, '/');
    if k.is_empty() || text::ends_with_char(k, '/') {
        k.to_owned()
    } else {
        let mut r: String = k.to_owned();
        proof {
            reveal_strlit("/");
        }
        r.append("/");
        assert(r@ =~= prefix(path@));
        r
    }
}

// =====================================================================
// Requests
// =====================================================================

/// A bucket with credentials.
pub struct S3Backend {
    bucket: rusty_s3::Bucket,
    credentials: rusty_s3::Credentials,
}

/// The region that a configured one stands for.
pub open spec fn region_of(region: Seq<char>) -> Seq<char> {
    if text::trim(region).len() == 0 {
        "us-east-1"@
    } else {
        text::trim(region)
    }
}

/// The settings of a server, complete enough to configure a bucket with.
#[derive(Debug)]
pub struct S3Settings {
    pub endpoint: String,
    /// Path style (`endpoint/bucket/key`) is what self-hosted gateways serve; AWS and R2
    /// want virtual-host style (`bucket.endpoint/key`).
    pub path_style: bool,
    pub bucket: String,
    pub region: String,
    pub access_key: String,
    pub secret_key: String,
}

/// What an [`S3Settings`] says.
#[verifier::ext_equal]
pub struct SettingsView {
    pub endpoint: Seq<char>,
    pub path_style: bool,
    pub bucket: Seq<char>,
    pub region: Seq<char>,
    pub keys: (Seq<char>, Seq<char>),
}

impl View for S3Settings {
    type V = SettingsView;

    open spec fn view(&self) -> SettingsView {
        SettingsView {
            endpoint: self.endpoint@,
            path_style: self.path_style,
            bucket: self.bucket@,
            region: self.region@,
            keys: (self.access_key@, self.secret_key@),
        }
    }
}

/// The settings of a server, or what they lack.
pub open spec fn settings_of(config: ServerConfig, secrets: ServerSecrets) -> Result<
    SettingsView,
    Seq<char>,
> {
    if text::trim(config.host@).len() == 0 {
        Err("This server has no endpoint URL set."@)
    } else if text::trim(config.bucket@).len() == 0 {
        Err("This server has no bucket name set."@)
    } else if text::trim(config.username@).len() == 0 || secrets.password@.len() == 0 {
        Err("This server is missing its access key or secret key."@)
    } else {
        Ok(
            SettingsView {
                endpoint: text::trim(config.host@),
                path_style: config.path_style,
                bucket: text::trim(config.bucket@),
                region: region_of(config.region@),
                keys: (text::trim(config.username@), secrets.password@),
            },
        )
    }
}

/// The settings of a server, if they are complete.
pub fn settings(config: &ServerConfig, secrets: &ServerSecrets) -> (r: Result<S3Settings, String>)
    ensures
        settings_of(*config, *secrets) == match r {
            Ok(settings) => Ok(settings@),
            Err(e) => Err(e@),
        },
{
    let endpoint = text::trimmed(config.host.as_str());
    if endpoint.is_empty() {
        return Err("This server has no endpoint URL set.".to_owned());
    }
    let bucket = text::trimmed(config.bucket.as_str());
    if bucket.is_empty() {
        return Err("This server has no bucket name set.".to_owned());
    }
    let access_key = text::trimmed(config.username.as_str());
    if access_key.is_empty() || secrets.password.as_str().is_empty() {
        return Err("This server is missing its access key or secret key.".to_owned());
    }
    let region = text::trimmed(config.region.as_str());
    Ok(
        S3Settings {
            endpoint: endpoint.to_owned(),
            path_style: config.path_style,
            bucket: bucket.to_owned(),
            region: if region.is_empty() {
                "us-east-1".to_owned()
            } else {
                region.to_owned()
            },
            access_key: access_key.to_owned(),
            secret_key: secrets.password.clone(),
        },
    )
}

/// The report of an endpoint that is no URL.
pub open spec fn endpoint_error(e: Seq<char>) -> Seq<char> {
    "That endpoint isn't a valid URL ("@ + e + "). Include https://"@
}

/// The report of a bucket that cannot be configured.
pub open spec fn bucket_error(e: Seq<char>) -> Seq<char> {
    "Couldn't configure that bucket: "@ + e
}

/// The bucket that settings stand for, or why they stand for none.
pub open spec fn bucket_of(settings: SettingsView) -> Result<BucketView, Seq<char>> {
    match parsed_url(settings.endpoint) {
        Err(e) => Err(endpoint_error(e)),
        Ok(endpoint) => match bucket_url(endpoint, settings.path_style, settings.bucket) {
            Err(e) => Err(bucket_error(e)),
            Ok(base_url) => Ok(BucketView { base_url, region: settings.region }),
        },
    }
}

/// Takes over the settings of a server. No request is made until one is needed.
pub fn connect(config: &ServerConfig, secrets: &ServerSecrets) -> (r: Result<S3Backend, String>)
    ensures
        match settings_of(*config, *secrets) {
            Err(e) => r is Err && r->Err_0@ == e,
            Ok(settings) => match bucket_of(settings) {
                Err(e) => r is Err && r->Err_0@ == e,
                Ok(bucket) => {
                    &&& r is Ok
                    &&& r->Ok_0.bucket() == bucket
                    &&& r->Ok_0.keys() == settings.keys
                    &&& !settings.path_style || !settings.bucket.contains(':') ==> r->Ok_0.wf()
                },
            },
        },
{
    let settings = match settings(config, secrets) {
        Ok(settings) => settings,
        Err(e) => {
            return Err(e);
        },
    };
    let url = match parse_url(settings.endpoint.as_str()) {
        Ok(url) => url,
        Err(e) => {
            let mut r: String = "That endpoint isn't a valid URL (".to_owned();
            r.append(e.as_str());
            r.append("). Include https://");
            return Err(r);
        },
    };
    match new_bucket(url, settings.path_style, settings.bucket, settings.region) {
        Ok(bucket) => {
            let credentials = new_credentials(
                settings.access_key.as_str(),
                settings.secret_key.as_str(),
            );
            Ok(S3Backend { bucket, credentials })
        },
        Err(e) => {
            let mut r: String = "Couldn't configure that bucket: ".to_owned();
            r.append(e.as_str());
            Err(r)
        },
    }
}

/// What one page of a listing asks for: the keys with the given prefix, grouped at the
/// next slash, from where the page before left off.
pub open spec fn page_target(
    bucket: BucketView,
    keys: (Seq<char>, Seq<char>),
    prefix: Seq<char>,
    token: Option<Seq<char>>,
) -> SignTarget {
    let plain = map!["list-type"@ => "2"@, "encoding-type"@ => "url"@];
    let prefixed = if prefix.len() > 0 {
        plain.insert("prefix"@, prefix)
    } else {
        plain
    };
    let delimited = prefixed.insert("delimiter"@, "/"@);
    SignTarget {
        bucket,
        keys,
        head: false,
        object: None,
        query: match token {
            Some(token) => delimited.insert("continuation-token"@, token),
            None => delimited,
        },
    }
}

impl S3Backend {
    /// The bucket.
    pub closed spec fn bucket(self) -> BucketView {
        bucket_view(self.bucket)
    }

    /// The access key and the secret key.
    pub closed spec fn keys(self) -> (Seq<char>, Seq<char>) {
        key_pair(self.credentials)
    }

    /// Requests to the bucket can be signed.
    pub open spec fn wf(self) -> bool {
        signable(self.bucket())
    }

    /// Whether requests to the bucket can be signed: a bucket name that reads as a URL of
    /// its own can lead away from the endpoint.
    pub fn is_signable(&self) -> (r: bool)
        ensures
            r == self.wf(),
    {
        let base = base_url(&self.bucket);
        text::begins_with(base, "http://") || text::begins_with(base, "https://")
    }

    /// The request for one page of the listing of a directory; `token` is where the page
    /// before left off.
    pub fn page_request(&self, path: &str, token: Option<&str>) -> (r: HttpRequest)
        requires
            self.wf(),
        ensures
            r@ == exchange::plain_request("GET"@, r@.url, None, None),
            is_signed(
                r@.url,
                page_target(
                    self.bucket(),
                    self.keys(),
                    prefix(path@),
                    match token {
                        Some(token) => Some(token@),
                        None => None,
                    },
                ),
            ),
    {
        let prefix = prefix_of(path);
        let mut action = list_objects(&self.bucket, &self.credentials);
        if !prefix.as_str().is_empty() {
            with_prefix(&mut action, prefix);
        }
        with_delimiter(&mut action, "/".to_owned());
        if let Some(token) = token {
            with_continuation_token(&mut action, token.to_owned());
        }
        let url = sign_list(&action, SIGN_TTL);
        exchange::request("GET", url, None, None)
    }

    /// The request for the bytes `[start, end]` of a file; there is none to make where
    /// that range is empty.
    pub fn range_request(&self, path: &str, start: u64, end: u64) -> (r: Option<HttpRequest>)
        requires
            self.wf(),
        ensures
            match r {
                Some(request) => start <= end && request@ == exchange::plain_request(
                    "GET"@,
                    request@.url,
                    Some((start, end)),
                    None,
                ) && is_signed(
                    request@.url,
                    object_target(self.bucket(), self.keys(), false, key(path@)),
                ),
                None => end < start,
            },
    {
        if end < start {
            return None;
        }
        let key = key_of(path);
        proof {
            text::lemma_trim_start_char(path@, '/');
        }
        let url = sign_get(&self.bucket, &self.credentials, key.as_str(), SIGN_TTL);
        Some(exchange::request("GET", url, Some((start, end)), None))
    }

    /// The request that tells the size of a file.
    pub fn size_request(&self, path: &str) -> (r: HttpRequest)
        requires
            self.wf(),
        ensures
            r@ == exchange::plain_request("HEAD"@, r@.url, None, None),
            is_signed(r@.url, object_target(self.bucket(), self.keys(), true, key(path@))),
    {
        let key = key_of(path);
        proof {
            text::lemma_trim_start_char(path@, '/');
        }
        let url = sign_head(&self.bucket, &self.credentials, key.as_str(), SIGN_TTL);
        exchange::request("HEAD", url, None, None)
    }

    /// The request for a whole file.
    pub fn read_request(&self, path: &str) -> (r: HttpRequest)
        requires
            self.wf(),
        ensures
            r@ == exchange::plain_request("GET"@, r@.url, None, None),
            is_signed(r@.url, object_target(self.bucket(), self.keys(), false, key(path@))),
    {
        let key = key_of(path);
        proof {
            text::lemma_trim_start_char(path@, '/');
        }
        let url = sign_get(&self.bucket, &self.credentials, key.as_str(), SIGN_TTL);
        exchange::request("GET", url, None, None)
    }
}

// =====================================================================
// Replies
// =====================================================================

/// One page of a listing.
#[derive(Debug)]
pub struct Page {
    pub common_prefixes: Vec<String>,
    /// The objects, by key and size.
    pub contents: Vec<(String, u64)>,
    /// Where the next page goes on, if there is one.
    pub next_token: Option<String>,
}

/// What a [`Page`] says.
#[verifier::ext_equal]
pub struct PageView {
    pub common_prefixes: Seq<Seq<char>>,
    pub contents: Seq<(Seq<char>, u64)>,
    pub next_token: Option<Seq<char>>,
}

impl View for Page {
    type V = PageView;

    open spec fn view(&self) -> PageView {
        PageView {
            common_prefixes: text::views(self.common_prefixes@),
            contents: Seq::new(
                self.contents@.len(),
                |i: int| (self.contents@[i].0@, self.contents@[i].1),
            ),
            next_token: match self.next_token {
                Some(token) => Some(token@),
                None => None,
            },
        }
    }
}

/// The page that the body of a reply holds, or why it holds none.
pub uninterp spec fn parsed_page(body: Seq<char>) -> Result<PageView, Seq<char>>;

/// `rusty_s3::actions::ListObjectsV2::parse_response`: a function of the body alone. Which
/// bodies are pages is left unsaid. Its tokenizer counts the lines and columns that an error
/// is reported at in 32 bits.
#[verifier::external_body]
fn parse_page(body: &str) -> (r: Result<Page, String>)
    requires
        body@.len() < u32::MAX,
    ensures
        match r {
            Ok(page) => parsed_page(body@) == Ok::<_, Seq<char>>(page@),
            Err(e) => parsed_page(body@) == Err::<PageView, _>(e@),
        },
{
    let parsed = rusty_s3::actions::ListObjectsV2::parse_response(body).map_err(|e| e.to_string())?;
    Ok(Page {
        common_prefixes: parsed.common_prefixes.into_iter().map(|p| p.prefix).collect(),
        contents: parsed.contents.into_iter().map(|c| (c.key, c.size)).collect(),
        next_token: parsed.next_continuation_token,
    })
}

/// A name that is shown: there is one, and it is not hidden.
pub open spec fn shown(name: Seq<char>) -> bool {
    name.len() > 0 && name[0] != '.'
}

/// The folders that common prefixes stand for: one level down.
pub open spec fn folders(prefixes: Seq<Seq<char>>) -> Seq<NodeView>
    decreases prefixes.len(),
{
    if prefixes.len() == 0 {
        Seq::empty()
    } else {
        let before = folders(prefixes.drop_last());
        let trimmed = text::trim_end_char(prefixes.last(), '/');
        let name = text::after_last(trimmed, '/');
        if shown(name) {
            before.push(NodeView { name, path: "/"@ + trimmed, is_dir: true, size: 0 })
        } else {
            before
        }
    }
}

/// The files that objects stand for. The prefix itself comes back as a zero-byte object
/// when the bucket has an explicit folder marker — not a file.
pub open spec fn files(prefix: Seq<char>, contents: Seq<(Seq<char>, u64)>) -> Seq<NodeView>
    decreases contents.len(),
{
    if contents.len() == 0 {
        Seq::empty()
    } else {
        let before = files(prefix, contents.drop_last());
        let (key, size) = contents.last();
        let name = text::after_last(text::trim_end_char(key, '/'), '/');
        if key != prefix && shown(name) {
            before.push(NodeView { name, path: "/"@ + key, is_dir: false, size })
        } else {
            before
        }
    }
}

/// The nodes of one page: its folders, then its files.
pub open spec fn page_nodes(prefix: Seq<char>, page: PageView) -> Seq<NodeView> {
    folders(page.common_prefixes) + files(prefix, page.contents)
}

fn is_shown(name: &str) -> (r: bool)
    ensures
        r == shown(name@),
{
    !name.is_empty() && !text::begins_with_char(name, '.')
}

fn rooted(path: &str) -> (r: String)
    ensures
        r@ == "/"@ + path@,
{
    let mut r: String = "/".to_owned();
    r.append(path);
    r
}

/// Adds the nodes of one page of the listing of a directory to those of the pages before.
pub fn add_page(path: &str, page: &Page, nodes: &mut Vec<RemoteNode>)
    ensures
        super::node_views(final(nodes)@) == super::node_views(old(nodes)@) + page_nodes(
            prefix(path@),
            page@,
        ),
{
    let prefix = prefix_of(path);
    let ghost start = super::node_views(nodes@);
    let ghost prefixes = text::views(page.common_prefixes@);
    let ghost contents = page@.contents;
    let n: usize = page.common_prefixes.len();
    let mut i: usize = 0;
    proof {
        assert(prefixes.take(0) =~= Seq::empty());
        assert(start + folders(prefixes.take(0)) =~= start);
    }
    while i < n
        invariant
            0 <= i <= n,
            n == page.common_prefixes@.len(),
            prefixes == text::views(page.common_prefixes@),
            super::node_views(nodes@) == start + folders(prefixes.take(i as int)),
        decreases n - i,
    {
        let ghost before = super::node_views(nodes@);
        let trimmed = text::trim_end_matches(page.common_prefixes[i].as_str(), '/');
        let name = text::after_last_char(trimmed, '/');
        proof {
            assert(prefixes.take(i + 1).drop_last() =~= prefixes.take(i as int));
            assert(prefixes.take(i + 1).last() == page.common_prefixes@[i as int]@);
        }
        if is_shown(name) {
            let node = RemoteNode {
                name: name.to_owned(),
                path: rooted(trimmed),
                is_dir: true,
                size: 0,
            };
            nodes.push(node);
            assert(super::node_views(nodes@) =~= before.push(node@));
            assert(super::node_views(nodes@) =~= start + folders(prefixes.take(i + 1)));
        }
        i = i + 1;
    }
    assert(prefixes.take(n as int) =~= prefixes);
    let ghost middle = super::node_views(nodes@);
    let m: usize = page.contents.len();
    let mut k: usize = 0;
    proof {
        assert(contents.take(0) =~= Seq::empty());
        assert(middle + files(prefix@, contents.take(0)) =~= middle);
    }
    while k < m
        invariant
            0 <= k <= m,
            m == page.contents@.len(),
            contents == page@.contents,
            super::node_views(nodes@) == middle + files(prefix@, contents.take(k as int)),
        decreases m - k,
    {
        let ghost before = super::node_views(nodes@);
        let key = page.contents[k].0.as_str();
        let size: u64 = page.contents[k].1;
        let name = text::after_last_char(text::trim_end_matches(key, '/'), '/');
        proof {
            assert(contents.take(k + 1).drop_last() =~= contents.take(k as int));
            assert(contents.take(k + 1).last() == (key@, size));
        }
        if !text::same(key, prefix.as_str()) && is_shown(name) {
            let node = RemoteNode { name: name.to_owned(), path: rooted(key), is_dir: false, size };
            nodes.push(node);
            assert(super::node_views(nodes@) =~= before.push(node@));
            assert(super::node_views(nodes@) =~= middle + files(prefix@, contents.take(k + 1)));
        }
        k = k + 1;
    }
    proof {
        assert(contents.take(m as int) =~= contents);
        assert(super::node_views(nodes@) =~= start + page_nodes(prefix@, page@));
    }
}

/// The nodes of one more page of the listing of a directory, from the reply to the
/// request for it. Yields where the next page goes on, if there is one.
pub fn page_reply(path: &str, status: u16, body: &str, nodes: &mut Vec<RemoteNode>) -> (r: Result<
    Option<String>,
    String,
>)
    requires
        100 <= status <= 999,
        exchange::succeeded(status) ==> body@.len() < u32::MAX,
    ensures
        match r {
            Ok(next) => exchange::succeeded(status) && parsed_page(body@) is Ok
                && parsed_page(body@)->Ok_0.next_token == (match next {
                Some(token) => Some(token@),
                None => None,
            }) && super::node_views(final(nodes)@) == super::node_views(old(nodes)@) + page_nodes(
                prefix(path@),
                parsed_page(body@)->Ok_0,
            ),
            Err(e) => final(nodes)@ == old(nodes)@ && if exchange::succeeded(status) {
                parsed_page(body@) is Err && e@ == "Couldn't parse the listing: "@ + parsed_page(
                    body@,
                )->Err_0
            } else {
                e@ == error_text(status, body@)
            },
        },
{
    if !exchange::is_success(status) {
        return Err(s3_error(status, body));
    }
    match parse_page(body) {
        Ok(page) => {
            add_page(path, &page, nodes);
            Ok(page.next_token)
        },
        Err(e) => {
            let mut r: String = "Couldn't parse the listing: ".to_owned();
            r.append(e.as_str());
            Err(r)
        },
    }
}

/// The page that a reply holds, or what is reported where it holds none.
pub open spec fn page_of(status: u16, body: Seq<char>) -> Result<PageView, Seq<char>> {
    if exchange::succeeded(status) {
        match parsed_page(body) {
            Ok(page) => Ok(page),
            Err(e) => Err("Couldn't parse the listing: "@ + e),
        }
    } else {
        Err(error_text(status, body))
    }
}

/// The listing of a directory, page by page.
#[derive(Debug)]
pub struct Listing {
    pub path: String,
    /// Where the page to ask for goes on; the first page has no such place.
    pub token: Option<String>,
    /// The nodes of the pages so far.
    pub nodes: Vec<RemoteNode>,
}

/// What a [`Listing`] says.
#[verifier::ext_equal]
pub struct ListingView {
    pub path: Seq<char>,
    pub token: Option<Seq<char>>,
    pub nodes: Seq<NodeView>,
}

impl View for Listing {
    type V = ListingView;

    open spec fn view(&self) -> ListingView {
        ListingView {
            path: self.path@,
            token: match self.token {
                Some(token) => Some(token@),
                None => None,
            },
            nodes: super::node_views(self.nodes@),
        }
    }
}

/// What comes after a page of a listing.
pub enum ListStep {
    /// There are more pages to ask for.
    More(Listing),
    /// The listing is over.
    Done(Result<Vec<RemoteNode>, String>),
}

/// What a [`ListStep`] says.
pub enum ListStepView {
    More(ListingView),
    Done(Result<Seq<NodeView>, Seq<char>>),
}

impl View for ListStep {
    type V = ListStepView;

    open spec fn view(&self) -> ListStepView {
        match *self {
            ListStep::More(listing) => ListStepView::More(listing@),
            ListStep::Done(Ok(nodes)) => ListStepView::Done(Ok(super::node_views(nodes@))),
            ListStep::Done(Err(e)) => ListStepView::Done(Err(e@)),
        }
    }
}

impl ListingView {
    /// No page has been asked for yet.
    pub open spec fn start(path: Seq<char>) -> ListingView {
        ListingView { path, token: None, nodes: Seq::empty() }
    }

    /// What the next page is asked for with.
    pub open spec fn target(
        self,
        bucket: BucketView,
        keys: (Seq<char>, Seq<char>),
    ) -> SignTarget {
        page_target(bucket, keys, prefix(self.path), self.token)
    }

    /// What comes after one more page, or after the report that there is none.
    pub open spec fn after(self, reply: Result<PageView, Seq<char>>) -> ListStepView {
        match reply {
            Err(e) => ListStepView::Done(Err(e)),
            Ok(page) => {
                let nodes = self.nodes + page_nodes(prefix(self.path), page);
                match page.next_token {
                    Some(token) => ListStepView::More(
                        ListingView { path: self.path, token: Some(token), nodes },
                    ),
                    None => ListStepView::Done(Ok(nodes)),
                }
            },
        }
    }

    /// What comes after a number of replies.
    pub open spec fn after_all(self, replies: Seq<Result<PageView, Seq<char>>>) -> ListStepView
        decreases replies.len(),
    {
        if replies.len() == 0 {
            ListStepView::More(self)
        } else {
            match self.after_all(replies.drop_last()) {
                ListStepView::More(listing) => listing.after(replies.last()),
                done => done,
            }
        }
    }
}

impl Listing {
    /// Starts to list a directory.
    pub fn new(path: &str) -> (r: Listing)
        ensures
            r@ == ListingView::start(path@),
    {
        let r = Listing { path: path.to_owned(), token: None, nodes: Vec::new() };
        assert(r@.nodes =~= Seq::empty());
        r
    }

    /// The request for the next page.
    pub fn request(&self, backend: &S3Backend) -> (r: HttpRequest)
        requires
            backend.wf(),
        ensures
            r@ == exchange::plain_request("GET"@, r@.url, None, None),
            is_signed(r@.url, self@.target(backend.bucket(), backend.keys())),
    {
        let token: Option<&str> = match &self.token {
            Some(token) => Some(token.as_str()),
            None => None,
        };
        backend.page_request(self.path.as_str(), token)
    }

    /// Goes on with the reply to that request.
    pub fn replied(self, status: u16, body: &str) -> (r: ListStep)
        requires
            100 <= status <= 999,
            exchange::succeeded(status) ==> body@.len() < u32::MAX,
        ensures
            r@ == self@.after(page_of(status, body@)),
    {
        let mut nodes = self.nodes;
        match page_reply(self.path.as_str(), status, body, &mut nodes) {
            Ok(Some(token)) => ListStep::More(
                Listing { path: self.path, token: Some(token), nodes },
            ),
            Ok(None) => ListStep::Done(Ok(nodes)),
            Err(e) => ListStep::Done(Err(e)),
        }
    }
}

/// The bytes `[start, end]` of a file, from the reply to the request for them: `body` is
/// what a successful one holds, `report` what any other says.
pub fn range_bytes(status: u16, body: Vec<u8>, report: &str, start: u64, end: u64) -> (r: Result<
    Vec<u8>,
    String,
>)
    requires
        100 <= status <= 999,
        status == 200 ==> start <= end < u64::MAX,
    ensures
        match r {
            Ok(bytes) => exchange::succeeded(status) && bytes@ == exchange::range_of(
                status,
                body@,
                start,
                end,
            ),
            Err(e) => !exchange::succeeded(status) && e@ == error_text(status, report@),
        },
{
    if !exchange::is_success(status) {
        return Err(s3_error(status, report));
    }
    Ok(exchange::range_reply(status, body, start, end))
}

/// A whole file, from the reply to the request for it: `body` is what a successful one
/// holds, `report` what any other says.
pub fn read_all(status: u16, body: Vec<u8>, report: &str) -> (r: Result<Vec<u8>, String>)
    requires
        100 <= status <= 999,
    ensures
        match r {
            Ok(bytes) => exchange::succeeded(status) && bytes@ == body@,
            Err(e) => !exchange::succeeded(status) && e@ == error_text(status, report@),
        },
{
    if !exchange::is_success(status) {
        return Err(s3_error(status, report));
    }
    Ok(body)
}

/// The size of a file, from the status and the `Content-Length` header of the reply.
pub fn size_of(path: &str, status: u16, content_length: Option<&str>) -> (r: Result<u64, String>)
    requires
        100 <= status <= 999,
    ensures
        match r {
            Ok(size) => exchange::succeeded(status) && content_length is Some
                && text::parse_decimal(content_length->0@) == Some(size),
            Err(e) => if exchange::succeeded(status) {
                (content_length is Some ==> text::parse_decimal(content_length->0@) is None) && e@
                    == "The endpoint didn't report a size for "@ + key(path@) + "."@
            } else {
                e@ == "The endpoint returned "@ + exchange::status_text(status) + " for "@ + key(
                    path@,
                ) + "."@
            },
        },
{
    let key = key_of(path);
    if !exchange::is_success(status) {
        let mut e: String = "The endpoint returned ".to_owned();
        e.append(exchange::status_line(status).as_str());
        e.append(" for ");
        e.append(key.as_str());
        e.append(".");
        return Err(e);
    }
    match exchange::size_from_header(content_length) {
        Some(size) => Ok(size),
        None => {
            let mut e: String = "The endpoint didn't report a size for ".to_owned();
            e.append(key.as_str());
            e.append(".");
            Err(e)
        },
    }
}

/// The message of an error document, trimmed.
pub open spec fn error_message(body: Seq<char>) -> Option<Seq<char>> {
    match text::split_once(body, "<Message>"@) {
        Some((_, rest)) => match text::split_once(rest, "</Message>"@) {
            Some((message, _)) => Some(text::trim(message)),
            None => None,
        },
        None => None,
    }
}

/// The report of a request that failed.
pub open spec fn error_text(status: u16, body: Seq<char>) -> Seq<char> {
    match error_message(body) {
        Some(message) => if message.len() > 0 {
            "Storage error "@ + exchange::status_text(status) + ": "@ + message
        } else {
            "Storage error "@ + exchange::status_text(status) + "."@
        },
        None => "Storage error "@ + exchange::status_text(status) + "."@,
    }
}

/// S3 reports failures as an XML document; surface its `<Message>` rather than a bare
/// status code, since "SignatureDoesNotMatch" tells the user far more.
pub fn s3_error(status: u16, body: &str) -> (r: String)
    requires
        100 <= status <= 999,
    ensures
        r@ == error_text(status, body@),
{
    let message: Option<&str> = match text::split_once_str(body, "<Message>") {
        Some((_, rest)) => match text::split_once_str(rest, "</Message>") {
            Some((message, _)) => Some(text::trimmed(message)),
            None => None,
        },
        None => None,
    };
    let mut r: String = "Storage error ".to_owned();
    r.append(exchange::status_line(status).as_str());
    match message {
        Some(m) => {
            if !m.is_empty() {
                r.append(": ");
                r.append(m);
            } else {
                r.append(".");
            }
        },
        None => {
            r.append(".");
        },
    }
    r
}

// =====================================================================
// Laws
// =====================================================================

/// The nodes of pages, one page after the other.
pub open spec fn all_nodes(prefix: Seq<char>, pages: Seq<PageView>) -> Seq<NodeView>
    decreases pages.len(),
{
    if pages.len() == 0 {
        Seq::empty()
    } else {
        all_nodes(prefix, pages.drop_last()) + page_nodes(prefix, pages.last())
    }
}

/// Replies that hold these pages.
pub open spec fn replies_with(pages: Seq<PageView>) -> Seq<Result<PageView, Seq<char>>> {
    Seq::new(pages.len(), |i: int| Ok(pages[i]))
}

/// While every page so far has said where the next one goes on, the listing goes on: it
/// holds the nodes of all pages in order, and the next request carries what the last page
/// said. It is over with the first page that says nothing of a next one, and comes to the
/// nodes of all pages in order.
pub proof fn law_listing_joins_pages(
    path: Seq<char>,
    pages: Seq<PageView>,
    bucket: BucketView,
    keys: (Seq<char>, Seq<char>),
)
    requires
        pages.len() > 0,
        forall|i: int| 0 <= i < pages.len() - 1 ==> (#[trigger] pages[i]).next_token is Some,
    ensures
        ({
            let step = ListingView::start(path).after_all(replies_with(pages));
            let nodes = all_nodes(prefix(path), pages);
            match pages.last().next_token {
                Some(token) => {
                    let listing = ListingView { path, token: Some(token), nodes };
                    &&& step == ListStepView::More(listing)
                    &&& listing.target(bucket, keys) == page_target(
                        bucket,
                        keys,
                        prefix(path),
                        Some(token),
                    )
                },
                None => step == ListStepView::Done(Ok(nodes)),
            }
        }),
    decreases pages.len(),
{
    let replies = replies_with(pages);
    let rest = pages.drop_last();
    assert(replies.drop_last() =~= replies_with(rest));
    assert(replies.last() == Ok::<PageView, Seq<char>>(pages.last()));
    if rest.len() == 0 {
        assert(all_nodes(prefix(path), rest) =~= Seq::empty());
        assert(ListingView::start(path).after_all(replies.drop_last()) == ListStepView::More(
            ListingView::start(path),
        ));
    } else {
        assert(rest.last() == pages[pages.len() - 2]);
        assert forall|i: int| 0 <= i < rest.len() - 1 implies (#[trigger] rest[i]).next_token is Some by {
            assert(rest[i] == pages[i]);
        }
        law_listing_joins_pages(path, rest, bucket, keys);
    }
}

/// A listing that is over stays as it is, whatever else might be replied; a reply without a
/// page ends it with that report, and the nodes so far are dropped.
pub proof fn law_listing_ends(
    path: Seq<char>,
    replies: Seq<Result<PageView, Seq<char>>>,
    more: Result<PageView, Seq<char>>,
)
    ensures
        ({
            let step = ListingView::start(path).after_all(replies);
            &&& step is Done ==> ListingView::start(path).after_all(replies.push(more)) == step
            &&& step is More && more is Err ==> ListingView::start(path).after_all(
                replies.push(more),
            ) == ListStepView::Done(Err(more->Err_0))
        }),
{
    assert(replies.push(more).drop_last() =~= replies);
}

/// A folder of a listing, opened, lists the keys below the common prefix it stands for.
pub proof fn law_folder_opens(trimmed: Seq<char>)
    requires
        trimmed.len() > 0,
        trimmed[0] != '/',
        trimmed.last() != '/',
    ensures
        folders(seq![trimmed.push('/')]).len() <= 1,
        folders(seq![trimmed.push('/')]).len() == 1 ==> prefix(
            folders(seq![trimmed.push('/')])[0].path,
        ) == trimmed.push('/'),
{
    reveal_strlit("/");
    let cp = trimmed.push('/');
    let one = seq![cp];
    assert(one.drop_last() =~= Seq::empty());
    assert(folders(one.drop_last()).len() == 0);
    assert(cp.drop_last() =~= trimmed);
    reveal_with_fuel(text::trim_end_char, 2);
    reveal_with_fuel(text::trim_start_char, 2);
    let path = "/"@ + trimmed;
    assert(path.skip(1) =~= trimmed);
}

/// A file of a listing is read by the key it was listed by.
pub proof fn law_file_opens(prefix: Seq<char>, object: Seq<char>, size: u64)
    requires
        object.len() > 0,
        object[0] != '/',
    ensures
        files(prefix, seq![(object, size)]).len() <= 1,
        files(prefix, seq![(object, size)]).len() == 1 ==> key(
            files(prefix, seq![(object, size)])[0].path,
        ) == object,
{
    reveal_strlit("/");
    let one = seq![(object, size)];
    assert(one.drop_last() =~= Seq::empty());
    assert(files(prefix, one.drop_last()).len() == 0);
    reveal_with_fuel(text::trim_start_char, 2);
    assert(("/"@ + object).skip(1) =~= object);
}

/// A prefix is that of the whole bucket or ends in a slash, and does not begin with one;
/// it is the prefix of itself.
pub proof fn law_prefix(path: Seq<char>)
    ensures
        prefix(path).len() > 0 ==> prefix(path).last() == '/' && prefix(path)[0] != '/',
        prefix(prefix(path)) == prefix(path),
{
    text::lemma_trim_start_char(path, '/');
    let k = key(path);
    let p = prefix(path);
    if k.len() > 0 {
        assert(p[0] == k[0]);
    }
}

/// Neither a folder nor a file of a listing is hidden, and the folder marker of the
/// directory itself is none of its files.
pub proof fn law_marker_is_skipped(prefix: Seq<char>, contents: Seq<(Seq<char>, u64)>, i: int)
    requires
        0 <= i < files(prefix, contents).len(),
    ensures
        files(prefix, contents)[i].path != "/"@ + prefix,
        shown(files(prefix, contents)[i].name),
    decreases contents.len(),
{
    let before = files(prefix, contents.drop_last());
    if i < before.len() {
        law_marker_is_skipped(prefix, contents.drop_last(), i);
    } else {
        let key = contents.last().0;
        if "/"@ + key == "/"@ + prefix {
            reveal_strlit("/");
            assert(("/"@ + key).skip(1) =~= key);
            assert(("/"@ + prefix).skip(1) =~= prefix);
        }
    }
}

/// The objects of a page are read one by one: what comes of the first ones is followed by what
/// comes of the others, so none is left out, doubled or moved.
pub proof fn law_objects_are_read_in_order(
    prefix: Seq<char>,
    some: Seq<(Seq<char>, u64)>,
    more: Seq<(Seq<char>, u64)>,
)
    ensures
        files(prefix, some + more) == files(prefix, some) + files(prefix, more),
        files(prefix, Seq::empty()).len() == 0,
    decreases more.len(),
{
    if more.len() == 0 {
        assert(some + more =~= some);
        assert(files(prefix, some) + files(prefix, more) =~= files(prefix, some));
    } else {
        law_objects_are_read_in_order(prefix, some, more.drop_last());
        assert((some + more).drop_last() =~= some + more.drop_last());
        assert((some + more).last() == more.last());
        assert(files(prefix, some + more) =~= files(prefix, some) + files(prefix, more));
    }
}

/// The common prefixes of a page are read one by one, as its objects are.
pub proof fn law_prefixes_are_read_in_order(some: Seq<Seq<char>>, more: Seq<Seq<char>>)
    ensures
        folders(some + more) == folders(some) + folders(more),
        folders(Seq::empty()).len() == 0,
    decreases more.len(),
{
    if more.len() == 0 {
        assert(some + more =~= some);
        assert(folders(some) + folders(more) =~= folders(some));
    } else {
        law_prefixes_are_read_in_order(some, more.drop_last());
        assert((some + more).drop_last() =~= some + more.drop_last());
        assert((some + more).last() == more.last());
        assert(folders(some + more) =~= folders(some) + folders(more));
    }
}

/// What a key is made of: the directory it is in, with its slash, and a name, which slashes may
/// follow.
pub open spec fn is_key(dir: Seq<char>, name: Seq<char>, slashes: Seq<char>) -> bool {
    &&& dir.len() > 0 ==> dir.last() == '/'
    &&& name.len() > 0
    &&& !name.contains('/')
    &&& forall|i: int| 0 <= i < slashes.len() ==> #[trigger] slashes[i] == '/'
}

proof fn lemma_key_name(dir: Seq<char>, name: Seq<char>, slashes: Seq<char>)
    requires
        is_key(dir, name, slashes),
    ensures
        text::trim_end_char(dir + name + slashes, '/') == dir + name,
        text::after_last(dir + name, '/') == name,
{
    assert(name.contains(name.last()));
    assert((dir + name).last() == name.last());
    text::law_trim_char(dir + name, slashes, '/');
    let above = dir.drop_last();
    text::law_after_last(above, '/', name);
    if dir.len() > 0 {
        assert(dir + name =~= above + seq!['/'] + name);
    } else {
        assert(dir + name =~= name);
    }
}

/// An object becomes one file with its key as its path, the last component of it as its name,
/// and its own size, unless it is the marker of the directory itself or its name is hidden.
pub proof fn law_object_becomes_file(
    prefix: Seq<char>,
    dir: Seq<char>,
    name: Seq<char>,
    slashes: Seq<char>,
    size: u64,
)
    requires
        is_key(dir, name, slashes),
    ensures
        ({
            let object = dir + name + slashes;
            let nodes = files(prefix, seq![(object, size)]);
            if object == prefix || name[0] == '.' {
                nodes.len() == 0
            } else {
                &&& nodes.len() == 1
                &&& nodes[0].path == "/"@ + object
                &&& nodes[0].name == name
                &&& !nodes[0].is_dir
                &&& nodes[0].size == size
            }
        }),
{
    lemma_key_name(dir, name, slashes);
    let one = seq![(dir + name + slashes, size)];
    assert(one.drop_last() =~= Seq::empty());
    assert(files(prefix, one.drop_last()).len() == 0);
}

/// A common prefix becomes one folder with the prefix, rid of the slashes at its end, as its
/// path, and the last component of it as its name, unless the name is hidden.
pub proof fn law_prefix_becomes_folder(dir: Seq<char>, name: Seq<char>, slashes: Seq<char>)
    requires
        is_key(dir, name, slashes),
    ensures
        ({
            let nodes = folders(seq![dir + name + slashes]);
            if name[0] == '.' {
                nodes.len() == 0
            } else {
                &&& nodes.len() == 1
                &&& nodes[0].path == "/"@ + dir + name
                &&& nodes[0].name == name
                &&& nodes[0].is_dir
                &&& nodes[0].size == 0
            }
        }),
{
    lemma_key_name(dir, name, slashes);
    let one = seq![dir + name + slashes];
    assert(one.drop_last() =~= Seq::empty());
    assert(folders(one.drop_last()).len() == 0);
    assert("/"@ + (dir + name) =~= "/"@ + dir + name);
}

/// A key without a name, of nothing but slashes, is listed neither as a file nor as a folder.
pub proof fn law_nameless_keys_are_left_out(
    prefix: Seq<char>,
    slashes: Seq<char>,
    size: u64,
)
    requires
        forall|i: int| 0 <= i < slashes.len() ==> #[trigger] slashes[i] == '/',
    ensures
        files(prefix, seq![(slashes, size)]).len() == 0,
        folders(seq![slashes]).len() == 0,
{
    let none = Seq::<char>::empty();
    text::law_trim_char(none, slashes, '/');
    text::law_after_last(none, '/', none);
    assert(text::trim_end_char(slashes, '/') =~= none);
    assert(seq![(slashes, size)].drop_last() =~= Seq::empty());
    assert(files(prefix, Seq::empty()).len() == 0);
    assert(seq![slashes].drop_last() =~= Seq::empty());
    assert(folders(Seq::empty()).len() == 0);
}

/// The folders of a page come before its files, all of both and nothing else.
pub proof fn law_page_has_folders_then_files(prefix: Seq<char>, page: PageView, i: int)
    requires
        0 <= i < page_nodes(prefix, page).len(),
    ensures
        page_nodes(prefix, page).len() == folders(page.common_prefixes).len() + files(
            prefix,
            page.contents,
        ).len(),
        i < folders(page.common_prefixes).len() ==> page_nodes(prefix, page)[i] == folders(
            page.common_prefixes,
        )[i] && page_nodes(prefix, page)[i].is_dir,
        i >= folders(page.common_prefixes).len() ==> page_nodes(prefix, page)[i] == files(
            prefix,
            page.contents,
        )[i - folders(page.common_prefixes).len()] && !page_nodes(prefix, page)[i].is_dir,
{
    lemma_kinds(prefix, page.common_prefixes, page.contents, i);
    lemma_kinds(
        prefix,
        page.common_prefixes,
        page.contents,
        i - folders(page.common_prefixes).len(),
    );
}

proof fn lemma_kinds(
    prefix: Seq<char>,
    prefixes: Seq<Seq<char>>,
    contents: Seq<(Seq<char>, u64)>,
    i: int,
)
    ensures
        0 <= i < folders(prefixes).len() ==> folders(prefixes)[i].is_dir,
        0 <= i < files(prefix, contents).len() ==> !files(prefix, contents)[i].is_dir,
    decreases prefixes.len() + contents.len(),
{
    if prefixes.len() > 0 {
        lemma_kinds(prefix, prefixes.drop_last(), contents, i);
    } else if contents.len() > 0 {
        lemma_kinds(prefix, prefixes, contents.drop_last(), i);
    }
}

/// The key of a path is the path without the slashes in front, and the prefix of the directory
/// there is the key, with a slash at its end.
pub proof fn law_key(slashes: Seq<char>, object: Seq<char>)
    requires
        forall|i: int| 0 <= i < slashes.len() ==> #[trigger] slashes[i] == '/',
        object.len() > 0 ==> object[0] != '/',
    ensures
        key(slashes + object) == object,
        prefix(slashes + object) == if object.len() == 0 || object.last() == '/' {
            object
        } else {
            object + seq!['/']
        },
{
    text::law_trim_char(object, slashes, '/');
    if object.len() == 0 {
        assert(slashes + object =~= slashes);
        assert(key(slashes) =~= object);
    } else {
        assert(object.push('/') =~= object + seq!['/']);
    }
}

/// Complete settings hold what was configured, without white space around it; the region may be
/// left open. What is lacking first is what is reported.
pub proof fn law_settings(config: ServerConfig, secrets: ServerSecrets)
    ensures
        settings_of(config, secrets) is Ok <==> text::trim(config.host@).len() > 0 && text::trim(
            config.bucket@,
        ).len() > 0 && text::trim(config.username@).len() > 0 && secrets.password@.len() > 0,
        settings_of(config, secrets) matches Ok(s) ==> {
            &&& s.endpoint == text::trim(config.host@)
            &&& s.bucket == text::trim(config.bucket@)
            &&& s.keys == (text::trim(config.username@), secrets.password@)
            &&& s.path_style == config.path_style
            &&& s.region == if text::all_white(config.region@) {
                "us-east-1"@
            } else {
                text::trim(config.region@)
            }
        },
        text::all_white(config.host@) ==> settings_of(config, secrets) == Err::<
            SettingsView,
            Seq<char>,
        >("This server has no endpoint URL set."@),
        !text::all_white(config.host@) && text::all_white(config.bucket@) ==> settings_of(
            config,
            secrets,
        ) == Err::<SettingsView, Seq<char>>("This server has no bucket name set."@),
        !text::all_white(config.host@) && !text::all_white(config.bucket@) && settings_of(
            config,
            secrets,
        ) is Err ==> settings_of(config, secrets) == Err::<SettingsView, Seq<char>>(
            "This server is missing its access key or secret key."@,
        ),
{
    text::lemma_trim_blank(config.host@);
    text::lemma_trim_blank(config.bucket@);
    text::lemma_trim_blank(config.region@);
}

/// A page of a listing is asked for with the delimiter, with the prefix unless it is that of the
/// whole bucket, with the token of the page before unless it is the first, and with nothing
/// else that changes from page to page.
pub proof fn law_page_target(
    bucket: BucketView,
    keys: (Seq<char>, Seq<char>),
    prefix: Seq<char>,
    token: Option<Seq<char>>,
    name: Seq<char>,
)
    ensures
        ({
            let target = page_target(bucket, keys, prefix, token);
            &&& target.bucket == bucket && target.keys == keys && !target.head && target.object
                is None
            &&& target.query.contains_key(name) <==> name == "list-type"@ || name
                == "encoding-type"@ || name == "delimiter"@ || (name == "prefix"@ && prefix.len()
                > 0) || (name == "continuation-token"@ && token is Some)
            &&& target.query["delimiter"@] == "/"@
            &&& prefix.len() > 0 ==> target.query["prefix"@] == prefix
            &&& token matches Some(t) ==> target.query["continuation-token"@] == t
            &&& target.query["list-type"@] == "2"@
            &&& target.query["encoding-type"@] == "url"@
        }),
{
    reveal_strlit("list-type");
    reveal_strlit("encoding-type");
    reveal_strlit("delimiter");
    reveal_strlit("prefix");
    reveal_strlit("continuation-token");
    assert("list-type"@.len() == 9 && "encoding-type"@.len() == 13 && "delimiter"@.len() == 9
        && "prefix"@.len() == 6 && "continuation-token"@.len() == 18);
    assert("list-type"@[0] == 'l' && "delimiter"@[0] == 'd');
}

/// A failed request is reported with its status and the message of the error document, if there
/// is one that is not blank: what stands between the first tag that opens a message and the
/// next one that closes it.
pub proof fn law_error_text(
    status: u16,
    before: Seq<char>,
    message: Seq<char>,
    after: Seq<char>,
    body: Seq<char>,
)
    requires
        forall|j: int|
            0 <= j < before.len() ==> !text::occurs_at(
                before + "<Message>"@ + (message + "</Message>"@ + after),
                "<Message>"@,
                j,
            ),
        forall|j: int|
            0 <= j < message.len() ==> !text::occurs_at(
                message + "</Message>"@ + after,
                "</Message>"@,
                j,
            ),
        forall|j: int| !text::occurs_at(body, "<Message>"@, j),
    ensures
        error_text(status, before + "<Message>"@ + (message + "</Message>"@ + after))
            == "Storage error "@ + exchange::status_text(status) + if text::all_white(message) {
            "."@
        } else {
            ": "@ + text::trim(message)
        },
        error_text(status, body) == "Storage error "@ + exchange::status_text(status) + "."@,
{
    let rest = message + "</Message>"@ + after;
    let whole = before + "<Message>"@ + rest;
    lemma_cut(before, "<Message>"@, rest);
    lemma_cut(message, "</Message>"@, after);
    text::lemma_trim_blank(message);
    text::lemma_find_from_none(body, "<Message>"@, 0);
    let said = "Storage error "@ + exchange::status_text(status);
    assert(said + (": "@ + text::trim(message)) =~= said + ": "@ + text::trim(message));
}

proof fn lemma_cut(a: Seq<char>, pat: Seq<char>, b: Seq<char>)
    requires
        forall|j: int| 0 <= j < a.len() ==> !text::occurs_at(a + pat + b, pat, j),
    ensures
        text::split_once(a + pat + b, pat) == Some((a, b)),
{
    let s = a + pat + b;
    let k = a.len() as int;
    assert(s.subrange(k, k + pat.len()) =~= pat);
    text::lemma_find_from_is(s, pat, 0, k);
    assert(s.take(k) =~= a);
    assert(s.skip(k + pat.len()) =~= b);
}

/// A bucket is configured with the region of the settings, below the URL that its endpoint, its
/// style and its name make; an endpoint that is no URL, and then a bucket that has none, are
/// reported as such.
pub proof fn law_bucket_of(settings: SettingsView, e: Seq<char>)
    ensures
        bucket_of(settings) matches Ok(b) ==> b.region == settings.region && parsed_url(
            settings.endpoint,
        ) is Ok && bucket_url(
            parsed_url(settings.endpoint)->Ok_0,
            settings.path_style,
            settings.bucket,
        ) == Ok::<Seq<char>, Seq<char>>(b.base_url),
        parsed_url(settings.endpoint) == Err::<Seq<char>, Seq<char>>(e) ==> bucket_of(settings)
            == Err::<BucketView, Seq<char>>(
            "That endpoint isn't a valid URL ("@ + e + "). Include https://"@,
        ),
        parsed_url(settings.endpoint) matches Ok(url) ==> bucket_url(
            url,
            settings.path_style,
            settings.bucket,
        ) == Err::<Seq<char>, Seq<char>>(e) ==> bucket_of(settings) == Err::<
            BucketView,
            Seq<char>,
        >("Couldn't configure that bucket: "@ + e),
{
}

/// A request for an object is for that object of that bucket, signed with those keys, and for the
/// head alone or for the whole as it says; it has no parameters.
pub proof fn law_object_target(
    bucket: BucketView,
    keys: (Seq<char>, Seq<char>),
    head: bool,
    object: Seq<char>,
    name: Seq<char>,
)
    ensures
        ({
            let target = object_target(bucket, keys, head, object);
            &&& target.bucket == bucket && target.keys == keys && target.head == head
            &&& target.object == Some(object)
            &&& !target.query.contains_key(name)
        }),
{
}

/// A reply holds a page exactly where the request succeeded and its body is one; otherwise what is
/// wrong is reported.
pub proof fn law_page_of(status: u16, body: Seq<char>)
    ensures
        page_of(status, body) is Ok <==> 200 <= status <= 299 && parsed_page(body) is Ok,
        page_of(status, body) is Ok ==> page_of(status, body) == parsed_page(body),
        200 <= status <= 299 && parsed_page(body) is Err ==> page_of(status, body) == Err::<
            PageView,
            Seq<char>,
        >("Couldn't parse the listing: "@ + parsed_page(body)->Err_0),
        !(200 <= status <= 299) ==> page_of(status, body) == Err::<PageView, Seq<char>>(
            error_text(status, body),
        ),
{
}

/// A page and settings say what their fields hold.
pub proof fn law_pages_say_what_they_hold(page: Page, settings: S3Settings, i: int)
    ensures
        page@.common_prefixes.len() == page.common_prefixes@.len(),
        0 <= i < page.common_prefixes@.len() ==> page@.common_prefixes[i]
            == page.common_prefixes@[i]@,
        page@.contents.len() == page.contents@.len(),
        0 <= i < page.contents@.len() ==> page@.contents[i] == (
            page.contents@[i].0@,
            page.contents@[i].1,
        ),
        page.next_token matches Some(t) ==> page@.next_token == Some(t@),
        page.next_token is None <==> page@.next_token is None,
        settings@.endpoint == settings.endpoint@,
        settings@.path_style == settings.path_style,
        settings@.bucket == settings.bucket@,
        settings@.region == settings.region@,
        settings@.keys == (settings.access_key@, settings.secret_key@),
{
}

/// A listing and a step of one say what they hold.
pub proof fn law_listings_say_what_they_hold(listing: Listing, nodes: Vec<RemoteNode>, e: String)
    ensures
        listing@.path == listing.path@,
        listing.token matches Some(t) ==> listing@.token == Some(t@),
        listing.token is None <==> listing@.token is None,
        listing@.nodes == super::node_views(listing.nodes@),
        ListStep::More(listing)@ == ListStepView::More(listing@),
        ListStep::Done(Ok(nodes))@ == ListStepView::Done(Ok(super::node_views(nodes@))),
        ListStep::Done(Err(e))@ == ListStepView::Done(Err(e@)),
{
}

/// The first page of a listing is asked for without a token.
pub proof fn law_first_page(path: Seq<char>, bucket: BucketView, keys: (Seq<char>, Seq<char>))
    ensures
        ListingView::start(path).target(bucket, keys) == page_target(
            bucket,
            keys,
            prefix(path),
            None,
        ),
        ListingView::start(path).nodes.len() == 0,
        ListingView::start(path).path == path,
{
}

/// A message that is opened and never closed is none.
pub proof fn law_unclosed_message(status: u16, before: Seq<char>, rest: Seq<char>)
    requires
        forall|j: int|
            0 <= j < before.len() ==> !text::occurs_at(
                before + "<Message>"@ + rest,
                "<Message>"@,
                j,
            ),
        forall|j: int| !text::occurs_at(rest, "</Message>"@, j),
    ensures
        error_text(status, before + "<Message>"@ + rest) == "Storage error "@
            + exchange::status_text(status) + "."@,
{
    lemma_cut(before, "<Message>"@, rest);
    text::lemma_find_from_none(rest, "</Message>"@, 0);
}

/// A signed URL is good for two minutes from when it was signed.
pub proof fn law_signed_for_two_minutes(url: Seq<char>, target: SignTarget)
    ensures
        is_signed(url, target) <==> exists|time: int| url == #[trigger] signed_url(target, 120, time),
{
}

/// Requests can be signed for buckets below a URL of either scheme of the web, and for no others.
pub proof fn law_signable(base_url: Seq<char>, rest: Seq<char>, region: Seq<char>)
    ensures
        signable((BucketView { base_url: "http://"@ + rest, region })),
        signable((BucketView { base_url: "https://"@ + rest, region })),
        signable((BucketView { base_url, region })) ==> base_url == "http://"@ + base_url.skip(7)
            || base_url == "https://"@ + base_url.skip(8),
{
    reveal_strlit("http://");
    reveal_strlit("https://");
    text::law_strip_prefix("http://"@, rest, base_url);
    text::law_strip_prefix("https://"@, rest, base_url);
}

} // verus!
