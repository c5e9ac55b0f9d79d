//! WebDAV backend — Nextcloud, ownCloud, `rclone serve webdav`, Apache mod_dav.
//!
//! Listing is a `PROPFIND` with `Depth: 1`; streaming is a plain ranged `GET`. Both are
//! ordinary HTTP: this module says what to ask for and reads the replies.
use vstd::prelude::*;
use vstd::string::*;
use vstd::utf8::*;

use super::exchange;
use super::exchange::{HttpRequest, RequestView};
use super::propfind::{parse_propfind, EntryFound, PropfindEntry};
use super::{NodeView, RemoteNode, ServerConfig, ServerSecrets};
use crate::percent;
use crate::text;

verus! {

/// What a listing asks for: whether each entry is a collection, and its size.
pub const PROPFIND_BODY: &'static str = "<?xml version=\"1.0\" encoding=\"utf-8\"?>\n<d:propfind xmlns:d=\"DAV:\">\n  <d:prop><d:resourcetype/><d:getcontentlength/></d:prop>\n</d:propfind>";

/// A WebDAV server with credentials.
#[derive(Debug)]
pub struct WebdavBackend {
    /// Base URL with no trailing slash, e.g. `https://cloud.example.com/remote.php/dav/files/me`.
    pub base: String,
    pub username: String,
    pub password: String,
}

/// The base URL that a configured host stands for.
pub open spec fn base_of(host: Seq<char>) -> Seq<char> {
    text::trim_end_char(text::trim(host), '/')
}

/// `base` is a URL this backend can use.
pub open spec fn is_http(base: Seq<char>) -> bool {
    text::starts_with(base, "http://"@) || text::starts_with(base, "https://"@)
}

/// Takes over the settings of a server. No request is made until one is needed.
pub fn connect(config: &ServerConfig, secrets: &ServerSecrets) -> (r: Result<WebdavBackend, String>)
    ensures
        match r {
            Ok(b) => is_http(base_of(config.host@)) && b.base@ == base_of(config.host@)
                && b.username@ == config.username@ && b.password@ == secrets.password@,
            Err(e) => if base_of(config.host@).len() == 0 {
                e@ == "This server has no URL set."@
            } else {
                !is_http(base_of(config.host@)) && e@
                    == "The WebDAV URL must start with http:// or https://"@
            },
        },
{
    let base = text::trim_end_matches(text::trimmed(config.host.as_str()), '/');
    if base.is_empty() {
        proof {
            reveal_strlit("http://");
            reveal_strlit("https://");
        }
        return Err("This server has no URL set.".to_owned());
    }
    if !text::begins_with(base, "http://") && !text::begins_with(base, "https://") {
        return Err("The WebDAV URL must start with http:// or https://".to_owned());
    }
    Ok(
        WebdavBackend {
            base: base.to_owned(),
            username: config.username.clone(),
            password: secrets.password.clone(),
        },
    )
}

/// `parts`, each percent-encoded.
pub open spec fn encoded_parts(parts: Seq<Seq<char>>) -> Seq<Seq<char>> {
    parts.map_values(|part: Seq<char>| percent::encoded(part))
}

/// The URL of a path on a server: its segments, encoded one by one, below the base.
pub open spec fn url_of(base: Seq<char>, path: Seq<char>) -> Seq<char> {
    let encoded = text::join(encoded_parts(text::segments(path, '/')), "/"@);
    if encoded.len() == 0 {
        base
    } else {
        base + "/"@ + encoded
    }
}

/// The part of an absolute URL from the first slash after the host on; `None` if
/// there is no such slash.
pub open spec fn path_of_url(url: Seq<char>, scheme_end: int) -> Option<Seq<char>> {
    let after = url.skip(scheme_end + 3);
    match text::find(after, "/"@) {
        Some(slash) => Some(after.skip(slash)),
        None => None,
    }
}

/// The path that a base URL itself has, which every path below it begins with.
pub open spec fn mount_point(base: Seq<char>) -> Seq<char> {
    match text::find(base, "://"@) {
        Some(i) => match path_of_url(base, i) {
            Some(path) => path,
            None => Seq::empty(),
        },
        None => Seq::empty(),
    }
}

/// The path on the server that a decoded link leads to.
pub open spec fn path_of_link(base: Seq<char>, link: Seq<char>) -> Option<Seq<char>> {
    let path = match text::find(link, "://"@) {
        Some(i) => path_of_url(link, i),
        None => Some(link),
    };
    match path {
        Some(path) => {
            let below = match text::strip_prefix(path, mount_point(base)) {
                Some(below) => below,
                None => path,
            };
            let rel = text::trim_end_char(below, '/');
            Some(
                if rel.len() == 0 {
                    "/"@
                } else if rel[0] == '/' {
                    rel
                } else {
                    "/"@ + rel
                },
            )
        },
        None => None,
    }
}

/// The path on the server that an href of a reply leads to.
pub open spec fn path_of_href(base: Seq<char>, href: Seq<char>) -> Option<Seq<char>> {
    match percent::decoded(href) {
        Some(link) => path_of_link(base, link),
        None => None,
    }
}

fn url_path(url: &str, scheme_end: usize) -> (r: Option<&str>)
    requires
        scheme_end + 3 <= url@.len() <= usize::MAX,
    ensures
        match r {
            Some(path) => path_of_url(url@, scheme_end as int) == Some(path@),
            None => path_of_url(url@, scheme_end as int) is None,
        },
{
    let after = text::from(url, scheme_end + 3);
    match text::find_str(after, "/") {
        Some(slash) => Some(text::from(after, slash)),
        None => None,
    }
}

impl WebdavBackend {
    /// Absolute URL for a server path, encoding each segment but keeping the
    /// separators — spaces and accents in course folders are the norm.
    pub fn url_for(&self, path: &str) -> (r: String)
        ensures
            r@ == url_of(self.base@, path@),
    {
        let parts = text::segments_of(path, '/');
        let ghost segments = text::segments(path@, '/');
        let n: usize = parts.len();
        let mut encoded: String = String::new();
        let mut i: usize = 0;
        proof {
            assert(encoded_parts(segments).take(0) =~= Seq::empty());
            assert(encoded@ =~= text::join(encoded_parts(segments).take(0), "/"@));
        }
        while i < n
            invariant
                0 <= i <= n,
                n == parts@.len(),
                segments == text::views(parts@),
                encoded@ == text::join(encoded_parts(segments).take(i as int), "/"@),
            decreases n - i,
        {
            let one = percent::encode_segment(parts[i].as_str());
            proof {
                let all = encoded_parts(segments);
                assert(all.take(i + 1).drop_last() =~= all.take(i as int));
                assert(all.take(i + 1).last() == one@);
            }
            if i > 0 {
                encoded.append("/");
            }
            let ghost was = encoded@;
            encoded.append(one.as_str());
            proof {
                if i == 0 {
                    assert(was + one@ =~= one@);
                }
            }
            i = i + 1;
        }
        proof {
            assert(encoded_parts(segments).take(n as int) =~= encoded_parts(segments));
        }
        if encoded.as_str().is_empty() {
            self.base.clone()
        } else {
            let mut url: String = self.base.clone();
            url.append("/");
            url.append(encoded.as_str());
            url
        }
    }

    /// The credentials a request carries: none where neither user name nor password is
    /// set.
    pub open spec fn login(self) -> Option<(Seq<char>, Seq<char>)> {
        if self.username@.len() == 0 && self.password@.len() == 0 {
            None
        } else {
            Some((self.username@, self.password@))
        }
    }

    fn authed(&self) -> (r: Option<(String, String)>)
        ensures
            match r {
                Some((user, password)) => self.login() == Some((user@, password@)),
                None => self.login() is None,
            },
    {
        if self.username.as_str().is_empty() && self.password.as_str().is_empty() {
            None
        } else {
            Some((self.username.clone(), self.password.clone()))
        }
    }

    /// Map an href from a PROPFIND response back to a server path. Servers return hrefs
    /// as absolute paths with the DAV mount point, so strip the base URL's own path
    /// prefix.
    pub fn path_from_href(&self, href: &str) -> (r: Option<String>)
        ensures
            match r {
                Some(path) => path_of_href(self.base@, href@) == Some(path@),
                None => path_of_href(self.base@, href@) is None,
            },
    {
        let decoded = match percent::decode(href) {
            Some(decoded) => decoded,
            None => {
                return None;
            },
        };
        proof {
            reveal_strlit("://");
        }
        let path_part = match text::find_str(decoded.as_str(), "://") {
            Some(i) => match url_path(decoded.as_str(), i) {
                Some(path) => path,
                None => {
                    return None;
                },
            },
            None => decoded.as_str(),
        };
        proof {
            reveal_strlit("");
        }
        let base_path = match text::find_str(self.base.as_str(), "://") {
            Some(i) => match url_path(self.base.as_str(), i) {
                Some(path) => path,
                None => "",
            },
            None => "",
        };
        assert(base_path@ =~= mount_point(self.base@));
        let below = match text::without_prefix(path_part, base_path) {
            Some(below) => below,
            None => path_part,
        };
        let rel = text::trim_end_matches(below, '/');
        if rel.is_empty() {
            Some("/".to_owned())
        } else if text::begins_with_char(rel, '/') {
            Some(rel.to_owned())
        } else {
            let mut r: String = "/".to_owned();
            r.append(rel);
            Some(r)
        }
    }

    /// The request that lists a directory.
    pub fn list_request(&self, path: &str) -> (r: HttpRequest)
        ensures
            r@ == listing_request(url_of(self.base@, path@), self.login()),
    {
        let mut headers: Vec<(&'static str, String)> = Vec::new();
        headers.push(("Depth", "1".to_owned()));
        headers.push(("Content-Type", "application/xml; charset=utf-8".to_owned()));
        let r = HttpRequest {
            method: "PROPFIND",
            url: self.url_for(path),
            headers,
            body: Some(PROPFIND_BODY),
            basic_auth: self.authed(),
        };
        assert(r@.headers =~= listing_request(url_of(self.base@, path@), self.login()).headers);
        r
    }

    /// Whether the reply to a listing holds one.
    pub fn list_status(&self, path: &str, status: u16) -> (r: Result<(), String>)
        requires
            100 <= status <= 999,
        ensures
            match r {
                Ok(_) => exchange::succeeded(status),
                Err(e) => !exchange::succeeded(status) && e@ == if status == 401 {
                    "The server rejected those WebDAV credentials."@
                } else {
                    "The server returned "@ + exchange::status_text(status) + " listing "@ + path@
                        + "."@
                },
            },
    {
        if status == 401 {
            return Err("The server rejected those WebDAV credentials.".to_owned());
        }
        if !exchange::is_success(status) {
            return Err(refusal(status, " listing ", path));
        }
        Ok(())
    }

    /// The directory at `path`, from the body of the reply to its listing.
    pub fn list_nodes(&self, path: &str, xml: &str) -> (r: Result<Vec<RemoteNode>, String>)
        ensures
            match super::propfind::entries_of(
                super::propfind::MultistatusView::start(),
                super::propfind::xml_events(xml@),
            ) {
                Ok(entries) => r is Ok && super::node_views(r->Ok_0@) == listed(
                    self.base@,
                    path@,
                    entries,
                ),
                Err(e) => r is Err && r->Err_0@ == e,
            },
    {
        match parse_propfind(xml) {
            Ok(entries) => Ok(self.nodes_of(path, &entries)),
            Err(e) => Err(e),
        }
    }

    /// The directory at `path`, from the entries of its listing.
    pub fn nodes_of(&self, path: &str, entries: &Vec<PropfindEntry>) -> (nodes: Vec<RemoteNode>)
        ensures
            super::node_views(nodes@) == listed(
                self.base@,
                path@,
                super::propfind::found(entries@),
            ),
    {
        let self_path = match self.path_from_href(self.url_for(path).as_str()) {
            Some(p) => p,
            None => String::new(),
        };
        let ghost own = own_path(self.base@, path@);
        let ghost all = super::propfind::found(entries@);
        assert(self_path@ =~= own);
        let mut nodes: Vec<RemoteNode> = Vec::new();
        let n: usize = entries.len();
        let mut i: usize = 0;
        assert(super::node_views(nodes@) =~= children(self.base@, own, all.take(0)));
        while i < n
            invariant
                0 <= i <= n,
                n == entries@.len(),
                all == super::propfind::found(entries@),
                own == self_path@,
                super::node_views(nodes@) == children(self.base@, own, all.take(i as int)),
            decreases n - i,
        {
            let entry = &entries[i];
            let ghost before = super::node_views(nodes@);
            proof {
                assert(all.take(i + 1).drop_last() =~= all.take(i as int));
                assert(all.take(i + 1).last() == entry@);
            }
            match self.path_from_href(entry.href.as_str()) {
                Some(node_path) => {
                    let name = text::after_last_char(node_path.as_str(), '/').to_owned();
                    // Depth: 1 has the directory itself in it — skip it.
                    if !text::same(node_path.as_str(), self_path.as_str())
                        && !name.as_str().is_empty() && !text::begins_with_char(
                        name.as_str(),
                        '.',
                    ) {
                        let node = RemoteNode {
                            name,
                            path: node_path,
                            is_dir: entry.is_dir,
                            size: entry.size,
                        };
                        nodes.push(node);
                        assert(super::node_views(nodes@) =~= before.push(node@));
                    }
                },
                None => {},
            }
            i = i + 1;
        }
        assert(all.take(n as int) =~= all);
        nodes
    }

    /// The request for the bytes `[start, end]` of a file; there is none to make where
    /// that range is empty.
    pub fn range_request(&self, path: &str, start: u64, end: u64) -> (r: Option<HttpRequest>)
        ensures
            match r {
                Some(request) => start <= end && request@ == exchange::plain_request(
                    "GET"@,
                    url_of(self.base@, path@),
                    Some((start, end)),
                    self.login(),
                ),
                None => end < start,
            },
    {
        if end < start {
            None
        } else {
            Some(exchange::request("GET", self.url_for(path), Some((start, end)), self.authed()))
        }
    }

    /// The bytes `[start, end]` of a file, from the reply to the request for them.
    pub fn range_bytes(&self, path: &str, status: u16, body: Vec<u8>, start: u64, end: u64) -> (r:
        Result<Vec<u8>, String>)
        requires
            100 <= status <= 999,
            status == 200 ==> start <= end < u64::MAX,
        ensures
            match r {
                Ok(bytes) => exchange::succeeded(status) && bytes@ == exchange::range_of(
                    status,
                    body@,
                    start,
                    end,
                ),
                Err(e) => !exchange::succeeded(status) && e@ == "The server returned "@
                    + exchange::status_text(status) + " reading "@ + path@ + "."@,
            },
    {
        if !exchange::is_success(status) {
            return Err(refusal(status, " reading ", path));
        }
        Ok(exchange::range_reply(status, body, start, end))
    }

    /// The request that tells the size of a file.
    pub fn size_request(&self, path: &str) -> (r: HttpRequest)
        ensures
            r@ == exchange::plain_request(
                "HEAD"@,
                url_of(self.base@, path@),
                None,
                self.login(),
            ),
    {
        exchange::request("HEAD", self.url_for(path), None, self.authed())
    }

    /// The size of a file, from the status and the `Content-Length` header of the reply.
    pub fn size_of(&self, path: &str, status: u16, content_length: Option<&str>) -> (r: Result<
        u64,
        String,
    >)
        requires
            100 <= status <= 999,
        ensures
            match r {
                Ok(size) => exchange::succeeded(status) && content_length is Some
                    && text::parse_decimal(content_length->0@) == Some(size),
                Err(e) => if exchange::succeeded(status) {
                    (content_length is Some ==> text::parse_decimal(content_length->0@) is None)
                        && e@ == "The server didn't report a size for "@ + path@ + "."@
                } else {
                    e@ == "The server returned "@ + exchange::status_text(status) + " for "@ + path@
                        + "."@
                },
            },
    {
        if !exchange::is_success(status) {
            return Err(refusal(status, " for ", path));
        }
        match exchange::size_from_header(content_length) {
            Some(size) => Ok(size),
            None => {
                let mut e: String = "The server didn't report a size for ".to_owned();
                e.append(path);
                e.append(".");
                Err(e)
            },
        }
    }

    /// The request for a whole file.
    pub fn read_request(&self, path: &str) -> (r: HttpRequest)
        ensures
            r@ == exchange::plain_request("GET"@, url_of(self.base@, path@), None, self.login()),
    {
        exchange::request("GET", self.url_for(path), None, self.authed())
    }

    /// A whole file, from the reply to the request for it.
    pub fn read_all(&self, path: &str, status: u16, body: Vec<u8>) -> (r: Result<Vec<u8>, String>)
        requires
            100 <= status <= 999,
        ensures
            match r {
                Ok(bytes) => exchange::succeeded(status) && bytes@ == body@,
                Err(e) => !exchange::succeeded(status) && e@ == "The server returned "@
                    + exchange::status_text(status) + " for "@ + path@ + "."@,
            },
    {
        if !exchange::is_success(status) {
            return Err(refusal(status, " for ", path));
        }
        Ok(body)
    }
}

fn refusal(status: u16, what: &str, path: &str) -> (r: String)
    requires
        100 <= status <= 999,
    ensures
        r@ == "The server returned "@ + exchange::status_text(status) + what@ + path@ + "."@,
{
    let mut r: String = "The server returned ".to_owned();
    r.append(exchange::status_line(status).as_str());
    r.append(what);
    r.append(path);
    r.append(".");
    r
}

/// The request that lists the directory at `url`.
pub open spec fn listing_request(
    url: Seq<char>,
    login: Option<(Seq<char>, Seq<char>)>,
) -> RequestView {
    RequestView {
        method: "PROPFIND"@,
        url,
        headers: seq![
            ("Depth"@, "1"@),
            ("Content-Type"@, "application/xml; charset=utf-8"@),
        ],
        body: Some(PROPFIND_BODY@),
        basic_auth: login,
    }
}

/// The path by which a directory occurs in its own listing.
pub open spec fn own_path(base: Seq<char>, path: Seq<char>) -> Seq<char> {
    match path_of_href(base, url_of(base, path)) {
        Some(own) => own,
        None => Seq::empty(),
    }
}

/// The nodes that entries of a listing stand for: those that are neither the
/// directory itself nor hidden.
pub open spec fn children(
    base: Seq<char>,
    own: Seq<char>,
    entries: Seq<EntryFound>,
) -> Seq<NodeView>
    decreases entries.len(),
{
    if entries.len() == 0 {
        Seq::empty()
    } else {
        let before = children(base, own, entries.drop_last());
        let entry = entries.last();
        match path_of_href(base, entry.href) {
            Some(path) => {
                let name = text::after_last(path, '/');
                if path == own || name.len() == 0 || name[0] == '.' {
                    before
                } else {
                    before.push(NodeView { name, path, is_dir: entry.is_dir, size: entry.size })
                }
            },
            None => before,
        }
    }
}

/// The directory at `path`, from the entries of its listing.
pub open spec fn listed(
    base: Seq<char>,
    path: Seq<char>,
    entries: Seq<EntryFound>,
) -> Seq<NodeView> {
    children(base, own_path(base, path), entries)
}

// =====================================================================
// Laws
// =====================================================================

/// A path with one slash before each segment, and no other.
pub open spec fn normal_path(path: Seq<char>) -> Seq<char> {
    "/"@ + text::join(text::segments(path, '/'), "/"@)
}

/// The URL of a path leads back to the path, up to superfluous slashes, whatever
/// characters its segments hold. The one link that leads nowhere is that of the root
/// below a base URL that is a bare host: it has no slash after the host.
pub proof fn law_href_round_trip(base: Seq<char>, path: Seq<char>)
    requires
        is_http(base),
        !base.contains('%'),
        text::segments(path, '/').len() > 0 || mount_point(base).len() > 0,
    ensures
        path_of_href(base, url_of(base, path)) == Some(normal_path(path)),
{
    let parts = text::segments(path, '/');
    let joined = text::join(parts, "/"@);
    let tail = if parts.len() == 0 {
        Seq::empty()
    } else {
        "/"@ + joined
    };
    reveal_strlit("/");
    text::lemma_segments(path, '/');
    lemma_decoded_url(base, path);
    if parts.len() > 0 {
        lemma_join_end(parts);
    } else {
        assert("/"@ + joined =~= "/"@);
    }
    lemma_link(base, tail);
}

/// What a link that goes on from the base URL leads to.
proof fn lemma_link(base: Seq<char>, tail: Seq<char>)
    requires
        is_http(base),
        tail.len() > 0 || mount_point(base).len() > 0,
        tail.len() > 0 ==> tail[0] == '/' && tail.last() != '/',
    ensures
        path_of_link(base, base + tail) == Some(
            if tail.len() == 0 {
                "/"@
            } else {
                tail
            },
        ),
{
    reveal_strlit("/");
    reveal_strlit("://");
    let link = base + tail;
    let i = lemma_scheme(base, tail);
    let host = base.skip(i + 3);
    let after = link.skip(i + 3);
    assert(after =~= host + tail);
    text::lemma_find_from(host, "/"@, 0);
    assert("/"@ =~= seq!['/']);
    match text::find(host, "/"@) {
        Some(k) => {
            text::lemma_occurs_char(host, '/', k);
            text::lemma_occurs_char(after, '/', k);
            assert forall|j: int| 0 <= j < k implies !text::occurs_at(after, seq!['/'], j) by {
                text::lemma_occurs_char(after, '/', j);
                text::lemma_occurs_char(host, '/', j);
            }
            text::lemma_find_from_is(after, seq!['/'], 0, k);
            let mount = host.skip(k);
            assert(after.skip(k) =~= mount + tail);
            assert((mount + tail).take(mount.len() as int) =~= mount);
            assert((mount + tail).skip(mount.len() as int) =~= tail);
        },
        None => {
            let k = host.len() as int;
            text::lemma_occurs_char(after, '/', k);
            assert forall|j: int| 0 <= j < k implies !text::occurs_at(after, seq!['/'], j) by {
                text::lemma_occurs_char(after, '/', j);
                text::lemma_occurs_char(host, '/', j);
            }
            text::lemma_find_from_is(after, seq!['/'], 0, k);
            assert(after.skip(k) =~= tail);
            assert(tail.take(0) =~= Seq::empty());
            assert(tail.skip(0) =~= tail);
        },
    }
    assert(text::trim_end_char(tail, '/') == tail);
}

/// The scheme ends where it ends in the base URL.
proof fn lemma_scheme(base: Seq<char>, tail: Seq<char>) -> (i: int)
    requires
        is_http(base),
    ensures
        0 <= i,
        i + 3 <= base.len(),
        text::find(base, "://"@) == Some(i),
        text::find(base + tail, "://"@) == Some(i),
{
    reveal_strlit("http://");
    reveal_strlit("https://");
    reveal_strlit("://");
    let i: int = if text::starts_with(base, "http://"@) {
        4
    } else {
        5
    };
    let scheme = base.take(i + 3);
    assert(scheme == if i == 4 {
        "http://"@
    } else {
        "https://"@
    });
    let link = base + tail;
    assert forall|j: int| 0 <= j < i + 3 implies base[j] == scheme[j] && link[j] == scheme[j] by {}
    assert(base.subrange(i, i + 3) =~= "://"@);
    assert(link.subrange(i, i + 3) =~= "://"@);
    assert forall|j: int| 0 <= j < i implies !text::occurs_at(base, "://"@, j)
        && !text::occurs_at(link, "://"@, j) by {
        assert("://"@[0] == ':');
        if text::occurs_at(base, "://"@, j) {
            assert(base.subrange(j, j + 3)[0] == base[j]);
        }
        if text::occurs_at(link, "://"@, j) {
            assert(link.subrange(j, j + 3)[0] == link[j]);
        }
    }
    text::lemma_find_from_is(base, "://"@, 0, i);
    text::lemma_find_from_is(link, "://"@, 0, i);
    i
}

/// Joined segments are not empty and do not end in a slash.
proof fn lemma_join_end(parts: Seq<Seq<char>>)
    requires
        parts.len() > 0,
        parts.last().len() > 0,
        !parts.last().contains('/'),
    ensures
        text::join(parts, "/"@).len() > 0,
        text::join(parts, "/"@).last() != '/',
{
    let last = parts.last();
    assert(last.contains(last.last()));
    assert(text::join(parts, "/"@).last() == last.last());
}

/// A URL decodes to the base and the segments it was made from.
proof fn lemma_decoded_url(base: Seq<char>, path: Seq<char>)
    requires
        !base.contains('%'),
    ensures
        percent::decoded(url_of(base, path)) == Some(
            base + if text::segments(path, '/').len() == 0 {
                Seq::empty()
            } else {
                "/"@ + text::join(text::segments(path, '/'), "/"@)
            },
        ),
{
    reveal_strlit("/");
    let parts = text::segments(path, '/');
    let coded = encoded_parts(parts);
    let none = Seq::<u8>::empty();
    let b = encode_utf8(base);
    assert(percent::decoded_bytes(none) =~= none);
    percent::lemma_utf8_no_percent(base);
    if parts.len() == 0 {
        percent::lemma_decode_plain(b, none);
        assert(b + none =~= b);
        assert(base + Seq::<char>::empty() =~= base);
        encode_utf8_valid_utf8(base);
        encode_utf8_decode_utf8(base);
    } else {
        text::lemma_segments(path, '/');
        let last = parts.last();
        lemma_encoded_not_empty(last);
        assert(coded.last() == percent::encoded(last));
        let encoded = text::join(coded, "/"@);
        assert(encoded.len() > 0);
        let joined = text::join(parts, "/"@);
        let url = base + "/"@ + encoded;
        let slash = encode_utf8("/"@);
        let e = encode_utf8(encoded);
        percent::lemma_utf8_concat(base + "/"@, encoded);
        percent::lemma_utf8_concat(base, "/"@);
        assert("/"@ =~= seq!['/']);
        percent::lemma_utf8_one('/');
        assert(slash =~= seq![0x2fu8]);
        percent::lemma_decode_plain(b, slash + e);
        percent::lemma_decode_plain(slash, e);
        lemma_decode_joined(parts, none);
        assert(e + none =~= e);
        assert(encode_utf8(url) =~= b + (slash + e));
        assert(encode_utf8(joined) + none =~= encode_utf8(joined));
        let whole = base + ("/"@ + joined);
        percent::lemma_utf8_concat(base, "/"@ + joined);
        percent::lemma_utf8_concat("/"@, joined);
        assert(percent::decoded_bytes(encode_utf8(url)) =~= encode_utf8(whole));
        encode_utf8_valid_utf8(whole);
        encode_utf8_decode_utf8(whole);
    }
}

proof fn lemma_encoded_not_empty(s: Seq<char>)
    requires
        s.len() > 0,
    ensures
        percent::encoded(s).len() > 0,
{
    percent::law_decode_encode(s);
    if percent::encoded(s).len() == 0 {
        let none = Seq::<char>::empty();
        assert(percent::encoded(s) =~= none);
        percent::law_decode_encode(none);
        assert(percent::encoded(none) =~= none);
    }
}

/// Segments that were encoded one by one decode to the segments.
proof fn lemma_decode_joined(parts: Seq<Seq<char>>, rest: Seq<u8>)
    ensures
        percent::decoded_bytes(encode_utf8(text::join(encoded_parts(parts), "/"@)) + rest)
            == encode_utf8(text::join(parts, "/"@)) + percent::decoded_bytes(rest),
    decreases parts.len(),
{
    reveal_strlit("/");
    let coded = encoded_parts(parts);
    if parts.len() == 0 {
        let none = Seq::<char>::empty();
        assert(encode_utf8(none) =~= Seq::<u8>::empty());
        assert(encode_utf8(none) + rest =~= rest);
        assert(encode_utf8(none) + percent::decoded_bytes(rest) =~= percent::decoded_bytes(rest));
    } else {
        let last = parts.last();
        assert(coded.last() == percent::encoded(last));
        percent::lemma_decode_encoded(encode_utf8(last), rest);
        if parts.len() > 1 {
            let front = parts.drop_last();
            assert(coded.drop_last() =~= encoded_parts(front));
            let head = text::join(coded.drop_last(), "/"@);
            let slash = encode_utf8("/"@);
            let l = encode_utf8(percent::encoded(last));
            percent::lemma_utf8_concat(head + "/"@, percent::encoded(last));
            percent::lemma_utf8_concat(head, "/"@);
            assert("/"@ =~= seq!['/']);
            percent::lemma_utf8_one('/');
            assert(slash =~= seq![0x2fu8]);
            lemma_decode_joined(front, slash + (l + rest));
            percent::lemma_decode_plain(slash, l + rest);
            assert(encode_utf8(text::join(coded, "/"@)) + rest =~= encode_utf8(head) + (slash + (l
                + rest)));
            let joined = text::join(front, "/"@);
            percent::lemma_utf8_concat(joined + "/"@, last);
            percent::lemma_utf8_concat(joined, "/"@);
            assert(encode_utf8(text::join(parts, "/"@)) + percent::decoded_bytes(rest)
                =~= encode_utf8(joined) + (slash + (encode_utf8(last) + percent::decoded_bytes(
                rest,
            ))));
        }
    }
}

/// A directory's own entry is not among its children.
pub proof fn law_own_entry_is_skipped(
    base: Seq<char>,
    path: Seq<char>,
    entries: Seq<EntryFound>,
    i: int,
)
    requires
        0 <= i < listed(base, path, entries).len(),
    ensures
        listed(base, path, entries)[i].path != own_path(base, path),
        listed(base, path, entries)[i].name.len() > 0,
        listed(base, path, entries)[i].name[0] != '.',
    decreases entries.len(),
{
    let front = listed(base, path, entries.drop_last());
    if i < front.len() {
        law_own_entry_is_skipped(base, path, entries.drop_last(), i);
    }
}

/// A listing is read entry by entry: what comes of the first ones is followed by what comes of
/// the others, so none is left out, doubled or moved.
pub proof fn law_listing_is_read_in_order(
    base: Seq<char>,
    path: Seq<char>,
    some: Seq<EntryFound>,
    more: Seq<EntryFound>,
)
    ensures
        listed(base, path, some + more) == listed(base, path, some) + listed(base, path, more),
        listed(base, path, Seq::empty()).len() == 0,
    decreases more.len(),
{
    if more.len() == 0 {
        assert(some + more =~= some);
        assert(listed(base, path, some) + listed(base, path, more) =~= listed(base, path, some));
    } else {
        law_listing_is_read_in_order(base, path, some, more.drop_last());
        assert((some + more).drop_last() =~= some + more.drop_last());
        assert((some + more).last() == more.last());
        assert(listed(base, path, some + more) =~= listed(base, path, some) + listed(
            base,
            path,
            more,
        ));
    }
}

/// An entry whose href leads to a path becomes one node with that path, the last component of
/// it as its name, and the kind and size that the entry reports, unless the path is that of the
/// directory itself or the name is empty or hidden.
pub proof fn law_entry_becomes_node(
    base: Seq<char>,
    path: Seq<char>,
    entry: EntryFound,
    dir: Seq<char>,
    name: Seq<char>,
)
    requires
        path_of_href(base, entry.href) == Some(dir + "/"@ + name),
        !name.contains('/'),
    ensures
        ({
            let nodes = listed(base, path, seq![entry]);
            if dir + "/"@ + name == own_path(base, path) || name.len() == 0 || name[0] == '.' {
                nodes.len() == 0
            } else {
                &&& nodes.len() == 1
                &&& nodes[0].path == dir + "/"@ + name
                &&& nodes[0].name == name
                &&& nodes[0].is_dir == entry.is_dir
                &&& nodes[0].size == entry.size
            }
        }),
{
    reveal_strlit("/");
    assert("/"@ =~= seq!['/']);
    text::law_after_last(dir, '/', name);
    assert(seq![entry].drop_last() =~= Seq::empty());
    assert(children(base, own_path(base, path), Seq::empty()).len() == 0);
}

/// An entry whose href leads nowhere is left out.
pub proof fn law_href_to_nowhere_is_left_out(
    base: Seq<char>,
    path: Seq<char>,
    entry: EntryFound,
)
    requires
        path_of_href(base, entry.href) is None,
    ensures
        listed(base, path, seq![entry]).len() == 0,
{
    assert(seq![entry].drop_last() =~= Seq::empty());
    assert(children(base, own_path(base, path), Seq::empty()).len() == 0);
}

/// What an href leads to is a path that begins with a slash and does not end with one, but for
/// the root, so it is made of a directory, a slash and a last component.
pub proof fn law_href_leads_to_a_path(base: Seq<char>, href: Seq<char>)
    ensures
        path_of_href(base, href) matches Some(path) ==> path.len() > 0 && path[0] == '/' && (
        path.len() > 1 ==> path.last() != '/'),
{
    reveal_strlit("/");
    if let Some(path) = path_of_href(base, href) {
        let link = percent::decoded(href)->0;
        let whole = match text::find(link, "://"@) {
            Some(i) => path_of_url(link, i)->0,
            None => link,
        };
        let below = match text::strip_prefix(whole, mount_point(base)) {
            Some(below) => below,
            None => whole,
        };
        lemma_trim_end_last(below);
        let rel = text::trim_end_char(below, '/');
        if rel.len() > 0 && rel[0] != '/' {
            assert(("/"@ + rel).last() == rel.last());
        }
    }
}

proof fn lemma_trim_end_last(s: Seq<char>)
    ensures
        text::trim_end_char(s, '/').len() > 0 ==> text::trim_end_char(s, '/').last() != '/',
    decreases s.len(),
{
    if s.len() > 0 && s.last() == '/' {
        lemma_trim_end_last(s.drop_last());
    }
}

/// The path that a base URL has of its own is what stands after its host.
pub proof fn law_mount_point(scheme: Seq<char>, host: Seq<char>, path: Seq<char>)
    requires
        !scheme.contains(':'),
        !host.contains('/'),
        path.len() > 0 ==> path[0] == '/',
    ensures
        mount_point(scheme + "://"@ + host + path) == path,
{
    reveal_strlit("://");
    reveal_strlit("/");
    assert("/"@ =~= seq!['/']);
    let base = scheme + "://"@ + host + path;
    let k = scheme.len() as int;
    assert(base.subrange(k, k + 3) =~= "://"@);
    assert forall|j: int| 0 <= j < k implies !text::occurs_at(base, "://"@, j) by {
        if text::occurs_at(base, "://"@, j) {
            assert(base.subrange(j, j + 3)[0] == scheme[j]);
            assert("://"@[0] == ':');
            assert(scheme.contains(scheme[j]));
        }
    }
    text::lemma_find_from_is(base, "://"@, 0, k);
    let after = base.skip(k + 3);
    assert(after =~= host + path);
    if path.len() > 0 {
        let m = host.len() as int;
        text::lemma_occurs_char(after, '/', m);
        assert forall|j: int| 0 <= j < m implies !text::occurs_at(after, seq!['/'], j) by {
            text::lemma_occurs_char(after, '/', j);
            assert(host.contains(host[j]));
        }
        text::lemma_find_from_is(after, seq!['/'], 0, m);
        assert(after.skip(m) =~= path);
    } else {
        assert forall|j: int| 0 <= j implies !text::occurs_at(after, seq!['/'], j) by {
            text::lemma_occurs_char(after, '/', j);
            if j < host.len() {
                assert(host.contains(host[j]));
            }
        }
        text::lemma_find_from_none(after, seq!['/'], 0);
        assert(path =~= Seq::empty());
    }
}

/// An href that is a bare path leads to what it has below the mount point, without the slashes
/// at its end; one that is not below the mount point is taken as it is.
pub proof fn law_bare_path_href(
    base: Seq<char>,
    href: Seq<char>,
    path: Seq<char>,
    slashes: Seq<char>,
)
    requires
        path.len() > 0 ==> path[0] == '/' && path.last() != '/',
        forall|i: int| 0 <= i < slashes.len() ==> #[trigger] slashes[i] == '/',
    ensures
        percent::decoded(href) == Some(mount_point(base) + path + slashes) && text::find(
            mount_point(base) + path + slashes,
            "://"@,
        ) is None ==> path_of_href(base, href) == Some(
            if path.len() == 0 {
                "/"@
            } else {
                path
            },
        ),
        percent::decoded(href) == Some(path + slashes) && text::find(path + slashes, "://"@) is None
            && !text::starts_with(path + slashes, mount_point(base)) && path.len() > 0
            ==> path_of_href(base, href) == Some(path),
{
    let mount = mount_point(base);
    let link = mount + path + slashes;
    assert(link =~= mount + (path + slashes));
    text::law_strip_prefix(mount, path + slashes, link);
    text::law_trim_char(path, slashes, '/');
    if path.len() == 0 {
        assert(path + slashes =~= slashes);
    }
}

/// The URL of what is in a directory is that of the directory, a slash, and the name with
/// everything escaped that has to be; the URL of the root is the base URL.
pub proof fn law_url_of_child(base: Seq<char>, dir: Seq<char>, name: Seq<char>)
    requires
        name.len() > 0,
        !name.contains('/'),
    ensures
        url_of(base, dir + "/"@ + name) == url_of(base, dir) + "/"@ + percent::encoded(name),
        url_of(base, Seq::empty()) == base,
        url_of(base, "/"@) == base,
{
    reveal_strlit("/");
    assert("/"@ =~= seq!['/']);
    let none = Seq::<char>::empty();
    text::law_segments(dir, name, '/');
    text::law_segments(name, none, '/');
    text::law_segments(none, none, '/');
    assert(none + seq!['/'] + none =~= "/"@);
    assert(encoded_parts(text::segments(none, '/')).len() == 0);
    assert(text::segments("/"@, '/').len() == 0);
    assert(encoded_parts(text::segments("/"@, '/')).len() == 0);
    let front = text::segments(dir, '/');
    let all = text::segments(dir + "/"@ + name, '/');
    assert(all =~= front.push(name));
    let coded = encoded_parts(front);
    let one = percent::encoded(name);
    assert(encoded_parts(all) =~= coded.push(one));
    text::law_join(coded, one, "/"@);
    lemma_encoded_not_empty(name);
    if front.len() == 0 {
        assert(coded.push(one) =~= seq![one]);
    } else {
        text::lemma_segments(dir, '/');
        lemma_encoded_not_empty(front.last());
        assert(coded.last() == percent::encoded(front.last()));
        assert(text::join(coded, "/"@).len() > 0);
        assert(url_of(base, dir + "/"@ + name) =~= url_of(base, dir) + "/"@ + one);
    }
}

/// A resource that a server reports in a directory, by the URL that it has there, is listed with
/// its name, its path, its kind and its size, whatever characters its name holds, unless it is
/// hidden.
pub proof fn law_child_is_listed(
    base: Seq<char>,
    dir: Seq<char>,
    name: Seq<char>,
    is_dir: bool,
    size: u64,
)
    requires
        is_http(base),
        !base.contains('%'),
        name.len() > 0,
        !name.contains('/'),
        name[0] != '.',
    ensures
        listed(
            base,
            dir,
            seq![EntryFound { href: url_of(base, dir + "/"@ + name), is_dir, size }],
        ) == seq![NodeView { name, path: normal_path(dir + "/"@ + name), is_dir, size }],
{
    reveal_strlit("/");
    assert("/"@ =~= seq!['/']);
    let none = Seq::<char>::empty();
    let path = dir + "/"@ + name;
    let front = text::segments(dir, '/');
    text::law_segments(dir, name, '/');
    text::law_segments(name, none, '/');
    let all = text::segments(path, '/');
    assert(all =~= front.push(name));
    text::law_join(front, name, "/"@);
    law_href_round_trip(base, path);
    let above = if front.len() == 0 {
        none
    } else {
        normal_path(dir)
    };
    assert(normal_path(path) =~= above + "/"@ + name) by {
        if front.len() == 0 {
            assert(all =~= seq![name]);
        }
    }
    if front.len() > 0 || mount_point(base).len() > 0 {
        law_href_round_trip(base, dir);
    }
    if own_path(base, dir) == normal_path(path) {
        if front.len() > 0 {
            assert(normal_path(path).len() > normal_path(dir).len());
        } else if mount_point(base).len() > 0 {
            assert(normal_path(dir).len() == 1);
            assert(normal_path(path).len() > 1);
        } else {
            lemma_bare_host(base, dir);
        }
    }
    let entry = EntryFound { href: url_of(base, path), is_dir, size };
    law_entry_becomes_node(base, dir, entry, above, name);
    assert(listed(base, dir, seq![entry]) =~= seq![
        NodeView { name, path: normal_path(path), is_dir, size },
    ]);
}

/// The root below a bare host leads nowhere, so it has no path of its own.
proof fn lemma_bare_host(base: Seq<char>, dir: Seq<char>)
    requires
        is_http(base),
        !base.contains('%'),
        text::segments(dir, '/').len() == 0,
        mount_point(base).len() == 0,
    ensures
        own_path(base, dir).len() == 0,
{
    reveal_strlit("/");
    assert("/"@ =~= seq!['/']);
    let none = Seq::<char>::empty();
    lemma_decoded_url(base, dir);
    let i = lemma_scheme(base, none);
    assert(base + none =~= base);
    assert(percent::decoded(url_of(base, dir)) == Some(base));
    let host = base.skip(i + 3);
    text::lemma_find_from(host, "/"@, 0);
    match text::find(host, "/"@) {
        Some(k) => {
            text::lemma_occurs_char(host, '/', k);
            assert(host.skip(k).len() > 0);
        },
        None => {},
    }
}

/// The host that was configured may have white space around it and slashes at its end; what is
/// left is the base URL.
pub proof fn law_base_of(
    before: Seq<char>,
    base: Seq<char>,
    slashes: Seq<char>,
    after: Seq<char>,
)
    requires
        text::all_white(before),
        text::all_white(after),
        forall|i: int| 0 <= i < slashes.len() ==> #[trigger] slashes[i] == '/',
        base.len() > 0,
        !text::is_white(base[0]),
        !text::is_white(base.last()),
        base.last() != '/',
    ensures
        base_of(before + base + slashes + after) == base,
{
    let core = base + slashes;
    if slashes.len() > 0 {
        assert(core.last() == slashes[slashes.len() - 1]);
    } else {
        assert(core =~= base);
    }
    text::law_trim(before, core, after);
    assert(before + core + after =~= before + base + slashes + after);
    text::law_trim_char(base, slashes, '/');
}

/// The URLs that can be used are those of the two schemes of the web.
pub proof fn law_is_http(base: Seq<char>, rest: Seq<char>)
    ensures
        is_http("http://"@ + rest),
        is_http("https://"@ + rest),
        is_http(base) ==> base == "http://"@ + base.skip(7) || base == "https://"@ + base.skip(8),
{
    reveal_strlit("http://");
    reveal_strlit("https://");
    text::law_strip_prefix("http://"@, rest, base);
    text::law_strip_prefix("https://"@, rest, base);
}

/// A listing asks for the directory and what is directly in it, and for the kinds and sizes that
/// the listing shows; it carries the credentials it was made with.
pub proof fn law_listing_request(url: Seq<char>, login: Option<(Seq<char>, Seq<char>)>)
    ensures
        ({
            let r = listing_request(url, login);
            &&& r.method == "PROPFIND"@
            &&& r.url == url
            &&& r.basic_auth == login
            &&& r.body == Some(
                "<?xml version=\"1.0\" encoding=\"utf-8\"?>\n<d:propfind xmlns:d=\"DAV:\">\n  <d:prop><d:resourcetype/><d:getcontentlength/></d:prop>\n</d:propfind>"@,
            )
            &&& r.headers.contains(("Depth"@, "1"@))
            &&& r.headers.contains(("Content-Type"@, "application/xml; charset=utf-8"@))
            &&& r.headers.len() == 2
        }),
{
    let r = listing_request(url, login);
    assert(r.headers[0] == ("Depth"@, "1"@));
    assert(r.headers[1] == ("Content-Type"@, "application/xml; charset=utf-8"@));
}

/// Requests carry the user name and the password as they are, unless both are empty.
pub proof fn law_login(backend: WebdavBackend)
    ensures
        backend.login() is None <==> backend.username@.len() == 0 && backend.password@.len() == 0,
        backend.login() matches Some((user, password)) ==> user == backend.username@ && password
            == backend.password@,
{
}

/// An href that is a whole URL leads to the same path as one that has only what stands after the
/// host, whichever scheme and host it names; one without a slash after the host leads nowhere,
/// and so does one that cannot be decoded.
pub proof fn law_absolute_href(
    base: Seq<char>,
    href: Seq<char>,
    bare: Seq<char>,
    scheme: Seq<char>,
    host: Seq<char>,
    path: Seq<char>,
)
    requires
        !scheme.contains(':'),
        !host.contains('/'),
        path.len() > 0 ==> path[0] == '/',
        percent::decoded(href) == Some(scheme + "://"@ + host + path),
        percent::decoded(bare) == Some(path),
        text::find(path, "://"@) is None,
    ensures
        path.len() > 0 ==> path_of_href(base, href) == path_of_href(base, bare),
        path.len() == 0 ==> path_of_href(base, href) is None,
{
    reveal_strlit("://");
    reveal_strlit("/");
    assert("/"@ =~= seq!['/']);
    let link = scheme + "://"@ + host + path;
    let k = scheme.len() as int;
    assert(link.subrange(k, k + 3) =~= "://"@);
    assert forall|j: int| 0 <= j < k implies !text::occurs_at(link, "://"@, j) by {
        if text::occurs_at(link, "://"@, j) {
            assert(link.subrange(j, j + 3)[0] == scheme[j]);
            assert("://"@[0] == ':');
            assert(scheme.contains(scheme[j]));
        }
    }
    text::lemma_find_from_is(link, "://"@, 0, k);
    let after = link.skip(k + 3);
    assert(after =~= host + path);
    let m = host.len() as int;
    if path.len() > 0 {
        text::lemma_occurs_char(after, '/', m);
        assert forall|j: int| 0 <= j < m implies !text::occurs_at(after, seq!['/'], j) by {
            text::lemma_occurs_char(after, '/', j);
            assert(host.contains(host[j]));
        }
        text::lemma_find_from_is(after, seq!['/'], 0, m);
        assert(after.skip(m) =~= path);
    } else {
        assert forall|j: int| 0 <= j implies !text::occurs_at(after, seq!['/'], j) by {
            text::lemma_occurs_char(after, '/', j);
            if j < host.len() {
                assert(host.contains(host[j]));
            }
        }
        text::lemma_find_from_none(after, seq!['/'], 0);
    }
}

/// An href that cannot be decoded leads nowhere, and one that is a path without a slash in front
/// and not below the mount point gets one.
pub proof fn law_odd_href(base: Seq<char>, href: Seq<char>, path: Seq<char>, slashes: Seq<char>)
    requires
        path.len() > 0,
        path[0] != '/',
        path.last() != '/',
        forall|i: int| 0 <= i < slashes.len() ==> #[trigger] slashes[i] == '/',
    ensures
        percent::decoded(href) is None ==> path_of_href(base, href) is None,
        percent::decoded(href) == Some(path + slashes) && text::find(path + slashes, "://"@) is None
            && (mount_point(base).len() > 0 ==> mount_point(base)[0] == '/') ==> path_of_href(
            base,
            href,
        ) == Some("/"@ + path),
{
    let link = path + slashes;
    let mount = mount_point(base);
    text::law_trim_char(path, slashes, '/');
    if mount.len() > 0 && mount[0] == '/' {
        if text::starts_with(link, mount) {
            assert(link.take(mount.len() as int)[0] == link[0]);
        }
    } else {
        assert(link.skip(0) =~= link);
    }
}

/// Slashes at either end of a path, and more than one in a row, make no difference to its URL.
pub proof fn law_url_heeds_no_extra_slashes(base: Seq<char>, path: Seq<char>, more: Seq<char>)
    ensures
        url_of(base, "/"@ + path) == url_of(base, path),
        url_of(base, path + "/"@) == url_of(base, path),
        url_of(base, path + "//"@ + more) == url_of(base, path + "/"@ + more),
{
    reveal_strlit("/");
    reveal_strlit("//");
    assert("/"@ =~= seq!['/']);
    let none = Seq::<char>::empty();
    text::law_segments(none, path, '/');
    text::law_segments(path, none, '/');
    assert(none + seq!['/'] + path =~= "/"@ + path);
    assert(path + seq!['/'] + none =~= path + "/"@);
    assert(text::segments("/"@ + path, '/') =~= text::segments(path, '/'));
    assert(text::segments(path + "/"@, '/') =~= text::segments(path, '/'));
    text::law_segments(path, more, '/');
    text::law_segments(path + "/"@, more, '/');
    assert(path + "//"@ + more =~= path + "/"@ + seq!['/'] + more);
}

/// A host of nothing but white space and slashes is no URL.
pub proof fn law_no_base(before: Seq<char>, slashes: Seq<char>, after: Seq<char>)
    requires
        text::all_white(before),
        text::all_white(after),
        forall|i: int| 0 <= i < slashes.len() ==> #[trigger] slashes[i] == '/',
    ensures
        base_of(before + slashes + after).len() == 0,
        !is_http(base_of(before + slashes + after)),
{
    if slashes.len() > 0 {
        assert(slashes.last() == slashes[slashes.len() - 1]);
        assert(slashes[0] == '/');
    }
    text::law_trim(before, slashes, after);
    text::law_trim_char(Seq::empty(), slashes, '/');
    reveal_strlit("http://");
    reveal_strlit("https://");
}

/// A slash at the end of a URL, which servers write after collections, makes no difference to the
/// path it leads to.
pub proof fn law_trailing_slash_is_dropped(base: Seq<char>, path: Seq<char>)
    requires
        is_http(base),
        !base.contains('%'),
        text::segments(path, '/').len() > 0 || mount_point(base).len() > 0,
    ensures
        path_of_href(base, url_of(base, path) + "/"@) == Some(normal_path(path)),
{
    reveal_strlit("/");
    assert("/"@ =~= seq!['/']);
    let parts = text::segments(path, '/');
    let joined = text::join(parts, "/"@);
    let tail = if parts.len() == 0 {
        Seq::empty()
    } else {
        "/"@ + joined
    };
    let url = url_of(base, path);
    let link = base + tail;
    text::lemma_segments(path, '/');
    lemma_decoded_url(base, path);
    if parts.len() > 0 {
        lemma_join_end(parts);
    } else {
        assert("/"@ + joined =~= "/"@);
    }
    let bytes = encode_utf8(url);
    let slash = encode_utf8("/"@);
    percent::lemma_utf8_concat(url, "/"@);
    percent::lemma_utf8_one('/');
    lemma_decode_then_slash(bytes);
    encode_utf8_valid_utf8(link);
    encode_utf8_decode_utf8(link);
    lemma_decoded_is(url, link);
    percent::lemma_utf8_concat(link, "/"@);
    encode_utf8_valid_utf8(link + "/"@);
    encode_utf8_decode_utf8(link + "/"@);
    assert(slash =~= seq![0x2fu8]);
    assert(percent::decoded(url + "/"@) == Some(link + "/"@));
    lemma_link_with_slash(base, tail);
}

/// What decodes to a text has the bytes of that text.
proof fn lemma_decoded_is(coded: Seq<char>, plain: Seq<char>)
    requires
        percent::decoded(coded) == Some(plain),
    ensures
        percent::decoded_bytes(encode_utf8(coded)) == encode_utf8(plain),
{
    decode_utf8_encode_utf8(percent::decoded_bytes(encode_utf8(coded)));
}

/// A slash behind encoded text is decoded as it is.
proof fn lemma_decode_then_slash(bytes: Seq<u8>)
    ensures
        percent::decoded_bytes(bytes + seq![0x2fu8]) == percent::decoded_bytes(bytes) + seq![
            0x2fu8,
        ],
    decreases bytes.len(),
{
    let slash = seq![0x2fu8];
    let all = bytes + slash;
    if bytes.len() == 0 {
        assert(all =~= slash);
        assert(slash.skip(1) =~= Seq::empty());
        assert(percent::decoded_bytes(Seq::<u8>::empty()) =~= Seq::empty());
        assert(percent::decoded_bytes(all) =~= percent::decoded_bytes(bytes) + slash);
    } else if bytes[0] == 0x25 && bytes.len() >= 3 && percent::hex_value(bytes[1]) is Some
        && percent::hex_value(bytes[2]) is Some {
        lemma_decode_then_slash(bytes.skip(3));
        assert(all.skip(3) =~= bytes.skip(3) + slash);
        assert(percent::decoded_bytes(all) =~= percent::decoded_bytes(bytes) + slash);
    } else {
        lemma_decode_then_slash(bytes.skip(1));
        assert(all.skip(1) =~= bytes.skip(1) + slash);
        assert(percent::hex_value(0x2f) is None);
        assert(percent::decoded_bytes(all) =~= percent::decoded_bytes(bytes) + slash);
    }
}

proof fn lemma_link_with_slash(base: Seq<char>, tail: Seq<char>)
    requires
        is_http(base),
        tail.len() > 0 || mount_point(base).len() > 0,
        tail.len() > 0 ==> tail[0] == '/' && tail.last() != '/',
    ensures
        path_of_link(base, base + tail + "/"@) == Some(
            if tail.len() == 0 {
                "/"@
            } else {
                tail
            },
        ),
{
    reveal_strlit("/");
    assert("/"@ =~= seq!['/']);
    let more = tail + "/"@;
    let link = base + tail + "/"@;
    assert(link =~= base + more);
    let i = lemma_scheme(base, more);
    let host = base.skip(i + 3);
    let after = link.skip(i + 3);
    assert(after =~= host + more);
    text::lemma_find_from(host, "/"@, 0);
    let k = match text::find(host, "/"@) {
        Some(k) => {
            text::lemma_occurs_char(host, '/', k);
            k
        },
        None => host.len() as int,
    };
    text::lemma_occurs_char(after, '/', k);
    assert forall|j: int| 0 <= j < k implies !text::occurs_at(after, seq!['/'], j) by {
        text::lemma_occurs_char(after, '/', j);
        text::lemma_occurs_char(host, '/', j);
    }
    assert(after[k] == '/');
    text::lemma_find_from_is(after, seq!['/'], 0, k);
    let mount = mount_point(base);
    assert(mount =~= host.skip(k));
    assert(after.skip(k) =~= mount + more);
    text::law_strip_prefix(mount, more, more);
    text::law_trim_char(tail, "/"@, '/');
    if tail.len() == 0 {
        assert(more =~= "/"@);
    }
}

/// A directory does not list itself, whether its own entry ends in a slash or not, and its folders
/// are listed as such with a slash behind their URL as without.
pub proof fn law_own_entry_and_folders(
    base: Seq<char>,
    dir: Seq<char>,
    name: Seq<char>,
    is_dir: bool,
    size: u64,
)
    requires
        is_http(base),
        !base.contains('%'),
        text::segments(dir, '/').len() > 0 || mount_point(base).len() > 0,
        name.len() > 0,
        !name.contains('/'),
    ensures
        listed(base, dir, seq![EntryFound { href: url_of(base, dir), is_dir, size }]).len() == 0,
        listed(base, dir, seq![EntryFound { href: url_of(base, dir) + "/"@, is_dir, size }]).len()
            == 0,
        listed(
            base,
            dir,
            seq![EntryFound { href: url_of(base, dir + "/"@ + name) + "/"@, is_dir, size }],
        ) == listed(
            base,
            dir,
            seq![EntryFound { href: url_of(base, dir + "/"@ + name), is_dir, size }],
        ),
{
    reveal_strlit("/");
    assert("/"@ =~= seq!['/']);
    let path = dir + "/"@ + name;
    text::law_segments(dir, name, '/');
    text::law_segments(name, Seq::empty(), '/');
    law_href_round_trip(base, dir);
    law_trailing_slash_is_dropped(base, dir);
    law_href_round_trip(base, path);
    law_trailing_slash_is_dropped(base, path);
    let own = own_path(base, dir);
    let none = Seq::<EntryFound>::empty();
    assert(children(base, own, none) =~= Seq::empty());
    let a = EntryFound { href: url_of(base, dir), is_dir, size };
    let b = EntryFound { href: url_of(base, dir) + "/"@, is_dir, size };
    let c = EntryFound { href: url_of(base, path), is_dir, size };
    let d = EntryFound { href: url_of(base, path) + "/"@, is_dir, size };
    assert(seq![a].drop_last() =~= none);
    assert(seq![b].drop_last() =~= none);
    assert(seq![c].drop_last() =~= none);
    assert(seq![d].drop_last() =~= none);
    assert(listed(base, dir, seq![d]) =~= listed(base, dir, seq![c]));
}

} // verus!
