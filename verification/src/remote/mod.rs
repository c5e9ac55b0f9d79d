//! Self-hosted course sources: SFTP, WebDAV and S3-compatible object storage.
//!
//! All three behave the same way from the app's point of view — list a directory,
//! read a byte range, read a small file whole. This module holds what they share:
//! the settings of a server, the registry of servers, the `srv:` URIs, and the walk
//! that turns a remote folder into a tree.
//!
//! Paths are stored as `srv:<serverId>:<path>` so a lesson's progress keys on a
//! stable identifier and the `srv://` protocol can find its way back to the right
//! server. `<serverId>` is a UUID (never contains a colon), so the URI splits on
//! its first two colons and the remainder is the path verbatim — S3 keys may
//! themselves contain colons.
pub mod exchange;
pub mod key_text;
pub mod keychain;
pub mod listing;
pub mod propfind;
pub mod s3;
pub mod session;
pub mod sftp;
pub mod walk;
pub mod webdav;

use vstd::prelude::*;
use vstd::string::*;

use crate::id_map::IdMap;
use crate::text;

verus! {

// =====================================================================
// Configuration
// =====================================================================

/// The protocol a server speaks.
#[derive(Debug, Clone, Copy, PartialEq, Eq, Structural)]
pub enum ServerKind {
    Sftp,
    Webdav,
    S3,
}

/// How a kind of server is written down.
pub open spec fn kind_text(kind: ServerKind) -> Seq<char> {
    match kind {
        ServerKind::Sftp => "sftp"@,
        ServerKind::Webdav => "webdav"@,
        ServerKind::S3 => "s3"@,
    }
}

/// The kind of server that a word stands for.
pub open spec fn kind_named(s: Seq<char>) -> Option<ServerKind> {
    if s == "sftp"@ {
        Some(ServerKind::Sftp)
    } else if s == "webdav"@ {
        Some(ServerKind::Webdav)
    } else if s == "s3"@ {
        Some(ServerKind::S3)
    } else {
        None
    }
}

impl ServerKind {
    /// How this kind is written down.
    pub fn as_str(self) -> (r: &'static str)
        ensures
            r@ == kind_text(self),
    {
        match self {
            ServerKind::Sftp => "sftp",
            ServerKind::Webdav => "webdav",
            ServerKind::S3 => "s3",
        }
    }

    /// The kind that `s` stands for.
    pub fn parse(s: &str) -> (r: Result<ServerKind, String>)
        ensures
            match r {
                Ok(kind) => kind_named(s@) == Some(kind),
                Err(e) => kind_named(s@) is None && e@ == "Unknown server kind: "@ + s@,
            },
    {
        if text::same(s, "sftp") {
            Ok(ServerKind::Sftp)
        } else if text::same(s, "webdav") {
            Ok(ServerKind::Webdav)
        } else if text::same(s, "s3") {
            Ok(ServerKind::S3)
        } else {
            let mut e: String = "Unknown server kind: ".to_owned();
            e.append(s);
            Err(e)
        }
    }
}

/// A kind that is written down reads back as itself, and only what a kind is
/// written as reads as one.
pub proof fn law_kind_round_trip(kind: ServerKind, s: Seq<char>)
    ensures
        kind_named(kind_text(kind)) == Some(kind),
        kind_named(s) == Some(kind) ==> s == kind_text(kind),
{
    reveal_strlit("sftp");
    reveal_strlit("webdav");
    reveal_strlit("s3");
    assert("sftp"@.len() == 4);
    assert("webdav"@.len() == 6);
    assert("s3"@.len() == 2);
}

/// A saved server. Secrets live in the OS keychain, never here — this struct is
/// handed to the frontend as-is.
#[derive(Debug)]
pub struct ServerConfig {
    pub id: String,
    pub name: String,
    pub kind: ServerKind,
    /// SFTP: hostname. WebDAV: base URL. S3: endpoint URL.
    pub host: String,
    /// SFTP only.
    pub port: u16,
    /// SFTP/WebDAV: username. S3: access key id.
    pub username: String,
    /// Directory the folder browser opens at.
    pub base_path: String,
    /// S3 only.
    pub bucket: String,
    /// S3 only.
    pub region: String,
    /// S3 only — path-style addressing (MinIO and most self-hosted gateways).
    pub path_style: bool,
    /// SFTP only — the host key we pinned on first connect (trust on first use).
    pub host_fingerprint: Option<String>,
}

impl Clone for ServerConfig {
    fn clone(&self) -> (r: ServerConfig)
        ensures
            r == *self,
    {
        ServerConfig {
            id: self.id.clone(),
            name: self.name.clone(),
            kind: self.kind,
            host: self.host.clone(),
            port: self.port,
            username: self.username.clone(),
            base_path: self.base_path.clone(),
            bucket: self.bucket.clone(),
            region: self.region.clone(),
            path_style: self.path_style,
            host_fingerprint: self.host_fingerprint.clone(),
        }
    }
}

/// Secrets for one server, stored as a single JSON blob in the OS keychain.
#[derive(Debug)]
pub struct ServerSecrets {
    /// SFTP/WebDAV password, or the S3 secret access key.
    pub password: String,
    /// SFTP private key, PEM/OpenSSH text.
    pub private_key: String,
    /// Passphrase for `private_key`, when it's encrypted.
    pub passphrase: String,
}

impl Clone for ServerSecrets {
    fn clone(&self) -> (r: ServerSecrets)
        ensures
            r == *self,
    {
        ServerSecrets {
            password: self.password.clone(),
            private_key: self.private_key.clone(),
            passphrase: self.passphrase.clone(),
        }
    }
}

impl Default for ServerSecrets {
    fn default() -> (r: ServerSecrets)
        ensures
            r.password@ == Seq::<char>::empty(),
            r.private_key@ == Seq::<char>::empty(),
            r.passphrase@ == Seq::<char>::empty(),
    {
        ServerSecrets {
            password: String::new(),
            private_key: String::new(),
            passphrase: String::new(),
        }
    }
}

impl ServerSecrets {
    /// There is neither a password nor a private key.
    pub open spec fn lacking(self) -> bool {
        self.password@.len() == 0 && self.private_key@.len() == 0
    }

    /// Whether there is neither a password nor a private key.
    pub fn is_empty(&self) -> (r: bool)
        ensures
            r == self.lacking(),
    {
        self.password.as_str().is_empty() && self.private_key.as_str().is_empty()
    }
}

/// One entry in a remote directory listing.
#[derive(Debug)]
pub struct RemoteNode {
    pub name: String,
    /// Absolute path on the server, in this backend's own path space.
    pub path: String,
    pub is_dir: bool,
    pub size: u64,
}

/// What a [`RemoteNode`] says.
#[verifier::ext_equal]
pub struct NodeView {
    pub name: Seq<char>,
    pub path: Seq<char>,
    pub is_dir: bool,
    pub size: u64,
}

impl View for RemoteNode {
    type V = NodeView;

    open spec fn view(&self) -> NodeView {
        NodeView { name: self.name@, path: self.path@, is_dir: self.is_dir, size: self.size }
    }
}

/// What a listing says.
pub open spec fn node_views(nodes: Seq<RemoteNode>) -> Seq<NodeView> {
    Seq::new(nodes.len(), |i: int| nodes[i]@)
}

impl Clone for RemoteNode {
    fn clone(&self) -> (r: RemoteNode)
        ensures
            r == *self,
    {
        RemoteNode {
            name: self.name.clone(),
            path: self.path.clone(),
            is_dir: self.is_dir,
            size: self.size,
        }
    }
}

// =====================================================================
// Registry
// =====================================================================

/// The saved servers, by id.
pub type ServerRegistry = IdMap<ServerConfig>;

/// The servers of `configs` put into `map` one after the other.
pub open spec fn with_servers(
    map: Map<Seq<char>, ServerConfig>,
    configs: Seq<ServerConfig>,
) -> Map<Seq<char>, ServerConfig>
    decreases configs.len(),
{
    if configs.len() == 0 {
        map
    } else {
        with_servers(map, configs.drop_last()).insert(configs.last().id@, configs.last())
    }
}

/// Warm the registry at startup.
pub fn init(servers: &mut ServerRegistry, configs: Vec<ServerConfig>)
    requires
        old(servers).wf(),
    ensures
        final(servers).wf(),
        final(servers)@ == with_servers(old(servers)@, configs@),
{
    let n: usize = configs.len();
    let mut i: usize = 0;
    assert(configs@.take(0) =~= Seq::empty());
    while i < n
        invariant
            0 <= i <= n,
            n == configs@.len(),
            servers.wf(),
            servers@ == with_servers(old(servers)@, configs@.take(i as int)),
        decreases n - i,
    {
        assert(configs@.take(i + 1).drop_last() =~= configs@.take(i as int));
        cache_server(servers, configs[i].clone());
        i = i + 1;
    }
    assert(configs@.take(n as int) =~= configs@);
}

/// Puts a server into the registry, in place of the one with its id.
pub fn cache_server(servers: &mut ServerRegistry, config: ServerConfig)
    requires
        old(servers).wf(),
    ensures
        final(servers).wf(),
        final(servers)@ == old(servers)@.insert(config.id@, config),
{
    servers.insert(config.id.clone(), config);
}

/// Takes a server out of the registry.
pub fn uncache_server(servers: &mut ServerRegistry, id: &str)
    requires
        old(servers).wf(),
    ensures
        final(servers).wf(),
        final(servers)@ == old(servers)@.remove(id@),
{
    servers.remove(id);
}

/// The settings of a server.
pub fn get_config(servers: &ServerRegistry, id: &str) -> (r: Result<ServerConfig, String>)
    requires
        servers.wf(),
    ensures
        match r {
            Ok(config) => servers@.contains_key(id@) && config == servers@[id@],
            Err(e) => !servers@.contains_key(id@) && e@
                == "That server is no longer configured. Re-add it in Settings."@,
        },
{
    match servers.get(id) {
        Some(config) => Ok(config.clone()),
        None => Err("That server is no longer configured. Re-add it in Settings.".to_owned()),
    }
}

/// `config` with the host key `fingerprint` pinned.
pub open spec fn pinned(config: ServerConfig, fingerprint: String) -> ServerConfig {
    ServerConfig { host_fingerprint: Some(fingerprint), ..config }
}

/// Pins a newly-seen SSH host key in the registry.
pub fn persist_fingerprint(servers: &mut ServerRegistry, id: &str, fingerprint: String)
    requires
        old(servers).wf(),
    ensures
        final(servers).wf(),
        final(servers)@ == (if old(servers)@.contains_key(id@) {
            old(servers)@.insert(id@, pinned(old(servers)@[id@], fingerprint))
        } else {
            old(servers)@
        }),
{
    let found: Option<ServerConfig> = match servers.get(id) {
        Some(config) => Some(config.clone()),
        None => None,
    };
    match found {
        Some(mut config) => {
            config.host_fingerprint = Some(fingerprint);
            servers.insert(id.to_owned(), config);
        },
        None => {},
    }
}

/// This host key is the one that is pinned.
pub open spec fn is_pinned(config: ServerConfig, fingerprint: Seq<char>) -> bool {
    config.host_fingerprint matches Some(p) && p@ == fingerprint
}

/// Whether a host key that was just seen has to be pinned: trust on first use pins
/// whatever was seen unless it is pinned already.
pub fn needs_pin(config: &ServerConfig, fingerprint: &str) -> (r: bool)
    ensures
        r == !is_pinned(*config, fingerprint@),
{
    match &config.host_fingerprint {
        Some(p) => !text::same(p.as_str(), fingerprint),
        None => true,
    }
}

/// The host key to pin after an attempt to connect: what an SSH server presented, unless it
/// is pinned already; nothing where there is no host key, where the attempt failed, and where
/// it was only a test. `outcome` is the host key, if there was one, or why the attempt
/// failed.
pub open spec fn pin_of(
    config: ServerConfig,
    outcome: Result<Option<String>, String>,
    testing: bool,
) -> Option<String> {
    match outcome {
        Ok(Some(fingerprint)) => if testing || config.kind != ServerKind::Sftp || is_pinned(
            config,
            fingerprint@,
        ) {
            None
        } else {
            Some(fingerprint)
        },
        _ => None,
    }
}

/// The host key to pin after an attempt to connect with these settings.
pub fn key_to_pin(
    config: &ServerConfig,
    outcome: Result<Option<String>, String>,
    testing: bool,
) -> (r: Option<String>)
    ensures
        r == pin_of(*config, outcome, testing),
{
    match outcome {
        Ok(Some(fingerprint)) => if !testing && config.kind == ServerKind::Sftp && needs_pin(
            config,
            fingerprint.as_str(),
        ) {
            Some(fingerprint)
        } else {
            None
        },
        _ => None,
    }
}

/// The registry after an attempt to connect, and the host key to save beside it.
pub open spec fn after_connection(
    servers: Map<Seq<char>, ServerConfig>,
    config: ServerConfig,
    outcome: Result<Option<String>, String>,
    testing: bool,
) -> (Map<Seq<char>, ServerConfig>, Option<String>) {
    let key = pin_of(config, outcome, testing);
    (
        match key {
            Some(fingerprint) => if servers.contains_key(config.id@) {
                servers.insert(config.id@, pinned(servers[config.id@], fingerprint))
            } else {
                servers
            },
            None => servers,
        },
        key,
    )
}

/// Takes note of an attempt to connect with these settings: pins the host key in the
/// registry where one has to be pinned, and yields it so it can be saved.
pub fn connected(
    servers: &mut ServerRegistry,
    config: &ServerConfig,
    outcome: Result<Option<String>, String>,
    testing: bool,
) -> (r: Option<String>)
    requires
        old(servers).wf(),
    ensures
        final(servers).wf(),
        (final(servers)@, r) == after_connection(old(servers)@, *config, outcome, testing),
{
    let key = key_to_pin(config, outcome, testing);
    match &key {
        Some(k) => {
            persist_fingerprint(servers, config.id.as_str(), k.clone());
        },
        None => {},
    }
    key
}

/// Testing a connection saves nothing: whatever settings are tried and whatever comes of it,
/// every saved server keeps all its settings, the pinned host key among them, and there is no
/// key to save.
pub proof fn law_testing_saves_nothing(
    servers: Map<Seq<char>, ServerConfig>,
    config: ServerConfig,
    outcome: Result<Option<String>, String>,
)
    ensures
        after_connection(servers, config, outcome, true) == (servers, None::<String>),
{
}

/// A failed attempt records nothing, and neither does one to a server that is not an SSH
/// server.
pub proof fn law_only_ssh_hosts_are_pinned(
    servers: Map<Seq<char>, ServerConfig>,
    config: ServerConfig,
    outcome: Result<Option<String>, String>,
    testing: bool,
)
    requires
        outcome is Err || config.kind != ServerKind::Sftp,
    ensures
        after_connection(servers, config, outcome, testing) == (servers, None::<String>),
{
}

/// What a connection to an SSH server records is the host key that it presented, unless it is
/// pinned already: with the settings of that server, and nowhere else.
pub proof fn law_presented_key_is_recorded(
    servers: Map<Seq<char>, ServerConfig>,
    config: ServerConfig,
    fingerprint: String,
    other: Seq<char>,
)
    requires
        config.kind == ServerKind::Sftp,
    ensures
        ({
            let (after, key) = after_connection(servers, config, Ok(Some(fingerprint)), false);
            &&& key is Some <==> !is_pinned(config, fingerprint@)
            &&& key matches Some(k) ==> k == fingerprint
            &&& key is None ==> after == servers
            &&& after.contains_key(other) == servers.contains_key(other)
            &&& other != config.id@ && servers.contains_key(other) ==> after[other]
                == servers[other]
        }),
{
}

/// The first connection to a saved server pins the host key that it presented, and with
/// those settings the same key is not pinned again.
pub proof fn law_first_use_pins(
    servers: Map<Seq<char>, ServerConfig>,
    config: ServerConfig,
    fingerprint: String,
)
    requires
        servers.contains_key(config.id@),
        servers[config.id@] == config,
        config.kind == ServerKind::Sftp,
        config.host_fingerprint is None,
    ensures
        ({
            let (after, key) = after_connection(servers, config, Ok(Some(fingerprint)), false);
            &&& key == Some(fingerprint)
            &&& after == servers.insert(config.id@, pinned(config, fingerprint))
            &&& after_connection(after, after[config.id@], Ok(Some(fingerprint)), false) == (
                after,
                None::<String>,
            )
        }),
{
}

/// A host key that was pinned stays pinned, and pinning it changes nothing else.
pub proof fn law_pinned_once(config: ServerConfig, fingerprint: String)
    ensures
        is_pinned(pinned(config, fingerprint), fingerprint@),
        pinned(pinned(config, fingerprint), fingerprint) == pinned(config, fingerprint),
        (ServerConfig { host_fingerprint: config.host_fingerprint, ..pinned(config, fingerprint) })
            == config,
{
}

// =====================================================================
// URIs
// =====================================================================

/// Prefix on every stored remote path.
pub const URI_PREFIX: &'static str = "srv:";

/// The server id and the path of a stored `srv:<serverId>:<path>`.
pub open spec fn uri_parts(uri: Seq<char>) -> Option<(Seq<char>, Seq<char>)> {
    match text::strip_prefix(uri, "srv:"@) {
        Some(rest) => match text::split_once(rest, seq![':']) {
            Some((id, path)) => if id.len() == 0 || path.len() == 0 {
                None
            } else {
                Some((id, path))
            },
            None => None,
        },
        None => None,
    }
}

/// The stored form of a path on a server.
pub open spec fn uri_of(id: Seq<char>, path: Seq<char>) -> Seq<char> {
    "srv:"@ + id + ":"@ + path
}

/// Split a stored `srv:<serverId>:<path>` into its parts.
pub fn split_uri(uri: &str) -> (r: Option<(String, String)>)
    ensures
        match r {
            Some((id, path)) => uri_parts(uri@) == Some((id@, path@)),
            None => uri_parts(uri@) is None,
        },
{
    let rest = match text::without_prefix(uri, "srv:") {
        Some(rest) => rest,
        None => {
            return None;
        },
    };
    match text::split_once_char(rest, ':') {
        Some((id, path)) => {
            if id.is_empty() || path.is_empty() {
                None
            } else {
                Some((id.to_owned(), path.to_owned()))
            }
        },
        None => None,
    }
}

/// The stored form of a path on a server.
pub fn make_uri(server_id: &str, path: &str) -> (r: String)
    ensures
        r@ == uri_of(server_id@, path@),
{
    let mut r: String = "srv:".to_owned();
    r.append(server_id);
    r.append(":");
    r.append(path);
    r
}

/// A stored path splits into what it was made of, whatever the path holds, as long
/// as the server id holds no colon and neither part is empty.
pub proof fn law_split_make(id: Seq<char>, path: Seq<char>)
    requires
        id.len() > 0,
        path.len() > 0,
        !id.contains(':'),
    ensures
        uri_parts(uri_of(id, path)) == Some((id, path)),
{
    reveal_strlit("srv:");
    reveal_strlit(":");
    let uri = uri_of(id, path);
    let rest = id + ":"@ + path;
    assert(uri.take(4) =~= "srv:"@);
    assert(uri.skip(4) =~= rest);
    assert(rest[id.len() as int] == ':');
    text::lemma_occurs_char(rest, ':', id.len() as int);
    assert forall|j: int| 0 <= j < id.len() implies !text::occurs_at(rest, seq![':'], j) by {
        text::lemma_occurs_char(rest, ':', j);
        assert(rest[j] == id[j]);
        assert(id.contains(id[j]));
    }
    text::lemma_find_from_is(rest, seq![':'], 0, id.len() as int);
    assert(rest.take(id.len() as int) =~= id);
    assert(rest.skip(id.len() as int + 1) =~= path);
}

/// What a stored path splits into makes it again; the id holds no colon, and
/// neither part is empty.
pub proof fn law_make_split(uri: Seq<char>)
    ensures
        uri_parts(uri) matches Some((id, path)) ==> uri == uri_of(id, path) && !id.contains(':')
            && id.len() > 0 && path.len() > 0,
{
    if uri_parts(uri) is Some {
        reveal_strlit("srv:");
        reveal_strlit(":");
        let rest = uri.skip(4);
        text::lemma_find_from(rest, seq![':'], 0);
        let i = text::find(rest, seq![':'])->0;
        text::lemma_occurs_char(rest, ':', i);
        let id = rest.take(i);
        let path = rest.skip(i + 1);
        assert(uri =~= uri_of(id, path)) by {
            assert(uri =~= uri.take(4) + rest);
            assert(rest =~= id + ":"@ + path);
        }
        if id.contains(':') {
            let j = choose|j: int| 0 <= j < id.len() && id[j] == ':';
            text::lemma_occurs_char(rest, ':', j);
        }
    }
}

/// The server and path that a stored URI addresses, or why there is none.
pub fn read_target(uri: &str) -> (r: Result<(String, String), String>)
    ensures
        match r {
            Ok((id, path)) => uri_parts(uri@) == Some((id@, path@)),
            Err(e) => uri_parts(uri@) is None && e@ == "Malformed remote path: "@ + uri@,
        },
{
    match split_uri(uri) {
        Some(parts) => Ok(parts),
        None => {
            let mut e: String = "Malformed remote path: ".to_owned();
            e.append(uri);
            Err(e)
        },
    }
}

/// What `str::to_lowercase` makes of a string.
pub uninterp spec fn lowercase(s: Seq<char>) -> Seq<char>;

/// `c`, in lower case if it is an ASCII capital.
pub open spec fn ascii_lower(c: char) -> char {
    if 'A' <= c <= 'Z' {
        (c as u32 + 32) as char
    } else {
        c
    }
}

/// `str::to_lowercase`: a function of the characters alone, which on ASCII text
/// turns each capital letter into the small one.
#[verifier::external_body]
pub(crate) fn to_lowercase(s: &str) -> (r: String)
    ensures
        r@ == lowercase(s@),
        vstd::utf8::is_ascii_chars(s@) ==> r@ == s@.map_values(|c: char| ascii_lower(c)),
{
    s.to_lowercase()
}

/// The content type of a file whose extension, in lower case, is `ext`.
pub open spec fn mime_of(ext: Seq<char>) -> Seq<char> {
    if ext == "mov"@ {
        "video/quicktime"@
    } else if ext == "webm"@ {
        "video/webm"@
    } else if ext == "mkv"@ {
        "video/x-matroska"@
    } else if ext == "ogg"@ || ext == "ogv"@ {
        "video/ogg"@
    } else {
        "video/mp4"@
    }
}

/// What stands after the last dot of a file name, or nothing.
pub open spec fn extension(name: Seq<char>) -> Seq<char> {
    match text::rfind_char(name, '.') {
        Some(i) => name.skip(i + 1),
        None => Seq::empty(),
    }
}

/// The content type of a file whose extension, in lower case, is `ext`.
pub fn mime_for_extension(ext: &str) -> (r: &'static str)
    ensures
        r@ == mime_of(ext@),
{
    if text::same(ext, "mov") {
        "video/quicktime"
    } else if text::same(ext, "webm") {
        "video/webm"
    } else if text::same(ext, "mkv") {
        "video/x-matroska"
    } else if text::same(ext, "ogg") || text::same(ext, "ogv") {
        "video/ogg"
    } else {
        "video/mp4"
    }
}

/// Content type for the `<video>` element, from the file extension. Remote
/// listings rarely carry a usable MIME type, and WKWebView needs a plausible one.
pub fn guess_mime(name: &str) -> (r: &'static str)
    ensures
        r@ == mime_of(lowercase(extension(name@))),
        vstd::utf8::is_ascii_chars(extension(name@)) ==> r@ == mime_of(
            extension(name@).map_values(|c: char| ascii_lower(c)),
        ),
{
    let ext = match text::rfind(name, '.') {
        Some(i) => text::from(name, i + 1),
        None => "",
    };
    proof {
        reveal_strlit("");
        assert(ext@ =~= extension(name@));
    }
    mime_for_extension(to_lowercase(ext).as_str())
}

/// A directory path and a child name, joined.
pub open spec fn joined(dir: Seq<char>, name: Seq<char>) -> Seq<char> {
    if dir.len() == 0 || dir == "/"@ {
        "/"@ + name
    } else {
        text::trim_end_char(dir, '/') + "/"@ + name
    }
}

/// Join a directory path with a child name, POSIX-style. Every backend here
/// addresses with `/`, whatever the server's own OS uses.
pub fn join_path(dir: &str, name: &str) -> (r: String)
    ensures
        r@ == joined(dir@, name@),
{
    if dir.is_empty() || text::same(dir, "/") {
        let mut r: String = "/".to_owned();
        r.append(name);
        r
    } else {
        let mut r: String = text::trim_end_matches(dir, '/').to_owned();
        r.append("/");
        r.append(name);
        r
    }
}

/// The last component of a joined path is the name, and slashes at the end of the
/// directory make no difference.
pub proof fn law_join_path(dir: Seq<char>, name: Seq<char>)
    requires
        !name.contains('/'),
    ensures
        text::after_last(joined(dir, name), '/') == name,
        joined(dir + "/"@, name) == joined(dir, name),
{
    reveal_strlit("/");
    let j = joined(dir, name);
    let head = if dir.len() == 0 || dir == "/"@ {
        Seq::empty()
    } else {
        text::trim_end_char(dir, '/')
    };
    assert(j =~= head + "/"@ + name);
    let k = head.len() as int;
    assert forall|m: int| k < m < j.len() implies j[m] != '/' by {
        assert(j[m] == name[m - k - 1]);
        assert(name.contains(name[m - k - 1]));
    }
    assert(j[k] == '/');
    text::lemma_rfind_char_is(j, '/', k);
    assert(j.skip(k + 1) =~= name);
    let longer = dir + "/"@;
    assert(longer.drop_last() =~= dir);
    assert(longer.last() == '/');
    assert(text::trim_end_char(longer, '/') == text::trim_end_char(dir, '/'));
    if dir.len() == 0 {
        assert(longer =~= "/"@);
    } else {
        assert(longer != "/"@) by {
            assert(longer.len() > 1);
        }
        if dir == "/"@ {
            reveal_with_fuel(text::trim_end_char, 2);
            assert(dir.drop_last() =~= Seq::empty());
            assert(text::trim_end_char(dir, '/') =~= Seq::empty());
            assert(joined(longer, name) =~= j);
        }
    }
}

// =====================================================================
// Further laws
// =====================================================================

/// The words for the kinds of servers.
pub proof fn law_kinds_are_named(kind: ServerKind)
    ensures
        kind_text(kind) == "sftp"@ <==> kind == ServerKind::Sftp,
        kind_text(kind) == "webdav"@ <==> kind == ServerKind::Webdav,
        kind_text(kind) == "s3"@ <==> kind == ServerKind::S3,
{
    reveal_strlit("sftp");
    reveal_strlit("webdav");
    reveal_strlit("s3");
    assert("sftp"@.len() == 4);
    assert("webdav"@.len() == 6);
    assert("s3"@.len() == 2);
}

/// After servers were put into the registry one after the other, each id has the last one that
/// was put there under it, and an id that none of them has is as before.
pub proof fn law_last_server_stays(
    map: Map<Seq<char>, ServerConfig>,
    configs: Seq<ServerConfig>,
    id: Seq<char>,
    i: int,
)
    ensures
        0 <= i < configs.len() && configs[i].id@ == id && (forall|j: int|
            i < j < configs.len() ==> (#[trigger] configs[j]).id@ != id) ==> with_servers(
            map,
            configs,
        ).contains_key(id) && with_servers(map, configs)[id] == configs[i],
        (forall|j: int| 0 <= j < configs.len() ==> (#[trigger] configs[j]).id@ != id)
            ==> with_servers(map, configs).contains_key(id) == map.contains_key(id) && (
        map.contains_key(id) ==> with_servers(map, configs)[id] == map[id]),
    decreases configs.len(),
{
    if configs.len() > 0 {
        let front = configs.drop_last();
        law_last_server_stays(map, front, id, i);
        let last = configs[configs.len() - 1];
        assert forall|j: int| 0 <= j < front.len() implies #[trigger] front[j] == configs[j] by {}
        if last.id@ != id {
            if forall|j: int| 0 <= j < configs.len() ==> (#[trigger] configs[j]).id@ != id {
                assert forall|j: int| 0 <= j < front.len() implies (#[trigger] front[j]).id@
                    != id by {
                    assert(configs[j].id@ != id);
                }
            }
            if 0 <= i < configs.len() && configs[i].id@ == id && (forall|j: int|
                i < j < configs.len() ==> (#[trigger] configs[j]).id@ != id) {
                assert(i < front.len());
                assert forall|j: int| i < j < front.len() implies (#[trigger] front[j]).id@
                    != id by {
                    assert(configs[j].id@ != id);
                }
            }
        }
    }
}

/// A host key that is recorded for a saved server is pinned in its settings, and nothing else of
/// them changes.
pub proof fn law_recorded_key_is_pinned(
    servers: Map<Seq<char>, ServerConfig>,
    config: ServerConfig,
    outcome: Result<Option<String>, String>,
    testing: bool,
)
    requires
        servers.contains_key(config.id@),
    ensures
        ({
            let (after, key) = after_connection(servers, config, outcome, testing);
            let was = servers[config.id@];
            let is = after[config.id@];
            &&& key matches Some(k) ==> is.host_fingerprint == Some(k)
            &&& key is None ==> is == was
            &&& is.id == was.id && is.name == was.name && is.kind == was.kind && is.host
                == was.host && is.port == was.port && is.username == was.username
                && is.base_path == was.base_path && is.bucket == was.bucket && is.region
                == was.region && is.path_style == was.path_style
            &&& outcome matches Ok(Some(k)) ==> key is Some ==> key == Some(k)
        }),
{
}

/// A stored path begins with the scheme of servers.
pub proof fn law_uri_is_of_a_server(id: Seq<char>, path: Seq<char>)
    ensures
        text::strip_prefix(uri_of(id, path), "srv:"@) == Some(id + ":"@ + path),
        uri_parts(id) is Some ==> text::starts_with(id, "srv:"@),
{
    let rest = id + ":"@ + path;
    assert(uri_of(id, path) =~= "srv:"@ + rest);
    text::law_strip_prefix("srv:"@, rest, id);
}

/// A joined path is the directory without the slashes at its end, one slash, and the name.
pub proof fn law_joined(dir: Seq<char>, name: Seq<char>)
    ensures
        joined(dir, name) == text::trim_end_char(dir, '/') + "/"@ + name,
{
    reveal_strlit("/");
    let none = Seq::<char>::empty();
    text::law_trim_char(none, "/"@, '/');
    if dir.len() == 0 || dir == "/"@ {
        assert(text::trim_end_char(dir, '/') =~= none);
        assert(none + "/"@ + name =~= "/"@ + name);
    }
}

/// The extension of a file name is what stands after its last dot; a name without a dot has none.
pub proof fn law_extension(stem: Seq<char>, ext: Seq<char>)
    requires
        !ext.contains('.'),
    ensures
        extension(stem + seq!['.'] + ext) == ext,
        extension(ext).len() == 0,
{
    let name = stem + seq!['.'] + ext;
    let k = stem.len() as int;
    assert(name[k] == '.');
    assert forall|j: int| k < j < name.len() implies name[j] != '.' by {
        assert(name[j] == ext[j - k - 1]);
        assert(ext.contains(ext[j - k - 1]));
    }
    text::lemma_rfind_char_is(name, '.', k);
    assert(name.skip(k + 1) =~= ext);
    assert forall|j: int| 0 <= j < ext.len() implies ext[j] != '.' by {
        assert(ext.contains(ext[j]));
    }
    text::lemma_rfind_char_none(ext, '.');
}

/// Every content type is that of a video: MP4, unless the extension is one of those that have a
/// type of their own.
pub proof fn law_mime(ext: Seq<char>)
    ensures
        text::starts_with(mime_of(ext), "video/"@),
        mime_of(ext) != "video/mp4"@ <==> ext == "mov"@ || ext == "webm"@ || ext == "mkv"@ || ext
            == "ogg"@ || ext == "ogv"@,
        mime_of("mov"@) == "video/quicktime"@,
        mime_of("webm"@) == "video/webm"@,
        mime_of("mkv"@) == "video/x-matroska"@,
        mime_of("ogg"@) == "video/ogg"@,
        mime_of("ogv"@) == "video/ogg"@,
{
    reveal_strlit("mov");
    reveal_strlit("webm");
    reveal_strlit("mkv");
    reveal_strlit("ogg");
    reveal_strlit("ogv");
    reveal_strlit("video/");
    reveal_strlit("video/mp4");
    reveal_strlit("video/quicktime");
    reveal_strlit("video/webm");
    reveal_strlit("video/x-matroska");
    reveal_strlit("video/ogg");
    assert("mov"@[1] == 'o' && "mkv"@[1] == 'k' && "ogg"@[1] == 'g' && "ogv"@[2] == 'v'
        && "ogg"@[2] == 'g' && "mov"@[0] == 'm' && "ogv"@[0] == 'o' && "ogg"@[0] == 'o'
        && "mkv"@[0] == 'm');
    assert("webm"@.len() == 4 && "mov"@.len() == 3 && "mkv"@.len() == 3 && "ogg"@.len() == 3
        && "ogv"@.len() == 3);
    assert("video/mp4"@.len() == 9 && "video/mp4"@[6] == 'm');
    assert("video/ogg"@.len() == 9 && "video/ogg"@[6] == 'o');
    assert("video/webm"@.len() == 10 && "video/quicktime"@.len() == 15
        && "video/x-matroska"@.len() == 16);
    assert("video/mp4"@.take(6) =~= "video/"@);
    assert("video/ogg"@.take(6) =~= "video/"@);
    assert("video/webm"@.take(6) =~= "video/"@);
    assert("video/quicktime"@.take(6) =~= "video/"@);
    assert("video/x-matroska"@.take(6) =~= "video/"@);
}

/// A node says what its fields hold, and a listing says what its nodes do, one by one.
pub proof fn law_nodes_say_what_they_hold(nodes: Seq<RemoteNode>, i: int)
    requires
        0 <= i < nodes.len(),
    ensures
        node_views(nodes).len() == nodes.len(),
        node_views(nodes)[i].name == nodes[i].name@,
        node_views(nodes)[i].path == nodes[i].path@,
        node_views(nodes)[i].is_dir == nodes[i].is_dir,
        node_views(nodes)[i].size == nodes[i].size,
{
}

/// Exactly the host key that was pinned last is pinned, and none is where none was.
pub proof fn law_one_key_is_pinned(config: ServerConfig, fingerprint: String, other: Seq<char>)
    ensures
        is_pinned(pinned(config, fingerprint), other) <==> other == fingerprint@,
        config.host_fingerprint is None ==> !is_pinned(config, other),
{
}

/// Secrets lack what a connection needs exactly where there is neither a password nor a private
/// key, whatever the passphrase.
pub proof fn law_lacking(secrets: ServerSecrets)
    ensures
        secrets.lacking() <==> secrets.password@.len() + secrets.private_key@.len() == 0,
{
}

} // verus!
