//! Saved servers: what the Settings form and the folder browser send comes to.
use vstd::prelude::*;
use vstd::string::*;

use crate::id_map::IdMap;
use crate::remote;
use crate::remote::session::evict_backend;
use crate::remote::{
    cache_server, get_config, uncache_server, RemoteNode, ServerConfig, ServerKind, ServerRegistry,
    ServerSecrets,
};
use crate::stream_cache;
use crate::text;

verus! {

/// What the Settings form sends. Secrets are optional on edit: an empty
/// `password`/`private_key` means "keep what's in the keychain", so the UI never has to
/// read a stored secret back out to re-save the rest of the form.
#[derive(Debug)]
pub struct ServerInput {
    /// Absent when adding, present when editing.
    pub id: Option<String>,
    pub name: String,
    pub kind: String,
    pub host: String,
    pub port: Option<u16>,
    pub username: String,
    pub base_path: Option<String>,
    pub bucket: Option<String>,
    pub region: Option<String>,
    pub path_style: Option<bool>,
    pub password: Option<String>,
    pub private_key: Option<String>,
    pub passphrase: Option<String>,
}

/// What a [`ServerConfig`] says.
#[verifier::ext_equal]
pub struct ConfigView {
    pub id: Seq<char>,
    pub name: Seq<char>,
    pub kind: ServerKind,
    pub host: Seq<char>,
    pub port: u16,
    pub username: Seq<char>,
    pub base_path: Seq<char>,
    pub bucket: Seq<char>,
    pub region: Seq<char>,
    pub path_style: bool,
    pub host_fingerprint: Option<Seq<char>>,
}

/// What a [`ServerConfig`] says.
pub open spec fn config_view(c: ServerConfig) -> ConfigView {
    ConfigView {
        id: c.id@,
        name: c.name@,
        kind: c.kind,
        host: c.host@,
        port: c.port,
        username: c.username@,
        base_path: c.base_path@,
        bucket: c.bucket@,
        region: c.region@,
        path_style: c.path_style,
        host_fingerprint: stream_cache::opt_view(c.host_fingerprint),
    }
}

/// What a [`ServerSecrets`] says: password, private key and passphrase.
pub open spec fn secrets_view(s: ServerSecrets) -> (Seq<char>, Seq<char>, Seq<char>) {
    (s.password@, s.private_key@, s.passphrase@)
}

// =====================================================================
// The form
// =====================================================================

/// A field that was left out is an empty one.
pub open spec fn filled_in(field: Option<String>) -> Seq<char> {
    match field {
        Some(s) => text::trim(s@),
        None => Seq::empty(),
    }
}

/// The port of a form.
pub open spec fn port_of(input: ServerInput) -> u16 {
    match input.port {
        Some(port) => port,
        None => 22,
    }
}

/// The host key that stays pinned: changing the host means the pinned key no longer
/// applies.
pub open spec fn kept_fingerprint(input: ServerInput, existing: Option<ServerConfig>) -> Option<
    Seq<char>,
> {
    match existing {
        Some(e) => if e.host@ == text::trim(input.host@) && e.port == port_of(input) {
            stream_cache::opt_view(e.host_fingerprint)
        } else {
            None
        },
        None => None,
    }
}

/// The settings that a form stands for, or why it stands for none.
pub open spec fn config_of(
    input: ServerInput,
    id: Seq<char>,
    existing: Option<ServerConfig>,
) -> Result<ConfigView, Seq<char>> {
    match remote::kind_named(input.kind@) {
        None => Err("Unknown server kind: "@ + input.kind@),
        Some(kind) => if text::trim(input.name@).len() == 0 {
            Err("Give this server a name."@)
        } else {
            Ok(
                ConfigView {
                    id,
                    name: text::trim(input.name@),
                    kind,
                    host: text::trim(input.host@),
                    port: port_of(input),
                    username: text::trim(input.username@),
                    base_path: if filled_in(input.base_path).len() == 0 {
                        "/"@
                    } else {
                        filled_in(input.base_path)
                    },
                    bucket: filled_in(input.bucket),
                    region: filled_in(input.region),
                    path_style: match input.path_style {
                        Some(b) => b,
                        None => true,
                    },
                    host_fingerprint: kept_fingerprint(input, existing),
                },
            )
        },
    }
}

fn trimmed_field(field: &Option<String>) -> (r: String)
    ensures
        r@ == filled_in(*field),
{
    match field {
        Some(s) => text::trimmed(s.as_str()).to_owned(),
        None => {
            let r = String::new();
            assert(r@ =~= Seq::empty());
            r
        },
    }
}

/// The settings that a form stands for.
pub fn build_config(input: &ServerInput, id: String, existing: Option<&ServerConfig>) -> (r: Result<
    ServerConfig,
    String,
>)
    ensures
        config_of(
            *input,
            id@,
            match existing {
                Some(e) => Some(*e),
                None => None,
            },
        ) == match r {
            Ok(config) => Ok(config_view(config)),
            Err(e) => Err(e@),
        },
{
    let kind = match ServerKind::parse(input.kind.as_str()) {
        Ok(kind) => kind,
        Err(e) => {
            return Err(e);
        },
    };
    let name = text::trimmed(input.name.as_str());
    if name.is_empty() {
        return Err("Give this server a name.".to_owned());
    }
    let host = text::trimmed(input.host.as_str());
    let port: u16 = match input.port {
        Some(port) => port,
        None => 22,
    };
    let base = trimmed_field(&input.base_path);
    let base_path = if base.as_str().is_empty() {
        "/".to_owned()
    } else {
        base
    };
    // Changing the host means the pinned key no longer applies.
    let host_fingerprint: Option<String> = match existing {
        Some(e) => if text::same(e.host.as_str(), host) && e.port == port {
            e.host_fingerprint.clone()
        } else {
            None
        },
        None => None,
    };
    Ok(
        ServerConfig {
            id,
            name: name.to_owned(),
            kind,
            host: host.to_owned(),
            port,
            username: text::trimmed(input.username.as_str()).to_owned(),
            base_path,
            bucket: trimmed_field(&input.bucket),
            region: trimmed_field(&input.region),
            path_style: match input.path_style {
                Some(b) => b,
                None => true,
            },
            host_fingerprint,
        },
    )
}

/// A secret that was submitted, or the one that is saved where none was.
pub open spec fn submitted_or(submitted: Option<String>, current: Seq<char>) -> Seq<char> {
    match submitted {
        Some(v) => if v@.len() > 0 {
            v@
        } else {
            current
        },
        None => current,
    }
}

/// The secrets that are saved after a form was sent: password, private key and
/// passphrase.
pub open spec fn merged(input: ServerInput, existing: ServerSecrets) -> (
    Seq<char>,
    Seq<char>,
    Seq<char>,
) {
    (
        submitted_or(input.password, existing.password@),
        submitted_or(input.private_key, existing.private_key@),
        match input.passphrase {
            Some(p) => p@,
            None => existing.passphrase@,
        },
    )
}

fn take(submitted: &Option<String>, current: String) -> (r: String)
    ensures
        r@ == submitted_or(*submitted, current@),
{
    match submitted {
        Some(v) => if !v.as_str().is_empty() {
            v.clone()
        } else {
            current
        },
        None => current,
    }
}

/// Merge submitted secrets over what's already saved, so blank fields on an edit keep the
/// stored value rather than wiping it.
pub fn merge_secrets(input: &ServerInput, existing: ServerSecrets) -> (r: ServerSecrets)
    ensures
        secrets_view(r) == merged(*input, existing),
{
    ServerSecrets {
        password: take(&input.password, existing.password),
        private_key: take(&input.private_key, existing.private_key),
        // A passphrase only means anything alongside a key, and users do clear it
        // deliberately, so an explicit empty string wins here.
        passphrase: match &input.passphrase {
            Some(p) => p.clone(),
            None => existing.passphrase,
        },
    }
}

/// Blank fields of a form keep what is saved, and only a passphrase can be cleared.
pub proof fn law_blank_keeps_secrets(input: ServerInput, existing: ServerSecrets)
    ensures
        (input.password matches Some(p) ==> p@.len() == 0) ==> merged(input, existing).0
            == existing.password@,
        (input.private_key matches Some(p) ==> p@.len() == 0) ==> merged(input, existing).1
            == existing.private_key@,
        input.passphrase is None ==> merged(input, existing).2 == existing.passphrase@,
        input.passphrase matches Some(p) ==> merged(input, existing).2 == p@,
{
}

/// A pinned host key survives an edit exactly where host and port stay the same.
pub proof fn law_pin_follows_host(input: ServerInput, id: Seq<char>, existing: ServerConfig)
    ensures
        config_of(input, id, Some(existing)) matches Ok(config) ==> config.host_fingerprint == if
        existing.host@ == config.host && existing.port == config.port {
            stream_cache::opt_view(existing.host_fingerprint)
        } else {
            None
        },
{
}

// =====================================================================
// Saving
// =====================================================================

/// A character of a UUID: a small hexadecimal digit or a hyphen.
pub open spec fn uuid_char(c: char) -> bool {
    ||| '0' <= c <= '9'
    ||| 'a' <= c <= 'f'
    ||| c == '-'
}

/// `s` looks like a UUID.
pub open spec fn is_uuid(s: Seq<char>) -> bool {
    s.len() == 36 && forall|i: int| 0 <= i < s.len() ==> uuid_char(#[trigger] s[i])
}

/// `uuid::Uuid::new_v4`, written out: a random identifier in lower case with hyphens.
#[verifier::external_body]
fn new_uuid() -> (r: String)
    ensures
        is_uuid(r@),
{
    uuid::Uuid::new_v4().to_string()
}

/// The id of the server that a form is for: a fresh one when adding.
pub fn server_id(input: &ServerInput) -> (r: String)
    ensures
        match input.id {
            Some(id) => r@ == id@,
            None => is_uuid(r@),
        },
{
    match &input.id {
        Some(id) => id.clone(),
        None => new_uuid(),
    }
}

/// A fresh id can stand in a URI: it has no colon, so the URI of a path splits into the
/// id and the path.
pub proof fn law_fresh_id_addresses(id: Seq<char>, path: Seq<char>)
    requires
        is_uuid(id),
        path.len() > 0,
    ensures
        !id.contains(':'),
        remote::uri_parts(remote::uri_of(id, path)) == Some((id, path)),
{
    if id.contains(':') {
        let i = choose|i: int| 0 <= i < id.len() && id[i] == ':';
        assert(uuid_char(id[i]));
    }
    remote::law_split_make(id, path);
}

/// The settings that are saved under an id, if there are any.
pub open spec fn saved(servers: Map<Seq<char>, ServerConfig>, id: Seq<char>) -> Option<
    ServerConfig,
> {
    if servers.contains_key(id) {
        Some(servers[id])
    } else {
        None
    }
}

/// Why a new server without secrets is not saved.
pub open spec fn secrets_wanted(kind: ServerKind) -> Seq<char> {
    match kind {
        ServerKind::Sftp => "Add a password or a private key for this server."@,
        ServerKind::Webdav => "Add the WebDAV password for this server."@,
        ServerKind::S3 => "Add the secret access key for this bucket."@,
    }
}

/// What saving a form comes to: the settings and secrets to save, or why nothing is
/// saved. `stored` are the secrets that are saved already.
pub open spec fn save_of(
    servers: Map<Seq<char>, ServerConfig>,
    input: ServerInput,
    id: Seq<char>,
    stored: ServerSecrets,
) -> Result<(ConfigView, (Seq<char>, Seq<char>, Seq<char>)), Seq<char>> {
    let existing = if input.id is None {
        None
    } else {
        saved(servers, id)
    };
    match config_of(input, id, existing) {
        Err(e) => Err(e),
        Ok(config) => {
            let secrets = merged(input, stored);
            if input.id is None && secrets.0.len() == 0 && secrets.1.len() == 0 {
                Err(secrets_wanted(config.kind))
            } else {
                Ok((config, secrets))
            }
        },
    }
}

/// What saving a form comes to.
pub fn save_server(
    servers: &ServerRegistry,
    input: &ServerInput,
    id: &str,
    stored: ServerSecrets,
) -> (r: Result<(ServerConfig, ServerSecrets), String>)
    requires
        servers.wf(),
    ensures
        save_of(servers@, *input, id@, stored) == match r {
            Ok((config, secrets)) => Ok((config_view(config), secrets_view(secrets))),
            Err(e) => Err(e@),
        },
{
    let is_new = input.id.is_none();
    let existing: Option<ServerConfig> = if is_new {
        None
    } else {
        match get_config(servers, id) {
            Ok(config) => Some(config),
            Err(_) => None,
        }
    };
    let config = match build_config(input, id.to_owned(), existing.as_ref()) {
        Ok(config) => config,
        Err(e) => {
            return Err(e);
        },
    };
    let secrets = merge_secrets(input, stored);
    if is_new && secrets.is_empty() {
        return Err(
            match config.kind {
                ServerKind::Sftp => "Add a password or a private key for this server.".to_owned(),
                ServerKind::Webdav => "Add the WebDAV password for this server.".to_owned(),
                ServerKind::S3 => "Add the secret access key for this bucket.".to_owned(),
            },
        );
    }
    Ok((config, secrets))
}

/// Takes over settings that were saved. They may have changed, so any live connection is
/// dropped and the next use reconnects.
pub fn server_saved<B>(servers: &mut ServerRegistry, backends: &mut IdMap<B>, config: ServerConfig)
    requires
        old(servers).wf(),
        old(backends).wf(),
    ensures
        final(servers).wf(),
        final(backends).wf(),
        final(servers)@ == old(servers)@.insert(config.id@, config),
        final(backends)@ == old(backends)@.remove(config.id@),
{
    evict_backend(backends, config.id.as_str());
    cache_server(servers, config);
}

/// Forgets a server that was deleted, and its live connection.
pub fn delete_server<B>(servers: &mut ServerRegistry, backends: &mut IdMap<B>, id: &str)
    requires
        old(servers).wf(),
        old(backends).wf(),
    ensures
        final(servers).wf(),
        final(backends).wf(),
        final(servers)@ == old(servers)@.remove(id@),
        final(backends)@ == old(backends)@.remove(id@),
{
    uncache_server(servers, id);
    evict_backend(backends, id);
}

// =====================================================================
// Testing
// =====================================================================

/// The id that a form is tested under.
pub fn test_id(input: &ServerInput) -> (r: String)
    ensures
        r@ == match input.id {
            Some(id) => id@,
            None => "test"@,
        },
{
    match &input.id {
        Some(id) => id.clone(),
        None => "test".to_owned(),
    }
}

/// The settings and secrets to test a form with, without saving them, so the user can fix
/// a typo before committing. `stored` are the secrets that are saved already.
pub fn test_server(servers: &ServerRegistry, input: &ServerInput, stored: ServerSecrets) -> (r:
    Result<(ServerConfig, ServerSecrets), String>)
    requires
        servers.wf(),
    ensures
        match config_of(
            *input,
            match input.id {
                Some(id) => id@,
                None => "test"@,
            },
            match input.id {
                Some(id) => saved(servers@, id@),
                None => None,
            },
        ) {
            Ok(config) => r is Ok && config_view(r->Ok_0.0) == config && secrets_view(r->Ok_0.1)
                == merged(*input, stored),
            Err(e) => r is Err && r->Err_0@ == e,
        },
{
    let existing: Option<ServerConfig> = match &input.id {
        Some(id) => match get_config(servers, id.as_str()) {
            Ok(config) => Some(config),
            Err(_) => None,
        },
        None => None,
    };
    match build_config(input, test_id(input), existing.as_ref()) {
        Ok(config) => Ok((config, merge_secrets(input, stored))),
        Err(e) => Err(e),
    }
}

/// How many of `nodes` are folders.
pub open spec fn folder_count(nodes: Seq<RemoteNode>) -> nat
    decreases nodes.len(),
{
    if nodes.len() == 0 {
        0
    } else {
        folder_count(nodes.drop_last()) + if nodes.last().is_dir {
            1nat
        } else {
            0
        }
    }
}

/// A number of things.
pub open spec fn counted(n: nat, what: Seq<char>) -> Seq<char> {
    text::decimal(n) + " "@ + what + if n == 1 {
        Seq::empty()
    } else {
        "s"@
    }
}

/// The report of a test that succeeded.
pub open spec fn test_report(
    name: Seq<char>,
    base_path: Seq<char>,
    folders: nat,
    files: nat,
) -> Seq<char> {
    "Connected. "@ + name + " at "@ + base_path + " — "@ + counted(folders, "folder"@) + ", "@
        + counted(files, "file"@) + "."@
}

fn count_of(n: usize, what: &str) -> (r: String)
    ensures
        r@ == counted(n as nat, what@),
{
    let mut r: String = text::decimal_of(n as u64);
    r.append(" ");
    r.append(what);
    if n != 1 {
        r.append("s");
    }
    assert(r@ =~= counted(n as nat, what@));
    r
}

/// The report of a test that succeeded: what there is at the base path.
pub fn test_summary(config: &ServerConfig, entries: &Vec<RemoteNode>) -> (r: String)
    ensures
        r@ == test_report(
            config.name@,
            config.base_path@,
            folder_count(entries@),
            (entries@.len() - folder_count(entries@)) as nat,
        ),
{
    let n: usize = entries.len();
    let mut folders: usize = 0;
    let mut i: usize = 0;
    while i < n
        invariant
            0 <= i <= n,
            n == entries@.len(),
            folders <= i,
            folders == folder_count(entries@.take(i as int)),
        decreases n - i,
    {
        assert(entries@.take(i + 1).drop_last() =~= entries@.take(i as int));
        if entries[i].is_dir {
            folders = folders + 1;
        }
        i = i + 1;
    }
    assert(entries@.take(n as int) =~= entries@);
    let mut r: String = "Connected. ".to_owned();
    r.append(config.name.as_str());
    r.append(" at ");
    r.append(config.base_path.as_str());
    r.append(" — ");
    r.append(count_of(folders, "folder").as_str());
    r.append(", ");
    r.append(count_of(n - folders, "file").as_str());
    r.append(".");
    r
}

// =====================================================================
// Browsing
// =====================================================================

/// One level of a server, as the folder browser shows it.
#[derive(Debug)]
pub struct BrowseResult {
    pub path: String,
    pub parent: Option<String>,
    pub entries: Vec<RemoteNode>,
}

/// The directory above `path`; there is none to go to from the configured base path.
pub open spec fn parent_of(path: Seq<char>, base_path: Seq<char>) -> Option<Seq<char>> {
    let trimmed = text::trim_end_char(path, '/');
    if trimmed == text::trim_end_char(base_path, '/') {
        None
    } else {
        match text::rfind_char(trimmed, '/') {
            Some(i) => Some(
                if i == 0 {
                    "/"@
                } else {
                    trimmed.take(i)
                },
            ),
            None => Some("/"@),
        }
    }
}

/// The directory that the folder browser lists: the one asked for, or the base path.
pub fn browse_path(config: &ServerConfig, path: Option<String>) -> (r: String)
    ensures
        r@ == match path {
            Some(path) => path@,
            None => config.base_path@,
        },
{
    match path {
        Some(path) => path,
        None => config.base_path.clone(),
    }
}

/// One level of the remote filesystem, for the folder browser: `nodes` is what listing
/// `path` has yielded.
pub fn browse_server(config: &ServerConfig, path: String, nodes: Vec<RemoteNode>) -> (r:
    BrowseResult)
    ensures
        r.path@ == path@,
        stream_cache::opt_view(r.parent) == parent_of(path@, config.base_path@),
        remote::listing::is_listing(
            remote::node_views(nodes@),
            remote::listing::folded_names(remote::node_views(nodes@)),
            remote::node_views(r.entries@),
        ),
{
    let entries = remote::listing::sort_nodes(nodes);
    let trimmed = text::trim_end_matches(path.as_str(), '/');
    let parent: Option<String> = if text::same(
        trimmed,
        text::trim_end_matches(config.base_path.as_str(), '/'),
    ) {
        None
    } else {
        match text::rfind(trimmed, '/') {
            Some(i) => if i == 0 {
                Some("/".to_owned())
            } else {
                Some(text::before(trimmed, i).to_owned())
            },
            None => Some("/".to_owned()),
        }
    };
    BrowseResult { path, parent, entries }
}

/// Going up from a child leads to the directory it is in, unless the child is the
/// configured base path itself.
pub proof fn law_up_from_child(dir: Seq<char>, name: Seq<char>, base_path: Seq<char>)
    requires
        name.len() > 0,
        !name.contains('/'),
        dir.len() > 0,
        text::trim_end_char(base_path, '/') != remote::joined(dir, name),
    ensures
        parent_of(remote::joined(dir, name), base_path) == Some(
            if text::trim_end_char(dir, '/').len() == 0 {
                "/"@
            } else {
                text::trim_end_char(dir, '/')
            },
        ),
{
    reveal_strlit("/");
    let child = remote::joined(dir, name);
    let head = text::trim_end_char(dir, '/');
    if dir == "/"@ {
        reveal_with_fuel(text::trim_end_char, 2);
        assert(dir.drop_last() =~= Seq::empty());
    }
    assert(child =~= head + "/"@ + name);
    let k = head.len() as int;
    assert forall|m: int| k < m < child.len() implies child[m] != '/' by {
        assert(child[m] == name[m - k - 1]);
        assert(name.contains(name[m - k - 1]));
    }
    assert(child[k] == '/');
    text::lemma_rfind_char_is(child, '/', k);
    assert(text::trim_end_char(child, '/') == child);
    assert(child.take(k) =~= head);
}

/// `path` is a directory below `base`, both without trailing slashes.
pub open spec fn is_below(path: Seq<char>, base: Seq<char>) -> bool {
    path.len() > base.len() && path.take(base.len() as int) == base && path[base.len() as int]
        == '/'
}

/// Going up from below the configured base path never leads above it.
pub proof fn law_up_stays_at_or_below_base(path: Seq<char>, base_path: Seq<char>)
    requires
        is_below(text::trim_end_char(path, '/'), text::trim_end_char(base_path, '/')),
    ensures
        parent_of(path, base_path) matches Some(parent) && (parent == text::trim_end_char(
            base_path,
            '/',
        ) || is_below(parent, text::trim_end_char(base_path, '/')) || (text::trim_end_char(
            base_path,
            '/',
        ).len() == 0 && parent == "/"@)),
{
    let trimmed = text::trim_end_char(path, '/');
    let base = text::trim_end_char(base_path, '/');
    text::lemma_rfind_char(trimmed, '/');
    let i = text::rfind_char(trimmed, '/')->0;
    assert(i >= base.len());
    let parent = trimmed.take(i);
    if i == base.len() {
        assert(parent =~= base);
    } else {
        assert(parent.take(base.len() as int) =~= base);
        assert(parent[base.len() as int] == '/');
    }
}

// =====================================================================
// Laws of the form
// =====================================================================

/// Where a form is accepted, every field that was filled in is in the settings, without the
/// white space around it, and every field that was left out has its default: port 22, no
/// bucket, no region, the root as base path, and path-style addressing.
pub proof fn law_form_is_taken_over(
    input: ServerInput,
    id: Seq<char>,
    existing: Option<ServerConfig>,
)
    ensures
        config_of(input, id, existing) matches Ok(c) ==> {
            &&& c.id == id
            &&& remote::kind_text(c.kind) == input.kind@
            &&& c.name == text::trim(input.name@)
            &&& c.host == text::trim(input.host@)
            &&& c.username == text::trim(input.username@)
            &&& input.port matches Some(p) ==> c.port == p
            &&& input.port is None ==> c.port == 22
            &&& input.bucket matches Some(b) ==> c.bucket == text::trim(b@)
            &&& input.bucket is None ==> c.bucket.len() == 0
            &&& input.region matches Some(r) ==> c.region == text::trim(r@)
            &&& input.region is None ==> c.region.len() == 0
            &&& input.base_path matches Some(p) ==> c.base_path == if text::all_white(p@) {
                "/"@
            } else {
                text::trim(p@)
            }
            &&& input.base_path is None ==> c.base_path == "/"@
            &&& input.path_style matches Some(b) ==> c.path_style == b
            &&& input.path_style is None ==> c.path_style
            &&& existing is None ==> c.host_fingerprint is None
        },
{
    if let Ok(c) = config_of(input, id, existing) {
        remote::law_kind_round_trip(c.kind, input.kind@);
    }
    match input.base_path {
        Some(p) => {
            text::lemma_trim_blank(p@);
        },
        None => {},
    }
}

/// A form is accepted exactly where it names a kind of server and its name is not blank, and what
/// is wrong with it is said.
pub proof fn law_form_is_accepted(
    input: ServerInput,
    id: Seq<char>,
    existing: Option<ServerConfig>,
    kind: ServerKind,
)
    ensures
        input.kind@ == remote::kind_text(kind) && !text::all_white(input.name@) ==> config_of(
            input,
            id,
            existing,
        ) is Ok,
        input.kind@ == remote::kind_text(kind) && text::all_white(input.name@) ==> config_of(
            input,
            id,
            existing,
        ) == Err::<ConfigView, Seq<char>>("Give this server a name."@),
        (forall|k: ServerKind| input.kind@ != remote::kind_text(k)) ==> config_of(
            input,
            id,
            existing,
        ) == Err::<ConfigView, Seq<char>>("Unknown server kind: "@ + input.kind@),
{
    remote::law_kind_round_trip(kind, input.kind@);
    text::lemma_trim_blank(input.name@);
    if let Some(k) = remote::kind_named(input.kind@) {
        remote::law_kind_round_trip(k, input.kind@);
        assert(input.kind@ == remote::kind_text(k));
    }
}

/// The form is filled in with these settings.
pub open spec fn shows(input: ServerInput, c: ConfigView) -> bool {
    &&& input.name@ == c.name
    &&& input.kind@ == remote::kind_text(c.kind)
    &&& input.host@ == c.host
    &&& input.port == Some(c.port)
    &&& input.username@ == c.username
    &&& input.base_path matches Some(p) && p@ == c.base_path
    &&& input.bucket matches Some(b) && b@ == c.bucket
    &&& input.region matches Some(r) && r@ == c.region
    &&& input.path_style == Some(c.path_style)
}

/// A form that shows what is saved, sent as it is, leaves the settings as they are: all of them,
/// the pinned host key among them.
pub proof fn law_saving_again_changes_nothing(
    first: ServerInput,
    id: Seq<char>,
    existing: Option<ServerConfig>,
    saved: ServerConfig,
    again: ServerInput,
)
    requires
        config_of(first, id, existing) == Ok::<ConfigView, Seq<char>>(config_view(saved)),
        shows(again, config_view(saved)),
    ensures
        config_of(again, id, Some(saved)) == Ok::<ConfigView, Seq<char>>(config_view(saved)),
{
    let c = config_view(saved);
    let none = Seq::<char>::empty();
    text::law_trimmed_stays(first.name@);
    text::law_trimmed_stays(first.host@);
    text::law_trimmed_stays(first.username@);
    reveal_strlit("/");
    text::law_trim(none, "/"@, none);
    assert(none + "/"@ + none =~= "/"@);
    text::law_trim(none, none, none);
    assert(none + none + none =~= none);
    match first.base_path {
        Some(p) => {
            text::law_trimmed_stays(p@);
        },
        None => {},
    }
    match first.bucket {
        Some(b) => {
            text::law_trimmed_stays(b@);
        },
        None => {},
    }
    match first.region {
        Some(r) => {
            text::law_trimmed_stays(r@);
        },
        None => {},
    }
    remote::law_kind_round_trip(c.kind, again.kind@);
    assert(filled_in(again.base_path) == c.base_path);
    assert(filled_in(again.bucket) == c.bucket);
    assert(filled_in(again.region) == c.region);
}

/// Secrets that were submitted are saved as they are, in place of what was saved.
pub proof fn law_submitted_secrets_are_saved(input: ServerInput, existing: ServerSecrets)
    ensures
        input.password matches Some(p) ==> p@.len() > 0 ==> merged(input, existing).0 == p@,
        input.private_key matches Some(k) ==> k@.len() > 0 ==> merged(input, existing).1 == k@,
        input.passphrase matches Some(p) ==> merged(input, existing).2 == p@,
{
}

/// A form is saved as the settings it stands for, with the secrets that were submitted over those
/// that are stored. Only a new server has to bring a password or a private key along, and then
/// what it lacks depends on its kind. The host key that an edited server had pinned stays where
/// its host and port do; a new server has none.
pub proof fn law_form_is_saved(
    servers: Map<Seq<char>, ServerConfig>,
    input: ServerInput,
    id: Seq<char>,
    stored: ServerSecrets,
)
    ensures
        ({
            let result = save_of(servers, input, id, stored);
            let edited = if input.id is Some && servers.contains_key(id) {
                Some(servers[id])
            } else {
                None
            };
            let lacking = merged(input, stored).0.len() == 0 && merged(input, stored).1.len() == 0;
            match config_of(input, id, edited) {
                Err(e) => result == Err::<
                    (ConfigView, (Seq<char>, Seq<char>, Seq<char>)),
                    Seq<char>,
                >(e),
                Ok(c) => {
                    &&& input.id is Some || !lacking ==> result == Ok::<_, Seq<char>>(
                        (c, merged(input, stored)),
                    )
                    &&& input.id is None && lacking ==> result == Err::<
                        (ConfigView, (Seq<char>, Seq<char>, Seq<char>)),
                        Seq<char>,
                    >(
                        match c.kind {
                            ServerKind::Sftp => "Add a password or a private key for this server."@,
                            ServerKind::Webdav => "Add the WebDAV password for this server."@,
                            ServerKind::S3 => "Add the secret access key for this bucket."@,
                        },
                    )
                },
            }
        }),
{
}

/// The folders of a listing are counted one by one.
pub proof fn law_folder_count(some: Seq<RemoteNode>, more: Seq<RemoteNode>, node: RemoteNode)
    ensures
        folder_count(some + more) == folder_count(some) + folder_count(more),
        folder_count(seq![node]) == if node.is_dir {
            1nat
        } else {
            0
        },
        folder_count(Seq::empty()) == 0,
        folder_count(some) <= some.len(),
    decreases some.len() + more.len(),
{
    assert(seq![node].drop_last() =~= Seq::empty());
    assert(folder_count(Seq::empty()) == 0);
    if more.len() > 0 {
        law_folder_count(some, more.drop_last(), node);
        assert((some + more).drop_last() =~= some + more.drop_last());
        assert((some + more).last() == more.last());
    } else {
        assert(some + more =~= some);
        if some.len() > 0 {
            law_folder_count(some.drop_last(), more, node);
        }
    }
}

/// One thing is named in the singular, any other number of them in the plural; the number stands
/// in front.
pub proof fn law_counted(n: u64, what: Seq<char>)
    ensures
        text::split_once(counted(n as nat, what), seq![' ']) matches Some((number, things))
            && text::parse_decimal(number) == Some(n) && things == if n == 1 {
            what
        } else {
            what + "s"@
        },
{
    let d = text::decimal(n as nat);
    text::lemma_decimal_round_trip(n);
    if d.contains(' ') {
        let i = choose|i: int| 0 <= i < d.len() && d[i] == ' ';
        assert(text::is_digit(d[i]));
    }
    reveal_strlit(" ");
    assert(" "@ =~= seq![' ']);
    let things = if n == 1 {
        what
    } else {
        what + "s"@
    };
    text::law_split_once_char(d, ' ', things);
    assert(counted(n as nat, what) =~= d + seq![' '] + things);
}

/// There is no way up from the configured base path, however many slashes either is written
/// with, and there is one from everywhere else.
pub proof fn law_no_way_up_from_base(
    path: Seq<char>,
    base_path: Seq<char>,
    slashes: Seq<char>,
    more: Seq<char>,
)
    requires
        path.len() > 0 ==> path.last() != '/',
        base_path.len() > 0 ==> base_path.last() != '/',
        forall|i: int| 0 <= i < slashes.len() ==> #[trigger] slashes[i] == '/',
        forall|i: int| 0 <= i < more.len() ==> #[trigger] more[i] == '/',
    ensures
        parent_of(path + slashes, base_path + more) is None <==> path == base_path,
        path != base_path ==> parent_of(path + slashes, base_path + more) == parent_of(
            path,
            base_path,
        ),
        path != base_path && !path.contains('/') ==> parent_of(path, base_path) == Some("/"@),
{
    lemma_trailing_slashes(path, slashes);
    lemma_trailing_slashes(base_path, more);
    let none = Seq::<char>::empty();
    lemma_trailing_slashes(path, none);
    lemma_trailing_slashes(base_path, none);
    assert(path + none =~= path);
    assert(base_path + none =~= base_path);
    if !path.contains('/') {
        assert forall|j: int| 0 <= j < path.len() implies path[j] != '/' by {
            assert(path.contains(path[j]));
        }
        text::lemma_rfind_char_none(path, '/');
    }
}

proof fn lemma_trailing_slashes(path: Seq<char>, slashes: Seq<char>)
    requires
        path.len() > 0 ==> path.last() != '/',
        forall|i: int| 0 <= i < slashes.len() ==> #[trigger] slashes[i] == '/',
    ensures
        text::trim_end_char(path + slashes, '/') == path,
{
    text::law_trim_char(path, slashes, '/');
    if path.len() == 0 {
        assert(path + slashes =~= slashes);
        assert(text::trim_end_char(slashes, '/') =~= path);
    }
}

/// The report of a test says which server it was, where it looked, and how many folders and files
/// there are.
pub proof fn law_test_report(name: Seq<char>, base_path: Seq<char>, folders: nat, files: nat)
    ensures
        test_report(name, base_path, folders, files) == "Connected. "@ + name + " at "@ + base_path
            + " — "@ + text::decimal(folders) + (if folders == 1 {
            " folder, "@
        } else {
            " folders, "@
        }) + text::decimal(files) + (if files == 1 {
            " file."@
        } else {
            " files."@
        }),
{
    reveal_strlit(" folder, ");
    reveal_strlit(" folders, ");
    reveal_strlit(" file.");
    reveal_strlit(" files.");
    reveal_strlit("folder");
    reveal_strlit("file");
    reveal_strlit(" ");
    reveal_strlit("s");
    reveal_strlit(", ");
    reveal_strlit(".");
    let head = "Connected. "@ + name + " at "@ + base_path + " — "@;
    let none = Seq::<char>::empty();
    assert(" folder, "@ =~= " "@ + "folder"@ + none + ", "@);
    assert(" folders, "@ =~= " "@ + "folder"@ + "s"@ + ", "@);
    assert(" file."@ =~= " "@ + "file"@ + none + "."@);
    assert(" files."@ =~= " "@ + "file"@ + "s"@ + "."@);
    let one = if folders == 1 {
        none
    } else {
        "s"@
    };
    let two = if files == 1 {
        none
    } else {
        "s"@
    };
    assert(test_report(name, base_path, folders, files) =~= head + text::decimal(folders) + (" "@
        + "folder"@ + one + ", "@) + text::decimal(files) + (" "@ + "file"@ + two + "."@));
}

/// Settings and secrets say what their fields hold.
pub proof fn law_settings_say_what_they_hold(c: ServerConfig, s: ServerSecrets)
    ensures
        config_view(c).id == c.id@,
        config_view(c).name == c.name@,
        config_view(c).kind == c.kind,
        config_view(c).host == c.host@,
        config_view(c).port == c.port,
        config_view(c).username == c.username@,
        config_view(c).base_path == c.base_path@,
        config_view(c).bucket == c.bucket@,
        config_view(c).region == c.region@,
        config_view(c).path_style == c.path_style,
        c.host_fingerprint is None <==> config_view(c).host_fingerprint is None,
        c.host_fingerprint matches Some(f) ==> config_view(c).host_fingerprint == Some(f@),
        secrets_view(s) == (s.password@, s.private_key@, s.passphrase@),
{
}

/// The directory above a path is what stands before its last slash, or the root where nothing does.
pub proof fn law_parent(dir: Seq<char>, name: Seq<char>, base_path: Seq<char>)
    requires
        name.len() > 0,
        !name.contains('/'),
        text::trim_end_char(base_path, '/') != dir + "/"@ + name,
    ensures
        parent_of(dir + "/"@ + name, base_path) == Some(
            if dir.len() == 0 {
                "/"@
            } else {
                dir
            },
        ),
{
    reveal_strlit("/");
    let path = dir + "/"@ + name;
    let k = dir.len() as int;
    assert(path[k] == '/');
    assert forall|m: int| k < m < path.len() implies path[m] != '/' by {
        assert(path[m] == name[m - k - 1]);
        assert(name.contains(name[m - k - 1]));
    }
    text::lemma_rfind_char_is(path, '/', k);
    assert(path.take(k) =~= dir);
    assert(text::trim_end_char(path, '/') == path);
}

} // verus!
