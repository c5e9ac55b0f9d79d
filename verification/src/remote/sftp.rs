//! SFTP backend — the "any box you can ssh into" source.
//!
//! No server-side setup: if `sftp` works from a terminal, it works here. Ranged reads
//! are native (seek + read on an open remote handle), so seeking a video costs one
//! round-trip rather than a fresh request per byte range. This module says how to log
//! in, which host keys to trust, and what the replies come to.
use vstd::prelude::*;
use vstd::string::*;

use super::key_text;
use super::{join_path, NodeView, RemoteNode, ServerConfig, ServerSecrets};
use crate::stream_cache;
use crate::text;

verus! {

/// How many seconds a server has to answer before a connection is given up.
pub const CONNECT_TIMEOUT_SECS: u64 = 20;

// =====================================================================
// Host keys
// =====================================================================

/// `russh::keys::PublicKeyOrCertificate`.
#[verifier::external_type_specification]
#[verifier::external_body]
pub struct ExPublicKeyOrCertificate(russh::keys::PublicKeyOrCertificate);

/// The SHA-256 fingerprint of a host key, or of the key that a host certificate is for.
pub uninterp spec fn fingerprint_of(key: russh::keys::PublicKeyOrCertificate) -> Seq<char>;

/// `russh::keys::PublicKey::fingerprint` with `HashAlg::Sha256`, written out; for a
/// certificate, that of `Certificate::public_key`. It depends on the key alone; what it
/// looks like is left unsaid.
#[verifier::external_body]
fn fingerprint(key: &russh::keys::PublicKeyOrCertificate) -> (r: String)
    ensures
        r@ == fingerprint_of(*key),
{
    match key {
        russh::keys::PublicKeyOrCertificate::PublicKey { key, .. } => {
            key.fingerprint(russh::keys::HashAlg::Sha256).to_string()
        },
        russh::keys::PublicKeyOrCertificate::Certificate(cert) => {
            cert.public_key().fingerprint(russh::keys::HashAlg::Sha256).to_string()
        },
    }
}

/// Trust on first use: anything is accepted as long as no key is pinned, then only the
/// same key.
pub open spec fn trusted(pinned: Option<Seq<char>>, fingerprint: Seq<char>) -> bool {
    pinned matches Some(p) ==> p == fingerprint
}

/// Whether a host key with this fingerprint is accepted. A changed key fails the
/// connection rather than warning.
pub fn trusts(pinned: &Option<String>, fingerprint: &str) -> (r: bool)
    ensures
        r == trusted(stream_cache::opt_view(*pinned), fingerprint@),
{
    match pinned {
        None => true,
        Some(p) => text::same(p.as_str(), fingerprint),
    }
}

/// Verifies the server's host key against a pinned fingerprint. Yields the fingerprint
/// too, so a first connection can pin it.
pub fn check_server_key(
    pinned: &Option<String>,
    key: &russh::keys::PublicKeyOrCertificate,
) -> (r: (bool, String))
    ensures
        r.1@ == fingerprint_of(*key),
        r.0 == trusted(stream_cache::opt_view(*pinned), r.1@),
{
    let seen = fingerprint(key);
    (trusts(pinned, seen.as_str()), seen)
}

/// A host key that was pinned is trusted from then on, and no other is.
pub proof fn law_trust_on_first_use(first: Seq<char>, later: Seq<char>)
    ensures
        trusted(None, first),
        trusted(Some(first), later) <==> later == first,
{
}

/// The report of a connection that failed: a rejected host key surfaces as a generic
/// negotiation failure, so it is put into the one message that tells what happened.
pub open spec fn connect_error(
    host: Seq<char>,
    pinned: Option<Seq<char>>,
    seen: Option<Seq<char>>,
    err: Seq<char>,
) -> Seq<char> {
    match (pinned, seen) {
        (Some(pinned), Some(actual)) => if pinned != actual {
            "The host key for "@ + host + " changed.\n\nPinned: "@ + pinned + "\nNow:    "@ + actual
                + "\n\nIf you rebuilt the server this is expected — remove and re-add it in Settings. Otherwise stop and investigate."@
        } else {
            "Couldn't connect to "@ + host + ": "@ + err
        },
        _ => "Couldn't connect to "@ + host + ": "@ + err,
    }
}

/// A rejected host key surfaces as a generic negotiation failure, so say what actually
/// happened. `seen` is the fingerprint that the server presented, if it came to that.
pub fn host_key_error(seen: &Option<String>, config: &ServerConfig, err: &str) -> (r: String)
    ensures
        r@ == connect_error(config.host@, stream_cache::opt_view(config.host_fingerprint), stream_cache::opt_view(*seen), err@),
{
    match (&config.host_fingerprint, seen) {
        (Some(pinned), Some(actual)) => {
            if !text::same(pinned.as_str(), actual.as_str()) {
                let mut r: String = "The host key for ".to_owned();
                r.append(config.host.as_str());
                r.append(" changed.\n\nPinned: ");
                r.append(pinned.as_str());
                r.append("\nNow:    ");
                r.append(actual.as_str());
                r.append(
                    "\n\nIf you rebuilt the server this is expected — remove and re-add it in Settings. Otherwise stop and investigate.",
                );
                return r;
            }
        },
        _ => {},
    }
    let mut r: String = "Couldn't connect to ".to_owned();
    r.append(config.host.as_str());
    r.append(": ");
    r.append(err);
    r
}

// =====================================================================
// Connecting
// =====================================================================

/// The port to connect to.
pub open spec fn port_of(port: u16) -> u16 {
    if port == 0 {
        22
    } else {
        port
    }
}

/// The port to connect to, if the settings are complete enough to connect.
pub fn connect_port(config: &ServerConfig, secrets: &ServerSecrets) -> (r: Result<u16, String>)
    ensures
        match r {
            Ok(port) => text::trim(config.host@).len() > 0 && !secrets.lacking() && port == port_of(
                config.port,
            ),
            Err(e) => if text::trim(config.host@).len() == 0 {
                e@ == "This server has no hostname set."@
            } else {
                secrets.lacking() && e@ == "This server has no password or private key saved."@
            },
        },
{
    if text::trimmed(config.host.as_str()).is_empty() {
        return Err("This server has no hostname set.".to_owned());
    }
    if secrets.is_empty() {
        return Err("This server has no password or private key saved.".to_owned());
    }
    Ok(
        if config.port == 0 {
            22
        } else {
            config.port
        },
    )
}

/// The report of a connection that took too long.
pub fn timeout_error(host: &str, port: u16) -> (r: String)
    ensures
        r@ == "Timed out connecting to "@ + host@ + ":"@ + text::decimal(port as nat) + "."@,
{
    let mut r: String = "Timed out connecting to ".to_owned();
    r.append(host);
    r.append(":");
    r.append(text::decimal_of(port as u64).as_str());
    r.append(".");
    r
}

/// The fingerprint to pin once the connection stands.
pub fn presented_key(seen: Option<String>) -> (r: Result<String, String>)
    ensures
        match r {
            Ok(fingerprint) => seen == Some(fingerprint),
            Err(e) => seen is None && e@ == "The server didn't present a host key."@,
        },
{
    match seen {
        Some(fingerprint) => Ok(fingerprint),
        None => Err("The server didn't present a host key.".to_owned()),
    }
}

// =====================================================================
// Logging in
// =====================================================================

/// `russh::keys::PrivateKey`.
#[verifier::external_type_specification]
#[verifier::external_body]
pub struct ExPrivateKey(russh::keys::PrivateKey);

/// The private key that a text holds, deciphered with a passphrase, or why there is none.
pub uninterp spec fn private_key(secret: Seq<char>, passphrase: Option<Seq<char>>) -> Result<
    russh::keys::PrivateKey,
    Seq<char>,
>;

/// `russh::keys::decode_secret_key`: a function of the text and the passphrase. Which
/// texts hold keys is left unsaid. It panics on an RSA key whose primes take different
/// numbers of machine words, unless the key is in a form that brings its coefficient along,
/// and on an enciphered key that scrypt cannot be run for.
#[verifier::external_body]
fn decode_secret_key(secret: &str, passphrase: Option<&str>) -> (r: Result<
    russh::keys::PrivateKey,
    String,
>)
    requires
        key_text::readable_key(
            secret@,
            match passphrase {
                Some(p) => Some(p@),
                None => None,
            },
        ),
    ensures
        private_key(
            secret@,
            match passphrase {
                Some(p) => Some(p@),
                None => None,
            },
        ) == match r {
            Ok(key) => Ok(key),
            Err(e) => Err(e@),
        },
{
    russh::keys::decode_secret_key(secret, passphrase).map_err(|e| e.to_string())
}

/// How to log in.
pub enum Login {
    /// With a private key.
    Key { user: String, key: russh::keys::PrivateKey },
    /// With a password.
    Password { user: String, password: String },
}

/// What a [`Login`] says.
pub enum LoginView {
    Key { user: Seq<char>, key: russh::keys::PrivateKey },
    Password { user: Seq<char>, password: Seq<char> },
}

impl View for Login {
    type V = LoginView;

    open spec fn view(&self) -> LoginView {
        match *self {
            Login::Key { user, key } => LoginView::Key { user: user@, key },
            Login::Password { user, password } => LoginView::Password {
                user: user@,
                password: password@,
            },
        }
    }
}

/// The passphrase a private key is deciphered with.
pub open spec fn passphrase_of(secrets: ServerSecrets) -> Option<Seq<char>> {
    if secrets.passphrase@.len() == 0 {
        None
    } else {
        Some(secrets.passphrase@)
    }
}

/// How to log in, given what a private key that was saved is read as: with that key, if
/// there is one, and with the password otherwise.
pub open spec fn login_of(
    user: Seq<char>,
    secrets: ServerSecrets,
    key: Result<russh::keys::PrivateKey, Seq<char>>,
) -> Result<LoginView, Seq<char>> {
    if text::trim(user).len() == 0 {
        Err("This server has no username set."@)
    } else if text::trim(secrets.private_key@).len() == 0 {
        Ok(LoginView::Password { user: text::trim(user), password: secrets.password@ })
    } else {
        match key {
            Ok(key) => Ok(LoginView::Key { user: text::trim(user), key }),
            Err(e) => Err(
                if secrets.passphrase@.len() == 0 {
                    "Couldn't read that private key ("@ + e
                        + "). If it's passphrase-protected, add the passphrase."@
                } else {
                    "Couldn't read that private key: "@ + e
                },
            ),
        }
    }
}

/// The report of a private key that cannot be read.
fn key_error(e: &str, secrets: &ServerSecrets) -> (r: String)
    ensures
        r@ == if secrets.passphrase@.len() == 0 {
            "Couldn't read that private key ("@ + e@
                + "). If it's passphrase-protected, add the passphrase."@
        } else {
            "Couldn't read that private key: "@ + e@
        },
{
    if secrets.passphrase.as_str().is_empty() {
        let mut r: String = "Couldn't read that private key (".to_owned();
        r.append(e);
        r.append("). If it's passphrase-protected, add the passphrase.");
        r
    } else {
        let mut r: String = "Couldn't read that private key: ".to_owned();
        r.append(e);
        r
    }
}

/// How to log in, given what the private key that was saved is read as.
pub fn login_with(
    config: &ServerConfig,
    secrets: &ServerSecrets,
    key: Result<russh::keys::PrivateKey, String>,
) -> (r: Result<Login, String>)
    ensures
        login_of(
            config.username@,
            *secrets,
            match key {
                Ok(key) => Ok(key),
                Err(e) => Err(e@),
            },
        ) == match r {
            Ok(login) => Ok(login@),
            Err(e) => Err(e@),
        },
{
    let user = text::trimmed(config.username.as_str());
    if user.is_empty() {
        return Err("This server has no username set.".to_owned());
    }
    if text::trimmed(secrets.private_key.as_str()).is_empty() {
        return Ok(Login::Password { user: user.to_owned(), password: secrets.password.clone() });
    }
    match key {
        Ok(key) => Ok(Login::Key { user: user.to_owned(), key }),
        Err(e) => Err(key_error(e.as_str(), secrets)),
    }
}

/// A login with what was saved for a server decodes no private key, or one that can be
/// decoded.
pub open spec fn has_readable_key(config: ServerConfig, secrets: ServerSecrets) -> bool {
    text::trim(config.username@).len() == 0 || text::trim(secrets.private_key@).len() == 0
        || key_text::readable_key(secrets.private_key@, passphrase_of(secrets))
}

/// How to log in with what was saved for a server.
pub fn authenticate(config: &ServerConfig, secrets: &ServerSecrets) -> (r: Result<Login, String>)
    requires
        has_readable_key(*config, *secrets),
    ensures
        login_of(
            config.username@,
            *secrets,
            private_key(secrets.private_key@, passphrase_of(*secrets)),
        ) == match r {
            Ok(login) => Ok(login@),
            Err(e) => Err(e@),
        },
{
    if text::trimmed(config.username.as_str()).is_empty() || text::trimmed(
        secrets.private_key.as_str(),
    ).is_empty() {
        return login_with(config, secrets, Err(String::new()));
    }
    let passphrase: Option<&str> = if secrets.passphrase.as_str().is_empty() {
        None
    } else {
        Some(secrets.passphrase.as_str())
    };
    login_with(config, secrets, decode_secret_key(secrets.private_key.as_str(), passphrase))
}

/// How to log in with what was saved for a server. `None` where that is a private key that
/// cannot be decoded, for the widths of its primes or the cost of deciphering it.
pub fn try_authenticate(config: &ServerConfig, secrets: &ServerSecrets) -> (r: Option<
    Result<Login, String>,
>)
    ensures
        match r {
            Some(r) => has_readable_key(*config, *secrets) && login_of(
                config.username@,
                *secrets,
                private_key(secrets.private_key@, passphrase_of(*secrets)),
            ) == match r {
                Ok(login) => Ok(login@),
                Err(e) => Err(e@),
            },
            None => !has_readable_key(*config, *secrets),
        },
{
    let passphrase: Option<&str> = if secrets.passphrase.as_str().is_empty() {
        None
    } else {
        Some(secrets.passphrase.as_str())
    };
    if text::trimmed(config.username.as_str()).is_empty() || text::trimmed(
        secrets.private_key.as_str(),
    ).is_empty() || key_text::is_readable_key(secrets.private_key.as_str(), passphrase) {
        Some(authenticate(config, secrets))
    } else {
        None
    }
}

/// What the server's answer to a login comes to.
pub fn login_reply(user: &str, with_key: bool, accepted: bool) -> (r: Result<(), String>)
    ensures
        match r {
            Ok(_) => accepted,
            Err(e) => !accepted && e@ == if with_key {
                "The server rejected that key for user \""@ + user@
                    + "\". Check the key is in ~/.ssh/authorized_keys on the server."@
            } else {
                "The server rejected the password for user \""@ + user@
                    + "\". Many servers also disable password login entirely — try a private key."@
            },
        },
{
    if accepted {
        return Ok(());
    }
    if with_key {
        let mut e: String = "The server rejected that key for user \"".to_owned();
        e.append(user);
        e.append("\". Check the key is in ~/.ssh/authorized_keys on the server.");
        Err(e)
    } else {
        let mut e: String = "The server rejected the password for user \"".to_owned();
        e.append(user);
        e.append("\". Many servers also disable password login entirely — try a private key.");
        Err(e)
    }
}

// =====================================================================
// Listing
// =====================================================================

/// One entry of a directory, as the server reports it.
#[derive(Debug)]
pub struct SftpEntry {
    pub name: String,
    pub is_dir: bool,
    pub is_symlink: bool,
    pub size: Option<u64>,
}

/// What an [`SftpEntry`] says.
#[verifier::ext_equal]
pub struct SftpEntryView {
    pub name: Seq<char>,
    pub is_dir: bool,
    pub is_symlink: bool,
    pub size: Option<u64>,
}

impl View for SftpEntry {
    type V = SftpEntryView;

    open spec fn view(&self) -> SftpEntryView {
        SftpEntryView {
            name: self.name@,
            is_dir: self.is_dir,
            is_symlink: self.is_symlink,
            size: self.size,
        }
    }
}

/// The directory that a path stands for.
pub open spec fn dir_of(path: Seq<char>) -> Seq<char> {
    if path.len() == 0 {
        "/"@
    } else {
        path
    }
}

/// A size that may not be reported.
pub open spec fn size_or_zero(size: Option<u64>) -> u64 {
    match size {
        Some(n) => n,
        None => 0,
    }
}

/// The node of an entry. Symlinks report their own type, not the target's; one with no
/// size is treated as a directory so linked course folders stay browsable.
pub open spec fn node_of(dir: Seq<char>, entry: SftpEntryView) -> NodeView {
    NodeView {
        name: entry.name,
        path: super::joined(dir, entry.name),
        is_dir: entry.is_dir || (entry.is_symlink && size_or_zero(entry.size) == 0),
        size: size_or_zero(entry.size),
    }
}

/// The entry is hidden.
pub open spec fn hidden(entry: SftpEntryView) -> bool {
    entry.name.len() > 0 && entry.name[0] == '.'
}

/// The nodes of a directory: one for each entry that is not hidden.
pub open spec fn nodes_in(dir: Seq<char>, entries: Seq<SftpEntryView>) -> Seq<NodeView>
    decreases entries.len(),
{
    if entries.len() == 0 {
        Seq::empty()
    } else {
        let before = nodes_in(dir, entries.drop_last());
        if hidden(entries.last()) {
            before
        } else {
            before.push(node_of(dir, entries.last()))
        }
    }
}

/// The directory to ask the server for.
pub fn list_target(path: &str) -> (r: &str)
    ensures
        r@ == dir_of(path@),
{
    if path.is_empty() {
        "/"
    } else {
        path
    }
}

/// What a list of entries says.
pub open spec fn entry_views(entries: Seq<SftpEntry>) -> Seq<SftpEntryView> {
    Seq::new(entries.len(), |i: int| entries[i]@)
}

/// The directory at `path`, from the entries that the server reports for it.
pub fn list_dir(path: &str, entries: &Vec<SftpEntry>) -> (nodes: Vec<RemoteNode>)
    ensures
        super::node_views(nodes@) == nodes_in(dir_of(path@), entry_views(entries@)),
{
    let dir = list_target(path);
    let ghost all = entry_views(entries@);
    let mut nodes: Vec<RemoteNode> = Vec::new();
    let n: usize = entries.len();
    let mut i: usize = 0;
    assert(super::node_views(nodes@) =~= nodes_in(dir@, all.take(0)));
    while i < n
        invariant
            0 <= i <= n,
            n == entries@.len(),
            all == entry_views(entries@),
            super::node_views(nodes@) == nodes_in(dir@, all.take(i as int)),
        decreases n - i,
    {
        let entry = &entries[i];
        let ghost before = super::node_views(nodes@);
        proof {
            assert(all.take(i + 1).drop_last() =~= all.take(i as int));
            assert(all.take(i + 1).last() == entry@);
        }
        if !text::begins_with_char(entry.name.as_str(), '.') {
            let size: u64 = match entry.size {
                Some(n) => n,
                None => 0,
            };
            let node = RemoteNode {
                path: join_path(dir, entry.name.as_str()),
                name: entry.name.clone(),
                is_dir: entry.is_dir || (entry.is_symlink && size == 0),
                size,
            };
            nodes.push(node);
            assert(super::node_views(nodes@) =~= before.push(node@));
        }
        i = i + 1;
    }
    assert(all.take(n as int) =~= all);
    nodes
}

/// The size of a file, from what the server reports.
pub fn size_of(path: &str, size: Option<u64>) -> (r: Result<u64, String>)
    ensures
        match r {
            Ok(n) => size == Some(n),
            Err(e) => size is None && e@ == "The server didn't report a size for "@ + path@ + "."@,
        },
{
    match size {
        Some(n) => Ok(n),
        None => {
            let mut e: String = "The server didn't report a size for ".to_owned();
            e.append(path);
            e.append(".");
            Err(e)
        },
    }
}

// =====================================================================
// Reading
// =====================================================================

/// A read of a byte range that is under way. SFTP caps each reply at the negotiated
/// packet size, so the window is filled with repeated reads.
#[derive(Debug)]
pub struct RangeRead {
    want: usize,
    buf: Vec<u8>,
}

impl RangeRead {
    /// There is room for more, or none at all.
    pub closed spec fn wf(self) -> bool {
        self.buf@.len() <= self.want
    }

    /// What has been read.
    pub closed spec fn bytes(self) -> Seq<u8> {
        self.buf@
    }

    /// How much there is to read in all.
    pub closed spec fn window(self) -> nat {
        self.want as nat
    }

    /// Starts to read the bytes `[start, end]`; there is nothing to do where that range is
    /// empty.
    pub fn new(start: u64, end: u64) -> (r: Option<RangeRead>)
        requires
            end - start < usize::MAX,
        ensures
            match r {
                Some(read) => start <= end && read.wf() && read.bytes() == Seq::<u8>::empty()
                    && read.window() == end - start + 1,
                None => end < start,
            },
    {
        if end < start {
            return None;
        }
        Some(RangeRead { want: (end - start) as usize + 1, buf: Vec::new() })
    }

    /// How many bytes may come next.
    pub fn remaining(&self) -> (r: usize)
        requires
            self.wf(),
        ensures
            r == self.window() - self.bytes().len(),
    {
        self.want - self.buf.len()
    }

    /// Takes what one more read has yielded. Yields whether the read is over: the window
    /// is full, or the file has ended — a short final block is expected.
    pub fn received(&mut self, chunk: &Vec<u8>) -> (over: bool)
        requires
            old(self).wf(),
            chunk@.len() <= old(self).window() - old(self).bytes().len(),
        ensures
            final(self).wf(),
            final(self).window() == old(self).window(),
            final(self).bytes() == old(self).bytes() + chunk@,
            over == (chunk@.len() == 0 || final(self).bytes().len() == final(self).window()),
    {
        let n: usize = chunk.len();
        let mut i: usize = 0;
        assert(self.buf@ =~= old(self).buf@ + chunk@.take(0));
        while i < n
            invariant
                0 <= i <= n,
                n == chunk@.len(),
                self.want == old(self).want,
                self.buf@ == old(self).buf@ + chunk@.take(i as int),
            decreases n - i,
        {
            self.buf.push(chunk[i]);
            i = i + 1;
            assert(self.buf@ =~= old(self).buf@ + chunk@.take(i as int));
        }
        assert(chunk@.take(n as int) =~= chunk@);
        n == 0 || self.buf.len() == self.want
    }

    /// What was read in all.
    pub fn finish(self) -> (r: Vec<u8>)
        ensures
            r@ == self.bytes(),
    {
        self.buf
    }
}

/// What a read has got so far of the range of a file that begins at `start`.
pub open spec fn read_so_far(file: Seq<u8>, start: int, bytes: Seq<u8>) -> bool {
    0 <= start && start + bytes.len() <= file.len() && bytes == file.subrange(
        start,
        start + bytes.len(),
    )
}

/// Reads that go on where the one before ended, and yield nothing only at the end of the
/// file, yield the range: the whole window, or as much of it as the file has.
pub proof fn law_range_read(file: Seq<u8>, start: int, window: nat, bytes: Seq<u8>, chunk: Seq<u8>)
    requires
        read_so_far(file, start, bytes),
        bytes.len() + chunk.len() <= window,
        start + bytes.len() + chunk.len() <= file.len(),
        chunk == file.subrange(start + bytes.len(), start + bytes.len() + chunk.len()),
        chunk.len() == 0 && bytes.len() < window ==> start + bytes.len() == file.len(),
    ensures
        read_so_far(file, start, bytes + chunk),
        chunk.len() == 0 || (bytes + chunk).len() == window ==> bytes + chunk == file.subrange(
            start,
            if start + window < file.len() {
                start + window
            } else {
                file.len() as int
            },
        ),
{
    assert(bytes + chunk =~= file.subrange(start, start + bytes.len() + chunk.len()));
}

/// The entries of a directory are read one by one: what comes of the first ones is followed by
/// what comes of the others.
pub proof fn law_entries_are_read_in_order(
    dir: Seq<char>,
    some: Seq<SftpEntryView>,
    more: Seq<SftpEntryView>,
)
    ensures
        nodes_in(dir, some + more) == nodes_in(dir, some) + nodes_in(dir, more),
        nodes_in(dir, Seq::empty()).len() == 0,
    decreases more.len(),
{
    if more.len() == 0 {
        assert(some + more =~= some);
        assert(nodes_in(dir, some) + nodes_in(dir, more) =~= nodes_in(dir, some));
    } else {
        law_entries_are_read_in_order(dir, some, more.drop_last());
        assert((some + more).drop_last() =~= some + more.drop_last());
        assert((some + more).last() == more.last());
        assert(nodes_in(dir, some + more) =~= nodes_in(dir, some) + nodes_in(dir, more));
    }
}

/// An entry that is not hidden becomes one node with its name, the path that the name has in the
/// directory, and its size, which is zero where none is reported. Directories are directories,
/// links without a size are taken for such, and nothing else is.
pub proof fn law_entry_becomes_node(path: Seq<char>, entry: SftpEntryView)
    ensures
        ({
            let nodes = nodes_in(dir_of(path), seq![entry]);
            if entry.name.len() > 0 && entry.name[0] == '.' {
                nodes.len() == 0
            } else {
                &&& nodes.len() == 1
                &&& nodes[0].name == entry.name
                &&& nodes[0].path == text::trim_end_char(path, '/') + "/"@ + entry.name
                &&& entry.size matches Some(n) ==> nodes[0].size == n
                &&& entry.size is None ==> nodes[0].size == 0
                &&& entry.is_dir ==> nodes[0].is_dir
                &&& !entry.is_dir && !entry.is_symlink ==> !nodes[0].is_dir
                &&& entry.is_symlink && nodes[0].size == 0 ==> nodes[0].is_dir
                &&& !entry.is_dir && nodes[0].size > 0 ==> !nodes[0].is_dir
            }
        }),
{
    assert(seq![entry].drop_last() =~= Seq::empty());
    assert(nodes_in(dir_of(path), Seq::empty()).len() == 0);
    super::law_joined(dir_of(path), entry.name);
    reveal_strlit("/");
    if path.len() == 0 {
        text::law_trim_char(path, "/"@, '/');
        assert(text::trim_end_char("/"@, '/') =~= text::trim_end_char(path, '/'));
    }
}

/// A login needs a user name. A private key that was saved is what it is made with, and only
/// without one is it made with the password; a key that cannot be read is reported, and never
/// passed over for the password.
pub proof fn law_login(
    user: Seq<char>,
    secrets: ServerSecrets,
    key: Result<russh::keys::PrivateKey, Seq<char>>,
)
    ensures
        ({
            let login = login_of(user, secrets, key);
            if text::all_white(user) {
                login matches Err(e) && e == "This server has no username set."@
            } else if text::all_white(secrets.private_key@) {
                login matches Ok(LoginView::Password { user: u, password }) && u == text::trim(user)
                    && password == secrets.password@
            } else {
                match key {
                    Ok(k) => login matches Ok(LoginView::Key { user: u, key: used }) && u
                        == text::trim(user) && used == k,
                    Err(e) => login matches Err(report) && if secrets.passphrase@.len() > 0 {
                        report == "Couldn't read that private key: "@ + e
                    } else {
                        report == "Couldn't read that private key ("@ + e
                            + "). If it's passphrase-protected, add the passphrase."@
                    },
                }
            }
        }),
        passphrase_of(secrets) matches Some(p) ==> p == secrets.passphrase@ && p.len() > 0,
        passphrase_of(secrets) is None ==> secrets.passphrase@.len() == 0,
{
    text::lemma_trim_blank(user);
    text::lemma_trim_blank(secrets.private_key@);
}

/// The port that was configured is the one to connect to, and port zero stands for that of SSH.
pub proof fn law_port(port: u16)
    ensures
        port_of(port) != 0,
        port != 0 ==> port_of(port) == port,
        port_of(0) == 22,
{
}

/// A connection that failed is reported as a changed host key exactly where the key that the
/// server presented is one that is not trusted, and that report names both keys; any other
/// failure is reported as it is.
pub proof fn law_changed_key_is_reported(
    host: Seq<char>,
    pinned: Option<Seq<char>>,
    seen: Option<Seq<char>>,
    err: Seq<char>,
)
    ensures
        ({
            let report = connect_error(host, pinned, seen, err);
            let changed = seen matches Some(key) && !trusted(pinned, key);
            &&& changed <==> text::starts_with(report, "The host key for "@)
            &&& changed ==> exists|i: int, j: int|
                i < j && text::occurs_at(report, pinned->0, i) && text::occurs_at(
                    report,
                    seen->0,
                    j,
                )
            &&& changed ==> report == "The host key for "@ + host + " changed.\n\nPinned: "@
                + pinned->0 + "\nNow:    "@ + seen->0
                + "\n\nIf you rebuilt the server this is expected — remove and re-add it in Settings. Otherwise stop and investigate."@
            &&& !changed ==> report == "Couldn't connect to "@ + host + ": "@ + err
        }),
{
    reveal_strlit("The host key for ");
    reveal_strlit("Couldn't connect to ");
    let report = connect_error(host, pinned, seen, err);
    if seen is Some && !trusted(pinned, seen->0) {
        let p = pinned->0;
        let s = seen->0;
        let head = "The host key for "@ + host + " changed.\n\nPinned: "@;
        let tail =
            "\n\nIf you rebuilt the server this is expected — remove and re-add it in Settings. Otherwise stop and investigate."@;
        let i = head.len() as int;
        let between = "\nNow:    "@;
        reveal_strlit("\nNow:    ");
        let j = i + p.len() + between.len();
        assert(report =~= head + p + between + s + tail);
        assert(report.subrange(i, i + p.len()) =~= p);
        assert(report.subrange(j, j + s.len()) =~= s);
        assert(text::occurs_at(report, p, i) && text::occurs_at(report, s, j));
        assert(report.take("The host key for "@.len() as int) =~= "The host key for "@);
    } else {
        assert(report[0] == 'C');
        if text::starts_with(report, "The host key for "@) {
            assert(report.take("The host key for "@.len() as int)[0] == report[0]);
            assert("The host key for "@[0] == 'T');
        }
    }
}

/// An entry says what its fields hold, and a list of them says so one by one; so does a login.
pub proof fn law_entries_say_what_they_hold(
    entries: Seq<SftpEntry>,
    i: int,
    user: String,
    password: String,
    key: russh::keys::PrivateKey,
)
    requires
        0 <= i < entries.len(),
    ensures
        entry_views(entries).len() == entries.len(),
        entry_views(entries)[i].name == entries[i].name@,
        entry_views(entries)[i].is_dir == entries[i].is_dir,
        entry_views(entries)[i].is_symlink == entries[i].is_symlink,
        entry_views(entries)[i].size == entries[i].size,
        (Login::Password { user, password })@ == (LoginView::Password {
            user: user@,
            password: password@,
        }),
        (Login::Key { user, key })@ == (LoginView::Key { user: user@, key }),
{
}

/// The directory that the server is asked for is the path itself, and never an empty one.
pub proof fn law_dir_of(path: Seq<char>)
    ensures
        path.len() > 0 ==> dir_of(path) == path,
        path.len() == 0 ==> dir_of(path) == "/"@,
{
}

/// A login that decodes no private key can always be tried, and one that does wherever the key can
/// be decoded.
pub proof fn law_has_readable_key(config: ServerConfig, secrets: ServerSecrets)
    ensures
        text::all_white(config.username@) || text::all_white(secrets.private_key@)
            ==> has_readable_key(config, secrets),
        !text::all_white(config.username@) && !text::all_white(secrets.private_key@) ==> (
        has_readable_key(config, secrets) <==> key_text::readable_key(
            secrets.private_key@,
            passphrase_of(secrets),
        )),
{
    text::lemma_trim_blank(config.username@);
    text::lemma_trim_blank(secrets.private_key@);
}

} // verus!
