use ckourse::id_map::IdMap;
use ckourse::remote::keychain::{delete_secrets, load_secrets, store_secrets, unavailable, KeychainError};
use ckourse::remote::listing::{listing_order, sort_nodes};
use ckourse::remote::session::{
    backend, evict_backend, keep_backend, opened, Attempt, BackendStep, Next,
};
use ckourse::remote::walk::{SourceEntry, TreeWalk, MAX_ENTRIES};
use ckourse::remote::{
    cache_server, connected, get_config, guess_mime, init, join_path, key_to_pin, make_uri,
    mime_for_extension, needs_pin, persist_fingerprint, read_target, split_uri, uncache_server, RemoteNode, ServerConfig,
    ServerKind, ServerRegistry, ServerSecrets, URI_PREFIX,
};

fn config(id: &str, name: &str) -> ServerConfig {
    ServerConfig {
        id: id.to_string(),
        name: name.to_string(),
        kind: ServerKind::Sftp,
        host: "host".to_string(),
        port: 22,
        username: "me".to_string(),
        base_path: "/".to_string(),
        bucket: String::new(),
        region: String::new(),
        path_style: true,
        host_fingerprint: None,
    }
}

fn node(path: &str, is_dir: bool) -> RemoteNode {
    RemoteNode {
        name: path.rsplit('/').next().unwrap().to_string(),
        path: path.to_string(),
        is_dir,
        size: 1,
    }
}

#[test]
fn kinds_read_back() {
    for kind in [ServerKind::Sftp, ServerKind::Webdav, ServerKind::S3] {
        assert_eq!(ServerKind::parse(kind.as_str()), Ok(kind));
    }
    assert_eq!(ServerKind::Webdav.as_str(), "webdav");
    assert_eq!(
        ServerKind::parse("ftp").unwrap_err(),
        "Unknown server kind: ftp"
    );
}

#[test]
fn secrets_are_empty_without_password_and_key() {
    let mut s = ServerSecrets::default();
    assert!(s.is_empty());
    s.passphrase = "p".to_string();
    assert!(s.is_empty());
    s.private_key = "k".to_string();
    assert!(!s.is_empty());
}

#[test]
fn uris_split_into_what_they_were_made_of() {
    assert_eq!(URI_PREFIX, "srv:");
    let uri = make_uri("abc-1", "/a:b/c.mp4");
    assert_eq!(uri, "srv:abc-1:/a:b/c.mp4");
    assert_eq!(
        split_uri(&uri),
        Some(("abc-1".to_string(), "/a:b/c.mp4".to_string()))
    );
    for bad in ["", "srv", "srv:x", "srv::/a", "srv:x:", "gdrive:x:/a"] {
        assert_eq!(split_uri(bad), None);
    }
    assert_eq!(read_target("srv:x:y"), Ok(("x".to_string(), "y".to_string())));
    assert_eq!(
        read_target("nope").unwrap_err(),
        "Malformed remote path: nope"
    );
}

#[test]
fn mime_types_follow_the_extension() {
    assert_eq!(guess_mime("a.MP4"), "video/mp4");
    assert_eq!(guess_mime("a.m4v"), "video/mp4");
    assert_eq!(guess_mime("a.b.Mov"), "video/quicktime");
    assert_eq!(guess_mime("a.WEBM"), "video/webm");
    assert_eq!(guess_mime("a.mkv"), "video/x-matroska");
    assert_eq!(guess_mime("a.ogv"), "video/ogg");
    assert_eq!(guess_mime("a.OGG"), "video/ogg");
    assert_eq!(guess_mime("webm"), "video/mp4");
    assert_eq!(guess_mime(""), "video/mp4");
    assert_eq!(mime_for_extension("mov"), "video/quicktime");
    assert_eq!(mime_for_extension("MOV"), "video/mp4");
}

#[test]
fn paths_are_joined_with_one_slash() {
    assert_eq!(join_path("", "a"), "/a");
    assert_eq!(join_path("/", "a"), "/a");
    assert_eq!(join_path("//", "a"), "/a");
    assert_eq!(join_path("/x/", "a"), "/x/a");
    assert_eq!(join_path("/x", "a"), "/x/a");
}

#[test]
fn registry_keeps_the_last_settings() {
    let mut servers: ServerRegistry = ServerRegistry::new();
    init(
        &mut servers,
        vec![config("a", "one"), config("b", "two"), config("a", "three")],
    );
    assert_eq!(get_config(&servers, "a").unwrap().name, "three");
    assert_eq!(get_config(&servers, "b").unwrap().name, "two");
    cache_server(&mut servers, config("b", "four"));
    assert_eq!(get_config(&servers, "b").unwrap().name, "four");
    uncache_server(&mut servers, "a");
    assert_eq!(
        get_config(&servers, "a").unwrap_err(),
        "That server is no longer configured. Re-add it in Settings."
    );
    assert_eq!(get_config(&servers, "b").unwrap().name, "four");
}

#[test]
fn host_keys_are_pinned_in_the_registry() {
    let mut servers = ServerRegistry::new();
    cache_server(&mut servers, config("a", "one"));
    assert!(needs_pin(&get_config(&servers, "a").unwrap(), "F"));
    persist_fingerprint(&mut servers, "a", "F".to_string());
    persist_fingerprint(&mut servers, "b", "G".to_string());
    let c = get_config(&servers, "a").unwrap();
    assert_eq!(c.host_fingerprint, Some("F".to_string()));
    assert_eq!(c.name, "one");
    assert!(!needs_pin(&c, "F"));
    assert!(needs_pin(&c, "G"));
    assert!(get_config(&servers, "b").is_err());
}

fn saw(fingerprint: &str) -> Result<Option<String>, String> {
    Ok(Some(fingerprint.to_string()))
}

#[test]
fn a_test_pins_no_host_key() {
    let mut servers = ServerRegistry::new();
    cache_server(&mut servers, config("a", "one"));
    let c = get_config(&servers, "a").unwrap();
    assert_eq!(key_to_pin(&c, saw("F"), true), None);
    assert_eq!(connected(&mut servers, &c, saw("F"), true), None);
    assert_eq!(get_config(&servers, "a").unwrap().host_fingerprint, None);
    // A connection that is not a test pins what it saw, once.
    let key = connected(&mut servers, &c, saw("F"), false);
    assert_eq!(key, Some("F".to_string()));
    let c = get_config(&servers, "a").unwrap();
    assert_eq!(c.host_fingerprint, Some("F".to_string()));
    assert_eq!(c.name, "one");
    assert_eq!(connected(&mut servers, &c, saw("F"), false), None);
    // Testing other settings under a saved id leaves the pinned key alone.
    assert_eq!(connected(&mut servers, &config("a", "two"), saw("G"), true), None);
    assert_eq!(
        get_config(&servers, "a").unwrap().host_fingerprint,
        Some("F".to_string())
    );
    // Settings that are not saved have a key to save and change no other server.
    assert_eq!(
        connected(&mut servers, &config("b", "two"), saw("G"), false),
        Some("G".to_string())
    );
    assert!(get_config(&servers, "b").is_err());
}

#[test]
fn only_ssh_hosts_are_pinned() {
    let mut servers = ServerRegistry::new();
    cache_server(&mut servers, config("a", "one"));
    let mut c = get_config(&servers, "a").unwrap();
    assert_eq!(connected(&mut servers, &c, Err("refused".to_string()), false), None);
    assert_eq!(connected(&mut servers, &c, Ok(None), false), None);
    c.kind = ServerKind::Webdav;
    assert_eq!(connected(&mut servers, &c, saw("F"), false), None);
    c.kind = ServerKind::S3;
    assert_eq!(connected(&mut servers, &c, saw("F"), false), None);
    assert_eq!(get_config(&servers, "a").unwrap().host_fingerprint, None);
}

#[test]
fn the_first_error_of_opening_is_handed_back() {
    let mut servers = ServerRegistry::new();
    let mut backends: IdMap<u32> = IdMap::new();
    cache_server(&mut servers, config("a", "one"));
    assert_eq!(
        opened(&mut backends, "a", Err("locked".to_string()), Ok(1)),
        Err("locked".to_string())
    );
    assert!(matches!(backend(&backends, &servers, "a"), BackendStep::Open(_)));
    assert_eq!(
        opened(&mut backends, "a", Ok(()), Err("refused".to_string())),
        Err("refused".to_string())
    );
    assert!(matches!(backend(&backends, &servers, "a"), BackendStep::Open(_)));
    assert_eq!(opened(&mut backends, "a", Ok(()), Ok(7)), Ok(()));
    // Calls for other servers do not matter, and neither do the settings.
    assert_eq!(opened(&mut backends, "b", Ok(()), Ok(8)), Ok(()));
    evict_backend(&mut backends, "b");
    uncache_server(&mut servers, "a");
    assert!(matches!(backend(&backends, &servers, "a"), BackendStep::Cached(7)));
    cache_server(&mut servers, config("a", "one"));
    evict_backend(&mut backends, "a");
    assert!(matches!(backend(&backends, &servers, "a"), BackendStep::Open(_)));
    assert_eq!(opened(&mut backends, "a", Ok(()), Ok(9)), Ok(()));
    assert!(matches!(backend(&backends, &servers, "a"), BackendStep::Cached(9)));
}

#[test]
fn connections_are_kept_until_evicted() {
    let mut servers = ServerRegistry::new();
    let mut backends: IdMap<u32> = IdMap::new();
    assert!(matches!(
        backend(&backends, &servers, "a"),
        BackendStep::Failed(e) if e == "That server is no longer configured. Re-add it in Settings."
    ));
    cache_server(&mut servers, config("a", "one"));
    assert!(matches!(
        backend(&backends, &servers, "a"),
        BackendStep::Open(c) if c.name == "one"
    ));
    keep_backend(&mut backends, "a", 7);
    assert!(matches!(backend(&backends, &servers, "a"), BackendStep::Cached(7)));
    evict_backend(&mut backends, "a");
    assert!(matches!(backend(&backends, &servers, "a"), BackendStep::Open(_)));
}

fn request(
    opens: [Result<(), &str>; 2],
    runs: [Result<u8, &str>; 2],
) -> (Result<u8, String>, usize) {
    let mut opened = 0;
    let mut ran = 0;
    let mut next: Next<u8> = Next::Reconnect(Attempt::First);
    loop {
        next = match next {
            Next::Done(r) => return (r, ran),
            Next::Reconnect(attempt) => {
                opened += 1;
                attempt.connected(opens[opened - 1].map_err(|e| e.to_string()))
            }
            Next::Run(attempt) => {
                ran += 1;
                attempt.ran(runs[ran - 1].map_err(|e| e.to_string()))
            }
        };
    }
}

#[test]
fn a_failed_request_is_run_once_more() {
    assert_eq!(request([Ok(()), Ok(())], [Ok(1), Ok(2)]), (Ok(1), 1));
    assert_eq!(request([Ok(()), Ok(())], [Err("a"), Ok(2)]), (Ok(2), 2));
    assert_eq!(
        request([Ok(()), Ok(())], [Err("a"), Err("b")]),
        (Err("b".to_string()), 2)
    );
    assert_eq!(
        request([Ok(()), Err("c")], [Err("a"), Ok(2)]),
        (Err("a".to_string()), 1)
    );
    assert_eq!(
        request([Err("c"), Ok(())], [Ok(1), Ok(2)]),
        (Err("c".to_string()), 0)
    );
}

#[test]
fn folders_come_first_and_case_does_not_count() {
    let nodes = vec![
        node("/b.mp4", false),
        node("/Zoo", true),
        node("/A.mp4", false),
        node("/apple", true),
        node("/a.MP4", false),
        node("/Äpfel", true),
    ];
    let names: Vec<String> = sort_nodes(nodes).into_iter().map(|n| n.name).collect();
    assert_eq!(names, vec!["apple", "Zoo", "Äpfel", "A.mp4", "a.MP4", "b.mp4"]);
    assert!(sort_nodes(Vec::new()).is_empty());
}

#[test]
fn ties_keep_their_order() {
    let nodes = vec![node("/x", false), node("/y", false), node("/z", true)];
    let folded = vec!["k".to_string(), "k".to_string(), "z".to_string()];
    assert_eq!(listing_order(&nodes, &folded), vec![2, 0, 1]);
    let folded = vec!["kk".to_string(), "k".to_string(), "z".to_string()];
    assert_eq!(listing_order(&nodes, &folded), vec![2, 1, 0]);
}

fn walk(
    list: &dyn Fn(&str) -> Result<Vec<RemoteNode>, String>,
) -> (Result<Vec<SourceEntry>, String>, Vec<String>) {
    let mut asked = Vec::new();
    let mut w = TreeWalk::new("id", "/root");
    loop {
        let path = w.asked().to_string();
        asked.push(path.clone());
        if let Some(r) = w.listed(list(&path)) {
            return (r, asked);
        }
    }
}

#[test]
fn a_tree_is_walked_depth_first() {
    let (r, asked) = walk(&|path| {
        Ok(match path {
            "/root" => vec![
                node("/root/a", true),
                node("/root/f.mp4", false),
                node("/root/b", true),
            ],
            "/root/a" => vec![node("/root/a/x.mp4", false)],
            "/root/b" => vec![node("/root/b/c", true)],
            "/root/b/c" => vec![],
            _ => return Err("unknown".to_string()),
        })
    });
    assert_eq!(asked, vec!["/root", "/root/a", "/root/b", "/root/b/c"]);
    let entries = r.unwrap();
    assert_eq!(entries.len(), 3);
    assert_eq!(entries[0].uri, "srv:id:/root/a");
    assert!(entries[0].is_folder);
    assert_eq!(entries[0].children.len(), 1);
    assert_eq!(entries[0].children[0].name, "x.mp4");
    assert_eq!(entries[0].children[0].mime_type, "");
    assert_eq!(entries[0].children[0].duration_secs, 0);
    assert!(!entries[1].is_folder);
    assert!(entries[1].children.is_empty());
    assert_eq!(entries[2].children[0].uri, "srv:id:/root/b/c");
    assert!(entries[2].children[0].children.is_empty());
}

#[test]
fn a_failed_listing_ends_the_walk() {
    let (r, asked) = walk(&|path| {
        if path == "/root" {
            Ok(vec![node("/root/a", true), node("/root/b", true)])
        } else {
            Err(format!("no {path}"))
        }
    });
    assert_eq!(asked.len(), 2);
    assert_eq!(r.unwrap_err(), "no /root/a");
}

#[test]
fn folders_below_the_depth_limit_are_empty() {
    let (r, asked) = walk(&|path| Ok(vec![node(&format!("{path}/d"), true)]));
    assert_eq!(asked.len(), 8);
    let mut level = r.unwrap();
    let mut depth = 0;
    while !level.is_empty() {
        assert_eq!(level.len(), 1);
        depth += 1;
        level = level.pop().unwrap().children;
    }
    assert_eq!(depth, 8);
}

#[test]
fn the_entry_limit_is_exact() {
    let (r, _) = walk(&|_| Ok((0..MAX_ENTRIES).map(|i| node(&format!("/f{i}"), false)).collect()));
    assert_eq!(r.unwrap().len(), MAX_ENTRIES);
    let (r, _) = walk(&|_| Ok((0..MAX_ENTRIES + 1).map(|i| node(&format!("/f{i}"), false)).collect()));
    assert_eq!(
        r.unwrap_err(),
        "That folder holds more than 20000 files — pick a single course folder rather than your whole library."
    );
}

fn keychain_error(no_entry: bool) -> KeychainError {
    KeychainError {
        no_entry,
        message: "locked".to_string(),
    }
}

#[test]
fn a_missing_keychain_entry_is_no_error() {
    assert_eq!(unavailable("x"), "Keychain unavailable: x");
    assert_eq!(load_secrets(Ok("{}".to_string())), Ok(Some("{}".to_string())));
    assert_eq!(load_secrets(Err(keychain_error(true))), Ok(None));
    assert_eq!(
        load_secrets(Err(keychain_error(false))).unwrap_err(),
        "Couldn't read credentials from the keychain: locked"
    );
    assert_eq!(store_secrets(Ok(())), Ok(()));
    assert_eq!(
        store_secrets(Err(keychain_error(true))).unwrap_err(),
        "Couldn't save credentials to the keychain: locked"
    );
    assert_eq!(delete_secrets(Ok(())), Ok(()));
    assert_eq!(delete_secrets(Err(keychain_error(true))), Ok(()));
    assert_eq!(
        delete_secrets(Err(keychain_error(false))).unwrap_err(),
        "Couldn't remove credentials from the keychain: locked"
    );
}
