use ckourse::commands::resources::{
    ensure_local, ensure_size, not_found, resource_source, ResourceSource, MAX_RESOURCE_BYTES,
};
use ckourse::commands::servers::{
    browse_path, browse_server, build_config, delete_server, merge_secrets, save_server, server_id,
    server_saved, test_id, test_server, test_summary, ServerInput,
};
use ckourse::id_map::IdMap;
use ckourse::remote::session::keep_backend;
use ckourse::remote::{
    cache_server, get_config, RemoteNode, ServerConfig, ServerKind, ServerRegistry, ServerSecrets,
};

fn input() -> ServerInput {
    ServerInput {
        id: None,
        name: " Box ".to_string(),
        kind: "sftp".to_string(),
        host: " host ".to_string(),
        port: None,
        username: " me ".to_string(),
        base_path: None,
        bucket: None,
        region: Some(" eu ".to_string()),
        path_style: None,
        password: None,
        private_key: None,
        passphrase: None,
    }
}

fn secrets(password: &str, private_key: &str, passphrase: &str) -> ServerSecrets {
    ServerSecrets {
        password: password.to_string(),
        private_key: private_key.to_string(),
        passphrase: passphrase.to_string(),
    }
}

fn existing() -> ServerConfig {
    let mut c = build_config(&input(), "a".to_string(), None).unwrap();
    c.host_fingerprint = Some("F".to_string());
    c
}

fn node(name: &str, is_dir: bool) -> RemoteNode {
    RemoteNode {
        name: name.to_string(),
        path: format!("/{name}"),
        is_dir,
        size: 0,
    }
}

#[test]
fn a_form_is_trimmed_and_filled_in() {
    let c = build_config(&input(), "a".to_string(), None).unwrap();
    assert_eq!(c.id, "a");
    assert_eq!(c.name, "Box");
    assert_eq!(c.kind, ServerKind::Sftp);
    assert_eq!(c.host, "host");
    assert_eq!(c.port, 22);
    assert_eq!(c.username, "me");
    assert_eq!(c.base_path, "/");
    assert_eq!(c.bucket, "");
    assert_eq!(c.region, "eu");
    assert!(c.path_style);
    assert_eq!(c.host_fingerprint, None);

    let mut i = input();
    i.base_path = Some(" /x ".to_string());
    i.path_style = Some(false);
    i.port = Some(0);
    let c = build_config(&i, "a".to_string(), None).unwrap();
    assert_eq!(c.base_path, "/x");
    assert!(!c.path_style);
    assert_eq!(c.port, 0);
}

#[test]
fn incomplete_forms_are_refused() {
    let mut i = input();
    i.name = " ".to_string();
    assert_eq!(
        build_config(&i, "a".to_string(), None).unwrap_err(),
        "Give this server a name."
    );
    i.kind = "ftp".to_string();
    assert_eq!(
        build_config(&i, "a".to_string(), None).unwrap_err(),
        "Unknown server kind: ftp"
    );
}

#[test]
fn the_pin_stays_with_host_and_port() {
    let old = existing();
    let c = build_config(&input(), "a".to_string(), Some(&old)).unwrap();
    assert_eq!(c.host_fingerprint, Some("F".to_string()));
    let mut i = input();
    i.port = Some(23);
    let c = build_config(&i, "a".to_string(), Some(&old)).unwrap();
    assert_eq!(c.host_fingerprint, None);
    let mut i = input();
    i.host = "other".to_string();
    let c = build_config(&i, "a".to_string(), Some(&old)).unwrap();
    assert_eq!(c.host_fingerprint, None);
}

#[test]
fn blank_secrets_keep_what_is_saved() {
    let mut i = input();
    i.password = Some(String::new());
    let s = merge_secrets(&i, secrets("p", "k", "pp"));
    assert_eq!(
        (s.password.as_str(), s.private_key.as_str(), s.passphrase.as_str()),
        ("p", "k", "pp")
    );
    i.password = Some("new".to_string());
    i.private_key = Some("nk".to_string());
    i.passphrase = Some(String::new());
    let s = merge_secrets(&i, secrets("p", "k", "pp"));
    assert_eq!(
        (s.password.as_str(), s.private_key.as_str(), s.passphrase.as_str()),
        ("new", "nk", "")
    );
}

#[test]
fn new_servers_get_a_fresh_id_and_need_secrets() {
    let servers = ServerRegistry::new();
    let id = server_id(&input());
    assert_eq!(id.len(), 36);
    assert!(!id.contains(':'));
    assert_ne!(id, server_id(&input()));
    for (kind, message) in [
        ("sftp", "Add a password or a private key for this server."),
        ("webdav", "Add the WebDAV password for this server."),
        ("s3", "Add the secret access key for this bucket."),
    ] {
        let mut i = input();
        i.kind = kind.to_string();
        let r = save_server(&servers, &i, &id, ServerSecrets::default());
        assert_eq!(r.unwrap_err(), message);
    }
    let mut i = input();
    i.password = Some("pw".to_string());
    let (c, s) = save_server(&servers, &i, &id, ServerSecrets::default()).unwrap();
    assert_eq!(c.id, id);
    assert_eq!(s.password, "pw");
    i.name = String::new();
    assert!(save_server(&servers, &i, &id, ServerSecrets::default()).is_err());
}

#[test]
fn edits_keep_the_id_and_the_pin() {
    let mut servers = ServerRegistry::new();
    cache_server(&mut servers, existing());
    let mut i = input();
    i.id = Some("a".to_string());
    assert_eq!(server_id(&i), "a");
    let (c, s) = save_server(&servers, &i, "a", ServerSecrets::default()).unwrap();
    assert_eq!(c.host_fingerprint, Some("F".to_string()));
    assert!(s.is_empty());
    // A new server never takes over a pin.
    i.id = None;
    let (c, _) = save_server(&servers, &i, "a", secrets("p", "", "")).unwrap();
    assert_eq!(c.host_fingerprint, None);
}

#[test]
fn saving_and_deleting_drop_the_connection() {
    let mut servers = ServerRegistry::new();
    let mut backends: IdMap<u8> = IdMap::new();
    keep_backend(&mut backends, "a", 1);
    keep_backend(&mut backends, "b", 2);
    server_saved(&mut servers, &mut backends, existing());
    assert_eq!(get_config(&servers, "a").unwrap().name, "Box");
    assert_eq!(backends.get("a"), None);
    assert_eq!(backends.get("b"), Some(&2));
    delete_server(&mut servers, &mut backends, "b");
    assert_eq!(backends.get("b"), None);
    assert!(get_config(&servers, "a").is_ok());
    delete_server(&mut servers, &mut backends, "a");
    assert!(get_config(&servers, "a").is_err());
}

#[test]
fn a_test_uses_the_form_and_what_is_saved() {
    let mut servers = ServerRegistry::new();
    cache_server(&mut servers, existing());
    let (c, s) = test_server(&servers, &input(), secrets("p", "", "")).unwrap();
    assert_eq!(c.id, "test");
    assert_eq!(c.host_fingerprint, None);
    assert_eq!(s.password, "p");
    let mut i = input();
    i.id = Some("a".to_string());
    assert_eq!(test_id(&i), "a");
    let (c, _) = test_server(&servers, &i, ServerSecrets::default()).unwrap();
    assert_eq!(c.host_fingerprint, Some("F".to_string()));
    i.kind = "x".to_string();
    assert_eq!(
        test_server(&servers, &i, ServerSecrets::default()).unwrap_err(),
        "Unknown server kind: x"
    );
}

#[test]
fn a_test_reports_what_is_there() {
    let c = existing();
    assert_eq!(
        test_summary(&c, &vec![node("a", true), node("b", false), node("c", false)]),
        "Connected. Box at / — 1 folder, 2 files."
    );
    assert_eq!(
        test_summary(&c, &vec![node("b", false)]),
        "Connected. Box at / — 0 folders, 1 file."
    );
}

#[test]
fn browsing_goes_up_as_far_as_the_base_path() {
    let mut c = existing();
    c.base_path = "/srv/".to_string();
    assert_eq!(browse_path(&c, None), "/srv/");
    assert_eq!(browse_path(&c, Some("/x".to_string())), "/x");
    let parent = |path: &str| browse_server(&c, path.to_string(), Vec::new()).parent;
    assert_eq!(parent("/srv"), None);
    assert_eq!(parent("/srv//"), None);
    assert_eq!(parent("/srv/a/b/"), Some("/srv/a".to_string()));
    assert_eq!(parent("/srv/a"), Some("/srv".to_string()));
    assert_eq!(parent("/a"), Some("/".to_string()));
    assert_eq!(parent("a"), Some("/".to_string()));
    assert_eq!(parent("/"), Some("/".to_string()));
    let r = browse_server(&c, "/x".to_string(), vec![node("b", false), node("a", true)]);
    assert_eq!(r.path, "/x");
    assert_eq!(r.entries[0].name, "a");
}

#[test]
fn large_resources_are_refused() {
    assert_eq!(ensure_size(MAX_RESOURCE_BYTES), Ok(()));
    assert_eq!(
        ensure_size(MAX_RESOURCE_BYTES + 1).unwrap_err(),
        "Resource is too large to open in the app (256 MB)"
    );
    assert_eq!(
        ensure_size(300 * 1024 * 1024 - 1).unwrap_err(),
        "Resource is too large to open in the app (299 MB)"
    );
    assert_eq!(ensure_local(true, 5), Ok(()));
    assert_eq!(ensure_local(false, 5).unwrap_err(), "Resource is not a file");
    assert_eq!(
        ensure_local(true, MAX_RESOURCE_BYTES + 1).unwrap_err(),
        "Resource is too large to open in the app (256 MB)"
    );
}

#[test]
fn resources_come_from_three_sources() {
    assert!(matches!(resource_source("gdrive:abc"), ResourceSource::Drive(id) if id == "abc"));
    assert!(matches!(
        resource_source("srv:id:/a.pdf"),
        ResourceSource::Remote(id, path) if id == "id" && path == "/a.pdf"
    ));
    assert!(matches!(resource_source("/home/me/a.pdf"), ResourceSource::Local));
    assert!(matches!(resource_source("srv:x"), ResourceSource::Local));
}

#[test]
fn missing_resources_are_named() {
    assert_eq!(not_found(0), "Resource 0 not found");
    assert_eq!(not_found(42), "Resource 42 not found");
    assert_eq!(not_found(-7), "Resource -7 not found");
    assert_eq!(not_found(i64::MIN), "Resource -9223372036854775808 not found");
    assert_eq!(not_found(i64::MAX), "Resource 9223372036854775807 not found");
}
