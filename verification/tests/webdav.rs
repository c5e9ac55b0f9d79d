use ckourse::remote::propfind::{parse_propfind, Multistatus, PropfindEntry, TextTarget, XmlEvent};
use ckourse::remote::webdav::{connect, WebdavBackend, PROPFIND_BODY};
use ckourse::remote::{ServerConfig, ServerKind, ServerSecrets};

const NEXTCLOUD: &str = r#"<?xml version="1.0"?>
<d:multistatus xmlns:d="DAV:">
  <d:response>
    <d:href>/remote.php/dav/files/me/Courses/</d:href>
    <d:propstat><d:prop><d:resourcetype><d:collection/></d:resourcetype></d:prop></d:propstat>
  </d:response>
  <d:response>
    <d:href>/remote.php/dav/files/me/Courses/Rust/</d:href>
    <d:propstat><d:prop><d:resourcetype><d:collection/></d:resourcetype></d:prop></d:propstat>
  </d:response>
  <d:response>
    <d:href>/remote.php/dav/files/me/Courses/01%20Intro.mp4</d:href>
    <d:propstat><d:prop><d:resourcetype/><d:getcontentlength>1048576</d:getcontentlength></d:prop></d:propstat>
  </d:response>
</d:multistatus>"#;

fn backend() -> WebdavBackend {
    WebdavBackend {
        base: "https://cloud.example.com/remote.php/dav/files/me".to_string(),
        username: "me".to_string(),
        password: "pw".to_string(),
    }
}

fn config(host: &str) -> ServerConfig {
    ServerConfig {
        id: "id".to_string(),
        name: "Cloud".to_string(),
        kind: ServerKind::Webdav,
        host: host.to_string(),
        port: 22,
        username: "me".to_string(),
        base_path: "/".to_string(),
        bucket: String::new(),
        region: String::new(),
        path_style: true,
        host_fingerprint: None,
    }
}

#[test]
fn parses_collections_and_files() {
    let entries = parse_propfind(NEXTCLOUD).unwrap();
    assert_eq!(entries.len(), 3);
    assert!(entries[1].is_dir);
    assert!(!entries[2].is_dir);
    assert_eq!(entries[2].size, 1_048_576);
}

#[test]
fn href_maps_back_to_server_path() {
    let b = backend();
    let entries = parse_propfind(NEXTCLOUD).unwrap();
    assert_eq!(
        b.path_from_href(&entries[2].href).unwrap(),
        "/Courses/01 Intro.mp4"
    );
    assert_eq!(b.path_from_href(&entries[1].href).unwrap(), "/Courses/Rust");
}

#[test]
fn href_handles_absolute_urls() {
    let b = backend();
    assert_eq!(
        b.path_from_href("https://cloud.example.com/remote.php/dav/files/me/Courses/Rust/")
            .unwrap(),
        "/Courses/Rust"
    );
}

#[test]
fn url_encodes_each_segment() {
    let b = backend();
    assert_eq!(
        b.url_for("/Courses/Rust 101/01 Intro.mp4"),
        "https://cloud.example.com/remote.php/dav/files/me/Courses/Rust%20101/01%20Intro.mp4"
    );
}

#[test]
fn ignores_namespace_prefix_variations() {
    let xml = r#"<multistatus xmlns="DAV:"><response><href>/base/a.mp4</href>
          <propstat><prop><resourcetype/><getcontentlength>42</getcontentlength></prop></propstat>
        </response></multistatus>"#;
    let entries = parse_propfind(xml).unwrap();
    assert_eq!(entries.len(), 1);
    assert_eq!(entries[0].size, 42);
}

#[test]
fn prefixes_do_not_matter() {
    let plain = parse_propfind(&NEXTCLOUD.replace("d:", "").replace(":d=", "=")).unwrap();
    let upper = parse_propfind(&NEXTCLOUD.replace("d:", "D:").replace(":d=", ":D=")).unwrap();
    let as_sent = parse_propfind(NEXTCLOUD).unwrap();
    for other in [&plain, &upper] {
        assert_eq!(other.len(), as_sent.len());
        for (a, b) in other.iter().zip(&as_sent) {
            assert_eq!(a.href, b.href);
            assert_eq!(a.is_dir, b.is_dir);
            assert_eq!(a.size, b.size);
        }
    }
    // Only what stands up to the first colon is a prefix.
    let mut m = Multistatus::new();
    m.advance(&XmlEvent::Start("d:response".to_string()), Ok(String::new())).unwrap();
    assert!(m.current.is_some());
    m.advance(&XmlEvent::Empty("d:x:collection".to_string()), Ok(String::new())).unwrap();
    assert!(!m.current.as_ref().unwrap().is_dir);
    m.advance(&XmlEvent::Empty("D:collection".to_string()), Ok(String::new())).unwrap();
    assert!(m.current.as_ref().unwrap().is_dir);
}

#[test]
fn a_response_holds_what_it_reports() {
    let xml = "<m:multistatus><m:response><m:href>/a&amp;b</m:href><m:status>ok</m:status></m:response>\
               <m:response><m:collection></m:collection><m:href>/c</m:href>\
               <m:getcontentlength> 12 </m:getcontentlength></m:response>\
               <m:response><m:href></m:href></m:response></m:multistatus>";
    let entries = parse_propfind(xml).unwrap();
    assert_eq!(entries.len(), 2);
    // A reference ends the text that is read.
    assert_eq!(entries[0].href, "/a");
    assert!(!entries[0].is_dir);
    assert_eq!(entries[0].size, 0);
    assert_eq!(entries[1].href, "/c");
    assert!(entries[1].is_dir);
    assert_eq!(entries[1].size, 12);
}

#[test]
fn malformed_reply_is_reported() {
    let e = parse_propfind("<a><b></a>").unwrap_err();
    assert!(e.starts_with("Couldn't parse the server's reply: "));
    assert!(e.len() > "Couldn't parse the server's reply: ".len());
}

#[test]
fn responses_without_href_are_dropped() {
    let xml = "<multistatus><response><getcontentlength>4</getcontentlength></response>\
               <response><href>/a</href><getcontentlength>x</getcontentlength></response></multistatus>";
    let entries = parse_propfind(xml).unwrap();
    assert_eq!(entries.len(), 1);
    assert_eq!(entries[0].href, "/a");
    assert_eq!(entries[0].size, 0);
}

#[test]
fn events_build_an_entry() {
    let mut m = Multistatus::new();
    let steps = [
        XmlEvent::Start("response".to_string()),
        XmlEvent::Start("href".to_string()),
    ];
    for s in &steps {
        m.advance(s, Ok(String::new())).unwrap();
    }
    assert!(m.wants_text());
    assert_eq!(m.target, Some(TextTarget::Href));
    m.advance(&XmlEvent::Text("/a%20b".to_string()), Ok("/a%20b".to_string()))
        .unwrap();
    assert!(!m.wants_text());
    m.advance(&XmlEvent::End("href".to_string()), Ok(String::new())).unwrap();
    m.advance(&XmlEvent::Empty("collection".to_string()), Ok(String::new()))
        .unwrap();
    m.advance(&XmlEvent::Start("getcontentlength".to_string()), Ok(String::new()))
        .unwrap();
    m.advance(&XmlEvent::Text(" 7 ".to_string()), Ok(" 7 ".to_string()))
        .unwrap();
    m.advance(&XmlEvent::Other, Ok(String::new())).unwrap();
    m.advance(&XmlEvent::End("response".to_string()), Ok(String::new()))
        .unwrap();
    assert!(m.current.is_none());
    assert_eq!(m.entries.len(), 1);
    assert_eq!(m.entries[0].href, "/a%20b");
    assert!(m.entries[0].is_dir);
    assert_eq!(m.entries[0].size, 7);
}

#[test]
fn unreadable_text_and_events_fail() {
    let mut m = Multistatus::new();
    m.advance(&XmlEvent::Start("response".to_string()), Ok(String::new()))
        .unwrap();
    m.advance(&XmlEvent::Start("href".to_string()), Ok(String::new())).unwrap();
    assert_eq!(
        m.advance(&XmlEvent::Text("&x;".to_string()), Err("no such entity".to_string())),
        Err("Couldn't parse the server's reply: no such entity".to_string())
    );
    assert_eq!(
        m.advance(&XmlEvent::Failed("oops".to_string()), Ok(String::new())),
        Err("Couldn't parse the server's reply: oops".to_string())
    );
    // Text that nothing waits for is not looked at.
    let mut idle = Multistatus::new();
    assert_eq!(
        idle.advance(&XmlEvent::Text("&x;".to_string()), Err("no such entity".to_string())),
        Ok(())
    );
}

#[test]
fn connect_checks_the_url() {
    let secrets = ServerSecrets {
        password: "pw".to_string(),
        private_key: String::new(),
        passphrase: String::new(),
    };
    assert_eq!(
        connect(&config(" / "), &secrets).unwrap_err(),
        "This server has no URL set."
    );
    assert_eq!(
        connect(&config("ftp://host"), &secrets).unwrap_err(),
        "The WebDAV URL must start with http:// or https://"
    );
    let b = connect(&config(" https://host/dav// "), &secrets).unwrap();
    assert_eq!(b.base, "https://host/dav");
    assert_eq!(b.username, "me");
    assert_eq!(b.password, "pw");
}

#[test]
fn urls_lead_back_to_paths() {
    let b = backend();
    for (path, normal) in [
        ("/Courses/Rust 101/a%b.mp4", "/Courses/Rust 101/a%b.mp4"),
        ("Courses//ünï/", "/Courses/ünï"),
        ("/", "/"),
        ("/odd://name", "/odd:/name"),
    ] {
        assert_eq!(b.path_from_href(&b.url_for(path)).unwrap(), normal);
    }
    let bare = WebdavBackend {
        base: "http://host".to_string(),
        username: String::new(),
        password: String::new(),
    };
    assert_eq!(bare.path_from_href(&bare.url_for("/a b")).unwrap(), "/a b");
    assert_eq!(bare.path_from_href(&bare.url_for("/")), None);
}

#[test]
fn hrefs_outside_the_mount_point() {
    let b = backend();
    assert_eq!(b.path_from_href("/elsewhere/x").unwrap(), "/elsewhere/x");
    assert_eq!(b.path_from_href("x/").unwrap(), "/x");
    assert_eq!(b.path_from_href("%ff"), None);
}

#[test]
fn listing_skips_itself_and_hidden_entries() {
    let b = backend();
    let nodes = b.list_nodes("/Courses", NEXTCLOUD).unwrap();
    assert_eq!(nodes.len(), 2);
    assert_eq!(nodes[0].name, "Rust");
    assert_eq!(nodes[0].path, "/Courses/Rust");
    assert!(nodes[0].is_dir);
    assert_eq!(nodes[1].name, "01 Intro.mp4");
    assert_eq!(nodes[1].size, 1_048_576);

    let entries = vec![
        PropfindEntry {
            href: "/remote.php/dav/files/me/.hidden".to_string(),
            is_dir: false,
            size: 1,
        },
        PropfindEntry {
            href: "%ff".to_string(),
            is_dir: false,
            size: 1,
        },
        PropfindEntry {
            href: "/remote.php/dav/files/me/x".to_string(),
            is_dir: false,
            size: 1,
        },
    ];
    let nodes = b.nodes_of("/", &entries);
    assert_eq!(nodes.len(), 1);
    assert_eq!(nodes[0].path, "/x");
}

#[test]
fn listing_request_and_status() {
    let b = backend();
    let r = b.list_request("/Courses");
    assert_eq!(r.method, "PROPFIND");
    assert_eq!(
        r.url,
        "https://cloud.example.com/remote.php/dav/files/me/Courses"
    );
    assert_eq!(
        r.headers,
        vec![
            ("Depth", "1".to_string()),
            ("Content-Type", "application/xml; charset=utf-8".to_string())
        ]
    );
    assert_eq!(r.body, Some(PROPFIND_BODY));
    assert_eq!(r.basic_auth, Some(("me".to_string(), "pw".to_string())));
    assert_eq!(b.list_status("/x", 207), Ok(()));
    assert_eq!(
        b.list_status("/x", 401),
        Err("The server rejected those WebDAV credentials.".to_string())
    );
    assert_eq!(
        b.list_status("/x", 404),
        Err("The server returned 404 Not Found listing /x.".to_string())
    );
}

#[test]
fn no_credentials_without_user_and_password() {
    let b = WebdavBackend {
        base: "http://host".to_string(),
        username: String::new(),
        password: String::new(),
    };
    assert_eq!(b.read_request("/a").basic_auth, None);
    let b = WebdavBackend {
        base: "http://host".to_string(),
        username: String::new(),
        password: "pw".to_string(),
    };
    assert_eq!(
        b.read_request("/a").basic_auth,
        Some((String::new(), "pw".to_string()))
    );
}

#[test]
fn ranges_are_asked_for_and_sliced() {
    let b = backend();
    let r = b.range_request("/a", 2, 4).unwrap();
    assert_eq!(r.method, "GET");
    assert_eq!(r.headers, vec![("Range", "bytes=2-4".to_string())]);
    assert!(b.range_request("/a", 4, 2).is_none());
    let file: Vec<u8> = vec![0, 1, 2, 3, 4, 5];
    assert_eq!(b.range_bytes("/a", 200, file.clone(), 2, 4).unwrap(), vec![2, 3, 4]);
    assert_eq!(b.range_bytes("/a", 200, file.clone(), 4, 9).unwrap(), vec![4, 5]);
    assert_eq!(b.range_bytes("/a", 200, file.clone(), 8, 9).unwrap(), Vec::<u8>::new());
    assert_eq!(b.range_bytes("/a", 206, vec![2, 3, 4], 2, 4).unwrap(), vec![2, 3, 4]);
    assert_eq!(b.range_bytes("/a", 206, vec![9], 2, u64::MAX).unwrap(), vec![9]);
    assert_eq!(
        b.range_bytes("/a", 500, file, 2, 4).unwrap_err(),
        "The server returned 500 Internal Server Error reading /a."
    );
}

#[test]
fn sizes_and_whole_files() {
    let b = backend();
    assert_eq!(b.size_request("/a").method, "HEAD");
    assert_eq!(b.size_of("/a", 200, Some("12")), Ok(12));
    assert_eq!(
        b.size_of("/a", 200, Some("twelve")).unwrap_err(),
        "The server didn't report a size for /a."
    );
    assert_eq!(
        b.size_of("/a", 200, None).unwrap_err(),
        "The server didn't report a size for /a."
    );
    assert_eq!(
        b.size_of("/a", 403, Some("12")).unwrap_err(),
        "The server returned 403 Forbidden for /a."
    );
    assert_eq!(b.read_all("/a", 200, vec![1, 2]), Ok(vec![1, 2]));
    assert_eq!(
        b.read_all("/a", 404, vec![]).unwrap_err(),
        "The server returned 404 Not Found for /a."
    );
}

#[test]
fn an_href_ends_at_a_reference() {
    let xml = "<multistatus><response><href>/a&#32;b</href></response></multistatus>";
    let entries = parse_propfind(xml).unwrap();
    assert_eq!(entries[0].href, "/a");
}
