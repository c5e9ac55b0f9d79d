use ckourse::remote::s3::{
    add_page, connect, key_of, page_reply, prefix_of, range_bytes, read_all, s3_error, settings,
    size_of, ListStep, Listing, Page, S3Backend,
};
use ckourse::remote::{ServerConfig, ServerKind, ServerSecrets};

fn config() -> ServerConfig {
    ServerConfig {
        id: "id".to_string(),
        name: "Bucket".to_string(),
        kind: ServerKind::S3,
        host: " https://minio.example.com ".to_string(),
        port: 22,
        username: " AK ".to_string(),
        base_path: "/".to_string(),
        bucket: " courses ".to_string(),
        region: "  ".to_string(),
        path_style: true,
        host_fingerprint: None,
    }
}

fn secrets() -> ServerSecrets {
    ServerSecrets {
        password: "sk".to_string(),
        private_key: String::new(),
        passphrase: String::new(),
    }
}

fn backend(config: &ServerConfig) -> S3Backend {
    match connect(config, &secrets()) {
        Ok(b) => b,
        Err(e) => panic!("{e}"),
    }
}

fn error(config: &ServerConfig, secrets: &ServerSecrets) -> String {
    match connect(config, secrets) {
        Ok(_) => panic!("connected"),
        Err(e) => e,
    }
}

fn query(url: &str) -> Vec<(String, String)> {
    url::Url::parse(url)
        .unwrap()
        .query_pairs()
        .map(|(k, v)| (k.into_owned(), v.into_owned()))
        .collect()
}

fn has(q: &[(String, String)], name: &str, value: &str) -> bool {
    q.iter().any(|(k, v)| k == name && v == value)
}

#[test]
fn prefixes_get_a_trailing_slash() {
    assert_eq!(prefix_of("/Courses/Rust"), "Courses/Rust/");
    assert_eq!(prefix_of("/Courses/Rust/"), "Courses/Rust/");
    assert_eq!(prefix_of("/"), "");
}

#[test]
fn keys_drop_the_leading_slash() {
    assert_eq!(key_of("/Courses/01 Intro.mp4"), "Courses/01 Intro.mp4");
}

#[test]
fn error_body_message_is_surfaced() {
    let body = "<Error><Code>SignatureDoesNotMatch</Code><Message>The request signature we calculated does not match</Message></Error>";
    let msg = s3_error(reqwest::StatusCode::FORBIDDEN.as_u16(), body);
    assert!(msg.contains("does not match"));
}

#[test]
fn error_without_message() {
    assert_eq!(
        s3_error(403, "<Message> no </Message>"),
        "Storage error 403 Forbidden: no"
    );
    assert_eq!(s3_error(403, "<Message>  </Message>"), "Storage error 403 Forbidden.");
    assert_eq!(s3_error(503, "<Message>x"), "Storage error 503 Service Unavailable.");
    assert_eq!(s3_error(599, ""), "Storage error 599 <unknown status code>.");
}

#[test]
fn connect_checks_the_settings() {
    let s = secrets();
    let mut c = config();
    c.host = " ".to_string();
    assert_eq!(error(&c, &s), "This server has no endpoint URL set.");
    let mut c = config();
    c.bucket = "\t".to_string();
    assert_eq!(error(&c, &s), "This server has no bucket name set.");
    let mut c = config();
    c.username = " ".to_string();
    assert_eq!(
        error(&c, &s),
        "This server is missing its access key or secret key."
    );
    assert_eq!(
        error(&config(), &ServerSecrets::default()),
        "This server is missing its access key or secret key."
    );
    let mut c = config();
    c.host = "minio.example.com".to_string();
    assert_eq!(
        error(&c, &s),
        "That endpoint isn't a valid URL (relative URL without a base). Include https://"
    );
    let mut c = config();
    c.host = "ftp://minio.example.com".to_string();
    assert!(error(&c, &s).starts_with("Couldn't configure that bucket: "));
}

#[test]
fn settings_are_trimmed() {
    let s = settings(&config(), &secrets()).unwrap();
    assert_eq!(s.endpoint, "https://minio.example.com");
    assert_eq!(s.bucket, "courses");
    assert_eq!(s.region, "us-east-1");
    assert_eq!(s.access_key, "AK");
    assert_eq!(s.secret_key, "sk");
    assert!(s.path_style);
}

#[test]
fn styles_and_regions() {
    let b = backend(&config());
    assert!(b.is_signable());
    let r = b.read_request("/a/b c.mp4");
    assert_eq!(r.method, "GET");
    assert!(r.headers.is_empty());
    assert!(r
        .url
        .starts_with("https://minio.example.com/courses/a/b%20c.mp4?"));
    let q = query(&r.url);
    assert!(has(&q, "X-Amz-Expires", "120"));
    let credential = &q.iter().find(|(k, _)| k == "X-Amz-Credential").unwrap().1;
    assert!(credential.starts_with("AK/"));
    assert!(credential.ends_with("/us-east-1/s3/aws4_request"));

    let mut c = config();
    c.path_style = false;
    c.region = " eu-west-1 ".to_string();
    let r = backend(&c).size_request("/a");
    assert_eq!(r.method, "HEAD");
    assert!(r.url.starts_with("https://courses.minio.example.com/a?"));
    let q = query(&r.url);
    assert!(q.iter().any(|(k, v)| k == "X-Amz-Credential"
        && v.ends_with("/eu-west-1/s3/aws4_request")));
}

#[test]
fn endpoints_are_read_as_urls() {
    let mut c = config();
    c.host = "HTTPS://MinIO.Example.com:443/base/".to_string();
    assert!(backend(&c)
        .read_request("/a")
        .url
        .starts_with("https://minio.example.com/base/courses/a?"));
}

#[test]
fn a_bucket_name_that_is_a_url_cannot_be_signed_for() {
    let mut c = config();
    c.bucket = "mailto:x".to_string();
    assert!(!backend(&c).is_signable());
}

#[test]
fn pages_ask_for_prefix_delimiter_and_token() {
    let b = backend(&config());
    let q = query(&b.page_request("/Courses/Rust", None).url);
    assert!(has(&q, "list-type", "2"));
    assert!(has(&q, "encoding-type", "url"));
    assert!(has(&q, "prefix", "Courses/Rust/"));
    assert!(has(&q, "delimiter", "/"));
    assert!(!q.iter().any(|(k, _)| k == "continuation-token"));
    let q = query(&b.page_request("/", Some("tok")).url);
    assert!(!q.iter().any(|(k, _)| k == "prefix"));
    assert!(has(&q, "continuation-token", "tok"));
}

#[test]
fn ranges_of_objects() {
    let b = backend(&config());
    let r = b.range_request("/a", 5, 9).unwrap();
    assert_eq!(r.headers, vec![("Range", "bytes=5-9".to_string())]);
    assert!(b.range_request("/a", 9, 5).is_none());
    assert_eq!(range_bytes(200, vec![0, 1, 2, 3], "", 1, 2).unwrap(), vec![1, 2]);
    assert_eq!(range_bytes(206, vec![1, 2], "", 1, 2).unwrap(), vec![1, 2]);
    assert_eq!(
        range_bytes(404, vec![], "<Message>gone</Message>", 1, 2).unwrap_err(),
        "Storage error 404 Not Found: gone"
    );
    assert_eq!(range_bytes(206, vec![1], "", 1, u64::MAX).unwrap(), vec![1]);
    assert_eq!(
        range_bytes(404, vec![], "", 1, u64::MAX).unwrap_err(),
        "Storage error 404 Not Found."
    );
    assert_eq!(read_all(200, vec![7], "").unwrap(), vec![7]);
    assert_eq!(read_all(404, vec![], "").unwrap_err(), "Storage error 404 Not Found.");
}

#[test]
fn sizes_of_objects() {
    assert_eq!(size_of("/a", 200, Some("3")), Ok(3));
    assert_eq!(
        size_of("/a", 200, None).unwrap_err(),
        "The endpoint didn't report a size for a."
    );
    assert_eq!(
        size_of("/a", 404, None).unwrap_err(),
        "The endpoint returned 404 Not Found for a."
    );
}

const LISTING: &str = r#"<?xml version="1.0" encoding="UTF-8"?>
<ListBucketResult xmlns="http://s3.amazonaws.com/doc/2006-03-01/">
  <Name>courses</Name>
  <NextContinuationToken>more</NextContinuationToken>
  <Contents><Key>Courses/</Key><LastModified>2020-01-01T00:00:00.000Z</LastModified><ETag>e</ETag><Size>0</Size></Contents>
  <Contents><Key>Courses/a.mp4</Key><LastModified>2020-01-01T00:00:00.000Z</LastModified><ETag>e</ETag><Size>12</Size></Contents>
  <Contents><Key>Courses/.b</Key><LastModified>2020-01-01T00:00:00.000Z</LastModified><ETag>e</ETag><Size>1</Size></Contents>
  <CommonPrefixes><Prefix>Courses/Rust/</Prefix></CommonPrefixes>
  <CommonPrefixes><Prefix>Courses/.git/</Prefix></CommonPrefixes>
</ListBucketResult>"#;

#[test]
fn a_page_is_read() {
    let mut nodes = Vec::new();
    let next = page_reply("/Courses", 200, LISTING, &mut nodes).unwrap();
    assert_eq!(next, Some("more".to_string()));
    assert_eq!(nodes.len(), 2);
    assert_eq!(nodes[0].name, "Rust");
    assert_eq!(nodes[0].path, "/Courses/Rust");
    assert!(nodes[0].is_dir);
    assert_eq!(prefix_of(&nodes[0].path), "Courses/Rust/");
    assert_eq!(nodes[1].name, "a.mp4");
    assert_eq!(nodes[1].path, "/Courses/a.mp4");
    assert_eq!(nodes[1].size, 12);
    assert_eq!(key_of(&nodes[1].path), "Courses/a.mp4");

    let e = page_reply("/Courses", 200, "<nonsense", &mut nodes).unwrap_err();
    assert!(e.starts_with("Couldn't parse the listing: "));
    assert_eq!(
        page_reply("/Courses", 403, "", &mut nodes).unwrap_err(),
        "Storage error 403 Forbidden."
    );
    assert_eq!(nodes.len(), 2);
}

#[test]
fn pages_add_up() {
    let mut nodes = Vec::new();
    let first = Page {
        common_prefixes: vec!["x/".to_string(), "/".to_string()],
        contents: vec![("a".to_string(), 1)],
        next_token: None,
    };
    let second = Page {
        common_prefixes: vec!["y/".to_string()],
        contents: vec![("".to_string(), 9), ("d/".to_string(), 2)],
        next_token: None,
    };
    add_page("/", &first, &mut nodes);
    add_page("/", &second, &mut nodes);
    let names: Vec<&str> = nodes.iter().map(|n| n.name.as_str()).collect();
    assert_eq!(names, vec!["x", "a", "y", "d"]);
    assert_eq!(nodes[3].path, "/d/");
    assert!(!nodes[3].is_dir);
}

fn step(listing: Listing, status: u16, body: &str) -> Listing {
    match listing.replied(status, body) {
        ListStep::More(listing) => listing,
        ListStep::Done(_) => panic!("over"),
    }
}

#[test]
fn a_listing_goes_on_until_there_is_no_token() {
    let b = backend(&config());
    let listing = Listing::new("/Courses");
    let first = query(&listing.request(&b).url);
    assert!(!first.iter().any(|(name, _)| name == "continuation-token"));
    assert!(has(&first, "prefix", "Courses/"));
    let listing = step(listing, 200, LISTING);
    assert_eq!(listing.nodes.len(), 2);
    assert!(has(&query(&listing.request(&b).url), "continuation-token", "more"));
    let listing = step(listing, 200, &LISTING.replace("more", "and more"));
    assert!(has(&query(&listing.request(&b).url), "continuation-token", "and more"));
    let last = LISTING.replace("<NextContinuationToken>more</NextContinuationToken>", "");
    match listing.replied(200, &last.replace("a.mp4", "c.mp4")) {
        ListStep::Done(Ok(nodes)) => {
            let names: Vec<&str> = nodes.iter().map(|n| n.name.as_str()).collect();
            assert_eq!(names, vec!["Rust", "a.mp4", "Rust", "a.mp4", "Rust", "c.mp4"]);
        }
        _ => panic!("not over"),
    }
}

#[test]
fn a_listing_ends_with_the_first_report() {
    let listing = step(Listing::new("/Courses"), 200, LISTING);
    match listing.replied(403, "<Message>no</Message>") {
        ListStep::Done(Err(e)) => assert_eq!(e, "Storage error 403 Forbidden: no"),
        _ => panic!("not over"),
    }
    match Listing::new("/").replied(200, "<nonsense") {
        ListStep::Done(Err(e)) => assert!(e.starts_with("Couldn't parse the listing: ")),
        _ => panic!("not over"),
    }
}

#[test]
fn unusual_listings_are_answered() {
    let open = r#"<ListBucketResult xmlns="http://s3.amazonaws.com/doc/2006-03-01/">"#;
    let mut nodes = Vec::new();
    // Keys come percent-encoded where the reply says so.
    let encoded = format!(
        "{open}<EncodingType>url</EncodingType><CommonPrefixes><Prefix>a%20b/</Prefix></CommonPrefixes></ListBucketResult>"
    );
    assert_eq!(page_reply("/", 200, &encoded, &mut nodes), Ok(None));
    assert_eq!(nodes[0].name, "a b");
    // Comments and sections that hold markup are no markup.
    let hidden = format!(
        "{open}<!-- <!DOCTYPE x> --><CommonPrefixes><Prefix><![CDATA[<!DOCTYPE y>/]]></Prefix></CommonPrefixes></ListBucketResult>"
    );
    assert_eq!(page_reply("/", 200, &hidden, &mut nodes), Ok(None));
    assert_eq!(nodes[1].name, "<!DOCTYPE y>");
    // A document type inside of an element, or many elements that mean nothing.
    let inside = format!(
        "{open}<NextContinuationToken>a<!DOCTYPE x>b</NextContinuationToken></ListBucketResult>"
    );
    assert!(page_reply("/", 200, &inside, &mut nodes).is_err());
    let many = format!("{open}{}</ListBucketResult>", "<U>t<y/></U>".repeat(66_000));
    assert_eq!(page_reply("/", 200, &many, &mut nodes), Ok(None));
    assert_eq!(nodes.len(), 2);
}
