use ckourse::drive_protocol;
use ckourse::percent::encode_segment;
use ckourse::remote_protocol;

#[test]
fn drive_files_are_named_by_the_path() {
    assert_eq!(drive_protocol::SCHEME, "gdrive");
    assert_eq!(
        drive_protocol::decode_file_id("//a%20b"),
        Some("a b".to_string())
    );
    assert_eq!(drive_protocol::decode_file_id("/%ff"), None);
    match drive_protocol::requested_file("/abc") {
        Ok(id) => assert_eq!(id, "abc"),
        Err(_) => panic!("refused"),
    }
    for bad in ["/", "", "/%ff"] {
        match drive_protocol::requested_file(bad) {
            Ok(_) => panic!("accepted"),
            Err(r) => {
                assert_eq!(r.status, 400);
                assert!(r.body.is_empty());
            }
        }
    }
    assert_eq!(drive_protocol::unauthorized().status, 401);
}

#[test]
fn drive_addresses() {
    assert_eq!(
        drive_protocol::meta_url("x"),
        "https://www.googleapis.com/drive/v3/files/x?fields=size,mimeType&supportsAllDrives=true"
    );
    assert_eq!(
        drive_protocol::media_url("x"),
        "https://www.googleapis.com/drive/v3/files/x?alt=media&supportsAllDrives=true"
    );
}

#[test]
fn drive_metadata_is_read() {
    let body = br#"{"size":"123","mimeType":"video/webm"}"#.to_vec();
    assert_eq!(
        drive_protocol::fetch_meta(200, &body),
        Ok((123, "video/webm".to_string()))
    );
    let body = br#"{"size":123,"mimeType":"application/pdf"}"#.to_vec();
    assert_eq!(
        drive_protocol::fetch_meta(200, &body),
        Ok((0, "video/mp4".to_string()))
    );
    assert_eq!(
        drive_protocol::fetch_meta(200, &b"[]".to_vec()),
        Ok((0, "video/mp4".to_string()))
    );
    assert_eq!(
        drive_protocol::fetch_meta(200, &b"{".to_vec()).unwrap_err(),
        "error decoding response body"
    );
    assert_eq!(
        drive_protocol::fetch_meta(404, &b"{}".to_vec()).unwrap_err(),
        "metadata 404 Not Found"
    );
    assert_eq!(
        drive_protocol::describe(Some("7"), Some("video/ogg")),
        (7, "video/ogg".to_string())
    );
    assert_eq!(
        drive_protocol::describe(Some("x"), None),
        (0, "video/mp4".to_string())
    );
}

#[test]
fn drive_blocks_are_passed_on() {
    assert_eq!(drive_protocol::fetch_block(206, vec![1, 2]), Ok(vec![1, 2]));
    assert_eq!(
        drive_protocol::fetch_block(416, vec![1]).unwrap_err(),
        "block 416 Range Not Satisfiable"
    );
}

#[test]
fn server_files_are_named_by_the_path() {
    assert_eq!(remote_protocol::SCHEME, "srv");
    let coded = encode_segment("id-1:/Courses/ü b.mp4");
    assert_eq!(coded, "id-1%3A%2FCourses%2F%C3%BC%20b.mp4");
    assert_eq!(
        remote_protocol::decode_uri(&format!("/{coded}")),
        Some("srv:id-1:/Courses/ü b.mp4".to_string())
    );
    let t = match remote_protocol::requested_target(&format!("/{coded}")) {
        Ok(t) => t,
        Err(_) => panic!("refused"),
    };
    assert_eq!(t.uri, "srv:id-1:/Courses/ü b.mp4");
    assert_eq!(t.server_id, "id-1");
    assert_eq!(t.path, "/Courses/ü b.mp4");
    for bad in ["/", "/x", "/%ff", "/id:"] {
        match remote_protocol::requested_target(bad) {
            Ok(_) => panic!("accepted"),
            Err(r) => assert_eq!(r.status, 400),
        }
    }
}

#[test]
fn server_metadata() {
    assert_eq!(
        remote_protocol::fetch_meta("/a.MOV", Ok(5)),
        Ok((5, "video/quicktime".to_string()))
    );
    assert_eq!(
        remote_protocol::fetch_meta("/a.mov", Err("gone".to_string())),
        Err("gone".to_string())
    );
}

#[test]
fn segments_are_escaped_byte_by_byte() {
    assert_eq!(encode_segment("aZ09-._~"), "aZ09-._~");
    assert_eq!(encode_segment("a/b c"), "a%2Fb%20c");
    assert_eq!(encode_segment("%é"), "%25%C3%A9");
    assert_eq!(encode_segment(""), "");
}
