use ckourse::stream_cache::{
    parse_req_range, range_header, status_only, Assembly, BlockStep, Engine, FetchStep, Meta,
    ServeStep, StreamRequest, StreamResponse, Want, BLOCK, MAX_BLOCKS, OPEN_ENDED_CAP,
    READAHEAD_BLOCKS, SUPERSEDED,
};

fn byte(i: u64) -> u8 {
    (i % 251) as u8
}

fn source(start: u64, end: u64) -> Vec<u8> {
    (start..=end).map(byte).collect()
}

fn get(range: Option<&str>) -> StreamRequest {
    StreamRequest {
        head: false,
        range: range.map(|r| r.to_string()),
    }
}

fn meta(e: &mut Engine, key: &str, total: u64) -> Meta {
    match e.ensure_meta(key, Ok((total, "video/mp4".to_string()))) {
        Ok(m) => m,
        Err(e) => panic!("{e}"),
    }
}

fn load(e: &mut Engine, generation: u64, idx: u64) {
    match e.request_block(generation, idx) {
        BlockStep::Queue { total, .. } => match e.holding_lock(generation, idx, total) {
            FetchStep::Fetch { start, end } => {
                e.finish_block(generation, idx, Ok(source(start, end))).unwrap();
            }
            FetchStep::Cached(_) => panic!("cached"),
        },
        _ => panic!("not to be fetched"),
    }
}

fn assembly(e: &mut Engine, total: u64, range: Option<&str>) -> Assembly {
    let m = meta(e, "a", total);
    match Engine::serve(Ok(m), &get(range)) {
        ServeStep::Assemble(a) => a,
        ServeStep::Reply(r) => panic!("{}", r.status),
    }
}

fn assemble(e: &mut Engine, total: u64, range: Option<&str>) -> (StreamResponse, Option<u64>, usize) {
    let mut a = assembly(e, total, range);
    let mut fetched = 0;
    loop {
        match a.want() {
            Want::Nothing => break,
            Want::Await(idx) => {
                let block = match e.peek(a.generation(), idx) {
                    Some(b) => b,
                    None => {
                        fetched += 1;
                        load(e, a.generation(), idx);
                        e.peek(a.generation(), idx).unwrap()
                    }
                };
                a.supply(Some(&block));
            }
            Want::IfCached(idx) => match e.peek(a.generation(), idx) {
                Some(b) => a.supply(Some(&b)),
                None => a.supply(None),
            },
        }
    }
    let (r, base) = a.finish();
    (r, base, fetched)
}

fn reply(total: u64, request: &StreamRequest) -> StreamResponse {
    let mut e = Engine::new("srv");
    let m = meta(&mut e, "a", total);
    match Engine::serve(Ok(m), request) {
        ServeStep::Reply(r) => r,
        ServeStep::Assemble(_) => panic!("a range"),
    }
}

#[test]
fn head_gives_size_and_type() {
    let r = reply(
        10,
        &StreamRequest {
            head: true,
            range: Some("bytes=5-".to_string()),
        },
    );
    assert_eq!(r.status, 200);
    assert_eq!(r.content_type, Some("video/mp4".to_string()));
    assert_eq!(r.content_length, Some(10));
    assert!(r.accept_ranges);
    assert!(r.body.is_empty());
    assert_eq!(Engine::new("srv").label(), "srv");
}

#[test]
fn refused_requests() {
    assert_eq!(reply(0, &get(None)).status, 500);
    let r = reply(10, &get(Some("bytes=10-")));
    assert_eq!(r.status, 416);
    assert_eq!(r.content_range, Some("bytes */10".to_string()));
    match Engine::serve(Err("gone".to_string()), &get(None)) {
        ServeStep::Reply(r) => assert_eq!(r.status, 502),
        ServeStep::Assemble(_) => panic!("a range"),
    }
    assert_eq!(status_only(418).status, 418);
    let mut e = Engine::new("srv");
    assert_eq!(assembly(&mut e, 10, None).fail().status, 502);
    assert!(e.ensure_meta("b", Err("gone".to_string())).is_err());
}

#[test]
fn explicit_ranges_are_served_in_full() {
    let mut e = Engine::new("srv");
    let total = 3 * BLOCK + 5;
    let range = format!("bytes={}-{}", BLOCK - 2, 2 * BLOCK + 1);
    let (r, base, fetched) = assemble(&mut e, total, Some(&range));
    assert_eq!(r.status, 206);
    assert_eq!(r.body, source(BLOCK - 2, 2 * BLOCK + 1));
    assert_eq!(r.content_length, Some(r.body.len() as u64));
    assert_eq!(
        r.content_range,
        Some(format!("bytes {}-{}/{}", BLOCK - 2, 2 * BLOCK + 1, total))
    );
    assert_eq!(base, Some(2));
    assert_eq!(fetched, 3);
    // A range past the end stops with the file.
    let (r, _, _) = assemble(&mut e, total, Some(&format!("bytes={}-{}", total - 3, total + 9)));
    assert_eq!(r.body, source(total - 3, total - 1));
}

#[test]
fn open_ended_requests_wait_for_one_block() {
    let mut e = Engine::new("srv");
    let total = 20 * BLOCK;
    let (r, base, fetched) = assemble(&mut e, total, Some("bytes=5-"));
    assert_eq!(fetched, 1);
    assert_eq!(r.body, source(5, BLOCK - 1));
    assert_eq!(base, Some(0));
    // What is cached already comes along, up to the ceiling.
    let m = meta(&mut e, "a", total);
    for idx in 1..6 {
        load(&mut e, m.generation, idx);
    }
    let (r, _, fetched) = assemble(&mut e, total, None);
    assert_eq!(fetched, 0);
    assert_eq!(r.body.len() as u64, OPEN_ENDED_CAP);
}

#[test]
fn short_blocks_end_the_response() {
    let mut e = Engine::new("srv");
    let mut a = assembly(&mut e, 10, Some("bytes=2-9"));
    assert!(matches!(a.want(), Want::Await(0)));
    a.supply(Some(&source(0, 4)));
    assert!(matches!(a.want(), Want::Await(0)));
    a.supply(Some(&source(0, 4)));
    assert!(matches!(a.want(), Want::Nothing));
    let (r, base) = a.finish();
    assert_eq!(r.body, source(2, 4));
    assert_eq!(base, Some(0));

    let mut a = assembly(&mut e, 10, Some("bytes=2-9"));
    a.supply(Some(&Vec::new()));
    let (r, base) = a.finish();
    assert_eq!(r.status, 500);
    assert_eq!(base, None);
}

#[test]
fn the_oldest_block_leaves_first() {
    let mut e = Engine::new("srv");
    let total = 100 * BLOCK;
    let g = meta(&mut e, "a", total).generation;
    for idx in 0..MAX_BLOCKS as u64 {
        match e.request_block(g, idx) {
            BlockStep::Queue { .. } => {
                e.finish_block(g, idx, Ok(vec![idx as u8])).unwrap();
            }
            _ => panic!("cached"),
        }
    }
    assert!(e.peek(g, 0).is_some());
    e.request_block(g, 77);
    e.finish_block(g, 77, Ok(vec![7])).unwrap();
    assert!(e.peek(g, 0).is_none());
    assert!(e.peek(g, 1).is_some());
    assert_eq!(*e.peek(g, 77).unwrap(), vec![7]);
}

#[test]
fn a_hit_does_not_renew_a_block() {
    let mut e = Engine::new("srv");
    let last = MAX_BLOCKS as u64;
    let g = meta(&mut e, "a", 100 * BLOCK).generation;
    for idx in 0..last {
        e.request_block(g, idx);
        e.finish_block(g, idx, Ok(vec![idx as u8])).unwrap();
    }
    assert!(matches!(e.request_block(g, 0), BlockStep::Cached(b) if *b == vec![0]));
    e.request_block(g, last);
    e.finish_block(g, last, Ok(vec![99])).unwrap();
    assert!(e.peek(g, 0).is_none());
    for idx in 1..last {
        assert_eq!(*e.peek(g, idx).unwrap(), vec![idx as u8]);
    }
    assert_eq!(*e.peek(g, last).unwrap(), vec![99]);
}

#[test]
fn many_callers_share_one_fetch() {
    let mut e = Engine::new("srv");
    let total = 100 * BLOCK;
    let g = meta(&mut e, "a", total).generation;
    let mut locks = Vec::new();
    for _ in 0..5 {
        match e.request_block(g, 3) {
            BlockStep::Queue { lock, .. } => locks.push(lock),
            _ => panic!("no lock"),
        }
    }
    assert!(locks.iter().all(|l| *l == locks[0]));
    let mut fetches = 0;
    let mut answers = Vec::new();
    for _ in 0..5 {
        match e.holding_lock(g, 3, total) {
            FetchStep::Fetch { start, end } => {
                assert_eq!((start, end), (3 * BLOCK, 4 * BLOCK - 1));
                fetches += 1;
                answers.push(e.finish_block(g, 3, Ok(vec![1, 2, 3])).unwrap());
                for other in 10..10 + MAX_BLOCKS as u64 - 1 {
                    e.request_block(g, other);
                    e.finish_block(g, other, Ok(vec![0])).unwrap();
                }
            }
            FetchStep::Cached(b) => answers.push(b),
        }
    }
    assert_eq!(fetches, 1);
    assert_eq!(answers.len(), 5);
    assert!(answers.iter().all(|b| **b == vec![1, 2, 3]));
}

#[test]
fn waiters_for_a_block_share_a_lock() {
    let mut e = Engine::new("srv");
    let g = meta(&mut e, "a", 9 * BLOCK).generation;
    let lock = |s: BlockStep| match s {
        BlockStep::Queue { lock, .. } => lock,
        _ => panic!("no lock"),
    };
    let first = lock(e.request_block(g, 1));
    let other = lock(e.request_block(g, 2));
    assert_eq!(first, lock(e.request_block(g, 1)));
    assert_ne!(first, other);
    assert!(matches!(
        e.holding_lock(g, 8, 9 * BLOCK - 1),
        FetchStep::Fetch { start, end } if start == 8 * BLOCK && end == 9 * BLOCK - 2
    ));
    assert!(e.finish_block(g, 1, Err("lost".to_string())).is_err());
    assert!(matches!(e.request_block(g, 1), BlockStep::Queue { .. }));
    e.finish_block(g, 1, Ok(vec![1])).unwrap();
    assert!(matches!(e.holding_lock(g, 1, 9 * BLOCK), FetchStep::Cached(_)));
    assert!(matches!(e.request_block(g, 1), BlockStep::Cached(_)));
}

#[test]
fn a_new_file_supersedes_the_old_one() {
    let mut e = Engine::new("srv");
    let g = meta(&mut e, "a", 9 * BLOCK).generation;
    load(&mut e, g, 0);
    assert_eq!(meta(&mut e, "a", 1).generation, g);
    assert_eq!(e.known_meta("a").unwrap().total, 9 * BLOCK);
    assert!(e.peek(g, 0).is_some());
    let h = meta(&mut e, "b", 5).generation;
    assert_ne!(g, h);
    assert!(e.known_meta("a").is_none());
    assert!(e.peek(g, 0).is_none());
    assert!(matches!(e.request_block(g, 0), BlockStep::Superseded(e) if e == SUPERSEDED));
    assert_eq!(
        e.finish_block(g, 0, Ok(vec![1])).unwrap_err(),
        "superseded by a newer file"
    );
    assert!(e.start_readahead(g, 0).is_none());
    // Even where the newer file has that block, and a failed request changes nothing.
    load(&mut e, h, 0);
    assert!(matches!(e.request_block(g, 0), BlockStep::Superseded(_)));
    assert!(e.ensure_meta("c", Err("gone".to_string())).is_err());
    assert!(e.peek(h, 0).is_some());
    // A file that comes back is a new one.
    let again = meta(&mut e, "a", 9 * BLOCK).generation;
    assert!(again != g && again != h);
    assert!(e.peek(again, 0).is_none());
    assert!(e.peek(g, 0).is_none());
    assert!(e.peek(h, 0).is_none());
}

#[test]
fn a_failed_fetch_ends_read_ahead() {
    let mut e = Engine::new("srv");
    let g = meta(&mut e, "a", 100 * BLOCK).generation;
    let mut chain = e.start_readahead(g, 3).unwrap();
    assert_eq!(chain.next(&e), Some(4));
    e.request_block(g, 4);
    chain.fetched(&e.finish_block(g, 4, Ok(vec![1])));
    assert_eq!(chain.next(&e), Some(5));
    e.request_block(g, 5);
    chain.fetched(&e.finish_block(g, 5, Err("lost".to_string())));
    assert_eq!(chain.next(&e), None);
    assert!(e.peek(g, 4).is_some());
    assert!(e.peek(g, 5).is_none());
    assert!(matches!(e.request_block(g, 5), BlockStep::Queue { .. }));
    assert!(matches!(e.holding_lock(g, 5, 100 * BLOCK), FetchStep::Fetch { .. }));
    // A chain that was retired stays so.
    let mut old = e.start_readahead(g, 3).unwrap();
    e.start_readahead(g, 7);
    assert_eq!(old.next(&e), None);
    e.start_readahead(g, 3);
    assert_eq!(old.next(&e), None);
}

#[test]
fn read_ahead_follows_the_last_response() {
    let mut e = Engine::new("srv");
    let g = meta(&mut e, "a", 100 * BLOCK).generation;
    let mut chain = e.start_readahead(g, 3).unwrap();
    let mut asked = Vec::new();
    while let Some(idx) = chain.next(&e) {
        asked.push(idx);
    }
    assert_eq!(asked, (4..=3 + READAHEAD_BLOCKS).collect::<Vec<u64>>());

    let mut old = e.start_readahead(g, 3).unwrap();
    assert_eq!(old.next(&e), Some(4));
    let mut new = e.start_readahead(g, 50).unwrap();
    assert_eq!(old.next(&e), None);
    assert_eq!(new.next(&e), Some(51));

    let mut end = e.start_readahead(g, 98).unwrap();
    assert_eq!(end.next(&e), Some(99));
    assert_eq!(end.next(&e), None);
}

#[test]
fn range_headers() {
    assert_eq!(parse_req_range(None), (0, None));
    assert_eq!(parse_req_range(Some("bytes=5-9")), (5, Some(9)));
    assert_eq!(parse_req_range(Some("bytes= 5 - 9 ")), (5, Some(9)));
    assert_eq!(parse_req_range(Some("bytes=5-")), (5, None));
    assert_eq!(parse_req_range(Some("bytes=-9")), (0, Some(9)));
    assert_eq!(parse_req_range(Some("bytes=x-y")), (0, None));
    assert_eq!(parse_req_range(Some("items=5-9")), (0, None));
    assert_eq!(parse_req_range(Some("bytes=5")), (0, None));
    assert_eq!(
        parse_req_range(Some("bytes=0-18446744073709551616")),
        (0, None)
    );
    assert_eq!(range_header(0, u64::MAX), "bytes=0-18446744073709551615");
    assert_eq!(parse_req_range(Some(&range_header(7, 12))), (7, Some(12)));
}

#[test]
fn content_types_that_are_no_header_text() {
    let mut e = Engine::new("srv");
    let m = match e.ensure_meta("a", Ok((4, "bad\ntype".to_string()))) {
        Ok(m) => m,
        Err(e) => panic!("{e}"),
    };
    let request = StreamRequest {
        head: true,
        range: None,
    };
    match Engine::serve(Ok(m), &request) {
        ServeStep::Reply(r) => assert_eq!(r.status, 500),
        ServeStep::Assemble(_) => panic!("a range"),
    }
}
