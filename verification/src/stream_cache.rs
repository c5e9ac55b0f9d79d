//! Shared streaming engine for the remote video protocols (`gdrive://`, `srv://`).
//!
//! A `<video>` element parses media with hundreds of small range requests, and a
//! network round-trip per request stalls playback outright. Both remote protocols
//! therefore serve from this block cache, which provides what smooth playback on
//! a slow connection actually needs:
//!
//! * **Aligned 2 MB blocks in a bounded FIFO cache** (~64 MB) — the player's tiny
//!   reads collapse into a handful of network fetches, and scrubbing through a
//!   long video can't grow memory without bound.
//! * **In-flight de-duplication** — concurrent requests that touch the same
//!   missing block share one lock, and so one network fetch.
//! * **Background read-ahead** — after every response the next few blocks are
//!   fetched sequentially in the background.
//! * **Fast first byte** — an open-ended request (`bytes=N-`) is answered as soon
//!   as its first block is available, plus whatever contiguous blocks are already
//!   cached.
//!
//! Everything here decides; nothing here waits. A caller that can reach the
//! network asks what to do next, does it, and hands the outcome back.
use std::collections::HashMap;
use std::collections::VecDeque;
use std::sync::Arc;
use vstd::prelude::*;
use vstd::string::*;

use crate::text;

verus! {

broadcast use vstd::std_specs::hash::group_hash_axioms;

/// Cache/fetch granularity.
pub const BLOCK: u64 = 2 * 1024 * 1024;

/// Ceiling on cached blocks for the current file (~64 MB).
pub const MAX_BLOCKS: usize = 32;

/// How many blocks past the last response to warm in the background (~16 MB,
/// i.e. tens of seconds of typical course video).
pub const READAHEAD_BLOCKS: u64 = 8;

/// Ceiling on one open-ended (`bytes=N-`) response.
pub const OPEN_ENDED_CAP: u64 = 8 * 1024 * 1024;

/// `Arc::clone`: another pointer to the same bytes.
#[verifier::external_body]
fn share(a: &Arc<Vec<u8>>) -> (r: Arc<Vec<u8>>)
    ensures
        r == *a,
{
    a.clone()
}

// =====================================================================
// The cache of one file
// =====================================================================

/// Cache for the single file currently streaming — the player plays one video at
/// a time, so a new file resets it.
pub struct FileState {
    key: String,
    generation: u64,
    total: u64,
    content_type: String,
    blocks: HashMap<u64, Arc<Vec<u8>>>,
    /// Insertion order, for evicting the oldest block past `MAX_BLOCKS`.
    order: VecDeque<u64>,
    /// Per-block fetch locks: waiters queue on one instead of duplicating a fetch.
    locks: HashMap<u64, u64>,
    /// Last block a response ended in — read-ahead chains follow it, and a chain
    /// stops as soon as a newer response supersedes it.
    last_block: u64,
}

/// What a [`FileState`] holds.
#[verifier::ext_equal]
pub struct FileView {
    pub key: Seq<char>,
    pub generation: u64,
    pub total: u64,
    pub content_type: Seq<char>,
    pub blocks: Map<u64, Seq<u8>>,
    pub order: Seq<u64>,
    pub locks: Map<u64, u64>,
    pub last_block: u64,
}

impl FileView {
    /// The blocks are those of the order, each once, and no more than the ceiling.
    pub open spec fn wf(self) -> bool {
        &&& self.order.no_duplicates()
        &&& self.order.len() <= MAX_BLOCKS
        &&& forall|i: u64| self.order.contains(i) <==> #[trigger] self.blocks.contains_key(i)
    }

    /// The cache after a fetched block came in: the newest block is last in the
    /// order, and the oldest leaves when there would be too many.
    pub open spec fn with_block(self, idx: u64, data: Seq<u8>) -> FileView {
        if self.blocks.contains_key(idx) {
            FileView {
                blocks: self.blocks.insert(idx, data),
                locks: self.locks.remove(idx),
                ..self
            }
        } else if self.order.len() < MAX_BLOCKS {
            FileView {
                blocks: self.blocks.insert(idx, data),
                order: self.order.push(idx),
                locks: self.locks.remove(idx),
                ..self
            }
        } else {
            FileView {
                blocks: self.blocks.insert(idx, data).remove(self.order[0]),
                order: self.order.skip(1).push(idx),
                locks: self.locks.remove(idx),
                ..self
            }
        }
    }
}

impl View for FileState {
    type V = FileView;

    closed spec fn view(&self) -> FileView {
        FileView {
            key: self.key@,
            generation: self.generation,
            total: self.total,
            content_type: self.content_type@,
            blocks: self.blocks@.map_values(|a: Arc<Vec<u8>>| a@),
            order: self.order@,
            locks: self.locks@,
            last_block: self.last_block,
        }
    }
}

impl FileState {
    /// Takes a fetched block in, evicting the oldest one past the ceiling.
    fn put_block(&mut self, idx: u64, data: Vec<u8>) -> (block: Arc<Vec<u8>>)
        requires
            old(self)@.wf(),
        ensures
            final(self)@ == old(self)@.with_block(idx, data@),
            final(self)@.wf(),
            block@ == data@,
    {
        let ghost before = self@;
        self.locks.remove(&idx);
        let block = Arc::new(data);
        let prior = self.blocks.insert(idx, share(&block));
        let ghost inserted = self.blocks@;
        assert(inserted.map_values(|a: Arc<Vec<u8>>| a@) =~= before.blocks.insert(idx, data@));
        if prior.is_none() {
            self.order.push_back(idx);
            let ghost grown = self.order@;
            while self.order.len() > MAX_BLOCKS
                invariant
                    grown.len() <= MAX_BLOCKS + 1,
                    (self.order@ == grown && self.blocks@ == inserted) || (grown.len() == MAX_BLOCKS
                        + 1 && self.order@ == grown.skip(1) && self.blocks@ == inserted.remove(
                        grown[0],
                    )),
                    self.key == old(self).key,
                    self.generation == old(self).generation,
                    self.total == old(self).total,
                    self.content_type == old(self).content_type,
                    self.locks@ == before.locks.remove(idx),
                    self.last_block == old(self).last_block,
                decreases self.order@.len(),
            {
                if let Some(oldest) = self.order.pop_front() {
                    self.blocks.remove(&oldest);
                }
            }
            assert(inserted.remove(grown[0]).map_values(|a: Arc<Vec<u8>>| a@)
                =~= before.blocks.insert(idx, data@).remove(grown[0]));
            assert(before.order.len() > 0 ==> grown.skip(1) =~= before.order.skip(1).push(idx));
        }
        proof {
            lemma_with_block_wf(before, idx, data@);
        }
        assert(self@ =~= before.with_block(idx, data@));
        block
    }
}

/// Taking a block in keeps the cache well-formed.
proof fn lemma_with_block_wf(f: FileView, idx: u64, data: Seq<u8>)
    requires
        f.wf(),
    ensures
        f.with_block(idx, data).wf(),
{
    let g = f.with_block(idx, data);
    if f.blocks.contains_key(idx) {
        assert forall|i: u64| g.order.contains(i) <==> #[trigger] g.blocks.contains_key(i) by {
            assert(f.order.contains(i) <==> f.blocks.contains_key(i));
        }
    } else if f.order.len() < MAX_BLOCKS {
        assert(!f.order.contains(idx));
        assert forall|i: u64| g.order.contains(i) <==> #[trigger] g.blocks.contains_key(i) by {
            assert(f.order.contains(i) <==> f.blocks.contains_key(i));
            lemma_push_contains(f.order, idx, i);
        }
    } else {
        assert(!f.order.contains(idx));
        let kept = f.order.skip(1);
        assert forall|i: u64| g.order.contains(i) <==> #[trigger] g.blocks.contains_key(i) by {
            assert(f.order.contains(i) <==> f.blocks.contains_key(i));
            lemma_push_contains(kept, idx, i);
            if kept.contains(i) {
                let j = choose|j: int| 0 <= j < kept.len() && kept[j] == i;
                assert(f.order[j + 1] == i);
                assert(f.order[0] != f.order[j + 1]);
            }
            if f.order.contains(i) && i != f.order[0] {
                let j = choose|j: int| 0 <= j < f.order.len() && f.order[j] == i;
                assert(kept[j - 1] == i);
            }
            assert(f.order.contains(f.order[0]));
        }
        assert(g.order.no_duplicates()) by {
            assert forall|a: int, b: int|
                0 <= a < g.order.len() && 0 <= b < g.order.len() && a != b implies g.order[a]
                != g.order[b] by {
                if a < kept.len() {
                    assert(g.order[a] == f.order[a + 1]);
                    assert(f.order.contains(f.order[a + 1]));
                }
                if b < kept.len() {
                    assert(g.order[b] == f.order[b + 1]);
                    assert(f.order.contains(f.order[b + 1]));
                }
            }
        }
    }
}

proof fn lemma_push_contains(s: Seq<u64>, x: u64, i: u64)
    ensures
        s.push(x).contains(i) <==> (s.contains(i) || i == x),
{
    if s.contains(i) {
        let j = choose|j: int| 0 <= j < s.len() && s[j] == i;
        assert(s.push(x)[j] == i);
    }
    assert(s.push(x)[s.len() as int] == x);
    if s.push(x).contains(i) && i != x {
        let j = choose|j: int| 0 <= j < s.push(x).len() && s.push(x)[j] == i;
        assert(s[j] == i);
    }
}

// =====================================================================
// The engine
// =====================================================================

/// The block cache of one protocol, and the file it is streaming.
pub struct Engine {
    label: &'static str,
    state: Option<FileState>,
    /// Distinguishes cache resets so stale read-ahead chains and in-flight fetches
    /// die quietly when a different file starts streaming.
    next_generation: u64,
    /// Names the fetch locks.
    next_lock: u64,
}

/// What an [`Engine`] holds.
#[verifier::ext_equal]
pub struct EngineView {
    pub label: Seq<char>,
    pub file: Option<FileView>,
    pub next_generation: u64,
    pub next_lock: u64,
}

/// Size and type of the file that is streaming, and the cache reset it belongs to.
pub struct Meta {
    pub total: u64,
    pub content_type: String,
    pub generation: u64,
}

/// What a caller is told whose file is no longer the one that is streaming.
pub const SUPERSEDED: &'static str = "superseded by a newer file";

/// What a caller who wants a block has to do next.
pub enum BlockStep {
    /// A different file has taken over; says so.
    Superseded(String),
    /// The block is cached.
    Cached(Arc<Vec<u8>>),
    /// Queue on the lock with this name; `total` is the size of the file.
    Queue { lock: u64, total: u64 },
}

/// What a caller who holds a block's lock has to do next.
pub enum FetchStep {
    /// Whoever held the lock before has cached the block.
    Cached(Arc<Vec<u8>>),
    /// Fetch this inclusive byte range from the source.
    Fetch { start: u64, end: u64 },
}

/// `a + b` on `u64`, starting over at zero past the top.
pub open spec fn wrapped(a: u64, b: u64) -> u64 {
    if a + b > u64::MAX {
        (a + b - u64::MAX - 1) as u64
    } else {
        (a + b) as u64
    }
}

/// The inclusive byte range of block `idx` in a file of `total` bytes.
pub open spec fn block_range(idx: int, total: int) -> (int, int) {
    (idx * BLOCK, if (idx + 1) * BLOCK < total {
        (idx + 1) * BLOCK - 1
    } else {
        total - 1
    })
}

/// Where block `idx` begins, as a plain multiple.
proof fn lemma_blocks(idx: int)
    ensures
        idx * BLOCK == idx * 2097152,
        BLOCK == 2097152,
{
    assert(idx * BLOCK == idx * 2097152) by (nonlinear_arith)
        requires
            BLOCK == 2097152,
    ;
}

/// Which block byte `pos` is in, as a plain quotient.
proof fn lemma_block_of(pos: int)
    ensures
        pos / (BLOCK as int) == pos / 2097152,
        (pos / 2097152) * 2097152 <= pos < (pos / 2097152) * 2097152 + 2097152,
        BLOCK == 2097152,
{
    assert((pos / 2097152) * 2097152 <= pos < (pos / 2097152) * 2097152 + 2097152)
        by (nonlinear_arith);
}

impl EngineView {
    /// The cache of the streaming file, if there is one, is well-formed, and the file
    /// is the one that started last.
    pub open spec fn wf(self) -> bool {
        self.file matches Some(f) ==> f.wf() && self.next_generation == wrapped(f.generation, 1)
    }

    /// The streaming file, if it belongs to the given cache reset.
    pub open spec fn current(self, generation: u64) -> Option<FileView> {
        match self.file {
            Some(f) => if f.generation == generation {
                Some(f)
            } else {
                None
            },
            None => None,
        }
    }

    /// The cached block, if the file is still the same and the block is there.
    pub open spec fn cached(self, generation: u64, idx: u64) -> Option<Seq<u8>> {
        match self.current(generation) {
            Some(f) => if f.blocks.contains_key(idx) {
                Some(f.blocks[idx])
            } else {
                None
            },
            None => None,
        }
    }

    /// The engine after `key` was asked for and its source said `total` and
    /// `content_type`: nothing changes while `key` is the file that is streaming;
    /// any other file takes over with an empty cache.
    pub open spec fn with_meta(self, key: Seq<char>, total: u64, content_type: Seq<char>) -> EngineView {
        if self.file is Some && self.file->0.key == key {
            self
        } else {
            EngineView {
                file: Some(
                    FileView {
                        key,
                        generation: self.next_generation,
                        total,
                        content_type,
                        blocks: Map::empty(),
                        order: Seq::empty(),
                        locks: Map::empty(),
                        last_block: 0,
                    },
                ),
                next_generation: wrapped(self.next_generation, 1),
                ..self
            }
        }
    }

    /// The engine after a caller missed block `idx` and queued on its lock: a lock
    /// that is there is kept, and otherwise one is made.
    pub open spec fn with_lock(self, idx: u64) -> EngineView {
        match self.file {
            Some(f) => if f.locks.contains_key(idx) {
                self
            } else {
                EngineView {
                    file: Some(FileView { locks: f.locks.insert(idx, self.next_lock), ..f }),
                    next_lock: wrapped(self.next_lock, 1),
                    ..self
                }
            },
            None => self,
        }
    }
}

impl View for Engine {
    type V = EngineView;

    closed spec fn view(&self) -> EngineView {
        EngineView {
            label: self.label@,
            file: match self.state {
                Some(f) => Some(f@),
                None => None,
            },
            next_generation: self.next_generation,
            next_lock: self.next_lock,
        }
    }
}

impl Engine {
    /// An engine with nothing streaming.
    pub fn new(label: &'static str) -> (e: Engine)
        ensures
            e@.wf(),
            e@.label == label@,
            e@.file is None,
    {
        Engine { label, state: None, next_generation: 0, next_lock: 0 }
    }

    /// The protocol this engine serves, for log lines.
    pub fn label(&self) -> (r: &'static str)
        ensures
            r@ == self@.label,
    {
        self.label
    }

    /// What is known of `key` without asking its source.
    pub fn known_meta(&self, key: &str) -> (r: Option<Meta>)
        ensures
            match r {
                Some(m) => self@.file is Some && self@.file->0.key == key@ && m.total
                    == self@.file->0.total && m.content_type@ == self@.file->0.content_type
                    && m.generation == self@.file->0.generation,
                None => self@.file is None || self@.file->0.key != key@,
            },
    {
        match &self.state {
            Some(f) => if text::same(f.key.as_str(), key) {
                Some(
                    Meta {
                        total: f.total,
                        content_type: f.content_type.clone(),
                        generation: f.generation,
                    },
                )
            } else {
                None
            },
            None => None,
        }
    }

    /// Takes what the source says of `key`, dropping any previous file's cache when
    /// a different file starts. A concurrent request may have started the same file
    /// meanwhile; then its cache is kept.
    pub fn ensure_meta(&mut self, key: &str, meta: Result<(u64, String), String>) -> (r: Result<
        Meta,
        String,
    >)
        requires
            old(self)@.wf(),
        ensures
            final(self)@.wf(),
            match meta {
                Ok((total, content_type)) => {
                    &&& final(self)@ == old(self)@.with_meta(key@, total, content_type@)
                    &&& r matches Ok(m) && m.total == final(self)@.file->0.total
                        && m.content_type@ == final(self)@.file->0.content_type && m.generation
                        == final(self)@.file->0.generation
                },
                Err(e) => *final(self) == *old(self) && r == Err::<Meta, String>(e),
            },
    {
        let (total, content_type) = match meta {
            Ok(m) => m,
            Err(e) => {
                return Err(e);
            },
        };
        if let Some(m) = self.known_meta(key) {
            return Ok(m);
        }
        let generation: u64 = self.next_generation;
        self.next_generation = self.next_generation.wrapping_add(1);
        let kept = content_type.clone();
        self.state = Some(
            FileState {
                key: key.to_owned(),
                generation,
                total,
                content_type,
                blocks: HashMap::new(),
                order: VecDeque::new(),
                locks: HashMap::new(),
                last_block: 0,
            },
        );
        assert(self@.file->0.blocks =~= Map::empty());
        assert(self@ =~= old(self)@.with_meta(key@, total, content_type@));
        Ok(Meta { total, content_type: kept, generation })
    }

    /// A cached block, or `None` — never touches the network.
    pub fn peek(&self, generation: u64, idx: u64) -> (r: Option<Arc<Vec<u8>>>)
        ensures
            match r {
                Some(b) => self@.cached(generation, idx) == Some(b@),
                None => self@.cached(generation, idx) is None,
            },
    {
        match &self.state {
            Some(f) => {
                if f.generation != generation {
                    return None;
                }
                match f.blocks.get(&idx) {
                    Some(b) => Some(share(b)),
                    None => None,
                }
            },
            None => None,
        }
    }

    /// The first step to a block: a cached one is there at once, and on a miss
    /// concurrent callers are all given the same lock to queue on.
    pub fn request_block(&mut self, generation: u64, idx: u64) -> (r: BlockStep)
        requires
            old(self)@.wf(),
        ensures
            final(self)@.wf(),
            match old(self)@.current(generation) {
                None => {
                    &&& *final(self) == *old(self)
                    &&& r matches BlockStep::Superseded(e) && e@ == SUPERSEDED@
                },
                Some(f) => if f.blocks.contains_key(idx) {
                    &&& *final(self) == *old(self)
                    &&& r matches BlockStep::Cached(b) && b@ == f.blocks[idx]
                } else {
                    &&& final(self)@ == old(self)@.with_lock(idx)
                    &&& r matches BlockStep::Queue { lock, total } && total == f.total && lock
                        == final(self)@.file->0.locks[idx]
                },
            },
            final(self)@ == old(self)@.after(generation, CacheEvent::Asked(idx)),
    {
        if let Some(b) = self.peek(generation, idx) {
            return BlockStep::Cached(b);
        }
        match &mut self.state {
            Some(f) => {
                if f.generation != generation {
                    return BlockStep::Superseded(SUPERSEDED.to_owned());
                }
                let total: u64 = f.total;
                match f.locks.get(&idx) {
                    Some(lock) => BlockStep::Queue { lock: *lock, total },
                    None => {
                        let lock: u64 = self.next_lock;
                        f.locks.insert(idx, lock);
                        self.next_lock = self.next_lock.wrapping_add(1);
                        BlockStep::Queue { lock, total }
                    },
                }
            },
            None => BlockStep::Superseded(SUPERSEDED.to_owned()),
        }
    }

    /// The second step to a block, once its lock is held: whoever held the lock
    /// before may have cached the block; otherwise it has to be fetched.
    pub fn holding_lock(&self, generation: u64, idx: u64, total: u64) -> (r: FetchStep)
        requires
            idx * BLOCK < total,
        ensures
            match self@.cached(generation, idx) {
                Some(data) => r matches FetchStep::Cached(b) && b@ == data,
                None => r matches FetchStep::Fetch { start, end } && (start as int, end as int)
                    == block_range(idx as int, total as int),
            },
    {
        if let Some(b) = self.peek(generation, idx) {
            return FetchStep::Cached(b);
        }
        proof {
            lemma_blocks(idx as int);
            lemma_blocks(idx + 1);
        }
        let start: u64 = idx * BLOCK;
        let end: u64 = if total - start > BLOCK {
            start + BLOCK - 1
        } else {
            total - 1
        };
        FetchStep::Fetch { start, end }
    }

    /// The last step to a block: the fetch is over, so the lock goes, and the bytes
    /// go into the cache unless a different file has taken over.
    pub fn finish_block(
        &mut self,
        generation: u64,
        idx: u64,
        fetched: Result<Vec<u8>, String>,
    ) -> (r: Result<Arc<Vec<u8>>, String>)
        requires
            old(self)@.wf(),
        ensures
            final(self)@.wf(),
            match old(self)@.current(generation) {
                None => {
                    &&& *final(self) == *old(self)
                    &&& r matches Err(e) && e@ == SUPERSEDED@
                },
                Some(f) => match fetched {
                    Ok(data) => {
                        &&& final(self)@ == (EngineView {
                            file: Some(f.with_block(idx, data@)),
                            ..old(self)@
                        })
                        &&& r matches Ok(b) && b@ == data@
                    },
                    Err(e) => {
                        &&& final(self)@ == (EngineView {
                            file: Some(FileView { locks: f.locks.remove(idx), ..f }),
                            ..old(self)@
                        })
                        &&& r == Err::<Arc<Vec<u8>>, String>(e)
                    },
                },
            },
            final(self)@ == old(self)@.after(
                generation,
                match fetched {
                    Ok(data) => CacheEvent::Fetched { idx, lock: 0, data: data@ },
                    Err(_) => CacheEvent::Failed(idx),
                },
            ),
    {
        match &mut self.state {
            Some(f) => {
                if f.generation != generation {
                    return Err(SUPERSEDED.to_owned());
                }
                match fetched {
                    Ok(data) => Ok(f.put_block(idx, data)),
                    Err(e) => {
                        f.locks.remove(&idx);
                        Err(e)
                    },
                }
            },
            None => Err(SUPERSEDED.to_owned()),
        }
    }

    /// Starts a read-ahead chain behind a response that ended in block `base`,
    /// retiring older chains. `None` when a different file has taken over.
    pub fn start_readahead(&mut self, generation: u64, base: u64) -> (r: Option<ReadAhead>)
        requires
            old(self)@.wf(),
        ensures
            final(self)@.wf(),
            match old(self)@.current(generation) {
                None => *final(self) == *old(self) && r is None,
                Some(f) => {
                    &&& final(self)@ == (EngineView {
                        file: Some(FileView { last_block: base, ..f }),
                        ..old(self)@
                    })
                    &&& r == Some(ReadAhead { generation, base, taken: 0, over: false })
                },
            },
            final(self)@ == old(self)@.after(generation, CacheEvent::Ended(base)),
    {
        match &mut self.state {
            Some(f) => {
                if f.generation != generation {
                    return None;
                }
                f.last_block = base;
                Some(ReadAhead { generation, base, taken: 0, over: false })
            },
            None => None,
        }
    }
}

// =====================================================================
// Read-ahead
// =====================================================================

/// A chain of background fetches: the blocks after `base`, one at a time.
pub struct ReadAhead {
    pub generation: u64,
    pub base: u64,
    /// How many blocks the chain has asked for.
    pub taken: u64,
    /// The chain has come to its end.
    pub over: bool,
}

impl ReadAhead {
    /// The block the chain asks for next, as long as no newer response, no other file and
    /// no failed fetch has retired it, the file goes on, and the chain is not at its end.
    pub open spec fn wants(self, e: EngineView) -> Option<int> {
        if !self.over && self.taken < READAHEAD_BLOCKS && e.current(self.generation) is Some && e.current(
            self.generation,
        )->0.last_block == self.base && (self.base + self.taken + 1) * BLOCK < e.current(
            self.generation,
        )->0.total {
            Some(self.base + self.taken + 1)
        } else {
            None
        }
    }

    /// The chain after it was asked for its next block.
    pub open spec fn asked(self, e: EngineView) -> ReadAhead {
        if self.wants(e) is Some {
            ReadAhead { taken: (self.taken + 1) as u64, ..self }
        } else {
            ReadAhead { over: true, ..self }
        }
    }

    /// The chain after the fetch of the block it asked for.
    pub open spec fn served(self, failed: bool) -> ReadAhead {
        ReadAhead { over: self.over || failed, ..self }
    }

    /// Takes note of what came of the block that the chain asked for: a failed fetch ends
    /// the chain.
    pub fn fetched(&mut self, block: &Result<Arc<Vec<u8>>, String>)
        ensures
            *final(self) == old(self).served(block is Err),
    {
        if block.is_err() {
            self.over = true;
        }
    }

    /// The next block to warm, or `None` when the chain is over.
    pub fn next(&mut self, engine: &Engine) -> (r: Option<u64>)
        ensures
            *final(self) == old(self).asked(engine@),
            match old(self).wants(engine@) {
                Some(idx) => r == Some(idx as u64) && idx <= u64::MAX,
                None => r is None,
            },
    {
        let next = self.upcoming(engine);
        match next {
            Some(_) => {
                self.taken = self.taken + 1;
            },
            None => {
                self.over = true;
            },
        }
        next
    }

    fn upcoming(&self, engine: &Engine) -> (r: Option<u64>)
        ensures
            match self.wants(engine@) {
                Some(idx) => r == Some(idx as u64) && idx <= u64::MAX,
                None => r is None,
            },
    {
        if self.over || self.taken >= READAHEAD_BLOCKS {
            return None;
        }
        match &engine.state {
            Some(f) => {
                if f.generation != self.generation || f.last_block != self.base || f.total == 0 {
                    return None;
                }
                let last: u64 = (f.total - 1) / BLOCK;
                proof {
                    lemma_blocks(self.base + self.taken + 1);
                    lemma_block_of(f.total - 1);
                }
                if self.base >= last || last - self.base <= self.taken {
                    return None;
                }
                Some(self.base + self.taken + 1)
            },
            None => None,
        }
    }
}

// =====================================================================
// Requests and responses
// =====================================================================

/// What a protocol request asks of a file.
pub struct StreamRequest {
    /// The method is `HEAD`.
    pub head: bool,
    /// The text of the `Range` header, if there is one that is readable as text.
    pub range: Option<String>,
}

/// A response: its status, the headers that are set, and its body.
pub struct StreamResponse {
    pub status: u16,
    pub content_type: Option<String>,
    pub content_length: Option<u64>,
    /// `Accept-Ranges: bytes` is set.
    pub accept_ranges: bool,
    pub content_range: Option<String>,
    pub body: Vec<u8>,
}

/// What a [`StreamResponse`] says.
#[verifier::ext_equal]
pub struct ResponseView {
    pub status: u16,
    pub content_type: Option<Seq<char>>,
    pub content_length: Option<u64>,
    pub accept_ranges: bool,
    pub content_range: Option<Seq<char>>,
    pub body: Seq<u8>,
}

/// The contents of an optional string.
pub open spec fn opt_view(s: Option<String>) -> Option<Seq<char>> {
    match s {
        Some(s) => Some(s@),
        None => None,
    }
}

impl View for StreamResponse {
    type V = ResponseView;

    open spec fn view(&self) -> ResponseView {
        ResponseView {
            status: self.status,
            content_type: opt_view(self.content_type),
            content_length: self.content_length,
            accept_ranges: self.accept_ranges,
            content_range: opt_view(self.content_range),
            body: self.body@,
        }
    }
}

/// A response that says nothing but its status.
pub open spec fn bare(status: u16) -> ResponseView {
    ResponseView {
        status,
        content_type: None,
        content_length: None,
        accept_ranges: false,
        content_range: None,
        body: Seq::empty(),
    }
}

/// A header value can hold `s`: no control character but the tab.
pub open spec fn header_text(s: Seq<char>) -> bool {
    forall|i: int|
        0 <= i < s.len() ==> (#[trigger] s[i] >= ' ' && s[i] != '\u{7f}') || s[i] == '\t'
}

/// The answer to a `HEAD` request: size and type, no body.
pub open spec fn head_response(total: u64, content_type: Seq<char>) -> ResponseView {
    if header_text(content_type) {
        ResponseView {
            status: 200,
            content_type: Some(content_type),
            content_length: Some(total),
            accept_ranges: true,
            content_range: None,
            body: Seq::empty(),
        }
    } else {
        bare(500)
    }
}

/// The answer to a range that begins past the end.
pub open spec fn unsatisfiable(total: u64) -> ResponseView {
    ResponseView {
        content_range: Some("bytes */"@ + text::decimal(total as nat)),
        ..bare(416)
    }
}

/// The answer with the bytes from `start` on, which are not none.
pub open spec fn partial_response(
    start: int,
    total: u64,
    content_type: Seq<char>,
    body: Seq<u8>,
) -> ResponseView {
    if header_text(content_type) {
        ResponseView {
            status: 206,
            content_type: Some(content_type),
            content_length: Some(body.len() as u64),
            accept_ranges: true,
            content_range: Some(
                "bytes "@ + text::decimal(start as nat) + "-"@ + text::decimal(
                    (start + body.len() - 1) as nat,
                ) + "/"@ + text::decimal(total as nat),
            ),
            body,
        }
    } else {
        bare(500)
    }
}

/// A response that says nothing but its status.
pub fn status_only(status: u16) -> (r: StreamResponse)
    ensures
        r@ == bare(status),
{
    StreamResponse {
        status,
        content_type: None,
        content_length: None,
        accept_ranges: false,
        content_range: None,
        body: Vec::new(),
    }
}

/// Whether a header value can hold `s`.
pub fn is_header_text(s: &str) -> (r: bool)
    ensures
        r == header_text(s@),
{
    let v = text::chars_of(s);
    let n: usize = v.len();
    let mut i: usize = 0;
    while i < n
        invariant
            0 <= i <= n,
            n == v@.len(),
            v@ == s@,
            forall|j: int|
                0 <= j < i ==> (#[trigger] s@[j] >= ' ' && s@[j] != '\u{7f}') || s@[j] == '\t',
        decreases n - i,
    {
        let c = v[i];
        if !((c >= ' ' && c != '\u{7f}') || c == '\t') {
            assert(s@[i as int] == c);
            return false;
        }
        i = i + 1;
    }
    true
}

/// What a `Range` header asks for: where to start, and where to end if it says so.
/// Anything unreadable asks for the whole file.
pub open spec fn requested_range(raw: Option<Seq<char>>) -> (u64, Option<u64>) {
    match raw {
        None => (0, None),
        Some(raw) => match text::strip_prefix(raw, "bytes="@) {
            None => (0, None),
            Some(spec) => match text::split_once(spec, seq!['-']) {
                None => (0, None),
                Some((a, b)) => (
                    match text::parse_decimal(text::trim(a)) {
                        Some(n) => n,
                        None => 0,
                    },
                    text::parse_decimal(text::trim(b)),
                ),
            },
        },
    }
}

/// Parse the request's Range header into (start, optional end). Defaults to (0, None).
pub fn parse_req_range(raw: Option<&str>) -> (r: (u64, Option<u64>))
    ensures
        r == requested_range(
            match raw {
                Some(s) => Some(s@),
                None => None,
            },
        ),
{
    let raw = match raw {
        Some(s) => s,
        None => {
            return (0, None);
        },
    };
    let spec = match text::without_prefix(raw, "bytes=") {
        Some(s) => s,
        None => {
            return (0, None);
        },
    };
    let (a, b) = match text::split_once_char(spec, '-') {
        Some(parts) => parts,
        None => {
            return (0, None);
        },
    };
    let start: u64 = match text::parse_u64(text::trimmed(a)) {
        Some(n) => n,
        None => 0,
    };
    (start, text::parse_u64(text::trimmed(b)))
}

/// The `Range` header that asks for the inclusive byte range `[start, end]`.
pub open spec fn range_text(start: u64, end: u64) -> Seq<char> {
    "bytes="@ + text::decimal(start as nat) + "-"@ + text::decimal(end as nat)
}

/// The `Range` header that asks for the inclusive byte range `[start, end]`.
pub fn range_header(start: u64, end: u64) -> (r: String)
    ensures
        r@ == range_text(start, end),
{
    let mut r: String = "bytes=".to_owned();
    r.append(text::decimal_of(start).as_str());
    r.append("-");
    r.append(text::decimal_of(end).as_str());
    r
}

// =====================================================================
// Serving
// =====================================================================

/// The answer to a request, or the bytes that have to be put together for it.
pub enum ServeStep {
    Reply(StreamResponse),
    Assemble(Assembly),
}

/// What a response under assembly needs next.
#[derive(Clone, Copy, PartialEq, Eq, Structural)]
pub enum Want {
    /// Nothing: the response is complete.
    Nothing,
    /// This block, whatever it takes.
    Await(u64),
    /// This block, if it is already cached.
    IfCached(u64),
}

/// A response under assembly: the bytes `[start..=end]` of a file.
///
/// An explicit-end request is satisfied in full (the media stack uses those for
/// small probes and expects every byte); an open-ended one waits for at most its
/// first block and then takes only what's already cached, so slow networks still
/// get bytes flowing after a single fetch.
pub struct Assembly {
    total: u64,
    content_type: String,
    generation: u64,
    start: u64,
    end: u64,
    open_ended: bool,
    body: Vec<u8>,
    over: bool,
}

/// What an [`Assembly`] holds.
#[verifier::ext_equal]
pub struct AssemblyView {
    pub total: u64,
    pub content_type: Seq<char>,
    pub generation: u64,
    pub start: u64,
    /// The last byte asked for.
    pub end: u64,
    pub open_ended: bool,
    pub body: Seq<u8>,
    /// No block can add to the body any more.
    pub over: bool,
}

/// How a request for a file of `total` bytes is answered.
pub enum Plan {
    Reply(ResponseView),
    Assemble { start: u64, end: u64, open_ended: bool },
}

/// The plan for a request: `HEAD` gives size and type, an empty file and a start
/// past the end are refused, and everything else is a range that ends where the
/// request says, or at the open-ended ceiling, or with the file.
pub open spec fn plan(
    total: u64,
    content_type: Seq<char>,
    head: bool,
    range: (u64, Option<u64>),
) -> Plan {
    if head {
        Plan::Reply(head_response(total, content_type))
    } else if total == 0 {
        Plan::Reply(bare(500))
    } else if range.0 >= total {
        Plan::Reply(unsatisfiable(total))
    } else {
        let last = match range.1 {
            Some(e) => e as int,
            None => range.0 + OPEN_ENDED_CAP - 1,
        };
        Plan::Assemble {
            start: range.0,
            end: if last < total - 1 {
                last as u64
            } else {
                (total - 1) as u64
            },
            open_ended: range.1 is None,
        }
    }
}

/// The bytes of block `idx` of a file.
pub open spec fn source_block(source: Seq<u8>, idx: int) -> Seq<u8> {
    let (first, last) = block_range(idx, source.len() as int);
    source.subrange(first, last + 1)
}

impl AssemblyView {
    /// The range lies in the file, and the body does not go past it.
    pub open spec fn wf(self) -> bool {
        self.start <= self.end < self.total && self.start + self.body.len() <= self.end + 1
    }

    /// The first byte that is still missing.
    pub open spec fn pos(self) -> int {
        self.start + self.body.len()
    }

    /// The block that byte is in.
    pub open spec fn block(self) -> int {
        self.pos() / (BLOCK as int)
    }

    /// What is needed next.
    pub open spec fn want(self) -> Want {
        if self.over || self.pos() > self.end {
            Want::Nothing
        } else if self.open_ended && self.body.len() > 0 {
            Want::IfCached(self.block() as u64)
        } else {
            Want::Await(self.block() as u64)
        }
    }

    /// The assembly after the wanted block came, or turned out not to be cached. A
    /// block that ends before the missing byte is the short end of the file.
    pub open spec fn supplied(self, block: Option<Seq<u8>>) -> AssemblyView {
        match block {
            None => AssemblyView { over: true, ..self },
            Some(data) => {
                let first = self.block() * BLOCK;
                let stop = if self.end + 1 < first + data.len() {
                    self.end + 1
                } else {
                    first + data.len()
                };
                if self.pos() >= first + data.len() {
                    AssemblyView { over: true, ..self }
                } else {
                    AssemblyView {
                        body: self.body + data.subrange(self.pos() - first, stop - first),
                        ..self
                    }
                }
            },
        }
    }

    /// The response that the bytes put together make.
    pub open spec fn response(self) -> ResponseView {
        if self.body.len() == 0 {
            bare(500)
        } else {
            partial_response(self.start as int, self.total, self.content_type, self.body)
        }
    }
}

impl View for Assembly {
    type V = AssemblyView;

    closed spec fn view(&self) -> AssemblyView {
        AssemblyView {
            total: self.total,
            content_type: self.content_type@,
            generation: self.generation,
            start: self.start,
            end: self.end,
            open_ended: self.open_ended,
            body: self.body@,
            over: self.over,
        }
    }
}

impl Engine {
    /// Serve one protocol request for the file that `meta` describes. A source that
    /// would not describe it is a bad gateway.
    pub fn serve(meta: Result<Meta, String>, request: &StreamRequest) -> (r: ServeStep)
        requires
            meta matches Ok(m) ==> plan(
                m.total,
                m.content_type@,
                request.head,
                requested_range(opt_view(request.range)),
            ) matches Plan::Assemble { start, end, open_ended } ==> start <= end,
        ensures
            match meta {
                Err(_) => r matches ServeStep::Reply(resp) && resp@ == bare(502),
                Ok(m) => match plan(
                    m.total,
                    m.content_type@,
                    request.head,
                    requested_range(opt_view(request.range)),
                ) {
                    Plan::Reply(view) => r matches ServeStep::Reply(resp) && resp@ == view,
                    Plan::Assemble { start, end, open_ended } => r matches ServeStep::Assemble(a)
                        && a@.wf() && a@ == (AssemblyView {
                        total: m.total,
                        content_type: m.content_type@,
                        generation: m.generation,
                        start,
                        end,
                        open_ended,
                        body: Seq::empty(),
                        over: false,
                    }),
                },
            },
    {
        let meta = match meta {
            Ok(m) => m,
            Err(_) => {
                return ServeStep::Reply(status_only(502));
            },
        };
        let total: u64 = meta.total;
        if request.head {
            if !is_header_text(meta.content_type.as_str()) {
                return ServeStep::Reply(status_only(500));
            }
            return ServeStep::Reply(
                StreamResponse {
                    status: 200,
                    content_type: Some(meta.content_type),
                    content_length: Some(total),
                    accept_ranges: true,
                    content_range: None,
                    body: Vec::new(),
                },
            );
        }
        if total == 0 {
            return ServeStep::Reply(status_only(500));
        }
        let raw: Option<&str> = match &request.range {
            Some(s) => Some(s.as_str()),
            None => None,
        };
        let (start, end_opt) = parse_req_range(raw);
        if start >= total {
            let mut range: String = "bytes */".to_owned();
            range.append(text::decimal_of(total).as_str());
            return ServeStep::Reply(
                StreamResponse {
                    status: 416,
                    content_type: None,
                    content_length: None,
                    accept_ranges: false,
                    content_range: Some(range),
                    body: Vec::new(),
                },
            );
        }
        let open_ended: bool = end_opt.is_none();
        let last: u64 = match end_opt {
            Some(e) => e,
            None => if total - start > OPEN_ENDED_CAP {
                start + OPEN_ENDED_CAP - 1
            } else {
                total - 1
            },
        };
        let end: u64 = if last < total - 1 {
            last
        } else {
            total - 1
        };
        ServeStep::Assemble(
            Assembly {
                total,
                content_type: meta.content_type,
                generation: meta.generation,
                start,
                end,
                open_ended,
                body: Vec::new(),
                over: false,
            },
        )
    }
}

impl Assembly {
    /// The cache reset that the file belongs to.
    pub fn generation(&self) -> (r: u64)
        ensures
            r == self@.generation,
    {
        self.generation
    }

    /// What is needed next.
    pub fn want(&self) -> (r: Want)
        requires
            self@.wf(),
        ensures
            r == self@.want(),
    {
        let pos: u64 = self.start + self.body.len() as u64;
        if self.over || pos > self.end {
            Want::Nothing
        } else if self.open_ended && !self.body.is_empty() {
            Want::IfCached(pos / BLOCK)
        } else {
            Want::Await(pos / BLOCK)
        }
    }

    /// Takes the wanted block, or `None` for one that is wanted only if cached and
    /// is not.
    #[verifier::spinoff_prover]
    pub fn supply(&mut self, block: Option<&Vec<u8>>)
        requires
            old(self)@.wf(),
            !(old(self)@.want() is Nothing),
            block is None ==> old(self)@.want() is IfCached,
        ensures
            final(self)@.wf(),
            final(self)@ == old(self)@.supplied(
                match block {
                    Some(b) => Some(b@),
                    None => None,
                },
            ),
    {
        let data = match block {
            Some(b) => b,
            None => {
                self.over = true;
                return;
            },
        };
        let pos: u64 = self.start + self.body.len() as u64;
        let idx: u64 = pos / BLOCK;
        proof {
            lemma_block_of(pos as int);
            lemma_blocks(idx as int);
            assert(idx == pos as int / 2097152);
            assert(idx * 2097152 <= pos);
        }
        let off: u64 = pos - idx * BLOCK;
        if off >= data.len() as u64 {
            self.over = true;
            return;
        }
        let wanted: u64 = self.end - pos + 1;
        let there: u64 = data.len() as u64 - off;
        let len: u64 = if wanted < there {
            wanted
        } else {
            there
        };
        let part = vstd::slice::slice_subrange(data.as_slice(), off as usize, (off + len) as usize);
        let ghost before = self.body@;
        self.body.extend_from_slice(part);
        assert(self.body@ =~= before + data@.subrange(off as int, off + len));
    }

    /// The response to a request whose block could not be fetched.
    pub fn fail(self) -> (r: StreamResponse)
        ensures
            r@ == bare(502),
    {
        status_only(502)
    }

    /// The response, and the block it ended in when read-ahead should follow it.
    pub fn finish(self) -> (r: (StreamResponse, Option<u64>))
        requires
            self@.wf(),
            self@.want() is Nothing,
        ensures
            r.0@ == self@.response(),
            r.1 == (if self@.body.len() == 0 {
                None
            } else {
                Some(((self@.pos() - 1) / (BLOCK as int)) as u64)
            }),
            r.1 matches Some(base) ==> base * BLOCK < self@.pos() <= (base + 1) * BLOCK,
    {
        if self.body.is_empty() {
            return (status_only(500), None);
        }
        let actual_end: u64 = self.start + (self.body.len() as u64 - 1);
        let base: u64 = actual_end / BLOCK;
        proof {
            lemma_block_of(actual_end as int);
            lemma_blocks(base as int);
            lemma_blocks(base + 1);
        }
        if !is_header_text(self.content_type.as_str()) {
            return (status_only(500), Some(base));
        }
        let mut range: String = "bytes ".to_owned();
        range.append(text::decimal_of(self.start).as_str());
        range.append("-");
        range.append(text::decimal_of(actual_end).as_str());
        range.append("/");
        range.append(text::decimal_of(self.total).as_str());
        let length: u64 = self.body.len() as u64;
        let response = StreamResponse {
            status: 206,
            content_type: Some(self.content_type),
            content_length: Some(length),
            accept_ranges: true,
            content_range: Some(range),
            body: self.body,
        };
        (response, Some(base))
    }
}

// =====================================================================
// Laws
// =====================================================================

impl FileView {
    /// Every cached block holds the bytes that `source` has there.
    pub open spec fn holds(self, source: Seq<u8>) -> bool {
        forall|i: u64|
            self.blocks.contains_key(i) ==> #[trigger] self.blocks[i] == source_block(
                source,
                i as int,
            )
    }
}

/// A cache fed with a file's own blocks holds nothing but the file's own bytes.
pub proof fn law_cache_holds_source(f: FileView, source: Seq<u8>, idx: u64)
    requires
        f.wf(),
        f.holds(source),
    ensures
        f.with_block(idx, source_block(source, idx as int)).wf(),
        f.with_block(idx, source_block(source, idx as int)).holds(source),
{
    lemma_with_block_wf(f, idx, source_block(source, idx as int));
}

/// A block that was just taken in is cached, the cache never holds more than
/// `MAX_BLOCKS` blocks, and the only block that can leave is the oldest one.
pub proof fn law_fifo(f: FileView, idx: u64, data: Seq<u8>)
    requires
        f.wf(),
    ensures
        f.with_block(idx, data).blocks.contains_key(idx),
        f.with_block(idx, data).blocks[idx] == data,
        f.with_block(idx, data).blocks.dom().finite(),
        f.with_block(idx, data).blocks.len() <= MAX_BLOCKS,
        forall|i: u64|
            f.blocks.contains_key(i) && i != idx && !(f.order.len() == MAX_BLOCKS && i == f.order[0]
                && !f.blocks.contains_key(idx)) ==> #[trigger] f.with_block(
                idx,
                data,
            ).blocks.contains_key(i) && f.with_block(idx, data).blocks[i] == f.blocks[i],
{
    let g = f.with_block(idx, data);
    lemma_with_block_wf(f, idx, data);
    assert(f.order.len() > 0 ==> f.order.contains(f.order[0]));
    assert(g.blocks.dom() =~= g.order.to_set());
    g.order.unique_seq_to_set();
}

/// Two callers who miss the same block, with no fetch of it finishing in between,
/// queue on the same lock.
pub proof fn law_one_lock_per_block(e: EngineView, idx: u64)
    requires
        e.file is Some,
    ensures
        e.with_lock(idx).with_lock(idx) == e.with_lock(idx),
        e.with_lock(idx).file->0.locks.contains_key(idx),
{
}

/// A caller who queued behind a fetch that succeeded finds the block cached and does not
/// fetch it again.
pub proof fn law_waiters_share_the_fetch(
    e: EngineView,
    generation: u64,
    idx: u64,
    data: Seq<u8>,
)
    requires
        e.wf(),
        e.current(generation) is Some,
    ensures
        ({
            let after = EngineView {
                file: Some(e.current(generation)->0.with_block(idx, data)),
                ..e
            };
            after.cached(generation, idx) == Some(data)
        }),
{
    law_fifo(e.current(generation)->0, idx, data);
}

/// What happens to the streaming file's cache, one step of one caller at a time.
pub enum CacheEvent {
    /// A caller asked for this block.
    Asked(u64),
    /// A caller who queued for block `idx` got the lock.
    Held { idx: u64, lock: u64 },
    /// The caller who held the lock fetched block `idx`, and its bytes came in.
    Fetched { idx: u64, lock: u64, data: Seq<u8> },
    /// The fetch of this block failed.
    Failed(u64),
    /// A response ended in this block.
    Ended(u64),
}

impl EngineView {
    /// The engine after one step.
    pub open spec fn after(self, generation: u64, event: CacheEvent) -> EngineView {
        match self.current(generation) {
            None => self,
            Some(f) => match event {
                CacheEvent::Asked(idx) => if f.blocks.contains_key(idx) {
                    self
                } else {
                    self.with_lock(idx)
                },
                CacheEvent::Held { idx, lock } => self,
                CacheEvent::Fetched { idx, lock, data } => EngineView {
                    file: Some(f.with_block(idx, data)),
                    ..self
                },
                CacheEvent::Failed(idx) => EngineView {
                    file: Some(FileView { locks: f.locks.remove(idx), ..f }),
                    ..self
                },
                CacheEvent::Ended(base) => EngineView {
                    file: Some(FileView { last_block: base, ..f }),
                    ..self
                },
            },
        }
    }

    /// The engine after all the steps of a history.
    pub open spec fn after_all(self, generation: u64, history: Seq<CacheEvent>) -> EngineView
        decreases history.len(),
    {
        if history.len() == 0 {
            self
        } else {
            self.after_all(generation, history.drop_last()).after(generation, history.last())
        }
    }

    /// The blocks that came into the cache, in the order in which they came: those that were
    /// fetched while they were not cached.
    pub open spec fn entered(self, generation: u64, history: Seq<CacheEvent>) -> Seq<u64>
        decreases history.len(),
    {
        if history.len() == 0 {
            Seq::empty()
        } else {
            let earlier = self.entered(generation, history.drop_last());
            match history.last() {
                CacheEvent::Fetched { idx, lock, data } => if self.after_all(
                    generation,
                    history.drop_last(),
                ).cached(generation, idx) is None {
                    earlier.push(idx)
                } else {
                    earlier
                },
                _ => earlier,
            }
        }
    }
}

/// The bytes that the last fetch of block `idx` brought.
pub open spec fn latest(history: Seq<CacheEvent>, idx: u64) -> Option<Seq<u8>>
    decreases history.len(),
{
    if history.len() == 0 {
        None
    } else {
        match history.last() {
            CacheEvent::Fetched { idx: i, lock, data } => if i == idx {
                Some(data)
            } else {
                latest(history.drop_last(), idx)
            },
            _ => latest(history.drop_last(), idx),
        }
    }
}

/// The last `n` of a sequence, or all of it where it has fewer.
pub open spec fn last_of(s: Seq<u64>, n: int) -> Seq<u64> {
    if s.len() <= n {
        s
    } else {
        s.skip(s.len() - n)
    }
}

/// Whatever was asked for, fetched or missed since a file started with an empty cache: the
/// cached blocks are exactly the last `MAX_BLOCKS` that came in, oldest first, each with the
/// bytes of its last fetch.
pub proof fn law_cache_is_what_came_last(
    e: EngineView,
    generation: u64,
    history: Seq<CacheEvent>,
)
    requires
        e.wf(),
        e.current(generation) matches Some(f) && f.order.len() == 0,
    ensures
        e.after_all(generation, history).wf(),
        e.after_all(generation, history).current(generation) matches Some(f) && f.order == last_of(
            e.entered(generation, history),
            MAX_BLOCKS as int,
        ),
        forall|idx: u64|
            last_of(e.entered(generation, history), MAX_BLOCKS as int).contains(idx) ==> latest(
                history,
                idx,
            ) is Some && #[trigger] e.after_all(generation, history).cached(generation, idx)
                == latest(history, idx),
        forall|idx: u64|
            !last_of(e.entered(generation, history), MAX_BLOCKS as int).contains(idx)
                ==> #[trigger] e.after_all(generation, history).cached(generation, idx) is None,
    decreases history.len(),
{
    if history.len() > 0 {
        let rest = history.drop_last();
        law_cache_is_what_came_last(e, generation, rest);
        let before = e.after_all(generation, rest);
        let f = before.current(generation)->0;
        let came = e.entered(generation, rest);
        let after = e.after_all(generation, history);
        let g = after.current(generation)->0;
        assert forall|idx: u64| #[trigger] f.blocks.contains_key(idx) implies before.cached(
            generation,
            idx,
        ) == Some(f.blocks[idx]) by {}
        match history.last() {
            CacheEvent::Fetched { idx, lock, data } => {
                lemma_with_block_wf(f, idx, data);
                law_fifo(f, idx, data);
                assert(g == f.with_block(idx, data));
                if !f.blocks.contains_key(idx) {
                    assert(e.entered(generation, history) == came.push(idx));
                    assert(g.order =~= last_of(came.push(idx), MAX_BLOCKS as int));
                }
                assert forall|i: u64| g.order.contains(i) implies latest(history, i) is Some
                    && #[trigger] after.cached(generation, i) == latest(history, i) by {
                    assert(g.blocks.contains_key(i));
                    if i != idx {
                        assert(f.blocks.contains_key(i));
                        assert(f.order.contains(i));
                        assert(before.cached(generation, i) == latest(rest, i));
                    }
                }
                assert forall|i: u64| !g.order.contains(i) implies #[trigger] after.cached(
                    generation,
                    i,
                ) is None by {
                    assert(!g.blocks.contains_key(i));
                }
            },
            _ => {
                assert(g.order == f.order && g.blocks == f.blocks);
                assert forall|i: u64| #[trigger]
                    after.cached(generation, i) == before.cached(generation, i) by {}
            },
        }
    }
}

/// Where only blocks that are not cached are fetched, the blocks come into the cache as they
/// are fetched: a history of nothing but such fetches leaves its own last `MAX_BLOCKS` blocks.
pub proof fn law_last_fetches_are_cached(
    e: EngineView,
    generation: u64,
    history: Seq<CacheEvent>,
)
    requires
        e.wf(),
        e.current(generation) matches Some(f) && f.order.len() == 0,
        forall|n: int|
            0 <= n < history.len() ==> (#[trigger] history[n] matches CacheEvent::Fetched {
                idx,
                ..
            } && e.after_all(generation, history.take(n)).cached(generation, idx) is None),
    ensures
        e.entered(generation, history) == history.map_values(
            |event: CacheEvent| event->Fetched_idx,
        ),
    decreases history.len(),
{
    let picked = |event: CacheEvent| event->Fetched_idx;
    if history.len() > 0 {
        let rest = history.drop_last();
        assert(history.take(history.len() - 1) =~= rest);
        assert(history[history.len() - 1] == history.last());
        assert forall|n: int| 0 <= n < rest.len() implies (#[trigger] rest[n] matches
            CacheEvent::Fetched { idx, .. } && e.after_all(generation, rest.take(n)).cached(generation, idx) is None) by {
            assert(rest.take(n) =~= history.take(n));
            assert(rest[n] == history[n]);
        }
        law_last_fetches_are_cached(e, generation, rest);
        assert(history.map_values(picked) =~= rest.map_values(picked).push(
            picked(history.last()),
        ));
    }
    assert(e.entered(generation, history) =~= history.map_values(picked));
}

/// What an onlooker sees who watches the callers of one block.
#[verifier::ext_equal]
pub struct Watch {
    pub engine: EngineView,
    /// The locks that callers of the block were told to queue on.
    pub handed: Set<u64>,
    /// The locks whose holders are fetching the block.
    pub busy: Set<u64>,
    /// How many callers got a lock after queueing for the block.
    pub holders: nat,
    /// How many of them went on to fetch it.
    pub fetches: nat,
    /// What the fetch brought.
    pub got: Option<Seq<u8>>,
    /// What the callers were handed, one after the other.
    pub answers: Seq<Seq<u8>>,
    /// How many other blocks came in since.
    pub others: nat,
}

impl Watch {
    pub open spec fn start(engine: EngineView) -> Watch {
        Watch {
            engine,
            handed: Set::empty(),
            busy: Set::empty(),
            holders: 0,
            fetches: 0,
            got: None,
            answers: Seq::empty(),
            others: 0,
        }
    }

    /// A step that can happen: a caller holds no lock but one that was handed out and that no
    /// one else holds, only a holder that found the block missing fetches it, and that fetch
    /// does not fail.
    pub open spec fn possible(self, idx: u64, event: CacheEvent) -> bool {
        match event {
            CacheEvent::Held { idx: i, lock } => i == idx ==> self.handed.contains(lock)
                && !self.busy.contains(lock),
            CacheEvent::Fetched { idx: i, lock, data } => i == idx ==> self.busy.contains(lock),
            CacheEvent::Failed(i) => i != idx,
            _ => true,
        }
    }

    /// What is seen after one more step.
    pub open spec fn seen(self, generation: u64, idx: u64, event: CacheEvent) -> Watch {
        let engine = self.engine.after(generation, event);
        match event {
            CacheEvent::Asked(i) => if i == idx {
                match self.engine.cached(generation, idx) {
                    None => Watch {
                        engine,
                        handed: self.handed.insert(engine.file->0.locks[idx]),
                        ..self
                    },
                    Some(data) => Watch { engine, answers: self.answers.push(data), ..self },
                }
            } else {
                Watch { engine, ..self }
            },
            CacheEvent::Held { idx: i, lock } => if i == idx {
                match self.engine.cached(generation, idx) {
                    None => Watch {
                        engine,
                        busy: self.busy.insert(lock),
                        holders: self.holders + 1,
                        fetches: self.fetches + 1,
                        ..self
                    },
                    Some(data) => Watch {
                        engine,
                        holders: self.holders + 1,
                        answers: self.answers.push(data),
                        ..self
                    },
                }
            } else {
                Watch { engine, ..self }
            },
            CacheEvent::Fetched { idx: i, lock, data } => if i == idx {
                Watch {
                    engine,
                    busy: self.busy.remove(lock),
                    got: Some(data),
                    answers: self.answers.push(data),
                    ..self
                }
            } else if self.got is Some {
                Watch { engine, others: self.others + 1, ..self }
            } else {
                Watch { engine, ..self }
            },
            _ => Watch { engine, ..self },
        }
    }

    /// What is seen of a whole history, if each of its steps is possible.
    pub open spec fn watched(
        engine: EngineView,
        generation: u64,
        idx: u64,
        history: Seq<CacheEvent>,
    ) -> Option<Watch>
        decreases history.len(),
    {
        if history.len() == 0 {
            Some(Watch::start(engine))
        } else {
            match Watch::watched(engine, generation, idx, history.drop_last()) {
                Some(w) => if w.possible(idx, history.last()) {
                    Some(w.seen(generation, idx, history.last()))
                } else {
                    None
                },
                None => None,
            }
        }
    }

    /// All callers queue on one lock, at most one of them fetches, and what it brought stays.
    spec fn settled(self, generation: u64, idx: u64) -> bool {
        &&& self.engine.wf()
        &&& self.engine.current(generation) is Some
        &&& self.busy.subset_of(self.handed)
        &&& self.holders > 0 ==> self.fetches == 1
        &&& forall|k: int|
            0 <= k < self.answers.len() ==> Some(#[trigger] self.answers[k]) == self.got
        &&& forall|a: u64, b: u64|
            #![trigger self.handed.contains(a), self.handed.contains(b)]
            self.handed.contains(a) && self.handed.contains(b) ==> a == b
        &&& match self.got {
            None => {
                &&& self.engine.cached(generation, idx) is None
                &&& self.fetches <= 1
                &&& self.fetches == 0 ==> self.busy == Set::<u64>::empty()
                &&& self.fetches == 1 ==> exists|l: u64| #[trigger] self.busy.contains(l)
                &&& forall|l: u64| #[trigger]
                    self.handed.contains(l) ==> self.engine.file->0.locks.contains_key(idx)
                        && self.engine.file->0.locks[idx] == l
            },
            Some(data) => {
                &&& self.engine.cached(generation, idx) == Some(data)
                &&& self.fetches == 1
                &&& self.busy == Set::<u64>::empty()
                &&& exists|p: int|
                    #![trigger self.engine.file->0.order[p]]
                    0 <= p < self.engine.file->0.order.len() && self.engine.file->0.order[p] == idx
                        && self.engine.file->0.order.len() - 1 - p <= self.others
            },
        }
    }
}

/// One more step keeps a watched block settled.
#[verifier::spinoff_prover]
proof fn lemma_settled(w: Watch, generation: u64, idx: u64, event: CacheEvent)
    requires
        w.settled(generation, idx),
        w.possible(idx, event),
        w.seen(generation, idx, event).others < MAX_BLOCKS,
    ensures
        w.seen(generation, idx, event).settled(generation, idx),
        w.got is Some ==> w.seen(generation, idx, event).got == w.got,
{
    let v = w.seen(generation, idx, event);
    let f = w.engine.file->0;
    let g = v.engine.file->0;
    let p = choose|p: int|
        #![trigger w.engine.file->0.order[p]]
        0 <= p < w.engine.file->0.order.len() && w.engine.file->0.order[p] == idx
            && w.engine.file->0.order.len() - 1 - p <= w.others;
    match event {
        CacheEvent::Held { idx: i, lock } => {
            if i == idx && w.got is None {
                if w.fetches == 1 {
                    let l = choose|l: u64| #[trigger] w.busy.contains(l);
                    assert(w.handed.contains(l) && w.handed.contains(lock));
                    assert(false);
                }
                assert(v.busy.contains(lock));
            }
        },
        CacheEvent::Fetched { idx: i, lock, data } => {
            lemma_with_block_wf(f, i, data);
            law_fifo(f, i, data);
            if i == idx {
                assert(w.busy.contains(lock));
                assert(w.got is None);
                assert forall|l: u64| !v.busy.contains(l) by {
                    if w.busy.contains(l) {
                        assert(w.handed.contains(l) && w.handed.contains(lock));
                    }
                }
                assert(v.busy =~= Set::<u64>::empty());
                assert(g.order[g.order.len() - 1] == idx);
            } else if w.got is Some {
                if !f.blocks.contains_key(i) && f.order.len() == MAX_BLOCKS {
                    assert(p > 0);
                    assert(f.order[0] != f.order[p]);
                    assert(g.order[p - 1] == idx);
                } else {
                    assert(g.order[p] == idx);
                }
                assert(g.blocks.contains_key(idx) && g.blocks[idx] == f.blocks[idx]);
            } else {
                assert(!g.blocks.contains_key(idx));
                assert(g.locks.contains_key(idx) == f.locks.contains_key(idx));
            }
        },
        _ => {
            assert(g.order == f.order && g.blocks == f.blocks);
            if w.got is Some {
                assert(g.order[p] == idx);
            }
        },
    }
    assert(v.engine.wf());
    assert(v.busy.subset_of(v.handed));
    assert forall|k: int| 0 <= k < v.answers.len() implies Some(#[trigger] v.answers[k])
        == v.got by {
        if k < w.answers.len() {
            assert(v.answers[k] == w.answers[k]);
        }
    }
    assert(forall|a: u64, b: u64|
        #![trigger v.handed.contains(a), v.handed.contains(b)]
        v.handed.contains(a) && v.handed.contains(b) ==> a == b);
    if v.got is None {
        assert(v.engine.cached(generation, idx) is None);
        assert(v.fetches == 0 ==> v.busy == Set::<u64>::empty());
        assert(v.fetches == 1 ==> exists|l: u64| #[trigger] v.busy.contains(l));
        assert(forall|l: u64| #[trigger]
            v.handed.contains(l) ==> v.engine.file->0.locks.contains_key(idx)
                && v.engine.file->0.locks[idx] == l);
    } else {
        assert(v.engine.cached(generation, idx) == v.got);
        assert(exists|q: int|
            #![trigger v.engine.file->0.order[q]]
            0 <= q < v.engine.file->0.order.len() && v.engine.file->0.order[q] == idx
                && v.engine.file->0.order.len() - 1 - q <= v.others);
    }
}

/// However many callers want a block that nobody has asked for yet: they all queue on one
/// lock, the source is asked for the block once, and every one of them is handed the bytes
/// that came of it, as long as fewer than `MAX_BLOCKS` other blocks have come in since. A
/// fetch that fails is another matter: the next in line tries again.
pub proof fn law_one_fetch_for_all(
    e: EngineView,
    generation: u64,
    idx: u64,
    history: Seq<CacheEvent>,
    earlier: int,
)
    requires
        e.wf(),
        e.current(generation) matches Some(f) && !f.blocks.contains_key(idx)
            && !f.locks.contains_key(idx),
        Watch::watched(e, generation, idx, history) matches Some(w) && w.others < MAX_BLOCKS,
        0 <= earlier <= history.len(),
    ensures
        ({
            let w = Watch::watched(e, generation, idx, history)->0;
            &&& w.engine == e.after_all(generation, history)
            &&& forall|a: u64, b: u64|
                #![trigger w.handed.contains(a), w.handed.contains(b)]
                w.handed.contains(a) && w.handed.contains(b) ==> a == b
            &&& w.fetches <= 1
            &&& w.holders > 0 ==> w.fetches == 1
            &&& w.engine.cached(generation, idx) == w.got
            &&& forall|k: int| 0 <= k < w.answers.len() ==> Some(#[trigger] w.answers[k]) == w.got
        }),
        Watch::watched(e, generation, idx, history.take(earlier)) matches Some(w) && (w.got is Some
            ==> e.after_all(generation, history).cached(generation, idx) == w.got),
{
    lemma_watched(e, generation, idx, history, earlier);
}

proof fn lemma_watched(
    e: EngineView,
    generation: u64,
    idx: u64,
    history: Seq<CacheEvent>,
    earlier: int,
)
    requires
        e.wf(),
        e.current(generation) matches Some(f) && !f.blocks.contains_key(idx)
            && !f.locks.contains_key(idx),
        Watch::watched(e, generation, idx, history) matches Some(w) && w.others < MAX_BLOCKS,
        0 <= earlier <= history.len(),
    ensures
        Watch::watched(e, generation, idx, history)->0.settled(generation, idx),
        Watch::watched(e, generation, idx, history)->0.engine == e.after_all(generation, history),
        Watch::watched(e, generation, idx, history.take(earlier)) matches Some(w) && (w.got is Some
            ==> Watch::watched(e, generation, idx, history)->0.got == w.got),
    decreases history.len(),
{
    if history.len() == 0 {
        assert(history.take(earlier) =~= history);
    } else {
        let rest = history.drop_last();
        let w = Watch::watched(e, generation, idx, rest)->0;
        if earlier == history.len() {
            assert(history.take(earlier) =~= history);
            lemma_watched(e, generation, idx, rest, 0);
        } else {
            assert(history.take(earlier) =~= rest.take(earlier));
            lemma_watched(e, generation, idx, rest, earlier);
        }
        lemma_settled(w, generation, idx, history.last());
    }
}

/// Queueing for one block leaves the locks of all others alone.
pub proof fn law_locks_are_independent(e: EngineView, idx: u64, other: u64)
    requires
        e.file is Some,
        idx != other,
    ensures
        e.with_lock(idx).file->0.locks.contains_key(other) == e.file->0.locks.contains_key(other),
        e.file->0.locks.contains_key(other) ==> e.with_lock(idx).file->0.locks[other]
            == e.file->0.locks[other],
{
}

/// Once a different file has started, nothing of the previous one is current any
/// more: its blocks are gone and its fetches and read-ahead chains find no file.
pub proof fn law_new_file_supersedes(
    e: EngineView,
    key: Seq<char>,
    total: u64,
    content_type: Seq<char>,
    idx: u64,
)
    requires
        e.wf(),
        e.file matches Some(f) && f.key != key,
    ensures
        e.with_meta(key, total, content_type).wf(),
        e.with_meta(key, total, content_type).current(e.file->0.generation) is None,
        e.with_meta(key, total, content_type).cached(e.file->0.generation, idx) is None,
        forall|chain: ReadAhead|
            chain.generation == e.file->0.generation ==> #[trigger] chain.wants(
                e.with_meta(key, total, content_type),
            ) is None,
{
}

/// A file that is asked for again keeps its cache.
pub proof fn law_same_file_keeps_cache(
    e: EngineView,
    key: Seq<char>,
    total: u64,
    content_type: Seq<char>,
)
    requires
        e.file matches Some(f) && f.key == key,
    ensures
        e.with_meta(key, total, content_type) == e,
{
}

/// A read-ahead chain asks for blocks of the file only, each after the last and
/// none more than `READAHEAD_BLOCKS` past its base; a newer response retires it.
pub proof fn law_readahead(chain: ReadAhead, e: EngineView)
    ensures
        chain.wants(e) matches Some(idx) ==> {
            &&& chain.base < idx <= chain.base + READAHEAD_BLOCKS
            &&& idx * BLOCK < e.current(chain.generation)->0.total
            &&& e.current(chain.generation)->0.last_block == chain.base
        },
{
}

/// A failed fetch ends a read-ahead chain, and so does the first time that it wants nothing:
/// from then on it asks for nothing, whatever becomes of the engine.
pub proof fn law_chain_ends_for_good(
    chain: ReadAhead,
    e: EngineView,
    later: EngineView,
    failed: bool,
)
    ensures
        chain.served(true).wants(later) is None,
        chain.wants(e) is None ==> chain.asked(e).wants(later) is None,
        chain.over ==> chain.asked(e).over && chain.served(failed).over,
{
}

/// A caller whose file is no longer the one that is streaming is refused at every step, with
/// the engine as it was, even where the newer file has a block with the same number cached.
pub proof fn law_stale_callers_are_refused(
    e: EngineView,
    generation: u64,
    idx: u64,
    event: CacheEvent,
)
    requires
        e.current(generation) is None,
    ensures
        e.cached(generation, idx) is None,
        e.after(generation, event) == e,
{
}

/// A fetch that fails leaves the cached blocks as they were, and the next caller of that
/// block queues and is told to fetch it.
pub proof fn law_failed_fetch_is_tried_again(e: EngineView, generation: u64, idx: u64, other: u64)
    requires
        e.current(generation) is Some,
        e.cached(generation, idx) is None,
    ensures
        ({
            let after = e.after(generation, CacheEvent::Failed(idx));
            let again = after.after(generation, CacheEvent::Asked(idx));
            &&& after.cached(generation, other) == e.cached(generation, other)
            &&& again == after.with_lock(idx)
            &&& again.file->0.locks.contains_key(idx)
            &&& again.cached(generation, idx) is None
        }),
{
}

/// What happens to an engine: a file is asked for, or something happens to a file's cache.
pub enum EngineEvent {
    File { key: Seq<char>, total: u64, content_type: Seq<char> },
    Cache { generation: u64, event: CacheEvent },
}

impl EngineView {
    /// The engine after a history of such events.
    pub open spec fn after_history(self, history: Seq<EngineEvent>) -> EngineView
        decreases history.len(),
    {
        if history.len() == 0 {
            self
        } else {
            let before = self.after_history(history.drop_last());
            match history.last() {
                EngineEvent::File { key, total, content_type } => before.with_meta(
                    key,
                    total,
                    content_type,
                ),
                EngineEvent::Cache { generation, event } => before.after(generation, event),
            }
        }
    }

    /// How many files took over in a history.
    pub open spec fn starts(self, history: Seq<EngineEvent>) -> nat
        decreases history.len(),
    {
        if history.len() == 0 {
            0
        } else {
            let earlier = self.starts(history.drop_last());
            let before = self.after_history(history.drop_last());
            match history.last() {
                EngineEvent::File { key, total, content_type } => if before.file is Some
                    && before.file->0.key == key {
                    earlier
                } else {
                    earlier + 1
                },
                _ => earlier,
            }
        }
    }
}

/// A file that takes over starts with a generation that no file had before it, and with an
/// empty cache; nothing of any earlier file is current any more. The generations are
/// numbered in 64 bits, so this holds for as many files.
#[verifier::spinoff_prover]
#[verifier::rlimit(40)]
pub proof fn law_every_start_is_new(
    e: EngineView,
    history: Seq<EngineEvent>,
    earlier: int,
    key: Seq<char>,
    total: u64,
    content_type: Seq<char>,
    idx: u64,
)
    requires
        e.wf(),
        0 <= earlier <= history.len(),
        e.starts(history) < u64::MAX,
        e.after_history(history).file matches Some(f) ==> f.key != key,
    ensures
        ({
            let new = e.after_history(history).with_meta(key, total, content_type);
            &&& new.wf()
            &&& new.file is Some
            &&& new.cached(new.file->0.generation, idx) is None
            &&& e.after_history(history.take(earlier)).file matches Some(f) ==> {
                &&& f.generation != new.file->0.generation
                &&& new.current(f.generation) is None
                &&& new.cached(f.generation, idx) is None
            }
        }),
{
    lemma_generations(e, history, history.len() as int);
    lemma_generations(e, history, earlier);
    assert(history.take(history.len() as int) =~= history);
}

/// The generation to come counts the files that took over.
proof fn lemma_generations(e: EngineView, history: Seq<EngineEvent>, n: int)
    requires
        e.wf(),
        0 <= n <= history.len(),
    ensures
        e.after_history(history.take(n)).wf(),
        e.after_history(history.take(n)).next_generation as int == (e.next_generation + e.starts(
            history.take(n),
        )) % 0x1_0000_0000_0000_0000,
        e.starts(history.take(n)) <= e.starts(history),
    decreases history.len(),
{
    let done = history.take(n);
    if n < history.len() {
        let rest = history.drop_last();
        assert(rest.take(n) =~= done);
        lemma_generations(e, rest, n);
    } else {
        assert(done =~= history);
        if n > 0 {
            let rest = history.drop_last();
            lemma_generations(e, rest, n - 1);
            assert(rest.take(n - 1) =~= rest);
            match history.last() {
                EngineEvent::Cache { generation, event } => {
                    let before = e.after_history(rest);
                    if let CacheEvent::Fetched { idx, lock, data } = event {
                        if before.current(generation) is Some {
                            lemma_with_block_wf(before.file->0, idx, data);
                        }
                    }
                },
                _ => {},
            }
        }
    }
}

impl AssemblyView {
    /// The body is what `source` has from the start of the range on.
    pub open spec fn copies(self, source: Seq<u8>) -> bool {
        &&& self.wf()
        &&& self.total == source.len()
        &&& self.body == source.subrange(self.start as int, self.pos())
    }

    /// The assembly once nothing is wanted any more, when awaited blocks come as
    /// `source` has them and `cached` says which ones are cached.
    pub open spec fn completed(self, source: Seq<u8>, cached: Set<u64>) -> AssemblyView
        decreases
                (if self.pos() <= self.end {
                    self.end + 1 - self.pos()
                } else {
                    0
                }),
    {
        let next = match self.want() {
            Want::Nothing => self,
            Want::Await(idx) => self.supplied(Some(source_block(source, idx as int))),
            Want::IfCached(idx) => if cached.contains(idx) {
                self.supplied(Some(source_block(source, idx as int)))
            } else {
                self.supplied(None)
            },
        };
        if next.pos() <= self.pos() || self.pos() > self.end {
            next
        } else {
            next.completed(source, cached)
        }
    }
}

/// The wanted block, as the file has it, brings the body forward by at least one
/// byte of the file, up to the end of the block or of the range.
pub proof fn law_supply_copies_source(a: AssemblyView, source: Seq<u8>)
    requires
        a.copies(source),
        !(a.want() is Nothing),
    ensures
        ({
            let b = a.supplied(Some(source_block(source, a.block())));
            &&& b.copies(source)
            &&& !b.over
            &&& b.pos() > a.pos()
            &&& b.pos() == a.end + 1 || b.pos() == block_range(
                a.block(),
                source.len() as int,
            ).1 + 1
        }),
{
    let idx = a.block();
    lemma_block_of(a.pos());
    lemma_blocks(idx);
    lemma_blocks(idx + 1);
    let (first, last) = block_range(idx, source.len() as int);
    let data = source_block(source, idx);
    assert(first <= a.pos() <= last);
    assert(data.len() == last + 1 - first);
    let stop = if a.end + 1 < first + data.len() {
        a.end + 1
    } else {
        first + data.len()
    };
    let b = a.supplied(Some(data));
    assert(b.body =~= source.subrange(a.start as int, stop)) by {
        assert(data.subrange(a.pos() - first, stop - first) =~= source.subrange(a.pos(), stop));
    }
}

/// A request with an explicit end is answered with exactly the bytes it asks for.
pub proof fn law_explicit_range_in_full(a: AssemblyView, source: Seq<u8>, cached: Set<u64>)
    requires
        a.copies(source),
        !a.open_ended,
        !a.over,
    ensures
        a.completed(source, cached).want() is Nothing,
        a.completed(source, cached).body == source.subrange(a.start as int, a.end + 1),
        a.completed(source, cached).response() == partial_response(
            a.start as int,
            a.total,
            a.content_type,
            source.subrange(a.start as int, a.end + 1),
        ),
    decreases a.end + 1 - a.pos(),
{
    if a.pos() <= a.end {
        law_supply_copies_source(a, source);
        let b = a.supplied(Some(source_block(source, a.block())));
        lemma_block_of(a.pos());
        law_explicit_range_in_full(b, source, cached);
    }
}

/// An open-ended request is answered with bytes of the file from its start on: at
/// least the rest of its first block, and no wait is needed for anything else.
pub proof fn law_open_ended_first_block(a: AssemblyView, source: Seq<u8>, cached: Set<u64>)
    requires
        a.copies(source),
        a.open_ended,
        !a.over,
        a.body.len() == 0,
    ensures
        ({
            let done = a.completed(source, cached);
            let first = block_range(a.block(), source.len() as int).1;
            &&& done.want() is Nothing
            &&& done.copies(source)
            &&& done.pos() - 1 >= first || done.pos() - 1 == a.end
            &&& done.response() == partial_response(
                a.start as int,
                a.total,
                a.content_type,
                source.subrange(a.start as int, done.pos()),
            )
        }),
        a.want() is Await,
        forall|b: AssemblyView| b.open_ended && #[trigger] b.want() is Await ==> b.body.len() == 0,
{
    law_supply_copies_source(a, source);
    lemma_block_of(a.pos());
    let b = a.supplied(Some(source_block(source, a.block())));
    lemma_completed_open_ended(b, source, cached);
}

proof fn lemma_completed_open_ended(a: AssemblyView, source: Seq<u8>, cached: Set<u64>)
    requires
        a.copies(source),
        a.open_ended,
        a.body.len() > 0,
        !a.over,
    ensures
        a.completed(source, cached).want() is Nothing,
        a.completed(source, cached).copies(source),
        a.completed(source, cached).pos() >= a.pos(),
        a.completed(source, cached).start == a.start,
        a.completed(source, cached).end == a.end,
        a.completed(source, cached).total == a.total,
        a.completed(source, cached).content_type == a.content_type,
    decreases a.end + 1 - a.pos(),
{
    if a.pos() <= a.end {
        lemma_block_of(a.pos());
        if cached.contains(a.block() as u64) {
            law_supply_copies_source(a, source);
            lemma_completed_open_ended(
                a.supplied(Some(source_block(source, a.block()))),
                source,
                cached,
            );
        }
    }
}

/// A cached block of a cache that holds a file's bytes is what a fetch of it would
/// bring, so it makes no difference where a block comes from.
pub proof fn law_cached_is_fetched(e: EngineView, generation: u64, idx: u64, source: Seq<u8>)
    requires
        e.current(generation) matches Some(f) && f.holds(source) && f.total == source.len(),
    ensures
        e.cached(generation, idx) matches Some(data) ==> data == ({
            let (first, last) = block_range(idx as int, source.len() as int);
            source.subrange(first, last + 1)
        }),
{
}

/// A range request for `[start, end]` of a file is answered with those bytes, as far
/// as the file has them, and with their place in it.
pub proof fn law_served_range(
    source: Seq<u8>,
    total: u64,
    content_type: Seq<char>,
    generation: u64,
    start: u64,
    end: u64,
    cached: Set<u64>,
)
    requires
        total == source.len(),
        start <= end,
        start < total,
    ensures
        ({
            let last = if end < total - 1 {
                end
            } else {
                (total - 1) as u64
            };
            let a = AssemblyView {
                total,
                content_type,
                generation,
                start,
                end: last,
                open_ended: false,
                body: Seq::empty(),
                over: false,
            };
            &&& plan(total, content_type, false, (start, Some(end))) == (Plan::Assemble {
                start,
                end: last,
                open_ended: false,
            })
            &&& a.completed(source, cached).response() == partial_response(
                start as int,
                total,
                content_type,
                source.subrange(start as int, last + 1),
            )
        }),
{
    let last = if end < total - 1 {
        end
    } else {
        (total - 1) as u64
    };
    let a = AssemblyView {
        total,
        content_type,
        generation,
        start,
        end: last,
        open_ended: false,
        body: Seq::empty(),
        over: false,
    };
    assert(a.body =~= source.subrange(start as int, start as int));
    law_explicit_range_in_full(a, source, cached);
}

/// A `Range` header that this library writes is read back as the range it was
/// written for.
pub proof fn law_range_header_round_trip(start: u64, end: u64)
    ensures
        requested_range(Some(range_text(start, end))) == (start, Some(end)),
{
    let a = text::decimal(start as nat);
    let b = text::decimal(end as nat);
    let raw = range_text(start, end);
    text::lemma_decimal_round_trip(start);
    text::lemma_decimal_round_trip(end);
    reveal_strlit("bytes=");
    reveal_strlit("-");
    let spec = a + "-"@ + b;
    assert(raw.take(6) =~= "bytes="@);
    assert(raw.skip(6) =~= spec);
    assert(spec[a.len() as int] == '-');
    text::lemma_occurs_char(spec, '-', a.len() as int);
    assert forall|j: int| 0 <= j < a.len() implies !text::occurs_at(spec, seq!['-'], j) by {
        text::lemma_occurs_char(spec, '-', j);
        assert(text::is_digit(a[j]));
    }
    text::lemma_find_from_is(spec, seq!['-'], 0, a.len() as int);
    assert(spec.take(a.len() as int) =~= a);
    assert(spec.skip(a.len() as int + 1) =~= b);
    text::lemma_trim_digits(a);
    text::lemma_trim_digits(b);
}

/// What a `Range` header asks for: the numbers before and after the first hyphen, with white
/// space around them or not. A start that is no number is the start of the file, and an end
/// that is none leaves the range open.
pub proof fn law_range_header(a: Seq<char>, b: Seq<char>)
    requires
        !a.contains('-'),
    ensures
        requested_range(Some("bytes="@ + a + "-"@ + b)) == (
            match text::parse_decimal(text::trim(a)) {
                Some(n) => n,
                None => 0,
            },
            text::parse_decimal(text::trim(b)),
        ),
{
    reveal_strlit("-");
    assert("-"@ =~= seq!['-']);
    let spec = a + seq!['-'] + b;
    assert("bytes="@ + a + "-"@ + b =~= "bytes="@ + spec);
    text::law_strip_prefix("bytes="@, spec, spec);
    text::law_split_once_char(a, '-', b);
}

/// Without a `Range` header, or with one that asks for no bytes or names no range, the whole
/// file is asked for.
pub proof fn law_no_range_is_everything(raw: Seq<char>)
    requires
        !text::starts_with(raw, "bytes="@) || !raw.contains('-'),
    ensures
        requested_range(Some(raw)) == (0u64, None::<u64>),
        requested_range(None) == (0u64, None::<u64>),
{
    if text::starts_with(raw, "bytes="@) {
        let spec = raw.skip("bytes="@.len() as int);
        text::law_split_once(spec, seq!['-']);
        assert forall|j: int| !text::occurs_at(spec, seq!['-'], j) by {
            text::lemma_occurs_char(spec, '-', j);
            if 0 <= j < spec.len() && spec[j] == '-' {
                assert(raw[j + "bytes="@.len()] == '-');
            }
        }
        if text::split_once(spec, seq!['-']) is Some {
            let (a, b) = text::split_once(spec, seq!['-'])->0;
            assert(spec[a.len() as int] == '-');
            text::lemma_occurs_char(spec, '-', a.len() as int);
        }
    }
}

/// A header `bytes=N-` asks for everything from byte N on.
pub proof fn law_open_ended_header(start: u64)
    ensures
        requested_range(Some("bytes="@ + text::decimal(start as nat) + "-"@)) == (
            start,
            None::<u64>,
        ),
{
    let a = text::decimal(start as nat);
    let none = Seq::<char>::empty();
    text::lemma_decimal_round_trip(start);
    if a.contains('-') {
        let i = choose|i: int| 0 <= i < a.len() && a[i] == '-';
        assert(text::is_digit(a[i]));
    }
    law_range_header(a, none);
    text::lemma_trim_digits(a);
    text::lemma_trim_digits(none);
    assert("bytes="@ + a + "-"@ + none =~= "bytes="@ + a + "-"@);
}

/// The first and the last byte and the size that a `Content-Range` header names.
pub open spec fn named_range(header: Seq<char>) -> Option<(u64, u64, u64)> {
    match text::strip_prefix(header, "bytes "@) {
        Some(spec) => match text::split_once(spec, seq!['-']) {
            Some((first, rest)) => match text::split_once(rest, seq!['/']) {
                Some((last, total)) => match (
                    text::parse_decimal(first),
                    text::parse_decimal(last),
                    text::parse_decimal(total),
                ) {
                    (Some(first), Some(last), Some(total)) => Some((first, last, total)),
                    _ => None,
                },
                None => None,
            },
            None => None,
        },
        None => None,
    }
}

/// A response with bytes of a file says which bytes they are, of how many, how many they are,
/// of which type, and that ranges are served. A type that no header can hold is an error.
pub proof fn law_partial_response(start: u64, total: u64, content_type: Seq<char>, body: Seq<u8>)
    requires
        body.len() > 0,
        start + body.len() <= total,
    ensures
        ({
            let r = partial_response(start as int, total, content_type, body);
            if header_text(content_type) {
                &&& r.status == 206
                &&& r.body == body
                &&& r.content_length == Some(body.len() as u64)
                &&& r.content_type == Some(content_type)
                &&& r.accept_ranges
                &&& r.content_range matches Some(header) && named_range(header) == Some(
                    (start, (start + body.len() - 1) as u64, total),
                )
            } else {
                r.status == 500 && r.body.len() == 0 && r.content_length is None
                    && r.content_range is None && r.content_type is None && !r.accept_ranges
            }
        }),
{
    let last = (start + body.len() - 1) as u64;
    let a = text::decimal(start as nat);
    let b = text::decimal(last as nat);
    let c = text::decimal(total as nat);
    text::lemma_decimal_round_trip(start);
    text::lemma_decimal_round_trip(last);
    text::lemma_decimal_round_trip(total);
    reveal_strlit("-");
    reveal_strlit("/");
    assert("-"@ =~= seq!['-']);
    assert("/"@ =~= seq!['/']);
    let rest = b + seq!['/'] + c;
    let spec = a + seq!['-'] + rest;
    let header = "bytes "@ + a + "-"@ + b + "/"@ + c;
    assert(header =~= "bytes "@ + spec);
    text::law_strip_prefix("bytes "@, spec, spec);
    if a.contains('-') {
        let i = choose|i: int| 0 <= i < a.len() && a[i] == '-';
        assert(text::is_digit(a[i]));
    }
    if b.contains('/') {
        let i = choose|i: int| 0 <= i < b.len() && b[i] == '/';
        assert(text::is_digit(b[i]));
    }
    text::law_split_once_char(a, '-', rest);
    text::law_split_once_char(b, '/', c);
}

/// The answers that hold no bytes: `HEAD` tells size and type, a start past the end is refused
/// with the size, an empty file and a type that no header can hold are errors.
pub proof fn law_replies_without_bytes(
    total: u64,
    content_type: Seq<char>,
    range: (u64, Option<u64>),
)
    ensures
        plan(total, content_type, true, range) matches Plan::Reply(r) && r.body.len() == 0
            && r.content_range is None && if header_text(content_type) {
            r.status == 200 && r.content_length == Some(total) && r.content_type == Some(
                content_type,
            ) && r.accept_ranges
        } else {
            r.status == 500 && r.content_length is None && r.content_type is None
                && !r.accept_ranges
        },
        total == 0 ==> (plan(total, content_type, false, range) matches Plan::Reply(r) && r.status
            == 500 && r.body.len() == 0 && r.content_range is None && r.content_length is None
            && r.content_type is None && !r.accept_ranges),
        0 < total <= range.0 ==> (plan(total, content_type, false, range) matches Plan::Reply(r)
            && r.status == 416 && r.body.len() == 0 && r.content_length is None
            && r.content_type is None && !r.accept_ranges && (r.content_range matches Some(header)
            && text::strip_prefix(header, "bytes */"@) matches Some(size) && text::parse_decimal(
            size,
        ) == Some(total))),
        range.0 < total ==> plan(total, content_type, false, range) is Assemble,
{
    text::lemma_decimal_round_trip(total);
    text::law_strip_prefix("bytes */"@, text::decimal(total as nat), Seq::empty());
}

/// A header value can hold a text exactly where it can hold each character, which is anything
/// but a control character, and the tab.
pub proof fn law_header_text(a: Seq<char>, b: Seq<char>, c: char)
    ensures
        header_text(a + b) <==> header_text(a) && header_text(b),
        header_text(seq![c]) <==> c as int == 9 || (c as int >= 32 && c as int != 127),
{
    let s = a + b;
    if header_text(s) {
        assert forall|i: int| 0 <= i < a.len() implies (#[trigger] a[i] >= ' ' && a[i]
            != '\u{7f}') || a[i] == '\t' by {
            assert(s[i] == a[i]);
        }
        assert forall|i: int| 0 <= i < b.len() implies (#[trigger] b[i] >= ' ' && b[i]
            != '\u{7f}') || b[i] == '\t' by {
            assert(s[a.len() + i] == b[i]);
        }
    }
    assert(seq![c][0] == c);
}

/// An open-ended request, `bytes=N-` or one without a range, is planned from its start to the
/// ceiling or the end of the file, and what is put together for it are the bytes of the file
/// from N on: at least one, no more than the ceiling, all up to the end of the file or of the
/// block that the first one is in where the ceiling allows, and on from there as far as
/// blocks are cached.
pub proof fn law_served_open_ended(
    source: Seq<u8>,
    total: u64,
    content_type: Seq<char>,
    generation: u64,
    start: u64,
    cached: Set<u64>,
)
    requires
        total == source.len(),
        start < total,
    ensures
        ({
            let last = if start + OPEN_ENDED_CAP < total {
                (start + OPEN_ENDED_CAP - 1) as u64
            } else {
                (total - 1) as u64
            };
            let a = AssemblyView {
                total,
                content_type,
                generation,
                start,
                end: last,
                open_ended: true,
                body: Seq::empty(),
                over: false,
            };
            let done = a.completed(source, cached);
            let n = done.body.len() as int;
            &&& plan(total, content_type, false, (start, None)) == (Plan::Assemble {
                start,
                end: last,
                open_ended: true,
            })
            &&& 0 < n <= OPEN_ENDED_CAP
            &&& start + n <= total
            &&& done.body == source.subrange(start as int, start + n)
            &&& start + n == last + 1 || ((start + n) % 2097152 == 0 && !cached.contains(
                ((start + n) / 2097152) as u64,
            ))
            &&& header_text(content_type) ==> {
                let r = done.response();
                &&& r.status == 206
                &&& r.body == source.subrange(start as int, start + n)
                &&& r.content_type == Some(content_type)
                &&& r.content_range matches Some(header) && named_range(header) == Some(
                    (start, (start + n - 1) as u64, total),
                )
            }
        }),
{
    let last = if start + OPEN_ENDED_CAP < total {
        (start + OPEN_ENDED_CAP - 1) as u64
    } else {
        (total - 1) as u64
    };
    let a = AssemblyView {
        total,
        content_type,
        generation,
        start,
        end: last,
        open_ended: true,
        body: Seq::empty(),
        over: false,
    };
    assert(a.body =~= source.subrange(start as int, start as int));
    law_supply_copies_source(a, source);
    lemma_block_of(a.pos());
    let b = a.supplied(Some(source_block(source, a.block())));
    assert(a.completed(source, cached) == b.completed(source, cached));
    lemma_block_end(a, source);
    lemma_completed_open_ended(b, source, cached);
    lemma_stops_at_missing_block(b, source, cached);
    let done = b.completed(source, cached);
    law_partial_response(start, total, content_type, done.body);
}

/// The wanted block brings the body to the end of the range or to the start of a block.
proof fn lemma_block_end(a: AssemblyView, source: Seq<u8>)
    requires
        a.copies(source),
        !(a.want() is Nothing),
    ensures
        ({
            let b = a.supplied(Some(source_block(source, a.block())));
            b.pos() == a.end + 1 || b.pos() % 2097152 == 0
        }),
{
    law_supply_copies_source(a, source);
    lemma_block_of(a.pos());
    let idx = a.block();
    lemma_blocks(idx);
    lemma_blocks(idx + 1);
    let b = a.supplied(Some(source_block(source, idx)));
    if b.pos() != a.end + 1 {
        let last = block_range(idx, source.len() as int).1;
        assert(b.pos() == last + 1);
        assert(b.pos() <= a.end);
        assert(b.pos() == (idx + 1) * 2097152);
    }
}

/// An open-ended assembly that has its first block stops at the first block that is not
/// cached, or at its end.
proof fn lemma_stops_at_missing_block(a: AssemblyView, source: Seq<u8>, cached: Set<u64>)
    requires
        a.copies(source),
        a.open_ended,
        a.body.len() > 0,
        !a.over,
        a.pos() == a.end + 1 || a.pos() % 2097152 == 0,
    ensures
        ({
            let done = a.completed(source, cached);
            done.pos() == a.end + 1 || (done.pos() % 2097152 == 0 && !cached.contains(
                (done.pos() / 2097152) as u64,
            ))
        }),
    decreases a.end + 1 - a.pos(),
{
    if a.pos() <= a.end {
        lemma_block_of(a.pos());
        if cached.contains(a.block() as u64) {
            law_supply_copies_source(a, source);
            lemma_block_end(a, source);
            lemma_stops_at_missing_block(
                a.supplied(Some(source_block(source, a.block()))),
                source,
                cached,
            );
        } else {
            assert(a.want() == Want::IfCached(a.block() as u64));
            let next = a.supplied(None);
            assert(next.pos() == a.pos());
            assert(a.completed(source, cached) == next);
        }
    }
}

/// A block that comes goes where its bytes belong, whatever it holds and however short it is:
/// what was there stays, every byte that is added is the one that the block has at that place
/// of the file, and they go as far as the block or the range does. A block that does not reach
/// the missing byte adds nothing and ends the assembly, as does one that is not to be had.
pub proof fn law_supplied_bytes_are_in_place(a: AssemblyView, data: Seq<u8>, k: int)
    requires
        a.wf(),
        a.pos() <= a.end,
        0 <= k,
    ensures
        ({
            let b = a.supplied(Some(data));
            let first = (a.pos() / 2097152) * 2097152;
            &&& k < a.body.len() ==> b.body[k] == a.body[k]
            &&& a.body.len() <= k < b.body.len() ==> 0 <= a.start + k - first < data.len()
                && b.body[k] == data[a.start + k - first]
            &&& if first + data.len() > a.pos() {
                &&& b.over == a.over
                &&& b.pos() == a.end + 1 || b.pos() == first + data.len()
                &&& b.pos() <= a.end + 1 && b.pos() <= first + data.len()
            } else {
                b.over && b.body == a.body
            }
            &&& b.start == a.start && b.end == a.end && b.total == a.total && b.open_ended
                == a.open_ended && b.content_type == a.content_type && b.generation
                == a.generation
        }),
        a.supplied(None).over && a.supplied(None).body == a.body,
        a.supplied(None).want() is Nothing,
{
    lemma_block_of(a.pos());
    lemma_blocks(a.block());
}

/// The blocks of a file lie side by side: each begins where the one before ends, the first one
/// at the first byte of the file, each is full but the last, which ends with the file, and
/// every byte is in the block of its position.
pub proof fn law_blocks_tile_the_file(idx: int, total: int, pos: int)
    requires
        0 <= idx,
        idx * 2097152 < total,
        0 <= pos < total,
    ensures
        block_range(0, total).0 == 0,
        block_range(idx, total).0 <= block_range(idx, total).1 < total,
        block_range(idx, total).1 + 1 == total || (block_range(idx, total).1 + 1 == block_range(
            idx + 1,
            total,
        ).0 && block_range(idx, total).1 + 1 - block_range(idx, total).0 == 2097152),
        block_range(idx, total).1 + 1 - block_range(idx, total).0 <= 2097152,
        block_range(pos / 2097152, total).0 <= pos <= block_range(pos / 2097152, total).1,
{
    lemma_blocks(0);
    lemma_blocks(idx);
    lemma_blocks(idx + 1);
    lemma_block_of(pos);
    lemma_blocks(pos / 2097152);
    lemma_blocks(pos / 2097152 + 1);
}

/// A file that takes over is the one that was asked for, with the size and type that its source
/// reports and nothing cached, queued for or read ahead of; locks go on being numbered.
pub proof fn law_started_file_is_described(
    e: EngineView,
    key: Seq<char>,
    total: u64,
    content_type: Seq<char>,
    idx: u64,
)
    requires
        e.file matches Some(f) ==> f.key != key,
    ensures
        ({
            let after = e.with_meta(key, total, content_type);
            &&& after.file matches Some(f) && {
                &&& f.key == key
                &&& f.total == total
                &&& f.content_type == content_type
                &&& !f.blocks.contains_key(idx)
                &&& f.order.len() == 0
                &&& !f.locks.contains_key(idx)
                &&& f.last_block == 0
                &&& f.wf()
                &&& after.current(f.generation) == Some(f)
            }
            &&& after.label == e.label
            &&& after.next_lock == e.next_lock
            &&& after.wf()
            // Asked for once more, it is there already.
            &&& after.with_meta(key, total, content_type) == after
        }),
{
}

/// A fetch that is over, with bytes or without, frees the lock of its block and no other, and
/// leaves the file what it is; bytes that came are cached and leave no other block changed.
pub proof fn law_fetch_frees_its_lock(
    e: EngineView,
    generation: u64,
    idx: u64,
    lock: u64,
    data: Seq<u8>,
    other: u64,
)
    requires
        e.wf(),
        e.current(generation) is Some,
    ensures
        ({
            let f = e.current(generation)->0;
            let came = e.after(generation, CacheEvent::Fetched { idx, lock, data });
            let failed = e.after(generation, CacheEvent::Failed(idx));
            &&& came.cached(generation, idx) == Some(data)
            &&& other != idx ==> came.cached(generation, other) is None || came.cached(
                generation,
                other,
            ) == e.cached(generation, other)
            &&& failed.cached(generation, other) == e.cached(generation, other)
            &&& came.current(generation) matches Some(g) && {
                &&& !g.locks.contains_key(idx)
                &&& other != idx ==> g.locks.contains_key(other) == f.locks.contains_key(other)
                &&& other != idx && f.locks.contains_key(other) ==> g.locks[other]
                    == f.locks[other]
                &&& g.key == f.key && g.total == f.total && g.content_type == f.content_type
                    && g.last_block == f.last_block
            }
            &&& failed.current(generation) matches Some(g) && {
                &&& !g.locks.contains_key(idx)
                &&& other != idx ==> g.locks.contains_key(other) == f.locks.contains_key(other)
                &&& other != idx && f.locks.contains_key(other) ==> g.locks[other]
                    == f.locks[other]
                &&& g.key == f.key && g.total == f.total && g.content_type == f.content_type
                    && g.last_block == f.last_block
            }
        }),
{
    law_fifo(e.current(generation)->0, idx, data);
}

/// All locks that are in use were numbered already, each once.
pub open spec fn locks_numbered(e: EngineView) -> bool {
    e.file matches Some(f) ==> {
        &&& forall|i: u64| #[trigger] f.locks.contains_key(i) ==> f.locks[i] < e.next_lock
        &&& forall|i: u64, j: u64|
            #![trigger f.locks[i], f.locks[j]]
            f.locks.contains_key(i) && f.locks.contains_key(j) && i != j ==> f.locks[i]
                != f.locks[j]
    }
}

/// No two blocks share a lock, so a fetch of one holds up nobody who wants another, as long as
/// the numbers last. Queueing changes nothing but the locks.
pub proof fn law_locks_are_distinct(e: EngineView, idx: u64)
    requires
        e.file is Some,
        locks_numbered(e),
        e.next_lock < u64::MAX,
    ensures
        locks_numbered(e.with_lock(idx)),
        e.with_lock(idx).next_lock >= e.next_lock,
        e.with_lock(idx).file matches Some(f) && f.locks.contains_key(idx) && f == (FileView {
            locks: f.locks,
            ..e.file->0
        }),
        e.with_lock(idx).label == e.label,
        e.with_lock(idx).next_generation == e.next_generation,
{
    let f = e.file->0;
    let g = e.with_lock(idx).file->0;
    assert forall|i: u64, j: u64|
        #![trigger g.locks[i], g.locks[j]]
        g.locks.contains_key(i) && g.locks.contains_key(j) && i != j implies g.locks[i]
        != g.locks[j] by {
        if !f.locks.contains_key(idx) {
            if i != idx {
                assert(f.locks.contains_key(i));
            }
            if j != idx {
                assert(f.locks.contains_key(j));
            }
        }
    }
}

/// A read-ahead chain that nothing has retired asks for the blocks after its base one by one,
/// leaving none out, until it has asked for as many as it may or the file ends.
pub proof fn law_readahead_goes_block_by_block(
    e: EngineView,
    generation: u64,
    base: u64,
    taken: u64,
)
    requires
        e.current(generation) matches Some(f) && f.last_block == base,
    ensures
        ({
            let chain = ReadAhead { generation, base, taken, over: false };
            let total = e.current(generation)->0.total;
            if taken < 8 && (base + taken + 1) * 2097152 < total {
                &&& chain.wants(e) == Some(base + taken + 1)
                &&& chain.asked(e) == (ReadAhead {
                    generation,
                    base,
                    taken: (taken + 1) as u64,
                    over: false,
                })
                &&& chain.served(false) == chain
            } else {
                chain.wants(e) is None
            }
        }),
{
    lemma_blocks(base + taken + 1);
}

/// The sizes that the others are multiples of: blocks of two megabytes, sixty-four megabytes of
/// cache, sixteen of read-ahead and eight of one open-ended response.
pub proof fn law_sizes(megabyte: int)
    requires
        megabyte == 1024 * 1024,
    ensures
        BLOCK == 2 * megabyte,
        MAX_BLOCKS * BLOCK == 64 * megabyte,
        READAHEAD_BLOCKS * BLOCK == 16 * megabyte,
        OPEN_ENDED_CAP == 8 * megabyte,
{
}

/// Where nothing could be put together there is an error instead of bytes.
pub proof fn law_no_bytes_is_an_error(a: AssemblyView)
    requires
        a.body.len() == 0,
    ensures
        a.response().status == 500,
        a.response().body.len() == 0,
        a.response().content_range is None,
{
}

/// A response says what its fields hold.
pub proof fn law_responses_say_what_they_hold(r: StreamResponse)
    ensures
        r@.status == r.status,
        r@.content_length == r.content_length,
        r@.accept_ranges == r.accept_ranges,
        r@.body == r.body@,
        r.content_type matches Some(t) ==> r@.content_type == Some(t@),
        r.content_type is None <==> r@.content_type is None,
        r.content_range matches Some(t) ==> r@.content_range == Some(t@),
        r.content_range is None <==> r@.content_range is None,
{
}

/// From the header of a request to what is put together for it: `bytes=A-B` is answered from A to
/// B or the end of the file, and `bytes=A-` from A on, as is a request without a header from the
/// start of the file.
pub proof fn law_requests_are_planned(
    total: u64,
    content_type: Seq<char>,
    start: u64,
    end: u64,
)
    requires
        start <= end,
        start < total,
    ensures
        ({
            let from = "bytes="@ + text::decimal(start as nat) + "-"@;
            let last: int = if end < total {
                end as int
            } else {
                total - 1
            };
            &&& plan(
                total,
                content_type,
                false,
                requested_range(Some(from + text::decimal(end as nat))),
            ) matches Plan::Assemble { start: s, end: e, open_ended } && s == start && e == last
                && !open_ended
            &&& plan(
                total,
                content_type,
                false,
                requested_range(Some(from)),
            ) matches Plan::Assemble { start: s, end: e, open_ended } && s == start && open_ended
                && (e == total - 1 || e == start + 8388607) && e <= total - 1 && e <= start
                + 8388607
            &&& plan(
                total,
                content_type,
                false,
                requested_range(None),
            ) matches Plan::Assemble { start: s, end: e, open_ended } && s == 0 && open_ended && (e
                == total - 1 || e == 8388607) && e <= total - 1 && e <= 8388607
        }),
{
    law_range_header_round_trip(start, end);
    law_open_ended_header(start);
    assert(range_text(start, end) =~= "bytes="@ + text::decimal(start as nat) + "-"@
        + text::decimal(end as nat));
}

} // verus!
