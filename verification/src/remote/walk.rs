//! The walk over a remote folder that yields the tree a course is parsed from.
//!
//! [`TreeWalk`] says which directory to list next and takes the listing; it never
//! lists one itself. Guard rails on depth and size make a mistakenly-picked root
//! (`/`, or a bucket with a million keys) fail fast instead of hanging the import.
use vstd::prelude::*;
use vstd::string::*;

use super::{make_uri, NodeView, RemoteNode};
use crate::text;

verus! {

/// How many levels of folders are listed.
pub const MAX_DEPTH: usize = 8;

/// How many entries a tree may hold.
pub const MAX_ENTRIES: usize = 20_000;

/// One file or folder of a course's source.
#[derive(Debug)]
pub struct SourceEntry {
    pub uri: String,
    pub name: String,
    /// Empty: remote listings don't carry a trustworthy MIME type, so the parser
    /// classifies by extension instead.
    pub mime_type: String,
    pub is_folder: bool,
    /// 0: no remote source reports durations, and probing each video would mean a
    /// network round-trip per lesson. The player backfills the real one.
    pub duration_secs: u64,
    pub children: Vec<SourceEntry>,
}

/// What a [`SourceEntry`] says.
#[verifier::ext_equal]
pub struct EntryView {
    pub uri: Seq<char>,
    pub name: Seq<char>,
    pub mime_type: Seq<char>,
    pub is_folder: bool,
    pub duration_secs: u64,
    pub children: Seq<EntryView>,
}

impl SourceEntry {
    /// What this entry and those below it say.
    pub open spec fn tree(self) -> EntryView
        decreases self,
    {
        EntryView {
            uri: self.uri@,
            name: self.name@,
            mime_type: self.mime_type@,
            is_folder: self.is_folder,
            duration_secs: self.duration_secs,
            children: trees(self.children@),
        }
    }
}

/// What a list of entries and those below them say.
pub open spec fn trees(entries: Seq<SourceEntry>) -> Seq<EntryView>
    decreases entries,
{
    if entries.len() == 0 {
        Seq::empty()
    } else {
        trees(entries.drop_last()).push(entries.last().tree())
    }
}

proof fn lemma_trees_push(entries: Seq<SourceEntry>, e: SourceEntry)
    ensures
        trees(entries.push(e)) == trees(entries).push(e.tree()),
{
    assert(entries.push(e).drop_last() =~= entries);
}

// =====================================================================
// What a walk comes to
// =====================================================================

/// What listing each directory of a server answers: its nodes, or an error.
pub type Server = spec_fn(Seq<char>) -> Result<Seq<NodeView>, Seq<char>>;

/// What a walk comes to.
#[verifier::ext_equal]
pub struct Walked {
    pub entries: Result<Seq<EntryView>, Seq<char>>,
    /// How many more entries it could have taken.
    pub budget: nat,
    /// The directories it has listed, in this order.
    pub asked: Seq<Seq<char>>,
}

/// The entry of a node, with what was found below it.
pub open spec fn entry_of(id: Seq<char>, node: NodeView, children: Seq<EntryView>) -> EntryView {
    EntryView {
        uri: super::uri_of(id, node.path),
        name: node.name,
        mime_type: Seq::empty(),
        is_folder: node.is_dir,
        duration_secs: 0,
        children,
    }
}

/// Why a walk over too large a folder is given up.
pub open spec fn too_many() -> Seq<char> {
    "That folder holds more than "@ + text::decimal(MAX_ENTRIES as nat)
        + " files — pick a single course folder rather than your whole library."@
}

/// The walk over what has nothing below it.
pub open spec fn childless(budget: nat) -> Walked {
    Walked { entries: Ok(Seq::empty()), budget, asked: Seq::empty() }
}

/// The walk over a directory at `depth`: below [`MAX_DEPTH`] levels nothing is
/// listed, and a listing that fails ends the walk.
pub open spec fn walk_dir(
    server: Server,
    id: Seq<char>,
    path: Seq<char>,
    depth: nat,
    budget: nat,
) -> Walked
    decreases MAX_DEPTH - depth, 1int, 0nat,
{
    if depth >= MAX_DEPTH {
        Walked { entries: Ok(Seq::empty()), budget, asked: Seq::empty() }
    } else {
        match server(path) {
            Err(e) => Walked { entries: Err(e), budget, asked: seq![path] },
            Ok(nodes) => {
                let walked = walk_nodes(server, id, nodes, depth, budget);
                Walked { asked: seq![path] + walked.asked, ..walked }
            },
        }
    }
}

/// The walk over what is left of a listing at `depth`: every node takes one of the
/// budget and yields an entry, and a folder's entry holds the walk over it. It ends
/// as soon as there is a node and no budget left for it.
pub open spec fn walk_nodes(
    server: Server,
    id: Seq<char>,
    nodes: Seq<NodeView>,
    depth: nat,
    budget: nat,
) -> Walked
    decreases MAX_DEPTH - depth, 0int, nodes.len(),
{
    if nodes.len() == 0 {
        Walked { entries: Ok(Seq::empty()), budget, asked: Seq::empty() }
    } else if budget == 0 {
        Walked { entries: Err(too_many()), budget, asked: Seq::empty() }
    } else {
        let below = if nodes[0].is_dir && depth < MAX_DEPTH {
            walk_dir(server, id, nodes[0].path, depth + 1, (budget - 1) as nat)
        } else {
            childless((budget - 1) as nat)
        };
        match below.entries {
            Err(e) => below,
            Ok(children) => {
                let rest = walk_nodes(server, id, nodes.skip(1), depth, below.budget);
                Walked {
                    entries: match rest.entries {
                        Err(e) => Err(e),
                        Ok(entries) => Ok(seq![entry_of(id, nodes[0], children)] + entries),
                    },
                    budget: rest.budget,
                    asked: below.asked + rest.asked,
                }
            },
        }
    }
}

/// What the rest of a walk comes to: its outcome, and the directories it lists on the way.
#[verifier::ext_equal]
pub struct Remainder {
    pub entries: Result<Seq<EntryView>, Seq<char>>,
    pub asked: Seq<Seq<char>>,
}

/// A walk that first lists the directories of `asked`.
pub open spec fn after_asking(asked: Seq<Seq<char>>, rest: Remainder) -> Remainder {
    Remainder { asked: asked + rest.asked, ..rest }
}

/// A walk that is over once the listing of `asked` has come.
pub open spec fn over(
    asked: Seq<char>,
    entries: Result<Seq<EntryView>, Seq<char>>,
) -> Remainder {
    Remainder { entries, asked: seq![asked] }
}

/// The walk over the directory at `path`.
pub open spec fn walk_of(server: Server, id: Seq<char>, path: Seq<char>) -> Remainder {
    let walked = walk_dir(server, id, path, 0, MAX_ENTRIES as nat);
    Remainder { entries: walked.entries, asked: walked.asked }
}

// =====================================================================
// The walk, one listing at a time
// =====================================================================

/// A listing that is being walked.
struct Frame {
    nodes: Vec<RemoteNode>,
    /// How many of the nodes were taken.
    next: usize,
    /// The entries of the nodes whose walk is over.
    done: Vec<SourceEntry>,
}

/// What a [`Frame`] says.
#[verifier::ext_equal]
ghost struct FrameView {
    /// The node that was taken last.
    folder: NodeView,
    rest: Seq<NodeView>,
    done: Seq<EntryView>,
}

impl Frame {
    spec fn view(self) -> FrameView {
        FrameView {
            folder: self.nodes@[self.next - 1]@,
            rest: super::node_views(self.nodes@).skip(self.next as int),
            done: trees(self.done@),
        }
    }
}

spec fn frame_views(frames: Seq<Frame>) -> Seq<FrameView> {
    Seq::new(frames.len(), |i: int| frames[i]@)
}

/// The innermost of `frames` once the walk over the folder it took last is over.
spec fn filled(id: Seq<char>, frames: Seq<FrameView>, children: Seq<EntryView>) -> Seq<FrameView> {
    let last = frames.last();
    frames.drop_last().push(
        FrameView { done: last.done.push(entry_of(id, last.folder, children)), ..last },
    )
}

/// What the whole walk comes to, from the listings it is in the middle of.
spec fn going_on(
    server: Server,
    id: Seq<char>,
    frames: Seq<FrameView>,
    budget: nat,
) -> Remainder
    decreases frames.len(),
{
    if frames.len() == 0 {
        Remainder { entries: Ok(Seq::empty()), asked: Seq::empty() }
    } else {
        let top = frames.last();
        let rest = walk_nodes(server, id, top.rest, (frames.len() - 1) as nat, budget);
        match rest.entries {
            Err(e) => Remainder { entries: Err(e), asked: rest.asked },
            Ok(entries) => if frames.len() == 1 {
                Remainder { entries: Ok(top.done + entries), asked: rest.asked }
            } else {
                after_asking(
                    rest.asked,
                    going_on(
                        server,
                        id,
                        filled(id, frames.drop_last(), top.done + entries),
                        rest.budget,
                    ),
                )
            },
        }
    }
}

/// What the whole walk comes to, from the listings it is in the middle of and the
/// directory whose listing it waits for.
spec fn waiting(
    server: Server,
    id: Seq<char>,
    frames: Seq<FrameView>,
    asked: Seq<char>,
    budget: nat,
) -> Remainder {
    let below = walk_dir(server, id, asked, frames.len(), budget);
    match below.entries {
        Err(e) => Remainder { entries: Err(e), asked: below.asked },
        Ok(children) => if frames.len() == 0 {
            Remainder { entries: Ok(children), asked: below.asked }
        } else {
            after_asking(
                below.asked,
                going_on(server, id, filled(id, frames, children), below.budget),
            )
        },
    }
}

/// The server answers the listing of `path` with `listing`.
spec fn answers(server: Server, path: Seq<char>, listing: Seq<NodeView>) -> bool {
    server(path) == Ok::<Seq<NodeView>, Seq<char>>(listing)
}

/// The listing that was waited for is the innermost one to walk.
proof fn lemma_listed(
    server: Server,
    id: Seq<char>,
    frames: Seq<FrameView>,
    asked: Seq<char>,
    budget: nat,
    top: FrameView,
)
    requires
        frames.len() < MAX_DEPTH,
        server(asked) == Ok::<Seq<NodeView>, Seq<char>>(top.rest),
        top.done.len() == 0,
    ensures
        waiting(server, id, frames, asked, budget) == after_asking(
            seq![asked],
            going_on(server, id, frames.push(top), budget),
        ),
{
    let pushed = frames.push(top);
    assert(pushed.drop_last() =~= frames);
    let rest = walk_nodes(server, id, top.rest, frames.len(), budget);
    if rest.entries is Ok {
        let children = rest.entries->Ok_0;
        assert(top.done + children =~= children);
        if frames.len() > 0 {
            let next = going_on(server, id, filled(id, frames, children), rest.budget);
            assert((seq![asked] + rest.asked) + next.asked =~= seq![asked] + (rest.asked
                + next.asked));
        }
    }
}

/// A node with nothing to walk below it yields an entry without children.
proof fn lemma_leaf(
    server: Server,
    id: Seq<char>,
    frames: Seq<FrameView>,
    top: FrameView,
    budget: nat,
    after: FrameView,
)
    requires
        top.rest.len() > 0,
        budget > 0,
        top.rest[0].is_dir ==> frames.len() + 1 >= MAX_DEPTH,
        after.rest == top.rest.skip(1),
        after.done == top.done.push(entry_of(id, top.rest[0], Seq::empty())),
    ensures
        going_on(server, id, frames.push(top), budget) == going_on(
            server,
            id,
            frames.push(after),
            (budget - 1) as nat,
        ),
{
    assert(frames.push(top).drop_last() =~= frames);
    assert(frames.push(after).drop_last() =~= frames);
    let entry = entry_of(id, top.rest[0], Seq::empty());
    let left = (budget - 1) as nat;
    if top.rest[0].is_dir {
        assert(walk_dir(server, id, top.rest[0].path, frames.len() + 1, left) == childless(left));
    }
    let rest = walk_nodes(server, id, after.rest, frames.len(), left);
    assert(Seq::<Seq<char>>::empty() + rest.asked =~= rest.asked);
    if rest.entries is Ok {
        assert(top.done + (seq![entry] + rest.entries->Ok_0) =~= after.done + rest.entries->Ok_0);
    }
}

/// A folder that is not too deep is walked next.
proof fn lemma_folder(
    server: Server,
    id: Seq<char>,
    frames: Seq<FrameView>,
    top: FrameView,
    budget: nat,
    after: FrameView,
)
    requires
        top.rest.len() > 0,
        budget > 0,
        top.rest[0].is_dir,
        frames.len() + 1 < MAX_DEPTH,
        after.folder == top.rest[0],
        after.rest == top.rest.skip(1),
        after.done == top.done,
    ensures
        going_on(server, id, frames.push(top), budget) == waiting(
            server,
            id,
            frames.push(after),
            top.rest[0].path,
            (budget - 1) as nat,
        ),
{
    assert(frames.push(top).drop_last() =~= frames);
    assert(frames.push(after).drop_last() =~= frames);
    let below = walk_dir(server, id, top.rest[0].path, frames.len() + 1, (budget - 1) as nat);
    if below.entries is Ok {
        let children = below.entries->Ok_0;
        let entry = entry_of(id, top.rest[0], children);
        let full = filled(id, frames.push(after), children);
        assert(full.drop_last() =~= frames);
        let rest = walk_nodes(server, id, after.rest, frames.len(), below.budget);
        if rest.entries is Ok {
            let all = top.done + (seq![entry] + rest.entries->Ok_0);
            assert(all =~= full.last().done + rest.entries->Ok_0);
            if frames.len() > 0 {
                let next = going_on(server, id, filled(id, frames, all), rest.budget);
                assert((below.asked + rest.asked) + next.asked =~= below.asked + (rest.asked
                    + next.asked));
            }
        }
    }
}

/// A listing with nothing left is the walk over the folder it is of.
proof fn lemma_end(
    server: Server,
    id: Seq<char>,
    frames: Seq<FrameView>,
    top: FrameView,
    budget: nat,
)
    requires
        top.rest.len() == 0,
    ensures
        going_on(server, id, frames.push(top), budget) == if frames.len() == 0 {
            Remainder { entries: Ok(top.done), asked: Seq::empty() }
        } else {
            going_on(server, id, filled(id, frames, top.done), budget)
        },
{
    assert(frames.push(top).drop_last() =~= frames);
    assert(top.done + Seq::<EntryView>::empty() =~= top.done);
    if frames.len() > 0 {
        let next = going_on(server, id, filled(id, frames, top.done), budget);
        assert(Seq::<Seq<char>>::empty() + next.asked =~= next.asked);
    }
}

/// A walk over a remote folder that waits for a listing.
pub struct TreeWalk {
    id: String,
    frames: Vec<Frame>,
    asked: String,
    budget: usize,
}

impl TreeWalk {
    /// No folder is deeper than [`MAX_DEPTH`], and every listing above the one that is
    /// waited for is at the folder that leads there.
    pub closed spec fn wf(self) -> bool {
        &&& self.frames@.len() < MAX_DEPTH
        &&& forall|i: int|
            0 <= i < self.frames@.len() ==> 0 < (#[trigger] self.frames@[i]).next
                <= self.frames@[i].nodes@.len()
    }

    /// What the walk comes to on a server that answers as `server` says, and the
    /// directories that it lists on the way.
    pub closed spec fn outcome(self, server: Server) -> Remainder {
        waiting(server, self.id@, frame_views(self.frames@), self.asked@, self.budget as nat)
    }

    /// The directory whose listing the walk waits for.
    pub closed spec fn wanted(self) -> Seq<char> {
        self.asked@
    }

    /// How many more entries the walk may take.
    pub closed spec fn left(self) -> nat {
        self.budget as nat
    }

    /// A walk lists the directory that it waits for next, whatever the server answers.
    pub proof fn law_wanted_is_listed_next(self, server: Server)
        requires
            self.wf(),
        ensures
            self.outcome(server).asked.len() > 0,
            self.outcome(server).asked[0] == self.wanted(),
    {
    }

    /// Starts a walk over the directory at `path`.
    pub fn new(server_id: &str, path: &str) -> (w: TreeWalk)
        ensures
            w.wf(),
            w.wanted() == path@,
            w.left() == MAX_ENTRIES,
            forall|server: Server| #[trigger]
                w.outcome(server) == walk_of(server, server_id@, path@),
    {
        let w = TreeWalk {
            id: server_id.to_owned(),
            frames: Vec::new(),
            asked: path.to_owned(),
            budget: MAX_ENTRIES,
        };
        assert forall|server: Server| #[trigger]
            w.outcome(server) == walk_of(server, server_id@, path@) by {
            assert(frame_views(w.frames@) =~= Seq::empty());
        }
        w
    }

    /// The directory to list next.
    pub fn asked(&self) -> (r: &str)
        ensures
            r@ == self.wanted(),
    {
        self.asked.as_str()
    }

    /// Takes the listing of the directory that the walk waits for. Yields what the walk
    /// comes to, or nothing as long as there is another directory to list.
    pub fn listed(&mut self, answer: Result<Vec<RemoteNode>, String>) -> (r: Option<
        Result<Vec<SourceEntry>, String>,
    >)
        requires
            old(self).wf(),
        ensures
            r is None ==> final(self).wf() && final(self).left() < old(self).left(),
            forall|server: Server|
                server(old(self).wanted()) == answer_view(answer) ==> #[trigger] old(self).outcome(
                    server,
                ) == match r {
                    None => after_asking(seq![old(self).wanted()], final(self).outcome(server)),
                    Some(Ok(entries)) => over(old(self).wanted(), Ok(trees(entries@))),
                    Some(Err(e)) => over(old(self).wanted(), Err(e@)),
                },
    {
        let nodes = match answer {
            Ok(nodes) => nodes,
            Err(e) => {
                return Some(Err(e));
            },
        };
        let ghost listing = super::node_views(nodes@);
        let ghost before = frame_views(self.frames@);
        let mut top = Frame { nodes, next: 0, done: Vec::new() };
        let ghost wanted = self.asked@;
        proof {
            assert(top@.rest =~= listing);
            assert forall|server: Server|
                answers(server, wanted, listing) implies after_asking(
                seq![wanted],
                #[trigger] going_on(server, self.id@, before.push(top@), self.budget as nat),
            ) == old(self).outcome(server) by {
                lemma_listed(server, self.id@, before, wanted, self.budget as nat, top@);
            }
        }
        loop
            invariant
                old(self).wf(),
                self.id == old(self).id,
                wanted == old(self).asked@,
                answer_view(answer) == Ok::<Seq<NodeView>, Seq<char>>(listing),
                self.frames@.len() < MAX_DEPTH,
                top.next <= top.nodes@.len(),
                self.budget <= old(self).budget,
                forall|i: int|
                    0 <= i < self.frames@.len() ==> 0 < (#[trigger] self.frames@[i]).next
                        <= self.frames@[i].nodes@.len(),
                forall|server: Server|
                    answers(server, wanted, listing) ==> after_asking(
                        seq![wanted],
                        #[trigger] going_on(
                            server,
                            self.id@,
                            frame_views(self.frames@).push(top@),
                            self.budget as nat,
                        ),
                    ) == old(self).outcome(server),
            decreases self.budget, self.frames@.len(),
        {
            let ghost frames = frame_views(self.frames@);
            let ghost was = top@;
            let ghost budget = self.budget as nat;
            if top.next == top.nodes.len() {
                proof {
                    assert(was.rest.len() == 0);
                }
                match self.frames.pop() {
                    None => {
                        proof {
                            assert forall|server: Server|
                                answers(server, wanted, listing) implies #[trigger] old(
                                self,
                            ).outcome(server) == over(wanted, Ok(trees(top.done@))) by {
                                lemma_end(server, self.id@, frames, was, budget);
                                assert(after_asking(
                                    seq![wanted],
                                    going_on(server, self.id@, frames.push(was), budget),
                                ) =~= over(wanted, Ok(trees(top.done@))));
                            }
                        }
                        return Some(Ok(top.done));
                    },
                    Some(mut above) => {
                        let ghost above_was = above@;
                        let ghost above_done = above.done@;
                        let e = entry(self.id.as_str(), &above.nodes[above.next - 1], top.done);
                        above.done.push(e);
                        proof {
                            lemma_trees_push(above_done, e);
                            assert(frames.last() == above_was);
                            assert(frame_views(self.frames@) =~= frames.drop_last());
                            assert(frame_views(self.frames@).push(above@) =~= filled(
                                self.id@,
                                frames,
                                was.done,
                            ));
                            assert forall|server: Server|
                                answers(server, wanted, listing) implies after_asking(
                                seq![wanted],
                                #[trigger] going_on(
                                    server,
                                    self.id@,
                                    frame_views(self.frames@).push(above@),
                                    budget,
                                ),
                            ) == old(self).outcome(server) by {
                                lemma_end(server, self.id@, frames, was, budget);
                            }
                        }
                        top = above;
                    },
                }
            } else if self.budget == 0 {
                let mut e: String = "That folder holds more than ".to_owned();
                e.append(text::decimal_of(MAX_ENTRIES as u64).as_str());
                e.append(" files — pick a single course folder rather than your whole library.");
                proof {
                    assert(was.rest.len() > 0);
                    assert forall|server: Server|
                        answers(server, wanted, listing) implies #[trigger] old(self).outcome(
                        server,
                    ) == over(wanted, Err(too_many())) by {
                        assert(after_asking(
                            seq![wanted],
                            going_on(server, self.id@, frames.push(was), 0),
                        ) =~= over(wanted, Err(too_many())));
                    }
                }
                return Some(Err(e));
            } else {
                let is_dir = top.nodes[top.next].is_dir;
                proof {
                    assert(was.rest[0] == top.nodes@[top.next as int]@);
                }
                self.budget = self.budget - 1;
                top.next = top.next + 1;
                proof {
                    assert(top@.rest =~= was.rest.skip(1));
                }
                if is_dir && self.frames.len() + 1 < MAX_DEPTH {
                    self.asked = top.nodes[top.next - 1].path.clone();
                    let ghost after = top@;
                    self.frames.push(top);
                    proof {
                        assert(frame_views(self.frames@) =~= frames.push(after));
                        assert forall|server: Server|
                            answers(server, wanted, listing) implies #[trigger] old(self).outcome(
                            server,
                        ) == after_asking(seq![wanted], self.outcome(server)) by {
                            lemma_folder(server, self.id@, frames, was, budget, after);
                        }
                    }
                    return None;
                }
                let ghost done = top.done@;
                let e = entry(self.id.as_str(), &top.nodes[top.next - 1], Vec::new());
                top.done.push(e);
                proof {
                    lemma_trees_push(done, e);
                    assert(top@.rest =~= was.rest.skip(1));
                    assert forall|server: Server|
                        answers(server, wanted, listing) implies after_asking(
                        seq![wanted],
                        #[trigger] going_on(
                            server,
                            self.id@,
                            frame_views(self.frames@).push(top@),
                            self.budget as nat,
                        ),
                    ) == old(self).outcome(server) by {
                        lemma_leaf(server, self.id@, frames, was, budget, top@);
                    }
                }
            }
        }
    }
}

/// What the answer to a listing says.
pub open spec fn answer_view(answer: Result<Vec<RemoteNode>, String>) -> Result<
    Seq<NodeView>,
    Seq<char>,
> {
    match answer {
        Ok(nodes) => Ok(super::node_views(nodes@)),
        Err(e) => Err(e@),
    }
}

fn entry(id: &str, node: &RemoteNode, children: Vec<SourceEntry>) -> (e: SourceEntry)
    ensures
        e.tree() == entry_of(id@, node@, trees(children@)),
{
    let e = SourceEntry {
        uri: make_uri(id, node.path.as_str()),
        name: node.name.clone(),
        mime_type: String::new(),
        is_folder: node.is_dir,
        duration_secs: 0,
        children,
    };
    assert(e.mime_type@ =~= Seq::empty());
    e
}

// =====================================================================
// Laws
// =====================================================================

/// How many entries a tree holds.
pub open spec fn size(entries: Seq<EntryView>) -> nat
    decreases entries,
{
    if entries.len() == 0 {
        0
    } else {
        1 + size(entries[0].children) + size(entries.skip(1))
    }
}

/// How many levels a tree has.
pub open spec fn height(entries: Seq<EntryView>) -> nat
    decreases entries,
{
    if entries.len() == 0 {
        0
    } else {
        let first = 1 + height(entries[0].children);
        let rest = height(entries.skip(1));
        if first < rest {
            rest
        } else {
            first
        }
    }
}

/// Every entry of a tree is addressed by a URI of the server `id`.
pub open spec fn addressed(id: Seq<char>, entries: Seq<EntryView>) -> bool
    decreases entries,
{
    entries.len() > 0 ==> {
        &&& super::uri_parts(entries[0].uri) matches Some(parts) && parts.0 == id
        &&& addressed(id, entries[0].children)
        &&& addressed(id, entries.skip(1))
    }
}

/// A walk that succeeds yields no more than [`MAX_ENTRIES`] entries on no more than
/// [`MAX_DEPTH`] levels.
pub proof fn law_walk_is_bounded(server: Server, id: Seq<char>, path: Seq<char>)
    ensures
        walk_dir(server, id, path, 0, MAX_ENTRIES as nat).entries matches Ok(entries) ==> size(
            entries,
        ) <= MAX_ENTRIES && height(entries) <= MAX_DEPTH,
{
    lemma_dir_size(server, id, path, 0, MAX_ENTRIES as nat);
}

proof fn lemma_dir_size(server: Server, id: Seq<char>, path: Seq<char>, depth: nat, budget: nat)
    requires
        depth <= MAX_DEPTH,
    ensures
        walk_dir(server, id, path, depth, budget).entries matches Ok(entries) ==> size(entries)
            + walk_dir(server, id, path, depth, budget).budget == budget && height(entries)
            <= MAX_DEPTH - depth,
    decreases MAX_DEPTH - depth, 1int, 0nat,
{
    if depth < MAX_DEPTH && server(path) is Ok {
        lemma_nodes_size(server, id, server(path)->Ok_0, depth, budget);
    }
}

proof fn lemma_nodes_size(
    server: Server,
    id: Seq<char>,
    nodes: Seq<NodeView>,
    depth: nat,
    budget: nat,
)
    requires
        depth < MAX_DEPTH,
    ensures
        walk_nodes(server, id, nodes, depth, budget).entries matches Ok(entries) ==> size(entries)
            + walk_nodes(server, id, nodes, depth, budget).budget == budget && height(entries)
            <= MAX_DEPTH - depth,
    decreases MAX_DEPTH - depth, 0int, nodes.len(),
{
    let walked = walk_nodes(server, id, nodes, depth, budget);
    if nodes.len() > 0 && budget > 0 && walked.entries is Ok {
        let left = (budget - 1) as nat;
        let below = if nodes[0].is_dir {
            walk_dir(server, id, nodes[0].path, depth + 1, left)
        } else {
            childless(left)
        };
        if nodes[0].is_dir {
            lemma_dir_size(server, id, nodes[0].path, depth + 1, left);
        }
        lemma_nodes_size(server, id, nodes.skip(1), depth, below.budget);
        let rest = walk_nodes(server, id, nodes.skip(1), depth, below.budget).entries->Ok_0;
        let entries = walked.entries->Ok_0;
        assert(entries.skip(1) =~= rest);
        assert(entries[0].children == below.entries->Ok_0);
        assert(size(Seq::<EntryView>::empty()) == 0);
        assert(height(Seq::<EntryView>::empty()) == 0);
    }
}

/// What the walk yields does not depend on the budget as long as it is large enough,
/// and it fails exactly where it is not: a folder that holds as many entries as the
/// budget still passes, and one more is one too many.
pub proof fn law_budget_is_exact(
    server: Server,
    id: Seq<char>,
    path: Seq<char>,
    depth: nat,
    enough: nat,
    budget: nat,
)
    ensures
        walk_dir(server, id, path, depth, enough).entries matches Ok(entries) ==> walk_dir(
            server,
            id,
            path,
            depth,
            budget,
        ).entries == if size(entries) <= budget {
            Ok::<Seq<EntryView>, Seq<char>>(entries)
        } else {
            Err(too_many())
        },
    decreases MAX_DEPTH - depth, 1int, 0nat,
{
    if depth < MAX_DEPTH && server(path) is Ok {
        lemma_nodes_budget(server, id, server(path)->Ok_0, depth, enough, budget);
    }
}

proof fn lemma_nodes_budget(
    server: Server,
    id: Seq<char>,
    nodes: Seq<NodeView>,
    depth: nat,
    enough: nat,
    budget: nat,
)
    requires
        depth < MAX_DEPTH,
    ensures
        walk_nodes(server, id, nodes, depth, enough).entries matches Ok(entries) ==> walk_nodes(
            server,
            id,
            nodes,
            depth,
            budget,
        ).entries == if size(entries) <= budget {
            Ok::<Seq<EntryView>, Seq<char>>(entries)
        } else {
            Err(too_many())
        },
    decreases MAX_DEPTH - depth, 0int, nodes.len(),
{
    let walked = walk_nodes(server, id, nodes, depth, enough);
    if nodes.len() > 0 && walked.entries is Ok && budget > 0 {
        let more = (enough - 1) as nat;
        let left = (budget - 1) as nat;
        let below = if nodes[0].is_dir {
            walk_dir(server, id, nodes[0].path, depth + 1, more)
        } else {
            childless(more)
        };
        let here = if nodes[0].is_dir {
            walk_dir(server, id, nodes[0].path, depth + 1, left)
        } else {
            childless(left)
        };
        if nodes[0].is_dir {
            law_budget_is_exact(server, id, nodes[0].path, depth + 1, more, left);
            lemma_dir_size(server, id, nodes[0].path, depth + 1, left);
        }
        lemma_nodes_budget(server, id, nodes.skip(1), depth, below.budget, here.budget);
        let rest = walk_nodes(server, id, nodes.skip(1), depth, below.budget).entries->Ok_0;
        let entries = walked.entries->Ok_0;
        assert(entries.skip(1) =~= rest);
        assert(entries[0].children == below.entries->Ok_0);
        assert(size(Seq::<EntryView>::empty()) == 0);
        assert(size(entries) == 1 + size(below.entries->Ok_0) + size(rest));
    }
}

/// Every listing of the server names its nodes by a path.
pub open spec fn names_paths(server: Server) -> bool {
    forall|path: Seq<char>|
        (#[trigger] server(path)) is Ok ==> forall|i: int|
            0 <= i < server(path)->Ok_0.len() ==> (#[trigger] server(path)->Ok_0[i]).path.len() > 0
}

/// Every entry of a walked tree is addressed by a URI that leads back to its server.
pub proof fn law_entries_are_addressed(server: Server, id: Seq<char>, path: Seq<char>)
    requires
        id.len() > 0,
        !id.contains(':'),
        names_paths(server),
    ensures
        walk_dir(server, id, path, 0, MAX_ENTRIES as nat).entries matches Ok(entries)
            ==> addressed(id, entries),
{
    lemma_dir_addressed(server, id, path, 0, MAX_ENTRIES as nat);
}

proof fn lemma_dir_addressed(
    server: Server,
    id: Seq<char>,
    path: Seq<char>,
    depth: nat,
    budget: nat,
)
    requires
        id.len() > 0,
        !id.contains(':'),
        names_paths(server),
    ensures
        walk_dir(server, id, path, depth, budget).entries matches Ok(entries) ==> addressed(
            id,
            entries,
        ),
    decreases MAX_DEPTH - depth, 1int, 0nat,
{
    if depth < MAX_DEPTH && server(path) is Ok {
        lemma_nodes_addressed(server, id, server(path)->Ok_0, depth, budget);
    }
}

proof fn lemma_nodes_addressed(
    server: Server,
    id: Seq<char>,
    nodes: Seq<NodeView>,
    depth: nat,
    budget: nat,
)
    requires
        id.len() > 0,
        !id.contains(':'),
        names_paths(server),
        depth < MAX_DEPTH,
        forall|i: int| 0 <= i < nodes.len() ==> (#[trigger] nodes[i]).path.len() > 0,
    ensures
        walk_nodes(server, id, nodes, depth, budget).entries matches Ok(entries) ==> addressed(
            id,
            entries,
        ),
    decreases MAX_DEPTH - depth, 0int, nodes.len(),
{
    let walked = walk_nodes(server, id, nodes, depth, budget);
    if nodes.len() > 0 && budget > 0 && walked.entries is Ok {
        let left = (budget - 1) as nat;
        let below = if nodes[0].is_dir {
            walk_dir(server, id, nodes[0].path, depth + 1, left)
        } else {
            childless(left)
        };
        if nodes[0].is_dir {
            lemma_dir_addressed(server, id, nodes[0].path, depth + 1, left);
        }
        lemma_nodes_addressed(server, id, nodes.skip(1), depth, below.budget);
        super::law_split_make(id, nodes[0].path);
        let rest = walk_nodes(server, id, nodes.skip(1), depth, below.budget).entries->Ok_0;
        let entries = walked.entries->Ok_0;
        assert(entries.skip(1) =~= rest);
        assert(entries[0].children == below.entries->Ok_0);
        assert(addressed(id, Seq::empty()));
    }
}

/// `entry` stands for a node of a listing at `depth`: it is addressed by the path of the node on
/// that server and named as the node is, and below it there is what listing a folder answers,
/// or nothing below a file and below the last level that is listed.
pub open spec fn stands_for(
    server: Server,
    id: Seq<char>,
    node: NodeView,
    depth: nat,
    entry: EntryView,
) -> bool
    decreases MAX_DEPTH - depth, 0int,
{
    &&& entry.uri == "srv:"@ + id + ":"@ + node.path
    &&& id.len() > 0 && !id.contains(':') && node.path.len() > 0 ==> super::uri_parts(entry.uri)
        == Some((id, node.path))
    &&& entry.name == node.name
    &&& entry.is_folder == node.is_dir
    &&& entry.mime_type.len() == 0
    &&& entry.duration_secs == 0
    &&& if node.is_dir && depth + 1 < 8 {
        server(node.path) matches Ok(below) && mirrors(
            server,
            id,
            below,
            depth + 1,
            entry.children,
        )
    } else {
        entry.children.len() == 0
    }
}

/// `entries` hold one entry for each node of a listing at `depth`, in the same order.
pub open spec fn mirrors(
    server: Server,
    id: Seq<char>,
    nodes: Seq<NodeView>,
    depth: nat,
    entries: Seq<EntryView>,
) -> bool
    decreases MAX_DEPTH - depth, 1int,
{
    &&& entries.len() == nodes.len()
    &&& forall|i: int|
        0 <= i < nodes.len() ==> stands_for(server, id, nodes[i], depth, #[trigger] entries[i])
}

/// A walk that succeeds yields a tree that mirrors the server: every node that was listed, file
/// or folder, has its entry at the same place, with the URI that its server and path make, which
/// leads back to both, and with its name, and nothing else is there.
pub proof fn law_tree_mirrors_the_server(server: Server, id: Seq<char>, path: Seq<char>)
    ensures
        walk_of(server, id, path).entries matches Ok(entries) ==> (server(path) matches Ok(nodes)
            && mirrors(server, id, nodes, 0, entries)),
{
    if walk_of(server, id, path).entries is Ok {
        lemma_nodes_mirrored(server, id, server(path)->Ok_0, 0, MAX_ENTRIES as nat);
    }
}

proof fn lemma_nodes_mirrored(
    server: Server,
    id: Seq<char>,
    nodes: Seq<NodeView>,
    depth: nat,
    budget: nat,
)
    requires
        depth < MAX_DEPTH,
    ensures
        walk_nodes(server, id, nodes, depth, budget).entries matches Ok(entries) ==> mirrors(
            server,
            id,
            nodes,
            depth,
            entries,
        ),
    decreases MAX_DEPTH - depth, nodes.len(),
{
    let walked = walk_nodes(server, id, nodes, depth, budget);
    if nodes.len() > 0 && budget > 0 && walked.entries is Ok {
        let left = (budget - 1) as nat;
        let node = nodes[0];
        let below = if node.is_dir {
            walk_dir(server, id, node.path, depth + 1, left)
        } else {
            childless(left)
        };
        if node.is_dir && depth + 1 < MAX_DEPTH {
            lemma_nodes_mirrored(server, id, server(node.path)->Ok_0, depth + 1, left);
        }
        lemma_nodes_mirrored(server, id, nodes.skip(1), depth, below.budget);
        if id.len() > 0 && !id.contains(':') && node.path.len() > 0 {
            super::law_split_make(id, node.path);
        }
        let rest = walk_nodes(server, id, nodes.skip(1), depth, below.budget).entries->Ok_0;
        let entries = walked.entries->Ok_0;
        assert(entries.skip(1) =~= rest);
        assert(stands_for(server, id, node, depth, entries[0]));
        assert forall|i: int| 0 <= i < nodes.len() implies stands_for(
            server,
            id,
            nodes[i],
            depth,
            #[trigger] entries[i],
        ) by {
            if i > 0 {
                assert(entries[i] == rest[i - 1]);
                assert(nodes[i] == nodes.skip(1)[i - 1]);
            }
        }
    }
}

/// A tree that mirrors the server and is not too large is what the walk yields: there is no
/// other way for it to end.
pub proof fn law_mirror_is_walked(
    server: Server,
    id: Seq<char>,
    path: Seq<char>,
    nodes: Seq<NodeView>,
    entries: Seq<EntryView>,
)
    requires
        server(path) == Ok::<Seq<NodeView>, Seq<char>>(nodes),
        mirrors(server, id, nodes, 0, entries),
    ensures
        walk_of(server, id, path).entries == if size(entries) <= 20_000 {
            Ok::<Seq<EntryView>, Seq<char>>(entries)
        } else {
            Err(too_many())
        },
{
    lemma_mirror_walked(server, id, nodes, 0, size(entries), entries);
    lemma_nodes_budget(server, id, nodes, 0, size(entries), MAX_ENTRIES as nat);
}

proof fn lemma_mirror_walked(
    server: Server,
    id: Seq<char>,
    nodes: Seq<NodeView>,
    depth: nat,
    budget: nat,
    entries: Seq<EntryView>,
)
    requires
        depth < MAX_DEPTH,
        mirrors(server, id, nodes, depth, entries),
        size(entries) <= budget,
    ensures
        walk_nodes(server, id, nodes, depth, budget).entries == Ok::<Seq<EntryView>, Seq<char>>(
            entries,
        ),
        walk_nodes(server, id, nodes, depth, budget).budget == budget - size(entries),
    decreases MAX_DEPTH - depth, nodes.len(),
{
    if nodes.len() == 0 {
        assert(entries =~= Seq::empty());
    } else {
        let left = (budget - 1) as nat;
        let node = nodes[0];
        let entry = entries[0];
        assert(stands_for(server, id, node, depth, entry));
        assert(entry.mime_type =~= Seq::empty());
        if node.is_dir && depth + 1 < MAX_DEPTH {
            lemma_mirror_walked(
                server,
                id,
                server(node.path)->Ok_0,
                depth + 1,
                left,
                entry.children,
            );
        } else {
            assert(entry.children =~= Seq::empty());
            assert(size(entry.children) == 0);
        }
        let below = if node.is_dir {
            walk_dir(server, id, node.path, depth + 1, left)
        } else {
            childless(left)
        };
        assert(below.entries == Ok::<Seq<EntryView>, Seq<char>>(entry.children));
        assert(below.budget == left - size(entry.children));
        assert(entry =~= entry_of(id, node, entry.children));
        let rest = entries.skip(1);
        assert forall|i: int| 0 <= i < nodes.skip(1).len() implies stands_for(
            server,
            id,
            nodes.skip(1)[i],
            depth,
            #[trigger] rest[i],
        ) by {
            assert(rest[i] == entries[i + 1]);
            assert(nodes.skip(1)[i] == nodes[i + 1]);
        }
        lemma_mirror_walked(
            server,
            id,
            nodes.skip(1),
            depth,
            (left - size(entry.children)) as nat,
            rest,
        );
        assert(seq![entry] + rest =~= entries);
    }
}

/// The directory that is listed last decides how a walk ends: with the error of its listing, or
/// else with the tree, unless there are too many entries. All directories before it could be
/// listed.
pub proof fn law_last_listing_decides(server: Server, id: Seq<char>, path: Seq<char>, i: int)
    ensures
        ({
            let walked = walk_of(server, id, path);
            &&& walked.asked.len() > 0
            &&& walked.asked[0] == path
            &&& 0 <= i < walked.asked.len() - 1 ==> server(walked.asked[i]) is Ok
            &&& match server(walked.asked.last()) {
                Err(e) => walked.entries == Err::<Seq<EntryView>, Seq<char>>(e),
                Ok(_) => walked.entries matches Err(e) ==> e == too_many(),
            }
        }),
{
    lemma_dir_ends(server, id, path, 0, MAX_ENTRIES as nat);
    assert(ends_well(server, walk_dir(server, id, path, 0, MAX_ENTRIES as nat)));
}

/// What a part of a walk comes to, by the listings it has asked for.
spec fn ends_well(server: Server, walked: Walked) -> bool {
    &&& forall|i: int|
        0 <= i < walked.asked.len() - 1 ==> server(#[trigger] walked.asked[i]) is Ok
    &&& walked.asked.len() > 0 && server(walked.asked.last()) is Err ==> walked.entries == Err::<
        Seq<EntryView>,
        Seq<char>,
    >(server(walked.asked.last())->Err_0)
    &&& walked.asked.len() == 0 || server(walked.asked.last()) is Ok ==> (
    walked.entries matches Err(e) ==> e == too_many())
}

proof fn lemma_dir_ends(server: Server, id: Seq<char>, path: Seq<char>, depth: nat, budget: nat)
    ensures
        ends_well(server, walk_dir(server, id, path, depth, budget)),
    decreases MAX_DEPTH - depth, 1int, 0nat,
{
    if depth < MAX_DEPTH && server(path) is Ok {
        lemma_nodes_end(server, id, server(path)->Ok_0, depth, budget);
        let inner = walk_nodes(server, id, server(path)->Ok_0, depth, budget);
        let walked = walk_dir(server, id, path, depth, budget);
        assert forall|i: int| 0 <= i < walked.asked.len() - 1 implies server(
            #[trigger] walked.asked[i],
        ) is Ok by {
            if i > 0 {
                assert(walked.asked[i] == inner.asked[i - 1]);
            }
        }
        if inner.asked.len() > 0 {
            assert(walked.asked.last() == inner.asked.last());
        }
    }
}

proof fn lemma_nodes_end(
    server: Server,
    id: Seq<char>,
    nodes: Seq<NodeView>,
    depth: nat,
    budget: nat,
)
    requires
        depth < MAX_DEPTH,
    ensures
        ends_well(server, walk_nodes(server, id, nodes, depth, budget)),
    decreases MAX_DEPTH - depth, 0int, nodes.len(),
{
    if nodes.len() > 0 && budget > 0 {
        let left = (budget - 1) as nat;
        let below = if nodes[0].is_dir {
            walk_dir(server, id, nodes[0].path, depth + 1, left)
        } else {
            childless(left)
        };
        if nodes[0].is_dir {
            lemma_dir_ends(server, id, nodes[0].path, depth + 1, left);
        }
        if below.entries is Ok {
            lemma_nodes_end(server, id, nodes.skip(1), depth, below.budget);
            let rest = walk_nodes(server, id, nodes.skip(1), depth, below.budget);
            let walked = walk_nodes(server, id, nodes, depth, budget);
            assert(walked.asked == below.asked + rest.asked);
            assert forall|i: int| 0 <= i < walked.asked.len() - 1 implies server(
                #[trigger] walked.asked[i],
            ) is Ok by {
                if i < below.asked.len() {
                    assert(walked.asked[i] == below.asked[i]);
                    if i == below.asked.len() - 1 {
                        assert(below.asked.last() == below.asked[i]);
                    }
                } else {
                    assert(walked.asked[i] == rest.asked[i - below.asked.len()]);
                }
            }
            if rest.asked.len() > 0 {
                assert(walked.asked.last() == rest.asked.last());
            } else if below.asked.len() > 0 {
                assert(walked.asked.last() == below.asked.last());
            }
        }
    }
}

/// The paths of the folders of a tree that are not on its last level, each before those below
/// it.
pub open spec fn opened_folders(entries: Seq<EntryView>, depth: nat) -> Seq<Seq<char>>
    decreases entries,
{
    if entries.len() == 0 {
        Seq::empty()
    } else {
        (if entries[0].is_folder && depth + 1 < MAX_DEPTH {
            seq![(super::uri_parts(entries[0].uri)->0).1] + opened_folders(
                entries[0].children,
                depth + 1,
            )
        } else {
            Seq::empty()
        }) + opened_folders(entries.skip(1), depth)
    }
}

/// A walk that succeeds lists the directory it starts at and every folder of the tree that is not
/// on the last level, each once where it occurs once, and each before those below it.
pub proof fn law_every_folder_is_listed(server: Server, id: Seq<char>, path: Seq<char>)
    requires
        id.len() > 0,
        !id.contains(':'),
        names_paths(server),
    ensures
        walk_of(server, id, path).entries matches Ok(entries) ==> walk_of(server, id, path).asked
            == seq![path] + opened_folders(entries, 0),
{
    if walk_of(server, id, path).entries is Ok {
        lemma_folders_listed(server, id, server(path)->Ok_0, 0, MAX_ENTRIES as nat);
    }
}

proof fn lemma_folders_listed(
    server: Server,
    id: Seq<char>,
    nodes: Seq<NodeView>,
    depth: nat,
    budget: nat,
)
    requires
        id.len() > 0,
        !id.contains(':'),
        names_paths(server),
        depth < MAX_DEPTH,
        forall|i: int| 0 <= i < nodes.len() ==> (#[trigger] nodes[i]).path.len() > 0,
    ensures
        walk_nodes(server, id, nodes, depth, budget).entries matches Ok(entries) ==> walk_nodes(
            server,
            id,
            nodes,
            depth,
            budget,
        ).asked == opened_folders(entries, depth),
    decreases MAX_DEPTH - depth, nodes.len(),
{
    let walked = walk_nodes(server, id, nodes, depth, budget);
    if nodes.len() > 0 && budget > 0 && walked.entries is Ok {
        let left = (budget - 1) as nat;
        let node = nodes[0];
        let below = if node.is_dir {
            walk_dir(server, id, node.path, depth + 1, left)
        } else {
            childless(left)
        };
        if node.is_dir && depth + 1 < MAX_DEPTH {
            lemma_folders_listed(server, id, server(node.path)->Ok_0, depth + 1, left);
        }
        lemma_folders_listed(server, id, nodes.skip(1), depth, below.budget);
        super::law_split_make(id, node.path);
        let rest = walk_nodes(server, id, nodes.skip(1), depth, below.budget);
        let entries = walked.entries->Ok_0;
        assert(entries.skip(1) =~= rest.entries->Ok_0);
        assert(walked.asked =~= opened_folders(entries, depth));
    } else if walked.entries is Ok {
        assert(walked.asked =~= opened_folders(walked.entries->Ok_0, depth));
    }
}

/// A step of a walk lists one directory and leaves the rest: the directories that are listed are
/// those before, followed by those after, and what the rest comes to is what the walk does.
pub proof fn law_steps_of_a_walk(
    asked: Seq<Seq<char>>,
    rest: Remainder,
    last: Seq<char>,
    entries: Result<Seq<EntryView>, Seq<char>>,
)
    ensures
        after_asking(asked, rest).entries == rest.entries,
        after_asking(asked, rest).asked == asked + rest.asked,
        over(last, entries).entries == entries,
        over(last, entries).asked == seq![last],
{
}

/// An entry says what its fields hold, and so do those below it, one by one.
pub proof fn law_entries_say_what_they_hold(entries: Seq<SourceEntry>, i: int)
    requires
        0 <= i < entries.len(),
    ensures
        trees(entries).len() == entries.len(),
        trees(entries)[i].uri == entries[i].uri@,
        trees(entries)[i].name == entries[i].name@,
        trees(entries)[i].mime_type == entries[i].mime_type@,
        trees(entries)[i].is_folder == entries[i].is_folder,
        trees(entries)[i].duration_secs == entries[i].duration_secs,
        trees(entries)[i].children == trees(entries[i].children@),
    decreases entries.len(),
{
    lemma_trees_len(entries);
    lemma_trees_len(entries.drop_last());
    if i < entries.len() - 1 {
        law_entries_say_what_they_hold(entries.drop_last(), i);
        assert(entries.drop_last()[i] == entries[i]);
        assert(trees(entries)[i] == trees(entries.drop_last())[i]);
    } else {
        let e = entries[i];
        assert(trees(entries)[i] == e.tree());
        assert(e.tree().children == trees(e.children@));
    }
}

proof fn lemma_trees_len(entries: Seq<SourceEntry>)
    ensures
        trees(entries).len() == entries.len(),
    decreases entries.len(),
{
    if entries.len() > 0 {
        lemma_trees_len(entries.drop_last());
    }
}

/// The answer to a listing says the nodes it holds, or its error.
pub proof fn law_answers_say_what_they_hold(nodes: Vec<RemoteNode>, e: String)
    ensures
        answer_view(Ok(nodes)) == Ok::<Seq<NodeView>, Seq<char>>(super::node_views(nodes@)),
        answer_view(Err(e)) == Err::<Seq<NodeView>, Seq<char>>(e@),
{
}

/// A walk that is given up says how many entries would have been too many.
pub proof fn law_too_many()
    ensures
        text::strip_prefix(too_many(), "That folder holds more than "@) matches Some(rest) && (
        text::split_once(rest, seq![' ']) matches Some((number, advice)) && text::parse_decimal(
            number,
        ) == Some(20_000u64) && advice
            == "files — pick a single course folder rather than your whole library."@),
{
    let d = text::decimal(MAX_ENTRIES as nat);
    text::lemma_decimal_round_trip(MAX_ENTRIES as u64);
    if d.contains(' ') {
        let i = choose|i: int| 0 <= i < d.len() && d[i] == ' ';
        assert(text::is_digit(d[i]));
    }
    reveal_strlit(" files — pick a single course folder rather than your whole library.");
    reveal_strlit("files — pick a single course folder rather than your whole library.");
    let advice = "files — pick a single course folder rather than your whole library."@;
    assert(" files — pick a single course folder rather than your whole library."@ =~= seq![' ']
        + advice);
    let head = "That folder holds more than "@;
    let rest = d + seq![' '] + advice;
    assert(too_many() =~= head + rest);
    text::law_strip_prefix(head, rest, rest);
    text::law_split_once_char(d, ' ', advice);
}

} // verus!
