//! Live connections: which one a request uses, and when it is tried again.
//!
//! The connections are kept per server. A request that fails is run once more on a
//! fresh connection, because SSH connections die when the server or the network
//! blinks. Only idempotent reads go through here, so a second run is harmless.
use vstd::prelude::*;
use vstd::string::*;

use super::{get_config, ServerConfig, ServerRegistry};
use crate::id_map::IdMap;

verus! {

/// Where the connection for a request comes from.
pub enum BackendStep<'a, B> {
    /// One is open already.
    Cached(&'a B),
    /// One has to be opened with these settings; [`opened`] goes on from there.
    Open(ServerConfig),
    /// There is none to be had.
    Failed(String),
}

/// A connected backend for `server_id`, opening the connection on first use.
pub fn backend<'a, B>(
    backends: &'a IdMap<B>,
    servers: &ServerRegistry,
    server_id: &str,
) -> (r: BackendStep<'a, B>)
    requires
        backends.wf(),
        servers.wf(),
    ensures
        match r {
            BackendStep::Cached(b) => backends@.contains_key(server_id@) && *b
                == backends@[server_id@],
            BackendStep::Open(config) => !backends@.contains_key(server_id@)
                && servers@.contains_key(server_id@) && config == servers@[server_id@],
            BackendStep::Failed(e) => !backends@.contains_key(server_id@)
                && !servers@.contains_key(server_id@) && e@
                == "That server is no longer configured. Re-add it in Settings."@,
        },
{
    match backends.get(server_id) {
        Some(b) => BackendStep::Cached(b),
        None => match get_config(servers, server_id) {
            Ok(config) => BackendStep::Open(config),
            Err(e) => BackendStep::Failed(e),
        },
    }
}

/// The connections after one was to be opened, and what the call comes to: `loaded` says
/// whether the secrets could be read, and `built`, which counts only where they could, what
/// connecting came to. The first error is handed back, and then nothing is kept.
pub open spec fn after_open<B>(
    backends: Map<Seq<char>, B>,
    server_id: Seq<char>,
    loaded: Result<(), Seq<char>>,
    built: Result<B, Seq<char>>,
) -> (Map<Seq<char>, B>, Result<B, Seq<char>>) {
    match (loaded, built) {
        (Err(e), _) => (backends, Err(e)),
        (Ok(_), Err(e)) => (backends, Err(e)),
        (Ok(_), Ok(b)) => (backends.insert(server_id, b), Ok(b)),
    }
}

/// A result with its error as characters.
pub open spec fn outcome<T>(r: Result<T, String>) -> Result<T, Seq<char>> {
    match r {
        Ok(v) => Ok(v),
        Err(e) => Err(e@),
    }
}

/// Goes on from [`BackendStep::Open`]: keeps the connection that was opened, or hands back
/// why there is none.
pub fn opened<B>(
    backends: &mut IdMap<B>,
    server_id: &str,
    loaded: Result<(), String>,
    built: Result<B, String>,
) -> (r: Result<(), String>)
    requires
        old(backends).wf(),
    ensures
        final(backends).wf(),
        final(backends)@ == after_open(old(backends)@, server_id@, outcome(loaded), outcome(built)).0,
        match after_open(old(backends)@, server_id@, outcome(loaded), outcome(built)).1 {
            Ok(_) => r is Ok,
            Err(message) => r matches Err(e) && e@ == message,
        },
{
    match (loaded, built) {
        (Err(e), _) => Err(e),
        (Ok(_), Err(e)) => Err(e),
        (Ok(_), Ok(b)) => {
            keep_backend(backends, server_id, b);
            Ok(())
        },
    }
}

/// Keeps a connection that was just opened, for the requests to come.
pub fn keep_backend<B>(backends: &mut IdMap<B>, server_id: &str, built: B)
    requires
        old(backends).wf(),
    ensures
        final(backends).wf(),
        final(backends)@ == old(backends)@.insert(server_id@, built),
{
    backends.insert(server_id.to_owned(), built);
}

/// Drop a cached connection so the next call reconnects — used when a request
/// fails mid-session (SSH connections die when the server or the network blinks).
pub fn evict_backend<B>(backends: &mut IdMap<B>, id: &str)
    requires
        old(backends).wf(),
    ensures
        final(backends).wf(),
        final(backends)@ == old(backends)@.remove(id@),
{
    backends.remove(id);
}

/// A whole call for a connection: the connections after it, and what it comes to. One that is
/// open is handed out as it is; settings, secrets and connecting count only where there is
/// none, in this order.
pub open spec fn backend_call<B>(
    backends: Map<Seq<char>, B>,
    servers: Map<Seq<char>, ServerConfig>,
    server_id: Seq<char>,
    loaded: Result<(), Seq<char>>,
    built: Result<B, Seq<char>>,
) -> (Map<Seq<char>, B>, Result<B, Seq<char>>) {
    if backends.contains_key(server_id) {
        (backends, Ok(backends[server_id]))
    } else if !servers.contains_key(server_id) {
        (backends, Err("That server is no longer configured. Re-add it in Settings."@))
    } else {
        after_open(backends, server_id, loaded, built)
    }
}

/// What happens to the connections, one call at a time.
pub enum SessionEvent<B> {
    /// A connection was asked for.
    Called {
        servers: Map<Seq<char>, ServerConfig>,
        server_id: Seq<char>,
        loaded: Result<(), Seq<char>>,
        built: Result<B, Seq<char>>,
    },
    /// The connection of this server was dropped.
    Evicted(Seq<char>),
    /// A connection to this server was tried, for a test or to be handed to [`opened`].
    Tried(Seq<char>, Result<B, Seq<char>>),
}

/// The connections after all the calls of a history.
pub open spec fn after_calls<B>(
    backends: Map<Seq<char>, B>,
    history: Seq<SessionEvent<B>>,
) -> Map<Seq<char>, B>
    decreases history.len(),
{
    if history.len() == 0 {
        backends
    } else {
        let before = after_calls(backends, history.drop_last());
        match history.last() {
            SessionEvent::Called { servers, server_id, loaded, built } => backend_call(
                before,
                servers,
                server_id,
                loaded,
                built,
            ).0,
            SessionEvent::Evicted(id) => before.remove(id),
            SessionEvent::Tried(_, _) => before,
        }
    }
}

/// A call that fails hands back the first error, of the settings, the secrets or the
/// connection, and keeps nothing.
pub proof fn law_failed_call_keeps_nothing<B>(
    backends: Map<Seq<char>, B>,
    servers: Map<Seq<char>, ServerConfig>,
    server_id: Seq<char>,
    loaded: Result<(), Seq<char>>,
    built: Result<B, Seq<char>>,
)
    requires
        backend_call(backends, servers, server_id, loaded, built).1 is Err,
    ensures
        backend_call(backends, servers, server_id, loaded, built).0 == backends,
        !backends.contains_key(server_id),
        servers.contains_key(server_id) && loaded is Err ==> backend_call(
            backends,
            servers,
            server_id,
            loaded,
            built,
        ).1 == Err::<B, Seq<char>>(loaded->Err_0),
        servers.contains_key(server_id) && loaded is Ok ==> backend_call(
            backends,
            servers,
            server_id,
            loaded,
            built,
        ).1 == built,
{
}

/// Once a call was handed a connection, every later call for that server is handed the same
/// one, whatever became of its settings and secrets, until it is dropped.
pub proof fn law_connection_is_kept<B>(
    backends: Map<Seq<char>, B>,
    servers: Map<Seq<char>, ServerConfig>,
    server_id: Seq<char>,
    loaded: Result<(), Seq<char>>,
    built: Result<B, Seq<char>>,
    history: Seq<SessionEvent<B>>,
    later_servers: Map<Seq<char>, ServerConfig>,
    later_loaded: Result<(), Seq<char>>,
    later_built: Result<B, Seq<char>>,
)
    requires
        backend_call(backends, servers, server_id, loaded, built).1 is Ok,
        forall|n: int|
            0 <= n < history.len() ==> #[trigger] history[n] != SessionEvent::<B>::Evicted(
                server_id,
            ),
    ensures
        ({
            let (kept, handed) = backend_call(backends, servers, server_id, loaded, built);
            let later = after_calls(kept, history);
            backend_call(later, later_servers, server_id, later_loaded, later_built) == (
                later,
                handed,
            )
        }),
{
    let (kept, handed) = backend_call(backends, servers, server_id, loaded, built);
    lemma_kept(kept, server_id, history);
}

proof fn lemma_kept<B>(
    backends: Map<Seq<char>, B>,
    server_id: Seq<char>,
    history: Seq<SessionEvent<B>>,
)
    requires
        backends.contains_key(server_id),
        forall|n: int|
            0 <= n < history.len() ==> #[trigger] history[n] != SessionEvent::<B>::Evicted(
                server_id,
            ),
    ensures
        after_calls(backends, history).contains_key(server_id),
        after_calls(backends, history)[server_id] == backends[server_id],
    decreases history.len(),
{
    if history.len() > 0 {
        let rest = history.drop_last();
        assert forall|n: int| 0 <= n < rest.len() implies #[trigger] rest[n]
            != SessionEvent::<B>::Evicted(server_id) by {
            assert(rest[n] == history[n]);
        }
        lemma_kept(backends, server_id, rest);
        assert(history[history.len() - 1] == history.last());
    }
}

/// Trying a connection, with whatever outcome, makes no difference to any later call: it
/// comes to what it would have come to without.
pub proof fn law_trying_leaves_the_connections<B>(
    backends: Map<Seq<char>, B>,
    history: Seq<SessionEvent<B>>,
    tried: Seq<char>,
    outcome: Result<B, Seq<char>>,
    servers: Map<Seq<char>, ServerConfig>,
    server_id: Seq<char>,
    loaded: Result<(), Seq<char>>,
    built: Result<B, Seq<char>>,
)
    ensures
        backend_call(
            after_calls(backends, history.push(SessionEvent::Tried(tried, outcome))),
            servers,
            server_id,
            loaded,
            built,
        ) == backend_call(after_calls(backends, history), servers, server_id, loaded, built),
{
    assert(history.push(SessionEvent::Tried(tried, outcome)).drop_last() =~= history);
}

/// After the connection of a configured server was dropped, the next call connects anew.
pub proof fn law_evicted_connects_anew<B>(
    backends: Map<Seq<char>, B>,
    servers: Map<Seq<char>, ServerConfig>,
    server_id: Seq<char>,
    loaded: Result<(), Seq<char>>,
    built: Result<B, Seq<char>>,
)
    requires
        servers.contains_key(server_id),
    ensures
        backend_call(backends.remove(server_id), servers, server_id, loaded, built) == after_open(
            backends.remove(server_id),
            server_id,
            loaded,
            built,
        ),
        loaded is Ok ==> backend_call(
            backends.remove(server_id),
            servers,
            server_id,
            loaded,
            built,
        ).1 == built,
{
}

/// How often a request has been run.
pub enum Attempt {
    /// It has not been run yet.
    First,
    /// It was run once, and failed with this error.
    Again(String),
}

/// What to do next for a request.
pub enum Next<T> {
    /// Run it on the connection.
    Run(Attempt),
    /// Drop the connection, open a fresh one and go on from there.
    Reconnect(Attempt),
    /// Hand this back.
    Done(Result<T, String>),
}

/// What follows once a connection was asked for.
pub open spec fn after_connect<T>(attempt: Attempt, opened: Result<(), String>) -> Next<T> {
    match opened {
        Ok(_) => Next::Run(attempt),
        Err(e) => match attempt {
            Attempt::First => Next::Done(Err(e)),
            Attempt::Again(first) => Next::Done(Err(first)),
        },
    }
}

/// What follows once the request was run.
pub open spec fn after_run<T>(attempt: Attempt, result: Result<T, String>) -> Next<T> {
    match result {
        Ok(v) => Next::Done(Ok(v)),
        Err(e) => match attempt {
            Attempt::First => Next::Reconnect(Attempt::Again(e)),
            Attempt::Again(_) => Next::Done(Err(e)),
        },
    }
}

impl Attempt {
    /// Goes on once a connection was asked for: `opened` says whether there is one. A
    /// connection that cannot be opened again is reported as the failure that made it
    /// necessary.
    pub fn connected<T>(self, opened: Result<(), String>) -> (r: Next<T>)
        ensures
            r == after_connect::<T>(self, opened),
    {
        match opened {
            Ok(_) => Next::Run(self),
            Err(e) => match self {
                Attempt::First => Next::Done(Err(e)),
                Attempt::Again(first) => Next::Done(Err(first)),
            },
        }
    }

    /// Goes on once the request was run. A second failure is reported as it is: it came
    /// from a known-fresh connection, so it describes the real problem.
    pub fn ran<T>(self, result: Result<T, String>) -> (r: Next<T>)
        ensures
            r == after_run(self, result),
    {
        match result {
            Ok(v) => Next::Done(Ok(v)),
            Err(e) => match self {
                Attempt::First => Next::Reconnect(Attempt::Again(e)),
                Attempt::Again(_) => Next::Done(Err(e)),
            },
        }
    }
}

/// What a request comes to, from how its connections open and how its runs end: a
/// first connection that cannot be opened, or a first run that succeeds, decides;
/// after a failed first run there is one more, and its outcome stands, whatever it
/// is, unless it had no connection to run on.
pub open spec fn request_outcome<T>(
    first_open: Result<(), String>,
    first_run: Result<T, String>,
    second_open: Result<(), String>,
    second_run: Result<T, String>,
) -> Result<T, String> {
    if first_open is Err {
        Err(first_open->Err_0)
    } else if first_run is Ok {
        first_run
    } else if second_open is Err {
        first_run
    } else {
        second_run
    }
}

/// The steps of a request, one after the other.
pub open spec fn request_steps<T>(
    next: Next<T>,
    opens: Seq<Result<(), String>>,
    runs: Seq<Result<T, String>>,
) -> Option<Result<T, String>>
    decreases opens.len() + runs.len(),
{
    match next {
        Next::Done(r) => Some(r),
        Next::Run(attempt) => if runs.len() == 0 {
            None
        } else {
            request_steps(after_run(attempt, runs[0]), opens, runs.skip(1))
        },
        Next::Reconnect(attempt) => if opens.len() == 0 {
            None
        } else {
            request_steps(after_connect(attempt, opens[0]), opens.skip(1), runs)
        },
    }
}

/// A request is run at most twice, on at most two connections, and comes to what
/// [`request_outcome`] says.
pub proof fn law_one_retry<T>(
    first_open: Result<(), String>,
    first_run: Result<T, String>,
    second_open: Result<(), String>,
    second_run: Result<T, String>,
)
    ensures
        request_steps(
            after_connect::<T>(Attempt::First, first_open),
            seq![second_open],
            seq![first_run, second_run],
        ) == Some(request_outcome(first_open, first_run, second_open, second_run)),
{
    reveal_with_fuel(request_steps, 5);
    let runs = seq![first_run, second_run];
    let opens = seq![second_open];
    assert(runs.skip(1)[0] == second_run);
    assert(runs.skip(1).skip(1).len() == 0);
    assert(opens.skip(1).len() == 0);
}

/// How a request ends, case by case. Without a first connection it ends with why there is none. A
/// first run that succeeds is what it comes to. A run that fails is followed by exactly one
/// more on a fresh connection, and what that one comes to stands; where the fresh connection
/// cannot be had, the first failure is reported.
pub proof fn law_how_requests_end<T>(
    no_connection: String,
    value: T,
    first: String,
    reopening: String,
    second: Result<T, String>,
    opened: Result<(), String>,
)
    requires
        opened is Ok,
    ensures
        after_connect::<T>(Attempt::First, Err(no_connection)) == Next::Done(
            Err::<T, String>(no_connection),
        ),
        after_connect::<T>(Attempt::First, opened) == Next::<T>::Run(Attempt::First),
        after_run(Attempt::First, Ok::<T, String>(value)) == Next::Done(Ok::<T, String>(value)),
        after_run(Attempt::First, Err::<T, String>(first)) == Next::<T>::Reconnect(
            Attempt::Again(first),
        ),
        after_connect::<T>(Attempt::Again(first), opened) == Next::<T>::Run(Attempt::Again(first)),
        after_connect::<T>(Attempt::Again(first), Err(reopening)) == Next::Done(
            Err::<T, String>(first),
        ),
        after_run(Attempt::Again(first), second) == Next::Done(second),
{
}

/// A connection that is opened is kept under its server, and those of all others stay as they are.
pub proof fn law_other_connections_stay<B>(
    backends: Map<Seq<char>, B>,
    servers: Map<Seq<char>, ServerConfig>,
    server_id: Seq<char>,
    loaded: Result<(), Seq<char>>,
    built: Result<B, Seq<char>>,
    other: Seq<char>,
)
    requires
        other != server_id,
    ensures
        ({
            let (after, r) = backend_call(backends, servers, server_id, loaded, built);
            &&& after.contains_key(other) == backends.contains_key(other)
            &&& backends.contains_key(other) ==> after[other] == backends[other]
            &&& r matches Ok(b) ==> after.contains_key(server_id) && after[server_id] == b
            &&& r is Ok && !backends.contains_key(server_id) ==> r == built
            &&& !backends.contains_key(server_id) && servers.contains_key(server_id) && loaded is Ok
                ==> r == built
            &&& !backends.contains_key(server_id) && !servers.contains_key(server_id) ==> r is Err
        }),
{
}

/// A result is the same with its error as characters.
pub proof fn law_outcome<T>(value: T, e: String)
    ensures
        outcome(Ok::<T, String>(value)) == Ok::<T, Seq<char>>(value),
        outcome(Err::<T, String>(e)) == Err::<T, Seq<char>>(e@),
{
}

} // verus!
