//! The service protocol, whatever carries it: one request in, one response
//! out. A request becomes an action; what the action found becomes the data of
//! the response.
use vstd::prelude::*;

use crate::graph_build::GraphStats;
use crate::graph_json;
use crate::graph_json::{EdgeItem, FileMap, SymbolRow};
use crate::indexset::{FreshnessStatus, IndexSet, IndexSetError, IndexView, MatchLine, SearchStats};
use crate::json;
use crate::json::{Json, Member};
use crate::overlay;
use crate::text;

verus! {

// ---- errors ----

#[derive(Debug)]
pub enum ServeError {
    Index(IndexSetError),
    /// The message of the system.
    Io(String),
    Msg(String),
}

impl ServeError {
    /// What the error tells its reader.
    pub open spec fn message_view(self) -> Seq<char> {
        match self {
            ServeError::Index(e) => e.message_view(),
            ServeError::Io(m) => "io error: "@ + m@,
            ServeError::Msg(m) => m@,
        }
    }

    pub fn message(&self) -> (r: String)
        ensures
            r@ == self.message_view(),
    {
        match self {
            ServeError::Index(e) => e.message(),
            ServeError::Io(m) => {
                let mut r = "io error: ".to_string();
                r.append(m.as_str());
                r
            },
            ServeError::Msg(m) => m.clone(),
        }
    }
}

impl From<IndexSetError> for ServeError {
    fn from(e: IndexSetError) -> (r: ServeError) {
        ServeError::Index(e)
    }
}

impl vstd::std_specs::convert::FromSpecImpl<IndexSetError> for ServeError {
    open spec fn obeys_from_spec() -> bool {
        true
    }

    open spec fn from_spec(e: IndexSetError) -> ServeError {
        ServeError::Index(e)
    }
}

// ---- requests and responses ----

#[derive(Debug)]
pub enum Request {
    Ping,
    Search { pattern: String, json: bool, limit: Option<usize> },
    Symbol { name: String },
    Context { uid: String, budget_tokens: Option<usize> },
    Impact { uid_or_name: String, direction: String, depth: Option<u32> },
    /// `role` is "callers" or "callees".
    Uses { uid_or_name: String, role: String },
    Trace { from: String, to: String },
    Processes {},
    Clusters {},
    Changes { base: Option<String> },
    Status {},
    Shutdown,
}

#[derive(Debug)]
pub struct Response {
    pub ok: bool,
    pub error: Option<String>,
    pub data: Json,
}

impl Response {
    pub fn ok(data: Json) -> (r: Response)
        ensures
            r.ok,
            r.error is None,
            r.data == data,
    {
        Response { ok: true, error: None, data }
    }

    pub fn err(msg: &str) -> (r: Response)
        ensures
            !r.ok,
            r.error matches Some(e) && e@ == msg@,
            r.data == Json::Null,
    {
        Response { ok: false, error: Some(msg.to_string()), data: Json::Null }
    }

    /// The response to an operation that ended in `outcome`.
    pub fn of_outcome(outcome: Result<Json, String>) -> (r: Response)
        ensures
            match outcome {
                Ok(v) => r.ok && r.error is None && r.data == v,
                Err(e) => !r.ok && r.error == Some(e) && r.data == Json::Null,
            },
    {
        match outcome {
            Ok(v) => Response::ok(v),
            Err(e) => Response { ok: false, error: Some(e), data: Json::Null },
        }
    }
}

/// Which way a blast radius spreads.
#[derive(Debug, Clone, Copy, PartialEq, Eq, Structural)]
pub enum Direction {
    Upstream,
    Downstream,
}

/// Which end of call edges is asked for.
#[derive(Debug, Clone, Copy, PartialEq, Eq, Structural)]
pub enum Role {
    Callers,
    Callees,
}

/// How far a blast radius reaches unless the request says so.
pub const DEFAULT_DEPTH: u32 = 3;

/// How many tokens a context may take unless the request says so.
pub const DEFAULT_BUDGET: usize = 2000;

/// What a request asks to be done, with all defaults filled in.
#[derive(Debug)]
pub enum Action {
    /// Nothing but this response.
    Reply(Response),
    Search { pattern: String, limit: Option<usize> },
    Symbol { name: String },
    Context { uid: String, budget_tokens: usize },
    Impact { uid_or_name: String, direction: Direction, depth: u32 },
    Uses { uid_or_name: String, role: Role },
    Trace { from: String, to: String },
    Processes,
    Clusters,
    Changes { base: Option<String> },
    Status,
}

/// The direction that a request means: anything but "downstream" is upstream.
pub open spec fn direction_of(s: Seq<char>) -> Direction {
    if s == "downstream"@ {
        Direction::Downstream
    } else {
        Direction::Upstream
    }
}

/// The role that a request means: anything but "callees" is callers.
pub open spec fn role_of(s: Seq<char>) -> Role {
    if s == "callees"@ {
        Role::Callees
    } else {
        Role::Callers
    }
}

fn parse_direction(s: &str) -> (d: Direction)
    ensures
        d == direction_of(s@),
{
    if text::same_text(s, "downstream") {
        Direction::Downstream
    } else {
        Direction::Upstream
    }
}

fn parse_role(s: &str) -> (r: Role)
    ensures
        r == role_of(s@),
{
    if text::same_text(s, "callees") {
        Role::Callees
    } else {
        Role::Callers
    }
}

/// Whether `a` is what request `req` asks for at `root`.
pub open spec fn asks_for(req: Request, root: Seq<char>, a: Action) -> bool {
    match req {
        Request::Ping => a matches Action::Reply(r) && r.ok && r.error is None && is_pong(
            r.data,
            root,
        ),
        Request::Shutdown => a matches Action::Reply(r) && r.ok && r.error is None
            && is_shutting_down(r.data),
        Request::Search { pattern, json: _, limit } => a == (Action::Search { pattern, limit }),
        Request::Symbol { name } => a == (Action::Symbol { name }),
        Request::Context { uid, budget_tokens } => a == (Action::Context {
            uid,
            budget_tokens: match budget_tokens {
                Some(n) => n,
                None => DEFAULT_BUDGET,
            },
        }),
        Request::Impact { uid_or_name, direction, depth } => a == (Action::Impact {
            uid_or_name,
            direction: direction_of(direction@),
            depth: match depth {
                Some(n) => n,
                None => DEFAULT_DEPTH,
            },
        }),
        Request::Uses { uid_or_name, role } => a == (Action::Uses {
            uid_or_name,
            role: role_of(role@),
        }),
        Request::Trace { from, to } => a == (Action::Trace { from, to }),
        Request::Processes {  } => a == Action::Processes,
        Request::Clusters {  } => a == Action::Clusters,
        Request::Changes { base } => a == (Action::Changes { base }),
        Request::Status {  } => a == Action::Status,
    }
}

/// Whether `j` answers a ping at `root`.
pub open spec fn is_pong(j: Json, root: Seq<char>) -> bool {
    let m = json::members(j);
    &&& json::has_keys(j, seq!["pong"@, "root"@])
    &&& json::is_bool(m[0].value, true)
    &&& json::is_str(m[1].value, root)
}

/// Whether `j` answers a shutdown.
pub open spec fn is_shutting_down(j: Json) -> bool {
    &&& json::has_keys(j, seq!["shutting_down"@])
    &&& json::is_bool(json::members(j)[0].value, true)
}

// ---- the service ----

/// The index of one root.
pub struct Service {
    root: String,
    index: IndexSet,
}

/// A service with its root and index as mathematics.
pub struct ServiceView {
    pub root: Seq<char>,
    pub index: IndexView,
}

impl View for Service {
    type V = ServiceView;

    closed spec fn view(&self) -> ServiceView {
        ServiceView { root: self.root@, index: self.index@ }
    }
}

impl Service {
    /// Serve the index of `root`.
    pub fn open(root: &str, index: IndexSet) -> (s: Service)
        ensures
            s@ == (ServiceView { root: root@, index: index@ }),
    {
        Service { root: root.to_string(), index }
    }

    pub fn root(&self) -> (r: &str)
        ensures
            r@ == self@.root,
    {
        self.root.as_str()
    }

    /// Where the graph of the root is stored.
    pub fn graph_db_path(&self) -> (r: String)
        ensures
            r@ == text::joined(text::joined(self@.root, ".gitpixel"@), "graph.db"@),
    {
        let dir = text::join_path(self.root.as_str(), ".gitpixel");
        text::join_path(dir.as_str(), "graph.db")
    }

    /// The layers of the index.
    pub fn index(&self) -> (r: &IndexSet)
        ensures
            r@ == self@.index,
    {
        &self.index
    }

    /// Take over one file as it is on disk now.
    pub fn refresh_file(&mut self, rel: &str, grams: Option<Vec<u64>>)
        ensures
            final(self)@ == (ServiceView {
                index: IndexView {
                    overlay: old(self)@.index.overlay.refreshed(rel@, overlay::grams_view(grams)),
                    ..old(self)@.index
                },
                ..old(self)@
            }),
    {
        self.index.refresh_file(rel, grams);
    }

    /// Void a deleted file.
    pub fn remove_file(&mut self, rel: &str)
        ensures
            final(self)@ == (ServiceView {
                index: IndexView {
                    overlay: old(self)@.index.overlay.removed(rel@),
                    ..old(self)@.index
                },
                ..old(self)@
            }),
    {
        self.index.remove_file(rel);
    }

    /// What a request asks for.
    pub fn handle(&self, req: Request) -> (a: Action)
        ensures
            asks_for(req, self@.root, a),
    {
        match req {
            Request::Ping => {
                let mut m: Vec<Member> = Vec::new();
                m.push(json::member("pong", Json::Bool(true)));
                m.push(json::member("root", json::str_json(self.root.as_str())));
                proof {
                    assert(m@.map_values(|x: Member| x.key@) =~= seq!["pong"@, "root"@]);
                }
                Action::Reply(Response::ok(Json::Obj(m)))
            },
            Request::Shutdown => {
                let mut m: Vec<Member> = Vec::new();
                m.push(json::member("shutting_down", Json::Bool(true)));
                proof {
                    assert(m@.map_values(|x: Member| x.key@) =~= seq!["shutting_down"@]);
                }
                Action::Reply(Response::ok(Json::Obj(m)))
            },
            Request::Search { pattern, json: _, limit } => Action::Search { pattern, limit },
            Request::Symbol { name } => Action::Symbol { name },
            Request::Context { uid, budget_tokens } => Action::Context {
                uid,
                budget_tokens: match budget_tokens {
                    Some(n) => n,
                    None => DEFAULT_BUDGET,
                },
            },
            Request::Impact { uid_or_name, direction, depth } => Action::Impact {
                uid_or_name,
                direction: parse_direction(direction.as_str()),
                depth: match depth {
                    Some(n) => n,
                    None => DEFAULT_DEPTH,
                },
            },
            Request::Uses { uid_or_name, role } => Action::Uses {
                uid_or_name,
                role: parse_role(role.as_str()),
            },
            Request::Trace { from, to } => Action::Trace { from, to },
            Request::Processes {  } => Action::Processes,
            Request::Clusters {  } => Action::Clusters,
            Request::Changes { base } => Action::Changes { base },
            Request::Status {  } => Action::Status,
        }
    }
}

// ---- building the graph on first use ----

/// What to do before the graph can be read.
#[derive(Debug, Clone, Copy, PartialEq, Eq, Structural)]
pub enum GraphStep {
    /// It is open.
    Ready,
    /// Open the stored graph.
    Open,
    /// Build it, then open it.
    BuildAndOpen,
}

/// What to do before the graph can be read: nothing if it is open, else open
/// it, and build it first if it is not stored.
pub fn ensure_graph(is_open: bool, is_stored: bool) -> (s: GraphStep)
    ensures
        s == (if is_open {
            GraphStep::Ready
        } else if is_stored {
            GraphStep::Open
        } else {
            GraphStep::BuildAndOpen
        }),
{
    if is_open {
        GraphStep::Ready
    } else if is_stored {
        GraphStep::Open
    } else {
        GraphStep::BuildAndOpen
    }
}

/// Whether `j` tells the numbers of a graph.
pub open spec fn is_graph_stats(j: Json, s: GraphStats) -> bool {
    let m = json::members(j);
    &&& json::has_keys(
        j,
        seq!["files"@, "symbols"@, "edges"@, "unresolved"@, "elapsed_ms"@],
    )
    &&& json::is_uint(m[0].value, s.files as int)
    &&& json::is_uint(m[1].value, s.symbols as int)
    &&& json::is_uint(m[2].value, s.edges as int)
    &&& json::is_uint(m[3].value, s.unresolved as int)
    &&& json::is_uint(m[4].value, (s.elapsed_ms as u64) as int)
}

/// The numbers of a graph.
pub fn graph_stats_json(s: &GraphStats) -> (j: Json)
    ensures
        is_graph_stats(j, *s),
{
    let mut m: Vec<Member> = Vec::new();
    m.push(json::member("files", Json::Uint(s.files)));
    m.push(json::member("symbols", Json::Uint(s.symbols)));
    m.push(json::member("edges", Json::Uint(s.edges)));
    m.push(json::member("unresolved", Json::Uint(s.unresolved)));
    m.push(json::member("elapsed_ms", Json::Uint(#[verifier::truncate] (s.elapsed_ms as u64))));
    proof {
        assert(m@.map_values(|x: Member| x.key@) =~= seq![
            "files"@,
            "symbols"@,
            "edges"@,
            "unresolved"@,
            "elapsed_ms"@,
        ]);
    }
    Json::Obj(m)
}

/// Whether `j` tells of a build.
pub open spec fn is_build_info(j: Json, build_ms: u64, s: GraphStats) -> bool {
    let m = json::members(j);
    &&& json::has_keys(j, seq!["graph_built"@, "build_ms"@, "stats"@])
    &&& json::is_bool(m[0].value, true)
    &&& json::is_uint(m[1].value, build_ms as int)
    &&& is_graph_stats(m[2].value, s)
}

/// What a response tells of the build that it caused.
pub fn build_info(build_ms: u64, s: &GraphStats) -> (j: Json)
    ensures
        is_build_info(j, build_ms, *s),
{
    let mut m: Vec<Member> = Vec::new();
    m.push(json::member("graph_built", Json::Bool(true)));
    m.push(json::member("build_ms", Json::Uint(build_ms)));
    m.push(json::member("stats", graph_stats_json(s)));
    proof {
        assert(m@.map_values(|x: Member| x.key@) =~= seq!["graph_built"@, "build_ms"@, "stats"@]);
    }
    Json::Obj(m)
}

/// Whether `after` is `before` with the news of a build, if there are any and
/// `before` is an object.
pub open spec fn has_build_info(before: Json, after: Json, built: Option<Json>) -> bool {
    if before is Obj && built is Some {
        &&& after is Obj
        &&& json::assigned(
            json::members(before),
            json::members(after),
            "graph_build"@,
            built->0,
        )
    } else {
        after == before
    }
}

/// Add the news of a build, if there are any.
pub fn merge_build_info(out: Json, built: Option<Json>) -> (r: Json)
    ensures
        has_build_info(out, r, built),
        !(out is Obj) || built is None ==> r == out,
{
    match (out, built) {
        (Json::Obj(m), Some(info)) => {
            let mut m = m;
            json::set_member(&mut m, "graph_build", info);
            Json::Obj(m)
        },
        (out, _) => out,
    }
}

// ---- the data of the responses ----

/// Whether `j` tells a matching line.
pub open spec fn is_match(j: Json, l: MatchLine) -> bool {
    let m = json::members(j);
    &&& json::has_keys(j, seq!["path"@, "line"@, "text"@])
    &&& json::is_str(m[0].value, l.path@)
    &&& json::is_uint(m[1].value, l.line_number as int)
    &&& json::is_str(m[2].value, l.line@)
}

fn match_json(l: &MatchLine) -> (j: Json)
    ensures
        is_match(j, *l),
{
    let mut m: Vec<Member> = Vec::new();
    m.push(json::member("path", json::str_json(l.path.as_str())));
    m.push(json::member("line", Json::Uint(l.line_number)));
    m.push(json::member("text", json::str_json(l.line.as_str())));
    proof {
        assert(m@.map_values(|x: Member| x.key@) =~= seq!["path"@, "line"@, "text"@]);
    }
    Json::Obj(m)
}

/// How many of `n` matches are shown.
pub open spec fn shown(n: nat, limit: Option<usize>) -> nat {
    match limit {
        Some(l) => if l < n {
            l as nat
        } else {
            n
        },
        None => n,
    }
}

/// Whether `j` tells how a search went.
pub open spec fn is_search_stats(j: Json, s: SearchStats) -> bool {
    let m = json::members(j);
    &&& json::has_keys(j, seq!["candidates"@, "scanned_all"@, "matches"@, "elapsed_us"@])
    &&& json::is_uint(m[0].value, s.candidates as int)
    &&& json::is_bool(m[1].value, s.scanned_all)
    &&& json::is_uint(m[2].value, s.matches as int)
    &&& json::is_uint(m[3].value, (s.elapsed_us as u64) as int)
}

/// Whether `j` answers a search: the first matches up to the limit, whether
/// there are more, and how the search went.
pub open spec fn is_search_reply(
    j: Json,
    matches: Seq<MatchLine>,
    stats: SearchStats,
    limit: Option<usize>,
) -> bool {
    let m = json::members(j);
    &&& json::has_keys(j, seq!["matches"@, "truncated"@, "stats"@])
    &&& m[0].value is Arr
    &&& json::items(m[0].value).len() == shown(matches.len(), limit)
    &&& forall|i: int|
        0 <= i < shown(matches.len(), limit) ==> is_match(
            #[trigger] json::items(m[0].value)[i],
            matches[i],
        )
    &&& json::is_bool(m[1].value, matches.len() > shown(matches.len(), limit))
    &&& is_search_stats(m[2].value, stats)
}

fn search_stats_json(s: &SearchStats) -> (j: Json)
    ensures
        is_search_stats(j, *s),
{
    let mut m: Vec<Member> = Vec::new();
    m.push(json::member("candidates", Json::Uint(s.candidates as u64)));
    m.push(json::member("scanned_all", Json::Bool(s.scanned_all)));
    m.push(json::member("matches", Json::Uint(s.matches as u64)));
    m.push(json::member("elapsed_us", Json::Uint(#[verifier::truncate] (s.elapsed_us as u64))));
    proof {
        assert(m@.map_values(|x: Member| x.key@) =~= seq![
            "candidates"@,
            "scanned_all"@,
            "matches"@,
            "elapsed_us"@,
        ]);
    }
    Json::Obj(m)
}

/// The answer to a search.
pub fn op_search(matches: &Vec<MatchLine>, stats: &SearchStats, limit: Option<usize>) -> (j: Json)
    ensures
        is_search_reply(j, matches@, *stats, limit),
{
    let n: usize = match limit {
        Some(l) => if l < matches.len() {
            l
        } else {
            matches.len()
        },
        None => matches.len(),
    };
    let mut v: Vec<Json> = Vec::new();
    let mut i: usize = 0;
    while i < n
        invariant
            i <= n <= matches@.len(),
            v@.len() == i,
            forall|k: int| 0 <= k < i ==> is_match(#[trigger] v@[k], matches@[k]),
        decreases n - i,
    {
        v.push(match_json(&matches[i]));
        i = i + 1;
    }
    let mut m: Vec<Member> = Vec::new();
    m.push(json::member("matches", Json::Arr(v)));
    m.push(json::member("truncated", Json::Bool(matches.len() > n)));
    m.push(json::member("stats", search_stats_json(stats)));
    proof {
        assert(m@.map_values(|x: Member| x.key@) =~= seq!["matches"@, "truncated"@, "stats"@]);
    }
    Json::Obj(m)
}

/// Whether `j` answers a look-up by name.
pub open spec fn is_symbol_reply(
    j: Json,
    syms: Seq<SymbolRow>,
    files: Map<i64, Seq<char>>,
    envelope: Json,
) -> bool {
    let m = json::members(j);
    &&& json::has_keys(j, seq!["symbols"@, "envelope"@])
    &&& graph_json::is_symbol_list(m[0].value, syms, files)
    &&& m[1].value == envelope
}

/// The answer to a look-up by name. `envelope` tells how much of the graph
/// stayed unresolved.
pub fn op_symbol(syms: &Vec<SymbolRow>, files: &FileMap, envelope: Json, built: Option<Json>) -> (j:
    Json)
    ensures
        exists|base: Json| #[trigger]
            is_symbol_reply(base, syms@, files@, envelope) && has_build_info(base, j, built),
{
    let mut m: Vec<Member> = Vec::new();
    m.push(json::member("symbols", graph_json::symbols_json(syms, files)));
    m.push(json::member("envelope", envelope));
    proof {
        assert(m@.map_values(|x: Member| x.key@) =~= seq!["symbols"@, "envelope"@]);
    }
    let base = Json::Obj(m);
    let ghost b = base;
    proof {
        assert(is_symbol_reply(b, syms@, files@, envelope));
    }
    merge_build_info(base, built)
}

/// Whether `j` answers a request for context.
pub open spec fn is_context_reply(
    j: Json,
    sym: SymbolRow,
    incoming: Seq<EdgeItem>,
    outgoing: Seq<EdgeItem>,
    files: Map<i64, Seq<char>>,
    envelope: Json,
    text: Seq<char>,
) -> bool {
    let m = json::members(j);
    &&& json::has_keys(
        j,
        seq!["symbol"@, "incoming"@, "outgoing"@, "envelope"@, "text"@],
    )
    &&& graph_json::is_symbol(m[0].value, sym, files)
    &&& graph_json::is_edges_by_kind(m[1].value, incoming, files)
    &&& graph_json::is_edges_by_kind(m[2].value, outgoing, files)
    &&& m[3].value == envelope
    &&& json::is_str(m[4].value, text)
}

/// The answer to a request for context. `text` is its rendering.
pub fn op_context(
    sym: &SymbolRow,
    incoming: &Vec<EdgeItem>,
    outgoing: &Vec<EdgeItem>,
    files: &FileMap,
    envelope: Json,
    text: &str,
    built: Option<Json>,
) -> (j: Json)
    ensures
        exists|base: Json| #[trigger]
            is_context_reply(base, *sym, incoming@, outgoing@, files@, envelope, text@)
                && has_build_info(base, j, built),
{
    let mut m: Vec<Member> = Vec::new();
    m.push(json::member("symbol", graph_json::symbol_json(sym, files)));
    m.push(json::member("incoming", graph_json::edges_by_kind(incoming, files)));
    m.push(json::member("outgoing", graph_json::edges_by_kind(outgoing, files)));
    m.push(json::member("envelope", envelope));
    m.push(json::member("text", json::str_json(text)));
    proof {
        assert(m@.map_values(|x: Member| x.key@) =~= seq![
            "symbol"@,
            "incoming"@,
            "outgoing"@,
            "envelope"@,
            "text"@,
        ]);
    }
    let base = Json::Obj(m);
    let ghost b = base;
    proof {
        assert(is_context_reply(b, *sym, incoming@, outgoing@, files@, envelope, text@));
    }
    merge_build_info(base, built)
}

/// How many neighbours on each side the text of a context shows.
pub const CONTEXT_NEIGHBOURS: usize = 20;

/// The symbols whose text a context shows behind its own: the known ends of
/// the first edges.
pub open spec fn shown_ends(edges: Seq<EdgeItem>, n: nat) -> Seq<SymbolRow>
    decreases n,
{
    if n == 0 {
        Seq::empty()
    } else {
        match edges[n - 1].other {
            Some(s) => shown_ends(edges, (n - 1) as nat).push(s),
            None => shown_ends(edges, (n - 1) as nat),
        }
    }
}

/// The known ends of the first edges, as many as a context shows.
pub fn neighbours<'a>(edges: &'a Vec<EdgeItem>) -> (r: Vec<&'a SymbolRow>)
    ensures
        r@.map_values(|s: &SymbolRow| *s) == shown_ends(
            edges@,
            if edges@.len() < CONTEXT_NEIGHBOURS {
                edges@.len()
            } else {
                CONTEXT_NEIGHBOURS as nat
            },
        ),
{
    let n: usize = if edges.len() < CONTEXT_NEIGHBOURS {
        edges.len()
    } else {
        CONTEXT_NEIGHBOURS
    };
    let mut r: Vec<&'a SymbolRow> = Vec::new();
    let mut i: usize = 0;
    proof {
        assert(r@.map_values(|s: &SymbolRow| *s) =~= shown_ends(edges@, 0));
    }
    while i < n
        invariant
            i <= n <= edges@.len(),
            r@.map_values(|s: &SymbolRow| *s) == shown_ends(edges@, i as nat),
        decreases n - i,
    {
        let ghost before = r@.map_values(|s: &SymbolRow| *s);
        match &edges[i].other {
            Some(s) => {
                r.push(s);
                proof {
                    assert(r@.map_values(|s: &SymbolRow| *s) =~= before.push(*s));
                }
            },
            None => {},
        }
        i = i + 1;
    }
    r
}

/// The name of a role.
pub open spec fn role_name(role: Role) -> Seq<char> {
    match role {
        Role::Callees => "callees"@,
        Role::Callers => "callers"@,
    }
}

/// Whether `j` answers a request for callers or callees.
pub open spec fn is_uses_reply(
    j: Json,
    sym: SymbolRow,
    role: Role,
    edges: Seq<EdgeItem>,
    files: Map<i64, Seq<char>>,
    envelope: Json,
) -> bool {
    let m = json::members(j);
    &&& json::has_keys(j, seq!["symbol"@, "role"@, "edges"@, "envelope"@])
    &&& graph_json::is_symbol(m[0].value, sym, files)
    &&& json::is_str(m[1].value, role_name(role))
    &&& graph_json::is_edge_list(m[2].value, edges, files)
    &&& m[3].value == envelope
}

/// The answer to a request for callers or callees.
pub fn op_uses(
    sym: &SymbolRow,
    role: Role,
    edges: &Vec<EdgeItem>,
    files: &FileMap,
    envelope: Json,
    built: Option<Json>,
) -> (j: Json)
    ensures
        exists|base: Json| #[trigger]
            is_uses_reply(base, *sym, role, edges@, files@, envelope) && has_build_info(
                base,
                j,
                built,
            ),
{
    let name = match role {
        Role::Callees => "callees",
        Role::Callers => "callers",
    };
    let mut m: Vec<Member> = Vec::new();
    m.push(json::member("symbol", graph_json::symbol_json(sym, files)));
    m.push(json::member("role", json::str_json(name)));
    m.push(json::member("edges", graph_json::edges_json(edges, files)));
    m.push(json::member("envelope", envelope));
    proof {
        assert(m@.map_values(|x: Member| x.key@) =~= seq![
            "symbol"@,
            "role"@,
            "edges"@,
            "envelope"@,
        ]);
    }
    let base = Json::Obj(m);
    let ghost b = base;
    proof {
        assert(is_uses_reply(b, *sym, role, edges@, files@, envelope));
    }
    merge_build_info(base, built)
}

/// Whether `j` holds `listing` under `key` alone.
pub open spec fn is_listing(j: Json, key: Seq<char>, listing: Json) -> bool {
    &&& json::has_keys(j, seq![key])
    &&& json::members(j)[0].value == listing
}

fn listing_json(key: &str, listing: Json) -> (j: Json)
    ensures
        is_listing(j, key@, listing),
{
    let mut m: Vec<Member> = Vec::new();
    m.push(json::member(key, listing));
    proof {
        assert(m@.map_values(|x: Member| x.key@) =~= seq![key@]);
    }
    Json::Obj(m)
}

/// The answer to a request for the execution flows.
pub fn op_processes(processes: Json, built: Option<Json>) -> (j: Json)
    ensures
        exists|base: Json| #[trigger]
            is_listing(base, "processes"@, processes) && has_build_info(base, j, built),
{
    let base = listing_json("processes", processes);
    let ghost b = base;
    proof {
        assert(is_listing(b, "processes"@, processes));
    }
    merge_build_info(base, built)
}

/// The answer to a request for the functional areas.
pub fn op_clusters(clusters: Json, built: Option<Json>) -> (j: Json)
    ensures
        exists|base: Json| #[trigger]
            is_listing(base, "clusters"@, clusters) && has_build_info(base, j, built),
{
    let base = listing_json("clusters", clusters);
    let ghost b = base;
    proof {
        assert(is_listing(b, "clusters"@, clusters));
    }
    merge_build_info(base, built)
}

/// What is known of the stored graph.
#[derive(Debug)]
pub enum GraphState {
    Absent,
    /// Files, symbols, edges and unresolved calls.
    Counts(u64, u64, u64, u64),
    /// It could not be opened; the message.
    Broken(String),
}

/// Whether `j` tells the state of the graph.
pub open spec fn is_graph_state(j: Json, g: GraphState) -> bool {
    let m = json::members(j);
    match g {
        GraphState::Absent => json::has_keys(j, seq!["present"@]) && json::is_bool(
            m[0].value,
            false,
        ),
        GraphState::Counts(files, symbols, edges, unresolved) => {
            &&& json::has_keys(
                j,
                seq!["present"@, "files"@, "symbols"@, "edges"@, "unresolved_calls"@],
            )
            &&& json::is_bool(m[0].value, true)
            &&& json::is_uint(m[1].value, files as int)
            &&& json::is_uint(m[2].value, symbols as int)
            &&& json::is_uint(m[3].value, edges as int)
            &&& json::is_uint(m[4].value, unresolved as int)
        },
        GraphState::Broken(e) => {
            &&& json::has_keys(j, seq!["present"@, "error"@])
            &&& json::is_bool(m[0].value, true)
            &&& json::is_str(m[1].value, e@)
        },
    }
}

fn graph_state_json(g: &GraphState) -> (j: Json)
    ensures
        is_graph_state(j, *g),
{
    let mut m: Vec<Member> = Vec::new();
    match g {
        GraphState::Absent => {
            m.push(json::member("present", Json::Bool(false)));
            proof {
                assert(m@.map_values(|x: Member| x.key@) =~= seq!["present"@]);
            }
        },
        GraphState::Counts(files, symbols, edges, unresolved) => {
            m.push(json::member("present", Json::Bool(true)));
            m.push(json::member("files", Json::Uint(*files)));
            m.push(json::member("symbols", Json::Uint(*symbols)));
            m.push(json::member("edges", Json::Uint(*edges)));
            m.push(json::member("unresolved_calls", Json::Uint(*unresolved)));
            proof {
                assert(m@.map_values(|x: Member| x.key@) =~= seq![
                    "present"@,
                    "files"@,
                    "symbols"@,
                    "edges"@,
                    "unresolved_calls"@,
                ]);
            }
        },
        GraphState::Broken(e) => {
            m.push(json::member("present", Json::Bool(true)));
            m.push(json::member("error", json::str_json(e.as_str())));
            proof {
                assert(m@.map_values(|x: Member| x.key@) =~= seq!["present"@, "error"@]);
            }
        },
    }
    Json::Obj(m)
}

/// Whether `j` tells the freshness of an index.
pub open spec fn is_freshness(j: Json, s: FreshnessStatus) -> bool {
    let m = json::members(j);
    &&& json::has_keys(
        j,
        seq!["commit_oid"@, "base_files"@, "delta_files"@, "overlay_files"@, "tombstones"@],
    )
    &&& json::is_opt_str(m[0].value, text::text_option(s.commit_oid))
    &&& json::is_uint(m[1].value, s.base_files as int)
    &&& json::is_uint(m[2].value, s.delta_files as int)
    &&& json::is_uint(m[3].value, s.overlay_files as int)
    &&& json::is_uint(m[4].value, s.tombstones as int)
}

fn freshness_json(s: &FreshnessStatus) -> (j: Json)
    ensures
        is_freshness(j, *s),
{
    let mut m: Vec<Member> = Vec::new();
    m.push(json::member("commit_oid", json::opt_str_json(&s.commit_oid)));
    m.push(json::member("base_files", Json::Uint(s.base_files as u64)));
    m.push(json::member("delta_files", Json::Uint(s.delta_files as u64)));
    m.push(json::member("overlay_files", Json::Uint(s.overlay_files as u64)));
    m.push(json::member("tombstones", Json::Uint(s.tombstones as u64)));
    proof {
        assert(m@.map_values(|x: Member| x.key@) =~= seq![
            "commit_oid"@,
            "base_files"@,
            "delta_files"@,
            "overlay_files"@,
            "tombstones"@,
        ]);
    }
    Json::Obj(m)
}

/// Whether `j` answers a request for the status.
pub open spec fn is_status_reply(
    j: Json,
    root: Seq<char>,
    s: FreshnessStatus,
    g: GraphState,
) -> bool {
    let m = json::members(j);
    &&& json::has_keys(j, seq!["root"@, "index"@, "graph"@])
    &&& json::is_str(m[0].value, root)
    &&& is_freshness(m[1].value, s)
    &&& is_graph_state(m[2].value, g)
}

/// The answer to a request for the status.
pub fn op_status(root: &str, s: &FreshnessStatus, g: &GraphState) -> (j: Json)
    ensures
        is_status_reply(j, root@, *s, *g),
{
    let mut m: Vec<Member> = Vec::new();
    m.push(json::member("root", json::str_json(root)));
    m.push(json::member("index", freshness_json(s)));
    m.push(json::member("graph", graph_state_json(g)));
    proof {
        assert(m@.map_values(|x: Member| x.key@) =~= seq!["root"@, "index"@, "graph"@]);
    }
    Json::Obj(m)
}

// ---- laws ----

/// The news of a build change nothing else: every other member of the answer
/// is as it was, and without news the answer is as it was.
pub proof fn build_news_change_nothing_else(
    before: Json,
    after: Json,
    built: Option<Json>,
    key: Seq<char>,
)
    requires
        has_build_info(before, after, built),
        key != "graph_build"@,
    ensures
        json::value_of(after, key) == json::value_of(before, key),
        before is Obj && built is Some ==> json::value_of(after, "graph_build"@) == built,
        !(before is Obj) || built is None ==> after == before,
{
    if before is Obj && built is Some {
        json::assigning_changes_one_member(before, after, "graph_build"@, built->0, key);
    }
}

} // verus!
