//! What a reader finds in the answers of the service.
use vstd::prelude::*;

use crate::api;
use crate::api::{Action, Direction, GraphState, Request, Role, ServeError};
use crate::graph_build::GraphStats;
use crate::graph_json;
use crate::graph_json::{EdgeItem, FileRow, SymbolRow};
use crate::indexset::{FreshnessStatus, IndexSetError, MatchLine, SearchStats};
use crate::json;
use crate::json::{Json, Member};
use crate::shard::ShardError;
use crate::text;

verus! {

// ---- values ----

/// A key has the value of the first member with that key, and none where no
/// member has it.
pub proof fn keys_have_their_first_value(members: Vec<Member>, key: Seq<char>, i: int)
    ensures
        0 <= i < members@.len() && members@[i].key@ == key && (forall|k: int|
            0 <= k < i ==> (#[trigger] members@[k]).key@ != key) ==> json::value_of(
            Json::Obj(members),
            key,
        ) == Some(members@[i].value),
        (forall|k: int| 0 <= k < members@.len() ==> (#[trigger] members@[k]).key@ != key)
            ==> json::value_of(Json::Obj(members), key) is None,
{
    if 0 <= i < members@.len() && members@[i].key@ == key && (forall|k: int|
        0 <= k < i ==> (#[trigger] members@[k]).key@ != key) {
        json::lemma_key_place(members@, key, i);
    }
    if forall|k: int| 0 <= k < members@.len() ==> (#[trigger] members@[k]).key@ != key {
        json::lemma_key_place(members@, key, members@.len() as int);
    }
}

/// What a reader finds under the keys of an object whose keys differ.
proof fn lemma_member(j: Json, keys: Seq<Seq<char>>, i: int)
    requires
        json::has_keys(j, keys),
        keys.no_duplicates(),
        0 <= i < keys.len(),
    ensures
        json::members(j).len() == keys.len(),
        json::value_of(j, keys[i]) == Some(json::members(j)[i].value),
{
    let m = json::members(j);
    let names = m.map_values(|x: Member| x.key@);
    assert(names.len() == m.len());
    assert forall|k: int| 0 <= k < i implies (#[trigger] m[k]).key@ != keys[i] by {
        assert(names[k] == m[k].key@);
        assert(keys[k] != keys[i]);
    }
    assert(names[i] == m[i].key@);
    json::lemma_key_place(m, keys[i], i);
}

/// The text under a key.
pub open spec fn text_at(j: Json, key: Seq<char>) -> Option<Seq<char>> {
    json::str_of(json::value_of(j, key))
}

/// The number under a key.
pub open spec fn number_at(j: Json, key: Seq<char>) -> Option<u64> {
    json::uint_of(json::value_of(j, key))
}

/// The truth value under a key.
pub open spec fn truth_at(j: Json, key: Seq<char>) -> Option<bool> {
    json::bool_of(json::value_of(j, key))
}

// ---- symbols and edges ----

/// A reader finds each column of a symbol's row under its name, and the path of
/// its file.
pub proof fn symbols_tell_their_row(j: Json, s: SymbolRow, files: Map<i64, Seq<char>>)
    requires
        graph_json::is_symbol(j, s, files),
    ensures
        text_at(j, "uid"@) == Some(s.uid@),
        text_at(j, "name"@) == Some(s.name@),
        text_at(j, "qualified"@) == Some(s.qualified@),
        text_at(j, "kind"@) == Some(s.kind@),
        files.contains_key(s.file_id) ==> text_at(j, "path"@) == Some(files[s.file_id]),
        !files.contains_key(s.file_id) ==> text_at(j, "path"@) == Some(Seq::<char>::empty()),
        number_at(j, "start_line"@) == Some(s.start_line as u64),
        number_at(j, "end_line"@) == Some(s.end_line as u64),
        text_at(j, "sig"@) == Some(s.sig@),
        json::members(j).len() == 8,
{
    reveal_strlit("uid");
    assert("uid"@.len() == 3);
    reveal_strlit("name");
    assert("name"@.len() == 4);
    reveal_strlit("qualified");
    assert("qualified"@.len() == 9);
    reveal_strlit("kind");
    assert("kind"@.len() == 4);
    reveal_strlit("path");
    assert("path"@.len() == 4);
    reveal_strlit("start_line");
    assert("start_line"@.len() == 10);
    reveal_strlit("end_line");
    assert("end_line"@.len() == 8);
    reveal_strlit("sig");
    assert("sig"@.len() == 3);
    let keys = seq![
        "uid"@,
        "name"@,
        "qualified"@,
        "kind"@,
        "path"@,
        "start_line"@,
        "end_line"@,
        "sig"@,
    ];
    assert("uid"@[0] != "sig"@[0]);
    assert("name"@[0] != "kind"@[0]);
    assert("name"@[0] != "path"@[0]);
    assert("kind"@[0] != "path"@[0]);
    assert(keys.no_duplicates());
    lemma_member(j, keys, 0);
    lemma_member(j, keys, 1);
    lemma_member(j, keys, 2);
    lemma_member(j, keys, 3);
    lemma_member(j, keys, 4);
    lemma_member(j, keys, 5);
    lemma_member(j, keys, 6);
    lemma_member(j, keys, 7);
}

/// A file has the path of its last row, and none without a row.
pub proof fn files_have_the_path_of_their_last_row(rows: Seq<FileRow>, id: i64, i: int)
    ensures
        0 <= i < rows.len() && rows[i].id == id && (forall|k: int|
            i < k < rows.len() ==> (#[trigger] rows[k]).id != id) ==> {
            &&& graph_json::paths_by_id(rows).contains_key(id)
            &&& graph_json::paths_by_id(rows)[id] == rows[i].path@
        },
        (forall|k: int| 0 <= k < rows.len() ==> (#[trigger] rows[k]).id != id)
            ==> !graph_json::paths_by_id(rows).contains_key(id),
    decreases rows.len(),
{
    if rows.len() > 0 {
        let rest = rows.drop_last();
        let last = rows.len() - 1;
        files_have_the_path_of_their_last_row(rest, id, i);
        if 0 <= i < last && rows[i].id == id && (forall|k: int|
            i < k < rows.len() ==> (#[trigger] rows[k]).id != id) {
            assert(rows[last].id != id);
            assert forall|k: int| i < k < rest.len() implies (#[trigger] rest[k]).id != id by {
                assert(rest[k] == rows[k]);
            }
            assert(rest[i] == rows[i]);
        }
        if forall|k: int| 0 <= k < rows.len() ==> (#[trigger] rows[k]).id != id {
            assert(rows[last].id != id);
            assert forall|k: int| 0 <= k < rest.len() implies (#[trigger] rest[k]).id != id by {
                assert(rest[k] == rows[k]);
            }
        }
    }
}

/// A reader finds the tier and the line of an edge, and the symbol at its other
/// end, or null where that is unknown.
pub proof fn edges_tell_their_end(j: Json, e: EdgeItem, files: Map<i64, Seq<char>>)
    requires
        graph_json::is_edge(j, e, files),
    ensures
        json::members(j).len() == 3,
        text_at(j, "tier"@) == Some(e.tier@),
        number_at(j, "site_line"@) == Some(e.site_line as u64),
        e.other is None ==> json::value_of(j, "symbol"@) == Some(Json::Null),
        e.other matches Some(s) ==> {
            &&& json::value_of(j, "symbol"@) matches Some(v)
            &&& graph_json::is_symbol(v, s, files)
        },
{
    reveal_strlit("symbol");
    assert("symbol"@.len() == 6);
    reveal_strlit("tier");
    assert("tier"@.len() == 4);
    reveal_strlit("site_line");
    assert("site_line"@.len() == 9);
    let keys = seq!["symbol"@, "tier"@, "site_line"@];
    assert(keys.no_duplicates());
    lemma_member(j, keys, 0);
    lemma_member(j, keys, 1);
    lemma_member(j, keys, 2);
}

/// A list of edges has an item for each edge, in order.
pub proof fn edge_lists_keep_the_order(
    j: Json,
    edges: Seq<EdgeItem>,
    files: Map<i64, Seq<char>>,
    i: int,
)
    requires
        graph_json::is_edge_list(j, edges, files),
    ensures
        json::items(j).len() == edges.len(),
        0 <= i < edges.len() ==> graph_json::is_edge(json::items(j)[i], edges[i], files),
{
}

/// A list of symbols has an item for each symbol, in order.
pub proof fn symbol_lists_keep_the_order(
    j: Json,
    syms: Seq<SymbolRow>,
    files: Map<i64, Seq<char>>,
    i: int,
)
    requires
        graph_json::is_symbol_list(j, syms, files),
    ensures
        json::items(j).len() == syms.len(),
        0 <= i < syms.len() ==> graph_json::is_symbol(json::items(j)[i], syms[i], files),
{
}

/// Edges by kind: a reader finds under each kind that occurs the edges of that
/// kind, all of them and in order, and nothing under any other key.
pub proof fn kinds_list_their_edges(
    j: Json,
    edges: Seq<EdgeItem>,
    files: Map<i64, Seq<char>>,
    kind: Seq<char>,
)
    requires
        graph_json::is_edges_by_kind(j, edges, files),
    ensures
        json::value_of(j, kind) is Some <==> exists|i: int|
            0 <= i < edges.len() && (#[trigger] edges[i]).kind@ == kind,
        json::value_of(j, kind) matches Some(v) ==> graph_json::is_edge_list(
            v,
            edges.filter(|e: EdgeItem| e.kind@ == kind),
            files,
        ),
{
    let m = json::members(j);
    let keys = m.map_values(|x: Member| x.key@);
    json::lemma_place_is_first(m, kind);
    let at = json::key_place(m, kind);
    if at < m.len() {
        assert(keys[at] == kind);
        assert(keys.contains(kind));
        assert(graph_json::of_kind(m[at].key@) =~= (|e: EdgeItem| e.kind@ == kind));
    }
    if keys.contains(kind) {
        let k = choose|k: int| 0 <= k < keys.len() && keys[k] == kind;
        assert(m[k].key@ == kind);
    }
}

/// An ambiguous name is answered with all of its symbols and the hint to ask by
/// uid.
pub proof fn ambiguous_names_list_their_symbols(
    j: Json,
    syms: Seq<SymbolRow>,
    files: Map<i64, Seq<char>>,
)
    requires
        graph_json::is_candidates(j, syms, files),
    ensures
        json::members(j).len() == 2,
        json::value_of(j, "candidates"@) matches Some(v) && graph_json::is_symbol_list(
            v,
            syms,
            files,
        ),
        text_at(j, "hint"@) == Some("ambiguous name; re-call with uid"@),
{
    reveal_strlit("candidates");
    assert("candidates"@.len() == 10);
    reveal_strlit("hint");
    assert("hint"@.len() == 4);
    let keys = seq!["candidates"@, "hint"@];
    assert(keys.no_duplicates());
    lemma_member(j, keys, 0);
    lemma_member(j, keys, 1);
}

/// The error of an unknown symbol says whether a uid or a name was asked for.
pub proof fn unknown_symbols_are_named(q: Seq<char>)
    ensures
        graph_json::unknown_symbol(true, q) == "no symbol with uid "@ + q,
        graph_json::unknown_symbol(false, q) == "no symbol named "@ + q,
{
}

// ---- snippets ----

/// The lines of a symbol are shown from its first to its last, as many as are
/// allowed and as the file has: a symbol without a first line starts at the
/// first of the file, and one line is asked for at least.
pub proof fn snippets_show_the_symbols_lines(
    content: Seq<char>,
    start_line: u32,
    end_line: u32,
    max: nat,
)
    ensures
        ({
            let lines = text::lines(content);
            let from: int = if start_line == 0 {
                0
            } else {
                start_line - 1
            };
            let asked: int = if end_line - from < 1 || max < 1 {
                1
            } else if end_line - from < max {
                end_line - from
            } else {
                max as int
            };
            let n: int = if from >= lines.len() {
                0
            } else if lines.len() - from < asked {
                lines.len() - from
            } else {
                asked
            };
            graph_json::symbol_lines(content, start_line, end_line, max) == text::separated(
                Seq::new(n as nat, |i: int| lines[from + i]),
                '\n',
            )
        }),
{
    let lines = text::lines(content);
    let from: int = if start_line == 0 {
        0
    } else {
        start_line - 1
    };
    let asked: int = if end_line - from < 1 || max < 1 {
        1
    } else if end_line - from < max {
        end_line - from
    } else {
        max as int
    };
    let n: int = if from >= lines.len() {
        0
    } else if lines.len() - from < asked {
        lines.len() - from
    } else {
        asked
    };
    assert(graph_json::line_range(
        lines,
        graph_json::first_line(start_line),
        graph_json::line_count(start_line, end_line, max),
    ) =~= Seq::new(n as nat, |i: int| lines[from + i]));
}

// ---- errors ----

/// Errors tell what they are about: a shard's own message, and the message of
/// the system behind what failed.
pub proof fn errors_tell_what_failed(e: ShardError, m: String, i: IndexSetError, found: u32)
    ensures
        (ShardError::Io(m)).message_view() == "shard io error: "@ + m@,
        (ShardError::VersionMismatch { found }).message_view() == "shard version "@ + text::dec(
            found as nat,
        ) + " != supported "@ + text::dec(1),
        IndexSetError::Shard(e).message_view() == e.message_view(),
        IndexSetError::Verify(m).message_view() == m@,
        IndexSetError::Pattern(m).message_view() == "bad pattern: "@ + m@,
        IndexSetError::Io(m).message_view() == "io error: "@ + m@,
        IndexSetError::Index(m).message_view() == m@,
        ServeError::Index(i).message_view() == i.message_view(),
        ServeError::Io(m).message_view() == "io error: "@ + m@,
        ServeError::Msg(m).message_view() == m@,
{
}

// ---- requests ----

/// What each request asks for: a search keeps its pattern and limit, a context
/// has two thousand tokens and a blast radius three steps unless the request
/// says otherwise, only "downstream" spreads downstream, and only "callees" asks
/// for callees.
pub proof fn requests_become_actions(req: Request, root: Seq<char>, a: Action)
    requires
        api::asks_for(req, root, a),
    ensures
        match req {
            Request::Ping => a matches Action::Reply(r) && r.ok && r.error is None && truth_at(
                r.data,
                "pong"@,
            ) == Some(true) && text_at(r.data, "root"@) == Some(root),
            Request::Shutdown => a matches Action::Reply(r) && r.ok && r.error is None && truth_at(
                r.data,
                "shutting_down"@,
            ) == Some(true),
            Request::Search { pattern, json, limit } => a matches Action::Search {
                pattern: p,
                limit: l,
            } && p == pattern && l == limit,
            Request::Symbol { name } => a matches Action::Symbol { name: n } && n == name,
            Request::Context { uid, budget_tokens } => a matches Action::Context {
                uid: u,
                budget_tokens: b,
            } && u == uid && (budget_tokens is None ==> b == 2000) && (budget_tokens is Some ==> b
                == budget_tokens->0),
            Request::Impact { uid_or_name, direction, depth } => a matches Action::Impact {
                uid_or_name: u,
                direction: d,
                depth: n,
            } && u == uid_or_name && (d == Direction::Downstream <==> direction@ == "downstream"@)
                && (depth is None ==> n == 3) && (depth is Some ==> n == depth->0),
            Request::Uses { uid_or_name, role } => a matches Action::Uses {
                uid_or_name: u,
                role: r,
            } && u == uid_or_name && (r == Role::Callees <==> role@ == "callees"@),
            Request::Trace { from, to } => a matches Action::Trace { from: f, to: t } && f == from
                && t == to,
            Request::Processes {  } => a is Processes,
            Request::Clusters {  } => a is Clusters,
            Request::Changes { base } => a matches Action::Changes { base: b } && b == base,
            Request::Status {  } => a is Status,
        },
{
    reveal_strlit("pong");
    assert("pong"@.len() == 4);
    reveal_strlit("root");
    assert("root"@.len() == 4);
    reveal_strlit("shutting_down");
    assert("shutting_down"@.len() == 13);
    match req {
        Request::Ping => {
            let keys = seq!["pong"@, "root"@];
            assert("pong"@[0] != "root"@[0]);
            assert(keys.no_duplicates());
            let data = a->Reply_0.data;
            lemma_member(data, keys, 0);
            lemma_member(data, keys, 1);
        },
        Request::Shutdown => {
            let keys = seq!["shutting_down"@];
            assert(keys.no_duplicates());
            lemma_member(a->Reply_0.data, keys, 0);
        },
        _ => {},
    }
}

// ---- answers ----

/// A reader finds a matching line's path, number and text.
pub proof fn matches_tell_their_line(j: Json, l: MatchLine)
    requires
        api::is_match(j, l),
    ensures
        json::members(j).len() == 3,
        text_at(j, "path"@) == Some(l.path@),
        number_at(j, "line"@) == Some(l.line_number),
        text_at(j, "text"@) == Some(l.line@),
{
    reveal_strlit("path");
    assert("path"@.len() == 4);
    reveal_strlit("line");
    assert("line"@.len() == 4);
    reveal_strlit("text");
    assert("text"@.len() == 4);
    let keys = seq!["path"@, "line"@, "text"@];
    assert("path"@[0] != "line"@[0]);
    assert("path"@[0] != "text"@[0]);
    assert("line"@[0] != "text"@[0]);
    assert(keys.no_duplicates());
    lemma_member(j, keys, 0);
    lemma_member(j, keys, 1);
    lemma_member(j, keys, 2);
}

/// The answer to a search lists the first matches in order, as many as the
/// limit allows, says whether that left any out, and carries the statistics of
/// the whole search.
pub proof fn searches_show_the_first_matches(
    j: Json,
    matches: Seq<MatchLine>,
    stats: SearchStats,
    limit: Option<usize>,
)
    requires
        api::is_search_reply(j, matches, stats, limit),
    ensures
        json::members(j).len() == 3,
        json::value_of(j, "matches"@) matches Some(Json::Arr(v)) && {
            &&& v@.len() <= matches.len()
            &&& limit is None ==> v@.len() == matches.len()
            &&& limit matches Some(n) ==> v@.len() <= n && (v@.len() < matches.len() ==> v@.len()
                == n)
            &&& forall|i: int|
                0 <= i < v@.len() ==> api::is_match(#[trigger] v@[i], matches[i])
            &&& truth_at(j, "truncated"@) == Some(v@.len() < matches.len())
        },
        json::value_of(j, "stats"@) matches Some(v) && api::is_search_stats(v, stats),
{
    reveal_strlit("matches");
    assert("matches"@.len() == 7);
    reveal_strlit("truncated");
    assert("truncated"@.len() == 9);
    reveal_strlit("stats");
    assert("stats"@.len() == 5);
    let keys = seq!["matches"@, "truncated"@, "stats"@];
    assert(keys.no_duplicates());
    lemma_member(j, keys, 0);
    lemma_member(j, keys, 1);
    lemma_member(j, keys, 2);
}

/// A reader finds each number of a search under its name, and whether every
/// file was scanned.
pub proof fn search_statistics_are_found(j: Json, s: SearchStats)
    requires
        api::is_search_stats(j, s),
    ensures
        json::members(j).len() == 4,
        number_at(j, "candidates"@) == Some(s.candidates as u64),
        truth_at(j, "scanned_all"@) == Some(s.scanned_all),
        number_at(j, "matches"@) == Some(s.matches as u64),
        s.elapsed_us <= u64::MAX ==> number_at(j, "elapsed_us"@) == Some(s.elapsed_us as u64),
{
    reveal_strlit("matches");
    assert("matches"@.len() == 7);
    reveal_strlit("candidates");
    assert("candidates"@.len() == 10);
    reveal_strlit("scanned_all");
    assert("scanned_all"@.len() == 11);
    reveal_strlit("elapsed_us");
    assert("elapsed_us"@.len() == 10);
    let keys = seq!["candidates"@, "scanned_all"@, "matches"@, "elapsed_us"@];
    assert("candidates"@[0] != "elapsed_us"@[0]);
    assert(keys.no_duplicates());
    lemma_member(j, keys, 0);
    lemma_member(j, keys, 1);
    lemma_member(j, keys, 2);
    lemma_member(j, keys, 3);
}

/// The answer to a look-up by name lists the symbols and carries the envelope.
pub proof fn lookups_list_their_symbols(
    j: Json,
    syms: Seq<SymbolRow>,
    files: Map<i64, Seq<char>>,
    envelope: Json,
)
    requires
        api::is_symbol_reply(j, syms, files, envelope),
    ensures
        json::members(j).len() == 2,
        json::value_of(j, "symbols"@) matches Some(v) && graph_json::is_symbol_list(v, syms, files),
        json::value_of(j, "envelope"@) == Some(envelope),
{
    reveal_strlit("symbols");
    assert("symbols"@.len() == 7);
    reveal_strlit("envelope");
    assert("envelope"@.len() == 8);
    let keys = seq!["symbols"@, "envelope"@];
    assert(keys.no_duplicates());
    lemma_member(j, keys, 0);
    lemma_member(j, keys, 1);
}

/// The answer to a request for context tells the symbol, the edges into it and
/// out of it by kind, the envelope and the text.
pub proof fn contexts_tell_both_sides(
    j: Json,
    sym: SymbolRow,
    incoming: Seq<EdgeItem>,
    outgoing: Seq<EdgeItem>,
    files: Map<i64, Seq<char>>,
    envelope: Json,
    shown: Seq<char>,
)
    requires
        api::is_context_reply(j, sym, incoming, outgoing, files, envelope, shown),
    ensures
        json::members(j).len() == 5,
        json::value_of(j, "symbol"@) matches Some(v) && graph_json::is_symbol(v, sym, files),
        json::value_of(j, "incoming"@) matches Some(v) && graph_json::is_edges_by_kind(
            v,
            incoming,
            files,
        ),
        json::value_of(j, "outgoing"@) matches Some(v) && graph_json::is_edges_by_kind(
            v,
            outgoing,
            files,
        ),
        json::value_of(j, "envelope"@) == Some(envelope),
        text_at(j, "text"@) == Some(shown),
{
    reveal_strlit("symbol");
    assert("symbol"@.len() == 6);
    reveal_strlit("incoming");
    assert("incoming"@.len() == 8);
    reveal_strlit("outgoing");
    assert("outgoing"@.len() == 8);
    reveal_strlit("envelope");
    assert("envelope"@.len() == 8);
    reveal_strlit("text");
    assert("text"@.len() == 4);
    let keys = seq!["symbol"@, "incoming"@, "outgoing"@, "envelope"@, "text"@];
    assert("incoming"@[0] != "outgoing"@[0]);
    assert("incoming"@[0] != "envelope"@[0]);
    assert("outgoing"@[0] != "envelope"@[0]);
    assert(keys.no_duplicates());
    lemma_member(j, keys, 0);
    lemma_member(j, keys, 1);
    lemma_member(j, keys, 2);
    lemma_member(j, keys, 3);
    lemma_member(j, keys, 4);
}

/// The answer to a request for callers or callees tells the symbol, the role
/// that was asked for, the edges in order, and the envelope.
pub proof fn uses_tell_their_role(
    j: Json,
    sym: SymbolRow,
    role: Role,
    edges: Seq<EdgeItem>,
    files: Map<i64, Seq<char>>,
    envelope: Json,
)
    requires
        api::is_uses_reply(j, sym, role, edges, files, envelope),
    ensures
        json::members(j).len() == 4,
        json::value_of(j, "symbol"@) matches Some(v) && graph_json::is_symbol(v, sym, files),
        role is Callers ==> text_at(j, "role"@) == Some("callers"@),
        role is Callees ==> text_at(j, "role"@) == Some("callees"@),
        json::value_of(j, "edges"@) matches Some(v) && graph_json::is_edge_list(v, edges, files),
        json::value_of(j, "envelope"@) == Some(envelope),
{
    reveal_strlit("symbol");
    assert("symbol"@.len() == 6);
    reveal_strlit("role");
    assert("role"@.len() == 4);
    reveal_strlit("edges");
    assert("edges"@.len() == 5);
    reveal_strlit("envelope");
    assert("envelope"@.len() == 8);
    let keys = seq!["symbol"@, "role"@, "edges"@, "envelope"@];
    assert(keys.no_duplicates());
    lemma_member(j, keys, 0);
    lemma_member(j, keys, 1);
    lemma_member(j, keys, 2);
    lemma_member(j, keys, 3);
}

/// A listing is found under its key.
pub proof fn listings_are_found(j: Json, key: Seq<char>, listing: Json)
    requires
        api::is_listing(j, key, listing),
    ensures
        json::members(j).len() == 1,
        json::value_of(j, key) == Some(listing),
{
    let keys = seq![key];
    assert(keys.no_duplicates());
    lemma_member(j, keys, 0);
}

/// The neighbours that a context shows are the known ends among the first twenty
/// edges, in order.
pub proof fn contexts_show_twenty_neighbours(edges: Seq<EdgeItem>, n: nat)
    requires
        n <= edges.len(),
    ensures
        api::shown_ends(edges, n) == edges.take(n as int).filter(
            |e: EdgeItem| e.other is Some,
        ).map_values(|e: EdgeItem| e.other->0),
        api::CONTEXT_NEIGHBOURS == 20,
    decreases n,
{
    reveal(Seq::filter);
    let keep = |e: EdgeItem| e.other is Some;
    if n == 0 {
        assert(edges.take(0).filter(keep).map_values(|e: EdgeItem| e.other->0)
            =~= Seq::<SymbolRow>::empty());
    } else {
        contexts_show_twenty_neighbours(edges, (n - 1) as nat);
        assert(edges.take(n as int).drop_last() =~= edges.take(n - 1));
        assert(api::shown_ends(edges, n) =~= edges.take(n as int).filter(keep).map_values(
            |e: EdgeItem| e.other->0,
        ));
    }
}

/// A reader finds each number of a graph under its name.
pub proof fn graph_numbers_are_found(j: Json, s: GraphStats)
    requires
        api::is_graph_stats(j, s),
    ensures
        json::members(j).len() == 5,
        number_at(j, "files"@) == Some(s.files),
        number_at(j, "symbols"@) == Some(s.symbols),
        number_at(j, "edges"@) == Some(s.edges),
        number_at(j, "unresolved"@) == Some(s.unresolved),
        s.elapsed_ms <= u64::MAX ==> number_at(j, "elapsed_ms"@) == Some(s.elapsed_ms as u64),
{
    reveal_strlit("files");
    assert("files"@.len() == 5);
    reveal_strlit("symbols");
    assert("symbols"@.len() == 7);
    reveal_strlit("edges");
    assert("edges"@.len() == 5);
    reveal_strlit("unresolved");
    assert("unresolved"@.len() == 10);
    reveal_strlit("elapsed_ms");
    assert("elapsed_ms"@.len() == 10);
    let keys = seq!["files"@, "symbols"@, "edges"@, "unresolved"@, "elapsed_ms"@];
    assert("files"@[0] != "edges"@[0]);
    assert("unresolved"@[0] != "elapsed_ms"@[0]);
    assert(keys.no_duplicates());
    lemma_member(j, keys, 0);
    lemma_member(j, keys, 1);
    lemma_member(j, keys, 2);
    lemma_member(j, keys, 3);
    lemma_member(j, keys, 4);
}

/// The news of a build tell that there was one, how long it took, and the
/// numbers of the graph.
pub proof fn build_news_tell_the_build(j: Json, build_ms: u64, s: GraphStats)
    requires
        api::is_build_info(j, build_ms, s),
    ensures
        json::members(j).len() == 3,
        truth_at(j, "graph_built"@) == Some(true),
        number_at(j, "build_ms"@) == Some(build_ms),
        json::value_of(j, "stats"@) matches Some(v) && api::is_graph_stats(v, s),
{
    reveal_strlit("graph_built");
    assert("graph_built"@.len() == 11);
    reveal_strlit("build_ms");
    assert("build_ms"@.len() == 8);
    reveal_strlit("stats");
    assert("stats"@.len() == 5);
    let keys = seq!["graph_built"@, "build_ms"@, "stats"@];
    assert(keys.no_duplicates());
    lemma_member(j, keys, 0);
    lemma_member(j, keys, 1);
    lemma_member(j, keys, 2);
}

/// A reader finds each number of an index's freshness under its name, and the
/// commit, or null where there is none.
pub proof fn freshness_is_found(j: Json, s: FreshnessStatus)
    requires
        api::is_freshness(j, s),
    ensures
        json::members(j).len() == 5,
        s.commit_oid is None ==> json::value_of(j, "commit_oid"@) == Some(Json::Null),
        s.commit_oid matches Some(o) ==> text_at(j, "commit_oid"@) == Some(o@),
        number_at(j, "base_files"@) == Some(s.base_files as u64),
        number_at(j, "delta_files"@) == Some(s.delta_files as u64),
        number_at(j, "overlay_files"@) == Some(s.overlay_files as u64),
        number_at(j, "tombstones"@) == Some(s.tombstones as u64),
{
    reveal_strlit("commit_oid");
    assert("commit_oid"@.len() == 10);
    reveal_strlit("base_files");
    assert("base_files"@.len() == 10);
    reveal_strlit("delta_files");
    assert("delta_files"@.len() == 11);
    reveal_strlit("overlay_files");
    assert("overlay_files"@.len() == 13);
    reveal_strlit("tombstones");
    assert("tombstones"@.len() == 10);
    let keys = seq![
        "commit_oid"@,
        "base_files"@,
        "delta_files"@,
        "overlay_files"@,
        "tombstones"@,
    ];
    assert("commit_oid"@[0] != "base_files"@[0]);
    assert("commit_oid"@[0] != "tombstones"@[0]);
    assert("base_files"@[0] != "tombstones"@[0]);
    assert(keys.no_duplicates());
    lemma_member(j, keys, 0);
    lemma_member(j, keys, 1);
    lemma_member(j, keys, 2);
    lemma_member(j, keys, 3);
    lemma_member(j, keys, 4);
}

/// A reader finds whether there is a graph, and its counts or why it cannot be
/// opened.
pub proof fn graph_state_is_found(j: Json, g: GraphState)
    requires
        api::is_graph_state(j, g),
    ensures
        json::members(j).len() == (match g {
            GraphState::Absent => 1nat,
            GraphState::Counts(_, _, _, _) => 5,
            GraphState::Broken(_) => 2,
        }),
        truth_at(j, "present"@) == Some(!(g is Absent)),
        g matches GraphState::Counts(files, symbols, edges, unresolved) ==> {
            &&& number_at(j, "files"@) == Some(files)
            &&& number_at(j, "symbols"@) == Some(symbols)
            &&& number_at(j, "edges"@) == Some(edges)
            &&& number_at(j, "unresolved_calls"@) == Some(unresolved)
        },
        g matches GraphState::Broken(e) ==> text_at(j, "error"@) == Some(e@),
{
    reveal_strlit("present");
    assert("present"@.len() == 7);
    reveal_strlit("files");
    assert("files"@.len() == 5);
    reveal_strlit("symbols");
    assert("symbols"@.len() == 7);
    reveal_strlit("edges");
    assert("edges"@.len() == 5);
    reveal_strlit("unresolved_calls");
    assert("unresolved_calls"@.len() == 16);
    reveal_strlit("error");
    assert("error"@.len() == 5);
    match g {
        GraphState::Absent => {
            let keys = seq!["present"@];
            assert(keys.no_duplicates());
            lemma_member(j, keys, 0);
        },
        GraphState::Counts(_, _, _, _) => {
            let keys = seq!["present"@, "files"@, "symbols"@, "edges"@, "unresolved_calls"@];
            assert("files"@[0] != "edges"@[0]);
            assert("present"@[0] != "symbols"@[0]);
            assert(keys.no_duplicates());
            lemma_member(j, keys, 0);
            lemma_member(j, keys, 1);
            lemma_member(j, keys, 2);
            lemma_member(j, keys, 3);
            lemma_member(j, keys, 4);
        },
        GraphState::Broken(_) => {
            let keys = seq!["present"@, "error"@];
            assert(keys.no_duplicates());
            lemma_member(j, keys, 0);
            lemma_member(j, keys, 1);
        },
    }
}

/// The answer to a request for the status tells the root, the freshness of the
/// index and the state of the graph.
pub proof fn status_is_found(j: Json, root: Seq<char>, s: FreshnessStatus, g: GraphState)
    requires
        api::is_status_reply(j, root, s, g),
    ensures
        json::members(j).len() == 3,
        text_at(j, "root"@) == Some(root),
        json::value_of(j, "index"@) matches Some(v) && api::is_freshness(v, s),
        json::value_of(j, "graph"@) matches Some(v) && api::is_graph_state(v, g),
{
    reveal_strlit("root");
    assert("root"@.len() == 4);
    reveal_strlit("index");
    assert("index"@.len() == 5);
    reveal_strlit("graph");
    assert("graph"@.len() == 5);
    let keys = seq!["root"@, "index"@, "graph"@];
    assert("index"@[0] != "graph"@[0]);
    assert(keys.no_duplicates());
    lemma_member(j, keys, 0);
    lemma_member(j, keys, 1);
    lemma_member(j, keys, 2);
}

} // verus!
