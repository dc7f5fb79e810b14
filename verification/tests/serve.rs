use gitpixel::api::{
    build_info, ensure_graph, graph_stats_json, merge_build_info, neighbours, op_clusters,
    op_context, op_processes, op_search, op_status, op_symbol, op_uses, Action, Direction,
    GraphState, GraphStep, Request, Response, Role, ServeError, Service,
};
use gitpixel::daemon::{
    after_ping, after_reply, bad_request, is_shutdown, pid_for, pid_path, record_event,
    request_line, socket_for, socket_path, ConnStep, DaemonLoop, FsChange, StartStep,
    DEBOUNCE, IDLE_TIMEOUT,
    MIN_WAIT,
};
use gitpixel::graph_build::GraphStats;
use gitpixel::graph_json::{
    candidates_value, context_item, edges_by_kind, file_map, found_by_uid, is_uid, read_snippet,
    resolve_symbol, symbol_json, unknown_symbol_error, EdgeItem, FileMap, FileRow, Resolved, SymbolRow,
};
use gitpixel::indexset::{FreshnessStatus, IndexSet, IndexSetError, MatchLine, SearchStats};
use gitpixel::ingest::{build_shard_from, FileGrams};
use gitpixel::json::{member, str_json, Json};
use gitpixel::posting::GramQuery;
use gitpixel::shard::Shard;
use gitpixel::text_set::TextMap;

/// The value as compact JSON text, members in their order.
fn show(j: &Json) -> String {
    match j {
        Json::Null => "null".to_string(),
        Json::Bool(b) => b.to_string(),
        Json::Uint(n) => n.to_string(),
        Json::Number(n) => n.clone(),
        Json::Str(s) => format!("{s:?}"),
        Json::Arr(v) => format!("[{}]", v.iter().map(show).collect::<Vec<_>>().join(",")),
        Json::Obj(m) => format!(
            "{{{}}}",
            m.iter().map(|x| format!("{:?}:{}", x.key, show(&x.value))).collect::<Vec<_>>().join(",")
        ),
    }
}

fn service() -> Service {
    let files = vec![FileGrams { path: "a.rs".to_string(), hashes: vec![1] }];
    let base = Shard::open(build_shard_from(files, "trigram", "oid")).unwrap();
    Service::open("/repo", IndexSet::open_or_build(base, None, Vec::new()))
}

fn reply(a: Action) -> Response {
    match a {
        Action::Reply(r) => r,
        _ => panic!("a reply"),
    }
}

#[test]
fn simple_requests_are_answered_at_once() {
    let s = service();
    let r = reply(s.handle(Request::Ping));
    assert!(r.ok && r.error.is_none());
    assert_eq!(show(&r.data), r#"{"pong":true,"root":"/repo"}"#);
    let r = reply(s.handle(Request::Shutdown));
    assert_eq!(show(&r.data), r#"{"shutting_down":true}"#);
    assert_eq!(s.root(), "/repo");
    assert_eq!(s.graph_db_path(), "/repo/.gitpixel/graph.db");
}

#[test]
fn requests_become_actions_with_defaults() {
    let s = service();
    let impact = |direction: &str, depth| Request::Impact {
        uid_or_name: "x".to_string(),
        direction: direction.to_string(),
        depth,
    };
    assert!(matches!(
        s.handle(impact("downstream", None)),
        Action::Impact { direction: Direction::Downstream, depth: 3, .. }
    ));
    assert!(matches!(
        s.handle(impact("sideways", Some(1))),
        Action::Impact { direction: Direction::Upstream, depth: 1, .. }
    ));
    let uses = |role: &str| Request::Uses { uid_or_name: "x".to_string(), role: role.to_string() };
    assert!(matches!(s.handle(uses("callees")), Action::Uses { role: Role::Callees, .. }));
    assert!(matches!(s.handle(uses("whatever")), Action::Uses { role: Role::Callers, .. }));
    assert!(matches!(
        s.handle(Request::Context { uid: "u".to_string(), budget_tokens: None }),
        Action::Context { budget_tokens: 2000, .. }
    ));
    assert!(matches!(
        s.handle(Request::Search { pattern: "p".to_string(), json: true, limit: Some(4) }),
        Action::Search { limit: Some(4), .. }
    ));
    assert!(matches!(s.handle(Request::Symbol { name: "n".to_string() }), Action::Symbol { .. }));
    assert!(matches!(
        s.handle(Request::Trace { from: "a".to_string(), to: "b".to_string() }),
        Action::Trace { .. }
    ));
    assert!(matches!(s.handle(Request::Processes {}), Action::Processes));
    assert!(matches!(s.handle(Request::Clusters {}), Action::Clusters));
    assert!(matches!(
        s.handle(Request::Changes { base: None }),
        Action::Changes { base: None }
    ));
    assert!(matches!(s.handle(Request::Status {}), Action::Status));
}

#[test]
fn the_service_keeps_its_index_fresh() {
    let mut s = service();
    assert_eq!(s.index().search(&GramQuery::Literal(1)).candidates, vec!["a.rs"]);
    s.refresh_file("a.rs", Some(vec![2]));
    assert!(s.index().search(&GramQuery::Literal(1)).candidates.is_empty());
    assert_eq!(s.index().search(&GramQuery::Literal(2)).candidates, vec!["a.rs"]);
    s.remove_file("a.rs");
    assert!(s.index().search(&GramQuery::All).candidates.is_empty());
}

#[test]
fn responses_carry_data_or_an_error() {
    let r = Response::ok(Json::Uint(1));
    assert!(r.ok && r.error.is_none());
    let r = Response::err("no");
    assert!(!r.ok);
    assert_eq!(r.error, Some("no".to_string()));
    assert!(r.data.is_null());
    assert!(Response::of_outcome(Ok(Json::Null)).ok);
    assert_eq!(Response::of_outcome(Err("e".to_string())).error, Some("e".to_string()));
    assert_eq!(ServeError::Io("x".to_string()).message(), "io error: x");
    assert_eq!(ServeError::Msg("m".to_string()).message(), "m");
    assert_eq!(
        ServeError::from(IndexSetError::Pattern("p".to_string())).message(),
        "bad pattern: p"
    );
}

fn sym(id: i64, name: &str, file_id: i64) -> SymbolRow {
    SymbolRow {
        id,
        uid: format!("f#{name}#function"),
        file_id,
        name: name.to_string(),
        qualified: format!("m::{name}"),
        kind: "function".to_string(),
        start_line: 2,
        end_line: 4,
        sig: "fn()".to_string(),
    }
}

fn files() -> FileMap {
    file_map(&vec![
        FileRow { id: 1, path: "old".to_string() },
        FileRow { id: 1, path: "src/a.rs".to_string() },
    ])
}

const F: &str = r#"{"uid":"f#f#function","name":"f","qualified":"m::f","kind":"function","path":"src/a.rs","start_line":2,"end_line":4,"sig":"fn()"}"#;

fn edge(kind: &str, other: Option<SymbolRow>) -> EdgeItem {
    EdgeItem { kind: kind.to_string(), tier: "exact".to_string(), site_line: 7, other }
}

#[test]
fn symbols_and_edges_become_json() {
    let files = files();
    assert_eq!(show(&symbol_json(&sym(1, "f", 1), &files)), F);
    assert!(show(&symbol_json(&sym(1, "f", 2), &files)).contains(r#""path":"""#));
    let edges = vec![edge("imports", None), edge("calls", Some(sym(1, "f", 1))), edge("imports", None)];
    assert_eq!(
        show(&edges_by_kind(&edges, &files)),
        format!(
            r#"{{"calls":[{{"symbol":{F},"tier":"exact","site_line":7}}],"imports":[{{"symbol":null,"tier":"exact","site_line":7}},{{"symbol":null,"tier":"exact","site_line":7}}]}}"#
        )
    );
    assert_eq!(show(&edges_by_kind(&Vec::new(), &files)), "{}");
}

#[test]
fn names_resolve_or_are_ambiguous() {
    assert!(is_uid("a#b#c"));
    assert!(!is_uid("abc"));
    assert_eq!(
        resolve_symbol("a#\"b", Vec::new()).err(),
        Some(r#"no symbol with uid "a#\"b""#.to_string())
    );
    assert_eq!(
        resolve_symbol("nope", Vec::new()).err(),
        Some(r#"no symbol named "nope""#.to_string())
    );
    assert_eq!(unknown_symbol_error(false, "'x'"), "no symbol named 'x'");
    assert_eq!(found_by_uid("u", None).err(), Some("no symbol with uid \"u\"".to_string()));
    assert!(matches!(found_by_uid("u", Some(sym(4, "f", 1))), Ok(s) if s.id == 4));
    assert!(matches!(resolve_symbol("f", vec![sym(1, "f", 1)]), Ok(Resolved::One(s)) if s.id == 1));
    assert!(
        matches!(resolve_symbol("f", vec![sym(1, "f", 1), sym(2, "f", 1)]), Ok(Resolved::Many(v)) if v.len() == 2)
    );
    let j = candidates_value(&vec![sym(1, "f", 1)], &files());
    assert_eq!(
        show(&j),
        format!(r#"{{"candidates":[{F}],"hint":"ambiguous name; re-call with uid"}}"#)
    );
}

#[test]
fn snippets_show_the_lines_of_a_symbol() {
    let text = "one\ntwo\r\nthree\nfour";
    assert_eq!(read_snippet(Some(text), 2, 3, 60), "two\nthree");
    assert_eq!(read_snippet(Some(text), 0, 0, 60), "one");
    assert_eq!(read_snippet(Some(text), 3, 2, 60), "three");
    assert_eq!(read_snippet(Some(text), 1, 9, 2), "one\ntwo");
    assert_eq!(read_snippet(Some(text), 1, 9, 0), "one");
    assert_eq!(read_snippet(Some(text), 9, 12, 60), "");
    assert_eq!(read_snippet(Some("a\n\n"), 1, 9, 60), "a\n");
    assert_eq!(read_snippet(Some("a\r"), 1, 1, 60), "a\r");
    assert_eq!(read_snippet(None, 1, 2, 60), "");
    let item = context_item(&sym(1, "f", 1), &files(), Some(text));
    assert_eq!((item.name.as_str(), item.path.as_str()), ("f", "src/a.rs"));
    assert_eq!(item.snippet, "two\nthree\nfour");
}

fn stats() -> GraphStats {
    GraphStats { files: 1, symbols: 2, edges: 3, unresolved: 4, elapsed_ms: 5 }
}

#[test]
fn the_graph_is_built_on_first_use() {
    assert_eq!(ensure_graph(true, false), GraphStep::Ready);
    assert_eq!(ensure_graph(false, true), GraphStep::Open);
    assert_eq!(ensure_graph(false, false), GraphStep::BuildAndOpen);
    let stats_text = r#"{"files":1,"symbols":2,"edges":3,"unresolved":4,"elapsed_ms":5}"#;
    assert_eq!(show(&graph_stats_json(&stats())), stats_text);
    let info = build_info(9, &stats());
    assert_eq!(
        show(&info),
        format!(r#"{{"graph_built":true,"build_ms":9,"stats":{stats_text}}}"#)
    );
    let out = Json::Obj(vec![member("x", Json::Uint(1))]);
    let merged = merge_build_info(out, Some(Json::Uint(3)));
    assert_eq!(show(&merged), r#"{"x":1,"graph_build":3}"#);
    let again = merge_build_info(merged, Some(Json::Uint(4)));
    assert_eq!(show(&again), r#"{"x":1,"graph_build":4}"#);
    assert_eq!(show(&merge_build_info(Json::Null, Some(Json::Uint(3)))), "null");
    assert_eq!(show(&merge_build_info(Json::Obj(vec![]), None)), "{}");
}

#[test]
fn answers_have_their_members() {
    let files = files();
    let f = || sym(1, "f", 1);
    assert_eq!(
        show(&op_symbol(&vec![f()], &files, Json::Null, None)),
        format!(r#"{{"symbols":[{F}],"envelope":null}}"#)
    );
    assert_eq!(
        show(&op_uses(&f(), Role::Callers, &vec![edge("calls", None)], &files, Json::Bool(true), Some(Json::Uint(1)))),
        format!(
            r#"{{"symbol":{F},"role":"callers","edges":[{{"symbol":null,"tier":"exact","site_line":7}}],"envelope":true,"graph_build":1}}"#
        )
    );
    assert!(show(&op_uses(&f(), Role::Callees, &vec![], &files, Json::Null, None))
        .contains(r#""role":"callees""#));
    assert_eq!(
        show(&op_context(&f(), &vec![], &vec![], &files, Json::Null, "text", None)),
        format!(r#"{{"symbol":{F},"incoming":{{}},"outgoing":{{}},"envelope":null,"text":"text"}}"#)
    );
    assert_eq!(show(&op_processes(Json::Arr(vec![]), None)), r#"{"processes":[]}"#);
    assert_eq!(show(&op_clusters(str_json("x"), None)), r#"{"clusters":"x"}"#);
    let many: Vec<EdgeItem> =
        (0..30).map(|i| edge("calls", if i % 2 == 0 { Some(sym(i, "f", 1)) } else { None })).collect();
    let shown: Vec<i64> = neighbours(&many).iter().map(|s| s.id).collect();
    assert_eq!(shown, vec![0, 2, 4, 6, 8, 10, 12, 14, 16, 18]);
}

#[test]
fn searches_are_limited() {
    let lines: Vec<MatchLine> = (1..4)
        .map(|n| MatchLine { path: "p".to_string(), line_number: n, line: "t".to_string() })
        .collect();
    let stats =
        SearchStats { candidates: 8, scanned_all: true, matches: 3, elapsed_us: (1u128 << 64) + 6 };
    let j = op_search(&lines, &stats, Some(1));
    assert_eq!(
        show(&j),
        r#"{"matches":[{"path":"p","line":1,"text":"t"}],"truncated":true,"stats":{"candidates":8,"scanned_all":true,"matches":3,"elapsed_us":6}}"#
    );
    let all = op_search(&lines, &stats, None);
    assert_eq!(all.get_items("matches").unwrap().len(), 3);
    assert_eq!(all.get_bool("truncated"), Some(false));
}

#[test]
fn the_status_tells_index_and_graph() {
    let s = FreshnessStatus {
        commit_oid: None,
        base_files: 1,
        delta_files: 2,
        overlay_files: 3,
        tombstones: 4,
    };
    let index = r#"{"commit_oid":null,"base_files":1,"delta_files":2,"overlay_files":3,"tombstones":4}"#;
    assert_eq!(
        show(&op_status("/r", &s, &GraphState::Absent)),
        format!(r#"{{"root":"/r","index":{index},"graph":{{"present":false}}}}"#)
    );
    let counted = op_status("/r", &s, &GraphState::Counts(1, 2, 3, 4));
    assert_eq!(
        show(counted.get("graph").unwrap()),
        r#"{"present":true,"files":1,"symbols":2,"edges":3,"unresolved_calls":4}"#
    );
    let broken = op_status("/r", &s, &GraphState::Broken("locked".to_string()));
    assert_eq!(show(broken.get("graph").unwrap()), r#"{"present":true,"error":"locked"}"#);
}

// ---- daemon ----

#[test]
fn sockets_are_named_by_the_hash_of_the_root() {
    assert_eq!(socket_for("/tmp", 0xab), "/tmp/gitpixel-00000000000000ab.sock");
    assert_eq!(pid_for("/tmp/", 0xab), "/tmp/gitpixel-00000000000000ab.pid");
    let h = xxhash_rust::xxh3::xxh3_64(b"/repo");
    assert_eq!(socket_path("/tmp", "/repo"), format!("/tmp/gitpixel-{h:016x}.sock"));
    assert_eq!(pid_path("/tmp", "/repo"), format!("/tmp/gitpixel-{h:016x}.pid"));
}

fn change(rel: &str, removed: bool) -> FsChange {
    FsChange { rel: rel.to_string(), is_dir: false, removed }
}

#[test]
fn changes_are_filtered_and_the_last_wins() {
    let mut pending: TextMap<bool> = TextMap::new();
    record_event(
        &mut pending,
        &vec![
            change("b.rs", false),
            change("a.rs", true),
            change("target/debug/x", false),
            change("sub/.git/HEAD", false),
            change("node_modules", false),
            change(".gitpixel/base.shard", false),
            change("", true),
            FsChange { rel: "dir".to_string(), is_dir: true, removed: false },
            change("a.rs", false),
            change("b.rs", true),
            change("targets/x", false),
        ],
    );
    assert_eq!(pending.keys(), &vec!["a.rs", "b.rs", "targets/x"]);
    assert_eq!(pending.get("a.rs"), Some(&false));
    assert_eq!(pending.get("b.rs"), Some(&true));
}

#[test]
fn the_loop_waits_flushes_and_stops() {
    let mut l = DaemonLoop::new(0);
    assert!(l.goes_on());
    assert_eq!(l.wait_time(0), IDLE_TIMEOUT);
    assert_eq!(l.wait_time(IDLE_TIMEOUT - 1), MIN_WAIT);
    l.on_changes(&vec![change("target/x", false)], 5);
    assert_eq!(l.wait_time(5), IDLE_TIMEOUT - 5);
    l.on_changes(&vec![change("z", false), change("a", true)], 100);
    assert_eq!(l.wait_time(100), DEBOUNCE);
    assert!(l.take_due(100 + DEBOUNCE - 1).is_empty());
    // A later change makes the others settle anew.
    l.on_changes(&vec![change("m", false)], 200);
    assert!(l.take_due(100 + DEBOUNCE).is_empty());
    let due: Vec<(String, bool)> =
        l.take_due(200 + DEBOUNCE).into_iter().map(|c| (c.rel, c.removed)).collect();
    assert_eq!(
        due,
        vec![("a".to_string(), true), ("m".to_string(), false), ("z".to_string(), false)]
    );
    assert!(l.take_due(u64::MAX).is_empty());
    assert!(!l.is_idle(IDLE_TIMEOUT - 1));
    assert!(l.is_idle(IDLE_TIMEOUT));
    l.on_connect(IDLE_TIMEOUT);
    assert!(!l.is_idle(IDLE_TIMEOUT + 1));
    l.on_shutdown();
    assert!(!l.goes_on());
}

#[test]
fn connections_follow_their_lines() {
    assert_eq!(request_line("  {\"op\":\"ping\"}\n"), Some("{\"op\":\"ping\"}".to_string()));
    assert_eq!(request_line(" \t\n"), None);
    assert_eq!(request_line("\u{3000}a b\u{85}\u{2028}"), Some("a b".to_string()));
    let blank = "\u{9}\u{a}\u{b}\u{c}\u{d} \u{85}\u{a0}\u{1680}\u{2000}\u{2001}\u{2002}\u{2003}\
        \u{2004}\u{2005}\u{2006}\u{2007}\u{2008}\u{2009}\u{200a}\u{2028}\u{2029}\u{202f}\u{205f}\
        \u{3000}";
    for c in '\0'..=char::MAX {
        assert_eq!(request_line(&c.to_string()).is_none(), blank.contains(c));
    }
    assert!(is_shutdown(&Request::Shutdown));
    assert!(!is_shutdown(&Request::Ping));
    assert_eq!(bad_request("eof").error, Some("bad request: eof".to_string()));
    assert_eq!(after_reply(false, true), ConnStep::Close);
    assert_eq!(after_reply(true, true), ConnStep::CloseAndStop);
    assert_eq!(after_reply(true, false), ConnStep::Next);
}

#[test]
fn starting_is_tried_a_hundred_times() {
    assert_eq!(after_ping(0, true), StartStep::Started);
    assert_eq!(after_ping(99, true), StartStep::Started);
    assert_eq!(after_ping(0, false), StartStep::Sleep);
    assert_eq!(after_ping(98, false), StartStep::Sleep);
    assert_eq!(after_ping(99, false), StartStep::GiveUp);
    assert_eq!(after_ping(u32::MAX, false), StartStep::GiveUp);
}
