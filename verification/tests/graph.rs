use gitpixel::graph_build::{
    build_graph, rel_path, stale_files, symbol_uid, update_file, worth_reading, ExtractedCall,
    ExtractedImport, FileStep, IncomingCall, StoredFile,
};
use gitpixel::hash::{content_hash, hash_text};
use gitpixel::resolve::{
    best, Candidate, resolve_all, resolve_calls, CallEdge, Decision, FileCalls, PendingCall, ResolveIndex,
    StoreWrite, SymbolDef, SymbolKind, Tier, UnresolvedRow,
};

fn def(name: &str, file_id: i64, symbol_id: i64, kind: SymbolKind, line: u32) -> SymbolDef {
    SymbolDef { name: name.to_string(), file_id, symbol_id, kind, start_line: line }
}

fn copy(d: &SymbolDef) -> SymbolDef {
    def(&d.name, d.file_id, d.symbol_id, d.kind, d.start_line)
}

fn function(name: &str, file_id: i64, symbol_id: i64) -> SymbolDef {
    def(name, file_id, symbol_id, SymbolKind::Function, 1)
}

fn file(path: &str, file_id: i64, ids: Vec<i64>) -> StoredFile {
    StoredFile {
        path: path.to_string(),
        file_id,
        symbol_ids: ids,
        imports: Vec::new(),
        calls: Vec::new(),
    }
}

fn call(name: &str, at: Option<usize>, line: u32) -> ExtractedCall {
    ExtractedCall { callee_name: name.to_string(), enclosing_index: at, site_line: line }
}

fn edges(writes: &Vec<StoreWrite>) -> Vec<CallEdge> {
    writes
        .iter()
        .filter_map(|w| match w {
            StoreWrite::Edge(e) => Some(*e),
            StoreWrite::Relink { edge, row_id: _ } => Some(*edge),
            StoreWrite::Unresolved { .. } => None,
        })
        .collect()
}

#[test]
fn smoke_build_graph_ts_and_rust() {
    // a.ts: greet; b.ts: main, which imports ./a and calls greet; c.rs: helper
    // and run, which calls helper.
    let mut b = file("b.ts", 2, vec![20]);
    b.imports.push(ExtractedImport { spec: "./a".to_string(), target: Some("a.ts".to_string()) });
    b.calls.push(call("greet", Some(0), 3));
    let mut c = file("c.rs", 3, vec![30, 31]);
    c.calls.push(call("helper", Some(1), 2));
    let files = vec![file("a.ts", 1, vec![10]), b, c];
    let symbols = vec![
        function("greet", 1, 10),
        function("main", 2, 20),
        function("helper", 3, 30),
        function("run", 3, 31),
    ];

    let (imports, pending) = build_graph(&files);
    assert_eq!(imports.len(), 1);
    assert_eq!((imports[0].file_id, imports[0].resolved), (2, Some(1)));
    assert_eq!(imports[0].spec, "./a");
    let pairs: Vec<(i64, i64)> =
        imports.iter().filter_map(|i| i.resolved.map(|r| (i.file_id, r))).collect();
    let (stats, writes) = resolve_calls(&symbols, &pairs, &pending);
    let edges = edges(&writes);
    assert!(edges.len() >= 2, "cross-file + same-file call edges: {}", edges.len());
    // Cross-file: main -> greet must be an exact edge.
    let greet: Vec<&CallEdge> = edges.iter().filter(|e| e.dst_id == 10).collect();
    assert_eq!(greet.len(), 1, "exactly one caller of greet");
    assert_eq!(greet[0].tier, Tier::Exact);
    assert_eq!(greet[0].src_id, 20, "caller is b.ts main");
    // Same-file: run -> helper exact.
    let helper: Vec<&CallEdge> = edges.iter().filter(|e| e.dst_id == 30).collect();
    assert_eq!(helper.len(), 1);
    assert_eq!(helper[0].tier, Tier::Exact);
    assert_eq!((stats.exact, stats.probable, stats.unresolved), (2, 0, 0));
}

#[test]
fn smoke_update_file_relinks_callers() {
    // b.ts main calls greet of a.ts; a.ts is replaced and greet gets a new id.
    let incoming = vec![IncomingCall {
        name: "greet".to_string(),
        src_id: 20,
        src_file: Some(2),
        site_line: 2,
    }];
    let plan = update_file(Some((1, incoming)), true);
    assert_eq!(plan.step, FileStep::Replace);
    assert_eq!(plan.writes.len(), 1);
    let rows: Vec<UnresolvedRow> = plan
        .writes
        .into_iter()
        .enumerate()
        .map(|(i, w)| match w {
            StoreWrite::Unresolved { file_id, name, enclosing_symbol_id, site_line } => {
                UnresolvedRow {
                    id: i as i64 + 7,
                    file_id,
                    name,
                    enclosing: enclosing_symbol_id.unwrap(),
                    site_line,
                }
            }
            _ => panic!("a record"),
        })
        .collect();
    let symbols = vec![function("greet", 1, 11), function("main", 2, 20)];
    let (stats, writes) = resolve_all(&symbols, &vec![(2, 1)], &rows);
    assert_eq!(writes.len(), 1, "caller edge survives an incremental update");
    match &writes[0] {
        StoreWrite::Relink { edge, row_id } => {
            assert_eq!(*row_id, 7);
            assert_eq!(edge.tier, Tier::Exact);
            assert_eq!((edge.src_id, edge.dst_id, edge.site_line), (20, 11, 2));
        }
        _ => panic!("a relinked call"),
    }
    assert_eq!((stats.exact, stats.probable, stats.unresolved), (1, 0, 0));
}

#[test]
fn calls_of_unknown_origin_or_own_file_are_not_recorded() {
    let make = |src_file| IncomingCall {
        name: "f".to_string(),
        src_id: 5,
        src_file,
        site_line: 1,
    };
    let plan = update_file(Some((1, vec![make(None), make(Some(1)), make(Some(2))])), false);
    assert_eq!(plan.step, FileStep::Remove);
    assert_eq!(plan.writes.len(), 1);
    let plan = update_file(None, true);
    assert!(plan.writes.is_empty());
}

fn decide(symbols: Vec<SymbolDef>, imports: Vec<(i64, i64)>, caller: i64, name: &str) -> Decision {
    ResolveIndex::build(&symbols, &imports).decide(caller, name)
}

#[test]
fn tiers_are_tried_in_order() {
    let f = |file, id| function("f", file, id);
    // Own file first, whatever is imported.
    assert_eq!(decide(vec![f(2, 20), f(1, 10)], vec![(1, 2)], 1, "f"), Decision::Exact(10));
    // Exactly one imported file.
    assert_eq!(
        decide(vec![f(2, 20), f(3, 30)], vec![(1, 2)], 1, "f"),
        Decision::Exact(20)
    );
    // Two imported files are ambiguous.
    assert_eq!(
        decide(vec![f(2, 20), f(3, 30)], vec![(1, 2), (1, 3)], 1, "f"),
        Decision::Unresolved
    );
    // Unique in the repository.
    assert_eq!(decide(vec![f(9, 90)], vec![(1, 2)], 1, "f"), Decision::Probable(90));
    // Several files of the repository.
    assert_eq!(decide(vec![f(8, 80), f(9, 90)], vec![], 1, "f"), Decision::Unresolved);
    // Unknown names.
    assert_eq!(decide(vec![f(1, 10)], vec![], 1, "g"), Decision::Unresolved);
    // What cannot be called does not count.
    assert_eq!(
        decide(vec![def("f", 1, 10, SymbolKind::Other, 1)], vec![], 1, "f"),
        Decision::Unresolved
    );
}

#[test]
fn the_preferred_definition_of_a_file_is_meant() {
    let defs = || {
        vec![
            def("f", 1, 4, SymbolKind::Struct, 1),
            def("f", 1, 3, SymbolKind::Class, 1),
            def("f", 1, 2, SymbolKind::Method, 9),
            def("f", 1, 1, SymbolKind::Method, 9),
            def("f", 1, 5, SymbolKind::Method, 8),
        ]
    };
    assert_eq!(decide(defs(), vec![], 1, "f"), Decision::Exact(5));
    // In whatever order the definitions are listed.
    let mut turned = defs();
    for _ in 0..5 {
        turned.rotate_left(1);
        assert_eq!(decide(turned.iter().rev().map(copy).collect(), vec![], 1, "f"), Decision::Exact(5));
        assert_eq!(decide(turned.iter().map(copy).collect(), vec![], 1, "f"), Decision::Exact(5));
    }
    let mut more = defs();
    more.push(def("f", 1, 6, SymbolKind::Function, 99));
    assert_eq!(decide(more, vec![], 2, "f"), Decision::Probable(6));
    let mut tied = defs();
    tied.pop();
    assert_eq!(decide(tied, vec![], 1, "f"), Decision::Exact(1));
}

#[test]
fn every_call_gets_one_write() {
    let calls = vec![
        PendingCall { callee_name: "f".to_string(), enclosing_symbol_id: Some(1), site_line: 4 },
        PendingCall { callee_name: "f".to_string(), enclosing_symbol_id: None, site_line: 5 },
        PendingCall { callee_name: "g".to_string(), enclosing_symbol_id: Some(1), site_line: 6 },
    ];
    let pending = vec![FileCalls { file_id: 3, calls }, FileCalls { file_id: 4, calls: vec![] }];
    let (stats, writes) = resolve_calls(&vec![function("f", 9, 90)], &vec![], &pending);
    assert_eq!(writes.len(), 3);
    assert!(matches!(
        writes[0],
        StoreWrite::Edge(CallEdge { src_id: 1, dst_id: 90, tier: Tier::Probable, site_line: 4 })
    ));
    assert!(matches!(
        writes[1],
        StoreWrite::Unresolved { file_id: 3, enclosing_symbol_id: None, site_line: 5, .. }
    ));
    assert!(matches!(
        writes[2],
        StoreWrite::Unresolved { file_id: 3, enclosing_symbol_id: Some(1), site_line: 6, .. }
    ));
    assert_eq!((stats.exact, stats.probable, stats.unresolved), (0, 1, 2));
}

#[test]
fn retrying_twice_settles() {
    let row = |id, name: &str| UnresolvedRow {
        id,
        file_id: 1,
        name: name.to_string(),
        enclosing: 5,
        site_line: 1,
    };
    let symbols = vec![function("f", 2, 20)];
    let (stats, writes) = resolve_all(&symbols, &vec![], &vec![row(1, "f"), row(2, "g")]);
    assert_eq!(writes.len(), 1);
    assert_eq!((stats.probable, stats.unresolved), (1, 1));
    let (_, again) = resolve_all(&symbols, &vec![], &vec![row(2, "g")]);
    assert!(again.is_empty());
}

#[test]
fn imports_without_a_known_target_stay_open() {
    let mut f = file("a", 1, vec![]);
    f.imports.push(ExtractedImport { spec: "x".to_string(), target: None });
    f.imports.push(ExtractedImport { spec: "y".to_string(), target: Some("zz".to_string()) });
    f.calls.push(call("h", None, 8));
    let (imports, pending) = build_graph(&vec![f]);
    assert_eq!(imports.len(), 2);
    assert!(imports.iter().all(|i| i.resolved.is_none()));
    assert_eq!(pending.len(), 1);
    assert_eq!(pending[0].calls[0].enclosing_symbol_id, None);
    assert_eq!(pending[0].calls[0].site_line, 8);
}

#[test]
fn files_are_chosen_and_named() {
    assert_eq!(rel_path("src\\a.rs"), Some("src/a.rs".to_string()));
    assert_eq!(rel_path(""), None);
    assert!(worth_reading(true, true, Some(4 * 1024 * 1024)));
    assert!(!worth_reading(true, true, Some(4 * 1024 * 1024 + 1)));
    assert!(worth_reading(true, true, None));
    assert!(!worth_reading(false, true, None));
    assert!(!worth_reading(true, false, None));
    assert_eq!(symbol_uid("a.rs", "m::f", "function"), "a.rs#m::f#function");
    let stored = vec!["a".to_string(), "b".to_string(), "c".to_string()];
    let known = vec!["c".to_string(), "a".to_string()];
    assert_eq!(stale_files(&stored, &known), vec!["b"]);
}

#[test]
fn content_hashes_are_hexadecimal() {
    assert_eq!(hash_text(0xab), "00000000000000ab");
    assert_eq!(content_hash(b""), "2d06800538d394c2");
    let h = xxhash_rust::xxh3::xxh3_64(b"fn main() {}");
    assert_eq!(content_hash(b"fn main() {}"), format!("{h:016x}"));
}

#[test]
fn the_best_candidate_is_picked() {
    let cand = |symbol_id, kind, start_line| Candidate { file_id: 1, symbol_id, kind, start_line };
    let mut v = vec![
        cand(9, SymbolKind::Method, 3),
        cand(4, SymbolKind::Function, 80),
        cand(3, SymbolKind::Function, 80),
        cand(2, SymbolKind::Other, 1),
    ];
    for _ in 0..4 {
        v.rotate_left(1);
        assert_eq!(best(&v), Some(3));
    }
    assert_eq!(best(&v[3..].to_vec()), Some(2));
    assert_eq!(best(&Vec::new()), None);
}
