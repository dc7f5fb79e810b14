use gitpixel::api::Response;
use gitpixel::cli::{
    announce_graph_build, choose_source, context_lines, context_text, envelope_note, extractor_for_shard, finish_graph_cmd,
    make_extractor, match_row, parse_extractor, print_search_matches, search_stats_line,
    shard_stats_line, status_lines, symbol_line, symbol_lines, unsupported_error, unwrap_response,
    uses_lines, Extractor, ExtractorKind, GraphOutput, Source,
};
use gitpixel::ingest::FileGrams;
use gitpixel::json::{member, opt_str_json, set_member, str_json, Json, Member};
use gitpixel::order::{stable_sort, text_before};
use gitpixel::shard::{Shard, ShardBuilder};
use gitpixel::text::{
    char_width, count_filling, count_within, first_char, has_char, has_prefix, join_path,
    last_char, lines_of, push_dec, push_dec_int, push_filled, push_hex, push_separated, same_text,
    split_on, text_of,
};
use gitpixel::text_set::{TextMap, TextSet};

fn obj(m: Vec<(&str, Json)>) -> Json {
    Json::Obj(m.into_iter().map(|(k, v)| member(k, v)).collect::<Vec<Member>>())
}

fn sym() -> Json {
    obj(vec![
        ("uid", str_json("u#f#function")),
        ("name", str_json("f")),
        ("kind", str_json("function")),
        ("path", str_json("a.rs")),
        ("start_line", Json::Uint(3)),
        ("end_line", Json::Uint(9)),
    ])
}

#[test]
fn responses_unwrap() {
    assert_eq!(unwrap_response(Response::err("bad")).err(), Some("bad".to_string()));
    let silent = Response { ok: false, error: None, data: Json::Null };
    assert_eq!(unwrap_response(silent).err(), Some("unknown error".to_string()));
    assert!(matches!(unwrap_response(Response::ok(Json::Uint(2))), Ok(Json::Uint(2))));
}

#[test]
fn symbols_print_in_columns() {
    assert_eq!(symbol_line(&sym()), "function  f  a.rs:3-9  u#f#function");
    assert_eq!(symbol_line(&Json::Null), "?         ?  ?:0-0  ?");
    let long = obj(vec![("kind", str_json("constructor"))]);
    assert_eq!(symbol_line(&long), "constructor ?  ?:0-0  ?");
}

#[test]
fn notes_are_printed_when_due() {
    let built = obj(vec![("graph_build", obj(vec![("build_ms", Json::Uint(12))]))]);
    assert_eq!(
        announce_graph_build(&built),
        Some("gitpixel: built graph.db on first use (12 ms)".to_string())
    );
    assert_eq!(announce_graph_build(&Json::Null), None);
    let env = |b| {
        obj(vec![(
            "envelope",
            obj(vec![("lower_bound", Json::Bool(b)), ("unresolved_same_name", Json::Uint(4))]),
        )])
    };
    assert_eq!(
        envelope_note(&env(true)),
        Some("note: lower bound — 4 same-name call site(s) unresolved".to_string())
    );
    assert_eq!(envelope_note(&env(false)), None);
    assert_eq!(envelope_note(&Json::Null), None);
}

#[test]
fn graph_answers_choose_their_form() {
    let many = obj(vec![("candidates", Json::Arr(vec![sym(), Json::Null]))]);
    assert!(matches!(finish_graph_cmd(&many, true), GraphOutput::Raw));
    match finish_graph_cmd(&many, false) {
        GraphOutput::Candidates(lines) => {
            assert_eq!(lines, vec!["  u#f#function  (function a.rs:3)", "  ?  (? ?:0)"])
        }
        _ => panic!("candidates"),
    }
    assert!(matches!(finish_graph_cmd(&sym(), false), GraphOutput::Pretty));
}

#[test]
fn look_ups_list_their_symbols() {
    let found = obj(vec![("symbols", Json::Arr(vec![sym()]))]);
    assert_eq!(symbol_lines(&found), Some(vec!["function  f  a.rs:3-9  u#f#function".to_string()]));
    let none = obj(vec![("symbols", Json::Arr(vec![]))]);
    assert_eq!(symbol_lines(&none), Some(vec!["no symbols found".to_string()]));
    assert_eq!(symbol_lines(&Json::Null), None);
}

#[test]
fn uses_list_their_edges() {
    let edges = Json::Arr(vec![
        obj(vec![("symbol", sym()), ("tier", str_json("exact")), ("site_line", Json::Uint(5))]),
        obj(vec![("symbol", Json::Null)]),
    ]);
    let data = obj(vec![("symbol", sym()), ("role", str_json("callers")), ("edges", edges)]);
    assert_eq!(
        uses_lines(&data),
        Some(vec![
            "function  f  a.rs:3-9  u#f#function".to_string(),
            "callers: 2".to_string(),
            "  [exact] line 5  function  f  a.rs:3-9  u#f#function".to_string(),
            "  [?] line 0  <unknown symbol>".to_string(),
        ])
    );
    assert_eq!(uses_lines(&obj(vec![])), None);
    assert_eq!(context_text(&obj(vec![("text", str_json("t"))])), Some("t"));
    assert_eq!(context_text(&obj(vec![("text", str_json(""))])), None);
    assert_eq!(context_text(&Json::Null), None);
    assert_eq!(
        context_lines(&Json::Null, "{}", "[]"),
        vec!["\nincoming: {}".to_string(), "outgoing: []".to_string()]
    );
    let full = obj(vec![("symbol", Json::Null), ("text", str_json("t"))]);
    assert_eq!(context_lines(&full, "{}", "[]"), vec![symbol_line(&Json::Null), "\nt".to_string()]);
}

#[test]
fn searches_print_lines_and_stats() {
    let m = vec![
        obj(vec![("path", str_json("a")), ("line", Json::Uint(4)), ("text", str_json("x y"))]),
        Json::Null,
    ];
    assert_eq!(print_search_matches(&m), "a:4:x y\n:0:\n");
    let row = match_row(&m[0]);
    assert_eq!(row.get_str("path"), Some("a"));
    assert_eq!(row.get_uint("line"), Some(4));
    assert_eq!(row.get_str("text"), Some("x y"));
    assert_eq!(match_row(&Json::Null).get_str("path"), Some(""));
    let stats = |all| {
        obj(vec![
            ("candidates", Json::Uint(7)),
            ("scanned_all", Json::Bool(all)),
            ("matches", Json::Uint(2)),
            ("elapsed_us", Json::Uint(99)),
        ])
    };
    assert_eq!(
        search_stats_line(&stats(true)),
        "candidates=7 (full scan) matches=2 elapsed_us=99"
    );
    assert_eq!(search_stats_line(&stats(false)), "candidates=7 matches=2 elapsed_us=99");
}

#[test]
fn the_status_prints_line_by_line() {
    let data = obj(vec![
        ("root", str_json("/r")),
        (
            "index",
            obj(vec![
                ("commit_oid", Json::Null),
                ("base_files", Json::Uint(1)),
                ("delta_files", Json::Uint(2)),
                ("overlay_files", Json::Uint(3)),
                ("tombstones", Json::Uint(4)),
            ]),
        ),
        (
            "graph",
            obj(vec![
                ("present", Json::Bool(true)),
                ("files", Json::Uint(5)),
                ("symbols", Json::Uint(6)),
                ("edges", Json::Uint(7)),
                ("unresolved_calls", Json::Uint(8)),
            ]),
        ),
    ]);
    assert_eq!(
        status_lines(&data, true),
        vec![
            "root: /r",
            "index: commit=- base_files=1 delta_files=2 overlay_files=3 tombstones=4",
            "graph: files=5 symbols=6 edges=7 unresolved_calls=8",
            "daemon: running",
        ]
    );
    assert_eq!(
        status_lines(&Json::Null, false),
        vec![
            "root: ?",
            "graph: not built (runs on first graph command)",
            "daemon: not running",
        ]
    );
}

#[test]
fn extractors_are_named() {
    assert_eq!(make_extractor(ExtractorKind::Trigram, 3, 9), Extractor::Trigram);
    assert_eq!(
        make_extractor(ExtractorKind::Sparse, 3, 9),
        Extractor::Sparse { min: 3, max: 9 }
    );
    assert_eq!(parse_extractor("trigram"), Some(Extractor::Trigram));
    assert_eq!(
        parse_extractor("sparse-crc32-3-16"),
        Some(Extractor::Sparse { min: 3, max: 16 })
    );
    assert_eq!(
        parse_extractor("sparse-crc32-+03-16"),
        Some(Extractor::Sparse { min: 3, max: 16 })
    );
    let max = format!("sparse-crc32-0-{}", usize::MAX);
    assert_eq!(parse_extractor(&max), Some(Extractor::Sparse { min: 0, max: usize::MAX }));
    let over = format!("sparse-crc32-0-{}0", usize::MAX);
    for bad in [
        "trigrams", "sparse-crc32-", "sparse-crc32-3", "sparse-crc32--4", "sparse-crc32-3-",
        "sparse-crc32-3-4-5", "sparse-crc32-x-4", "sparse-crc32-+-4", "", &over,
    ] {
        assert_eq!(parse_extractor(bad), None, "{bad}");
    }
    assert_eq!(
        unsupported_error("\"x\""),
        "index built with unsupported extractor \"x\"; re-run `gitpixel index`"
    );
    let shard = Shard::open(ShardBuilder::new("od\"d").write()).unwrap();
    assert_eq!(
        extractor_for_shard(&shard),
        Err("index built with unsupported extractor \"od\\\"d\"; re-run `gitpixel index`"
            .to_string())
    );
    assert_eq!(shard_stats_line(&shard), "files=0 grams=0 extractor=od\"d commit=-");
}

// ---- text ----

#[test]
fn numbers_are_written() {
    let mut s = String::new();
    push_dec(&mut s, u64::MAX);
    push_dec_int(&mut s, i64::MIN);
    push_dec_int(&mut s, 0);
    push_hex(&mut s, 0xbeef, 6);
    assert_eq!(s, "18446744073709551615-9223372036854775808000beef");
    let mut s = "x".to_string();
    push_filled(&mut s, "é", 3);
    push_filled(&mut s, "long", 3);
    assert_eq!(s, "xé  long");
}

#[test]
fn texts_are_taken_apart() {
    assert!(same_text("é", "é") && !same_text("a", "b") && !same_text("a", "ab"));
    assert_eq!(first_char("éa"), Some('é'));
    assert_eq!(last_char("aé"), Some('é'));
    assert_eq!((first_char(""), last_char("")), (None, None));
    assert!(has_char("a#b", '#') && !has_char("ab", '#'));
    assert!(has_prefix("abc", "ab") && has_prefix("abc", "") && !has_prefix("a", "ab"));
    assert_eq!(text_of(&vec!['a', 'b', 'c'], 1, 3), "bc");
    assert_eq!(split_on("a//b", '/'), vec!["a", "", "b"]);
    assert_eq!(lines_of("a\r\nb\n\nc"), vec!["a", "b", "", "c"]);
    assert!(lines_of("").is_empty());
    let mut s = String::new();
    push_separated(&mut s, &vec!["a".to_string(), "".to_string(), "b".to_string()], '|');
    assert_eq!(s, "a||b");
    assert_eq!(join_path("/a", "b"), "/a/b");
    assert_eq!(join_path("/a/", "b"), "/a/b");
    assert_eq!(join_path("", "b"), "b");
    assert_eq!(join_path("/a", "/b"), "/b");
}

#[test]
fn widths_are_bytes() {
    for c in ['a', '\u{7f}', '\u{80}', 'é', '\u{7ff}', '\u{800}', '…', '\u{ffff}', '😀'] {
        assert_eq!(char_width(c), c.len_utf8());
    }
    let chars: Vec<char> = "aé…z".chars().collect();
    assert_eq!(count_within(&chars, 0, 3), 2);
    assert_eq!(count_within(&chars, 0, 5), 2);
    assert_eq!(count_within(&chars, 1, 5), 2);
    assert_eq!(count_filling(&chars, 0, 2), 2);
    assert_eq!(count_filling(&chars, 0, 4), 3);
    assert_eq!(count_filling(&chars, 0, 99), 4);
    assert_eq!(count_filling(&chars, 0, 0), 0);
}

#[test]
fn texts_are_ordered_by_bytes() {
    for (a, b) in [("a", "b"), ("", "a"), ("Z", "a"), ("a", "a/"), ("z", "é"), ("é", "😀")] {
        assert!(text_before(a, b));
        assert!(!text_before(b, a));
        assert_eq!(a < b, text_before(a, b));
    }
    assert!(!text_before("x", "x"));
}

#[test]
fn sets_and_maps_keep_their_keys_in_order() {
    let mut s = TextSet::new();
    assert!(s.insert("b") && s.insert("a") && !s.insert("b"));
    assert_eq!(s.items(), &vec!["a", "b"]);
    assert!(s.contains("a") && !s.contains("c"));
    assert_eq!(s.position("az"), 1);
    assert!(s.remove("a") && !s.remove("a"));
    assert_eq!(s.len(), 1);
    let mut m: TextMap<u32> = TextMap::new();
    m.insert("y", 1);
    m.insert("x", 2);
    m.insert("y", 3);
    assert_eq!(m.keys(), &vec!["x", "y"]);
    assert_eq!((m.value_at(0), m.value_at(1)), (&2, &3));
    assert_eq!(m.get("y"), Some(&3));
    m.remove("y");
    m.remove("zz");
    assert_eq!((m.len(), m.get("y")), (1, None));
}

#[test]
fn sorting_is_stable() {
    let f = |p: &str, h: u64| FileGrams { path: p.to_string(), hashes: vec![h] };
    let sorted = stable_sort(vec![f("b", 1), f("a", 2), f("b", 3), f("a", 4)]);
    let got: Vec<(&str, u64)> = sorted.iter().map(|x| (x.path.as_str(), x.hashes[0])).collect();
    assert_eq!(got, vec![("a", 2), ("a", 4), ("b", 1), ("b", 3)]);
}

#[test]
fn members_are_assigned_in_place() {
    let mut m: Vec<Member> = vec![member("a", Json::Uint(1)), member("b", Json::Uint(2))];
    set_member(&mut m, "a", Json::Bool(true));
    set_member(&mut m, "c", opt_str_json(&Some("x".to_string())));
    let j = Json::Obj(m);
    assert_eq!(j.get_bool("a"), Some(true));
    assert_eq!(j.get_uint("b"), Some(2));
    assert_eq!(j.get_str("c"), Some("x"));
    assert!(j.get("d").is_none());
    assert!(opt_str_json(&None).is_null());
    assert!(j.get_items("a").is_none());
}

#[test]
fn the_daemon_answers_if_it_may() {
    let pong = || Some(Response::ok(Json::Bool(true)));
    assert!(matches!(choose_source(false, pong()), Source::Answered(r) if r.ok));
    assert!(matches!(choose_source(true, pong()), Source::InProcess));
    assert!(matches!(choose_source(false, None), Source::InProcess));
    assert!(matches!(choose_source(true, None), Source::InProcess));
}
