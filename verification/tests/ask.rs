use gitpixel::ask::{
    ask, ask_with, chunk_start_of, format_group, gap_notice, lists_turn, make_snippet, rank_lexical,
    semantic_gap, semantic_turns, snippet_for, AskHit, AskSessionGroup, Asking, ChunkTurn, FoundTurn,
    FusedTurn, LexicalHit, SearchFilters, SemanticGap, SemanticTurn, Snippet,
};
use gitpixel::finder::finder_for;
use gitpixel::words::{
    any_word_pattern, pattern_for, pattern_of, pick_words, query_words, split_words,
    telling_words, trim_word, word_pattern,
};

fn strings(v: &[&str]) -> Vec<String> {
    v.iter().map(|s| s.to_string()).collect()
}

#[test]
fn words_are_picked_from_a_question() {
    assert_eq!(
        query_words("How does Parse_Config work in foo-bar.rs?"),
        strings(&["How", "does", "Parse_Config", "work", "foo-bar.rs"])
    );
    // Repetitions in another case, short words, and surrounding punctuation.
    assert_eq!(query_words("...Token token TOKEN of --flag-- a.b"), strings(&["Token", "flag", "a.b"]));
    // Characters count, not bytes.
    assert_eq!(query_words("été naïve ßß éa ßßß"), strings(&["été", "naïve", "ßßß"]));
    assert!(query_words("éa").is_empty());
    assert!(query_words("").is_empty());
    assert_eq!(
        query_words("aaa bbb ccc ddd eee fff ggg hhh iii").len(),
        8
    );
}

#[test]
fn pieces_are_cut_and_trimmed() {
    let chars: Vec<char> = "a_1 b".chars().collect();
    let alnum = vec![true, false, true, false, true];
    assert_eq!(split_words(&chars, &alnum), strings(&["a_1", "b"]));
    assert_eq!(split_words(&Vec::new(), &Vec::new()), strings(&[""]));
    assert_eq!(trim_word(".-x.y-."), "x.y");
    assert_eq!(trim_word("-.-"), "");
    let words = strings(&["Abc", "ab", "ABC", "xyz"]);
    let keys = strings(&["abc", "ab", "abc", "xyz"]);
    assert_eq!(pick_words(&words, &keys), strings(&["Abc", "xyz"]));
    assert!(pick_words(&strings(&["éa"]), &strings(&["éa"])).is_empty());
}

#[test]
fn word_patterns_cover_the_casings() {
    assert_eq!(word_pattern("fooBar"), r"\b(?:FOOBAR|Foobar|fooBar|foobar)\b");
    assert_eq!(word_pattern("abc"), r"\b(?:ABC|Abc|abc)\b");
    assert_eq!(word_pattern("a.b-c"), r"\b(?:A\.B\-C|A\.b\-c|a\.b\-c)\b");
    // A first character outside ASCII keeps its lower case in the title.
    assert_eq!(word_pattern("été"), r"\b(?:ÉTÉ|été)\b");
    assert_eq!(pattern_of(&strings(&["b", "a", "b"])), r"\b(?:a|b)\b");
    assert_eq!(pattern_for("xY", "xy", "XY", "X"), r"\b(?:XY|Xy|xY|xy)\b");
    assert_eq!(pattern_for("", "", "", "Q"), r"\b(?:)\b");
}

#[test]
fn any_word_keeps_the_order() {
    assert_eq!(any_word_pattern(&strings(&["z+", "a"])), r"\b(?:z\+|a)\b");
    assert_eq!(any_word_pattern(&Vec::new()), r"\b(?:)\b");
}

#[test]
fn escaping_marks_every_meta_character() {
    for c in r"\.+*?()|[]{}^$#&-~".chars() {
        let p = any_word_pattern(&vec![c.to_string()]);
        assert_eq!(p, format!("\\b(?:\\{c})\\b"));
    }
    assert_eq!(any_word_pattern(&strings(&["a_b%"])), r"\b(?:a_b%)\b");
}

#[test]
fn common_words_tell_nothing() {
    let words = strings(&["rare", "common", "unknown", "edge"]);
    let counts = vec![Some(3), Some(50_001), None, Some(50_000)];
    assert_eq!(telling_words(&words, &counts), strings(&["rare", "edge"]));
}

fn hit(turn_id: i64, ts: Option<i64>) -> LexicalHit {
    LexicalHit { turn_id, ts }
}

#[test]
fn turns_rank_by_hits_then_time_then_id() {
    let hits = vec![
        hit(1, Some(10)),
        hit(2, Some(20)),
        hit(3, None),
        hit(1, Some(99)),
        hit(4, Some(20)),
        hit(5, Some(5)),
    ];
    assert_eq!(rank_lexical(&hits), vec![1, 4, 2, 5, 3]);
    assert!(rank_lexical(&Vec::new()).is_empty());
    let many: Vec<LexicalHit> = (0..300).map(|i| hit(i, None)).collect();
    let ranked = rank_lexical(&many);
    assert_eq!(ranked.len(), 200);
    assert_eq!((ranked[0], ranked[199]), (299, 100));
}

fn row(chunk_id: i64, turn_id: i64, start: i64) -> ChunkTurn {
    ChunkTurn { chunk_id, turn_id, start }
}

#[test]
fn nearest_chunks_give_each_turn_once() {
    let rows = vec![row(1, 10, 0), row(2, 10, 500), row(3, 11, 7), row(3, 12, 8)];
    let found = semantic_turns(&vec![2, 9, 1, 3], &rows);
    assert_eq!(
        found,
        vec![SemanticTurn { turn_id: 10, start: 500 }, SemanticTurn { turn_id: 12, start: 8 }]
    );
    assert_eq!(chunk_start_of(&found, 12), Some(8));
    assert_eq!(chunk_start_of(&found, 11), None);
    let rows: Vec<ChunkTurn> = (0..400).map(|i| row(i, i, 0)).collect();
    let chunks: Vec<i64> = (0..400).collect();
    assert_eq!(semantic_turns(&chunks, &rows).len(), 200);
    assert!(lists_turn(&vec![3, 4], 4));
    assert!(!lists_turn(&vec![3, 4], 5));
}

fn turn(turn_id: i64, session_id: i64) -> AskHit {
    AskHit {
        turn_id,
        session_id,
        seq: 3,
        agent: "codex".to_string(),
        source_session_id: "0123456789".to_string(),
        cwd: Some("/w".to_string()),
        role: "user".to_string(),
        ts: Some(1),
        ts_source: "log".to_string(),
        snippet: "hello".to_string(),
        score_bits: 0.5f32.to_bits(),
        matched_lexical: true,
        matched_semantic: false,
    }
}

fn fused(ids: &[i64]) -> Vec<FusedTurn> {
    ids.iter()
        .enumerate()
        .map(|(i, id)| FusedTurn { turn_id: *id, score_bits: (1.0 / (i as f32 + 2.0)).to_bits() })
        .collect()
}

fn found(turn_id: i64, session_id: i64) -> Option<FoundTurn> {
    Some(FoundTurn {
        turn: AskHit { matched_lexical: false, ..turn(turn_id, session_id) },
        title: Some(format!("title {session_id}")),
        snippet: format!("snippet {turn_id}"),
    })
}

#[test]
fn turns_group_by_session() {
    let sessions = [(1, 7), (2, 8), (3, 7), (4, 7), (5, 9), (6, 8)];
    let mut a = ask(&Vec::new(), Vec::new(), Ok(Vec::new()), fused(&[1, 2, 3, 4, 5, 6]), 3);
    for (t, s) in sessions {
        if a.wants().is_none() {
            break;
        }
        assert_eq!(a.wants(), Some(t));
        a.on_turn(found(t, s));
    }
    assert_eq!(a.wants(), None);
    let r = a.finish();
    let got: Vec<(i64, i64, usize)> =
        r.groups.iter().map(|g| (g.best.session_id, g.best.turn_id, g.extra_hits)).collect();
    assert_eq!(got, vec![(7, 1, 2), (8, 2, 0), (9, 5, 0)]);
    assert_eq!(r.groups[1].session_title, Some("title 8".to_string()));
    assert_eq!(r.notice, None);
    assert_eq!(f32::from_bits(r.groups[0].best.score_bits), 0.5);
    assert_eq!(r.groups[2].best.snippet, "snippet 5");
    let none: Asking = ask(&Vec::new(), Vec::new(), Ok(Vec::new()), fused(&[1]), 0);
    assert_eq!(none.wants(), None);
}

#[test]
fn turns_that_are_gone_are_passed_over() {
    let mut a = ask(&Vec::new(), Vec::new(), Ok(Vec::new()), fused(&[1, 2]), 5);
    a.on_turn(None);
    assert_eq!(a.wants(), Some(2));
    a.on_turn(found(2, 3));
    assert_eq!(a.wants(), None);
    let r = a.finish();
    assert_eq!(r.groups.len(), 1);
    assert_eq!((r.groups[0].best.turn_id, r.groups[0].extra_hits), (2, 0));
    assert_eq!(r.notice, None);
}

#[test]
fn turns_name_their_channels() {
    let near = vec![SemanticTurn { turn_id: 2, start: 4 }];
    let mut a = ask(&strings(&["needle"]), vec![1], Ok(near), fused(&[1, 2]), 5);
    match a.snippet("a NEEDLE in hay") {
        Snippet::Around { start, end } => assert_eq!((start, end), (2, 8)),
        Snippet::Head(_) => panic!("a match"),
    }
    assert_eq!(head(a.snippet("no match")), "no match");
    a.on_turn(found(1, 10));
    // The second turn shows its nearest chunk.
    assert_eq!(head(a.snippet("some text")), " text");
    a.on_turn(found(2, 11));
    let r = a.finish();
    let got: Vec<(bool, bool)> =
        r.groups.iter().map(|g| (g.best.matched_lexical, g.best.matched_semantic)).collect();
    assert_eq!(got, vec![(true, false), (false, true)]);
}

fn head(s: Snippet) -> String {
    match s {
        Snippet::Head(h) => h,
        Snippet::Around { .. } => panic!("a head"),
    }
}

#[test]
fn chunk_heads_respect_characters() {
    assert_eq!(head(make_snippet("one\r\ntwo", None, None)), "one  two");
    assert_eq!(head(make_snippet("abcdef", None, Some(4))), "ef");
    assert_eq!(head(make_snippet("abcdef", None, Some(-3))), "abcdef");
    assert_eq!(head(make_snippet("abc", None, Some(99))), "");
    // Byte 2 lies within the second character.
    assert_eq!(head(make_snippet("aéz", None, Some(2))), "éz");
    let long = "x".repeat(161);
    assert_eq!(head(make_snippet(&long, None, None)), format!("{}…", "x".repeat(160)));
    assert_eq!(head(make_snippet(&long, None, Some(1))), "x".repeat(160));
    let wide = "é".repeat(100);
    assert_eq!(head(make_snippet(&wide, None, None)), format!("{}…", "é".repeat(80)));
    let odd = format!("a{}", "é".repeat(100));
    assert_eq!(head(make_snippet(&odd, None, None)), format!("a{}…", "é".repeat(80)));
}

#[test]
fn matches_win_over_heads() {
    let f = finder_for(&strings(&["needle"])).unwrap();
    match snippet_for("a NEEDLE in hay", Some(&f), Some(3)) {
        Snippet::Around { start, end } => assert_eq!((start, end), (2, 8)),
        Snippet::Head(_) => panic!("a match"),
    }
    assert_eq!(head(snippet_for("no match", Some(&f), None)), "no match");
    assert_eq!(head(snippet_for("needles", Some(&f), None)), "needles");
    assert_eq!(head(snippet_for("needle", None, None)), "needle");
    assert!(finder_for(&Vec::new()).is_none());
    // A pattern that is too large cannot be compiled.
    assert!(finder_for(&vec!["k".repeat(2_000_000)]).is_none());
    assert!(matches!(
        make_snippet("abc", Some((1, 2)), None),
        Snippet::Around { start: 1, end: 2 }
    ));
}

#[test]
fn groups_print_on_one_line() {
    let mut g = AskSessionGroup { best: turn(1, 42), session_title: None, extra_hits: 0 };
    assert_eq!(
        format_group(&g, "2024-01-01"),
        "codex:01234567 #42 t3 2024-01-01 /w [lex] \"hello\""
    );
    g.extra_hits = 2;
    g.best.ts = None;
    g.best.cwd = None;
    g.best.seq = -5;
    g.best.matched_semantic = true;
    g.best.source_session_id = "abc".to_string();
    assert_eq!(
        format_group(&g, "unused"),
        "codex:abc #42 t-5 ? - [l+s] \"hello\" (+2 more turns)"
    );
    g.best.matched_lexical = false;
    assert!(format_group(&g, "").contains("[sem]"));
    g.best.matched_semantic = false;
    assert!(format_group(&g, "").contains("[?]"));
}

#[test]
fn gaps_are_told() {
    assert_eq!(semantic_gap(false, true), Some(SemanticGap::NoModel));
    assert_eq!(semantic_gap(true, false), Some(SemanticGap::NoVectors));
    assert_eq!(semantic_gap(true, true), None);
    assert_eq!(
        gap_notice(SemanticGap::NoModel),
        "semantic channel unavailable (no embedding model) — lexical-only answer"
    );
    assert_eq!(
        gap_notice(SemanticGap::NoVectors),
        "semantic channel empty (run `gitpixel recall embed`) — lexical-only answer"
    );
}

#[test]
fn any_filter_counts() {
    let none = || SearchFilters {
        agent: None,
        repo_prefix: None,
        since_ms: None,
        until_ms: None,
        role: None,
        human_only: false,
        session_id: None,
    };
    assert!(!none().has_filters());
    assert!(SearchFilters { human_only: true, ..none() }.has_filters());
    assert!(SearchFilters { agent: Some(String::new()), ..none() }.has_filters());
    assert!(SearchFilters { repo_prefix: Some(String::new()), ..none() }.has_filters());
    assert!(SearchFilters { since_ms: Some(0), ..none() }.has_filters());
    assert!(SearchFilters { until_ms: Some(0), ..none() }.has_filters());
    assert!(SearchFilters { role: Some(String::new()), ..none() }.has_filters());
    assert!(SearchFilters { session_id: Some(0), ..none() }.has_filters());
    let words = SearchFilters { agent: Some("a".to_string()), ..none() }.for_words();
    assert!(words.human_only);
    let meaning = SearchFilters { since_ms: Some(4), ..none() }.for_meaning();
    assert!(meaning.human_only && meaning.has_filters());
    assert_eq!((meaning.since_ms, meaning.until_ms), (Some(4), None));
    assert_eq!(words.agent, Some("a".to_string()));
    assert_eq!((words.role, words.session_id), (None, None));
}

#[test]
fn a_missing_channel_is_told() {
    for gap in [SemanticGap::NoModel, SemanticGap::NoVectors] {
        let mut a = ask(&Vec::new(), vec![1, 2], Err(gap), fused(&[1, 2]), 5);
        a.on_turn(found(1, 10));
        a.on_turn(found(2, 11));
        let r = a.finish();
        assert_eq!(r.notice, Some(gap_notice(gap)));
        assert_eq!(r.groups.len(), 2);
        assert!(r.groups.iter().all(|g| g.best.matched_lexical && !g.best.matched_semantic));
    }
    let f = finder_for(&strings(&["hay"]));
    let a = ask_with(f, Vec::new(), Ok(Vec::new()), fused(&[1]), 1);
    assert!(matches!(a.snippet("in hay"), Snippet::Around { start: 3, end: 6 }));
    assert_eq!(a.finish().notice, None);
}
