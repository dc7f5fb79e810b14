use gitpixel::delta::{delta_shard_path, state_path, DeltaState};
use gitpixel::indexset::{
    base_files, base_state, base_step, classify_diff, delta_state, delta_step, plan_delta, reusable_delta,
    BaseStep, DeltaStep, DiffEntry, DirtyFile, IndexSet, IndexSetError, MatchLine, SearchPlan,
};
use gitpixel::ingest::{
    build_shard_from, extract_file, indexable, is_binary, is_internal, FileGrams,
};
use gitpixel::posting::GramQuery;
use gitpixel::shard::{Shard, ShardBuilder, ShardError};
use std::collections::BTreeMap;

fn grams(content: &str) -> Vec<u64> {
    content
        .as_bytes()
        .windows(3)
        .map(|w| (w[0] as u64) << 32 | (w[1] as u64) << 16 | w[2] as u64)
        .collect()
}

fn query(needle: &str) -> GramQuery {
    GramQuery::And(grams(needle).into_iter().map(GramQuery::Literal).collect())
}

fn extract(files: &BTreeMap<String, String>, paths: &Vec<String>) -> Vec<FileGrams> {
    indexable(paths)
        .iter()
        .filter_map(|p| files.get(p).map(|c| (p, c)))
        .filter_map(|(p, c)| extract_file(p, c.as_bytes(), &grams(c)))
        .collect()
}

/// The lines of the candidates that really hold the needle.
fn search(set: &IndexSet, files: &BTreeMap<String, String>, needle: &str) -> Vec<MatchLine> {
    let plan = set.search(&query(needle));
    let mut results = Vec::new();
    for path in &plan.candidates {
        let Some(content) = files.get(path) else { continue };
        let lines: Vec<MatchLine> = content
            .lines()
            .enumerate()
            .filter(|(_, l)| l.contains(needle))
            .map(|(i, l)| MatchLine {
                path: path.clone(),
                line_number: i as u64 + 1,
                line: l.to_string(),
            })
            .collect();
        if !lines.is_empty() {
            results.push(lines);
        }
    }
    plan.finish(results, 7).0
}

fn tree(entries: &[(&str, &str)]) -> BTreeMap<String, String> {
    entries.iter().map(|(p, c)| (p.to_string(), c.to_string())).collect()
}

fn paths(files: &BTreeMap<String, String>) -> Vec<String> {
    files.keys().cloned().collect()
}

#[test]
fn git_anchored_layers_end_to_end() {
    let one = "1111111111111111111111111111111111111111";
    let two = "2222222222222222222222222222222222222222";
    let mut files =
        tree(&[("alpha.rs", "fn handleClick() {}\n"), ("beta.rs", "fn openMenuWidget() {}\n")]);

    // Base layer finds committed content.
    assert!(matches!(base_step(None, "trigram", true), BaseStep::BuildTracked));
    let base_bytes = build_shard_from(extract(&files, &paths(&files)), "trigram", one);
    let base = Shard::open(base_bytes.clone()).unwrap();
    let set = IndexSet::open_or_build(base, None, Vec::new());
    let st = set.status();
    assert!(st.commit_oid.is_some());
    assert_eq!(st.base_files, 2);
    let m = search(&set, &files, "handleClick");
    assert_eq!(m.len(), 1);
    assert_eq!(m[0].path, "alpha.rs");

    // Commit a change and a new file: the reopened set has a delta layer.
    files.insert("alpha.rs".to_string(), "fn renamedEntryPoint() {}\n".to_string());
    files.insert("gamma.rs".to_string(), "fn freshDeltaSymbol() {}\n".to_string());
    let base = match base_step(Some(base_bytes), "trigram", true) {
        BaseStep::Reuse(s) => s,
        _ => panic!("base serves"),
    };
    assert!(reusable_delta(Some(base_state(one)), None, "trigram", one, two).is_none());
    let diff = vec![
        DiffEntry { status: 'M', path: "alpha.rs".to_string() },
        DiffEntry { status: 'A', path: "gamma.rs".to_string() },
    ];
    let plan = plan_delta(&diff, one, two);
    let extracted = extract(&files, &plan.changed);
    let delta_bytes = plan.shard_bytes(extracted, "trigram", two);
    let (layer, _) = plan.finish(delta_bytes).unwrap();
    let set = IndexSet::open_or_build(base, Some(layer), Vec::new());
    let st = set.status();
    assert_eq!(st.delta_files, 2, "alpha (modified) + gamma (added)");
    let m = search(&set, &files, "freshDeltaSymbol");
    assert_eq!(m.len(), 1);
    assert_eq!(m[0].path, "gamma.rs");
    let m = search(&set, &files, "handleClick");
    assert!(m.is_empty(), "old base content is tombstoned by the delta");
    assert!(set.search(&query("handleClick")).candidates.is_empty());

    // Overlay: uncommitted edit is visible without a rebuild.
    let mut set = set;
    files.insert("beta.rs".to_string(), "fn overlayOnlySymbol() {}\n".to_string());
    set.refresh_file("beta.rs", Some(grams("fn overlayOnlySymbol() {}\n")));
    let m = search(&set, &files, "overlayOnlySymbol");
    assert_eq!(m.len(), 1);
    assert_eq!(m[0].path, "beta.rs");
    assert!(set.search(&query("openMenuWidget")).candidates.is_empty());
    let m = search(&set, &files, "openMenuWidget");
    assert!(m.is_empty(), "overlay tombstones the stale base entry");

    // remove_file tombstones everywhere.
    set.remove_file("gamma.rs");
    assert!(set.search(&query("freshDeltaSymbol")).candidates.is_empty());
    let m = search(&set, &files, "freshDeltaSymbol");
    assert!(m.is_empty());
    let st = set.status();
    assert_eq!(st.overlay_files, 1);
    assert_eq!(st.tombstones, 3);
}

#[test]
fn non_git_plain_build() {
    let files = tree(&[("solo.txt", "plainWalkNeedle here\n")]);
    assert!(matches!(base_step(None, "trigram", false), BaseStep::BuildWalk));
    let mut b = ShardBuilder::new("trigram");
    for f in extract(&files, &paths(&files)) {
        b.add_file(&f.path, f.hashes);
    }
    let bytes = b.write();
    assert!(matches!(base_step(Some(bytes.clone()), "trigram", true), BaseStep::BuildTracked));
    assert!(matches!(base_step(Some(bytes.clone()), "sparse", false), BaseStep::BuildWalk));
    let base = match base_step(Some(bytes), "trigram", false) {
        BaseStep::Reuse(s) => s,
        _ => panic!("base serves"),
    };
    let set = IndexSet::open_or_build(base, None, Vec::new());
    assert!(set.status().commit_oid.is_none());
    let m = search(&set, &files, "plainWalkNeedle");
    assert_eq!(m.len(), 1);
    assert_eq!(m[0].path, "solo.txt");
}

#[test]
fn own_directory_is_internal() {
    assert!(is_internal(".gitpixel"));
    assert!(is_internal(".gitpixel/base.shard"));
    assert!(!is_internal(".gitpixelated"));
    assert!(!is_internal("src/.gitpixel/x"));
    let all: Vec<String> =
        vec!["b".to_string(), ".gitpixel/x".to_string(), "a".to_string()];
    assert_eq!(indexable(&all), vec!["b".to_string(), "a".to_string()]);
}

#[test]
fn binary_content_is_sniffed() {
    assert!(is_binary(b"ab\0c"));
    assert!(!is_binary(b"abc"));
    let mut late = vec![b'x'; 8192];
    late.push(0);
    assert!(!is_binary(&late));
    late[8191] = 0;
    assert!(is_binary(&late));
    assert!(extract_file("f", b"a\0", &vec![1]).is_none());
    let f = extract_file("f", b"abc", &vec![9, 1, 9, 4]).unwrap();
    assert_eq!(f.hashes, vec![1, 4, 9]);
}

#[test]
fn shards_list_files_in_path_order() {
    let files = vec![
        FileGrams { path: "b/z".to_string(), hashes: vec![1] },
        FileGrams { path: "B".to_string(), hashes: vec![2] },
        FileGrams { path: "b".to_string(), hashes: vec![3] },
        FileGrams { path: "é".to_string(), hashes: vec![4] },
    ];
    let shard = Shard::open(build_shard_from(files, "trigram", "oid")).unwrap();
    let listed: Vec<&str> = shard.files().iter().map(|s| s.as_str()).collect();
    assert_eq!(listed, vec!["B", "b", "b/z", "é"]);
    assert_eq!(shard.postings(1), vec![2]);
    assert_eq!(shard.commit_oid(), Some("oid"));
}

#[test]
fn diffs_are_classified() {
    let diff = vec![
        DiffEntry { status: 'A', path: "added".to_string() },
        DiffEntry { status: 'D', path: "deleted".to_string() },
        DiffEntry { status: 'M', path: "modified".to_string() },
        DiffEntry { status: 'T', path: "typed".to_string() },
        DiffEntry { status: 'M', path: ".gitpixel/state.json".to_string() },
    ];
    let (changed, tombstones) = classify_diff(&diff);
    assert_eq!(changed, vec!["added", "modified", "typed"]);
    assert_eq!(tombstones, vec!["deleted", "modified", "typed"]);
}

#[test]
fn dirty_files_enter_the_overlay() {
    let files = tree(&[("keep.rs", "stableContent"), ("gone.rs", "vanishingText")]);
    let base =
        Shard::open(build_shard_from(extract(&files, &paths(&files)), "trigram", "oid")).unwrap();
    let dirty = vec![
        DirtyFile { xy: " D".to_string(), path: "gone.rs".to_string(), grams: None },
        DirtyFile {
            xy: "??".to_string(),
            path: "new.rs".to_string(),
            grams: Some(grams("brandNewThing")),
        },
        DirtyFile {
            xy: " M".to_string(),
            path: ".gitpixel/x".to_string(),
            grams: Some(grams("brandNewThing")),
        },
        DirtyFile { xy: " M".to_string(), path: "binary".to_string(), grams: None },
    ];
    let set = IndexSet::open_or_build(base, None, dirty);
    assert!(set.search(&query("vanishingText")).candidates.is_empty());
    assert_eq!(set.search(&query("brandNewThing")).candidates, vec!["new.rs"]);
    assert_eq!(set.search(&query("stableContent")).candidates, vec!["keep.rs"]);
    let all = set.search(&GramQuery::All);
    assert!(all.scanned_all);
    assert_eq!(all.candidates, vec!["keep.rs", "new.rs"]);
    let st = set.status();
    assert_eq!((st.base_files, st.delta_files, st.overlay_files, st.tombstones), (2, 0, 1, 3));
}

#[test]
fn refreshing_one_file_leaves_the_others() {
    let files = tree(&[("a", "sharedNeedle"), ("b", "sharedNeedle")]);
    let base =
        Shard::open(build_shard_from(extract(&files, &paths(&files)), "trigram", "oid")).unwrap();
    let mut set = IndexSet::open_or_build(base, None, Vec::new());
    assert_eq!(set.search(&query("sharedNeedle")).candidates, vec!["a", "b"]);
    set.refresh_file("a", Some(grams("somethingElse")));
    assert_eq!(set.search(&query("sharedNeedle")).candidates, vec!["b"]);
    assert_eq!(set.search(&query("somethingElse")).candidates, vec!["a"]);
    set.refresh_file("a", None);
    assert!(set.search(&query("somethingElse")).candidates.is_empty());
    set.refresh_file("a", Some(grams("sharedNeedle")));
    assert_eq!(set.search(&query("sharedNeedle")).candidates, vec!["a", "b"]);
}

fn line(path: &str, n: u64, text: &str) -> MatchLine {
    MatchLine { path: path.to_string(), line_number: n, line: text.to_string() }
}

#[test]
fn matches_are_sorted_stably() {
    let plan = SearchPlan {
        candidates: vec!["a".to_string(), "b".to_string()],
        scanned_all: false,
    };
    let results = vec![
        vec![line("b", 9, "x"), line("b", 2, "first"), line("b", 2, "second")],
        vec![line("a", 5, "y")],
    ];
    let (m, stats) = plan.finish(results, 33);
    let got: Vec<(&str, u64, &str)> =
        m.iter().map(|l| (l.path.as_str(), l.line_number, l.line.as_str())).collect();
    assert_eq!(got, vec![("a", 5, "y"), ("b", 2, "first"), ("b", 2, "second"), ("b", 9, "x")]);
    assert_eq!(stats.candidates, 2);
    assert_eq!(stats.matches, 4);
    assert_eq!(stats.elapsed_us, 33);
    assert!(!stats.scanned_all);
}

#[test]
fn stored_deltas_are_reused_only_when_they_fit() {
    let bytes = build_shard_from(Vec::new(), "trigram", "head");
    let state = delta_state("base", "head", vec!["t".to_string()]);
    let ok = |s: Option<DeltaState>, e: &str, b: &str, h: &str| {
        reusable_delta(s, Some(bytes.clone()), e, b, h).is_some()
    };
    let layer =
        reusable_delta(Some(state.clone()), Some(bytes.clone()), "trigram", "base", "head").unwrap();
    assert_eq!(layer.shard.unwrap().commit_oid(), Some("head"));
    assert_eq!(layer.tombstones, vec!["t".to_string()]);
    assert!(ok(Some(state.clone()), "trigram", "base", "head"));
    assert!(!ok(Some(state.clone()), "sparse", "base", "head"));
    assert!(!ok(Some(state.clone()), "trigram", "other", "head"));
    assert!(!ok(Some(state.clone()), "trigram", "base", "other"));
    assert!(!ok(Some(base_state("base")), "trigram", "base", "head"));
    assert!(!ok(None, "trigram", "base", "head"));
    assert!(reusable_delta(Some(state.clone()), None, "trigram", "base", "head").is_none());
    assert!(reusable_delta(Some(state), Some(vec![1]), "trigram", "base", "head").is_none());
}

#[test]
fn own_files_never_enter_a_shard() {
    let file = |p: &str| FileGrams { path: p.to_string(), hashes: vec![7] };
    let bytes = |v: Vec<FileGrams>| build_shard_from(v, "trigram", "oid");
    let names = ["b.rs", ".gitpixel/base.shard", "a.rs", ".gitpixel", ".gitpixelx"];
    let shard = Shard::open(bytes(names.iter().map(|p| file(p)).collect())).unwrap();
    assert_eq!(shard.files().join(" "), ".gitpixelx a.rs b.rs");
    assert_eq!(shard.postings(7), vec![0, 1, 2]);
    // In whatever order they come.
    assert_eq!(
        bytes(names.iter().map(|p| file(p)).collect()),
        bytes(names.iter().rev().map(|p| file(p)).collect())
    );
}

#[test]
fn a_new_base_voids_the_stored_delta() {
    let left = base_files(vec![1, 2], Some("one"));
    assert_eq!(left.base, Some(vec![1, 2]));
    assert!(left.delta.is_none());
    let state = left.state.unwrap();
    assert_eq!(state.base_oid, "one");
    assert!(state.delta_oid.is_none() && state.tombstones.is_empty());
    let left = base_files(Vec::new(), None);
    assert_eq!(left.base, Some(Vec::new()));
    assert!(left.delta.is_none() && left.state.is_none());
}

#[test]
fn state_files_stand_in_the_directory() {
    assert_eq!(state_path("/r/.gitpixel"), "/r/.gitpixel/state.json");
    assert_eq!(delta_shard_path("/r/.gitpixel/"), "/r/.gitpixel/delta.shard");
    let d = DeltaState::default();
    assert_eq!(d.base_oid, "");
    assert!(d.delta_oid.is_none());
    assert!(d.tombstones.is_empty());
}

#[test]
fn index_errors_have_messages() {
    assert_eq!(
        IndexSetError::from(ShardError::Corrupt("bad magic")).message(),
        "corrupt shard: bad magic"
    );
    assert_eq!(IndexSetError::Verify("v".to_string()).message(), "v");
    assert_eq!(IndexSetError::Pattern("p".to_string()).message(), "bad pattern: p");
    assert_eq!(IndexSetError::Io("i".to_string()).message(), "io error: i");
    assert_eq!(IndexSetError::Index("x".to_string()).message(), "x");
}

#[test]
fn the_delta_layer_follows_the_head() {
    let base = Shard::open(build_shard_from(Vec::new(), "trigram", "one")).unwrap();
    let bytes = build_shard_from(Vec::new(), "trigram", "two");
    let state = Some(delta_state("one", "two", vec!["gone.rs".to_string()]));
    let step = |head, e: &str| delta_step(&base, head, state.clone(), Some(bytes.clone()), e);
    assert!(matches!(step(None, "trigram"), DeltaStep::Skip));
    assert!(matches!(step(Some("one"), "trigram"), DeltaStep::Skip));
    match step(Some("two"), "trigram") {
        DeltaStep::Reuse(layer) => assert_eq!(layer.tombstones, vec!["gone.rs".to_string()]),
        _ => panic!("the stored delta serves"),
    }
    assert!(matches!(step(Some("two"), "sparse"), DeltaStep::Diff));
    assert!(matches!(step(Some("three"), "trigram"), DeltaStep::Diff));
}

#[test]
fn deltas_are_planned_from_the_diff() {
    let entry = |status, path: &str| DiffEntry { status, path: path.to_string() };
    let diff = vec![
        entry('A', "new.rs"),
        entry('M', "mod.rs"),
        entry('D', "old.rs"),
        entry('M', ".gitpixel/x"),
    ];
    let p = plan_delta(&diff, "one", "two");
    assert_eq!(p.changed, vec!["new.rs".to_string(), "mod.rs".to_string()]);
    assert_eq!(p.tombstones, vec!["mod.rs".to_string(), "old.rs".to_string()]);
    assert!(p.builds);
    assert_eq!(p.state.base_oid, "one");
    assert_eq!(p.state.delta_oid, Some("two".to_string()));
    assert_eq!(p.state.tombstones, p.tombstones);
    assert!(p.finish(Some(vec![1, 2])).is_err());

    // Only deletions: tombstones, but no delta shard.
    let p = plan_delta(&vec![entry('D', "old.rs")], "one", "two");
    assert!(!p.builds);
    let bytes = p.shard_bytes(Vec::new(), "trigram", "two");
    assert!(bytes.is_none());
    let (layer, state) = p.finish(bytes).unwrap();
    assert!(layer.shard.is_none());
    assert_eq!(layer.tombstones, vec!["old.rs".to_string()]);
    assert_eq!(state.tombstones, layer.tombstones);

    // Changed files that cannot be extracted still make a delta, an empty one.
    let p = plan_delta(&vec![entry('A', "image.png")], "one", "two");
    let bytes = p.shard_bytes(Vec::new(), "trigram", "two");
    let (layer, _) = p.finish(bytes).unwrap();
    assert_eq!(layer.shard.unwrap().file_count(), 0);
}

#[test]
fn reopening_changes_nothing() {
    let one = "1111111111111111111111111111111111111111";
    let two = "2222222222222222222222222222222222222222";
    let files = tree(&[("alpha.rs", "fn handleClick() {}\n"), ("beta.rs", "fn freshSymbol() {}\n")]);
    let base_bytes = build_shard_from(extract(&files, &paths(&files)), "trigram", one);
    let diff = || {
        vec![
            DiffEntry { status: 'M', path: "beta.rs".to_string() },
            DiffEntry { status: 'D', path: "gamma.rs".to_string() },
        ]
    };
    let dirty = || {
        vec![DirtyFile {
            xy: " M".to_string(),
            path: "alpha.rs".to_string(),
            grams: Some(grams("fn overlayOnly() {}\n")),
        }]
    };
    let base = || match base_step(Some(base_bytes.clone()), "trigram", true) {
        BaseStep::Reuse(s) => s,
        _ => panic!("base serves"),
    };

    let stored = Some(base_state(one));
    assert!(matches!(
        delta_step(&base(), Some(two), stored, None, "trigram"),
        DeltaStep::Diff
    ));
    let plan = plan_delta(&diff(), one, two);
    let delta_bytes = plan.shard_bytes(extract(&files, &plan.changed), "trigram", two);
    let (layer, state) = plan.finish(delta_bytes.clone()).unwrap();
    let first = IndexSet::open_or_build(base(), Some(layer), dirty());

    let layer = match delta_step(&base(), Some(two), Some(state), delta_bytes, "trigram") {
        DeltaStep::Reuse(layer) => layer,
        _ => panic!("the stored delta serves"),
    };
    let again = IndexSet::open_or_build(base(), Some(layer), dirty());

    let (a, b) = (first.status(), again.status());
    assert_eq!(
        (a.commit_oid, a.base_files, a.delta_files, a.overlay_files, a.tombstones),
        (b.commit_oid, b.base_files, b.delta_files, b.overlay_files, b.tombstones)
    );
    assert_eq!((b.base_files, b.delta_files, b.overlay_files, b.tombstones), (2, 1, 1, 3));
    for pattern in ["handleClick", "freshSymbol", "overlayOnly"] {
        let q = query(pattern);
        assert_eq!(first.search(&q).candidates, again.search(&q).candidates);
    }
    assert_eq!(again.search(&query("freshSymbol")).candidates, vec!["beta.rs".to_string()]);
}
