use gitpixel::cli::{extractor_for_shard, shard_stats_line, Extractor};
use gitpixel::posting::{matches_grams, resolve_query, GramQuery};
use gitpixel::shard::{read_varint, write_varint, Shard, ShardBuilder, ShardError};
use std::collections::{BTreeMap, BTreeSet};

fn windows(content: &[u8]) -> Vec<u64> {
    content
        .windows(3)
        .map(|w| (w[0] as u64) << 32 | (w[1] as u64) << 16 | w[2] as u64)
        .collect()
}

fn build_and_open(files: &[(&str, &[u8])]) -> (Shard, BTreeMap<u64, Vec<u32>>) {
    let mut builder = ShardBuilder::new("sparse-crc32-3-16");
    builder.set_commit_oid("0123456789abcdef0123456789abcdef01234567");
    let mut expected: BTreeMap<u64, Vec<u32>> = BTreeMap::new();
    for (i, (path, content)) in files.iter().enumerate() {
        let hashes = windows(content);
        for h in hashes.iter().copied().collect::<BTreeSet<_>>() {
            expected.entry(h).or_default().push(i as u32);
        }
        assert_eq!(builder.add_file(path, hashes), i as u32);
    }
    (Shard::open(builder.write()).unwrap(), expected)
}

#[test]
fn roundtrip_metadata_and_postings() {
    let files: Vec<(&str, &[u8])> = vec![
        ("src/a.rs", b"fn handleClick() { openMenu(); }" as &[u8]),
        ("src/b.rs", b"fn openMenu() { let x = MAX_FILE_SIZE; }"),
        ("README.md", b"gitpixel handleClick docs"),
    ];
    let (shard, expected) = build_and_open(&files);

    assert_eq!(shard.file_count(), 3);
    assert_eq!(shard.path_of(0), Some("src/a.rs"));
    assert_eq!(shard.commit_oid(), Some("0123456789abcdef0123456789abcdef01234567"));
    assert!(shard.extractor_id().starts_with("sparse-crc32"));
    assert_eq!(shard.gram_count(), expected.len() as u64);
    for (h, ids) in &expected {
        assert_eq!(&shard.postings(*h), ids, "postings mismatch for {h:#x}");
    }
    assert!(shard.postings(0xdead_beef_dead_beef).is_empty());
}

#[test]
fn covering_query_finds_containing_files() {
    let files: Vec<(&str, &[u8])> = vec![
        ("a", b"the quick brown fox jumps over handleClick" as &[u8]),
        ("b", b"nothing interesting here at all"),
        ("c", b"more handleClick usage in this one"),
    ];
    let (shard, _) = build_and_open(&files);
    let q = GramQuery::And(windows(b"handleClick").into_iter().map(GramQuery::Literal).collect());
    assert_eq!(resolve_query(&q, &shard), vec![0, 2]);
}

#[test]
fn shards_round_trip_arbitrary_contents() {
    let mut state: u64 = 42;
    for n in 1usize..12 {
        let mut contents: Vec<Vec<u8>> = Vec::new();
        for i in 0..n {
            let mut c = Vec::new();
            for _ in 0..(i * 25) {
                state = state.wrapping_mul(6364136223846793005).wrapping_add(1442695040888963407);
                c.push((state >> 33) as u8);
            }
            contents.push(c);
        }
        let names: Vec<String> = (0..n).map(|i| format!("f{i}")).collect();
        let files: Vec<(&str, &[u8])> =
            names.iter().zip(&contents).map(|(n, c)| (n.as_str(), c.as_slice())).collect();
        let (shard, expected) = build_and_open(&files);
        for (h, ids) in &expected {
            assert_eq!(&shard.postings(*h), ids);
        }
        let listed: Vec<&str> = shard.files().iter().map(|s| s.as_str()).collect();
        assert_eq!(listed, names.iter().map(|s| s.as_str()).collect::<Vec<_>>());
    }
}

#[test]
fn varints_round_trip() {
    for v in [0u32, 1, 127, 128, 300, 16_383, 16_384, u32::MAX] {
        let mut buf = vec![9u8];
        write_varint(&mut buf, v);
        let mut pos = 1usize;
        assert_eq!(read_varint(&buf, &mut pos), Some(v));
        assert_eq!(pos, buf.len());
    }
}

#[test]
fn varints_have_known_bytes() {
    let mut buf = Vec::new();
    write_varint(&mut buf, 300);
    assert_eq!(buf, vec![0xac, 0x02]);
    let mut max = Vec::new();
    write_varint(&mut max, u32::MAX);
    assert_eq!(max, vec![0xff, 0xff, 0xff, 0xff, 0x0f]);
}

#[test]
fn damaged_varints_are_none() {
    let mut pos = 0usize;
    assert_eq!(read_varint(&[0x80, 0x80], &mut pos), None);
    assert_eq!(pos, 2);
    let mut pos = 0usize;
    assert_eq!(read_varint(&[0x80, 0x80, 0x80, 0x80, 0x80, 0x01], &mut pos), None);
    assert_eq!(pos, 5);
    let mut pos = 7usize;
    assert_eq!(read_varint(&[1], &mut pos), None);
    // Bits beyond the thirty-second are dropped.
    let mut pos = 0usize;
    assert_eq!(read_varint(&[0x81, 0x80, 0x80, 0x80, 0x70], &mut pos), Some(1));
}

#[test]
fn empty_shard_opens() {
    let bytes = ShardBuilder::new("trigram").write();
    assert_eq!(bytes.len(), 192);
    assert_eq!(&bytes[0..8], b"GPXSHARD");
    let shard = Shard::open(bytes).unwrap();
    assert_eq!(shard.file_count(), 0);
    assert_eq!(shard.gram_count(), 0);
    assert_eq!(shard.commit_oid(), None);
    assert_eq!(shard.path_of(0), None);
    assert!(shard.postings(1).is_empty());
    assert_eq!(shard_stats_line(&shard), "files=0 grams=0 extractor=trigram commit=-");
    assert_eq!(extractor_for_shard(&shard), Ok(Extractor::Trigram));
}

fn corrupt(bytes: Vec<u8>) -> String {
    match Shard::open(bytes) {
        Ok(_) => panic!("opened"),
        Err(e) => e.message(),
    }
}

fn small() -> Vec<u8> {
    let mut b = ShardBuilder::new("trigram");
    b.set_commit_oid("abc");
    b.add_file("a/b", vec![5, 5, 9]);
    b.write()
}

#[test]
fn every_fault_is_reported() {
    assert!(Shard::open(small()).is_ok());
    assert_eq!(corrupt(vec![0; 10]), "corrupt shard: file shorter than header");
    let mut b = small();
    b[0] = b'X';
    assert_eq!(corrupt(b), "corrupt shard: bad magic");
    let mut b = small();
    b[8] = 7;
    assert_eq!(corrupt(b), "shard version 7 != supported 1");
    let mut b = small();
    b[16] = 0xff;
    assert_eq!(corrupt(b), "corrupt shard: commit oid not utf8");
    let mut b = small();
    b[56] = 0xff;
    assert_eq!(corrupt(b), "corrupt shard: extractor id not utf8");
    let mut b = small();
    b[124] = 3;
    assert_eq!(corrupt(b), "corrupt shard: section bounds exceed file");
    let mut b = small();
    b[120] = 2;
    assert_eq!(corrupt(b), "corrupt shard: truncated file table");
    let mut b = small();
    b[192] = 200;
    assert_eq!(corrupt(b), "corrupt shard: truncated file path");
    let mut b = small();
    b[196] = 0xff;
    assert_eq!(corrupt(b), "corrupt shard: path not utf8");
    assert_eq!(
        ShardError::Io("gone".to_string()).message(),
        "shard io error: gone"
    );
}

#[test]
fn repeated_hashes_are_posted_once() {
    let shard = Shard::open(small()).unwrap();
    assert_eq!(shard.gram_count(), 2);
    assert_eq!(shard.postings(5), vec![0]);
    assert_eq!(shard.postings(9), vec![0]);
    assert!(shard.postings(7).is_empty());
    assert_eq!(shard.commit_oid(), Some("abc"));
}

#[test]
fn oversized_records_fail_open() {
    let mut b = small();
    // The length of the first lookup record.
    let at = 192 + 7 + 16;
    b[at] = 200;
    let shard = Shard::open(b).unwrap();
    assert!(shard.postings(5).is_empty());
    assert_eq!(shard.postings(9), vec![0]);
}

#[test]
fn boolean_queries_combine() {
    let mut b = ShardBuilder::new("trigram");
    b.add_file("x", vec![1, 2]);
    b.add_file("y", vec![2, 3]);
    b.add_file("z", vec![4]);
    let shard = Shard::open(b.write()).unwrap();
    let lit = GramQuery::Literal;
    assert_eq!(resolve_query(&GramQuery::All, &shard), vec![0, 1, 2]);
    assert_eq!(resolve_query(&lit(2), &shard), vec![0, 1]);
    assert_eq!(resolve_query(&GramQuery::And(vec![lit(1), lit(2)]), &shard), vec![0]);
    assert_eq!(resolve_query(&GramQuery::Or(vec![lit(1), lit(4)]), &shard), vec![0, 2]);
    assert_eq!(resolve_query(&GramQuery::And(vec![]), &shard), vec![0, 1, 2]);
    assert!(resolve_query(&GramQuery::Or(vec![]), &shard).is_empty());
    let nested = GramQuery::And(vec![lit(2), GramQuery::Or(vec![lit(3), lit(9)])]);
    assert_eq!(resolve_query(&nested, &shard), vec![1]);
    assert!(matches_grams(&nested, &vec![2, 9]));
    assert!(!matches_grams(&nested, &vec![3, 9]));
    assert!(matches_grams(&GramQuery::All, &vec![]));
}

#[test]
fn postings_survive_overlong_ids() {
    // Both ids are cut to their fields; the postings are whole.
    let mut b = ShardBuilder::new(&"x".repeat(70));
    b.set_commit_oid(&"1".repeat(50));
    b.add_file("a", vec![5, 9, 5]);
    b.add_file("b", vec![9]);
    let s = Shard::open(b.write()).unwrap();
    assert_eq!(s.extractor_id(), "x".repeat(64));
    assert_eq!(s.commit_oid(), Some("1".repeat(40).as_str()));
    assert_eq!((s.postings(5), s.postings(9), s.postings(1)), (vec![0], vec![0, 1], vec![]));
}

#[test]
fn records_ascend_and_runs_lie_back_to_back() {
    let mut b = ShardBuilder::new("t");
    for i in 0..200u64 {
        b.add_file(&format!("f{i}"), vec![i % 7 + 100, i]);
    }
    let bytes = b.write();
    let word = |at: usize| u64::from_le_bytes(bytes[at..at + 8].try_into().unwrap()) as usize;
    let (grams, lookup, len) = (word(124), word(148), word(172));
    assert_eq!(word(156), 20 * grams);
    assert_eq!(word(164) + len, bytes.len());
    let mut end = 0;
    for i in 0..grams {
        let at = lookup + 20 * i;
        assert!(i == 0 || word(at - 20) < word(at));
        assert_eq!(word(at + 8), end);
        end += u32::from_le_bytes(bytes[at + 16..at + 20].try_into().unwrap()) as usize;
    }
    assert_eq!(end, len);
}
