//! What a shard built from extracted files promises.
use vstd::prelude::*;

use crate::ingest;
use crate::ingest::FileGrams;
use crate::order;
use crate::order::Ranked;
use crate::seqs;
use crate::shard_format;
use crate::shard_format::ShardModel;
use crate::shard_laws;

verus! {

/// Whether `m` registers exactly `files`, in order.
pub open spec fn registers(m: ShardModel, files: Seq<FileGrams>) -> bool {
    &&& m.files.len() == files.len()
    &&& forall|i: int| 0 <= i < files.len() ==> #[trigger] m.files[i] == files[i].path@
    &&& forall|id: u32, h: u64|
        id < files.len() ==> (#[trigger] shard_format::posted(m.postings, h).contains(id)
            <==> files[id as int].hashes@.contains(h))
    &&& forall|id: u32, h: u64| #[trigger]
        shard_format::posted(m.postings, h).contains(id) ==> id < files.len()
}

pub proof fn lemma_registered(files: Seq<FileGrams>, start: ShardModel)
    requires
        files.len() <= u32::MAX,
        start.files.len() == 0,
        start.postings == Map::<u64, Seq<u32>>::empty(),
    ensures
        registers(ingest::registered(files, start), files),
    decreases files.len(),
{
    let m = ingest::registered(files, start);
    if files.len() > 0 {
        let rest = files.drop_last();
        let last = files.last();
        let before = ingest::registered(rest, start);
        lemma_registered(rest, start);
        let id = before.files.len() as u32;
        assert forall|x: u32, h: u64| #[trigger]
            shard_format::posted(m.postings, h).contains(x) <==> shard_format::posted(
                before.postings,
                h,
            ).contains(x) || (x == id && last.hashes@.contains(h)) by {
            let old_ids = shard_format::posted(before.postings, h);
            if last.hashes@.contains(h) {
                let new_ids = old_ids.push(id);
                assert(shard_format::posted(m.postings, h) == new_ids);
                if old_ids.contains(x) {
                    let k = choose|k: int| 0 <= k < old_ids.len() && old_ids[k] == x;
                    assert(new_ids[k] == x);
                }
                assert(new_ids.last() == id);
                if new_ids.contains(x) && x != id {
                    let k = choose|k: int| 0 <= k < new_ids.len() && new_ids[k] == x;
                    assert(old_ids[k] == x);
                }
            }
        }
        assert forall|x: u32, h: u64| x < files.len() implies (#[trigger] shard_format::posted(
            m.postings,
            h,
        ).contains(x) <==> files[x as int].hashes@.contains(h)) by {
            if x < rest.len() {
                assert(rest[x as int] == files[x as int]);
                assert(shard_format::posted(before.postings, h).contains(x)
                    <==> rest[x as int].hashes@.contains(h));
            } else {
                assert(!shard_format::posted(before.postings, h).contains(x));
            }
        }
        assert forall|i: int| 0 <= i < files.len() implies #[trigger] m.files[i]
            == files[i].path@ by {
            if i < rest.len() {
                assert(before.files[i] == rest[i].path@);
            }
        }
    } else {
        assert forall|x: u32, h: u64| !#[trigger] shard_format::posted(m.postings, h).contains(
            x,
        ) by {
            assert(shard_format::posted(m.postings, h) == Seq::<u32>::empty());
        }
    }
}

proof fn lemma_with_file_valid(m: ShardModel, path: Seq<char>, hashes: Seq<u64>)
    requires
        m.valid(),
        m.files.len() < u32::MAX,
    ensures
        (ShardModel {
            files: m.files.push(path),
            postings: shard_format::with_file(m.postings, hashes, m.files.len() as u32),
            ..m
        }).valid(),
{
    let id = m.files.len() as u32;
    let postings = shard_format::with_file(m.postings, hashes, id);
    assert(postings.dom() =~= m.postings.dom().union(hashes.to_set()));
    assert forall|h: u64| #[trigger] postings.contains_key(h) implies {
        &&& postings[h].len() > 0
        &&& shard_format::ascending_ids(postings[h])
        &&& forall|k: int| 0 <= k < postings[h].len() ==> #[trigger] postings[h][k] < id + 1
    } by {
        if m.postings.contains_key(h) {
            assert(shard_format::ascending_ids(m.postings[h]));
        }
    }
}

/// Registering files keeps a shard valid.
pub proof fn lemma_registered_valid(files: Seq<FileGrams>, start: ShardModel)
    requires
        files.len() <= u32::MAX,
        start.files.len() == 0,
        start.postings == Map::<u64, Seq<u32>>::empty(),
    ensures
        ingest::registered(files, start).valid(),
        ingest::registered(files, start).files.len() == files.len(),
        ingest::registered(files, start).extractor_id == start.extractor_id,
        ingest::registered(files, start).commit_oid == start.commit_oid,
    decreases files.len(),
{
    if files.len() > 0 {
        lemma_registered_valid(files.drop_last(), start);
        let before = ingest::registered(files.drop_last(), start);
        lemma_with_file_valid(before, files.last().path@, files.last().hashes@);
    }
}

/// What is indexed of extracted files are those outside the index's own
/// directory.
pub proof fn lemma_indexed(files: Seq<FileGrams>)
    ensures
        ingest::indexed(files).len() <= files.len(),
        forall|f: FileGrams| #[trigger]
            ingest::indexed(files).contains(f) <==> files.contains(f) && !ingest::internal(f.path@),
{
    let s = order::sorted(files);
    let keep = ingest::outside();
    let kept = ingest::indexed(files);
    order::sorting_exists(files);
    vstd::seq_lib::to_multiset_len(files);
    vstd::seq_lib::to_multiset_len(s);
    seqs::lemma_filter(s, keep);
    s.lemma_filter_len(keep);
    assert forall|f: FileGrams| #[trigger] kept.contains(f) <==> files.contains(f)
        && !ingest::internal(f.path@) by {
        vstd::seq_lib::to_multiset_contains(s, f);
        vstd::seq_lib::to_multiset_contains(files, f);
        if kept.contains(f) {
            let k = choose|k: int| 0 <= k < kept.len() && kept[k] == f;
            assert(keep(kept[k]) && s.contains(kept[k]));
        }
        if s.contains(f) && !ingest::internal(f.path@) {
            let k = choose|k: int| 0 <= k < s.len() && s[k] == f;
            assert(keep(s[k]));
        }
    }
}

/// Whether no path occurs twice.
pub open spec fn paths_differ(files: Seq<FileGrams>) -> bool {
    forall|i: int, j: int|
        0 <= i < j < files.len() ==> (#[trigger] files[i]).path@ != (#[trigger] files[j]).path@
}

pub open spec fn paths(files: Seq<FileGrams>) -> Seq<Seq<char>> {
    files.map_values(|f: FileGrams| f.path@)
}

proof fn lemma_determined(files: Seq<FileGrams>, a: FileGrams, b: FileGrams)
    requires
        paths_differ(files),
        files.contains(a),
        files.contains(b),
        a.path@ == b.path@,
    ensures
        a == b,
{
    let i = choose|i: int| 0 <= i < files.len() && files[i] == a;
    let j = choose|j: int| 0 <= j < files.len() && files[j] == b;
    if i < j {
        assert(files[i].path@ != files[j].path@);
    } else if j < i {
        assert(files[j].path@ != files[i].path@);
    }
}

proof fn lemma_sorted_paths(files: Seq<FileGrams>)
    requires
        paths_differ(files),
    ensures
        order::ascending_texts(paths(order::sorted(files))),
{
    let s = order::sorted(files);
    order::sorting_exists(files);
    order::texts_are_ordered();
    assert(files.no_duplicates()) by {
        assert forall|i: int, j: int| 0 <= i < files.len() && 0 <= j < files.len() && i
            != j implies files[i] != files[j] by {
            if i < j {
                assert(files[i].path@ != files[j].path@);
            } else {
                assert(files[j].path@ != files[i].path@);
            }
        }
    }
    files.lemma_multiset_has_no_duplicates();
    s.lemma_multiset_has_no_duplicates_conv();
    assert forall|i: int, j: int| 0 <= i < j < s.len() implies order::text_less(
        #[trigger] s[i].path@,
        #[trigger] s[j].path@,
    ) by {
        assert(!s[j].precedes(s[i]));
        vstd::seq_lib::to_multiset_contains(s, s[i]);
        vstd::seq_lib::to_multiset_contains(s, s[j]);
        vstd::seq_lib::to_multiset_contains(files, s[i]);
        vstd::seq_lib::to_multiset_contains(files, s[j]);
        assert(s.contains(s[i]) && s.contains(s[j]));
        if s[i].path@ == s[j].path@ {
            lemma_determined(files, s[i], s[j]);
        }
    }
}

proof fn lemma_filter_ascends(s: Seq<FileGrams>, keep: spec_fn(FileGrams) -> bool)
    requires
        order::ascending_texts(paths(s)),
    ensures
        order::ascending_texts(paths(s.filter(keep))),
        s.filter(keep).len() > 0 ==> s.len() > 0 && (s.filter(keep).last().path@ == s.last().path@
            || order::text_less(s.filter(keep).last().path@, s.last().path@)),
    decreases s.len(),
{
    reveal(Seq::filter);
    order::texts_are_ordered();
    if s.len() > 0 {
        let t = s.drop_last();
        let all = paths(s);
        assert forall|i: int, j: int| 0 <= i < j < paths(t).len() implies order::text_less(
            #[trigger] paths(t)[i],
            #[trigger] paths(t)[j],
        ) by {
            assert(order::text_less(all[i], all[j]));
        }
        lemma_filter_ascends(t, keep);
        let before = t.filter(keep);
        let now = s.filter(keep);
        if t.len() > 0 {
            assert(order::text_less(all[t.len() - 1], all[s.len() - 1]));
        }
        if keep(s.last()) {
            assert(now =~= before.push(s.last()));
            let p = paths(before);
            assert forall|i: int, j: int| 0 <= i < j < paths(now).len() implies order::text_less(
                #[trigger] paths(now)[i],
                #[trigger] paths(now)[j],
            ) by {
                assert(paths(now)[i] == p[i]);
                let l = before.len() - 1;
                if j < before.len() {
                    assert(paths(now)[j] == p[j]);
                } else if i < l {
                    assert(order::text_less(p[i], p[l]));
                    assert(p[l] == before.last().path@);
                } else {
                    assert(p[i] == before.last().path@);
                }
            }
        }
    }
}

/// A shard built from files at different paths lists, in ascending order,
/// exactly those outside the index's own directory, and keeps the commit and
/// the extractor.
pub proof fn built_shard_lists_the_files(
    files: Seq<FileGrams>,
    extractor_id: Seq<char>,
    commit_oid: Seq<char>,
)
    requires
        paths_differ(files),
        shard_laws::storable(ingest::shard_of(files, extractor_id, commit_oid)),
        files.len() <= u32::MAX,
    ensures
        ({
            let bytes = shard_format::shard_bytes(
                ingest::shard_of(files, extractor_id, commit_oid),
            );
            let view = shard_format::read_shard(bytes)->Ok_0;
            &&& shard_format::read_shard(bytes) is Ok
            &&& order::ascending_texts(view.files)
            &&& forall|p: Seq<char>| #[trigger]
                view.files.contains(p) <==> paths(files).contains(p) && !ingest::internal(p)
            &&& view.extractor_id == extractor_id
            &&& view.commit_oid == Some(commit_oid)
        }),
{
    let m = ingest::shard_of(files, extractor_id, commit_oid);
    let kept = ingest::indexed(files);
    let start = ingest::empty_shard(extractor_id, Some(commit_oid));
    lemma_indexed(files);
    lemma_registered(kept, start);
    lemma_registered_valid(kept, start);
    shard_laws::shard_round_trip(m);
    lemma_sorted_paths(files);
    lemma_filter_ascends(order::sorted(files), ingest::outside());
    assert(m.files =~= paths(kept));
    assert forall|p: Seq<char>| #[trigger] m.files.contains(p) <==> paths(files).contains(p)
        && !ingest::internal(p) by {
        if m.files.contains(p) {
            let k = choose|k: int| 0 <= k < m.files.len() && m.files[k] == p;
            assert(kept.contains(kept[k]));
            assert(files.contains(kept[k]));
            let i = choose|i: int| 0 <= i < files.len() && files[i] == kept[k];
            assert(paths(files)[i] == p);
        }
        if paths(files).contains(p) && !ingest::internal(p) {
            let i = choose|i: int| 0 <= i < paths(files).len() && paths(files)[i] == p;
            assert(files.contains(files[i]));
            assert(kept.contains(files[i]));
            let k = choose|k: int| 0 <= k < kept.len() && kept[k] == files[i];
            assert(m.files[k] == p);
        }
    }
}

/// The order in which files at different paths were extracted does not change
/// their shard.
pub proof fn shard_ignores_the_order(
    a: Seq<FileGrams>,
    b: Seq<FileGrams>,
    extractor_id: Seq<char>,
    commit_oid: Seq<char>,
)
    requires
        paths_differ(a),
        paths_differ(b),
        a.to_multiset() == b.to_multiset(),
    ensures
        ingest::shard_of(a, extractor_id, commit_oid) == ingest::shard_of(
            b,
            extractor_id,
            commit_oid,
        ),
{
    let s = order::sorted(a);
    let t = order::sorted(b);
    order::sorting_exists(a);
    order::sorting_exists(b);
    lemma_sorted_paths(a);
    lemma_sorted_paths(b);
    assert forall|f: FileGrams| #[trigger] s.contains(f) <==> t.contains(f) by {
        vstd::seq_lib::to_multiset_contains(s, f);
        vstd::seq_lib::to_multiset_contains(t, f);
    }
    let p = paths(s);
    let q = paths(t);
    assert forall|x: Seq<char>| p.to_set().contains(x) <==> q.to_set().contains(x) by {
        if p.contains(x) {
            let i = choose|i: int| 0 <= i < p.len() && p[i] == x;
            assert(s.contains(s[i]));
            assert(t.contains(s[i]));
            let k = choose|k: int| 0 <= k < t.len() && t[k] == s[i];
            assert(q[k] == x);
        }
        if q.contains(x) {
            let i = choose|i: int| 0 <= i < q.len() && q[i] == x;
            assert(t.contains(t[i]));
            assert(s.contains(t[i]));
            let k = choose|k: int| 0 <= k < s.len() && s[k] == t[i];
            assert(p[k] == x);
        }
    }
    assert(p.to_set() =~= q.to_set());
    order::ascending_texts_unique(p, q);
    assert forall|i: int| 0 <= i < s.len() implies s[i] == t[i] by {
        assert(p[i] == q[i]);
        assert(s.contains(s[i]) && t.contains(t[i]));
        vstd::seq_lib::to_multiset_contains(s, s[i]);
        vstd::seq_lib::to_multiset_contains(a, s[i]);
        vstd::seq_lib::to_multiset_contains(s, t[i]);
        vstd::seq_lib::to_multiset_contains(a, t[i]);
        assert(s.contains(t[i]));
        lemma_determined(a, s[i], t[i]);
    }
    assert(p.len() == q.len());
    assert(s =~= t);
}

/// After files were registered one after the other and written, wherever the
/// bytes open, a hash finds exactly the ids of the files that hold it, in
/// ascending order.
pub proof fn postings_list_the_files(
    files: Seq<FileGrams>,
    extractor_id: Seq<char>,
    commit_oid: Option<Seq<char>>,
    h: u64,
)
    requires
        files.len() <= u32::MAX,
        ({
            let m = ingest::registered(files, ingest::empty_shard(extractor_id, commit_oid));
            &&& shard_format::shard_bytes(m).len() <= u64::MAX
            &&& shard_format::read_shard(shard_format::shard_bytes(m)) is Ok
        }),
    ensures
        ({
            let m = ingest::registered(files, ingest::empty_shard(extractor_id, commit_oid));
            let ids = shard_format::read_shard(shard_format::shard_bytes(m))->Ok_0.lookup_ids(h);
            &&& shard_format::ascending_ids(ids)
            &&& forall|id: u32| #[trigger]
                ids.contains(id) <==> id < files.len() && files[id as int].hashes@.contains(h)
            &&& ids.len() == 0 <==> forall|i: int|
                0 <= i < files.len() ==> !(#[trigger] files[i]).hashes@.contains(h)
        }),
{
    let start = ingest::empty_shard(extractor_id, commit_oid);
    let m = ingest::registered(files, start);
    lemma_registered(files, start);
    lemma_registered_valid(files, start);
    shard_laws::postings_read_back(m);
    let ids = shard_format::read_shard(shard_format::shard_bytes(m))->Ok_0.lookup_ids(h);
    assert(ids == shard_format::posted(m.postings, h));
    if m.postings.contains_key(h) {
        assert(shard_format::ascending_ids(m.postings[h]));
    }
    assert forall|id: u32| #[trigger] ids.contains(id) <==> id < files.len()
        && files[id as int].hashes@.contains(h) by {
        assert(shard_format::posted(m.postings, h).contains(id) ==> id < files.len());
    }
    if ids.len() > 0 {
        assert(ids.contains(ids[0]));
        assert(files[ids[0] as int].hashes@.contains(h));
    }
    if exists|i: int| 0 <= i < files.len() && (#[trigger] files[i]).hashes@.contains(h) {
        let i = choose|i: int| 0 <= i < files.len() && (#[trigger] files[i]).hashes@.contains(h);
        assert(ids.contains(i as u32));
    }
}

/// A path is internal exactly when it is the index's own directory or begins
/// with that directory and a slash; a name that only begins alike is not.
pub proof fn own_directory_is_internal(path: Seq<char>)
    ensures
        ingest::internal(path) <==> path == ".gitpixel"@ || (path.len() >= 10 && path.take(10)
            == ".gitpixel/"@),
{
    reveal_strlit(".gitpixel");
    reveal_strlit(".gitpixel/");
    let inside = ".gitpixel"@.push('/');
    assert(inside =~= ".gitpixel/"@);
    assert(inside.len() == 10);
    if path.len() >= 10 {
        assert(path.subrange(0, 10) =~= path.take(10));
    }
}

/// Content is binary exactly when one of its first 8192 bytes is zero: what
/// follows those bytes decides nothing.
pub proof fn a_zero_byte_near_the_start_is_binary(content: Seq<u8>, more: Seq<u8>)
    ensures
        ingest::binary(content) <==> exists|i: int|
            0 <= i < content.len() && i < 8192 && #[trigger] content[i] == 0,
        content.len() >= 8192 ==> (ingest::binary(content + more) <==> ingest::binary(content)),
        ingest::binary(content) ==> ingest::binary(content + more),
{
    let all = content + more;
    if ingest::binary(content) {
        let i = choose|i: int|
            0 <= i < content.len() && i < ingest::SNIFF_BYTES && content[i] == 0;
        assert(all[i] == 0);
    }
    if content.len() >= 8192 && ingest::binary(all) {
        let i = choose|i: int| 0 <= i < all.len() && i < ingest::SNIFF_BYTES && all[i] == 0;
        assert(content[i] == 0);
    }
}

} // verus!
