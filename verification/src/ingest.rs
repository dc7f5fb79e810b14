//! Which files belong into an index, and shards built from their grams.
use vstd::prelude::*;

use crate::order;
use crate::order::Ranked;
use crate::seqs;
use crate::shard::ShardBuilder;
use crate::shard_format;
use crate::shard_format::ShardModel;
use crate::text;

verus! {

/// The name of the index directory below the root.
pub open spec fn shard_dir() -> Seq<char> {
    ".gitpixel"@
}

/// Whether a path lies in the index's own directory, which is never indexed.
pub open spec fn internal(path: Seq<char>) -> bool {
    path == shard_dir() || shard_dir().push('/').is_prefix_of(path)
}

/// How many leading bytes decide whether content is binary.
pub const SNIFF_BYTES: usize = 8192;

/// Whether content is binary: a zero byte near its start.
pub open spec fn binary(content: Seq<u8>) -> bool {
    exists|i: int| 0 <= i < content.len() && i < SNIFF_BYTES && content[i] == 0
}

// ---- building a shard ----

/// A file with the hashes of its grams.
#[derive(Debug)]
pub struct FileGrams {
    pub path: String,
    pub hashes: Vec<u64>,
}

impl Ranked for FileGrams {
    open spec fn precedes(self, other: FileGrams) -> bool {
        order::text_less(self.path@, other.path@)
    }

    proof fn is_weak_order() {
        order::texts_are_ordered();
        assert forall|a: FileGrams, b: FileGrams, c: FileGrams|
            !#[trigger] a.precedes(b) && !#[trigger] b.precedes(c) implies !a.precedes(c) by {
            if order::text_less(a.path@, c.path@) {
                if order::text_less(b.path@, a.path@) {
                    assert(order::text_less(b.path@, c.path@));
                }
            }
        }
    }

    fn goes_before(&self, other: &FileGrams) -> (r: bool) {
        order::text_before(self.path.as_str(), other.path.as_str())
    }
}

/// The shard content that registers `files` in their order.
pub open spec fn registered(files: Seq<FileGrams>, start: ShardModel) -> ShardModel
    decreases files.len(),
{
    if files.len() == 0 {
        start
    } else {
        let before = registered(files.drop_last(), start);
        let last = files.last();
        ShardModel {
            files: before.files.push(last.path@),
            postings: shard_format::with_file(
                before.postings,
                last.hashes@,
                before.files.len() as u32,
            ),
            ..before
        }
    }
}

/// Which files belong into an index: all outside the index's own directory.
pub open spec fn outside() -> spec_fn(FileGrams) -> bool {
    |f: FileGrams| !internal(f.path@)
}

/// The files among `files` that belong into an index, in path order.
pub open spec fn indexed(files: Seq<FileGrams>) -> Seq<FileGrams> {
    order::sorted(files).filter(outside())
}

/// A shard without files.
pub open spec fn empty_shard(extractor_id: Seq<char>, commit_oid: Option<Seq<char>>) -> ShardModel {
    ShardModel { files: Seq::empty(), extractor_id, commit_oid, postings: Map::empty() }
}

/// The content of a shard over `files`, pinned to `commit_oid`.
pub open spec fn shard_of(
    files: Seq<FileGrams>,
    extractor_id: Seq<char>,
    commit_oid: Seq<char>,
) -> ShardModel {
    registered(indexed(files), empty_shard(extractor_id, Some(commit_oid)))
}

/// Whether a path lies in the index's own directory.
pub fn is_internal(rel: &str) -> (r: bool)
    ensures
        r == internal(rel@),
{
    let dir = ".gitpixel";
    let mut inside = dir.to_string();
    inside.push('/');
    text::same_text(rel, dir) || text::has_prefix(rel, inside.as_str())
}

/// Whether content is binary.
pub fn is_binary(content: &[u8]) -> (r: bool)
    ensures
        r == binary(content@),
{
    let mut i: usize = 0;
    while i < content.len() && i < SNIFF_BYTES
        invariant
            i <= content@.len(),
            forall|k: int| 0 <= k < i ==> content@[k] != 0,
        decreases content@.len() - i,
    {
        if content[i] == 0 {
            return true;
        }
        i = i + 1;
    }
    false
}

/// The paths among `rel_paths` that belong into an index.
pub fn indexable(rel_paths: &Vec<String>) -> (r: Vec<String>)
    ensures
        text::texts(r@) == text::texts(rel_paths@).filter(|p: Seq<char>| !internal(p)),
        forall|p: Seq<char>| #[trigger]
            text::texts(r@).contains(p) <==> text::texts(rel_paths@).contains(p) && !internal(p),
{
    let ghost keep = |p: Seq<char>| !internal(p);
    let ghost all = text::texts(rel_paths@);
    let mut r: Vec<String> = Vec::new();
    let mut i: usize = 0;
    proof {
        reveal(Seq::filter);
        assert(all.take(0) =~= Seq::<Seq<char>>::empty());
        assert(text::texts(r@) =~= all.take(0).filter(keep));
    }
    while i < rel_paths.len()
        invariant
            i <= rel_paths@.len(),
            all == text::texts(rel_paths@),
            keep == (|p: Seq<char>| !internal(p)),
            text::texts(r@) == all.take(i as int).filter(keep),
        decreases rel_paths@.len() - i,
    {
        proof {
            reveal(Seq::filter);
            assert(all.take(i + 1).drop_last() =~= all.take(i as int));
            assert(all.take(i + 1).last() == rel_paths@[i as int]@);
        }
        if !is_internal(rel_paths[i].as_str()) {
            let ghost before = text::texts(r@);
            r.push(rel_paths[i].clone());
            proof {
                assert(text::texts(r@) =~= before.push(rel_paths@[i as int]@));
            }
        }
        i = i + 1;
    }
    proof {
        assert(all.take(i as int) =~= all);
        seqs::lemma_filter_members(all, keep);
    }
    r
}

/// One file for shard building: `None` if its content is binary, else its
/// distinct gram hashes. `hits` are the hashes in the order of extraction.
pub fn extract_file(rel: &str, content: &[u8], hits: &Vec<u64>) -> (r: Option<FileGrams>)
    ensures
        match r {
            Some(f) => {
                &&& !binary(content@)
                &&& f.path@ == rel@
                &&& shard_format::ascending(f.hashes@)
                &&& f.hashes@.to_set() == hits@.to_set()
            },
            None => binary(content@),
        },
        r matches Some(f) ==> {
            &&& forall|h: u64| #[trigger] f.hashes@.contains(h) <==> hits@.contains(h)
            &&& forall|i: int, j: int| 0 <= i < j < f.hashes@.len() ==> f.hashes@[i] < f.hashes@[j]
        },
{
    if is_binary(content) {
        return None;
    }
    let hashes = distinct(hits);
    proof {
        assert forall|h: u64| #[trigger] hashes@.contains(h) <==> hits@.contains(h) by {
            assert(hashes@.to_set().contains(h) <==> hits@.to_set().contains(h));
        }
    }
    Some(FileGrams { path: rel.to_string(), hashes })
}

/// The members of `hits`, ascending.
fn distinct(hits: &Vec<u64>) -> (r: Vec<u64>)
    ensures
        shard_format::ascending(r@),
        r@.to_set() == hits@.to_set(),
{
    let mut r: Vec<u64> = Vec::new();
    let mut i: usize = 0;
    proof {
        assert(r@.to_set() =~= hits@.take(0).to_set());
    }
    while i < hits.len()
        invariant
            i <= hits@.len(),
            shard_format::ascending(r@),
            r@.to_set() == hits@.take(i as int).to_set(),
        decreases hits@.len() - i,
    {
        let h: u64 = hits[i];
        let ghost seen = hits@.take(i as int);
        insert_hash(&mut r, h);
        proof {
            let now = hits@.take(i + 1);
            assert(now =~= seen.push(h));
            assert forall|x: u64| now.to_set().contains(x) <==> seen.to_set().insert(h).contains(
                x,
            ) by {
                if seen.contains(x) {
                    let k = choose|k: int| 0 <= k < seen.len() && seen[k] == x;
                    assert(now[k] == x);
                }
                assert(now[i as int] == h);
            }
            assert(now.to_set() =~= seen.to_set().insert(h));
        }
        i = i + 1;
    }
    proof {
        assert(hits@.take(i as int) =~= hits@);
    }
    r
}

/// Add `h` to an ascending list unless it is there.
fn insert_hash(list: &mut Vec<u64>, h: u64)
    requires
        shard_format::ascending(old(list)@),
    ensures
        shard_format::ascending(final(list)@),
        final(list)@.to_set() == old(list)@.to_set().insert(h),
{
    let ghost s = list@;
    let mut lo: usize = 0;
    let mut hi: usize = list.len();
    while lo < hi
        invariant
            lo <= hi <= list@.len(),
            list@ == s,
            shard_format::ascending(s),
            forall|k: int| 0 <= k < lo ==> s[k] < h,
            forall|k: int| hi <= k < s.len() ==> s[k] >= h,
        decreases hi - lo,
    {
        let mid: usize = lo + (hi - lo) / 2;
        if list[mid] < h {
            lo = mid + 1;
        } else {
            hi = mid;
        }
    }
    if lo < list.len() && list[lo] == h {
        proof {
            assert(s.contains(s[lo as int]));
            assert(s.to_set().insert(h) =~= s.to_set());
        }
        return;
    }
    list.insert(lo, h);
    proof {
        let r = s.insert(lo as int, h);
        assert forall|x: u64| r.to_set().contains(x) <==> s.to_set().insert(h).contains(x) by {
            if s.contains(x) {
                let k = choose|k: int| 0 <= k < s.len() && s[k] == x;
                if k < lo {
                    assert(r[k] == x);
                } else {
                    assert(r[k + 1] == x);
                }
            }
            assert(r[lo as int] == h);
            if r.contains(x) && x != h {
                let k = choose|k: int| 0 <= k < r.len() && r[k] == x;
                if k < lo {
                    assert(s[k] == x);
                } else {
                    assert(s[k - 1] == x);
                }
            }
        }
        assert(r.to_set() =~= s.to_set().insert(h));
    }
}

/// The bytes of a shard over the extracted files, in path order, pinned to
/// `commit_oid`. Files in the index's own directory are left out.
pub fn build_shard_from(extracted: Vec<FileGrams>, extractor_id: &str, commit_oid: &str) -> (out:
    Vec<u8>)
    requires
        extracted@.len() <= u32::MAX,
    ensures
        out@ == shard_format::shard_bytes(shard_of(extracted@, extractor_id@, commit_oid@)),
{
    let ghost all = extracted@;
    let files = order::stable_sort(extracted);
    proof {
        vstd::seq_lib::to_multiset_len(all);
        vstd::seq_lib::to_multiset_len(files@);
    }
    let mut builder = ShardBuilder::new(extractor_id);
    builder.set_commit_oid(commit_oid);
    let ghost start = builder@;
    let mut i: usize = 0;
    proof {
        reveal(Seq::filter);
        assert(files@.take(0) =~= Seq::<FileGrams>::empty());
    }
    while i < files.len()
        invariant
            i <= files@.len() <= u32::MAX,
            builder.wf(),
            builder@.files.len() <= i,
            builder@ == registered(files@.take(i as int).filter(outside()), start),
        decreases files@.len() - i,
    {
        let f = &files[i];
        let ghost kept = files@.take(i as int).filter(outside());
        proof {
            reveal(Seq::filter);
            assert(files@.take(i + 1).drop_last() =~= files@.take(i as int));
            assert(files@.take(i + 1).last() == *f);
        }
        if !is_internal(f.path.as_str()) {
            let hashes = copied(&f.hashes);
            builder.add_file(f.path.as_str(), hashes);
            proof {
                assert(kept.push(*f).drop_last() =~= kept);
            }
        }
        i = i + 1;
    }
    proof {
        assert(files@.take(i as int) =~= files@);
    }
    builder.write()
}

/// A copy of the hashes.
pub fn copied(v: &Vec<u64>) -> (r: Vec<u64>)
    ensures
        r@ == v@,
{
    let mut r: Vec<u64> = Vec::new();
    r.extend_from_slice(v.as_slice());
    proof {
        assert(r@ =~= v@);
    }
    r
}

} // verus!
