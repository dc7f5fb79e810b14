//! Collecting files and their grams, and writing them as one shard.
use std::collections::BTreeMap;
use vstd::prelude::*;
use vstd::utf8;

use crate::bytes;
use crate::shard_format;
use crate::shard_format::{ShardModel, VERSION};
use crate::text;
use crate::varint;
use crate::varint::write_varint;

verus! {

/// Gathers files with their gram hashes for one shard.
pub struct ShardBuilder {
    postings: BTreeMap<u64, Vec<u32>>,
    files: Vec<String>,
    extractor_id: String,
    commit_oid: Option<String>,
}

impl View for ShardBuilder {
    type V = ShardModel;

    closed spec fn view(&self) -> ShardModel {
        ShardModel {
            files: text::texts(self.files@),
            extractor_id: self.extractor_id@,
            commit_oid: text::text_option(self.commit_oid),
            postings: self.postings@.map_values(|ids: Vec<u32>| ids@),
        }
    }
}

/// Two ascending sequences with the same members are the same sequence.
pub proof fn lemma_ascending_unique(a: Seq<u64>, b: Seq<u64>)
    requires
        shard_format::ascending(a),
        shard_format::ascending(b),
        a.to_set() == b.to_set(),
    ensures
        a == b,
    decreases a.len(),
{
    if a.len() == 0 {
        if b.len() > 0 {
            assert(b.to_set().contains(b[0]));
            assert(a.to_set().contains(b[0]));
        }
    } else {
        assert(a.to_set().contains(a[0]));
        assert(b.contains(a[0]));
        let j = choose|j: int| 0 <= j < b.len() && b[j] == a[0];
        assert(b.to_set().contains(b[0]));
        assert(a.contains(b[0]));
        let i = choose|i: int| 0 <= i < a.len() && a[i] == b[0];
        assert(a[0] == b[0]) by {
            if i > 0 && j > 0 {
                assert(a[0] < a[i]);
                assert(b[0] < b[j]);
            }
        }
        let ra = a.drop_first();
        let rb = b.drop_first();
        assert forall|x: u64| ra.to_set().contains(x) <==> rb.to_set().contains(x) by {
            if ra.contains(x) {
                let k = choose|k: int| 0 <= k < ra.len() && ra[k] == x;
                assert(a[k + 1] == x && a[0] < a[k + 1]);
                assert(a.to_set().contains(x));
                assert(b.contains(x));
                let l = choose|l: int| 0 <= l < b.len() && b[l] == x;
                assert(rb[l - 1] == x);
            }
            if rb.contains(x) {
                let k = choose|k: int| 0 <= k < rb.len() && rb[k] == x;
                assert(b[k + 1] == x && b[0] < b[k + 1]);
                assert(b.to_set().contains(x));
                assert(a.contains(x));
                let l = choose|l: int| 0 <= l < a.len() && a[l] == x;
                assert(ra[l - 1] == x);
            }
        }
        assert(ra.to_set() =~= rb.to_set());
        lemma_ascending_unique(ra, rb);
        assert(a =~= seq![a[0]] + ra);
        assert(b =~= seq![b[0]] + rb);
    }
}

/// The hashes that have postings, in ascending order.
fn sorted_keys(m: &BTreeMap<u64, Vec<u32>>) -> (keys: Vec<u64>)
    ensures
        shard_format::ascending(keys@),
        keys@.to_set() == m@.dom(),
        keys@ == shard_format::ascending_keys(m@.dom()),
{
    broadcast use vstd::std_specs::btree::group_btree_axioms;
    broadcast use vstd::laws_cmp::group_laws_cmp;

    let mut keys: Vec<u64> = Vec::new();
    let it = m.iter();
    let ghost all = vstd::std_specs::iter::IteratorSpec::remaining(&it).map_values(
        |kv: (&u64, &Vec<u32>)| *kv.0,
    );
    proof {
        assert(vstd::std_specs::btree::increasing_seq(all));
        assert(vstd::laws_cmp::obeys_cmp::<u64>());
        assert forall|i: int, j: int| 0 <= i < j < all.len() implies all[i] < all[j] by {
            assert(vstd::std_specs::cmp::OrdSpec::cmp_spec(&all[i], &all[j]) is Less);
        }
        let pairs = vstd::std_specs::iter::IteratorSpec::remaining(&it);
        assert forall|k: u64| all.to_set().contains(k) <==> m@.dom().contains(k) by {
            if m@.dom().contains(k) {
                assert(m@.contains_key(k));
                assert(pairs.contains((&k, &m@[k])));
                let i = choose|i: int| 0 <= i < pairs.len() && pairs[i] == (&k, &m@[k]);
                assert(all[i] == k);
            }
            if all.contains(k) {
                let i = choose|i: int| 0 <= i < all.len() && all[i] == k;
                assert(m@.contains_key(*pairs[i].0));
            }
        }
        assert(all.to_set() =~= m@.dom());
    }
    for kv in iter: it
        invariant
            keys@ == all.take(iter.index()),
            all == iter.seq().map_values(|kv: (&u64, &Vec<u32>)| *kv.0),
    {
        keys.push(*kv.0);
        proof {
            assert(keys@ =~= all.take(iter.index() + 1));
        }
    }
    proof {
        assert(keys@ =~= all);
        assert(shard_format::ascending(all) && all.to_set() == m@.dom());
        let chosen = shard_format::ascending_keys(m@.dom());
        assert(shard_format::ascending(chosen) && chosen.to_set() == m@.dom());
        lemma_ascending_unique(all, chosen);
    }
    keys
}

/// Append the path table.
fn put_files(out: &mut Vec<u8>, files: &Vec<String>)
    ensures
        final(out)@ == old(out)@ + shard_format::files_section(text::texts(files@)),
{
    let ghost all = text::texts(files@);
    let mut i: usize = 0;
    proof {
        assert(all.skip(0) =~= all);
    }
    while i < files.len()
        invariant
            i <= files@.len(),
            all == text::texts(files@),
            out@ + shard_format::files_section(all.skip(i as int)) == old(out)@ + shard_format::files_section(all),
        decreases files@.len() - i,
    {
        let ghost before = out@;
        let text = files[i].as_str().as_bytes();
        bytes::put_le(out, (text.len() as u32) as u64, 4);
        bytes::put_bytes(out, text);
        proof {
            let rest = all.skip(i as int);
            assert(rest[0] == files@[i as int]@);
            assert(rest.drop_first() =~= all.skip(i + 1));
            assert(out@ =~= before + shard_format::file_entry(rest[0]));
            assert(before + (shard_format::file_entry(rest[0]) + shard_format::files_section(all.skip(i + 1))) =~= out@
                + shard_format::files_section(all.skip(i + 1)));
        }
        i = i + 1;
    }
    proof {
        assert(all.skip(i as int) =~= Seq::<Seq<char>>::empty());
        assert(out@ + shard_format::files_section(all.skip(i as int)) =~= out@);
    }
}

/// Append one posting run.
fn put_run(out: &mut Vec<u8>, ids: &Vec<u32>)
    requires
        shard_format::ascending_ids(ids@),
    ensures
        final(out)@ == old(out)@ + shard_format::id_run(ids@, 0),
{
    let mut prev: u32 = 0;
    let mut i: usize = 0;
    proof {
        assert(ids@.skip(0) =~= ids@);
    }
    while i < ids.len()
        invariant
            i <= ids@.len(),
            shard_format::ascending_ids(ids@),
            i > 0 ==> prev == ids@[i - 1],
            i == 0 ==> prev == 0,
            out@ + shard_format::id_run(ids@.skip(i as int), prev) == old(out)@ + shard_format::id_run(ids@, 0),
        decreases ids@.len() - i,
    {
        let ghost before = out@;
        let id: u32 = ids[i];
        proof {
            if i > 0 {
                assert(ids@[i - 1] < ids@[i as int]);
            }
        }
        write_varint(out, id - prev);
        proof {
            let rest = ids@.skip(i as int);
            assert(rest[0] == id);
            assert(rest.drop_first() =~= ids@.skip(i + 1));
            assert(before + (varint::varint((id - prev) as nat) + shard_format::id_run(ids@.skip(i + 1), id)) =~= out@
                + shard_format::id_run(ids@.skip(i + 1), id));
        }
        prev = id;
        i = i + 1;
    }
    proof {
        assert(ids@.skip(i as int) =~= Seq::<u32>::empty());
        assert(out@ + shard_format::id_run(ids@.skip(i as int), prev) =~= out@);
    }
}

impl ShardBuilder {
    /// Every listed gram has files, in ascending order, all registered.
    pub open spec fn wf(self) -> bool {
        self@.valid()
    }

    /// A builder without files.
    pub fn new(extractor_id: &str) -> (b: ShardBuilder)
        ensures
            b.wf(),
            b@ == (ShardModel {
                files: Seq::empty(),
                extractor_id: extractor_id@,
                commit_oid: None,
                postings: Map::empty(),
            }),
    {
        let b = ShardBuilder {
            postings: BTreeMap::new(),
            files: Vec::new(),
            extractor_id: extractor_id.to_string(),
            commit_oid: None,
        };
        proof {
            assert(b@.files =~= Seq::<Seq<char>>::empty());
            assert(b@.postings =~= Map::<u64, Seq<u32>>::empty());
        }
        b
    }

    /// Pin the shard to a commit.
    pub fn set_commit_oid(&mut self, oid: &str)
        ensures
            final(self)@ == (ShardModel { commit_oid: Some(oid@), ..old(self)@ }),
    {
        self.commit_oid = Some(oid.to_string());
    }

    /// Register a file and its gram hashes, which may repeat. Returns the id
    /// that the file got.
    pub fn add_file(&mut self, path: &str, hashes: Vec<u64>) -> (id: u32)
        requires
            old(self).wf(),
            old(self)@.files.len() < u32::MAX,
        ensures
            final(self).wf(),
            id == old(self)@.files.len(),
            final(self)@ == (ShardModel {
                files: old(self)@.files.push(path@),
                postings: shard_format::with_file(old(self)@.postings, hashes@, id),
                ..old(self)@
            }),
    {
        let id: u32 = self.files.len() as u32;
        self.files.push(path.to_string());
        proof {
            assert(self@.files =~= old(self)@.files.push(path@));
            assert(self@.postings =~= shard_format::with_file(old(self)@.postings, hashes@.take(0), id));
        }
        let mut i: usize = 0;
        while i < hashes.len()
            invariant
                i <= hashes@.len(),
                old(self).wf(),
                id == old(self)@.files.len(),
                self@ == (ShardModel {
                    files: old(self)@.files.push(path@),
                    postings: shard_format::with_file(old(self)@.postings, hashes@.take(i as int), id),
                    ..old(self)@
                }),
            decreases hashes@.len() - i,
        {
            let h: u64 = hashes[i];
            self.post(h, id);
            proof {
                let base = old(self)@.postings;
                let before = hashes@.take(i as int);
                let after = hashes@.take(i + 1);
                assert(after =~= before.push(h));
                assert forall|x: u64| after.contains(x) <==> before.contains(x) || x == h by {
                    if before.contains(x) {
                        let k = choose|k: int| 0 <= k < before.len() && before[k] == x;
                        assert(after[k] == x);
                    }
                    assert(after[i as int] == h);
                }
                assert(self@.postings =~= shard_format::with_file(base, after, id));
            }
            i = i + 1;
        }
        proof {
            assert(hashes@.take(i as int) =~= hashes@);
            let m = self@;
            let base = old(self)@.postings;
            assert(m.postings.dom() =~= base.dom().union(hashes@.to_set()));
            assert forall|h: u64| #[trigger] m.postings.contains_key(h) implies {
                &&& m.postings[h].len() > 0
                &&& shard_format::ascending_ids(m.postings[h])
                &&& forall|k: int|
                    0 <= k < m.postings[h].len() ==> #[trigger] m.postings[h][k] < m.files.len()
            } by {
                if base.contains_key(h) {
                    assert(shard_format::ascending_ids(base[h]));
                }
            }
        }
        id
    }

    /// List file `id` under `h` unless it is listed last already.
    fn post(&mut self, h: u64, id: u32)
        requires
            shard_format::posted(old(self)@.postings, h).len() > 0 ==> {
                let ids = shard_format::posted(old(self)@.postings, h);
                ids.last() <= id
            },
        ensures
            final(self)@ == (ShardModel {
                postings: old(self)@.postings.insert(
                    h,
                    ({
                        let ids = shard_format::posted(old(self)@.postings, h);
                        if ids.len() > 0 && ids.last() == id {
                            ids
                        } else {
                            ids.push(id)
                        }
                    }),
                ),
                ..old(self)@
            }),
    {
        broadcast use vstd::std_specs::btree::group_btree_axioms;
        broadcast use vstd::laws_cmp::group_laws_cmp;

        let mut ids: Vec<u32> = match self.postings.remove(&h) {
            Some(ids) => ids,
            None => Vec::new(),
        };
        proof {
            assert(vstd::laws_cmp::obeys_cmp::<u64>());
            assert(ids@ == shard_format::posted(old(self)@.postings, h));
        }
        if ids.len() == 0 || ids[ids.len() - 1] != id {
            ids.push(id);
        }
        self.postings.insert(h, ids);
        proof {
            assert(self@.postings =~= old(self)@.postings.insert(h, ids@));
        }
    }

    /// The bytes of the shard that holds everything registered.
    pub fn write(self) -> (out: Vec<u8>)
        requires
            self.wf(),
        ensures
            out@ == shard_format::shard_bytes(self@),
    {
        let ghost m = self@;
        let keys = sorted_keys(&self.postings);
        proof {
            assert(m.postings.dom() =~= self.postings@.dom());
        }
        // Room for the header, which needs the lengths of the sections.
        let mut out: Vec<u8> = Vec::new();
        bytes::put_zeros(&mut out, 192);
        put_files(&mut out, &self.files);
        let files_end: usize = out.len();
        let (mut lookup, mut postings) = self.lookup_and_postings(&keys);
        let ghost lookup_bytes = lookup@;
        let ghost posting_bytes = postings@;
        out.append(&mut lookup);
        let lookup_end: usize = out.len();
        out.append(&mut postings);
        let end: usize = out.len();
        let ghost body = out@;
        let head = self.header_bytes(
            keys.len(),
            (files_end - 192) as u64,
            (lookup_end - files_end) as u64,
            (end - lookup_end) as u64,
        );
        let ghost tail = body.skip(192);
        let mut i: usize = 0;
        proof {
            assert(body =~= head@.take(0) + body.skip(0));
        }
        while i < 192
            invariant
                i <= 192,
                head@.len() == 192,
                body.len() >= 192,
                out@ == head@.take(i as int) + body.skip(i as int),
            decreases 192 - i,
        {
            let b: u8 = head[i];
            out[i] = b;
            i = i + 1;
            proof {
                assert(out@ =~= head@.take(i as int) + body.skip(i as int));
            }
        }
        proof {
            assert(head@.take(192) =~= head@);
            assert(tail =~= shard_format::files_section(m.files) + lookup_bytes + posting_bytes);
            assert(out@ =~= shard_format::shard_bytes(m));
        }
        out
    }

    /// The ids listed under a hash that has postings.
    fn ids_of(&self, h: u64) -> (ids: &Vec<u32>)
        requires
            self@.postings.contains_key(h),
        ensures
            ids@ == self@.postings[h],
    {
        broadcast use vstd::std_specs::btree::group_btree_axioms;
        broadcast use vstd::laws_cmp::group_laws_cmp;

        proof {
            assert(vstd::laws_cmp::obeys_cmp::<u64>());
            assert(self.postings@.contains_key(h));
        }
        self.postings.get(&h).unwrap()
    }

    /// The lookup section and the postings section.
    fn lookup_and_postings(&self, keys: &Vec<u64>) -> (r: (Vec<u8>, Vec<u8>))
        requires
            self.wf(),
            shard_format::ascending(keys@),
            keys@.to_set() == self@.postings.dom(),
        ensures
            r.0@ == shard_format::records(keys@, self@.postings, 0),
            r.1@ == shard_format::runs(keys@, self@.postings),
    {
        let ghost map = self@.postings;
        let mut lookup: Vec<u8> = Vec::new();
        let mut postings: Vec<u8> = Vec::new();
        let mut i: usize = 0;
        proof {
            assert(keys@.skip(0) =~= keys@);
            assert(lookup@ + shard_format::records(keys@, map, 0) =~= shard_format::records(keys@, map, 0));
            assert(postings@ + shard_format::runs(keys@, map) =~= shard_format::runs(keys@, map));
        }
        while i < keys.len()
            invariant
                i <= keys@.len(),
                self.wf(),
                map == self@.postings,
                keys@.to_set() == map.dom(),
                lookup@ + shard_format::records(keys@.skip(i as int), map, postings@.len()) == shard_format::records(
                    keys@,
                    map,
                    0,
                ),
                postings@ + shard_format::runs(keys@.skip(i as int), map) == shard_format::runs(keys@, map),
            decreases keys@.len() - i,
        {
            let h: u64 = keys[i];
            let ghost lookup_before = lookup@;
            let ghost postings_before = postings@;
            let ghost rest = keys@.skip(i as int);
            proof {
                assert(rest[0] == h);
                assert(rest.drop_first() =~= keys@.skip(i + 1));
                assert(keys@.to_set().contains(h));
                assert(map.contains_key(h));
            }
            let ids = self.ids_of(h);
            self.put_gram(h, ids, &mut lookup, &mut postings);
            proof {
                let len = shard_format::id_run(map[h], 0).len();
                assert(lookup_before + (shard_format::record(h, postings_before.len(), len) + shard_format::records(
                    keys@.skip(i + 1),
                    map,
                    postings_before.len() + len,
                )) =~= lookup@ + shard_format::records(keys@.skip(i + 1), map, postings@.len()));
                assert(postings_before + (shard_format::id_run(map[h], 0) + shard_format::runs(keys@.skip(i + 1), map))
                    =~= postings@ + shard_format::runs(keys@.skip(i + 1), map));
            }
            i = i + 1;
        }
        proof {
            assert(keys@.skip(i as int) =~= Seq::<u64>::empty());
            assert(lookup@ + shard_format::records(keys@.skip(i as int), map, postings@.len()) =~= lookup@);
            assert(postings@ + shard_format::runs(keys@.skip(i as int), map) =~= postings@);
        }
        (lookup, postings)
    }

    /// Append the run of one gram and the record that points at it.
    fn put_gram(&self, h: u64, ids: &Vec<u32>, lookup: &mut Vec<u8>, postings: &mut Vec<u8>)
        requires
            shard_format::ascending_ids(ids@),
        ensures
            final(postings)@ == old(postings)@ + shard_format::id_run(ids@, 0),
            final(lookup)@ == old(lookup)@ + shard_format::record(
                h,
                old(postings)@.len(),
                shard_format::id_run(ids@, 0).len(),
            ),
    {
        let start: usize = postings.len();
        put_run(postings, ids);
        let len: usize = postings.len() - start;
        bytes::put_le(lookup, h, 8);
        bytes::put_le(lookup, start as u64, 8);
        bytes::put_le(lookup, (len as u32) as u64, 4);
        proof {
            assert(lookup@ =~= old(lookup)@ + shard_format::record(
                h,
                old(postings)@.len(),
                shard_format::id_run(ids@, 0).len(),
            ));
        }
    }

    /// The header for sections of the given lengths.
    fn header_bytes(&self, grams: usize, files_len: u64, lookup_len: u64, postings_len: u64) -> (r:
        Vec<u8>)
        requires
            self.wf(),
            192 + files_len + lookup_len + postings_len <= u64::MAX,
        ensures
            r@ == shard_format::header(
                self@,
                grams as nat,
                files_len as nat,
                lookup_len as nat,
                postings_len as nat,
            ),
            r@.len() == 192,
    {
        let mut out: Vec<u8> = Vec::new();
        out.push(71);
        out.push(80);
        out.push(88);
        out.push(83);
        out.push(72);
        out.push(65);
        out.push(82);
        out.push(68);
        proof {
            assert(out@ =~= shard_format::magic());
        }
        bytes::put_le(&mut out, VERSION as u64, 4);
        bytes::put_zeros(&mut out, 4);
        match &self.commit_oid {
            Some(oid) => bytes::put_padded(&mut out, oid.as_str().as_bytes(), 40),
            None => bytes::put_padded(&mut out, "".as_bytes(), 40),
        }
        bytes::put_padded(&mut out, self.extractor_id.as_str().as_bytes(), 64);
        bytes::put_le(&mut out, self.files.len() as u64, 4);
        bytes::put_le(&mut out, grams as u64, 8);
        bytes::put_le(&mut out, 192, 8);
        bytes::put_le(&mut out, files_len, 8);
        bytes::put_le(&mut out, 192 + files_len, 8);
        bytes::put_le(&mut out, lookup_len, 8);
        bytes::put_le(&mut out, 192 + files_len + lookup_len, 8);
        bytes::put_le(&mut out, postings_len, 8);
        bytes::put_zeros(&mut out, 12);
        proof {
            reveal_strlit("");
            assert(""@ =~= Seq::<char>::empty());
            assert(utf8::encode_utf8(""@) =~= Seq::<u8>::empty());
            lemma_header_len(
                self@,
                grams as nat,
                files_len as nat,
                lookup_len as nat,
                postings_len as nat,
            );
        }
        out
    }
}

pub proof fn lemma_header_len(
    m: ShardModel,
    grams: nat,
    files_len: nat,
    lookup_len: nat,
    postings_len: nat,
)
    ensures
        shard_format::header(m, grams, files_len, lookup_len, postings_len).len() == 192,
{
    bytes::lemma_le_len(VERSION as nat, 4);
    bytes::lemma_le_len(m.files.len(), 4);
    bytes::lemma_le_len(grams, 8);
    bytes::lemma_le_len(192, 8);
    bytes::lemma_le_len(files_len, 8);
    bytes::lemma_le_len(192 + files_len, 8);
    bytes::lemma_le_len(lookup_len, 8);
    bytes::lemma_le_len(192 + files_len + lookup_len, 8);
    bytes::lemma_le_len(postings_len, 8);
}

} // verus!
