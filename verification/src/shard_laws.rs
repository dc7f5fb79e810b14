//! What reading a shard gives back of what was written.
use vstd::prelude::*;
use vstd::utf8;

use crate::bytes;
use crate::shard;
use crate::shard_builder;
use crate::shard_format;
use crate::shard_format::{Fault, ShardModel, ShardView, VERSION};
use crate::varint;

verus! {

/// Whether a text fits a zero-padded field of `n` bytes.
pub open spec fn fits_field(text: Seq<char>, n: nat) -> bool {
    let raw = utf8::encode_utf8(text);
    &&& raw.len() <= n
    &&& forall|i: int| 0 <= i < raw.len() ==> raw[i] != 0
}

/// Whether `m` can be written at all: it is valid, and its shard is no longer
/// than an offset can tell.
pub open spec fn writable(m: ShardModel) -> bool {
    &&& m.valid()
    &&& shard_format::shard_bytes(m).len() <= u64::MAX
}

/// Whether the format can hold `m` without loss: the fixed fields are wide
/// enough, an oid is not empty, and all lengths fit their integers.
pub open spec fn storable(m: ShardModel) -> bool {
    &&& writable(m)
    &&& fits_field(m.extractor_id, 64)
    &&& m.commit_oid matches Some(oid) ==> oid.len() > 0 && fits_field(oid, 40)
    &&& forall|i: int|
        0 <= i < m.files.len() ==> utf8::encode_utf8(#[trigger] m.files[i]).len() <= u32::MAX
}

// ---- ascending keys ----

spec fn inserted(s: Seq<u64>, a: u64) -> Seq<u64>
    decreases s.len(),
{
    if s.len() == 0 || a < s[0] {
        seq![a] + s
    } else {
        seq![s[0]] + inserted(s.drop_first(), a)
    }
}

proof fn lemma_inserted(s: Seq<u64>, a: u64)
    requires
        shard_format::ascending(s),
        !s.contains(a),
    ensures
        shard_format::ascending(inserted(s, a)),
        forall|x: u64| inserted(s, a).contains(x) <==> s.contains(x) || x == a,
        s.len() > 0 ==> inserted(s, a)[0] == a || inserted(s, a)[0] == s[0],
        inserted(s, a).len() == s.len() + 1,
    decreases s.len(),
{
    let r = inserted(s, a);
    if s.len() == 0 || a < s[0] {
        assert forall|x: u64| r.contains(x) <==> s.contains(x) || x == a by {
            if s.contains(x) {
                let k = choose|k: int| 0 <= k < s.len() && s[k] == x;
                assert(r[k + 1] == x);
            }
            assert(r[0] == a);
            if r.contains(x) && x != a {
                let k = choose|k: int| 0 <= k < r.len() && r[k] == x;
                assert(s[k - 1] == x);
            }
        }
    } else {
        let t = s.drop_first();
        assert(s.contains(s[0]));
        assert forall|x: u64| t.contains(x) implies s.contains(x) by {
            let k = choose|k: int| 0 <= k < t.len() && t[k] == x;
            assert(s[k + 1] == x);
        }
        lemma_inserted(t, a);
        let u = inserted(t, a);
        assert(r =~= seq![s[0]] + u);
        assert forall|k: int| 0 <= k < u.len() implies s[0] < u[k] by {
            assert(u.contains(u[k]));
            if t.contains(u[k]) {
                let l = choose|l: int| 0 <= l < t.len() && t[l] == u[k];
                assert(s[l + 1] == u[k]);
            }
        }
        assert forall|x: u64| r.contains(x) <==> s.contains(x) || x == a by {
            if r.contains(x) {
                let k = choose|k: int| 0 <= k < r.len() && r[k] == x;
                if k > 0 {
                    assert(u[k - 1] == x);
                    assert(u.contains(x));
                }
            }
            if s.contains(x) {
                let k = choose|k: int| 0 <= k < s.len() && s[k] == x;
                if k > 0 {
                    assert(t[k - 1] == x);
                    assert(t.contains(x));
                    assert(u.contains(x));
                    let l = choose|l: int| 0 <= l < u.len() && u[l] == x;
                    assert(r[l + 1] == x);
                } else {
                    assert(r[0] == x);
                }
            }
            if x == a {
                assert(u.contains(x));
                let l = choose|l: int| 0 <= l < u.len() && u[l] == x;
                assert(r[l + 1] == x);
            }
        }
    }
}

proof fn lemma_listing_exists(dom: Set<u64>) -> (s: Seq<u64>)
    requires
        dom.finite(),
    ensures
        shard_format::ascending(s),
        s.to_set() == dom,
        s.len() == dom.len(),
    decreases dom.len(),
{
    if dom.len() == 0 {
        let s = Seq::<u64>::empty();
        assert(s.to_set() =~= dom);
        s
    } else {
        let a = dom.choose();
        let rest = lemma_listing_exists(dom.remove(a));
        assert(!rest.contains(a)) by {
            if rest.contains(a) {
                assert(rest.to_set().contains(a));
            }
        }
        lemma_inserted(rest, a);
        let s = inserted(rest, a);
        assert forall|x: u64| s.to_set().contains(x) <==> dom.contains(x) by {
            if dom.contains(x) && x != a {
                assert(rest.to_set().contains(x));
            }
            if rest.contains(x) {
                assert(rest.to_set().contains(x));
            }
        }
        assert(s.to_set() =~= dom);
        s
    }
}

/// A finite set of hashes has exactly one ascending listing.
pub proof fn keys_ascend(dom: Set<u64>)
    requires
        dom.finite(),
    ensures
        ({
            let keys = shard_format::ascending_keys(dom);
            &&& shard_format::ascending(keys)
            &&& keys.to_set() == dom
            &&& keys.len() == dom.len()
        }),
{
    let s = lemma_listing_exists(dom);
    assert(shard_format::ascending(s) && s.to_set() == dom);
    let keys = shard_format::ascending_keys(dom);
    assert(shard_format::ascending(keys) && keys.to_set() == dom);
    shard_builder::lemma_ascending_unique(s, keys);
}

// ---- path table ----

proof fn lemma_table_reads_back(pre: Seq<u8>, files: Seq<Seq<char>>)
    requires
        forall|i: int|
            0 <= i < files.len() ==> utf8::encode_utf8(#[trigger] files[i]).len() <= u32::MAX,
    ensures
        shard_format::file_table(
            pre + shard_format::files_section(files),
            pre.len() as int,
            files.len(),
        ) == Ok::<Seq<Seq<char>>, Fault>(files),
    decreases files.len(),
{
    let table = pre + shard_format::files_section(files);
    let pos = pre.len() as int;
    if files.len() > 0 {
        let text = utf8::encode_utf8(files[0]);
        let rest = files.drop_first();
        assert forall|i: int| 0 <= i < rest.len() implies utf8::encode_utf8(
            #[trigger] rest[i],
        ).len() <= u32::MAX by {
            assert(rest[i] == files[i + 1]);
        }
        let entry = shard_format::file_entry(files[0]);
        lemma_table_reads_back(pre + entry, rest);
        bytes::lemma_byte_ranges();
        bytes::le_round_trip(text.len(), 4);
        assert(table =~= pre + entry + shard_format::files_section(rest));
        assert(table.subrange(pos, pos + 4) =~= bytes::le(text.len(), 4));
        let end = pos + 4 + text.len();
        assert(table.subrange(pos + 4, end) =~= text);
        utf8::encode_utf8_valid_utf8(files[0]);
        utf8::encode_utf8_decode_utf8(files[0]);
        assert(seq![files[0]] + rest =~= files);
    } else {
        assert(files =~= Seq::<Seq<char>>::empty());
    }
}

// ---- posting runs ----

proof fn lemma_run_reads_back(pre: Seq<u8>, ids: Seq<u32>, prev: u32)
    requires
        shard_format::ascending_ids(ids),
        ids.len() > 0 ==> prev <= ids[0],
    ensures
        shard_format::decode_run(
            pre + shard_format::id_run(ids, prev),
            pre.len() as int,
            prev,
        ) == ids,
    decreases ids.len(),
{
    let run = pre + shard_format::id_run(ids, prev);
    if ids.len() > 0 {
        let delta = (ids[0] - prev) as u32;
        let code = varint::varint(delta as nat);
        let rest = ids.drop_first();
        let tail = shard_format::id_run(rest, ids[0]);
        assert(run =~= pre + code + tail);
        varint::varint_round_trip(delta, pre, tail);
        varint::varint_length(delta);
        if rest.len() > 0 {
            assert(ids[0] < ids[1]);
        }
        lemma_run_reads_back(pre + code, rest, ids[0]);
        assert(seq![ids[0]] + rest =~= ids);
    } else {
        assert(ids =~= Seq::<u32>::empty());
    }
}

proof fn lemma_run_len(ids: Seq<u32>, prev: u32)
    requires
        shard_format::ascending_ids(ids),
        ids.len() > 0,
        prev < ids[0],
    ensures
        shard_format::id_run(ids, prev).len() <= ids.last() - prev,
    decreases ids.len(),
{
    let delta = (ids[0] - prev) as u32;
    varint::varint_length(delta);
    assert(delta < 128 ==> varint::varint(delta as nat).len() == 1);
    let rest = ids.drop_first();
    if rest.len() == 0 {
        assert(shard_format::id_run(rest, ids[0]).len() == 0);
    }
    if rest.len() > 0 {
        assert(ids[0] < ids[1]);
        lemma_run_len(rest, ids[0]);
        assert(rest.last() == ids.last());
    }
}

/// A posting run takes no more bytes than its largest id plus one, so its
/// length always fits a lookup record.
pub proof fn run_length(ids: Seq<u32>)
    requires
        shard_format::ascending_ids(ids),
        ids.len() > 0,
    ensures
        shard_format::id_run(ids, 0).len() <= ids.last() + 1,
{
    if ids[0] > 0 {
        lemma_run_len(ids, 0);
    } else {
        let rest = ids.drop_first();
        varint::varint_length(0);
        assert(varint::varint(0).len() == 1);
        if rest.len() > 0 {
            assert(ids[0] < ids[1]);
            lemma_run_len(rest, ids[0]);
            assert(rest.last() == ids.last());
        } else {
            assert(shard_format::id_run(rest, ids[0]).len() == 0);
        }
    }
}

// ---- lookup records ----

/// Where the run of key `i` starts.
pub open spec fn run_start(keys: Seq<u64>, postings: Map<u64, Seq<u32>>, i: int) -> nat {
    shard_format::runs(keys.take(i), postings).len()
}

proof fn lemma_runs_split(keys: Seq<u64>, postings: Map<u64, Seq<u32>>, i: int)
    requires
        0 <= i <= keys.len(),
    ensures
        shard_format::runs(keys, postings) == shard_format::runs(keys.take(i), postings)
            + shard_format::runs(keys.skip(i), postings),
    decreases keys.len(),
{
    if i == 0 {
        assert(keys.take(0) =~= Seq::<u64>::empty());
        assert(keys.skip(0) =~= keys);
        assert(shard_format::runs(keys.take(0), postings) =~= Seq::<u8>::empty());
        assert(shard_format::runs(keys, postings) =~= Seq::<u8>::empty() + shard_format::runs(
            keys,
            postings,
        ));
    } else {
        lemma_runs_split(keys.drop_first(), postings, i - 1);
        assert(keys.take(i)[0] == keys[0]);
        assert(keys.take(i).drop_first() =~= keys.drop_first().take(i - 1));
        assert(keys.skip(i) =~= keys.drop_first().skip(i - 1));
        let head = shard_format::id_run(postings[keys[0]], 0);
        assert(shard_format::runs(keys, postings) =~= (head + shard_format::runs(
            keys.take(i).drop_first(),
            postings,
        )) + shard_format::runs(keys.skip(i), postings));
    }
}

proof fn lemma_run_at(keys: Seq<u64>, postings: Map<u64, Seq<u32>>, i: int)
    requires
        0 <= i < keys.len(),
    ensures
        ({
            let all = shard_format::runs(keys, postings);
            let run = shard_format::id_run(postings[keys[i]], 0);
            let start = run_start(keys, postings, i);
            &&& start + run.len() <= all.len()
            &&& all.subrange(start as int, (start + run.len()) as int) == run
        }),
{
    let all = shard_format::runs(keys, postings);
    let run = shard_format::id_run(postings[keys[i]], 0);
    let start = run_start(keys, postings, i);
    lemma_runs_split(keys, postings, i);
    assert(keys.skip(i)[0] == keys[i]);
    assert(all.subrange(start as int, (start + run.len()) as int) =~= run);
}

pub(crate) proof fn lemma_records_len(keys: Seq<u64>, postings: Map<u64, Seq<u32>>, start: nat)
    ensures
        shard_format::records(keys, postings, start).len() == 20 * keys.len(),
    decreases keys.len(),
{
    if keys.len() > 0 {
        let len = shard_format::id_run(postings[keys[0]], 0).len();
        bytes::lemma_le_len(keys[0] as nat, 8);
        bytes::lemma_le_len(start, 8);
        bytes::lemma_le_len((len as u32) as nat, 4);
        lemma_records_len(keys.drop_first(), postings, start + len);
    }
}

proof fn lemma_record_at(keys: Seq<u64>, postings: Map<u64, Seq<u32>>, start: nat, i: int)
    requires
        0 <= i < keys.len(),
    ensures
        ({
            let len = shard_format::id_run(postings[keys[i]], 0).len();
            &&& shard_format::records(keys, postings, start).len() == 20 * keys.len()
            &&& shard_format::records(keys, postings, start).subrange(20 * i, 20 * i + 20)
                == shard_format::record(keys[i], start + run_start(keys, postings, i), len)
        }),
    decreases keys.len(),
{
    let all = shard_format::records(keys, postings, start);
    lemma_records_len(keys, postings, start);
    let len0 = shard_format::id_run(postings[keys[0]], 0).len();
    bytes::lemma_le_len(keys[0] as nat, 8);
    bytes::lemma_le_len(start, 8);
    bytes::lemma_le_len((len0 as u32) as nat, 4);
    let head = shard_format::record(keys[0], start, len0);
    let rest = shard_format::records(keys.drop_first(), postings, start + len0);
    assert(all == head + rest);
    if i == 0 {
        assert(keys.take(0) =~= Seq::<u64>::empty());
        assert(all.subrange(0, 20) =~= head);
    } else {
        lemma_record_at(keys.drop_first(), postings, start + len0, i - 1);
        assert(keys.take(i).drop_first() =~= keys.drop_first().take(i - 1));
        assert(run_start(keys, postings, i) == len0 + run_start(
            keys.drop_first(),
            postings,
            i - 1,
        ));
        assert(all.subrange(20 * i, 20 * i + 20) =~= rest.subrange(20 * i - 20, 20 * i));
    }
}

proof fn lemma_record_fields(keys: Seq<u64>, postings: Map<u64, Seq<u32>>, i: int)
    requires
        0 <= i < keys.len(),
        shard_format::id_run(postings[keys[i]], 0).len() <= u32::MAX,
        run_start(keys, postings, i) <= u64::MAX,
    ensures
        ({
            let lookup = shard_format::records(keys, postings, 0);
            &&& shard_format::record_hash(lookup, i) == keys[i]
            &&& bytes::le_at(lookup, 20 * i + 8, 8) == run_start(keys, postings, i)
            &&& bytes::le_at(lookup, 20 * i + 16, 4) == shard_format::id_run(
                postings[keys[i]],
                0,
            ).len()
        }),
{
    let lookup = shard_format::records(keys, postings, 0);
    let start = run_start(keys, postings, i);
    let len = shard_format::id_run(postings[keys[i]], 0).len();
    lemma_record_at(keys, postings, 0, i);
    let rec = shard_format::record(keys[i], start, len);
    bytes::lemma_byte_ranges();
    bytes::le_round_trip(keys[i] as nat, 8);
    bytes::le_round_trip(start, 8);
    bytes::le_round_trip(len, 4);
    let at = lookup.subrange(20 * i, 20 * i + 20);
    assert(lookup.subrange(20 * i, 20 * i + 8) =~= at.subrange(0, 8));
    assert(rec.subrange(0, 8) =~= bytes::le(keys[i] as nat, 8));
    assert(lookup.subrange(20 * i + 8, 20 * i + 16) =~= at.subrange(8, 16));
    assert(rec.subrange(8, 16) =~= bytes::le(start, 8));
    assert(lookup.subrange(20 * i + 16, 20 * i + 20) =~= at.subrange(16, 20));
    assert(rec.subrange(16, 20) =~= bytes::le(len, 4));
}

/// In a lookup table whose hashes ascend, bisection finds the boundary
/// between the smaller hashes and the others.
pub proof fn lower_bound_splits(lookup: Seq<u8>, hash: u64, lo: int, hi: int)
    requires
        lo <= hi,
        forall|i: int, j: int|
            lo <= i < j < hi ==> shard_format::record_hash(lookup, i)
                <= shard_format::record_hash(lookup, j),
    ensures
        ({
            let r = shard_format::lower_bound(lookup, hash, lo, hi);
            &&& lo <= r <= hi
            &&& forall|i: int| lo <= i < r ==> shard_format::record_hash(lookup, i) < hash
            &&& forall|i: int| r <= i < hi ==> shard_format::record_hash(lookup, i) >= hash
        }),
    decreases hi - lo,
{
    if lo < hi {
        let mid = (lo + hi) / 2;
        if shard_format::record_hash(lookup, mid) < hash {
            lower_bound_splits(lookup, hash, mid + 1, hi);
        } else {
            lower_bound_splits(lookup, hash, lo, mid);
        }
    }
}

// ---- header ----

pub(crate) open spec fn oid_bytes(m: ShardModel) -> Seq<u8> {
    match m.commit_oid {
        Some(oid) => utf8::encode_utf8(oid),
        None => Seq::empty(),
    }
}

#[verifier::rlimit(60)]
proof fn lemma_header_fields(
    m: ShardModel,
    grams: nat,
    files_len: nat,
    lookup_len: nat,
    postings_len: nat,
    rest: Seq<u8>,
)
    requires
        m.files.len() <= u32::MAX,
        grams <= u64::MAX,
        192 + files_len + lookup_len + postings_len <= u64::MAX,
    ensures
        ({
            let b = shard_format::header(m, grams, files_len, lookup_len, postings_len) + rest;
            &&& b.len() == 192 + rest.len()
            &&& b.take(8) == shard_format::magic()
            &&& bytes::le_at(b, 8, 4) == VERSION
            &&& b.subrange(16, 56) == bytes::padded(oid_bytes(m), 40)
            &&& b.subrange(56, 120) == bytes::padded(utf8::encode_utf8(m.extractor_id), 64)
            &&& bytes::le_at(b, 120, 4) == m.files.len()
            &&& bytes::le_at(b, 124, 8) == grams
            &&& bytes::le_at(b, 132, 8) == 192
            &&& bytes::le_at(b, 140, 8) == files_len
            &&& bytes::le_at(b, 148, 8) == 192 + files_len
            &&& bytes::le_at(b, 156, 8) == lookup_len
            &&& bytes::le_at(b, 164, 8) == 192 + files_len + lookup_len
            &&& bytes::le_at(b, 172, 8) == postings_len
        }),
{
    let b = shard_format::header(m, grams, files_len, lookup_len, postings_len) + rest;
    bytes::lemma_byte_ranges();
    bytes::le_round_trip(VERSION as nat, 4);
    bytes::le_round_trip(m.files.len(), 4);
    bytes::le_round_trip(grams, 8);
    bytes::le_round_trip(192, 8);
    bytes::le_round_trip(files_len, 8);
    bytes::le_round_trip(192 + files_len, 8);
    bytes::le_round_trip(lookup_len, 8);
    bytes::le_round_trip(192 + files_len + lookup_len, 8);
    bytes::le_round_trip(postings_len, 8);
    assert(b.take(8) =~= shard_format::magic());
    assert(b.subrange(8, 12) =~= bytes::le(VERSION as nat, 4));
    assert(b.subrange(16, 56) =~= bytes::padded(oid_bytes(m), 40));
    assert(b.subrange(56, 120) =~= bytes::padded(utf8::encode_utf8(m.extractor_id), 64));
    assert(b.subrange(120, 124) =~= bytes::le(m.files.len(), 4));
    assert(b.subrange(124, 132) =~= bytes::le(grams, 8));
    assert(b.subrange(132, 140) =~= bytes::le(192, 8));
    assert(b.subrange(140, 148) =~= bytes::le(files_len, 8));
    assert(b.subrange(148, 156) =~= bytes::le(192 + files_len, 8));
    assert(b.subrange(156, 164) =~= bytes::le(lookup_len, 8));
    assert(b.subrange(164, 172) =~= bytes::le(192 + files_len + lookup_len, 8));
    assert(b.subrange(172, 180) =~= bytes::le(postings_len, 8));
}

// ---- the whole ----

proof fn lemma_records(m: ShardModel, i: int)
    requires
        m.valid(),
        shard_format::runs(
            shard_format::ascending_keys(m.postings.dom()),
            m.postings,
        ).len() <= u64::MAX,
        0 <= i < shard_format::ascending_keys(m.postings.dom()).len(),
    ensures
        ({
            let keys = shard_format::ascending_keys(m.postings.dom());
            let lookup = shard_format::records(keys, m.postings, 0);
            let ids = m.postings[keys[i]];
            let run = shard_format::id_run(ids, 0);
            &&& m.postings.contains_key(keys[i])
            &&& shard_format::record_hash(lookup, i) == keys[i]
            &&& shard_format::record_start(lookup, i) == run_start(keys, m.postings, i)
            &&& shard_format::record_len(lookup, i) == run.len()
            &&& run_start(keys, m.postings, i) + run.len() == run_start(keys, m.postings, i + 1)
            &&& run_start(keys, m.postings, i + 1) <= shard_format::runs(keys, m.postings).len()
            &&& shard_format::slice(
                shard_format::runs(keys, m.postings),
                run_start(keys, m.postings, i),
                run.len(),
            ) == run
            &&& shard_format::decode_run(run, 0, 0) == ids
        }),
{
    let keys = shard_format::ascending_keys(m.postings.dom());
    keys_ascend(m.postings.dom());
    assert(keys.to_set().contains(keys[i]));
    let ids = m.postings[keys[i]];
    let run = shard_format::id_run(ids, 0);
    run_length(ids);
    assert(ids[ids.len() - 1] < m.files.len());
    lemma_run_at(keys, m.postings, i);
    lemma_record_fields(keys, m.postings, i);
    let upto = keys.take(i + 1);
    lemma_runs_split(upto, m.postings, i);
    assert(upto.take(i) =~= keys.take(i));
    let last = upto.skip(i);
    assert(last.len() == 1 && last[0] == keys[i]);
    assert(last.drop_first() =~= Seq::<u64>::empty());
    assert(shard_format::runs(last.drop_first(), m.postings) =~= Seq::<u8>::empty());
    lemma_run_reads_back(Seq::empty(), ids, 0);
    assert(Seq::<u8>::empty() + run =~= run);
}

proof fn lemma_lookup_reads_back(m: ShardModel, view: ShardView, hash: u64)
    requires
        m.valid(),
        shard_format::runs(
            shard_format::ascending_keys(m.postings.dom()),
            m.postings,
        ).len() <= u64::MAX,
        ({
            let keys = shard_format::ascending_keys(m.postings.dom());
            &&& view.gram_count == keys.len()
            &&& view.lookup == shard_format::records(keys, m.postings, 0)
            &&& view.postings == shard_format::runs(keys, m.postings)
        }),
    ensures
        view.lookup_ids(hash) == shard_format::posted(m.postings, hash),
{
    let keys = shard_format::ascending_keys(m.postings.dom());
    let n = keys.len() as int;
    let lookup = view.lookup;
    keys_ascend(m.postings.dom());
    assert forall|i: int| 0 <= i < n implies shard_format::record_hash(lookup, i) == keys[i] by {
        lemma_records(m, i);
    }
    lower_bound_splits(lookup, hash, 0, n);
    let r = shard_format::lower_bound(lookup, hash, 0, n);
    if r < n && shard_format::record_hash(lookup, r) == hash {
        lemma_records(m, r);
        assert(keys[r] == hash);
    } else if m.postings.contains_key(hash) {
        assert(keys.to_set().contains(hash));
        let k = choose|k: int| 0 <= k < keys.len() && keys[k] == hash;
        assert(shard_format::record_hash(lookup, k) == keys[k]);
        if k < r {
            assert(shard_format::record_hash(lookup, k) < hash);
        } else {
            assert(keys[r] <= keys[k]);
            assert(shard_format::record_hash(lookup, r) == keys[r]);
        }
    }
}

proof fn lemma_slices(head: Seq<u8>, files: Seq<u8>, lookup: Seq<u8>, postings: Seq<u8>)
    requires
        head.len() == 192,
    ensures
        ({
            let b = head + files + lookup + postings;
            &&& b == head + (files + lookup + postings)
            &&& shard_format::slice(b, 192, files.len()) == files
            &&& shard_format::slice(b, 192 + files.len(), lookup.len()) == lookup
            &&& shard_format::slice(b, 192 + files.len() + lookup.len(), postings.len())
                == postings
        }),
{
    let b = head + files + lookup + postings;
    assert(b =~= head + (files + lookup + postings));
    assert(shard_format::slice(b, 192, files.len()) =~= files);
    assert(shard_format::slice(b, 192 + files.len(), lookup.len()) =~= lookup);
    assert(shard_format::slice(b, 192 + files.len() + lookup.len(), postings.len()) =~= postings);
}

proof fn lemma_fields_read_back(m: ShardModel, b: Seq<u8>)
    requires
        fits_field(m.extractor_id, 64),
        m.commit_oid matches Some(oid) ==> oid.len() > 0 && fits_field(oid, 40),
        b.subrange(16, 56) == bytes::padded(oid_bytes(m), 40),
        b.subrange(56, 120) == bytes::padded(utf8::encode_utf8(m.extractor_id), 64),
    ensures
        ({
            let oid = bytes::until_zero(b.subrange(16, 56));
            let extractor = bytes::until_zero(b.subrange(56, 120));
            &&& utf8::valid_utf8(oid)
            &&& utf8::valid_utf8(extractor)
            &&& utf8::decode_utf8(extractor) == m.extractor_id
            &&& m.commit_oid == (if oid.len() == 0 {
                None
            } else {
                Some(utf8::decode_utf8(oid))
            })
        }),
{
    bytes::padded_round_trip(oid_bytes(m), 40);
    bytes::padded_round_trip(utf8::encode_utf8(m.extractor_id), 64);
    utf8::encode_utf8_valid_utf8(m.extractor_id);
    utf8::encode_utf8_decode_utf8(m.extractor_id);
    match m.commit_oid {
        Some(oid) => {
            utf8::encode_utf8_valid_utf8(oid);
            utf8::encode_utf8_decode_utf8(oid);
        },
        None => {
            utf8::encode_utf8_valid_utf8(Seq::empty());
            assert(utf8::encode_utf8(Seq::empty()) =~= Seq::<u8>::empty());
        },
    }
}

/// Reading gives back what was written: the bytes of a shard open again, with
/// the same paths, extractor id and commit, one lookup record per hash, and
/// every hash finds exactly the ids that were listed under it.
pub proof fn shard_round_trip(m: ShardModel)
    requires
        storable(m),
    ensures
        ({
            let read = shard_format::read_shard(shard_format::shard_bytes(m));
            &&& read is Ok
            &&& read->Ok_0.files == m.files
            &&& read->Ok_0.extractor_id == m.extractor_id
            &&& read->Ok_0.commit_oid == m.commit_oid
            &&& read->Ok_0.gram_count == m.postings.dom().len()
            &&& forall|h: u64|
                read->Ok_0.lookup_ids(h) == #[trigger] shard_format::posted(m.postings, h)
        }),
{
    let keys = shard_format::ascending_keys(m.postings.dom());
    let files = shard_format::files_section(m.files);
    let lookup = shard_format::records(keys, m.postings, 0);
    let postings = shard_format::runs(keys, m.postings);
    keys_ascend(m.postings.dom());
    lemma_records_len(keys, m.postings, 0);
    let b = shard_format::shard_bytes(m);
    lemma_written(m, keys, files, lookup, postings);
    lemma_fields_read_back(m, b);
    lemma_table_reads_back(Seq::empty(), m.files);
    assert(Seq::<u8>::empty() + files =~= files);
    postings_read_back(m);
}

/// Whatever became of paths and ids, the postings read back: wherever the
/// bytes of a shard open at all, every hash finds exactly the ids that were
/// listed under it.
pub proof fn postings_read_back(m: ShardModel)
    requires
        writable(m),
        shard_format::read_shard(shard_format::shard_bytes(m)) is Ok,
    ensures
        ({
            let view = shard_format::read_shard(shard_format::shard_bytes(m))->Ok_0;
            &&& view.files.len() == m.files.len()
            &&& view.gram_count == m.postings.dom().len()
            &&& forall|h: u64| view.lookup_ids(h) == #[trigger] shard_format::posted(m.postings, h)
        }),
{
    let keys = shard_format::ascending_keys(m.postings.dom());
    let files = shard_format::files_section(m.files);
    let lookup = shard_format::records(keys, m.postings, 0);
    let postings = shard_format::runs(keys, m.postings);
    keys_ascend(m.postings.dom());
    lemma_records_len(keys, m.postings, 0);
    lemma_written(m, keys, files, lookup, postings);
    shard::lemma_table_len(files, 0, m.files.len());
    let view = shard_format::read_shard(shard_format::shard_bytes(m))->Ok_0;
    assert forall|h: u64| view.lookup_ids(h) == #[trigger] shard_format::posted(m.postings, h) by {
        lemma_lookup_reads_back(m, view, h);
    }
}

/// Whether the lookup records `lookup`, one for each of `grams` hashes, and
/// the posting runs `postings` fit together: the hashes ascend, the runs lie
/// back to back and fill their section, and each decodes to ascending ids,
/// at least one, below `files`.
pub open spec fn laid_out(lookup: Seq<u8>, postings: Seq<u8>, grams: nat, files: nat) -> bool {
    &&& lookup.len() == 20 * grams
    &&& forall|i: int, j: int|
        0 <= i < j < grams ==> #[trigger] shard_format::record_hash(lookup, i)
            < #[trigger] shard_format::record_hash(lookup, j)
    &&& grams == 0 ==> postings.len() == 0
    &&& grams > 0 ==> shard_format::record_start(lookup, 0) == 0
    &&& forall|i: int|
        0 <= i < grams ==> #[trigger] shard_format::record_start(lookup, i)
            + shard_format::record_len(lookup, i) == (if i + 1 < grams {
            shard_format::record_start(lookup, i + 1)
        } else {
            postings.len()
        })
    &&& forall|i: int| 0 <= i < grams ==> #[trigger] run_is_sound(lookup, postings, i, files)
}

/// Whether the run of record `i` decodes to ascending ids, at least one, below
/// `files`.
pub open spec fn run_is_sound(lookup: Seq<u8>, postings: Seq<u8>, i: int, files: nat) -> bool {
    let start = shard_format::record_start(lookup, i);
    let len = shard_format::record_len(lookup, i);
    let ids = shard_format::decode_run(shard_format::slice(postings, start, len), 0, 0);
    &&& start + len <= postings.len()
    &&& ids.len() > 0
    &&& shard_format::ascending_ids(ids)
    &&& forall|k: int| 0 <= k < ids.len() ==> #[trigger] ids[k] < files
}

/// The layout of a shard: the header tells where the lookup records and the
/// posting runs are, and these fit together.
pub proof fn shard_layout(m: ShardModel)
    requires
        writable(m),
    ensures
        ({
            let b = shard_format::shard_bytes(m);
            let grams = bytes::le_at(b, 124, 8);
            let lookup = shard_format::slice(
                b,
                bytes::le_at(b, 148, 8),
                bytes::le_at(b, 156, 8),
            );
            let postings = shard_format::slice(
                b,
                bytes::le_at(b, 164, 8),
                bytes::le_at(b, 172, 8),
            );
            &&& shard_format::sections_fit(b)
            &&& bytes::le_at(b, 120, 4) == m.files.len()
            &&& grams == m.postings.dom().len()
            &&& bytes::le_at(b, 164, 8) + bytes::le_at(b, 172, 8) == b.len()
            &&& laid_out(lookup, postings, grams, m.files.len())
        }),
{
    let keys = shard_format::ascending_keys(m.postings.dom());
    let files = shard_format::files_section(m.files);
    let lookup = shard_format::records(keys, m.postings, 0);
    let postings = shard_format::runs(keys, m.postings);
    let n = keys.len() as int;
    keys_ascend(m.postings.dom());
    lemma_records_len(keys, m.postings, 0);
    lemma_written(m, keys, files, lookup, postings);
    assert forall|i: int| 0 <= i < n implies #[trigger] shard_format::record_hash(lookup, i)
        == keys[i] by {
        lemma_records(m, i);
    }
    assert(keys.take(0) =~= Seq::<u64>::empty());
    assert(keys.take(n) =~= keys);
    assert(run_start(keys, m.postings, 0) == 0);
    assert(run_start(keys, m.postings, n) == postings.len());
    if n > 0 {
        lemma_records(m, 0);
    }
    assert forall|i: int| 0 <= i < n implies #[trigger] shard_format::record_start(lookup, i)
        + shard_format::record_len(lookup, i) == (if i + 1 < n {
        shard_format::record_start(lookup, i + 1)
    } else {
        postings.len()
    }) by {
        lemma_records(m, i);
        if i + 1 < n {
            lemma_records(m, i + 1);
        }
    }
    assert forall|i: int| 0 <= i < n implies #[trigger] run_is_sound(
        lookup,
        postings,
        i,
        m.files.len(),
    ) by {
        lemma_records(m, i);
    }
}

pub(crate) proof fn lemma_written(
    m: ShardModel,
    keys: Seq<u64>,
    files: Seq<u8>,
    lookup: Seq<u8>,
    postings: Seq<u8>,
)
    requires
        writable(m),
        keys == shard_format::ascending_keys(m.postings.dom()),
        files == shard_format::files_section(m.files),
        lookup == shard_format::records(keys, m.postings, 0),
        lookup.len() == 20 * keys.len(),
        postings == shard_format::runs(keys, m.postings),
    ensures
        ({
            let b = shard_format::shard_bytes(m);
            &&& b.len() == 192 + files.len() + lookup.len() + postings.len()
            &&& b.len() <= u64::MAX
            &&& b.take(8) == shard_format::magic()
            &&& bytes::le_at(b, 8, 4) == VERSION
            &&& b.subrange(16, 56) == bytes::padded(oid_bytes(m), 40)
            &&& b.subrange(56, 120) == bytes::padded(utf8::encode_utf8(m.extractor_id), 64)
            &&& bytes::le_at(b, 120, 4) == m.files.len()
            &&& bytes::le_at(b, 124, 8) == keys.len()
            &&& bytes::le_at(b, 132, 8) == 192
            &&& bytes::le_at(b, 140, 8) == files.len()
            &&& bytes::le_at(b, 148, 8) == 192 + files.len()
            &&& bytes::le_at(b, 156, 8) == lookup.len()
            &&& bytes::le_at(b, 164, 8) == 192 + files.len() + lookup.len()
            &&& bytes::le_at(b, 172, 8) == postings.len()
            &&& shard_format::slice(b, 192, files.len()) == files
            &&& shard_format::slice(b, 192 + files.len(), lookup.len()) == lookup
            &&& shard_format::slice(b, 192 + files.len() + lookup.len(), postings.len())
                == postings
        }),
{
    let head = shard_format::header(m, keys.len(), files.len(), lookup.len(), postings.len());
    shard_builder::lemma_header_len(m, keys.len(), files.len(), lookup.len(), postings.len());
    lemma_slices(head, files, lookup, postings);
    lemma_header_fields(
        m,
        keys.len(),
        files.len(),
        lookup.len(),
        postings.len(),
        files + lookup + postings,
    );
}

} // verus!
