//! What the bytes of a shard are, place by place, and how integers and padded
//! fields stand in them.
use vstd::prelude::*;
use vstd::utf8;

use crate::bytes;
use crate::shard::ShardError;
use crate::shard;
use crate::shard_format;
use crate::shard_format::{Fault, ShardModel, ShardView};
use crate::shard_laws;
use crate::text_laws;
use crate::varint;

verus! {

// ---- integers ----

/// Byte `i` of a little-endian integer counts its multiples of that power of
/// two hundred and fifty-six.
pub proof fn little_endian_bytes(v: nat, n: nat, i: nat)
    requires
        i < n,
    ensures
        bytes::le(v, n).len() == n,
        bytes::le(v, n)[i as int] as int == (v as int / text_laws::power(256, i) as int) % 256,
    decreases n,
{
    bytes::lemma_le_len(v, n);
    if i == 0 {
        assert(v as int / 1 == v);
    } else {
        let j = (i - 1) as nat;
        little_endian_bytes(v / 256, (n - 1) as nat, j);
        bytes::lemma_le_len(v / 256, (n - 1) as nat);
        lemma_power_positive(j);
        vstd::arithmetic::div_mod::lemma_div_denominator(
            v as int,
            256,
            text_laws::power(256, j) as int,
        );
    }
}

proof fn lemma_power_positive(k: nat)
    ensures
        text_laws::power(256, k) > 0,
    decreases k,
{
    if k > 0 {
        lemma_power_positive((k - 1) as nat);
    }
}

/// Four bytes read as an integer: the first counts ones.
pub proof fn four_bytes_count(b: Seq<u8>, off: int)
    requires
        0 <= off,
        off + 4 <= b.len(),
    ensures
        bytes::le_at(b, off, 4) == b[off] + 256 * b[off + 1] + 65536 * b[off + 2] + 16777216 * b[off
            + 3],
{
    let s = b.subrange(off, off + 4);
    reveal_with_fuel(bytes::from_le, 5);
    assert(s.drop_first().drop_first().drop_first().drop_first().len() == 0);
}

/// Eight bytes read as an integer: four low ones and four high ones.
pub proof fn eight_bytes_count(b: Seq<u8>, off: int)
    requires
        0 <= off,
        off + 8 <= b.len(),
    ensures
        bytes::le_at(b, off, 8) == bytes::le_at(b, off, 4) + 4294967296 * bytes::le_at(
            b,
            off + 4,
            4,
        ),
{
    let s = b.subrange(off, off + 8);
    reveal_with_fuel(bytes::from_le, 5);
    let t = s.drop_first().drop_first().drop_first().drop_first();
    assert(t =~= b.subrange(off + 4, off + 8));
    let low = b.subrange(off, off + 4);
    assert(low.drop_first().drop_first().drop_first().drop_first().len() == 0);
    assert(low[0] == s[0] && low[1] == s[1] && low[2] == s[2] && low[3] == s[3]);
}

/// What the low seven bits of the bytes count together, the first byte counting
/// ones.
pub open spec fn groups_value(s: Seq<u8>) -> nat
    decreases s.len(),
{
    if s.len() == 0 {
        0
    } else {
        (s[0] as nat) % 128 + 128 * groups_value(s.drop_first())
    }
}

/// A varint has its high bit set in every byte but the last, no needless zero
/// group, and its groups count the value.
pub proof fn varint_groups_count_the_value(v: nat)
    ensures
        varint::varint(v).len() > 0,
        varint::varint(v).last() < 128,
        forall|i: int|
            0 <= i < varint::varint(v).len() - 1 ==> #[trigger] varint::varint(v)[i] >= 128,
        varint::varint(v).last() == 0 ==> v == 0,
        groups_value(varint::varint(v)) == v,
    decreases v,
{
    let s = varint::varint(v);
    if v < 128 {
        assert(s.drop_first().len() == 0);
        assert(groups_value(s.drop_first()) == 0);
    } else {
        varint_groups_count_the_value(v / 128);
        let t = varint::varint(v / 128);
        assert(s.drop_first() =~= t);
        assert(s.last() == t.last());
        assert forall|i: int| 0 <= i < s.len() - 1 implies #[trigger] s[i] >= 128 by {
            if i > 0 {
                assert(s[i] == t[i - 1]);
            }
        }
    }
}

/// Reading a varint takes the bytes up to the first without its high bit, at
/// most five, and counts their groups; where the buffer or the five bytes end
/// before that, there is none.
pub proof fn varints_end_at_the_first_low_byte(buf: Seq<u8>, pos: int, n: int)
    requires
        0 <= pos,
        0 <= n,
        pos + n <= buf.len(),
        forall|i: int| pos <= i < pos + n ==> #[trigger] buf[i] >= 128,
    ensures
        n <= 4 && pos + n < buf.len() && buf[pos + n] < 128 ==> varint::varint_from(buf, pos, 0)
            == (Some(groups_value(buf.subrange(pos, pos + n + 1))), pos + n + 1),
        n <= 4 && pos + n == buf.len() ==> varint::varint_from(buf, pos, 0) == (
            None::<nat>,
            pos + n,
        ),
        n >= 5 ==> varint::varint_from(buf, pos, 0) == (None::<nat>, pos + 5),
{
    lemma_varint_ends(buf, pos, n, 0);
}

proof fn lemma_varint_ends(buf: Seq<u8>, pos: int, n: int, k: nat)
    requires
        0 <= pos,
        0 <= n,
        k <= 4,
        pos + n <= buf.len(),
        forall|i: int| pos <= i < pos + n ==> #[trigger] buf[i] >= 128,
    ensures
        n + k <= 4 && pos + n < buf.len() && buf[pos + n] < 128 ==> varint::varint_from(buf, pos, k)
            == (Some(groups_value(buf.subrange(pos, pos + n + 1))), pos + n + 1),
        n + k <= 4 && pos + n == buf.len() ==> varint::varint_from(buf, pos, k) == (
            None::<nat>,
            pos + n,
        ),
        n + k >= 5 ==> varint::varint_from(buf, pos, k) == (None::<nat>, pos + (5 - k)),
    decreases n,
{
    if n == 0 {
        if pos < buf.len() {
            let s = buf.subrange(pos, pos + 1);
            assert(s.drop_first().len() == 0);
            assert(groups_value(s.drop_first()) == 0);
        }
    } else {
        assert(buf[pos] >= 128);
        if k < 4 {
            lemma_varint_ends(buf, pos + 1, n - 1, k + 1);
            if n + k <= 4 && pos + n < buf.len() {
                let s = buf.subrange(pos, pos + n + 1);
                assert(s.drop_first() =~= buf.subrange(pos + 1, pos + n + 1));
                assert(s[0] == buf[pos]);
            }
        }
    }
}

// ---- fields ----

/// A padded field has exactly its length: the bytes that fit, and zeros behind
/// them.
pub proof fn padding_is_zeros(b: Seq<u8>, n: nat, i: int)
    requires
        0 <= i < n,
    ensures
        bytes::padded(b, n).len() == n,
        bytes::padded(b, n)[i] == (if i < b.len() {
            b[i]
        } else {
            0u8
        }),
{
}

/// What is read of a field stands before its first zero byte, or is all of it.
pub proof fn fields_end_at_the_first_zero(s: Seq<u8>)
    ensures
        bytes::until_zero(s).len() <= s.len(),
        bytes::until_zero(s) == s.take(bytes::until_zero(s).len() as int),
        forall|i: int| 0 <= i < bytes::until_zero(s).len() ==> #[trigger] s[i] != 0,
        bytes::until_zero(s).len() < s.len() ==> s[bytes::until_zero(s).len() as int] == 0,
    decreases s.len(),
{
    let t = bytes::until_zero(s);
    if s.len() > 0 && s[0] != 0 {
        let rest = s.drop_first();
        fields_end_at_the_first_zero(rest);
        let u = bytes::until_zero(rest);
        assert(t =~= s.take(t.len() as int)) by {
            assert forall|i: int| 0 <= i < t.len() implies t[i] == s[i] by {
                if i > 0 {
                    assert(t[i] == u[i - 1]);
                    assert(u[i - 1] == rest.take(u.len() as int)[i - 1]);
                }
            }
        }
        assert forall|i: int| 0 <= i < t.len() implies #[trigger] s[i] != 0 by {
            if i > 0 {
                assert(rest[i - 1] == s[i]);
            }
        }
    } else {
        assert(t =~= s.take(0));
    }
}

// ---- the sections ----

/// The path table holds for each path its length in bytes and its bytes, one
/// path after the other.
pub proof fn path_table_lists_the_paths(a: Seq<Seq<char>>, b: Seq<Seq<char>>, one: Seq<char>)
    ensures
        shard_format::files_section(a + b) == shard_format::files_section(a)
            + shard_format::files_section(b),
        shard_format::files_section(Seq::<Seq<char>>::empty()).len() == 0,
        utf8::encode_utf8(one).len() <= u32::MAX ==> shard_format::files_section(seq![one])
            == bytes::le(utf8::encode_utf8(one).len(), 4) + utf8::encode_utf8(one),
    decreases a.len(),
{
    let none = Seq::<Seq<char>>::empty();
    assert(shard_format::files_section(none) =~= Seq::<u8>::empty());
    assert(seq![one].drop_first() =~= none);
    assert(shard_format::files_section(seq![one]) =~= shard_format::file_entry(one));
    if a.len() == 0 {
        assert(a + b =~= b);
        assert(shard_format::files_section(a) + shard_format::files_section(b)
            =~= shard_format::files_section(b));
    } else {
        path_table_lists_the_paths(a.drop_first(), b, one);
        assert((a + b).drop_first() =~= a.drop_first() + b);
        assert((a + b)[0] == a[0]);
        assert(shard_format::files_section(a + b) =~= shard_format::files_section(a)
            + shard_format::files_section(b));
    }
}

/// A posting run writes the differences between neighbouring ids.
pub proof fn runs_write_differences(ids: Seq<u32>, more: Seq<u32>, prev: u32, id: u32)
    ensures
        prev <= id ==> shard_format::id_run(seq![id], prev) == varint::varint((id - prev) as nat),
        ids.len() > 0 ==> shard_format::id_run(ids + more, prev) == shard_format::id_run(ids, prev)
            + shard_format::id_run(more, ids.last()),
    decreases ids.len(),
{
    assert(seq![id].drop_first() =~= Seq::<u32>::empty());
    assert(shard_format::id_run(Seq::<u32>::empty(), id) =~= Seq::<u8>::empty());
    assert(shard_format::id_run(seq![id], prev) =~= varint::varint((id - prev) as nat));
    if ids.len() > 0 {
        let rest = ids.drop_first();
        let all = ids + more;
        assert(all.drop_first() =~= rest + more);
        assert(all[0] == ids[0]);
        if rest.len() > 0 {
            runs_write_differences(rest, more, ids[0], id);
            assert(rest.last() == ids.last());
        } else {
            assert(rest + more =~= more);
            assert(shard_format::id_run(rest, ids[0]) =~= Seq::<u8>::empty());
        }
        assert(shard_format::id_run(all, prev) =~= shard_format::id_run(ids, prev)
            + shard_format::id_run(more, ids.last()));
    }
}

/// A posting run is read by adding each difference to the id before it, modulo
/// the thirty-two bits of an id.
pub proof fn runs_are_read_by_adding(before: Seq<u8>, d: u32, after: Seq<u8>, prev: u32)
    ensures
        ({
            let run = before + varint::varint(d as nat) + after;
            let pos = before.len() as int;
            let id = ((prev + d) % 0x1_0000_0000) as u32;
            shard_format::decode_run(run, pos, prev) == seq![id] + shard_format::decode_run(
                run,
                pos + varint::varint(d as nat).len(),
                id,
            )
        }),
        shard_format::decode_run(before, before.len() as int, prev).len() == 0,
        varint::varint_from(before, 0, 0).0 is None ==> shard_format::decode_run(
            before,
            0,
            prev,
        ).len() == 0,
{
    varint::varint_round_trip(d, before, after);
    varint::varint_length(d);
}

/// The bytes of a written shard, place by place: the magic, the version, the
/// padded fields, the counts, and the three sections one after the other behind
/// the header.
pub proof fn shards_are_laid_out(m: ShardModel, i: int)
    requires
        shard_laws::writable(m),
    ensures
        ({
            let b = shard_format::shard_bytes(m);
            let oid = match m.commit_oid {
                Some(oid) => utf8::encode_utf8(oid),
                None => Seq::empty(),
            };
            let extractor = utf8::encode_utf8(m.extractor_id);
            let files = shard_format::files_section(m.files);
            let grams = m.postings.dom().len();
            &&& b.take(8) == seq![71u8, 80u8, 88u8, 83u8, 72u8, 65u8, 82u8, 68u8]
            &&& bytes::le_at(b, 8, 4) == 1
            &&& 0 <= i < 4 ==> b[12 + i] == 0
            &&& 0 <= i < 40 ==> b[16 + i] == (if i < oid.len() {
                oid[i]
            } else {
                0u8
            })
            &&& 0 <= i < 64 ==> b[56 + i] == (if i < extractor.len() {
                extractor[i]
            } else {
                0u8
            })
            &&& bytes::le_at(b, 120, 4) == m.files.len()
            &&& bytes::le_at(b, 124, 8) == grams
            &&& bytes::le_at(b, 132, 8) == 192
            &&& bytes::le_at(b, 140, 8) == files.len()
            &&& bytes::le_at(b, 148, 8) == 192 + files.len()
            &&& bytes::le_at(b, 156, 8) == 20 * grams
            &&& bytes::le_at(b, 164, 8) == 192 + files.len() + 20 * grams
            &&& bytes::le_at(b, 172, 8) == b.len() - 192 - files.len() - 20 * grams
            &&& 0 <= i < 12 ==> b[180 + i] == 0
            &&& b.subrange(192, 192 + files.len() as int) == files
        }),
{
    let b = shard_format::shard_bytes(m);
    let keys = shard_format::ascending_keys(m.postings.dom());
    let files = shard_format::files_section(m.files);
    let lookup = shard_format::records(keys, m.postings, 0);
    let postings = shard_format::runs(keys, m.postings);
    let extractor = utf8::encode_utf8(m.extractor_id);
    shard_laws::keys_ascend(m.postings.dom());
    shard_laws::lemma_records_len(keys, m.postings, 0);
    shard_laws::lemma_written(m, keys, files, lookup, postings);
    let head = shard_format::header(m, keys.len(), files.len(), lookup.len(), postings.len());
    crate::shard_builder::lemma_header_len(m, keys.len(), files.len(), lookup.len(), postings.len());
    assert(b.take(192) =~= head);
    bytes::lemma_le_len(1, 4);
    bytes::lemma_le_len(m.files.len(), 4);
    bytes::lemma_le_len(keys.len(), 8);
    bytes::lemma_le_len(192, 8);
    bytes::lemma_le_len(files.len(), 8);
    bytes::lemma_le_len(192 + files.len(), 8);
    bytes::lemma_le_len(lookup.len(), 8);
    bytes::lemma_le_len(192 + files.len() + lookup.len(), 8);
    bytes::lemma_le_len(postings.len(), 8);
    if 0 <= i < 4 {
        assert(head[12 + i] == 0);
    }
    if 0 <= i < 12 {
        assert(head[180 + i] == 0);
    }
    if 0 <= i < 40 {
        assert(b.subrange(16, 56)[i] == b[16 + i]);
    }
    if 0 <= i < 64 {
        assert(b.subrange(56, 120)[i] == b[56 + i]);
    }
    assert(shard_format::slice(b, 192, files.len()) == files);
}

// ---- reading ----

/// Whether the first eight bytes are those of a shard.
pub open spec fn begins_as_shard(b: Seq<u8>) -> bool {
    b[0] == 71 && b[1] == 80 && b[2] == 88 && b[3] == 83 && b[4] == 72 && b[5] == 65 && b[6] == 82
        && b[7] == 68
}

/// Each fault of a header is reported, the first one in the order of length,
/// magic, version, commit, extractor and sections; and what has none of them is
/// refused for its path table at most.
pub proof fn faults_are_reported_in_order(b: Seq<u8>)
    ensures
        ({
            let r = shard_format::read_shard(b);
            let oid = bytes::until_zero(b.subrange(16, 56));
            let extractor = bytes::until_zero(b.subrange(56, 120));
            let long = b.len() >= 192;
            let named = long && begins_as_shard(b);
            let current = named && bytes::le_at(b, 8, 4) == 1;
            let pinned = current && utf8::valid_utf8(oid);
            let made = pinned && utf8::valid_utf8(extractor);
            let fits = made && {
                &&& bytes::le_at(b, 132, 8) + bytes::le_at(b, 140, 8) <= b.len()
                &&& bytes::le_at(b, 148, 8) + bytes::le_at(b, 156, 8) <= b.len()
                &&& bytes::le_at(b, 164, 8) + bytes::le_at(b, 172, 8) <= b.len()
                &&& bytes::le_at(b, 156, 8) == 20 * bytes::le_at(b, 124, 8)
            };
            &&& !long ==> r == Err::<ShardView, Fault>(Fault::Short)
            &&& long && !named ==> r == Err::<ShardView, Fault>(Fault::Magic)
            &&& named && !current ==> r == Err::<ShardView, Fault>(
                Fault::Version(bytes::le_at(b, 8, 4) as u32),
            )
            &&& current && !pinned ==> r == Err::<ShardView, Fault>(Fault::Oid)
            &&& pinned && !made ==> r == Err::<ShardView, Fault>(Fault::Extractor)
            &&& made && !fits ==> r == Err::<ShardView, Fault>(Fault::Bounds)
            &&& fits ==> (r matches Err(f) ==> f is Table || f is Path || f is PathText)
            &&& r matches Ok(view) ==> {
                &&& fits
                &&& view.files.len() == bytes::le_at(b, 120, 4)
                &&& view.gram_count == bytes::le_at(b, 124, 8)
                &&& view.extractor_id == utf8::decode_utf8(extractor)
                &&& view.commit_oid is None <==> oid.len() == 0
                &&& view.commit_oid matches Some(o) ==> o == utf8::decode_utf8(oid)
                &&& view.lookup == b.subrange(
                    bytes::le_at(b, 148, 8) as int,
                    (bytes::le_at(b, 148, 8) + bytes::le_at(b, 156, 8)) as int,
                )
                &&& view.postings == b.subrange(
                    bytes::le_at(b, 164, 8) as int,
                    (bytes::le_at(b, 164, 8) + bytes::le_at(b, 172, 8)) as int,
                )
            }
        }),
{
    if b.len() >= 192 {
        let magic = shard_format::magic();
        let head = b.take(8);
        if begins_as_shard(b) {
            assert(head =~= magic);
        } else {
            assert(head != magic) by {
                assert(head[0] == b[0] && head[1] == b[1] && head[2] == b[2] && head[3] == b[3]
                    && head[4] == b[4] && head[5] == b[5] && head[6] == b[6] && head[7] == b[7]);
                assert(magic[0] == 71 && magic[1] == 80 && magic[2] == 88 && magic[3] == 83
                    && magic[4] == 72 && magic[5] == 65 && magic[6] == 82 && magic[7] == 68);
            }
        }
        let table = shard_format::slice(b, bytes::le_at(b, 132, 8), bytes::le_at(b, 140, 8));
        lemma_table_len(table, 0, bytes::le_at(b, 120, 4));
    }
}

proof fn lemma_table_len(table: Seq<u8>, pos: int, n: nat)
    ensures
        shard_format::file_table(table, pos, n) matches Ok(files) ==> files.len() == n,
        shard_format::file_table(table, pos, n) matches Err(f) ==> f is Table || f is Path
            || f is PathText,
    decreases n,
{
    if n > 0 && pos + 4 <= table.len() {
        let end = pos + 4 + bytes::le_at(table, pos, 4);
        lemma_table_len(table, end, (n - 1) as nat);
    }
}

/// A path table is read path by path: a length of four bytes, as many bytes of
/// text, and then the rest of the table. A table that ends before a length or
/// within a path, and bytes that are no text, are faults.
pub proof fn path_tables_are_read_in_order(table: Seq<u8>, pos: int, n: nat)
    requires
        0 <= pos <= table.len(),
        n > 0,
    ensures
        ({
            let r = shard_format::file_table(table, pos, n);
            let len = bytes::le_at(table, pos, 4) as int;
            let path = table.subrange(pos + 4, pos + 4 + len);
            let rest = shard_format::file_table(table, pos + 4 + len, (n - 1) as nat);
            let none = shard_format::file_table(table, pos, 0);
            let whole = pos + 4 <= table.len() && pos + 4 + len <= table.len();
            &&& none matches Ok(files) && files.len() == 0
            &&& pos + 4 > table.len() ==> (r matches Err(f) && f is Table)
            &&& pos + 4 <= table.len() && !whole ==> (r matches Err(f) && f is Path)
            &&& whole && !utf8::valid_utf8(path) ==> (r matches Err(f) && f is PathText)
            &&& whole && utf8::valid_utf8(path) ==> match rest {
                Ok(files) => r matches Ok(all) && all.len() == files.len() + 1 && all[0]
                    == utf8::decode_utf8(path) && all.skip(1) == files,
                Err(f) => r matches Err(g) && f == g,
            }
        }),
{
    let len = bytes::le_at(table, pos, 4) as int;
    let rest = shard_format::file_table(table, pos + 4 + len, (n - 1) as nat);
    if let Ok(files) = rest {
        let path = table.subrange(pos + 4, pos + 4 + len);
        assert((seq![utf8::decode_utf8(path)] + files).skip(1) =~= files);
    }
}

/// In a table of ascending hashes, the ids of a hash are those of its record:
/// the record stands at twenty times its number, with the hash, the start of
/// its run and the run's length. A hash without a record has no ids, nor has
/// one whose run reaches beyond the postings.
pub proof fn records_give_their_run(view: ShardView, hash: u64, i: int)
    requires
        forall|a: int, b: int|
            0 <= a < b < view.gram_count ==> #[trigger] bytes::le_at(view.lookup, 20 * a, 8)
                < #[trigger] bytes::le_at(view.lookup, 20 * b, 8),
    ensures
        0 <= i < view.gram_count && bytes::le_at(view.lookup, 20 * i, 8) == hash ==> {
            let start = bytes::le_at(view.lookup, 20 * i + 8, 8);
            let len = bytes::le_at(view.lookup, 20 * i + 16, 4);
            &&& start + len <= view.postings.len() ==> view.lookup_ids(hash)
                == shard_format::decode_run(
                view.postings.subrange(start as int, (start + len) as int),
                0,
                0,
            )
            &&& start + len > view.postings.len() ==> view.lookup_ids(hash).len() == 0
        },
        (forall|a: int|
            0 <= a < view.gram_count ==> #[trigger] bytes::le_at(view.lookup, 20 * a, 8) != hash)
            ==> view.lookup_ids(hash).len() == 0,
{
    let n = view.gram_count as int;
    assert forall|a: int, b: int| 0 <= a < b < n implies shard_format::record_hash(view.lookup, a)
        <= shard_format::record_hash(view.lookup, b) by {
        assert(bytes::le_at(view.lookup, 20 * a, 8) < bytes::le_at(view.lookup, 20 * b, 8));
    }
    shard_laws::lower_bound_splits(view.lookup, hash, 0, n);
    let r = shard_format::lower_bound(view.lookup, hash, 0, n);
    if 0 <= i < n && bytes::le_at(view.lookup, 20 * i, 8) == hash {
        assert(shard_format::record_hash(view.lookup, i) == hash);
        assert(r <= i);
        if r < i {
            assert(bytes::le_at(view.lookup, 20 * r, 8) < bytes::le_at(view.lookup, 20 * i, 8));
            assert(shard_format::record_hash(view.lookup, r) >= hash);
        }
    }
    if r < n && shard_format::record_hash(view.lookup, r) == hash {
        assert(bytes::le_at(view.lookup, 20 * r, 8) == hash);
    }
}

/// A new file is listed behind the others under each of its hashes, and under
/// no other hash.
pub proof fn new_files_are_listed_last(
    postings: Map<u64, Seq<u32>>,
    hashes: Seq<u64>,
    id: u32,
    h: u64,
)
    ensures
        ({
            let before = shard_format::posted(postings, h);
            let now = shard_format::posted(shard_format::with_file(postings, hashes, id), h);
            &&& hashes.contains(h) ==> now == before.push(id)
            &&& !hashes.contains(h) ==> now == before
        }),
        postings.contains_key(h) ==> shard_format::posted(postings, h) == postings[h],
        !postings.contains_key(h) ==> shard_format::posted(postings, h).len() == 0,
{
}

/// Each fault is reported by its own error.
pub proof fn errors_name_their_fault(e: ShardError, v: u32)
    ensures
        shard::reports(e, Fault::Version(v)) <==> e == (ShardError::VersionMismatch { found: v }),
        shard::reports(e, Fault::Short) ==> e.message_view() == "corrupt shard: "@
            + "file shorter than header"@,
        shard::reports(e, Fault::Magic) ==> e.message_view() == "corrupt shard: "@ + "bad magic"@,
        shard::reports(e, Fault::Oid) ==> e.message_view() == "corrupt shard: "@
            + "commit oid not utf8"@,
        shard::reports(e, Fault::Extractor) ==> e.message_view() == "corrupt shard: "@
            + "extractor id not utf8"@,
        shard::reports(e, Fault::Bounds) ==> e.message_view() == "corrupt shard: "@
            + "section bounds exceed file"@,
        shard::reports(e, Fault::Table) ==> e.message_view() == "corrupt shard: "@
            + "truncated file table"@,
        shard::reports(e, Fault::Path) ==> e.message_view() == "corrupt shard: "@
            + "truncated file path"@,
        shard::reports(e, Fault::PathText) ==> e.message_view() == "corrupt shard: "@
            + "path not utf8"@,
{
}

} // verus!
