//! The shard file format as mathematics: which bytes a set of files and
//! postings is written as, and what any byte string is read as.
//!
//! All integers are little-endian.
//!
//! ```text
//! header (192 bytes):
//!   magic "GPXSHARD"                       8
//!   version                                4
//!   reserved                               4
//!   commit oid, zero-padded               40
//!   extractor id, zero-padded             64
//!   file count                             4
//!   gram count                             8
//!   files offset, files length            16
//!   lookup offset, lookup length          16
//!   postings offset, postings length      16
//!   padding                               12
//! files:    per file its path's byte length (4) and the path
//! lookup:   per gram, ascending: hash (8), postings offset (8), length (4)
//! postings: per gram its file ids, ascending, as varint differences
//! ```
use vstd::prelude::*;
use vstd::utf8;

use crate::bytes;
use crate::varint;

verus! {

pub const VERSION: u32 = 1;

/// The first eight bytes of every shard: "GPXSHARD" in ASCII.
pub open spec fn magic() -> Seq<u8> {
    seq![71u8, 80u8, 88u8, 83u8, 72u8, 65u8, 82u8, 68u8]
}

/// What a shard is built from.
pub struct ShardModel {
    pub files: Seq<Seq<char>>,
    pub extractor_id: Seq<char>,
    pub commit_oid: Option<Seq<char>>,
    /// Per gram hash the ids of the files that hold the gram.
    pub postings: Map<u64, Seq<u32>>,
}

/// Whether `s` is strictly ascending.
pub open spec fn ascending(s: Seq<u64>) -> bool {
    forall|i: int, j: int| 0 <= i < j < s.len() ==> s[i] < s[j]
}

/// Whether the file ids `s` are strictly ascending.
pub open spec fn ascending_ids(s: Seq<u32>) -> bool {
    forall|i: int, j: int| 0 <= i < j < s.len() ==> s[i] < s[j]
}

/// The ids listed under `h`; none if the hash does not occur.
pub open spec fn posted(postings: Map<u64, Seq<u32>>, h: u64) -> Seq<u32> {
    if postings.contains_key(h) {
        postings[h]
    } else {
        Seq::empty()
    }
}

/// `postings` with file `id` listed once more under each of `hashes`.
pub open spec fn with_file(postings: Map<u64, Seq<u32>>, hashes: Seq<u64>, id: u32) -> Map<
    u64,
    Seq<u32>,
> {
    Map::new(
        |h: u64| postings.contains_key(h) || hashes.contains(h),
        |h: u64|
            if hashes.contains(h) {
                posted(postings, h).push(id)
            } else {
                postings[h]
            },
    )
}

impl ShardModel {
    /// Every listed gram has at least one file, its ids ascend, and each is
    /// the id of a registered file.
    pub open spec fn valid(self) -> bool {
        &&& self.files.len() <= u32::MAX
        &&& self.postings.dom().finite()
        &&& forall|h: u64| #[trigger]
            self.postings.contains_key(h) ==> {
                &&& self.postings[h].len() > 0
                &&& ascending_ids(self.postings[h])
                &&& forall|i: int|
                    0 <= i < self.postings[h].len() ==> #[trigger] self.postings[h][i]
                        < self.files.len()
            }
    }
}

/// The members of `dom` in ascending order.
pub open spec fn ascending_keys(dom: Set<u64>) -> Seq<u64> {
    choose|s: Seq<u64>| ascending(s) && #[trigger] s.to_set() == dom
}

/// One entry of the path table.
pub open spec fn file_entry(path: Seq<char>) -> Seq<u8> {
    let text = utf8::encode_utf8(path);
    bytes::le((text.len() as u32) as nat, 4) + text
}

/// The path table.
pub open spec fn files_section(files: Seq<Seq<char>>) -> Seq<u8>
    decreases files.len(),
{
    if files.len() == 0 {
        Seq::empty()
    } else {
        file_entry(files[0]) + files_section(files.drop_first())
    }
}

/// File ids as varint differences, the first one from `prev`.
pub open spec fn id_run(ids: Seq<u32>, prev: u32) -> Seq<u8>
    decreases ids.len(),
{
    if ids.len() == 0 {
        Seq::empty()
    } else {
        varint::varint((ids[0] - prev) as nat) + id_run(ids.drop_first(), ids[0])
    }
}

/// The posting runs of `keys`, one after the other.
pub open spec fn runs(keys: Seq<u64>, postings: Map<u64, Seq<u32>>) -> Seq<u8>
    decreases keys.len(),
{
    if keys.len() == 0 {
        Seq::empty()
    } else {
        id_run(postings[keys[0]], 0) + runs(keys.drop_first(), postings)
    }
}

/// One lookup record.
pub open spec fn record(h: u64, start: nat, len: nat) -> Seq<u8> {
    bytes::le(h as nat, 8) + bytes::le(start, 8) + bytes::le((len as u32) as nat, 4)
}

/// The lookup records of `keys`, when the first run starts at `start`.
pub open spec fn records(keys: Seq<u64>, postings: Map<u64, Seq<u32>>, start: nat) -> Seq<u8>
    decreases keys.len(),
{
    if keys.len() == 0 {
        Seq::empty()
    } else {
        let len = id_run(postings[keys[0]], 0).len();
        record(keys[0], start, len) + records(keys.drop_first(), postings, start + len)
    }
}

/// The header of a shard whose sections have the given lengths.
pub open spec fn header(
    m: ShardModel,
    grams: nat,
    files_len: nat,
    lookup_len: nat,
    postings_len: nat,
) -> Seq<u8> {
    let oid = match m.commit_oid {
        Some(oid) => utf8::encode_utf8(oid),
        None => Seq::empty(),
    };
    let extractor = utf8::encode_utf8(m.extractor_id);
    magic() + bytes::le(VERSION as nat, 4) + bytes::zeros(4) + bytes::padded(oid, 40)
        + bytes::padded(extractor, 64) + bytes::le(m.files.len(), 4) + bytes::le(grams, 8)
        + bytes::le(192, 8) + bytes::le(files_len, 8) + bytes::le(192 + files_len, 8) + bytes::le(
        lookup_len,
        8,
    ) + bytes::le(192 + files_len + lookup_len, 8) + bytes::le(postings_len, 8) + bytes::zeros(12)
}

/// The bytes of the shard that holds `m`.
pub open spec fn shard_bytes(m: ShardModel) -> Seq<u8> {
    let keys = ascending_keys(m.postings.dom());
    let files = files_section(m.files);
    let lookup = records(keys, m.postings, 0);
    let postings = runs(keys, m.postings);
    header(m, keys.len(), files.len(), lookup.len(), postings.len()) + files + lookup + postings
}

/// What an opened shard offers.
pub struct ShardView {
    pub files: Seq<Seq<char>>,
    pub extractor_id: Seq<char>,
    pub commit_oid: Option<Seq<char>>,
    pub gram_count: nat,
    /// The lookup section.
    pub lookup: Seq<u8>,
    /// The postings section.
    pub postings: Seq<u8>,
}

/// Why bytes are not a shard.
pub enum Fault {
    /// Shorter than a header.
    Short,
    /// Another magic.
    Magic,
    /// Another version.
    Version(u32),
    /// The commit oid is no text.
    Oid,
    /// The extractor id is no text.
    Extractor,
    /// A section reaches beyond the end, or the lookup section has another
    /// length than the gram count asks for.
    Bounds,
    /// The path table ends before a length.
    Table,
    /// The path table ends within a path.
    Path,
    /// A path is no text.
    PathText,
}

/// The `n` paths that stand in the path table from `pos` on.
pub open spec fn file_table(table: Seq<u8>, pos: int, n: nat) -> Result<Seq<Seq<char>>, Fault>
    decreases n,
{
    if n == 0 {
        Ok(Seq::empty())
    } else if pos + 4 > table.len() {
        Err(Fault::Table)
    } else {
        let end = pos + 4 + bytes::le_at(table, pos, 4);
        if end > table.len() {
            Err(Fault::Path)
        } else if !utf8::valid_utf8(table.subrange(pos + 4, end)) {
            Err(Fault::PathText)
        } else {
            match file_table(table, end, (n - 1) as nat) {
                Ok(rest) => Ok(seq![utf8::decode_utf8(table.subrange(pos + 4, end))] + rest),
                Err(f) => Err(f),
            }
        }
    }
}

/// Whether the sections that the header announces lie within the file and the
/// lookup section holds one record per gram.
pub open spec fn sections_fit(b: Seq<u8>) -> bool {
    &&& bytes::le_at(b, 164, 8) + bytes::le_at(b, 172, 8) <= b.len()
    &&& bytes::le_at(b, 148, 8) + bytes::le_at(b, 156, 8) <= b.len()
    &&& bytes::le_at(b, 132, 8) + bytes::le_at(b, 140, 8) <= b.len()
    &&& bytes::le_at(b, 156, 8) == bytes::le_at(b, 124, 8) * 20
}

/// `n` bytes of `b` from `off` on.
pub open spec fn slice(b: Seq<u8>, off: nat, n: nat) -> Seq<u8> {
    b.subrange(off as int, (off + n) as int)
}

/// What the bytes `b` are read as.
pub open spec fn read_shard(b: Seq<u8>) -> Result<ShardView, Fault> {
    let oid = bytes::until_zero(b.subrange(16, 56));
    let extractor = bytes::until_zero(b.subrange(56, 120));
    if b.len() < 192 {
        Err(Fault::Short)
    } else if b.take(8) != magic() {
        Err(Fault::Magic)
    } else if bytes::le_at(b, 8, 4) != VERSION {
        Err(Fault::Version(bytes::le_at(b, 8, 4) as u32))
    } else if !utf8::valid_utf8(oid) {
        Err(Fault::Oid)
    } else if !utf8::valid_utf8(extractor) {
        Err(Fault::Extractor)
    } else if !sections_fit(b) {
        Err(Fault::Bounds)
    } else {
        let table = slice(b, bytes::le_at(b, 132, 8), bytes::le_at(b, 140, 8));
        match file_table(table, 0, bytes::le_at(b, 120, 4)) {
            Err(f) => Err(f),
            Ok(files) => Ok(
                ShardView {
                    files,
                    extractor_id: utf8::decode_utf8(extractor),
                    commit_oid: if oid.len() == 0 {
                        None
                    } else {
                        Some(utf8::decode_utf8(oid))
                    },
                    gram_count: bytes::le_at(b, 124, 8),
                    lookup: slice(b, bytes::le_at(b, 148, 8), bytes::le_at(b, 156, 8)),
                    postings: slice(b, bytes::le_at(b, 164, 8), bytes::le_at(b, 172, 8)),
                },
            ),
        }
    }
}

/// The hash of lookup record `i`.
pub open spec fn record_hash(lookup: Seq<u8>, i: int) -> nat {
    bytes::le_at(lookup, 20 * i, 8)
}

/// Where the posting run of lookup record `i` starts.
pub open spec fn record_start(lookup: Seq<u8>, i: int) -> nat {
    bytes::le_at(lookup, 20 * i + 8, 8)
}

/// How many bytes the posting run of lookup record `i` has.
pub open spec fn record_len(lookup: Seq<u8>, i: int) -> nat {
    bytes::le_at(lookup, 20 * i + 16, 4)
}

/// Where bisection of the records `lo..hi` ends for `hash`. In a table that
/// ascends this is the first record whose hash is not smaller.
pub open spec fn lower_bound(lookup: Seq<u8>, hash: u64, lo: int, hi: int) -> int
    decreases hi - lo,
{
    if lo >= hi {
        lo
    } else {
        let mid = (lo + hi) / 2;
        if record_hash(lookup, mid) < hash {
            lower_bound(lookup, hash, mid + 1, hi)
        } else {
            lower_bound(lookup, hash, lo, mid)
        }
    }
}

pub proof fn lemma_varint_advances(buf: Seq<u8>, pos: int, k: nat)
    requires
        0 <= pos < buf.len(),
    ensures
        pos < varint::varint_from(buf, pos, k).1 <= buf.len(),
    decreases 5 - k,
{
    if buf[pos] >= 128 && k < 4 && pos + 1 < buf.len() {
        lemma_varint_advances(buf, pos + 1, k + 1);
    } else {
        reveal_with_fuel(varint::varint_from, 2);
    }
}

/// The ids that a posting run lists from `pos` on, when the id before is
/// `prev`. Sums wrap at thirty-two bits, and a damaged integer ends the run.
pub open spec fn decode_run(run: Seq<u8>, pos: int, prev: u32) -> Seq<u32>
    decreases run.len() - pos,
{
    if !(0 <= pos < run.len()) {
        Seq::empty()
    } else {
        proof {
            lemma_varint_advances(run, pos, 0);
        }
        match varint::varint_from(run, pos, 0) {
            (None, _) => Seq::empty(),
            (Some(delta), end) => {
                let id = ((prev + delta) % 0x1_0000_0000) as u32;
                seq![id] + decode_run(run, end, id)
            },
        }
    }
}

impl ShardView {
    /// The file ids that the shard lists under `hash`: those of the record
    /// that bisection finds, none if it has another hash or announces more
    /// bytes than there are.
    pub open spec fn lookup_ids(self, hash: u64) -> Seq<u32> {
        let n = self.gram_count as int;
        let i = lower_bound(self.lookup, hash, 0, n);
        if i >= n || record_hash(self.lookup, i) != hash {
            Seq::empty()
        } else {
            let off = record_start(self.lookup, i);
            let len = record_len(self.lookup, i);
            if off + len > self.postings.len() {
                Seq::empty()
            } else {
                decode_run(slice(self.postings, off, len), 0, 0)
            }
        }
    }
}

} // verus!
