//! Reading a shard: header and path table are taken apart once, postings are
//! looked up by bisection. Storing gram hashes in place of grams is safe: a
//! collision can only widen the set of candidate files.
use vstd::prelude::*;
use vstd::utf8;

pub use crate::shard_builder::ShardBuilder;
pub use crate::varint::{read_varint, write_varint};

use crate::bytes;
use crate::shard_format;
use crate::shard_format::{Fault, ShardView, VERSION};
use crate::text;
use crate::varint;

verus! {

/// Why a shard cannot be used.
#[derive(Debug)]
pub enum ShardError {
    /// The file could not be read or written; the message of the system.
    Io(String),
    /// The bytes are no shard.
    Corrupt(&'static str),
    /// The shard has another format version.
    VersionMismatch { found: u32 },
}

impl ShardError {
    /// What the error tells its reader.
    pub open spec fn message_view(self) -> Seq<char> {
        match self {
            ShardError::Io(m) => "shard io error: "@ + m@,
            ShardError::Corrupt(what) => "corrupt shard: "@ + what@,
            ShardError::VersionMismatch { found } => "shard version "@ + text::dec(found as nat)
                + " != supported "@ + text::dec(VERSION as nat),
        }
    }

    pub fn message(&self) -> (r: String)
        ensures
            r@ == self.message_view(),
    {
        match self {
            ShardError::Io(m) => {
                let mut r = "shard io error: ".to_string();
                r.append(m.as_str());
                r
            },
            ShardError::Corrupt(what) => {
                let mut r = "corrupt shard: ".to_string();
                r.append(what);
                r
            },
            ShardError::VersionMismatch { found } => {
                let mut r = "shard version ".to_string();
                text::push_dec(&mut r, *found as u64);
                r.append(" != supported ");
                text::push_dec(&mut r, VERSION as u64);
                r
            },
        }
    }
}

/// Whether `e` reports the fault `f`.
pub open spec fn reports(e: ShardError, f: Fault) -> bool {
    match f {
        Fault::Short => e matches ShardError::Corrupt(w) && w@ == "file shorter than header"@,
        Fault::Magic => e matches ShardError::Corrupt(w) && w@ == "bad magic"@,
        Fault::Version(v) => e matches ShardError::VersionMismatch { found } && found == v,
        Fault::Oid => e matches ShardError::Corrupt(w) && w@ == "commit oid not utf8"@,
        Fault::Extractor => e matches ShardError::Corrupt(w) && w@ == "extractor id not utf8"@,
        Fault::Bounds => e matches ShardError::Corrupt(w) && w@ == "section bounds exceed file"@,
        Fault::Table => e matches ShardError::Corrupt(w) && w@ == "truncated file table"@,
        Fault::Path => e matches ShardError::Corrupt(w) && w@ == "truncated file path"@,
        Fault::PathText => e matches ShardError::Corrupt(w) && w@ == "path not utf8"@,
    }
}

/// An immutable shard, held in memory as read from its file.
pub struct Shard {
    bytes: Vec<u8>,
    files: Vec<String>,
    gram_count: u64,
    lookup_off: usize,
    postings_off: usize,
    postings_len: usize,
    extractor_id: String,
    commit_oid: Option<String>,
}

impl View for Shard {
    type V = ShardView;

    closed spec fn view(&self) -> ShardView {
        ShardView {
            files: text::texts(self.files@),
            extractor_id: self.extractor_id@,
            commit_oid: text::text_option(self.commit_oid),
            gram_count: self.gram_count as nat,
            lookup: shard_format::slice(self.bytes@, self.lookup_off as nat, (self.gram_count * 20) as nat),
            postings: shard_format::slice(self.bytes@, self.postings_off as nat, self.postings_len as nat),
        }
    }
}

fn magic_matches(b: &[u8]) -> (r: bool)
    requires
        b@.len() >= 8,
    ensures
        r == (b@.take(8) == shard_format::magic()),
{
    proof {
        let head = b@.take(8);
        assert(head == shard_format::magic() ==> head[0] == 71 && head[1] == 80 && head[2] == 88 && head[3] == 83
            && head[4] == 72 && head[5] == 65 && head[6] == 82 && head[7] == 68);
        if b@[0] == 71 && b@[1] == 80 && b@[2] == 88 && b@[3] == 83 && b@[4] == 72 && b@[5] == 65
            && b@[6] == 82 && b@[7] == 68 {
            assert(head =~= shard_format::magic());
        }
    }
    b[0] == 71 && b[1] == 80 && b[2] == 88 && b[3] == 83 && b[4] == 72 && b[5] == 65 && b[6] == 82
        && b[7] == 68
}

/// Whether a section of `len` bytes at `off` ends within `total` bytes.
fn within(off: u64, len: u64, total: usize) -> (r: bool)
    ensures
        r == (off + len <= total),
{
    let end: u128 = off as u128 + len as u128;
    end <= total as u128
}

/// The paths of a path table with `n` entries.
fn read_files(table: &[u8], n: u64) -> (r: Result<Vec<String>, ShardError>)
    ensures
        match shard_format::file_table(table@, 0, n as nat) {
            Ok(files) => r matches Ok(v) && text::texts(v@) == files,
            Err(f) => r matches Err(e) && reports(e, f),
        },
{
    let mut files: Vec<String> = Vec::new();
    let mut pos: usize = 0;
    let mut left: u64 = n;
    let ghost whole = shard_format::file_table(table@, 0, n as nat);
    proof {
        assert(text::texts(files@) =~= Seq::<Seq<char>>::empty());
        if whole is Ok {
            assert(Seq::<Seq<char>>::empty() + whole->Ok_0 =~= whole->Ok_0);
        }
    }
    while left > 0
        invariant
            pos <= table@.len(),
            table.len() == table@.len(),
            whole == shard_format::file_table(table@, 0, n as nat),
            match shard_format::file_table(table@, pos as int, left as nat) {
                Ok(rest) => whole == Ok::<Seq<Seq<char>>, Fault>(text::texts(files@) + rest),
                Err(f) => whole == Err::<Seq<Seq<char>>, Fault>(f),
            },
        decreases left,
    {
        if table.len() - pos < 4 {
            return Err(ShardError::Corrupt("truncated file table"));
        }
        let len: u64 = bytes::get_le(table, pos, 4);
        let start: usize = pos + 4;
        if len > (table.len() - start) as u64 {
            return Err(ShardError::Corrupt("truncated file path"));
        }
        let end: usize = start + len as usize;
        let ghost before = text::texts(files@);
        match bytes::text_of_utf8(vstd::slice::slice_subrange(table, start, end)) {
            None => {
                return Err(ShardError::Corrupt("path not utf8"));
            },
            Some(path) => {
                files.push(path);
                proof {
                    assert(text::texts(files@) =~= before.push(path@));
                    match shard_format::file_table(table@, end as int, (left - 1) as nat) {
                        Ok(rest) => {
                            assert(before + (seq![path@] + rest) =~= text::texts(files@) + rest);
                        },
                        Err(_) => {},
                    }
                }
            },
        }
        pos = end;
        left = left - 1;
    }
    proof {
        assert(text::texts(files@) + Seq::<Seq<char>>::empty() =~= text::texts(files@));
    }
    Ok(files)
}

/// The text of a zero-padded field.
fn field_text(b: &[u8], from: usize, to: usize) -> (r: Option<String>)
    requires
        from <= to <= b@.len(),
    ensures
        ({
            let raw = bytes::until_zero(b@.subrange(from as int, to as int));
            &&& r is Some <==> utf8::valid_utf8(raw)
            &&& r matches Some(s) ==> s@ == utf8::decode_utf8(raw)
        }),
{
    let raw = vstd::slice::slice_subrange(b, from, to);
    let n: usize = bytes::zero_position(raw);
    proof {
        assert(raw@.subrange(0, n as int) =~= raw@.take(n as int));
    }
    bytes::text_of_utf8(vstd::slice::slice_subrange(raw, 0, n))
}

proof fn lemma_empty_text(raw: Seq<u8>)
    requires
        utf8::valid_utf8(raw),
    ensures
        raw.len() == 0 <==> utf8::decode_utf8(raw).len() == 0,
{
}

impl Shard {
    #[verifier::type_invariant]
    closed spec fn inv(self) -> bool {
        &&& self.lookup_off + self.gram_count * 20 <= self.bytes@.len()
        &&& self.postings_off + self.postings_len <= self.bytes@.len()
        &&& self.files@.len() <= u32::MAX
    }

    /// Take the bytes of a shard file apart.
    pub fn open(bytes: Vec<u8>) -> (r: Result<Shard, ShardError>)
        ensures
            match shard_format::read_shard(bytes@) {
                Ok(view) => r matches Ok(s) && s@ == view,
                Err(f) => r matches Err(e) && reports(e, f),
            },
    {
        if bytes.len() < 192 {
            return Err(ShardError::Corrupt("file shorter than header"));
        }
        let b = bytes.as_slice();
        if !magic_matches(b) {
            return Err(ShardError::Corrupt("bad magic"));
        }
        let version: u64 = bytes::get_le(b, 8, 4);
        proof {
            bytes::lemma_byte_ranges();
            bytes::lemma_from_le_bound(b@.subrange(8, 12));
            bytes::lemma_from_le_bound(b@.subrange(120, 124));
        }
        if version != VERSION as u64 {
            return Err(ShardError::VersionMismatch { found: version as u32 });
        }
        let oid = match field_text(b, 16, 56) {
            Some(s) => s,
            None => {
                return Err(ShardError::Corrupt("commit oid not utf8"));
            },
        };
        let extractor_id = match field_text(b, 56, 120) {
            Some(s) => s,
            None => {
                return Err(ShardError::Corrupt("extractor id not utf8"));
            },
        };
        proof {
            lemma_empty_text(bytes::until_zero(b@.subrange(16, 56)));
        }
        let commit_oid = if oid.as_str().is_empty() {
            None
        } else {
            Some(oid)
        };
        let file_count: u64 = bytes::get_le(b, 120, 4);
        let gram_count: u64 = bytes::get_le(b, 124, 8);
        let files_off: u64 = bytes::get_le(b, 132, 8);
        let files_len: u64 = bytes::get_le(b, 140, 8);
        let lookup_off: u64 = bytes::get_le(b, 148, 8);
        let lookup_len: u64 = bytes::get_le(b, 156, 8);
        let postings_off: u64 = bytes::get_le(b, 164, 8);
        let postings_len: u64 = bytes::get_le(b, 172, 8);
        let records: u128 = gram_count as u128 * 20;
        if !within(postings_off, postings_len, b.len()) || !within(lookup_off, lookup_len, b.len())
            || !within(files_off, files_len, b.len()) || lookup_len as u128 != records {
            return Err(ShardError::Corrupt("section bounds exceed file"));
        }
        proof {
            assert(shard_format::sections_fit(b@));
        }
        let table = vstd::slice::slice_subrange(
            b,
            files_off as usize,
            files_off as usize + files_len as usize,
        );
        let files = match read_files(table, file_count) {
            Ok(files) => files,
            Err(e) => {
                return Err(e);
            },
        };
        proof {
            lemma_table_len(table@, 0, file_count as nat);
        }
        let shard = Shard {
            bytes,
            files,
            gram_count,
            lookup_off: lookup_off as usize,
            postings_off: postings_off as usize,
            postings_len: postings_len as usize,
            extractor_id,
            commit_oid,
        };
        Ok(shard)
    }

    /// How many files the shard lists.
    pub fn file_count(&self) -> (n: u32)
        ensures
            n == self@.files.len(),
    {
        proof {
            use_type_invariant(self);
        }
        self.files.len() as u32
    }

    /// All paths, by file id.
    pub fn files(&self) -> (files: &Vec<String>)
        ensures
            text::texts(files@) == self@.files,
    {
        &self.files
    }

    /// The path of a file id.
    pub fn path_of(&self, file_id: u32) -> (path: Option<&str>)
        ensures
            match path {
                Some(p) => file_id < self@.files.len() && p@ == self@.files[file_id as int],
                None => file_id >= self@.files.len(),
            },
    {
        if (file_id as usize) < self.files.len() {
            Some(self.files[file_id as usize].as_str())
        } else {
            None
        }
    }

    /// The id of the extractor that produced the grams.
    pub fn extractor_id(&self) -> (id: &str)
        ensures
            id@ == self@.extractor_id,
    {
        self.extractor_id.as_str()
    }

    /// The commit that the shard is pinned to.
    pub fn commit_oid(&self) -> (oid: Option<&str>)
        ensures
            match oid {
                Some(o) => self@.commit_oid == Some(o@),
                None => self@.commit_oid is None,
            },
    {
        match &self.commit_oid {
            Some(o) => Some(o.as_str()),
            None => None,
        }
    }

    /// How many grams have postings.
    pub fn gram_count(&self) -> (n: u64)
        ensures
            n == self@.gram_count,
    {
        self.gram_count
    }

    /// The ids of the files that hold `hash`.
    pub fn postings(&self, hash: u64) -> (ids: Vec<u32>)
        ensures
            ids@ == self@.lookup_ids(hash),
    {
        proof {
            use_type_invariant(self);
            assert(self.bytes.len() == self.bytes@.len());
        }
        let n: usize = self.gram_count as usize;
        let b = self.bytes.as_slice();
        let lookup = vstd::slice::slice_subrange(b, self.lookup_off, self.lookup_off + n * 20);
        let postings = vstd::slice::slice_subrange(
            b,
            self.postings_off,
            self.postings_off + self.postings_len,
        );
        let ghost view = self@;
        proof {
            assert(lookup@ == view.lookup);
            assert(postings@ == view.postings);
        }
        let mut lo: usize = 0;
        let mut hi: usize = n;
        while lo < hi
            invariant
                lo <= hi <= n,
                n * 20 == lookup@.len(),
                n * 20 <= usize::MAX,
                shard_format::lower_bound(lookup@, hash, lo as int, hi as int) == shard_format::lower_bound(
                    lookup@,
                    hash,
                    0,
                    n as int,
                ),
            decreases hi - lo,
        {
            let mid: usize = (lo + hi) / 2;
            if bytes::get_le(lookup, mid * 20, 8) < hash {
                lo = mid + 1;
            } else {
                hi = mid;
            }
        }
        if lo >= n || bytes::get_le(lookup, lo * 20, 8) != hash {
            return Vec::new();
        }
        let off: u64 = bytes::get_le(lookup, lo * 20 + 8, 8);
        let len: u64 = bytes::get_le(lookup, lo * 20 + 16, 4);
        if !within(off, len, self.postings_len) {
            return Vec::new();
        }
        read_run(vstd::slice::slice_subrange(postings, off as usize, off as usize + len as usize))
    }
}

pub proof fn lemma_table_len(table: Seq<u8>, pos: int, n: nat)
    ensures
        shard_format::file_table(table, pos, n) matches Ok(files) ==> files.len() == n,
    decreases n,
{
    if n > 0 && pos + 4 <= table.len() {
        lemma_table_len(table, pos + 4 + bytes::le_at(table, pos, 4), (n - 1) as nat);
    }
}

/// The ids of one posting run.
fn read_run(run: &[u8]) -> (ids: Vec<u32>)
    ensures
        ids@ == shard_format::decode_run(run@, 0, 0),
{
    let mut ids: Vec<u32> = Vec::new();
    let mut pos: usize = 0;
    let mut prev: u32 = 0;
    proof {
        assert(ids@ + shard_format::decode_run(run@, 0, 0) =~= shard_format::decode_run(run@, 0, 0));
    }
    while pos < run.len()
        invariant
            pos <= run@.len(),
            run.len() == run@.len(),
            ids@ + shard_format::decode_run(run@, pos as int, prev) == shard_format::decode_run(run@, 0, 0),
        decreases run@.len() - pos,
    {
        let ghost at = pos as int;
        let ghost before = ids@;
        proof {
            shard_format::lemma_varint_advances(run@, at, 0);
        }
        match read_varint(run, &mut pos) {
            Some(delta) => {
                let id: u32 = prev.wrapping_add(delta);
                ids.push(id);
                proof {
                    let full = varint::varint_from(run@, at, 0).0->0;
                    assert(id == (prev + full) % 0x1_0000_0000);
                    assert(before + (seq![id] + shard_format::decode_run(run@, pos as int, id)) =~= ids@
                        + shard_format::decode_run(run@, pos as int, id));
                }
                prev = id;
            },
            None => {
                proof {
                    assert(before + Seq::<u32>::empty() =~= before);
                }
                return ids;
            },
        }
    }
    proof {
        assert(ids@ + Seq::<u32>::empty() =~= ids@);
    }
    ids
}

} // verus!
