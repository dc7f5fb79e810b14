//! Building and updating the code graph: which files take part, how symbols
//! are named, and which rows the extracted imports and calls become.
use vstd::prelude::*;

use crate::graph_laws;
use crate::resolve;
use crate::resolve::{FileCalls, PendingCall, StoreWrite, WriteView};
use crate::seqs;
use crate::text;
use crate::text_set::{TextMap, TextSet};

verus! {

/// What the graph holds after a build.
#[derive(Debug, Clone)]
pub struct GraphStats {
    pub files: u64,
    pub symbols: u64,
    pub edges: u64,
    pub unresolved: u64,
    pub elapsed_ms: u128,
}

/// Files larger than this are left out.
pub const MAX_FILE_BYTES: u64 = 4194304;

/// A repository path as the graph writes it: with forward slashes.
pub open spec fn slashed(rel: Seq<char>) -> Seq<char> {
    rel.map_values(|c: char|
        if c == '\\' {
            '/'
        } else {
            c
        })
}

/// The graph's path of a file below the root, where `rel` is what remains of
/// its path behind the root. The root itself has none.
pub fn rel_path(rel: &str) -> (r: Option<String>)
    ensures
        match r {
            Some(s) => rel@.len() > 0 && s@ == slashed(rel@),
            None => rel@.len() == 0,
        },
        r matches Some(s) ==> s@.len() == rel@.len() && forall|i: int|
            0 <= i < rel@.len() ==> #[trigger] s@[i] == (if rel@[i] == '\\' {
                '/'
            } else {
                rel@[i]
            }),
{
    let chars = text::chars_of(rel);
    if chars.len() == 0 {
        return None;
    }
    let mut s = String::new();
    let mut i: usize = 0;
    while i < chars.len()
        invariant
            i <= chars@.len(),
            chars@ == rel@,
            s@ == slashed(rel@).take(i as int),
        decreases chars@.len() - i,
    {
        if chars[i] == '\\' {
            s.push('/');
        } else {
            s.push(chars[i]);
        }
        i = i + 1;
        proof {
            assert(s@ =~= slashed(rel@).take(i as int));
        }
    }
    proof {
        assert(slashed(rel@).take(i as int) =~= slashed(rel@));
    }
    Some(s)
}

/// Whether the content of a directory entry is worth reading: a file in a
/// supported language that is not oversized. An unknown size is no obstacle.
pub fn worth_reading(is_file: bool, lang_known: bool, len: Option<u64>) -> (r: bool)
    ensures
        r == (is_file && lang_known && (len matches Some(n) ==> n <= MAX_FILE_BYTES)),
        r == (is_file && lang_known && (len matches Some(n) ==> n <= 4 * 1024 * 1024)),
{
    is_file && lang_known && match len {
        Some(n) => n <= MAX_FILE_BYTES,
        None => true,
    }
}

/// The uid of a symbol: path, qualified name and kind.
pub open spec fn uid(rel: Seq<char>, qualified: Seq<char>, kind: Seq<char>) -> Seq<char> {
    rel.push('#') + qualified.push('#') + kind
}

pub fn symbol_uid(rel: &str, qualified: &str, kind: &str) -> (r: String)
    ensures
        r@ == uid(rel@, qualified@, kind@),
        r@ == rel@ + seq!['#'] + qualified@ + seq!['#'] + kind@,
{
    let mut r = rel.to_string();
    r.push('#');
    r.append(qualified);
    r.push('#');
    r.append(kind);
    proof {
        assert(r@ =~= uid(rel@, qualified@, kind@));
    }
    r
}

/// The stored paths that a new build no longer finds, in stored order.
pub fn stale_files(stored: &Vec<String>, known: &Vec<String>) -> (r: Vec<String>)
    ensures
        text::texts(r@) == text::texts(stored@).filter(
            |p: Seq<char>| !text::texts(known@).contains(p),
        ),
        forall|p: Seq<char>| #[trigger]
            text::texts(r@).contains(p) <==> text::texts(stored@).contains(p) && !text::texts(
                known@,
            ).contains(p),
{
    let ghost all = text::texts(stored@);
    let ghost now = text::texts(known@);
    let ghost keep = |p: Seq<char>| !text::texts(known@).contains(p);
    let mut set = TextSet::new();
    let mut k: usize = 0;
    while k < known.len()
        invariant
            k <= known@.len(),
            now == text::texts(known@),
            forall|p: Seq<char>| #[trigger] set@.to_set().contains(p) <==> now.take(
                k as int,
            ).contains(p),
        decreases known@.len() - k,
    {
        let ghost before = set@.to_set();
        let ghost seen = now.take(k as int);
        set.insert(known[k].as_str());
        proof {
            let next = now.take(k + 1);
            assert(next =~= seen.push(now[k as int]));
            assert forall|p: Seq<char>| #[trigger] set@.to_set().contains(p) <==> next.contains(
                p,
            ) by {
                assert(before.contains(p) <==> seen.contains(p));
                if seen.contains(p) {
                    let i = choose|i: int| 0 <= i < seen.len() && seen[i] == p;
                    assert(next[i] == p);
                }
                assert(next[k as int] == now[k as int]);
                if next.contains(p) && p != now[k as int] {
                    let i = choose|i: int| 0 <= i < next.len() && next[i] == p;
                    assert(seen[i] == p);
                }
            }
        }
        k = k + 1;
    }
    proof {
        assert(now.take(k as int) =~= now);
    }
    let mut r: Vec<String> = Vec::new();
    let mut i: usize = 0;
    proof {
        reveal(Seq::filter);
        assert(all.take(0) =~= Seq::<Seq<char>>::empty());
        assert(text::texts(r@) =~= all.take(0).filter(keep));
    }
    while i < stored.len()
        invariant
            i <= stored@.len(),
            all == text::texts(stored@),
            now == text::texts(known@),
            keep == (|p: Seq<char>| !text::texts(known@).contains(p)),
            forall|p: Seq<char>| #[trigger] set@.to_set().contains(p) <==> now.contains(p),
            text::texts(r@) == all.take(i as int).filter(keep),
        decreases stored@.len() - i,
    {
        proof {
            reveal(Seq::filter);
            assert(all.take(i + 1).drop_last() =~= all.take(i as int));
            assert(all.take(i + 1).last() == stored@[i as int]@);
            assert(set@.to_set().contains(stored@[i as int]@) <==> set@.contains(
                stored@[i as int]@,
            ));
        }
        if !set.contains(stored[i].as_str()) {
            let ghost before = text::texts(r@);
            r.push(stored[i].clone());
            proof {
                assert(text::texts(r@) =~= before.push(stored@[i as int]@));
            }
        }
        i = i + 1;
    }
    proof {
        assert(all.take(i as int) =~= all);
        seqs::lemma_filter_members(all, keep);
    }
    r
}

// ---- imports and calls ----

/// An import of a file: its text, and the path that it resolves to.
#[derive(Debug)]
pub struct ExtractedImport {
    pub spec: String,
    pub target: Option<String>,
}

/// A call of a file, with the index of the symbol around it.
#[derive(Debug)]
pub struct ExtractedCall {
    pub callee_name: String,
    pub enclosing_index: Option<usize>,
    pub site_line: u32,
}

/// An extracted file whose row and symbols have been stored.
#[derive(Debug)]
pub struct StoredFile {
    pub path: String,
    pub file_id: i64,
    /// The ids of the symbols, in order of extraction.
    pub symbol_ids: Vec<i64>,
    pub imports: Vec<ExtractedImport>,
    pub calls: Vec<ExtractedCall>,
}

/// An import row.
#[derive(Debug)]
pub struct ImportRow {
    pub file_id: i64,
    pub spec: String,
    pub resolved: Option<i64>,
}

/// An import row with its text as characters.
pub struct ImportView {
    pub file_id: i64,
    pub spec: Seq<char>,
    pub resolved: Option<i64>,
}

impl View for ImportRow {
    type V = ImportView;

    open spec fn view(&self) -> ImportView {
        ImportView { file_id: self.file_id, spec: self.spec@, resolved: self.resolved }
    }
}

/// A pending call with its text as characters.
pub struct CallView {
    pub callee_name: Seq<char>,
    pub enclosing_symbol_id: Option<i64>,
    pub site_line: u32,
}

impl View for PendingCall {
    type V = CallView;

    open spec fn view(&self) -> CallView {
        CallView {
            callee_name: self.callee_name@,
            enclosing_symbol_id: self.enclosing_symbol_id,
            site_line: self.site_line,
        }
    }
}

/// Whether every call names a symbol that was extracted.
pub open spec fn calls_fit(calls: Seq<ExtractedCall>, symbols: nat) -> bool {
    forall|i: int|
        0 <= i < calls.len() ==> ((#[trigger] calls[i]).enclosing_index matches Some(ix) ==> ix
            < symbols)
}

/// The row of an import, when paths have the ids `ids`.
pub open spec fn import_row(
    file_id: i64,
    imp: ExtractedImport,
    ids: Map<Seq<char>, i64>,
) -> ImportView {
    ImportView {
        file_id,
        spec: imp.spec@,
        resolved: match imp.target {
            Some(p) => if ids.contains_key(p@) {
                Some(ids[p@])
            } else {
                None
            },
            None => None,
        },
    }
}

/// The pending call of an extracted one.
pub open spec fn pending_call(c: ExtractedCall, symbol_ids: Seq<i64>) -> CallView {
    CallView {
        callee_name: c.callee_name@,
        enclosing_symbol_id: match c.enclosing_index {
            Some(ix) => Some(symbol_ids[ix as int]),
            None => None,
        },
        site_line: c.site_line,
    }
}

/// The ids of the paths; a later file replaces an earlier one.
pub open spec fn ids_by_path(files: Seq<StoredFile>) -> Map<Seq<char>, i64>
    decreases files.len(),
{
    if files.len() == 0 {
        Map::empty()
    } else {
        ids_by_path(files.drop_last()).insert(files.last().path@, files.last().file_id)
    }
}

pub open spec fn import_views(v: Seq<ImportRow>) -> Seq<ImportView> {
    v.map_values(|r: ImportRow| r@)
}

pub open spec fn call_views(v: Seq<PendingCall>) -> Seq<CallView> {
    v.map_values(|c: PendingCall| c@)
}

/// The import rows of one file.
pub open spec fn import_rows(
    file_id: i64,
    imports: Seq<ExtractedImport>,
    ids: Map<Seq<char>, i64>,
) -> Seq<ImportView> {
    imports.map_values(|imp: ExtractedImport| import_row(file_id, imp, ids))
}

/// The import rows of all files, in order.
pub open spec fn all_import_rows(files: Seq<StoredFile>, ids: Map<Seq<char>, i64>) -> Seq<
    ImportView,
>
    decreases files.len(),
{
    if files.len() == 0 {
        Seq::empty()
    } else {
        let f = files.last();
        all_import_rows(files.drop_last(), ids) + import_rows(ids[f.path@], f.imports@, ids)
    }
}

/// The import rows of one file, given the ids of the known paths.
pub fn plan_imports(file_id: i64, imports: &Vec<ExtractedImport>, ids: &TextMap<i64>) -> (r: Vec<
    ImportRow,
>)
    ensures
        import_views(r@) == import_rows(file_id, imports@, ids@),
        r@.len() == imports@.len(),
        forall|i: int|
            0 <= i < r@.len() ==> {
                &&& (#[trigger] r@[i]).file_id == file_id
                &&& r@[i].spec@ == imports@[i].spec@
                &&& imports@[i].target is None ==> r@[i].resolved is None
                &&& imports@[i].target matches Some(p) ==> {
                    &&& ids@.contains_key(p@) ==> r@[i].resolved == Some(ids@[p@])
                    &&& !ids@.contains_key(p@) ==> r@[i].resolved is None
                }
            },
{
    let ghost all = import_rows(file_id, imports@, ids@);
    let mut r: Vec<ImportRow> = Vec::new();
    let mut i: usize = 0;
    while i < imports.len()
        invariant
            i <= imports@.len(),
            all == import_rows(file_id, imports@, ids@),
            import_views(r@) == all.take(i as int),
        decreases imports@.len() - i,
    {
        let imp = &imports[i];
        let resolved = match &imp.target {
            Some(p) => match ids.get(p.as_str()) {
                Some(id) => Some(*id),
                None => None,
            },
            None => None,
        };
        let ghost before = import_views(r@);
        let row = ImportRow { file_id, spec: imp.spec.clone(), resolved };
        let ghost view = row@;
        r.push(row);
        proof {
            assert(import_views(r@) =~= before.push(view));
            assert(all.take(i + 1) =~= all.take(i as int).push(view));
        }
        i = i + 1;
    }
    proof {
        assert(import_views(r@) =~= all);
        assert(r@.len() == import_views(r@).len());
        assert forall|k: int| 0 <= k < r@.len() implies (#[trigger] r@[k])@ == import_row(
            file_id,
            imports@[k],
            ids@,
        ) by {
            assert(import_views(r@)[k] == r@[k]@);
        }
    }
    r
}

/// The pending calls of one file, given the ids of its symbols.
pub fn plan_calls(calls: &Vec<ExtractedCall>, symbol_ids: &Vec<i64>) -> (r: Vec<PendingCall>)
    requires
        calls_fit(calls@, symbol_ids@.len()),
    ensures
        call_views(r@) == calls@.map_values(|c: ExtractedCall| pending_call(c, symbol_ids@)),
        r@.len() == calls@.len(),
        forall|i: int|
            0 <= i < r@.len() ==> {
                &&& (#[trigger] r@[i]).callee_name@ == calls@[i].callee_name@
                &&& r@[i].site_line == calls@[i].site_line
                &&& calls@[i].enclosing_index is None ==> r@[i].enclosing_symbol_id is None
                &&& calls@[i].enclosing_index matches Some(ix) ==> r@[i].enclosing_symbol_id
                    == Some(symbol_ids@[ix as int])
            },
{
    let ghost all = calls@.map_values(|c: ExtractedCall| pending_call(c, symbol_ids@));
    let mut r: Vec<PendingCall> = Vec::new();
    let mut i: usize = 0;
    while i < calls.len()
        invariant
            i <= calls@.len(),
            calls_fit(calls@, symbol_ids@.len()),
            all == calls@.map_values(|c: ExtractedCall| pending_call(c, symbol_ids@)),
            call_views(r@) == all.take(i as int),
        decreases calls@.len() - i,
    {
        let c = &calls[i];
        let enclosing_symbol_id = match c.enclosing_index {
            Some(ix) => Some(symbol_ids[ix]),
            None => None,
        };
        let ghost before = call_views(r@);
        let call = PendingCall {
            callee_name: c.callee_name.clone(),
            enclosing_symbol_id,
            site_line: c.site_line,
        };
        let ghost view = call@;
        r.push(call);
        proof {
            assert(call_views(r@) =~= before.push(view));
            assert(all.take(i + 1) =~= all.take(i as int).push(view));
        }
        i = i + 1;
    }
    proof {
        assert(call_views(r@) =~= all);
        assert(r@.len() == call_views(r@).len());
        assert forall|k: int| 0 <= k < r@.len() implies (#[trigger] r@[k])@ == pending_call(
            calls@[k],
            symbol_ids@,
        ) by {
            assert(call_views(r@)[k] == r@[k]@);
        }
    }
    r
}

fn path_ids(files: &Vec<StoredFile>) -> (r: TextMap<i64>)
    ensures
        r@ == ids_by_path(files@),
{
    let mut r: TextMap<i64> = TextMap::new();
    let mut i: usize = 0;
    proof {
        assert(files@.take(0) =~= Seq::<StoredFile>::empty());
    }
    while i < files.len()
        invariant
            i <= files@.len(),
            r@ == ids_by_path(files@.take(i as int)),
        decreases files@.len() - i,
    {
        r.insert(files[i].path.as_str(), files[i].file_id);
        proof {
            assert(files@.take(i + 1).drop_last() =~= files@.take(i as int));
        }
        i = i + 1;
    }
    proof {
        assert(files@.take(i as int) =~= files@);
    }
    r
}

proof fn lemma_path_known(files: Seq<StoredFile>, i: int)
    requires
        0 <= i < files.len(),
    ensures
        ids_by_path(files).contains_key(files[i].path@),
    decreases files.len(),
{
    if i < files.len() - 1 {
        lemma_path_known(files.drop_last(), i);
    }
}

/// Whether `fc` holds the pending calls of `f` under the id of its path.
pub open spec fn calls_of(fc: FileCalls, f: StoredFile, ids: Map<Seq<char>, i64>) -> bool {
    &&& fc.file_id == ids[f.path@]
    &&& call_views(fc.calls@) == f.calls@.map_values(
        |c: ExtractedCall| pending_call(c, f.symbol_ids@),
    )
}

/// The import rows to insert and the calls to resolve for a whole build, once
/// every file and symbol has its id.
pub fn build_graph(files: &Vec<StoredFile>) -> (r: (Vec<ImportRow>, Vec<FileCalls>))
    requires
        forall|i: int|
            0 <= i < files@.len() ==> calls_fit(
                (#[trigger] files@[i]).calls@,
                files@[i].symbol_ids@.len(),
            ),
    ensures
        import_views(r.0@) == all_import_rows(files@, ids_by_path(files@)),
        r.1@.len() == files@.len(),
        forall|i: int|
            0 <= i < files@.len() ==> calls_of(
                #[trigger] r.1@[i],
                files@[i],
                ids_by_path(files@),
            ),
        forall|i: int, j: int|
            0 <= i < j < files@.len() && (#[trigger] files@[i]).path@ == (
            #[trigger] files@[j]).path@ ==> r.1@[i].file_id == r.1@[j].file_id,
        forall|i: int|
            0 <= i < files@.len() && (forall|j: int|
                i < j < files@.len() ==> (#[trigger] files@[j]).path@ != files@[i].path@) ==> (
            #[trigger] r.1@[i]).file_id == files@[i].file_id,
        forall|i: int|
            0 <= i < files@.len() ==> (#[trigger] r.1@[i]).calls@.len() == files@[i].calls@.len(),
        forall|i: int, j: int|
            0 <= i < files@.len() && 0 <= j < files@[i].calls@.len() ==> {
                let made = #[trigger] r.1@[i].calls@[j];
                let call = files@[i].calls@[j];
                &&& made.callee_name@ == call.callee_name@
                &&& made.site_line == call.site_line
                &&& call.enclosing_index is None ==> made.enclosing_symbol_id is None
                &&& call.enclosing_index matches Some(ix) ==> made.enclosing_symbol_id == Some(
                    files@[i].symbol_ids@[ix as int],
                )
            },
{
    let ids = path_ids(files);
    let ghost by_path = ids@;
    let mut imports: Vec<ImportRow> = Vec::new();
    let mut pending: Vec<FileCalls> = Vec::new();
    let mut i: usize = 0;
    proof {
        assert(files@.take(0) =~= Seq::<StoredFile>::empty());
        assert(import_views(imports@) =~= Seq::<ImportView>::empty());
    }
    while i < files.len()
        invariant
            i <= files@.len(),
            ids@ == by_path,
            by_path == ids_by_path(files@),
            forall|k: int|
                0 <= k < files@.len() ==> calls_fit(
                    (#[trigger] files@[k]).calls@,
                    files@[k].symbol_ids@.len(),
                ),
            import_views(imports@) == all_import_rows(files@.take(i as int), by_path),
            pending@.len() == i,
            forall|k: int| 0 <= k < i ==> calls_of(#[trigger] pending@[k], files@[k], by_path),
        decreases files@.len() - i,
    {
        let f = &files[i];
        proof {
            lemma_path_known(files@, i as int);
        }
        let file_id: i64 = *ids.get(f.path.as_str()).unwrap();
        let mut rows = plan_imports(file_id, &f.imports, &ids);
        let ghost before = imports@;
        let ghost more = rows@;
        imports.append(&mut rows);
        proof {
            assert(imports@ =~= before + more);
            assert(import_views(imports@) =~= import_views(before) + import_views(more));
            assert(files@.take(i + 1).drop_last() =~= files@.take(i as int));
        }
        let calls = plan_calls(&f.calls, &f.symbol_ids);
        pending.push(FileCalls { file_id, calls });
        i = i + 1;
    }
    proof {
        assert(files@.take(i as int) =~= files@);
        assert forall|k: int|
            0 <= k < files@.len() && (forall|j: int|
                k < j < files@.len() ==> (#[trigger] files@[j]).path@
                    != files@[k].path@) implies (#[trigger] pending@[k]).file_id
            == files@[k].file_id by {
            graph_laws::last_file_names_the_path(files@, k);
        }
        assert forall|k: int| 0 <= k < files@.len() implies (
        #[trigger] pending@[k]).calls@.len() == files@[k].calls@.len() by {
            assert(call_views(pending@[k].calls@).len() == pending@[k].calls@.len());
        }
        assert forall|k: int, j: int|
            0 <= k < files@.len() && 0 <= j < files@[k].calls@.len() implies (
        #[trigger] pending@[k].calls@[j])@ == pending_call(
            files@[k].calls@[j],
            files@[k].symbol_ids@,
        ) by {
            assert(calls_of(pending@[k], files@[k], by_path));
            assert(call_views(pending@[k].calls@)[j] == pending@[k].calls@[j]@);
        }
    }
    (imports, pending)
}

// ---- updating one file ----

/// A call edge into a file that is about to be replaced: the name of the
/// called symbol, the calling symbol, and the file of that symbol if known.
#[derive(Debug)]
pub struct IncomingCall {
    pub name: String,
    pub src_id: i64,
    pub src_file: Option<i64>,
    pub site_line: u32,
}

/// Whether an incoming call comes from another file than `file_id`.
pub open spec fn from_elsewhere(file_id: i64) -> spec_fn(IncomingCall) -> bool {
    |c: IncomingCall| c.src_file matches Some(f) && f != file_id
}

/// The row that keeps an incoming call on record.
pub open spec fn record_of(c: IncomingCall) -> WriteView {
    WriteView::Unresolved {
        file_id: c.src_file->0,
        name: c.name@,
        enclosing_symbol_id: Some(c.src_id),
        site_line: c.site_line,
    }
}

/// The rows for all incoming calls out of other files, in order.
pub open spec fn records_of(file_id: i64, incoming: Seq<IncomingCall>) -> Seq<WriteView> {
    incoming.filter(from_elsewhere(file_id)).map_values(|c: IncomingCall| record_of(c))
}

/// Put the incoming calls out of other files on record, so that they can link
/// again once the file is rebuilt.
fn demoted(file_id: i64, incoming: &Vec<IncomingCall>) -> (r: Vec<StoreWrite>)
    ensures
        resolve::write_views(r@) == records_of(file_id, incoming@),
{
    let ghost keep = from_elsewhere(file_id);
    let mut r: Vec<StoreWrite> = Vec::new();
    let mut i: usize = 0;
    proof {
        reveal(Seq::filter);
        assert(incoming@.take(0) =~= Seq::<IncomingCall>::empty());
        assert(resolve::write_views(r@) =~= records_of(file_id, incoming@.take(0)));
    }
    while i < incoming.len()
        invariant
            i <= incoming@.len(),
            keep == from_elsewhere(file_id),
            resolve::write_views(r@) == records_of(file_id, incoming@.take(i as int)),
        decreases incoming@.len() - i,
    {
        let c = &incoming[i];
        let ghost seen = incoming@.take(i as int);
        proof {
            reveal(Seq::filter);
            assert(incoming@.take(i + 1).drop_last() =~= seen);
            assert(incoming@.take(i + 1).last() == *c);
        }
        let source = match c.src_file {
            Some(f) => if f != file_id {
                Some(f)
            } else {
                None
            },
            None => None,
        };
        match source {
            Some(f) => {
                let w = StoreWrite::Unresolved {
                    file_id: f,
                    name: c.name.clone(),
                    enclosing_symbol_id: Some(c.src_id),
                    site_line: c.site_line,
                };
                let ghost view = w@;
                let ghost before = resolve::write_views(r@);
                r.push(w);
                proof {
                    assert(resolve::write_views(r@) =~= before.push(view));
                    assert(incoming@.take(i + 1).filter(keep) == seen.filter(keep).push(*c));
                    assert(records_of(file_id, incoming@.take(i + 1)) =~= records_of(
                        file_id,
                        seen,
                    ).push(view));
                }
            },
            None => {
                proof {
                    assert(incoming@.take(i + 1).filter(keep) == seen.filter(keep));
                }
            },
        }
        i = i + 1;
    }
    proof {
        assert(incoming@.take(i as int) =~= incoming@);
    }
    r
}

/// What becomes of the file's own rows.
#[derive(Debug, Clone, Copy, PartialEq, Eq, Structural)]
pub enum FileStep {
    /// Drop them.
    Remove,
    /// Replace them by the new extraction.
    Replace,
}

/// How to update one file. The writes come first, then the file's step, and
/// last every unresolved call is tried again.
#[derive(Debug)]
pub struct UpdatePlan {
    pub writes: Vec<StoreWrite>,
    pub step: FileStep,
}

/// Plan the update of one file: `stored` is its id and its incoming calls, if
/// it is in the graph; `extracted` is whether it could be read and extracted.
pub fn update_file(stored: Option<(i64, Vec<IncomingCall>)>, extracted: bool) -> (plan: UpdatePlan)
    ensures
        resolve::write_views(plan.writes@) == (match stored {
            Some(s) => records_of(s.0, s.1@),
            None => Seq::empty(),
        }),
        stored is None ==> plan.writes@.len() == 0,
        stored matches Some(s) ==> graph_laws::keeps_on_record(plan.writes@, s.0, s.1@),
        plan.step == (if extracted {
            FileStep::Replace
        } else {
            FileStep::Remove
        }),
{
    let ghost before = stored->0;
    let writes = match stored {
        Some(s) => demoted(s.0, &s.1),
        None => Vec::new(),
    };
    proof {
        if stored is None {
            assert(resolve::write_views(writes@) =~= Seq::<WriteView>::empty());
        } else {
            graph_laws::lemma_kept_on_record(writes@, before.0, before.1@);
        }
    }
    let step = if extracted {
        FileStep::Replace
    } else {
        FileStep::Remove
    };
    UpdatePlan { writes, step }
}

// ---- laws ----

/// No incoming call is lost: each one out of another file is put on record
/// before the file's rows are dropped.
pub proof fn incoming_calls_are_recorded(file_id: i64, incoming: Seq<IncomingCall>, i: int)
    requires
        0 <= i < incoming.len(),
        incoming[i].src_file matches Some(f) && f != file_id,
    ensures
        records_of(file_id, incoming).contains(record_of(incoming[i])),
{
    let keep = from_elsewhere(file_id);
    seqs::lemma_filter(incoming, keep);
    let kept = incoming.filter(keep);
    assert(keep(incoming[i]));
    assert(kept.contains(incoming[i]));
    let k = choose|k: int| 0 <= k < kept.len() && kept[k] == incoming[i];
    assert(records_of(file_id, incoming)[k] == record_of(incoming[i]));
}

} // verus!
