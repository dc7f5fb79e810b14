//! What building and updating the code graph promises.
use vstd::prelude::*;

use crate::graph_build;
use crate::graph_build::{
    ExtractedCall, ExtractedImport, ImportRow, IncomingCall, StoredFile,
};
use crate::resolve;
use crate::resolve::{
    CallEdge, Decision, IndexModel, PendingCall, StoreWrite, Tier, UnresolvedRow, WriteView,
};
use crate::seqs;

verus! {

// ---- paths and ids ----

/// A path of the graph has as many characters as what it was made of, no
/// backslash, and every other character where it was.
pub proof fn paths_have_forward_slashes(rel: Seq<char>)
    ensures
        graph_build::slashed(rel).len() == rel.len(),
        !graph_build::slashed(rel).contains('\\'),
        forall|i: int|
            0 <= i < rel.len() && rel[i] != '\\' ==> #[trigger] graph_build::slashed(rel)[i]
                == rel[i],
        forall|i: int|
            0 <= i < rel.len() && rel[i] == '\\' ==> #[trigger] graph_build::slashed(rel)[i] == '/',
{
}

/// Symbols whose paths and names hold no separator share a uid only if they
/// share path, name and kind.
pub proof fn uids_tell_symbols_apart(
    rel: Seq<char>,
    name: Seq<char>,
    kind: Seq<char>,
    other_rel: Seq<char>,
    other_name: Seq<char>,
    other_kind: Seq<char>,
)
    requires
        !rel.contains('#'),
        !name.contains('#'),
        !other_rel.contains('#'),
        !other_name.contains('#'),
        graph_build::uid(rel, name, kind) == graph_build::uid(other_rel, other_name, other_kind),
    ensures
        rel == other_rel,
        name == other_name,
        kind == other_kind,
{
    let a = graph_build::uid(rel, name, kind);
    let b = graph_build::uid(other_rel, other_name, other_kind);
    assert(a[rel.len() as int] == '#');
    assert(b[other_rel.len() as int] == '#');
    if rel.len() < other_rel.len() {
        assert(other_rel[rel.len() as int] == b[rel.len() as int]);
        assert(other_rel.contains('#'));
    }
    if other_rel.len() < rel.len() {
        assert(rel[other_rel.len() as int] == a[other_rel.len() as int]);
        assert(rel.contains('#'));
    }
    assert(rel =~= a.take(rel.len() as int));
    assert(other_rel =~= b.take(rel.len() as int));
    let x: int = rel.len() as int + 1;
    assert(a[x + name.len()] == '#');
    assert(b[x + other_name.len()] == '#');
    if name.len() < other_name.len() {
        assert(other_name[name.len() as int] == b[x + name.len()]);
        assert(other_name.contains('#'));
    }
    if other_name.len() < name.len() {
        assert(name[other_name.len() as int] == a[x + other_name.len()]);
        assert(name.contains('#'));
    }
    assert(name =~= a.subrange(x, x + name.len()));
    assert(other_name =~= b.subrange(x, x + name.len()));
    assert(kind =~= a.skip(x + name.len() + 1));
    assert(other_kind =~= b.skip(x + name.len() + 1));
}

/// A path has the id of the last file that lies there.
pub proof fn last_file_names_the_path(files: Seq<StoredFile>, i: int)
    requires
        0 <= i < files.len(),
        forall|j: int| i < j < files.len() ==> (#[trigger] files[j]).path@ != files[i].path@,
    ensures
        graph_build::ids_by_path(files).contains_key(files[i].path@),
        graph_build::ids_by_path(files)[files[i].path@] == files[i].file_id,
    decreases files.len(),
{
    if i < files.len() - 1 {
        let rest = files.drop_last();
        assert(files[files.len() - 1].path@ != files[i].path@);
        assert forall|j: int| i < j < rest.len() implies (#[trigger] rest[j]).path@
            != rest[i].path@ by {
            assert(rest[j] == files[j]);
        }
        last_file_names_the_path(rest, i);
    }
}

/// Only paths of files have ids.
pub proof fn unknown_paths_have_no_id(files: Seq<StoredFile>, path: Seq<char>)
    requires
        forall|j: int| 0 <= j < files.len() ==> (#[trigger] files[j]).path@ != path,
    ensures
        !graph_build::ids_by_path(files).contains_key(path),
    decreases files.len(),
{
    if files.len() > 0 {
        let rest = files.drop_last();
        assert(files[files.len() - 1].path@ != path);
        assert forall|j: int| 0 <= j < rest.len() implies (#[trigger] rest[j]).path@ != path by {
            assert(rest[j] == files[j]);
        }
        unknown_paths_have_no_id(rest, path);
    }
}

// ---- imports ----

/// An import row belongs to the importing file, keeps the import's text, and
/// points to the id of its target exactly when the target is a known path.
pub proof fn imports_point_to_known_files(
    file_id: i64,
    imports: Seq<ExtractedImport>,
    ids: Map<Seq<char>, i64>,
    i: int,
)
    requires
        0 <= i < imports.len(),
    ensures
        graph_build::import_rows(file_id, imports, ids).len() == imports.len(),
        ({
            let row = graph_build::import_rows(file_id, imports, ids)[i];
            &&& row.file_id == file_id
            &&& row.spec == imports[i].spec@
            &&& imports[i].target is None ==> row.resolved is None
            &&& imports[i].target matches Some(p) ==> {
                &&& row.resolved is Some <==> ids.contains_key(p@)
                &&& ids.contains_key(p@) ==> row.resolved == Some(ids[p@])
            }
        }),
{
}

/// How many imports the files hold together.
pub open spec fn import_count(files: Seq<StoredFile>) -> nat
    decreases files.len(),
{
    if files.len() == 0 {
        0
    } else {
        files[0].imports@.len() + import_count(files.drop_first())
    }
}

/// A build has one row for each import of each file: the rows of a file stand
/// behind those of the files before it, in the order of its imports, under the
/// id of its path.
pub proof fn every_import_has_its_row(
    files: Seq<StoredFile>,
    ids: Map<Seq<char>, i64>,
    i: int,
    j: int,
)
    requires
        0 <= i < files.len(),
        0 <= j < files[i].imports@.len(),
    ensures
        graph_build::all_import_rows(files, ids).len() == import_count(files),
        import_count(files.take(i)) + j < import_count(files),
        ({
            let row = graph_build::all_import_rows(files, ids)[import_count(files.take(i)) + j];
            let imp = files[i].imports@[j];
            &&& row.file_id == ids[files[i].path@]
            &&& row.spec == imp.spec@
            &&& imp.target is None ==> row.resolved is None
            &&& imp.target matches Some(p) ==> {
                &&& row.resolved is Some <==> ids.contains_key(p@)
                &&& ids.contains_key(p@) ==> row.resolved == Some(ids[p@])
            }
        }),
    decreases files.len(),
{
    let rest = files.drop_last();
    let last = files.len() - 1;
    lemma_import_count_last(files);
    lemma_import_rows_len(files, ids);
    lemma_import_rows_len(rest, ids);
    if i < last {
        assert(rest.take(i) =~= files.take(i));
        every_import_has_its_row(rest, ids, i, j);
    } else {
        assert(files.take(i) =~= rest);
        imports_point_to_known_files(ids[files[i].path@], files[i].imports@, ids, j);
    }
}

proof fn lemma_import_count_last(files: Seq<StoredFile>)
    requires
        files.len() > 0,
    ensures
        import_count(files) == import_count(files.drop_last()) + files.last().imports@.len(),
    decreases files.len(),
{
    if files.len() == 1 {
        assert(import_count(files.drop_first()) == 0);
        assert(import_count(files.drop_last()) == 0);
    } else {
        lemma_import_count_last(files.drop_first());
        assert(files.drop_first().drop_last() =~= files.drop_last().drop_first());
    }
}

proof fn lemma_import_rows_len(files: Seq<StoredFile>, ids: Map<Seq<char>, i64>)
    ensures
        graph_build::all_import_rows(files, ids).len() == import_count(files),
    decreases files.len(),
{
    if files.len() > 0 {
        lemma_import_rows_len(files.drop_last(), ids);
        lemma_import_count_last(files);
    }
}

// ---- calls ----

/// A pending call keeps its callee and its line, and hangs on the very symbol
/// that encloses it, or on none if none does. Where the symbols' ids differ,
/// two calls hang on the same symbol exactly when the same symbol encloses
/// them.
pub proof fn calls_hang_on_their_symbol(a: ExtractedCall, b: ExtractedCall, symbol_ids: Seq<i64>)
    requires
        a.enclosing_index matches Some(ix) ==> ix < symbol_ids.len(),
        b.enclosing_index matches Some(ix) ==> ix < symbol_ids.len(),
        symbol_ids.no_duplicates(),
    ensures
        graph_build::pending_call(a, symbol_ids).callee_name == a.callee_name@,
        graph_build::pending_call(a, symbol_ids).site_line == a.site_line,
        a.enclosing_index is None ==> graph_build::pending_call(
            a,
            symbol_ids,
        ).enclosing_symbol_id is None,
        a.enclosing_index matches Some(ix) ==> graph_build::pending_call(
            a,
            symbol_ids,
        ).enclosing_symbol_id == Some(symbol_ids[ix as int]),
        graph_build::pending_call(a, symbol_ids).enclosing_symbol_id == graph_build::pending_call(
            b,
            symbol_ids,
        ).enclosing_symbol_id <==> a.enclosing_index == b.enclosing_index,
{
}

/// Rows and pending calls are told by their own fields.
pub proof fn rows_tell_their_fields(row: ImportRow, call: PendingCall)
    ensures
        row@.file_id == row.file_id,
        row@.spec == row.spec@,
        row@.resolved == row.resolved,
        call@.callee_name == call.callee_name@,
        call@.enclosing_symbol_id == call.enclosing_symbol_id,
        call@.site_line == call.site_line,
{
}

// ---- updating one file ----

/// Whether a write puts an incoming call on record: under the file that it
/// comes from, with the name it calls, the symbol it comes from and its line.
pub open spec fn puts_on_record(w: WriteView, c: IncomingCall) -> bool {
    &&& w matches WriteView::Unresolved { file_id, name, enclosing_symbol_id, site_line }
    &&& c.src_file == Some(file_id)
    &&& name == c.name@
    &&& enclosing_symbol_id == Some(c.src_id)
    &&& site_line == c.site_line
}

/// Whether a write puts one of the incoming calls on record, one that comes out
/// of another file than `file_id`.
pub open spec fn records_one_of(w: WriteView, file_id: i64, incoming: Seq<IncomingCall>) -> bool {
    exists|i: int|
        0 <= i < incoming.len() && (#[trigger] incoming[i]).src_file is Some && incoming[i].src_file
            != Some(file_id) && puts_on_record(w, incoming[i])
}

/// Each incoming call out of another file is put on record under the file
/// that it comes from.
pub proof fn incoming_calls_keep_their_source(
    file_id: i64,
    incoming: Seq<IncomingCall>,
    i: int,
) -> (k: int)
    requires
        0 <= i < incoming.len(),
        incoming[i].src_file is Some,
        incoming[i].src_file != Some(file_id),
    ensures
        0 <= k < graph_build::records_of(file_id, incoming).len(),
        puts_on_record(graph_build::records_of(file_id, incoming)[k], incoming[i]),
{
    let records = graph_build::records_of(file_id, incoming);
    graph_build::incoming_calls_are_recorded(file_id, incoming, i);
    let k = choose|k: int|
        0 <= k < records.len() && records[k] == graph_build::record_of(incoming[i]);
    k
}

/// Nothing else is put on record: each record is that of an incoming call out
/// of another file.
pub proof fn records_are_incoming_calls(
    file_id: i64,
    incoming: Seq<IncomingCall>,
    k: int,
) -> (i: int)
    requires
        0 <= k < graph_build::records_of(file_id, incoming).len(),
    ensures
        0 <= i < incoming.len(),
        incoming[i].src_file is Some,
        incoming[i].src_file != Some(file_id),
        puts_on_record(graph_build::records_of(file_id, incoming)[k], incoming[i]),
{
    let keep = graph_build::from_elsewhere(file_id);
    let kept = incoming.filter(keep);
    seqs::lemma_filter(incoming, keep);
    assert(keep(kept[k]) && incoming.contains(kept[k]));
    let i = choose|i: int| 0 <= i < incoming.len() && incoming[i] == kept[k];
    i
}

/// Whether the writes put exactly the incoming calls out of other files than
/// `file_id` on record: each of them under the file that it comes from, with the
/// name it calls, the symbol it comes from and its line, and nothing else.
pub open spec fn keeps_on_record(
    writes: Seq<StoreWrite>,
    file_id: i64,
    incoming: Seq<IncomingCall>,
) -> bool {
    &&& forall|i: int|
        0 <= i < incoming.len() && (#[trigger] incoming[i]).src_file is Some && incoming[i].src_file
            != Some(file_id) ==> is_recorded(writes, incoming[i])
    &&& forall|k: int|
        0 <= k < writes.len() ==> records_one_of((#[trigger] writes[k])@, file_id, incoming)
}

/// Whether one of the writes puts `c` on record.
pub open spec fn is_recorded(writes: Seq<StoreWrite>, c: IncomingCall) -> bool {
    exists|k: int| 0 <= k < writes.len() && puts_on_record((#[trigger] writes[k])@, c)
}

pub(crate) proof fn lemma_kept_on_record(
    writes: Seq<StoreWrite>,
    file_id: i64,
    incoming: Seq<IncomingCall>,
)
    requires
        resolve::write_views(writes) == graph_build::records_of(file_id, incoming),
    ensures
        keeps_on_record(writes, file_id, incoming),
{
    let views = resolve::write_views(writes);
    assert(views.len() == writes.len());
    assert forall|i: int|
        0 <= i < incoming.len() && (#[trigger] incoming[i]).src_file is Some && incoming[i].src_file
            != Some(file_id) implies is_recorded(writes, incoming[i]) by {
        let k = incoming_calls_keep_their_source(file_id, incoming, i);
        assert(views[k] == writes[k]@);
        assert(puts_on_record(writes[k]@, incoming[i]));
    }
    assert forall|k: int| 0 <= k < writes.len() implies records_one_of(
        (#[trigger] writes[k])@,
        file_id,
        incoming,
    ) by {
        assert(views[k] == writes[k]@);
        let i = records_are_incoming_calls(file_id, incoming, k);
        assert(puts_on_record(writes[k]@, incoming[i]));
    }
}

/// Whether a stored row is the one that a write inserted.
pub open spec fn stores(row: UnresolvedRow, w: WriteView) -> bool {
    &&& w matches WriteView::Unresolved { file_id, name, enclosing_symbol_id, site_line }
    &&& row.file_id == file_id
    &&& row.name@ == name
    &&& enclosing_symbol_id == Some(row.enclosing)
    &&& row.site_line == site_line
}

/// Replacing a file loses no call into it: where the new tables resolve the
/// called name out of the calling file, the row that the update put on record
/// turns back into an edge from the same symbol, at the same line, to what the
/// tables resolve to; where they do not, the row stays.
pub proof fn incoming_calls_link_again(
    file_id: i64,
    incoming: Seq<IncomingCall>,
    i: int,
    model: IndexModel,
    row: UnresolvedRow,
) -> (k: int)
    requires
        0 <= i < incoming.len(),
        incoming[i].src_file is Some,
        incoming[i].src_file != Some(file_id),
    ensures
        0 <= k < graph_build::records_of(file_id, incoming).len(),
        puts_on_record(graph_build::records_of(file_id, incoming)[k], incoming[i]),
        stores(row, graph_build::records_of(file_id, incoming)[k]) ==> {
            let c = incoming[i];
            match model.decide(c.src_file->0, c.name@) {
                Decision::Exact(dst_id) => resolve::retry_write(model, row) == Some(
                    WriteView::Relink {
                        edge: CallEdge {
                            src_id: c.src_id,
                            dst_id,
                            tier: Tier::Exact,
                            site_line: c.site_line,
                        },
                        row_id: row.id,
                    },
                ),
                Decision::Probable(dst_id) => resolve::retry_write(model, row) == Some(
                    WriteView::Relink {
                        edge: CallEdge {
                            src_id: c.src_id,
                            dst_id,
                            tier: Tier::Probable,
                            site_line: c.site_line,
                        },
                        row_id: row.id,
                    },
                ),
                Decision::Unresolved => resolve::retry_write(model, row) is None,
            }
        },
{
    incoming_calls_keep_their_source(file_id, incoming, i)
}

/// The records of two lists of incoming calls are those of the first, then
/// those of the second; a single call out of another file has one record, and
/// one out of the file itself, or out of none, has none.
pub proof fn records_follow_the_calls(
    file_id: i64,
    incoming: Seq<IncomingCall>,
    more: Seq<IncomingCall>,
    one: IncomingCall,
)
    ensures
        graph_build::records_of(file_id, incoming + more) == graph_build::records_of(
            file_id,
            incoming,
        ) + graph_build::records_of(file_id, more),
        graph_build::records_of(file_id, seq![one]).len() == (if one.src_file is Some
            && one.src_file != Some(file_id) {
            1nat
        } else {
            0
        }),
{
    let keep = graph_build::from_elsewhere(file_id);
    seqs::lemma_filter_concat(incoming, more, keep);
    assert(graph_build::records_of(file_id, incoming + more) =~= graph_build::records_of(
        file_id,
        incoming,
    ) + graph_build::records_of(file_id, more));
    reveal(Seq::filter);
    assert(seq![one].drop_last() =~= Seq::<IncomingCall>::empty());
    assert(seq![one].last() == one);
    assert(Seq::<IncomingCall>::empty().filter(keep).len() == 0);
}

} // verus!
