//! What the tiers of call resolution promise.
use vstd::prelude::*;

use crate::resolve;
use crate::seqs;
use crate::resolve::{
    CallEdge, Candidate, Decision, FileCalls, IndexModel, PendingCall, StoreWrite, SymbolDef, SymbolKind,
    Tier, UnresolvedRow, WriteView,
};

verus! {

/// Whether the tables hold a callable definition of `name` with symbol id
/// `id` in file `file`.
pub open spec fn defines(model: IndexModel, name: Seq<char>, file: i64, id: i64) -> bool {
    exists|i: int|
        0 <= i < model.defs.len() && is_definition(#[trigger] model.defs[i], name, file, id)
}

pub open spec fn is_definition(d: SymbolDef, name: Seq<char>, file: i64, id: i64) -> bool {
    &&& d.kind is Function || d.kind is Method || d.kind is Class || d.kind is Struct
    &&& d.name@ == name
    &&& d.file_id == file
    &&& d.symbol_id == id
}

/// Whether file `file` has a callable definition of `name`.
pub open spec fn defined_in(model: IndexModel, name: Seq<char>, file: i64) -> bool {
    exists|id: i64| defines(model, name, file, id)
}

proof fn lemma_best_exists(cands: Seq<Candidate>) -> (at: int)
    requires
        cands.len() > 0,
    ensures
        0 <= at < cands.len(),
        forall|j: int|
            0 <= j < cands.len() ==> resolve::preferred(cands[at], #[trigger] cands[j]),
    decreases cands.len(),
{
    if cands.len() == 1 {
        0
    } else {
        let before = cands.drop_last();
        let at = lemma_best_exists(before);
        let last = cands.len() - 1;
        assert forall|j: int| 0 <= j < last implies resolve::preferred(
            cands[at],
            #[trigger] cands[j],
        ) by {
            assert(resolve::preferred(before[at], before[j]));
        }
        if resolve::preferred(cands[at], cands[last]) {
            at
        } else {
            assert forall|j: int| 0 <= j < cands.len() implies resolve::preferred(
                cands[last],
                #[trigger] cands[j],
            ) by {
                if j < last {
                    assert(resolve::preferred(before[at], before[j]));
                }
            }
            last
        }
    }
}

/// Among candidates there is always a best one, preferred to all others, and
/// the order in which they are listed does not change which it is.
pub proof fn best_ignores_order(cands: Seq<Candidate>, other: Seq<Candidate>)
    requires
        cands.len() > 0,
        cands.to_multiset() == other.to_multiset(),
    ensures
        resolve::is_best(cands, resolve::best_id(cands)),
        resolve::is_best(other, resolve::best_id(cands)),
        resolve::best_id(other) == resolve::best_id(cands),
{
    let at = lemma_best_exists(cands);
    let best = cands[at];
    assert(resolve::is_best(cands, best.symbol_id));
    resolve::lemma_best_unique(cands, best.symbol_id);
    vstd::seq_lib::to_multiset_contains(cands, best);
    vstd::seq_lib::to_multiset_contains(other, best);
    assert(cands.contains(best));
    let k = choose|k: int| 0 <= k < other.len() && other[k] == best;
    assert forall|j: int| 0 <= j < other.len() implies resolve::preferred(
        other[k],
        #[trigger] other[j],
    ) by {
        vstd::seq_lib::to_multiset_contains(cands, other[j]);
        vstd::seq_lib::to_multiset_contains(other, other[j]);
        assert(other.contains(other[j]));
        let i = choose|i: int| 0 <= i < cands.len() && cands[i] == other[j];
        assert(resolve::preferred(cands[at], cands[i]));
    }
    assert(other[k].symbol_id == best.symbol_id);
    assert(resolve::is_best(other, best.symbol_id));
    resolve::lemma_best_unique(other, best.symbol_id);
}

proof fn lemma_best_is_member(cands: Seq<Candidate>) -> (at: int)
    requires
        cands.len() > 0,
    ensures
        0 <= at < cands.len(),
        cands[at].symbol_id == resolve::best_id(cands),
{
    let at = lemma_best_exists(cands);
    assert(resolve::is_best(cands, cands[at].symbol_id));
    let id = resolve::best_id(cands);
    assert(resolve::is_best(cands, id));
    choose|i: int|
        #![trigger cands[i]]
        0 <= i < cands.len() && cands[i].symbol_id == id
}

/// The candidates of a name are exactly its callable definitions.
proof fn lemma_candidates(model: IndexModel, name: Seq<char>)
    ensures
        ({
            let cands = resolve::callable_named(model.defs, name);
            &&& forall|i: int|
                0 <= i < cands.len() ==> defines(
                    model,
                    name,
                    (#[trigger] cands[i]).file_id,
                    cands[i].symbol_id,
                )
            &&& forall|file: i64, id: i64|
                defines(model, name, file, id) ==> exists|i: int|
                    0 <= i < cands.len() && (#[trigger] cands[i]).file_id == file
                        && cands[i].symbol_id == id
        }),
{
    let keep = resolve::defining(name);
    let kept = model.defs.filter(keep);
    let cands = resolve::callable_named(model.defs, name);
    seqs::lemma_filter(model.defs, keep);
    assert forall|i: int| 0 <= i < cands.len() implies defines(
        model,
        name,
        (#[trigger] cands[i]).file_id,
        cands[i].symbol_id,
    ) by {
        assert(keep(kept[i]));
        assert(model.defs.contains(kept[i]));
        let k = choose|k: int| 0 <= k < model.defs.len() && model.defs[k] == kept[i];
        assert(is_definition(model.defs[k], name, cands[i].file_id, cands[i].symbol_id));
    }
    assert forall|file: i64, id: i64| defines(model, name, file, id) implies exists|i: int|
        0 <= i < cands.len() && (#[trigger] cands[i]).file_id == file && cands[i].symbol_id
            == id by {
        let k = choose|k: int|
            0 <= k < model.defs.len() && is_definition(#[trigger] model.defs[k], name, file, id);
        assert(keep(model.defs[k]));
        assert(kept.contains(model.defs[k]));
        let i = choose|i: int| 0 <= i < kept.len() && kept[i] == model.defs[k];
        assert(cands[i].file_id == file);
    }
}

/// A callee that the caller's own file defines resolves exactly, to a
/// definition in that file.
pub proof fn own_file_is_exact(model: IndexModel, caller: i64, name: Seq<char>)
    requires
        defined_in(model, name, caller),
    ensures
        model.decide(caller, name) matches Decision::Exact(id) && defines(model, name, caller, id),
{
    let cands = resolve::callable_named(model.defs, name);
    let keep = |c: Candidate| c.file_id == caller;
    let own = resolve::in_file(cands, caller);
    lemma_candidates(model, name);
    seqs::lemma_filter(cands, keep);
    let id = choose|id: i64| defines(model, name, caller, id);
    let i = choose|i: int|
        0 <= i < cands.len() && (#[trigger] cands[i]).file_id == caller && cands[i].symbol_id == id;
    assert(keep(cands[i]));
    assert(own.contains(cands[i]));
    let at = lemma_best_is_member(own);
    assert(keep(own[at]));
    assert(cands.contains(own[at]));
    let k = choose|k: int| 0 <= k < cands.len() && cands[k] == own[at];
    assert(defines(model, name, cands[k].file_id, cands[k].symbol_id));
}

/// A callee that the caller's own file does not define, but exactly one of
/// the files it imports does, resolves exactly, to a definition in that file.
pub proof fn one_import_is_exact(model: IndexModel, caller: i64, name: Seq<char>, file: i64)
    requires
        !defined_in(model, name, caller),
        model.imports.contains((caller, file)),
        defined_in(model, name, file),
        forall|other: i64|
            model.imports.contains((caller, other)) && #[trigger] defined_in(model, name, other)
                ==> other == file,
    ensures
        model.decide(caller, name) matches Decision::Exact(id) && defines(model, name, file, id),
{
    let cands = resolve::callable_named(model.defs, name);
    let keep = |c: Candidate| model.imports.contains((caller, c.file_id));
    let imported = resolve::in_imports(cands, model.imports, caller);
    lemma_candidates(model, name);
    lemma_no_own(model, caller, name);
    seqs::lemma_filter(cands, keep);
    let id = choose|id: i64| defines(model, name, file, id);
    let i = choose|i: int|
        0 <= i < cands.len() && (#[trigger] cands[i]).file_id == file && cands[i].symbol_id == id;
    assert(keep(cands[i]));
    assert(imported.contains(cands[i]));
    assert forall|j: int| 0 <= j < imported.len() implies (#[trigger] imported[j]).file_id
        == file by {
        assert(keep(imported[j]));
        assert(cands.contains(imported[j]));
        let k = choose|k: int| 0 <= k < cands.len() && cands[k] == imported[j];
        assert(defines(model, name, cands[k].file_id, cands[k].symbol_id));
        assert(defined_in(model, name, imported[j].file_id));
    }
    let at = lemma_best_is_member(imported);
    assert(cands.contains(imported[at]));
    let k = choose|k: int| 0 <= k < cands.len() && cands[k] == imported[at];
    assert(defines(model, name, cands[k].file_id, cands[k].symbol_id));
}

proof fn lemma_no_own(model: IndexModel, caller: i64, name: Seq<char>)
    requires
        !defined_in(model, name, caller),
    ensures
        resolve::in_file(resolve::callable_named(model.defs, name), caller).len() == 0,
{
    let cands = resolve::callable_named(model.defs, name);
    let keep = |c: Candidate| c.file_id == caller;
    let own = resolve::in_file(cands, caller);
    lemma_candidates(model, name);
    seqs::lemma_filter(cands, keep);
    if own.len() > 0 {
        assert(keep(own[0]));
        assert(cands.contains(own[0]));
        let k = choose|k: int| 0 <= k < cands.len() && cands[k] == own[0];
        assert(defines(model, name, cands[k].file_id, cands[k].symbol_id));
    }
}

/// A callee that two of the imported files define, and the caller's own file
/// does not, is ambiguous and stays unresolved.
pub proof fn ambiguous_imports_stay_unresolved(
    model: IndexModel,
    caller: i64,
    name: Seq<char>,
    one: i64,
    other: i64,
)
    requires
        !defined_in(model, name, caller),
        one != other,
        model.imports.contains((caller, one)),
        model.imports.contains((caller, other)),
        defined_in(model, name, one),
        defined_in(model, name, other),
    ensures
        model.decide(caller, name) == Decision::Unresolved,
{
    let cands = resolve::callable_named(model.defs, name);
    let keep = |c: Candidate| model.imports.contains((caller, c.file_id));
    let imported = resolve::in_imports(cands, model.imports, caller);
    lemma_candidates(model, name);
    lemma_no_own(model, caller, name);
    seqs::lemma_filter(cands, keep);
    let id1 = choose|id: i64| defines(model, name, one, id);
    let i1 = choose|i: int|
        0 <= i < cands.len() && (#[trigger] cands[i]).file_id == one && cands[i].symbol_id == id1;
    let id2 = choose|id: i64| defines(model, name, other, id);
    let i2 = choose|i: int|
        0 <= i < cands.len() && (#[trigger] cands[i]).file_id == other && cands[i].symbol_id == id2;
    assert(keep(cands[i1]) && keep(cands[i2]));
    assert(imported.contains(cands[i1]));
    assert(imported.contains(cands[i2]));
    let k1 = choose|k: int| 0 <= k < imported.len() && imported[k] == cands[i1];
    let k2 = choose|k: int| 0 <= k < imported.len() && imported[k] == cands[i2];
    assert(imported[k1].file_id != imported[k2].file_id);
}

proof fn lemma_no_imported(model: IndexModel, caller: i64, name: Seq<char>)
    requires
        forall|f: i64|
            model.imports.contains((caller, f)) ==> !#[trigger] defined_in(model, name, f),
    ensures
        resolve::in_imports(
            resolve::callable_named(model.defs, name),
            model.imports,
            caller,
        ).len() == 0,
{
    let cands = resolve::callable_named(model.defs, name);
    let keep = |c: Candidate| model.imports.contains((caller, c.file_id));
    let imported = resolve::in_imports(cands, model.imports, caller);
    lemma_candidates(model, name);
    seqs::lemma_filter(cands, keep);
    if imported.len() > 0 {
        assert(keep(imported[0]));
        assert(cands.contains(imported[0]));
        let k = choose|k: int| 0 <= k < cands.len() && cands[k] == imported[0];
        assert(defines(model, name, cands[k].file_id, cands[k].symbol_id));
        assert(defined_in(model, name, imported[0].file_id));
    }
}

/// A callee that neither the caller's file nor its imports define, and
/// exactly one other file of the repository does, resolves as probable.
pub proof fn unique_name_is_probable(model: IndexModel, caller: i64, name: Seq<char>, file: i64)
    requires
        !defined_in(model, name, caller),
        forall|f: i64|
            model.imports.contains((caller, f)) ==> !#[trigger] defined_in(model, name, f),
        defined_in(model, name, file),
        forall|f: i64| #[trigger] defined_in(model, name, f) ==> f == file,
    ensures
        model.decide(caller, name) matches Decision::Probable(id) && defines(model, name, file, id),
{
    let cands = resolve::callable_named(model.defs, name);
    lemma_candidates(model, name);
    lemma_no_own(model, caller, name);
    lemma_no_imported(model, caller, name);
    let id = choose|id: i64| defines(model, name, file, id);
    let i = choose|i: int|
        0 <= i < cands.len() && (#[trigger] cands[i]).file_id == file && cands[i].symbol_id == id;
    assert(0 <= i < cands.len());
    assert forall|j: int| 0 <= j < cands.len() implies (#[trigger] cands[j]).file_id == file by {
        assert(defines(model, name, cands[j].file_id, cands[j].symbol_id));
        assert(defined_in(model, name, cands[j].file_id));
    }
    let at = lemma_best_is_member(cands);
    assert(defines(model, name, cands[at].file_id, cands[at].symbol_id));
}

/// A callee that neither the caller's file nor its imports define stays
/// unresolved when no file, or more than one, defines it.
pub proof fn otherwise_unresolved(model: IndexModel, caller: i64, name: Seq<char>)
    requires
        !defined_in(model, name, caller),
        forall|f: i64|
            model.imports.contains((caller, f)) ==> !#[trigger] defined_in(model, name, f),
        !exists|file: i64|
            defined_in(model, name, file) && forall|f: i64| #[trigger]
                defined_in(model, name, f) ==> f == file,
    ensures
        model.decide(caller, name) == Decision::Unresolved,
{
    let cands = resolve::callable_named(model.defs, name);
    lemma_candidates(model, name);
    lemma_no_own(model, caller, name);
    lemma_no_imported(model, caller, name);
    if cands.len() > 0 && resolve::one_file(cands) {
        let file = cands[0].file_id;
        assert(defines(model, name, cands[0].file_id, cands[0].symbol_id));
        assert(defined_in(model, name, file));
        assert forall|f: i64| #[trigger] defined_in(model, name, f) implies f == file by {
            let id = choose|id: i64| defines(model, name, f, id);
            let i = choose|i: int|
                0 <= i < cands.len() && (#[trigger] cands[i]).file_id == f && cands[i].symbol_id
                    == id;
            assert(cands[i].file_id == cands[0].file_id);
        }
    }
}

/// How many calls the files hold together.
pub open spec fn call_count(pending: Seq<FileCalls>) -> nat
    decreases pending.len(),
{
    if pending.len() == 0 {
        0
    } else {
        call_count(pending.drop_last()) + pending.last().calls@.len()
    }
}

/// A call never fans out: resolution makes exactly one write per call.
pub proof fn one_write_per_call(model: IndexModel, pending: Seq<FileCalls>)
    ensures
        resolve::all_writes(model, pending).len() == call_count(pending),
    decreases pending.len(),
{
    if pending.len() > 0 {
        one_write_per_call(model, pending.drop_last());
    }
}

/// The rows that a retry leaves in place.
pub open spec fn kept_rows(model: IndexModel, rows: Seq<UnresolvedRow>) -> Seq<UnresolvedRow> {
    rows.filter(|r: UnresolvedRow| resolve::retry_write(model, r) is None)
}

proof fn lemma_none_resolve(model: IndexModel, rows: Seq<UnresolvedRow>)
    requires
        forall|i: int|
            0 <= i < rows.len() ==> resolve::retry_write(model, #[trigger] rows[i]) is None,
    ensures
        resolve::retry_writes(model, rows).len() == 0,
    decreases rows.len(),
{
    if rows.len() > 0 {
        let before = rows.drop_last();
        assert forall|i: int| 0 <= i < before.len() implies resolve::retry_write(
            model,
            #[trigger] before[i],
        ) is None by {
            assert(before[i] == rows[i]);
        }
        lemma_none_resolve(model, before);
    }
}

/// Retrying settles: a second retry over the rows that stayed, against the
/// same tables, changes nothing.
pub proof fn retry_settles(model: IndexModel, rows: Seq<UnresolvedRow>)
    ensures
        resolve::retry_writes(model, kept_rows(model, rows)).len() == 0,
{
    seqs::lemma_filter(rows, |r: UnresolvedRow| resolve::retry_write(model, r) is None);
    lemma_none_resolve(model, kept_rows(model, rows));
}

/// A call that was put back on record links again, by the same edge, whenever
/// the tables resolve it as before.
pub proof fn recorded_calls_relink(
    model: IndexModel,
    file_id: i64,
    call: PendingCall,
    edge: resolve::CallEdge,
    row: UnresolvedRow,
)
    requires
        resolve::call_write(model, file_id, call) == WriteView::Edge(edge),
        row.file_id == file_id,
        row.name@ == call.callee_name@,
        row.enclosing == edge.src_id,
        row.site_line == edge.site_line,
    ensures
        resolve::retry_write(model, row) == Some(WriteView::Relink { edge, row_id: row.id }),
{
}

// ---- which definition is meant ----

/// Whether a definition of kind `a` goes before one of kind `b` in the same
/// place: functions, then methods, then classes, then structs.
pub open spec fn kind_goes_first(a: SymbolKind, b: SymbolKind) -> bool {
    match a {
        SymbolKind::Function => !(b is Function),
        SymbolKind::Method => b is Class || b is Struct || b is Other,
        SymbolKind::Class => b is Struct || b is Other,
        SymbolKind::Struct => b is Other,
        SymbolKind::Other => false,
    }
}

/// Whether definition `d` goes before `e` in the same place: by kind, then by
/// line, then by id.
pub open spec fn goes_first(d: SymbolDef, e: SymbolDef) -> bool {
    ||| kind_goes_first(d.kind, e.kind)
    ||| d.kind == e.kind && d.start_line < e.start_line
    ||| d.kind == e.kind && d.start_line == e.start_line && d.symbol_id < e.symbol_id
}

/// One candidate is preferred to another, or as good, exactly when that one
/// does not go before it by kind, by line and by id.
pub proof fn preference_goes_by_kind_line_and_id(a: Candidate, b: Candidate)
    ensures
        resolve::preferred(a, b) <==> !{
            ||| kind_goes_first(b.kind, a.kind)
            ||| a.kind == b.kind && b.start_line < a.start_line
            ||| a.kind == b.kind && b.start_line == a.start_line && b.symbol_id < a.symbol_id
        },
        resolve::is_callable(a.kind) <==> !(a.kind is Other),
{
}

/// The row of the table that a candidate describes.
proof fn lemma_candidate_row(model: IndexModel, name: Seq<char>, i: int) -> (k: int)
    requires
        0 <= i < resolve::callable_named(model.defs, name).len(),
    ensures
        0 <= k < model.defs.len(),
        resolve::callable_named(model.defs, name)[i] == resolve::candidate_of(model.defs[k]),
        is_definition(model.defs[k], name, model.defs[k].file_id, model.defs[k].symbol_id),
{
    let keep = resolve::defining(name);
    let kept = model.defs.filter(keep);
    seqs::lemma_filter(model.defs, keep);
    assert(keep(kept[i]) && model.defs.contains(kept[i]));
    let k = choose|k: int| 0 <= k < model.defs.len() && model.defs[k] == kept[i];
    assert(!(model.defs[k].kind is Other));
    k
}

proof fn lemma_row_is_candidate(model: IndexModel, name: Seq<char>, k: int)
    requires
        0 <= k < model.defs.len(),
        is_definition(model.defs[k], name, model.defs[k].file_id, model.defs[k].symbol_id),
    ensures
        resolve::callable_named(model.defs, name).contains(resolve::candidate_of(model.defs[k])),
{
    let keep = resolve::defining(name);
    let kept = model.defs.filter(keep);
    let cands = resolve::callable_named(model.defs, name);
    seqs::lemma_filter(model.defs, keep);
    assert(keep(model.defs[k]));
    assert(kept.contains(model.defs[k]));
    let i = choose|i: int| 0 <= i < kept.len() && kept[i] == model.defs[k];
    assert(cands[i] == resolve::candidate_of(model.defs[k]));
}

/// Among candidates that all are rows of the table, the best one goes behind
/// none of them.
proof fn lemma_best_row(
    model: IndexModel,
    name: Seq<char>,
    some: Seq<Candidate>,
    k: int,
) -> (m: int)
    requires
        0 <= k < model.defs.len(),
        some.contains(resolve::candidate_of(model.defs[k])),
        forall|i: int|
            0 <= i < some.len() ==> resolve::callable_named(model.defs, name).contains(
                #[trigger] some[i],
            ),
    ensures
        0 <= m < model.defs.len(),
        is_definition(
            model.defs[m],
            name,
            model.defs[m].file_id,
            resolve::best_id(some),
        ),
        some.contains(resolve::candidate_of(model.defs[m])),
        !goes_first(model.defs[k], model.defs[m]),
{
    let cands = resolve::callable_named(model.defs, name);
    let at = lemma_best_exists(some);
    assert(resolve::is_best(some, some[at].symbol_id));
    resolve::lemma_best_unique(some, some[at].symbol_id);
    assert(cands.contains(some[at]));
    let i = choose|i: int| 0 <= i < cands.len() && cands[i] == some[at];
    let m = lemma_candidate_row(model, name, i);
    let j = choose|j: int|
        0 <= j < some.len() && some[j] == resolve::candidate_of(model.defs[k]);
    assert(resolve::preferred(some[at], some[j]));
    assert(some.contains(some[at]));
    m
}

/// Where several definitions in one place could be meant, the one that is goes
/// behind no other: in the caller's own file, in the one imported file, and in
/// the one file that defines the name at all.
pub proof fn the_first_definition_is_meant(model: IndexModel, caller: i64, name: Seq<char>, k: int)
    requires
        0 <= k < model.defs.len(),
        is_definition(model.defs[k], name, model.defs[k].file_id, model.defs[k].symbol_id),
    ensures
        model.defs[k].file_id == caller ==> {
            &&& model.decide(caller, name) matches Decision::Exact(id)
            &&& exists|m: int|
                0 <= m < model.defs.len() && is_definition(
                    #[trigger] model.defs[m],
                    name,
                    caller,
                    id,
                ) && !goes_first(model.defs[k], model.defs[m])
        },
        !defined_in(model, name, caller) && model.imports.contains(
            (caller, model.defs[k].file_id),
        ) ==> (model.decide(caller, name) matches Decision::Exact(id) ==> exists|m: int|
            0 <= m < model.defs.len() && is_definition(
                #[trigger] model.defs[m],
                name,
                model.defs[k].file_id,
                id,
            ) && !goes_first(model.defs[k], model.defs[m])),
        model.decide(caller, name) matches Decision::Probable(id) ==> exists|m: int|
            0 <= m < model.defs.len() && is_definition(
                #[trigger] model.defs[m],
                name,
                model.defs[k].file_id,
                id,
            ) && !goes_first(model.defs[k], model.defs[m]),
{
    let cands = resolve::callable_named(model.defs, name);
    let here = |c: Candidate| c.file_id == caller;
    let there = |c: Candidate| model.imports.contains((caller, c.file_id));
    let own = resolve::in_file(cands, caller);
    let imported = resolve::in_imports(cands, model.imports, caller);
    let c = resolve::candidate_of(model.defs[k]);
    lemma_row_is_candidate(model, name, k);
    seqs::lemma_filter_members(cands, here);
    seqs::lemma_filter_members(cands, there);
    assert forall|i: int| 0 <= i < own.len() implies cands.contains(#[trigger] own[i])
        && own[i].file_id == caller by {
        assert(own.contains(own[i]));
    }
    assert forall|i: int| 0 <= i < imported.len() implies cands.contains(
        #[trigger] imported[i],
    ) by {
        assert(imported.contains(imported[i]));
    }
    if model.defs[k].file_id == caller {
        assert(own.contains(c));
        let m = lemma_best_row(model, name, own, k);
        let x = choose|x: int|
            0 <= x < own.len() && own[x] == resolve::candidate_of(model.defs[m]);
        assert(is_definition(model.defs[m], name, caller, resolve::best_id(own)));
    }
    if !defined_in(model, name, caller) && model.imports.contains(
        (caller, model.defs[k].file_id),
    ) && model.decide(caller, name) is Exact {
        lemma_no_own(model, caller, name);
        assert(imported.contains(c));
        let m = lemma_best_row(model, name, imported, k);
        let x = choose|x: int| 0 <= x < imported.len() && imported[x] == c;
        let y = choose|y: int|
            0 <= y < imported.len() && imported[y] == resolve::candidate_of(model.defs[m]);
        assert(imported[x].file_id == imported[y].file_id);
        assert(is_definition(
            model.defs[m],
            name,
            model.defs[k].file_id,
            resolve::best_id(imported),
        ));
    }
    if model.decide(caller, name) is Probable {
        let m = lemma_best_row(model, name, cands, k);
        let x = choose|x: int| 0 <= x < cands.len() && cands[x] == c;
        let y = choose|y: int|
            0 <= y < cands.len() && cands[y] == resolve::candidate_of(model.defs[m]);
        assert(cands[x].file_id == cands[y].file_id);
        assert(is_definition(model.defs[m], name, model.defs[k].file_id, resolve::best_id(cands)));
    }
}

/// One file imports another exactly when the table has a row that says so.
pub proof fn imports_are_the_rows(imports: Seq<(i64, i64)>, file: i64, other: i64)
    ensures
        resolve::import_set(imports).contains((file, other)) <==> exists|i: int|
            0 <= i < imports.len() && #[trigger] imports[i] == (file, other),
{
}

// ---- what is written ----

/// A write is told by its own fields, place by place.
pub proof fn writes_tell_their_fields(writes: Seq<StoreWrite>, i: int)
    requires
        0 <= i < writes.len(),
    ensures
        resolve::write_views(writes).len() == writes.len(),
        writes[i] matches StoreWrite::Edge(e) ==> resolve::write_views(writes)[i]
            == WriteView::Edge(e),
        writes[i] matches StoreWrite::Unresolved { file_id, name, enclosing_symbol_id, site_line }
            ==> resolve::write_views(writes)[i] == (WriteView::Unresolved {
            file_id,
            name: name@,
            enclosing_symbol_id,
            site_line,
        }),
        writes[i] matches StoreWrite::Relink { edge, row_id } ==> resolve::write_views(writes)[i]
            == (WriteView::Relink { edge, row_id }),
{
}

/// Each call has its write, in the order of files and calls. A call outside any
/// symbol, or one that nothing resolves, is put on record under its file; any
/// other becomes an edge from the symbol around it, at its line, to what the
/// tables resolve it to, and as sure as they are.
pub proof fn each_call_has_its_write(model: IndexModel, pending: Seq<FileCalls>, i: int, j: int)
    requires
        0 <= i < pending.len(),
        0 <= j < pending[i].calls@.len(),
    ensures
        ({
            let at = call_count(pending.take(i)) + j;
            let w = resolve::all_writes(model, pending)[at];
            let call = pending[i].calls@[j];
            let file = pending[i].file_id;
            let kept = WriteView::Unresolved {
                file_id: file,
                name: call.callee_name@,
                enclosing_symbol_id: call.enclosing_symbol_id,
                site_line: call.site_line,
            };
            &&& at < resolve::all_writes(model, pending).len()
            &&& call.enclosing_symbol_id is None ==> w == kept
            &&& call.enclosing_symbol_id matches Some(src_id) ==> match model.decide(
                file,
                call.callee_name@,
            ) {
                Decision::Exact(dst_id) => w == WriteView::Edge(
                    CallEdge { src_id, dst_id, tier: Tier::Exact, site_line: call.site_line },
                ),
                Decision::Probable(dst_id) => w == WriteView::Edge(
                    CallEdge { src_id, dst_id, tier: Tier::Probable, site_line: call.site_line },
                ),
                Decision::Unresolved => w == kept,
            }
        }),
    decreases pending.len(),
{
    let rest = pending.drop_last();
    one_write_per_call(model, pending);
    one_write_per_call(model, rest);
    if i < pending.len() - 1 {
        assert(rest.take(i) =~= pending.take(i));
        each_call_has_its_write(model, rest, i, j);
    } else {
        assert(pending.take(i) =~= rest);
    }
}

/// A retry goes through the rows in order. A row whose call resolves now
/// becomes an edge from its symbol, at its line, and is deleted; any other is
/// left alone.
pub proof fn each_row_is_retried(
    model: IndexModel,
    rows: Seq<UnresolvedRow>,
    more: Seq<UnresolvedRow>,
    row: UnresolvedRow,
)
    ensures
        resolve::retry_writes(model, rows + more) == resolve::retry_writes(model, rows)
            + resolve::retry_writes(model, more),
        match model.decide(row.file_id, row.name@) {
            Decision::Exact(dst_id) => resolve::retry_writes(model, seq![row]) == seq![
                WriteView::Relink {
                    edge: CallEdge {
                        src_id: row.enclosing,
                        dst_id,
                        tier: Tier::Exact,
                        site_line: row.site_line,
                    },
                    row_id: row.id,
                },
            ],
            Decision::Probable(dst_id) => resolve::retry_writes(model, seq![row]) == seq![
                WriteView::Relink {
                    edge: CallEdge {
                        src_id: row.enclosing,
                        dst_id,
                        tier: Tier::Probable,
                        site_line: row.site_line,
                    },
                    row_id: row.id,
                },
            ],
            Decision::Unresolved => resolve::retry_writes(model, seq![row]).len() == 0,
        },
    decreases more.len(),
{
    let none = Seq::<UnresolvedRow>::empty();
    assert(resolve::retry_writes(model, none) =~= Seq::<WriteView>::empty());
    assert(seq![row].drop_last() =~= none);
    assert(seq![row].last() == row);
    if more.len() == 0 {
        assert(rows + more =~= rows);
        assert(resolve::retry_writes(model, rows) + resolve::retry_writes(model, more)
            =~= resolve::retry_writes(model, rows));
    } else {
        each_row_is_retried(model, rows, more.drop_last(), row);
        assert((rows + more).drop_last() =~= rows + more.drop_last());
        assert((rows + more).last() == more.last());
        assert(resolve::retry_writes(model, rows + more) =~= resolve::retry_writes(model, rows)
            + resolve::retry_writes(model, more));
    }
}

/// Whether a write makes an edge of the given tier.
pub open spec fn makes_edge(tier: Tier) -> spec_fn(WriteView) -> bool {
    |w: WriteView|
        {
            ||| w matches WriteView::Edge(e) && e.tier == tier
            ||| w matches WriteView::Relink { edge, row_id } && edge.tier == tier
        }
}

/// The statistics count each write that makes an edge once, under its tier, and
/// every other call as unresolved.
pub proof fn statistics_count_the_writes(
    stats: resolve::ResolveStats,
    writes: Seq<WriteView>,
    calls: nat,
)
    requires
        resolve::counts(stats, writes, calls),
    ensures
        stats.exact == writes.filter(makes_edge(Tier::Exact)).len(),
        stats.probable == writes.filter(makes_edge(Tier::Probable)).len(),
        stats.unresolved == calls - stats.exact - stats.probable,
{
    lemma_linked(writes, Tier::Exact);
    lemma_linked(writes, Tier::Probable);
}

proof fn lemma_linked(writes: Seq<WriteView>, tier: Tier)
    ensures
        resolve::linked(writes, tier) == writes.filter(makes_edge(tier)).len(),
    decreases writes.len(),
{
    reveal(Seq::filter);
    if writes.len() > 0 {
        lemma_linked(writes.drop_last(), tier);
    }
}

} // verus!
