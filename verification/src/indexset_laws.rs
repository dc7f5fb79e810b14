//! What the layers of an index promise together: nothing indexed is missed,
//! and nothing stale is proposed.
use vstd::prelude::*;

use crate::delta::{DeltaState, StateView};
use crate::indexset;
use crate::indexset::{DiffEntry, DirtyFile, IndexView, MatchLine, Sidecar};
use crate::ingest;
use crate::ingest::FileGrams;
use crate::ingest_laws;
use crate::overlay::OverlayView;
use crate::posting;
use crate::posting::GramQuery;
use crate::shard_format;
use crate::shard_format::ShardView;
use crate::seqs;
use crate::shard_laws;

verus! {

// ---- completeness of a shard ----

/// The view of the shard that is built over `files`.
pub open spec fn built_view(
    files: Seq<FileGrams>,
    extractor_id: Seq<char>,
    commit_oid: Seq<char>,
) -> ShardView {
    shard_format::read_shard(
        shard_format::shard_bytes(ingest::shard_of(files, extractor_id, commit_oid)),
    )->Ok_0
}

/// Whether one of `files` lies at `path` and satisfies `query`.
pub open spec fn some_file_satisfies(
    files: Seq<FileGrams>,
    query: GramQuery,
    path: Seq<char>,
) -> bool {
    exists|f: FileGrams| #[trigger]
        files.contains(f) && f.path@ == path && posting::holds(
            query,
            posting::members(f.hashes@),
        )
}

/// A shard proposes exactly the files whose grams satisfy the query and that
/// lie outside the index's own directory: none is missed, and none is proposed
/// beyond them.
pub proof fn shard_proposes_what_it_indexed(
    files: Seq<FileGrams>,
    extractor_id: Seq<char>,
    commit_oid: Seq<char>,
    query: GramQuery,
    path: Seq<char>,
)
    requires
        files.len() <= u32::MAX,
        shard_laws::storable(ingest::shard_of(files, extractor_id, commit_oid)),
    ensures
        indexset::proposes(built_view(files, extractor_id, commit_oid), query, path)
            <==> !ingest::internal(path) && some_file_satisfies(files, query, path),
{
    let m = ingest::shard_of(files, extractor_id, commit_oid);
    let view = built_view(files, extractor_id, commit_oid);
    let s = ingest::indexed(files);
    ingest_laws::lemma_indexed(files);
    ingest_laws::lemma_registered(s, ingest::empty_shard(extractor_id, Some(commit_oid)));
    shard_laws::shard_round_trip(m);
    assert forall|id: u32| id < s.len() implies #[trigger] posting::listed(view, id)
        == posting::members(s[id as int].hashes@) by {
        let a = posting::listed(view, id);
        let b = posting::members(s[id as int].hashes@);
        assert forall|h: u64| #[trigger] a(h) == b(h) by {
            assert(view.lookup_ids(h) == shard_format::posted(m.postings, h));
        }
        assert(a =~= b);
    }
    if indexset::proposes(view, query, path) {
        let id = choose|id: u32|
            #![trigger posting::listed(view, id)]
            id < view.files.len() && view.files[id as int] == path && posting::holds(
                query,
                posting::listed(view, id),
            );
        let f = s[id as int];
        assert(m.files[id as int] == f.path@);
        assert(s.contains(f));
    }
    if !ingest::internal(path) && some_file_satisfies(files, query, path) {
        let f = choose|f: FileGrams| #[trigger]
            files.contains(f) && f.path@ == path && posting::holds(
                query,
                posting::members(f.hashes@),
            );
        assert(s.contains(f));
        let k = choose|k: int| 0 <= k < s.len() && s[k] == f;
        let id = k as u32;
        assert(m.files[k] == f.path@);
        assert(posting::listed(view, id) == posting::members(s[id as int].hashes@));
        assert(id < view.files.len() && view.files[id as int] == path);
    }
}

/// No indexed file is missed: a base file that satisfies the query and that
/// no fresher layer voids is a candidate.
pub proof fn indexed_files_are_candidates(
    files: Seq<FileGrams>,
    extractor_id: Seq<char>,
    commit_oid: Seq<char>,
    view: IndexView,
    query: GramQuery,
    f: FileGrams,
)
    requires
        files.len() <= u32::MAX,
        shard_laws::storable(ingest::shard_of(files, extractor_id, commit_oid)),
        view.base == built_view(files, extractor_id, commit_oid),
        files.contains(f),
        !ingest::internal(f.path@),
        posting::holds(query, posting::members(f.hashes@)),
        !view.delta_tombstones.contains(f.path@),
        !view.overlay.tombstones.contains(f.path@),
    ensures
        view.candidate(query, f.path@),
{
    shard_proposes_what_it_indexed(files, extractor_id, commit_oid, query, f.path@);
    assert(some_file_satisfies(files, query, f.path@));
}

/// No file of the delta is missed either: one that satisfies the query and
/// that the overlay does not void is a candidate.
pub proof fn delta_files_are_candidates(
    files: Seq<FileGrams>,
    extractor_id: Seq<char>,
    commit_oid: Seq<char>,
    view: IndexView,
    query: GramQuery,
    f: FileGrams,
)
    requires
        files.len() <= u32::MAX,
        shard_laws::storable(ingest::shard_of(files, extractor_id, commit_oid)),
        view.delta == Some(built_view(files, extractor_id, commit_oid)),
        files.contains(f),
        !ingest::internal(f.path@),
        posting::holds(query, posting::members(f.hashes@)),
        !view.overlay.tombstones.contains(f.path@),
    ensures
        view.candidate(query, f.path@),
{
    shard_proposes_what_it_indexed(files, extractor_id, commit_oid, query, f.path@);
    assert(some_file_satisfies(files, query, f.path@));
}

// ---- freshness ----

/// Every overlay file has its older entries voided.
pub open spec fn overlay_consistent(o: OverlayView) -> bool {
    o.files.dom().subset_of(o.tombstones)
}

/// The overlay stays consistent: the one that opening builds is, and every
/// refresh and removal keeps it so.
pub proof fn overlay_stays_consistent(
    dirty: Seq<DirtyFile>,
    o: OverlayView,
    path: Seq<char>,
    grams: Option<Seq<u64>>,
)
    ensures
        overlay_consistent(indexset::dirty_overlay(dirty)),
        overlay_consistent(o) ==> overlay_consistent(o.refreshed(path, grams)),
        overlay_consistent(o) ==> overlay_consistent(o.removed(path)),
    decreases dirty.len(),
{
    if dirty.len() > 0 {
        overlay_stays_consistent(dirty.drop_last(), o, path, grams);
        assert(overlay_consistent(indexset::dirty_overlay(dirty.drop_last())));
    }
}

/// A removed file is never a candidate, whatever the shards hold.
pub proof fn removed_files_are_gone(view: IndexView, path: Seq<char>, query: GramQuery)
    ensures
        !(IndexView { overlay: view.overlay.removed(path), ..view }).candidate(query, path),
{
}

/// A refreshed file is a candidate exactly when its new grams satisfy the
/// query: its entries in the shards no longer count.
pub proof fn refreshed_files_are_fresh(
    view: IndexView,
    path: Seq<char>,
    grams: Seq<u64>,
    query: GramQuery,
)
    ensures
        (IndexView { overlay: view.overlay.refreshed(path, Some(grams)), ..view }).candidate(
            query,
            path,
        ) <==> posting::holds(query, posting::members(grams)),
{
}

/// Refreshing or removing one file changes nothing for the others.
pub proof fn other_files_are_untouched(
    view: IndexView,
    path: Seq<char>,
    grams: Option<Seq<u64>>,
    other: Seq<char>,
    query: GramQuery,
)
    requires
        other != path,
    ensures
        (IndexView { overlay: view.overlay.refreshed(path, grams), ..view }).candidate(query, other)
            <==> view.candidate(query, other),
{
    let after = view.overlay.refreshed(path, grams);
    assert(after.files.contains_key(other) <==> view.overlay.files.contains_key(other));
    if view.overlay.files.contains_key(other) {
        assert(after.files[other] == view.overlay.files[other]);
    }
}

/// A stale entry never counts: a path that the overlay voids is judged the
/// same whatever base and delta hold, and a path that the delta supersedes is
/// judged the same whatever the base holds.
pub proof fn stale_entries_never_count(
    view: IndexView,
    older_base: ShardView,
    older_delta: Option<ShardView>,
    path: Seq<char>,
    query: GramQuery,
)
    ensures
        view.overlay.tombstones.contains(path) ==> (view.candidate(query, path) <==> (IndexView {
            base: older_base,
            delta: older_delta,
            ..view
        }).candidate(query, path)),
        view.delta_tombstones.contains(path) ==> (view.candidate(query, path) <==> (IndexView {
            base: older_base,
            ..view
        }).candidate(query, path)),
{
}

/// A file that changed between two commits is never judged by the base, and
/// unless it was deleted it is indexed anew.
pub proof fn changed_files_leave_the_base(
    diff: Seq<DiffEntry>,
    i: int,
    view: IndexView,
    query: GramQuery,
)
    requires
        0 <= i < diff.len(),
        !ingest::internal(diff[i].path@),
        view.delta_tombstones == indexset::picked(diff, indexset::is_superseded()).to_set(),
    ensures
        diff[i].status != 'A' ==> (view.candidate(query, diff[i].path@) ==> (view.delta is Some
            && indexset::proposes(view.delta->0, query, diff[i].path@))
            || view.overlay.files.contains_key(diff[i].path@)),
        diff[i].status != 'D' ==> indexset::picked(diff, indexset::is_changed()).contains(
            diff[i].path@,
        ),
{
    let d = diff[i];
    if d.status != 'A' {
        lemma_picked(diff, indexset::is_superseded(), i);
        assert(view.delta_tombstones.contains(d.path@));
    }
    if d.status != 'D' {
        lemma_picked(diff, indexset::is_changed(), i);
    }
}

proof fn lemma_picked(diff: Seq<DiffEntry>, keep: spec_fn(DiffEntry) -> bool, i: int)
    requires
        0 <= i < diff.len(),
        keep(diff[i]),
    ensures
        indexset::picked(diff, keep).contains(diff[i].path@),
{
    seqs::lemma_filter(diff, keep);
    let kept = diff.filter(keep);
    assert(kept.contains(diff[i]));
    let k = choose|k: int| 0 <= k < kept.len() && kept[k] == diff[i];
    assert(indexset::picked(diff, keep)[k] == diff[i].path@);
}

/// A path belongs among the files to index anew exactly when the diff lists it
/// outside the index's own directory with another status than a deletion, and
/// among the superseded ones exactly when it does so with another status than
/// an addition.
pub proof fn a_diff_sorts_its_paths(diff: Seq<DiffEntry>, path: Seq<char>)
    ensures
        indexset::picked(diff, indexset::is_changed()).contains(path) <==> exists|i: int|
            0 <= i < diff.len() && (#[trigger] diff[i]).path@ == path && diff[i].status != 'D'
                && !ingest::internal(path),
        indexset::picked(diff, indexset::is_superseded()).contains(path) <==> exists|i: int|
            0 <= i < diff.len() && (#[trigger] diff[i]).path@ == path && diff[i].status != 'A'
                && !ingest::internal(path),
{
    lemma_picked_iff(diff, indexset::is_changed(), path);
    lemma_picked_iff(diff, indexset::is_superseded(), path);
}

proof fn lemma_picked_iff(
    diff: Seq<DiffEntry>,
    keep: spec_fn(DiffEntry) -> bool,
    path: Seq<char>,
)
    ensures
        indexset::picked(diff, keep).contains(path) <==> exists|i: int|
            0 <= i < diff.len() && (#[trigger] diff[i]).path@ == path && keep(diff[i]),
{
    let kept = diff.filter(keep);
    let paths = indexset::picked(diff, keep);
    seqs::lemma_filter(diff, keep);
    if paths.contains(path) {
        let k = choose|k: int| 0 <= k < paths.len() && paths[k] == path;
        assert(keep(kept[k]) && diff.contains(kept[k]));
        let i = choose|i: int| 0 <= i < diff.len() && diff[i] == kept[k];
        assert(diff[i].path@ == path);
    }
    if exists|i: int| 0 <= i < diff.len() && (#[trigger] diff[i]).path@ == path && keep(diff[i]) {
        let i = choose|i: int|
            0 <= i < diff.len() && (#[trigger] diff[i]).path@ == path && keep(diff[i]);
        lemma_picked(diff, keep, i);
    }
}

/// The paths of a diff keep the order of its entries.
pub proof fn a_diff_keeps_its_order(diff: Seq<DiffEntry>, more: Seq<DiffEntry>)
    ensures
        indexset::picked(diff + more, indexset::is_changed()) == indexset::picked(
            diff,
            indexset::is_changed(),
        ) + indexset::picked(more, indexset::is_changed()),
        indexset::picked(diff + more, indexset::is_superseded()) == indexset::picked(
            diff,
            indexset::is_superseded(),
        ) + indexset::picked(more, indexset::is_superseded()),
{
    let all = diff + more;
    assert forall|keep: spec_fn(DiffEntry) -> bool| #[trigger] indexset::picked(all, keep)
        == indexset::picked(diff, keep) + indexset::picked(more, keep) by {
        seqs::lemma_filter_concat(diff, more, keep);
        assert(indexset::picked(all, keep) =~= indexset::picked(diff, keep) + indexset::picked(
            more,
            keep,
        ));
    }
}

// ---- dirty paths ----

/// Whether entry `i` is the last one of a dirty list about its path, and that
/// path may be indexed.
pub open spec fn settles(dirty: Seq<DirtyFile>, i: int) -> bool {
    &&& 0 <= i < dirty.len()
    &&& !ingest::internal(dirty[i].path@)
    &&& forall|j: int| i < j < dirty.len() ==> (#[trigger] dirty[j]).path@ != dirty[i].path@
}

/// The last entry about a path settles what the overlay holds of it. A status
/// with a deletion in it voids the path, whatever the other letter is; any
/// other status, an addition too, puts the path's grams into the overlay, or
/// voids it if there are none.
pub proof fn last_dirty_entry_settles(dirty: Seq<DirtyFile>, i: int)
    requires
        settles(dirty, i),
    ensures
        ({
            let o = indexset::dirty_overlay(dirty);
            let d = dirty[i];
            let deleted = exists|k: int| 0 <= k < d.xy@.len() && #[trigger] d.xy@[k] == 'D';
            &&& o.tombstones.contains(d.path@)
            &&& o.files.contains_key(d.path@) <==> !deleted && d.grams is Some
            &&& !deleted && d.grams is Some ==> o.files[d.path@] == d.grams->0@
        }),
    decreases dirty.len(),
{
    if i < dirty.len() - 1 {
        let rest = dirty.drop_last();
        assert(dirty[dirty.len() - 1].path@ != dirty[i].path@);
        assert forall|j: int| i < j < rest.len() implies (#[trigger] rest[j]).path@
            != rest[i].path@ by {
            assert(rest[j] == dirty[j]);
        }
        last_dirty_entry_settles(rest, i);
    }
}

/// What no entry names, and what lies in the index's own directory, is in the
/// overlay in no way.
pub proof fn unnamed_paths_stay_clean(dirty: Seq<DirtyFile>, path: Seq<char>)
    requires
        ingest::internal(path) || forall|j: int|
            0 <= j < dirty.len() ==> (#[trigger] dirty[j]).path@ != path,
    ensures
        !indexset::dirty_overlay(dirty).tombstones.contains(path),
        !indexset::dirty_overlay(dirty).files.contains_key(path),
    decreases dirty.len(),
{
    if dirty.len() > 0 {
        let rest = dirty.drop_last();
        if !ingest::internal(path) {
            assert(dirty[dirty.len() - 1].path@ != path);
            assert forall|j: int| 0 <= j < rest.len() implies (#[trigger] rest[j]).path@
                != path by {
                assert(rest[j] == dirty[j]);
            }
        }
        unnamed_paths_stay_clean(rest, path);
    }
}

/// A dirty file whose content can be searched, added, modified or untracked, is
/// a candidate exactly when that content satisfies the query. For one gram:
/// when the content holds it.
pub proof fn dirty_files_are_found(
    dirty: Seq<DirtyFile>,
    i: int,
    view: IndexView,
    query: GramQuery,
    h: u64,
)
    requires
        settles(dirty, i),
        view.overlay == indexset::dirty_overlay(dirty),
        forall|k: int| 0 <= k < dirty[i].xy@.len() ==> #[trigger] dirty[i].xy@[k] != 'D',
        dirty[i].grams is Some,
    ensures
        view.candidate(query, dirty[i].path@) <==> posting::holds(
            query,
            posting::members(dirty[i].grams->0@),
        ),
        view.candidate(GramQuery::Literal(h), dirty[i].path@) <==> dirty[i].grams->0@.contains(h),
        view.candidate(GramQuery::All, dirty[i].path@),
{
    last_dirty_entry_settles(dirty, i);
}

/// A dirty path that was deleted, or whose content cannot be searched, is a
/// candidate for nothing.
pub proof fn dirty_deletions_are_gone(
    dirty: Seq<DirtyFile>,
    i: int,
    view: IndexView,
    query: GramQuery,
)
    requires
        settles(dirty, i),
        view.overlay == indexset::dirty_overlay(dirty),
        dirty[i].grams is None || exists|k: int|
            0 <= k < dirty[i].xy@.len() && #[trigger] dirty[i].xy@[k] == 'D',
    ensures
        !view.candidate(query, dirty[i].path@),
{
    last_dirty_entry_settles(dirty, i);
}

/// A path without uncommitted changes is judged as if nothing were dirty.
pub proof fn clean_files_are_judged_by_the_shards(
    dirty: Seq<DirtyFile>,
    path: Seq<char>,
    view: IndexView,
    query: GramQuery,
)
    requires
        forall|j: int| 0 <= j < dirty.len() ==> (#[trigger] dirty[j]).path@ != path,
        view.overlay == indexset::dirty_overlay(dirty),
    ensures
        view.candidate(query, path) <==> {
            ||| indexset::proposes(view.base, query, path) && !view.delta_tombstones.contains(path)
            ||| view.delta matches Some(d) && indexset::proposes(d, query, path)
        },
{
    unnamed_paths_stay_clean(dirty, path);
}

/// A shard proposes a path exactly when it has a file there whose listed grams
/// satisfy the query: for one gram, when it lists the file for it, and for
/// everything, when it has a file there at all.
pub proof fn proposals_are_listed_files(
    view: ShardView,
    query: GramQuery,
    h: u64,
    path: Seq<char>,
)
    ensures
        indexset::proposes(view, query, path) <==> exists|id: u32|
            id < view.files.len() && #[trigger] view.files[id as int] == path && posting::holds(
                query,
                |g: u64| view.lookup_ids(g).contains(id),
            ),
        indexset::proposes(view, GramQuery::Literal(h), path) <==> exists|id: u32|
            id < view.files.len() && view.files[id as int] == path && #[trigger] view.lookup_ids(
                h,
            ).contains(id),
        view.files.len() <= u32::MAX ==> (indexset::proposes(view, GramQuery::All, path)
            <==> view.files.contains(path)),
{
    assert forall|id: u32| #[trigger] posting::listed(view, id) == (|g: u64|
        view.lookup_ids(g).contains(id)) by {
        assert(posting::listed(view, id) =~= (|g: u64| view.lookup_ids(g).contains(id)));
    }
    if exists|id: u32|
        id < view.files.len() && #[trigger] view.files[id as int] == path && posting::holds(
            query,
            |g: u64| view.lookup_ids(g).contains(id),
        ) {
        let id = choose|id: u32|
            id < view.files.len() && #[trigger] view.files[id as int] == path && posting::holds(
                query,
                |g: u64| view.lookup_ids(g).contains(id),
            );
        assert(posting::holds(query, posting::listed(view, id)));
    }
    let q = GramQuery::Literal(h);
    assert forall|id: u32| posting::holds(q, #[trigger] posting::listed(view, id))
        == view.lookup_ids(h).contains(id) by {}
    if exists|id: u32|
        id < view.files.len() && view.files[id as int] == path && #[trigger] view.lookup_ids(
            h,
        ).contains(id) {
        let id = choose|id: u32|
            id < view.files.len() && view.files[id as int] == path && #[trigger] view.lookup_ids(
                h,
            ).contains(id);
        assert(posting::holds(q, posting::listed(view, id)));
    }
    if view.files.len() <= u32::MAX && view.files.contains(path) {
        let k = choose|k: int| 0 <= k < view.files.len() && view.files[k] == path;
        let id = k as u32;
        assert(posting::holds(GramQuery::All, posting::listed(view, id)));
    }
}

/// What a refresh and a removal leave in the overlay, for the path itself and
/// for every other.
pub proof fn overlay_changes_are_local(
    o: OverlayView,
    path: Seq<char>,
    grams: Option<Seq<u64>>,
    other: Seq<char>,
)
    ensures
        o.refreshed(path, grams).tombstones.contains(path),
        o.refreshed(path, grams).files.contains_key(path) <==> grams is Some,
        grams is Some ==> o.refreshed(path, grams).files[path] == grams->0,
        o.removed(path).tombstones.contains(path),
        !o.removed(path).files.contains_key(path),
        other != path ==> {
            &&& o.refreshed(path, grams).tombstones.contains(other) <==> o.tombstones.contains(
                other,
            )
            &&& o.refreshed(path, grams).files.contains_key(other) <==> o.files.contains_key(other)
            &&& o.files.contains_key(other) ==> o.refreshed(path, grams).files[other]
                == o.files[other]
            &&& o.removed(path).tombstones.contains(other) <==> o.tombstones.contains(other)
            &&& o.removed(path).files.contains_key(other) <==> o.files.contains_key(other)
            &&& o.files.contains_key(other) ==> o.removed(path).files[other] == o.files[other]
        },
{
}

// ---- what is stored serves ----

/// A state and the files of an index are told by their own fields.
pub proof fn states_tell_their_fields(d: DeltaState, c: Sidecar)
    ensures
        d@.base_oid == d.base_oid@,
        d.delta_oid is None ==> d@.delta_oid is None,
        d.delta_oid matches Some(o) ==> d@.delta_oid == Some(o@),
        d@.tombstones == d.tombstones@.map_values(|t: String| t@),
        c.base is None ==> c@.base is None,
        c.base matches Some(b) ==> c@.base == Some(b@),
        c.delta is None ==> c@.delta is None,
        c.delta matches Some(b) ==> c@.delta == Some(b@),
        c.state is None ==> c@.state is None,
        c.state matches Some(t) ==> c@.state == Some(t@),
{
}

/// A stored shard serves as the base exactly when it opens, has the extractor
/// that is asked for, and, in a repository, is pinned to a commit.
pub proof fn stored_base_serves(bytes: Seq<u8>, extractor_id: Seq<char>)
    ensures
        !indexset::base_serves(None, extractor_id, true),
        !indexset::base_serves(None, extractor_id, false),
        indexset::base_serves(Some(bytes), extractor_id, false) <==> {
            &&& shard_format::read_shard(bytes) is Ok
            &&& shard_format::read_shard(bytes)->Ok_0.extractor_id == extractor_id
        },
        indexset::base_serves(Some(bytes), extractor_id, true) <==> {
            &&& shard_format::read_shard(bytes) is Ok
            &&& shard_format::read_shard(bytes)->Ok_0.extractor_id == extractor_id
            &&& shard_format::read_shard(bytes)->Ok_0.commit_oid is Some
        },
{
}

/// A stored delta serves exactly for the two commits it was built between, and
/// only with a shard that opens and has the extractor that is asked for.
pub proof fn stored_delta_serves(
    state: StateView,
    bytes: Seq<u8>,
    extractor_id: Seq<char>,
    base_oid: Seq<char>,
    head_oid: Seq<char>,
)
    ensures
        indexset::delta_serves(Some(state), Some(bytes), extractor_id, base_oid, head_oid) <==> {
            &&& state.base_oid == base_oid
            &&& state.delta_oid == Some(head_oid)
            &&& shard_format::read_shard(bytes) is Ok
            &&& shard_format::read_shard(bytes)->Ok_0.extractor_id == extractor_id
        },
        !indexset::delta_serves(None, Some(bytes), extractor_id, base_oid, head_oid),
        !indexset::delta_serves(Some(state), None, extractor_id, base_oid, head_oid),
{
}

/// After a base build nothing of an older delta is left, and the state names
/// the commit that the base is pinned to and no tombstone.
pub proof fn rebuilding_forgets_the_delta(base: Seq<u8>, oid: Seq<char>)
    ensures
        indexset::rebuilt(base, Some(oid)).base == Some(base),
        indexset::rebuilt(base, Some(oid)).delta is None,
        indexset::rebuilt(base, Some(oid)).state matches Some(s) && s.base_oid == oid
            && s.delta_oid is None && s.tombstones.len() == 0,
        indexset::rebuilt(base, None).base == Some(base),
        indexset::rebuilt(base, None).delta is None,
        indexset::rebuilt(base, None).state is None,
{
}

/// The lines of all files together are the lines of each, in the order of the
/// files and then of the lines, and none besides.
pub proof fn every_line_is_kept(
    results: Seq<Vec<MatchLine>>,
    more: Seq<Vec<MatchLine>>,
    one: Vec<MatchLine>,
)
    ensures
        indexset::flattened(results + more) == indexset::flattened(results) + indexset::flattened(
            more,
        ),
        indexset::flattened(seq![one]) == one@,
        indexset::flattened(Seq::<Vec<MatchLine>>::empty()).len() == 0,
    decreases more.len(),
{
    assert(indexset::flattened(Seq::<Vec<MatchLine>>::empty()) =~= Seq::<MatchLine>::empty());
    assert(seq![one].drop_last() =~= Seq::<Vec<MatchLine>>::empty());
    assert(seq![one].last() == one);
    assert(indexset::flattened(seq![one]) =~= one@);
    if more.len() == 0 {
        assert(results + more =~= results);
        assert(indexset::flattened(results) + indexset::flattened(more) =~= indexset::flattened(
            results,
        ));
    } else {
        every_line_is_kept(results, more.drop_last(), one);
        assert((results + more).drop_last() =~= results + more.drop_last());
        assert(indexset::flattened(results + more) =~= indexset::flattened(results)
            + indexset::flattened(more));
    }
}

} // verus!
