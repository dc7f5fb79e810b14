//! What opening an index promises over time: on a root that is left alone it
//! gives the same layers again.
use vstd::prelude::*;

use crate::indexset;
use crate::indexset::{DiffEntry, DirtyFile, IndexView, SidecarView};
use crate::ingest;
use crate::ingest::FileGrams;
use crate::order;
use crate::overlay;
use crate::posting::GramQuery;
use crate::shard_format;
use crate::shard_format::{Fault, ShardView};

verus! {

// ---- one opening ----

/// What an opening finds at a root, apart from the files of the index.
pub struct RootView {
    /// The extractor of the opening.
    pub extractor_id: Seq<char>,
    /// The commit at the head, inside a repository.
    pub head: Option<Seq<char>>,
    /// What can be extracted of the files at the head.
    pub committed: Seq<FileGrams>,
    /// The shard that a plain walk builds.
    pub walked: Seq<u8>,
    /// What changed from a commit to the head.
    pub diff: spec_fn(Seq<char>) -> Seq<DiffEntry>,
    /// What can be extracted of the files at some paths.
    pub extracted: spec_fn(Seq<Seq<char>>) -> Seq<FileGrams>,
    /// The paths with uncommitted changes.
    pub dirty: Seq<DirtyFile>,
}

/// The shard that a base build gives: over the committed files inside a
/// repository, else that of a plain walk.
pub open spec fn base_bytes(root: RootView) -> Seq<u8> {
    match root.head {
        Some(oid) => shard_format::shard_bytes(
            ingest::shard_of(root.committed, root.extractor_id, oid),
        ),
        None => root.walked,
    }
}

/// The files after the base layer was seen to: kept where the base serves,
/// else a new base without a delta.
pub open spec fn after_base(root: RootView, files: SidecarView) -> SidecarView {
    if indexset::base_serves(files.base, root.extractor_id, root.head is Some) {
        files
    } else {
        indexset::rebuilt(base_bytes(root), root.head)
    }
}

/// The files after the delta layer over a base at `oid` was seen to: kept
/// where there is none or the stored one serves, else as planned from the
/// diff.
pub open spec fn after_delta(
    root: RootView,
    files: SidecarView,
    oid: Seq<char>,
    head: Seq<char>,
) -> SidecarView {
    if head == oid || indexset::delta_serves(
        files.state,
        files.delta,
        root.extractor_id,
        oid,
        head,
    ) {
        files
    } else {
        let diff = (root.diff)(oid);
        let changed = indexset::picked(diff, indexset::is_changed());
        SidecarView {
            base: files.base,
            delta: indexset::delta_bytes(
                changed.len() > 0,
                (root.extracted)(changed),
                root.extractor_id,
                head,
            ),
            state: Some(
                indexset::covering_state(
                    oid,
                    head,
                    indexset::picked(diff, indexset::is_superseded()),
                ),
            ),
        }
    }
}

/// The commit that the base of `files` is pinned to.
pub open spec fn base_oid(files: SidecarView) -> Option<Seq<char>> {
    shard_format::read_shard(files.base->0)->Ok_0.commit_oid
}

/// The files that an opening leaves.
pub open spec fn after_opening(root: RootView, files: SidecarView) -> SidecarView {
    let based = after_base(root, files);
    match root.head {
        Some(head) => after_delta(root, based, base_oid(based)->0, head),
        None => based,
    }
}

/// Whether files hold a delta layer for the head of a root.
pub open spec fn has_delta(root: RootView, files: SidecarView) -> bool {
    root.head is Some && base_oid(files) != root.head
}

/// Whether an opening that leaves `files` succeeds: the shards can be read,
/// and inside a repository the base is pinned to a commit.
pub open spec fn readable(root: RootView, files: SidecarView) -> bool {
    &&& files.base is Some
    &&& shard_format::read_shard(files.base->0) is Ok
    &&& root.head is Some ==> base_oid(files) is Some
    &&& has_delta(root, files) && files.delta is Some ==> shard_format::read_shard(
        files.delta->0,
    ) is Ok
}

/// The layers of an opening that leaves `files`.
pub open spec fn layers(root: RootView, files: SidecarView) -> IndexView {
    IndexView {
        base: shard_format::read_shard(files.base->0)->Ok_0,
        delta: if has_delta(root, files) && files.delta is Some {
            Some(shard_format::read_shard(files.delta->0)->Ok_0)
        } else {
            None
        },
        delta_tombstones: if has_delta(root, files) {
            files.state->0.tombstones.to_set()
        } else {
            Set::empty()
        },
        overlay: if root.head is Some {
            indexset::dirty_overlay(root.dirty)
        } else {
            indexset::dirty_overlay(Seq::empty())
        },
    }
}

/// A delta layer: its shard, if it has one, and its tombstones.
pub struct LayerView {
    pub shard: Option<ShardView>,
    pub tombstones: Seq<Seq<char>>,
}

/// Whether `delta` is what is decided about the delta layer over `base`, when
/// the base was seen to and left `files`: none without a head or where the
/// base is pinned to it, the stored one where it serves, else a new one as
/// planned from the diff.
pub open spec fn decided(
    root: RootView,
    files: SidecarView,
    base: ShardView,
    delta: Option<LayerView>,
) -> bool {
    match root.head {
        None => delta is None,
        Some(head) => {
            let oid = base.commit_oid->0;
            let new = after_delta(root, files, oid, head);
            if head == oid {
                delta is None
            } else if indexset::delta_serves(
                files.state,
                files.delta,
                root.extractor_id,
                oid,
                head,
            ) {
                &&& delta matches Some(d)
                &&& d.shard matches Some(s)
                &&& shard_format::read_shard(files.delta->0) == Ok::<ShardView, Fault>(s)
                &&& d.tombstones == files.state->0.tombstones
            } else {
                &&& delta matches Some(d)
                &&& d.tombstones == indexset::picked((root.diff)(oid), indexset::is_superseded())
                &&& match new.delta {
                    Some(b) => d.shard matches Some(s) && shard_format::read_shard(b) == Ok::<
                        ShardView,
                        Fault,
                    >(s),
                    None => d.shard is None,
                }
            }
        },
    }
}

/// The steps of an opening, taken one after the other, give the layers of the
/// files that they leave.
pub proof fn steps_give_the_layers(
    root: RootView,
    files: SidecarView,
    base: ShardView,
    delta: Option<LayerView>,
    set: IndexView,
)
    requires
        shard_format::read_shard(after_base(root, files).base->0) == Ok::<ShardView, Fault>(base),
        root.head is Some ==> base.commit_oid is Some,
        decided(root, after_base(root, files), base, delta),
        set.base == base,
        set.delta == (match delta {
            Some(d) => d.shard,
            None => None,
        }),
        set.delta_tombstones == (match delta {
            Some(d) => d.tombstones.to_set(),
            None => Set::empty(),
        }),
        set.overlay == indexset::dirty_overlay(
            if root.head is Some {
                root.dirty
            } else {
                Seq::empty()
            },
        ),
    ensures
        readable(root, after_opening(root, files)),
        set == layers(root, after_opening(root, files)),
{
}

// ---- roots that are the same ----

/// Whether two extractions are of the same file with the same grams.
pub open spec fn same_file() -> spec_fn(FileGrams, FileGrams) -> bool {
    |a: FileGrams, b: FileGrams| a.path@ == b.path@ && a.hashes@ == b.hashes@
}

pub open spec fn same_entry() -> spec_fn(DiffEntry, DiffEntry) -> bool {
    |a: DiffEntry, b: DiffEntry| a.status == b.status && a.path@ == b.path@
}

pub open spec fn same_dirt() -> spec_fn(DirtyFile, DirtyFile) -> bool {
    |a: DirtyFile, b: DirtyFile|
        a.xy@ == b.xy@ && a.path@ == b.path@ && overlay::grams_view(a.grams)
            == overlay::grams_view(b.grams)
}

/// Whether two openings find the same: the same head, files, changes and
/// extractor.
pub open spec fn unchanged(a: RootView, b: RootView) -> bool {
    &&& a.extractor_id == b.extractor_id
    &&& a.head == b.head
    &&& order::alike(a.committed, b.committed, same_file())
    &&& a.walked == b.walked
    &&& forall|oid: Seq<char>|
        order::alike(#[trigger] (a.diff)(oid), (b.diff)(oid), same_entry())
    &&& forall|paths: Seq<Seq<char>>|
        order::alike(#[trigger] (a.extracted)(paths), (b.extracted)(paths), same_file())
    &&& order::alike(a.dirty, b.dirty, same_dirt())
}

proof fn lemma_same_registered(a: Seq<FileGrams>, b: Seq<FileGrams>, start: shard_format::ShardModel)
    requires
        order::alike(a, b, same_file()),
    ensures
        ingest::registered(a, start) == ingest::registered(b, start),
    decreases a.len(),
{
    if a.len() > 0 {
        assert(same_file()(a[a.len() - 1], b[b.len() - 1]));
        let c = a.drop_last();
        let d = b.drop_last();
        assert forall|i: int| 0 <= i < c.len() implies same_file()(c[i], d[i]) by {
            assert(same_file()(a[i], b[i]));
        }
        lemma_same_registered(c, d, start);
    }
}

proof fn lemma_same_shard(
    a: Seq<FileGrams>,
    b: Seq<FileGrams>,
    extractor_id: Seq<char>,
    oid: Seq<char>,
)
    requires
        order::alike(a, b, same_file()),
    ensures
        ingest::shard_of(a, extractor_id, oid) == ingest::shard_of(b, extractor_id, oid),
{
    order::alike_sort_alike(a, b, same_file());
    lemma_same_kept(order::sorted(a), order::sorted(b));
    lemma_same_registered(
        ingest::indexed(a),
        ingest::indexed(b),
        ingest::empty_shard(extractor_id, Some(oid)),
    );
}

proof fn lemma_same_kept(a: Seq<FileGrams>, b: Seq<FileGrams>)
    requires
        order::alike(a, b, same_file()),
    ensures
        order::alike(a.filter(ingest::outside()), b.filter(ingest::outside()), same_file()),
    decreases a.len(),
{
    reveal(Seq::filter);
    if a.len() > 0 {
        assert(same_file()(a[a.len() - 1], b[b.len() - 1]));
        let c = a.drop_last();
        let d = b.drop_last();
        assert forall|i: int| 0 <= i < c.len() implies same_file()(c[i], d[i]) by {
            assert(same_file()(a[i], b[i]));
        }
        lemma_same_kept(c, d);
        let p = c.filter(ingest::outside());
        let q = d.filter(ingest::outside());
        let r = a.filter(ingest::outside());
        let t = b.filter(ingest::outside());
        assert forall|i: int| 0 <= i < r.len() implies same_file()(r[i], t[i]) by {
            if i < p.len() {
                assert(same_file()(p[i], q[i]));
            }
        }
    }
}

proof fn lemma_same_picked(
    a: Seq<DiffEntry>,
    b: Seq<DiffEntry>,
    keep: spec_fn(DiffEntry) -> bool,
)
    requires
        order::alike(a, b, same_entry()),
        forall|x: DiffEntry, y: DiffEntry| #[trigger] same_entry()(x, y) ==> keep(x) == keep(y),
    ensures
        indexset::picked(a, keep) == indexset::picked(b, keep),
    decreases a.len(),
{
    reveal(Seq::filter);
    if a.len() > 0 {
        let c = a.drop_last();
        let d = b.drop_last();
        assert(same_entry()(a[a.len() - 1], b[b.len() - 1]));
        assert forall|i: int| 0 <= i < c.len() implies same_entry()(c[i], d[i]) by {
            assert(same_entry()(a[i], b[i]));
        }
        lemma_same_picked(c, d, keep);
        if keep(a.last()) {
            assert(indexset::picked(a, keep) =~= indexset::picked(c, keep).push(a.last().path@));
            assert(indexset::picked(b, keep) =~= indexset::picked(d, keep).push(b.last().path@));
        }
    } else {
        assert(indexset::picked(a, keep) =~= indexset::picked(b, keep));
    }
}

proof fn lemma_same_overlay(a: Seq<DirtyFile>, b: Seq<DirtyFile>)
    requires
        order::alike(a, b, same_dirt()),
    ensures
        indexset::dirty_overlay(a) == indexset::dirty_overlay(b),
    decreases a.len(),
{
    if a.len() > 0 {
        let c = a.drop_last();
        let d = b.drop_last();
        assert(same_dirt()(a[a.len() - 1], b[b.len() - 1]));
        assert forall|i: int| 0 <= i < c.len() implies same_dirt()(c[i], d[i]) by {
            assert(same_dirt()(a[i], b[i]));
        }
        lemma_same_overlay(c, d);
    }
}

proof fn lemma_same_base(a: RootView, b: RootView, files: SidecarView)
    requires
        unchanged(a, b),
    ensures
        after_base(b, files) == after_base(a, files),
{
    if let Some(oid) = a.head {
        lemma_same_shard(a.committed, b.committed, a.extractor_id, oid);
    }
}

proof fn lemma_same_delta(
    a: RootView,
    b: RootView,
    files: SidecarView,
    oid: Seq<char>,
    head: Seq<char>,
)
    requires
        unchanged(a, b),
    ensures
        after_delta(b, files, oid, head) == after_delta(a, files, oid, head),
{
    let diff = (a.diff)(oid);
    assert(order::alike(diff, (b.diff)(oid), same_entry()));
    lemma_same_picked(diff, (b.diff)(oid), indexset::is_changed());
    lemma_same_picked(diff, (b.diff)(oid), indexset::is_superseded());
    let changed = indexset::picked(diff, indexset::is_changed());
    assert(order::alike((a.extracted)(changed), (b.extracted)(changed), same_file()));
    lemma_same_shard((a.extracted)(changed), (b.extracted)(changed), a.extractor_id, head);
}

// ---- the law ----

/// Opening again on a root that was left alone gives the same: the files of
/// the index stay as they are, and the layers, their status and their
/// candidates for every query are those of the first opening.
pub proof fn reopening_changes_nothing(first: RootView, second: RootView, files: SidecarView)
    requires
        unchanged(first, second),
        readable(first, after_opening(first, files)),
    ensures
        ({
            let left = after_opening(first, files);
            let before = layers(first, left);
            let again = layers(second, after_opening(second, left));
            &&& after_opening(second, left) == left
            &&& readable(second, left)
            &&& again == before
            &&& again.status() == before.status()
            &&& forall|query: GramQuery, path: Seq<char>|
                #[trigger] again.candidate(query, path) == before.candidate(query, path)
        }),
{
    let based = after_base(first, files);
    let left = after_opening(first, files);
    lemma_same_base(first, second, left);
    lemma_same_overlay(first.dirty, second.dirty);
    if let Some(head) = first.head {
        let oid = base_oid(based)->0;
        lemma_same_delta(first, second, based, oid, head);
        lemma_same_delta(first, second, left, oid, head);
        lemma_same_delta(first, second, after_base(first, left), oid, head);
    }
}

} // verus!
