//! The layered index: a base shard, a delta shard and the dirty overlay.
//!
//! The freshest layer wins, by path:
//! 1. base: all tracked files at a pinned commit
//! 2. delta: the files changed between that commit and the head; modified and
//!    deleted base paths are tombstoned
//! 3. overlay: the files whose working-tree content differs; overlay paths
//!    void their base and delta entries
//!
//! Outside a repository there is only the base layer.
use vstd::prelude::*;

use crate::delta::{DeltaState, StateView};
use crate::indexset_laws;
use crate::ingest;
use crate::ingest::FileGrams;
use crate::order;
use crate::order::Ranked;
use crate::overlay;
use crate::overlay::{Overlay, OverlayView};
use crate::posting;
use crate::posting::GramQuery;
use crate::shard;
use crate::shard::{Shard, ShardError};
use crate::shard_format;
use crate::shard_format::ShardView;
use crate::text;
use crate::text_set::TextSet;

verus! {

/// Why an index cannot be opened or searched.
#[derive(Debug)]
pub enum IndexSetError {
    Shard(ShardError),
    /// Verification of candidates failed; its message.
    Verify(String),
    /// The pattern is no regular expression; the message of the parser.
    Pattern(String),
    /// The message of the system.
    Io(String),
    /// The plain index could not be built; its message.
    Index(String),
}

impl IndexSetError {
    /// What the error tells its reader.
    pub open spec fn message_view(self) -> Seq<char> {
        match self {
            IndexSetError::Shard(e) => e.message_view(),
            IndexSetError::Verify(m) => m@,
            IndexSetError::Pattern(m) => "bad pattern: "@ + m@,
            IndexSetError::Io(m) => "io error: "@ + m@,
            IndexSetError::Index(m) => m@,
        }
    }

    pub fn message(&self) -> (r: String)
        ensures
            r@ == self.message_view(),
    {
        match self {
            IndexSetError::Shard(e) => e.message(),
            IndexSetError::Verify(m) => m.clone(),
            IndexSetError::Pattern(m) => {
                let mut r = "bad pattern: ".to_string();
                r.append(m.as_str());
                r
            },
            IndexSetError::Io(m) => {
                let mut r = "io error: ".to_string();
                r.append(m.as_str());
                r
            },
            IndexSetError::Index(m) => m.clone(),
        }
    }
}

impl From<ShardError> for IndexSetError {
    fn from(e: ShardError) -> (r: IndexSetError) {
        IndexSetError::Shard(e)
    }
}

impl vstd::std_specs::convert::FromSpecImpl<ShardError> for IndexSetError {
    open spec fn obeys_from_spec() -> bool {
        true
    }

    open spec fn from_spec(e: ShardError) -> IndexSetError {
        IndexSetError::Shard(e)
    }
}

/// What the layers hold.
#[derive(Debug, Clone)]
pub struct FreshnessStatus {
    pub commit_oid: Option<String>,
    pub base_files: u32,
    pub delta_files: u32,
    pub overlay_files: usize,
    pub tombstones: usize,
}

/// What the layers hold, as mathematics.
pub struct StatusView {
    pub commit_oid: Option<Seq<char>>,
    pub base_files: nat,
    pub delta_files: nat,
    pub overlay_files: nat,
    pub tombstones: nat,
}

impl View for FreshnessStatus {
    type V = StatusView;

    open spec fn view(&self) -> StatusView {
        StatusView {
            commit_oid: text::text_option(self.commit_oid),
            base_files: self.base_files as nat,
            delta_files: self.delta_files as nat,
            overlay_files: self.overlay_files as nat,
            tombstones: self.tombstones as nat,
        }
    }
}

// ---- the model ----

/// The layers.
pub struct IndexView {
    pub base: ShardView,
    pub delta: Option<ShardView>,
    /// Paths superseded between the base commit and the head.
    pub delta_tombstones: Set<Seq<char>>,
    pub overlay: OverlayView,
}

/// Whether a shard has a file at `path` that satisfies `query`.
pub open spec fn proposes(view: ShardView, query: GramQuery, path: Seq<char>) -> bool {
    exists|id: u32|
        #![trigger posting::listed(view, id)]
        id < view.files.len() && view.files[id as int] == path && posting::holds(
            query,
            posting::listed(view, id),
        )
}

impl IndexView {
    /// Whether the file at `path` has to be verified for `query`: some layer
    /// proposes it, and no fresher layer voids that entry.
    pub open spec fn candidate(self, query: GramQuery, path: Seq<char>) -> bool {
        ||| proposes(self.base, query, path) && !self.delta_tombstones.contains(path)
            && !self.overlay.tombstones.contains(path)
        ||| self.delta is Some && proposes(self.delta->0, query, path)
            && !self.overlay.tombstones.contains(path)
        ||| self.overlay.files.contains_key(path) && posting::holds(
            query,
            posting::members(self.overlay.files[path]),
        )
    }

    /// What the layers hold. The tombstones of both layers are counted as far
    /// as a machine word can.
    pub open spec fn status(self) -> StatusView {
        let tombstones = self.delta_tombstones.len() + self.overlay.tombstones.len();
        StatusView {
            commit_oid: self.base.commit_oid,
            base_files: self.base.files.len(),
            delta_files: match self.delta {
                Some(d) => d.files.len(),
                None => 0,
            },
            overlay_files: self.overlay.files.dom().len(),
            tombstones: if tombstones <= usize::MAX {
                tombstones
            } else {
                usize::MAX as nat
            },
        }
    }
}

// ---- opening ----

/// Whether stored bytes serve as the base layer: a shard of the same
/// extractor, pinned to a commit if there is a head to compare with.
pub open spec fn base_serves(
    bytes: Option<Seq<u8>>,
    extractor_id: Seq<char>,
    has_head: bool,
) -> bool {
    &&& bytes matches Some(b)
    &&& shard_format::read_shard(b) matches Ok(view)
    &&& view.extractor_id == extractor_id
    &&& has_head ==> view.commit_oid is Some
}

/// The bytes of an optional buffer.
pub open spec fn bytes_view(b: Option<Vec<u8>>) -> Option<Seq<u8>> {
    match b {
        Some(v) => Some(v@),
        None => None,
    }
}

/// What to do about the base layer.
pub enum BaseStep {
    /// The stored shard serves.
    Reuse(Shard),
    /// Build from the tracked files, pinned to the head.
    BuildTracked,
    /// Build from a plain walk.
    BuildWalk,
}

/// Decide about the base layer: `bytes` is the stored shard file, if it could
/// be read, and `has_head` whether the root is in a repository.
pub fn base_step(bytes: Option<Vec<u8>>, extractor_id: &str, has_head: bool) -> (step: BaseStep)
    ensures
        match step {
            BaseStep::Reuse(s) => {
                &&& base_serves(bytes_view(bytes), extractor_id@, has_head)
                &&& shard_format::read_shard(bytes->0@) == Ok::<
                    ShardView,
                    shard_format::Fault,
                >(s@)
            },
            BaseStep::BuildTracked => has_head && !base_serves(
                bytes_view(bytes),
                extractor_id@,
                has_head,
            ),
            BaseStep::BuildWalk => !has_head && !base_serves(
                bytes_view(bytes),
                extractor_id@,
                has_head,
            ),
        },
        step matches BaseStep::Reuse(s) ==> s@.extractor_id == extractor_id@ && (has_head
            ==> s@.commit_oid is Some),
        bytes is None ==> step == (if has_head {
            BaseStep::BuildTracked
        } else {
            BaseStep::BuildWalk
        }),
        bytes matches Some(b) ==> (step is Reuse <==> {
            &&& shard_format::read_shard(b@) matches Ok(view)
            &&& view.extractor_id == extractor_id@
            &&& has_head ==> view.commit_oid is Some
        }),
{
    let stored: Option<Shard> = match bytes {
        None => None,
        Some(b) => match Shard::open(b) {
            Err(_) => None,
            Ok(s) => if text::same_text(s.extractor_id(), extractor_id) {
                Some(s)
            } else {
                None
            },
        },
    };
    match stored {
        Some(s) => if has_head && s.commit_oid().is_none() {
            BaseStep::BuildTracked
        } else {
            BaseStep::Reuse(s)
        },
        None => if has_head {
            BaseStep::BuildTracked
        } else {
            BaseStep::BuildWalk
        },
    }
}

/// The state of a base at `oid` that has no delta.
pub open spec fn fresh_state(oid: Seq<char>) -> StateView {
    StateView { base_oid: oid, delta_oid: None, tombstones: Seq::empty() }
}

/// The state to store after a base build at `oid`.
pub fn base_state(oid: &str) -> (s: DeltaState)
    ensures
        s@ == fresh_state(oid@),
        s.base_oid@ == oid@,
        s.delta_oid is None,
        s.tombstones@.len() == 0,
{
    let s = DeltaState { base_oid: oid.to_string(), delta_oid: None, tombstones: Vec::new() };
    proof {
        assert(s@.tombstones =~= Seq::<Seq<char>>::empty());
    }
    s
}

/// The files of an index.
#[derive(Debug)]
pub struct Sidecar {
    /// The base shard.
    pub base: Option<Vec<u8>>,
    /// The delta shard.
    pub delta: Option<Vec<u8>>,
    pub state: Option<DeltaState>,
}

/// The files of an index, as mathematics.
pub struct SidecarView {
    pub base: Option<Seq<u8>>,
    pub delta: Option<Seq<u8>>,
    pub state: Option<StateView>,
}

impl View for Sidecar {
    type V = SidecarView;

    open spec fn view(&self) -> SidecarView {
        SidecarView {
            base: bytes_view(self.base),
            delta: bytes_view(self.delta),
            state: state_view(self.state),
        }
    }
}

/// The files after a base build: what a stale delta left behind is gone.
pub open spec fn rebuilt(base: Seq<u8>, head: Option<Seq<char>>) -> SidecarView {
    SidecarView {
        base: Some(base),
        delta: None,
        state: match head {
            Some(oid) => Some(fresh_state(oid)),
            None => None,
        },
    }
}

/// The files to leave after a base build. A file that is `None` has to go.
pub fn base_files(bytes: Vec<u8>, head: Option<&str>) -> (r: Sidecar)
    ensures
        r@ == rebuilt(
            bytes@,
            match head {
                Some(oid) => Some(oid@),
                None => None,
            },
        ),
        r.base == Some(bytes),
        r.delta is None,
        r.state is Some <==> head is Some,
        r.state matches Some(s) ==> s.base_oid@ == head->0@ && s.delta_oid is None
            && s.tombstones@.len() == 0,
{
    let state = match head {
        Some(oid) => Some(base_state(oid)),
        None => None,
    };
    Sidecar { base: Some(bytes), delta: None, state }
}

/// The view of an optional state.
pub open spec fn state_view(state: Option<DeltaState>) -> Option<StateView> {
    match state {
        Some(s) => Some(s@),
        None => None,
    }
}

/// Whether a stored delta covers exactly `base_oid..head_oid`.
pub open spec fn state_covers(
    state: Option<StateView>,
    base_oid: Seq<char>,
    head_oid: Seq<char>,
) -> bool {
    &&& state matches Some(s)
    &&& s.base_oid == base_oid
    &&& s.delta_oid == Some(head_oid)
}

/// Whether the stored delta serves: it covers the range, its shard opens and
/// has the same extractor.
pub open spec fn delta_serves(
    state: Option<StateView>,
    bytes: Option<Seq<u8>>,
    extractor_id: Seq<char>,
    base_oid: Seq<char>,
    head_oid: Seq<char>,
) -> bool {
    &&& state_covers(state, base_oid, head_oid)
    &&& bytes matches Some(b)
    &&& shard_format::read_shard(b) matches Ok(view)
    &&& view.extractor_id == extractor_id
}

/// The delta layer: its shard, if any file changed, and the base paths that
/// it supersedes.
pub struct DeltaLayer {
    pub shard: Option<Shard>,
    pub tombstones: Vec<String>,
}

/// Whether `layer` is the stored delta: its shard and the stored tombstones.
pub open spec fn is_stored_delta(
    layer: DeltaLayer,
    state: Option<StateView>,
    bytes: Option<Seq<u8>>,
) -> bool {
    &&& layer.shard matches Some(s)
    &&& shard_format::read_shard(bytes->0) == Ok::<ShardView, shard_format::Fault>(s@)
    &&& text::texts(layer.tombstones@) == state->0.tombstones
}

/// The stored delta, if it serves. `None`: diff the commits and build.
pub fn reusable_delta(
    state: Option<DeltaState>,
    bytes: Option<Vec<u8>>,
    extractor_id: &str,
    base_oid: &str,
    head_oid: &str,
) -> (r: Option<DeltaLayer>)
    ensures
        match r {
            Some(layer) => {
                &&& delta_serves(
                    state_view(state),
                    bytes_view(bytes),
                    extractor_id@,
                    base_oid@,
                    head_oid@,
                )
                &&& is_stored_delta(layer, state_view(state), bytes_view(bytes))
            },
            None => !delta_serves(
                state_view(state),
                bytes_view(bytes),
                extractor_id@,
                base_oid@,
                head_oid@,
            ),
        },
        r is Some <==> {
            &&& state matches Some(s)
            &&& s.base_oid@ == base_oid@
            &&& s.delta_oid matches Some(d)
            &&& d@ == head_oid@
            &&& bytes matches Some(b)
            &&& shard_format::read_shard(b@) matches Ok(view)
            &&& view.extractor_id == extractor_id@
        },
        r matches Some(layer) ==> {
            &&& layer.tombstones == state->0.tombstones
            &&& layer.shard matches Some(s)
            &&& shard_format::read_shard(bytes->0@) == Ok::<ShardView, shard_format::Fault>(s@)
        },
{
    let state = match state {
        None => {
            return None;
        },
        Some(s) => s,
    };
    let covered = text::same_text(state.base_oid.as_str(), base_oid) && match &state.delta_oid {
        None => false,
        Some(d) => text::same_text(d.as_str(), head_oid),
    };
    if !covered {
        return None;
    }
    match bytes {
        None => None,
        Some(b) => match Shard::open(b) {
            Err(_) => None,
            Ok(s) => if text::same_text(s.extractor_id(), extractor_id) {
                Some(DeltaLayer { shard: Some(s), tombstones: state.tombstones })
            } else {
                None
            },
        },
    }
}

/// What to do about the delta layer.
pub enum DeltaStep {
    /// There is none: the base is pinned to the head, or there is no head.
    Skip,
    /// The stored delta serves.
    Reuse(DeltaLayer),
    /// Diff the two commits and build from the changed files.
    Diff,
}

/// Decide about the delta layer over `base` for the commit at the head.
pub fn delta_step(
    base: &Shard,
    head: Option<&str>,
    state: Option<DeltaState>,
    bytes: Option<Vec<u8>>,
    extractor_id: &str,
) -> (step: DeltaStep)
    requires
        head is Some ==> base@.commit_oid is Some,
    ensures
        match head {
            None => step is Skip,
            Some(h) => {
                let oid = base@.commit_oid->0;
                let serves = delta_serves(
                    state_view(state),
                    bytes_view(bytes),
                    extractor_id@,
                    oid,
                    h@,
                );
                match step {
                    DeltaStep::Skip => h@ == oid,
                    DeltaStep::Reuse(layer) => h@ != oid && serves && is_stored_delta(
                        layer,
                        state_view(state),
                        bytes_view(bytes),
                    ),
                    DeltaStep::Diff => h@ != oid && !serves,
                }
            },
        },
        step matches DeltaStep::Reuse(layer) ==> {
            &&& state matches Some(d)
            &&& layer.tombstones == d.tombstones
            &&& layer.shard matches Some(s)
            &&& shard_format::read_shard(bytes->0@) == Ok::<ShardView, shard_format::Fault>(s@)
            &&& s@.extractor_id == extractor_id@
            &&& d.base_oid@ == base@.commit_oid->0
            &&& d.delta_oid matches Some(at)
            &&& at@ == head->0@
        },
{
    match (head, base.commit_oid()) {
        (Some(h), Some(oid)) => {
            if text::same_text(h, oid) {
                return DeltaStep::Skip;
            }
            match reusable_delta(state, bytes, extractor_id, oid, h) {
                Some(layer) => DeltaStep::Reuse(layer),
                None => DeltaStep::Diff,
            }
        },
        _ => DeltaStep::Skip,
    }
}

/// One line of a diff between two commits: its status letter and path.
#[derive(Debug)]
pub struct DiffEntry {
    pub status: char,
    pub path: String,
}

/// The paths of the entries that `keep` picks, in order.
pub open spec fn picked(diff: Seq<DiffEntry>, keep: spec_fn(DiffEntry) -> bool) -> Seq<Seq<char>> {
    diff.filter(keep).map_values(|d: DiffEntry| d.path@)
}

/// Whether an entry's file has to be indexed anew: all but deletions.
pub open spec fn is_changed() -> spec_fn(DiffEntry) -> bool {
    |d: DiffEntry| !ingest::internal(d.path@) && d.status != 'D'
}

/// Whether an entry's file is superseded in the base: all but additions.
pub open spec fn is_superseded() -> spec_fn(DiffEntry) -> bool {
    |d: DiffEntry| !ingest::internal(d.path@) && d.status != 'A'
}

/// The files to index anew and the base paths to tombstone.
pub fn classify_diff(diff: &Vec<DiffEntry>) -> (r: (Vec<String>, Vec<String>))
    ensures
        text::texts(r.0@) == picked(diff@, is_changed()),
        text::texts(r.1@) == picked(diff@, is_superseded()),
        forall|p: Seq<char>| #[trigger]
            text::texts(r.0@).contains(p) <==> exists|i: int|
                0 <= i < diff@.len() && (#[trigger] diff@[i]).path@ == p && diff@[i].status != 'D'
                    && !ingest::internal(p),
        forall|p: Seq<char>| #[trigger]
            text::texts(r.1@).contains(p) <==> exists|i: int|
                0 <= i < diff@.len() && (#[trigger] diff@[i]).path@ == p && diff@[i].status != 'A'
                    && !ingest::internal(p),
{
    let mut changed: Vec<String> = Vec::new();
    let mut tombstones: Vec<String> = Vec::new();
    let mut i: usize = 0;
    proof {
        reveal(Seq::filter);
        assert(diff@.take(0) =~= Seq::<DiffEntry>::empty());
        assert(text::texts(changed@) =~= picked(diff@.take(0), is_changed()));
        assert(text::texts(tombstones@) =~= picked(diff@.take(0), is_superseded()));
    }
    while i < diff.len()
        invariant
            i <= diff@.len(),
            text::texts(changed@) == picked(diff@.take(i as int), is_changed()),
            text::texts(tombstones@) == picked(diff@.take(i as int), is_superseded()),
        decreases diff@.len() - i,
    {
        let d = &diff[i];
        let ghost seen = diff@.take(i as int);
        let ghost now = diff@.take(i + 1);
        let ghost c = text::texts(changed@);
        let ghost t = text::texts(tombstones@);
        proof {
            lemma_picked_push(seen, *d);
            assert(now =~= seen.push(*d));
        }
        if !ingest::is_internal(d.path.as_str()) {
            if d.status == 'A' {
                changed.push(d.path.clone());
                proof {
                    assert(text::texts(changed@) =~= c.push(d.path@));
                }
            } else if d.status == 'D' {
                tombstones.push(d.path.clone());
                proof {
                    assert(text::texts(tombstones@) =~= t.push(d.path@));
                }
            } else {
                tombstones.push(d.path.clone());
                changed.push(d.path.clone());
                proof {
                    assert(text::texts(changed@) =~= c.push(d.path@));
                    assert(text::texts(tombstones@) =~= t.push(d.path@));
                }
            }
        }
        i = i + 1;
    }
    proof {
        assert(diff@.take(i as int) =~= diff@);
        assert forall|p: Seq<char>| #[trigger]
            text::texts(changed@).contains(p) <==> exists|k: int|
                0 <= k < diff@.len() && (#[trigger] diff@[k]).path@ == p && diff@[k].status != 'D'
                    && !ingest::internal(p) by {
            indexset_laws::a_diff_sorts_its_paths(diff@, p);
        }
        assert forall|p: Seq<char>| #[trigger]
            text::texts(tombstones@).contains(p) <==> exists|k: int|
                0 <= k < diff@.len() && (#[trigger] diff@[k]).path@ == p && diff@[k].status != 'A'
                    && !ingest::internal(p) by {
            indexset_laws::a_diff_sorts_its_paths(diff@, p);
        }
    }
    (changed, tombstones)
}

proof fn lemma_picked_push(seen: Seq<DiffEntry>, d: DiffEntry)
    ensures
        picked(seen.push(d), is_changed()) == (if is_changed()(d) {
            picked(seen, is_changed()).push(d.path@)
        } else {
            picked(seen, is_changed())
        }),
        picked(seen.push(d), is_superseded()) == (if is_superseded()(d) {
            picked(seen, is_superseded()).push(d.path@)
        } else {
            picked(seen, is_superseded())
        }),
{
    reveal(Seq::filter);
    assert(seen.push(d).drop_last() =~= seen);
    if is_changed()(d) {
        assert(picked(seen.push(d), is_changed()) =~= picked(seen, is_changed()).push(d.path@));
    }
    if is_superseded()(d) {
        assert(picked(seen.push(d), is_superseded()) =~= picked(seen, is_superseded()).push(
            d.path@,
        ));
    }
}

/// The state of a delta `base_oid..head_oid`.
pub open spec fn covering_state(
    base_oid: Seq<char>,
    head_oid: Seq<char>,
    tombstones: Seq<Seq<char>>,
) -> StateView {
    StateView { base_oid, delta_oid: Some(head_oid), tombstones }
}

/// The state to store after the delta `base_oid..head_oid` was built.
pub fn delta_state(base_oid: &str, head_oid: &str, tombstones: Vec<String>) -> (s: DeltaState)
    ensures
        s@ == covering_state(base_oid@, head_oid@, text::texts(tombstones@)),
        s.base_oid@ == base_oid@,
        s.delta_oid matches Some(d) && d@ == head_oid@,
        s.tombstones == tombstones,
{
    DeltaState {
        base_oid: base_oid.to_string(),
        delta_oid: Some(head_oid.to_string()),
        tombstones,
    }
}

/// How to build a delta.
#[derive(Debug)]
pub struct DeltaPlan {
    /// The files to index anew.
    pub changed: Vec<String>,
    /// The base paths that are superseded.
    pub tombstones: Vec<String>,
    /// Whether there is a delta shard at all; if not, a stored one has to go.
    pub builds: bool,
    /// The state to store.
    pub state: DeltaState,
}

/// Plan the delta `base_oid..head_oid`, given what changed between the two
/// commits.
pub fn plan_delta(diff: &Vec<DiffEntry>, base_oid: &str, head_oid: &str) -> (p: DeltaPlan)
    ensures
        text::texts(p.changed@) == picked(diff@, is_changed()),
        text::texts(p.tombstones@) == picked(diff@, is_superseded()),
        p.builds == (picked(diff@, is_changed()).len() > 0),
        p.state.base_oid@ == base_oid@,
        p.state.delta_oid matches Some(d) && d@ == head_oid@,
        text::texts(p.state.tombstones@) == text::texts(p.tombstones@),
        p.state@ == covering_state(base_oid@, head_oid@, picked(diff@, is_superseded())),
        p.builds == (p.changed@.len() > 0),
        forall|path: Seq<char>| #[trigger]
            text::texts(p.changed@).contains(path) <==> exists|i: int|
                0 <= i < diff@.len() && (#[trigger] diff@[i]).path@ == path && diff@[i].status
                    != 'D' && !ingest::internal(path),
        forall|path: Seq<char>| #[trigger]
            text::texts(p.tombstones@).contains(path) <==> exists|i: int|
                0 <= i < diff@.len() && (#[trigger] diff@[i]).path@ == path && diff@[i].status
                    != 'A' && !ingest::internal(path),
{
    let (changed, tombstones) = classify_diff(diff);
    let builds = changed.len() > 0;
    proof {
        assert(changed@.len() == picked(diff@, is_changed()).len());
    }
    let state = delta_state(base_oid, head_oid, copied_texts(&tombstones));
    DeltaPlan { changed, tombstones, builds, state }
}

/// The bytes of the delta shard over the extracted files, if one is built.
pub open spec fn delta_bytes(
    builds: bool,
    extracted: Seq<FileGrams>,
    extractor_id: Seq<char>,
    head_oid: Seq<char>,
) -> Option<Seq<u8>> {
    if builds {
        Some(shard_format::shard_bytes(ingest::shard_of(extracted, extractor_id, head_oid)))
    } else {
        None
    }
}

impl DeltaPlan {
    /// The bytes of the delta shard, given what could be extracted of the
    /// changed files. `None`: there is no delta shard.
    pub fn shard_bytes(&self, extracted: Vec<FileGrams>, extractor_id: &str, head_oid: &str) -> (r:
        Option<Vec<u8>>)
        requires
            extracted@.len() <= u32::MAX,
        ensures
            bytes_view(r) == delta_bytes(self.builds, extracted@, extractor_id@, head_oid@),
            r is Some <==> self.builds,
            r matches Some(b) ==> b@ == shard_format::shard_bytes(
                ingest::shard_of(extracted@, extractor_id@, head_oid@),
            ),
    {
        if self.builds {
            Some(ingest::build_shard_from(extracted, extractor_id, head_oid))
        } else {
            None
        }
    }

    /// The delta layer with the shard of `bytes`, and the state to store.
    pub fn finish(self, bytes: Option<Vec<u8>>) -> (r: Result<(DeltaLayer, DeltaState), ShardError>)
        ensures
            match bytes {
                None => r matches Ok(d) && d.0.shard is None,
                Some(b) => match shard_format::read_shard(b@) {
                    Ok(view) => r matches Ok(d) && shard_view(d.0.shard) == Some(view),
                    Err(f) => r matches Err(e) && shard::reports(e, f),
                },
            },
            r matches Ok(d) ==> d.0.tombstones == self.tombstones && d.1 == self.state,
    {
        let shard = match bytes {
            None => None,
            Some(b) => match Shard::open(b) {
                Ok(s) => Some(s),
                Err(e) => {
                    return Err(e);
                },
            },
        };
        Ok((DeltaLayer { shard, tombstones: self.tombstones }, self.state))
    }
}

/// A path with uncommitted changes: its two status letters, and the grams of
/// its working-tree content, if that can be read and searched.
#[derive(Debug)]
pub struct DirtyFile {
    pub xy: String,
    pub path: String,
    pub grams: Option<Vec<u64>>,
}

/// The overlay after one dirty path.
pub open spec fn with_dirty(o: OverlayView, d: DirtyFile) -> OverlayView {
    if ingest::internal(d.path@) {
        o
    } else if d.xy@.contains('D') {
        o.removed(d.path@)
    } else {
        o.refreshed(d.path@, overlay::grams_view(d.grams))
    }
}

/// The overlay after all dirty paths, in order.
pub open spec fn dirty_overlay(dirty: Seq<DirtyFile>) -> OverlayView
    decreases dirty.len(),
{
    if dirty.len() == 0 {
        OverlayView::empty()
    } else {
        with_dirty(dirty_overlay(dirty.drop_last()), dirty.last())
    }
}

/// A line that matches a pattern.
#[derive(Debug)]
pub struct MatchLine {
    pub path: String,
    pub line_number: u64,
    pub line: String,
}

impl Ranked for MatchLine {
    open spec fn precedes(self, other: MatchLine) -> bool {
        order::text_less(self.path@, other.path@) || (self.path@ == other.path@ && self.line_number
            < other.line_number)
    }

    proof fn is_weak_order() {
        order::texts_are_ordered();
        assert forall|a: MatchLine, b: MatchLine, c: MatchLine|
            !#[trigger] a.precedes(b) && !#[trigger] b.precedes(c) implies !a.precedes(c) by {
            if order::text_less(a.path@, c.path@) {
                if order::text_less(b.path@, a.path@) {
                    assert(order::text_less(b.path@, c.path@));
                }
            }
        }
    }

    fn goes_before(&self, other: &MatchLine) -> (r: bool) {
        order::text_before(self.path.as_str(), other.path.as_str()) || (text::same_text(
            self.path.as_str(),
            other.path.as_str(),
        ) && self.line_number < other.line_number)
    }
}

/// How a search went.
#[derive(Debug, Clone)]
pub struct SearchStats {
    pub candidates: usize,
    pub scanned_all: bool,
    pub matches: usize,
    pub elapsed_us: u128,
}

/// The files that a search has to verify, in ascending path order.
#[derive(Debug)]
pub struct SearchPlan {
    pub candidates: Vec<String>,
    pub scanned_all: bool,
}

/// All lines of all files, in order.
pub open spec fn flattened(results: Seq<Vec<MatchLine>>) -> Seq<MatchLine>
    decreases results.len(),
{
    if results.len() == 0 {
        Seq::empty()
    } else {
        flattened(results.drop_last()) + results.last()@
    }
}

impl SearchPlan {
    /// The answer to a search, from the matching lines of each candidate that
    /// has some: sorted by path, then by line.
    pub fn finish(&self, results: Vec<Vec<MatchLine>>, elapsed_us: u128) -> (r: (
        Vec<MatchLine>,
        SearchStats,
    ))
        ensures
            r.0@ == order::sorted(flattened(results@)),
            order::stably_sorted(flattened(results@), r.0@),
            r.1.candidates == self.candidates@.len(),
            r.1.scanned_all == self.scanned_all,
            r.1.matches == r.0@.len(),
            r.1.elapsed_us == elapsed_us,
            r.0@.to_multiset() == flattened(results@).to_multiset(),
            forall|i: int, j: int|
                0 <= i < j < r.0@.len() ==> (order::text_less(
                    (#[trigger] r.0@[i]).path@,
                    (#[trigger] r.0@[j]).path@,
                ) || r.0@[i].path@ == r.0@[j].path@ && r.0@[i].line_number <= r.0@[j].line_number),
    {
        let matches = order::stable_sort(flatten(results));
        proof {
            order::texts_are_ordered();
        }
        let stats = SearchStats {
            candidates: self.candidates.len(),
            scanned_all: self.scanned_all,
            matches: matches.len(),
            elapsed_us,
        };
        (matches, stats)
    }
}

fn flatten(results: Vec<Vec<MatchLine>>) -> (r: Vec<MatchLine>)
    ensures
        r@ == flattened(results@),
{
    let ghost all = results@;
    let mut rest = results;
    let mut tail: Vec<MatchLine> = Vec::new();
    proof {
        assert(flattened(all) + tail@ =~= flattened(all));
    }
    while rest.len() > 0
        invariant
            flattened(rest@) + tail@ == flattened(all),
        decreases rest@.len(),
    {
        let ghost before = rest@;
        let ghost old_tail = tail@;
        let mut last = rest.pop().unwrap();
        proof {
            assert(rest@ =~= before.drop_last());
            assert(flattened(rest@) + (last@ + old_tail) =~= flattened(before) + old_tail);
        }
        last.append(&mut tail);
        tail = last;
    }
    proof {
        assert(flattened(rest@) + tail@ =~= tail@);
    }
    tail
}

/// The layered index.
pub struct IndexSet {
    base: Shard,
    delta: Option<Shard>,
    delta_tombstones: TextSet,
    overlay: Overlay,
}

impl View for IndexSet {
    type V = IndexView;

    closed spec fn view(&self) -> IndexView {
        IndexView {
            base: self.base@,
            delta: match self.delta {
                Some(s) => Some(s@),
                None => None,
            },
            delta_tombstones: self.delta_tombstones@.to_set(),
            overlay: self.overlay@,
        }
    }
}

/// The view of an optional shard.
pub open spec fn shard_view(s: Option<Shard>) -> Option<ShardView> {
    match s {
        Some(s) => Some(s@),
        None => None,
    }
}

/// The set of the texts.
fn text_set_of(v: &Vec<String>) -> (r: TextSet)
    ensures
        r@.to_set() == text::texts(v@).to_set(),
{
    let mut r = TextSet::new();
    let ghost all = text::texts(v@);
    let mut i: usize = 0;
    proof {
        assert(r@.to_set() =~= all.take(0).to_set());
    }
    while i < v.len()
        invariant
            i <= v@.len(),
            all == text::texts(v@),
            r@.to_set() == all.take(i as int).to_set(),
        decreases v@.len() - i,
    {
        let ghost seen = all.take(i as int);
        let fresh = r.insert(v[i].as_str());
        proof {
            let now = all.take(i + 1);
            assert(now =~= seen.push(all[i as int]));
            assert forall|x: Seq<char>|
                now.to_set().contains(x) <==> seen.to_set().insert(all[i as int]).contains(x) by {
                if seen.contains(x) {
                    let k = choose|k: int| 0 <= k < seen.len() && seen[k] == x;
                    assert(now[k] == x);
                }
                assert(now[i as int] == all[i as int]);
            }
            assert(now.to_set() =~= seen.to_set().insert(all[i as int]));
        }
        i = i + 1;
    }
    proof {
        assert(all.take(i as int) =~= all);
    }
    r
}

impl IndexSet {
    /// Put the layers together. `delta` is `None` outside a repository and
    /// where the base is pinned to the head; `dirty` lists the paths with
    /// uncommitted changes.
    pub fn open_or_build(base: Shard, delta: Option<DeltaLayer>, dirty: Vec<DirtyFile>) -> (set:
        IndexSet)
        ensures
            set@.base == base@,
            set@.delta == (match delta {
                Some(d) => shard_view(d.shard),
                None => None,
            }),
            set@.delta_tombstones == (match delta {
                Some(d) => text::texts(d.tombstones@).to_set(),
                None => Set::empty(),
            }),
            set@.overlay == dirty_overlay(dirty@),
            delta is None ==> set@.delta is None && set@.delta_tombstones.len() == 0,
            delta matches Some(d) ==> {
                &&& d.shard is None ==> set@.delta is None
                &&& d.shard matches Some(s) ==> set@.delta == Some(s@)
                &&& forall|p: Seq<char>| #[trigger]
                    set@.delta_tombstones.contains(p) <==> exists|k: int|
                        0 <= k < d.tombstones@.len() && (#[trigger] d.tombstones@[k])@ == p
            },
            forall|i: int| #[trigger]
                indexset_laws::settles(dirty@, i) ==> {
                    let d = dirty@[i];
                    &&& set@.overlay.tombstones.contains(d.path@)
                    &&& d.xy@.contains('D') || d.grams is None
                        ==> !set@.overlay.files.contains_key(d.path@)
                    &&& !d.xy@.contains('D') && d.grams is Some ==> set@.overlay.files.contains_key(
                        d.path@,
                    ) && set@.overlay.files[d.path@] == d.grams->0@
                },
    {
        proof {
            assert forall|i: int| #[trigger] indexset_laws::settles(dirty@, i) implies {
                let d = dirty@[i];
                let o = dirty_overlay(dirty@);
                &&& o.tombstones.contains(d.path@)
                &&& d.xy@.contains('D') || d.grams is None ==> !o.files.contains_key(d.path@)
                &&& !d.xy@.contains('D') && d.grams is Some ==> o.files.contains_key(d.path@)
                    && o.files[d.path@] == d.grams->0@
            } by {
                indexset_laws::last_dirty_entry_settles(dirty@, i);
            }
        }
        let overlay = overlay_of(dirty);
        match delta {
            Some(d) => {
                let delta_tombstones = text_set_of(&d.tombstones);
                proof {
                    let paths = text::texts(d.tombstones@);
                    assert forall|p: Seq<char>| #[trigger]
                        delta_tombstones@.to_set().contains(p) <==> exists|k: int|
                            0 <= k < d.tombstones@.len() && (
                            #[trigger] d.tombstones@[k])@ == p by {
                        if paths.contains(p) {
                            let k = choose|k: int| 0 <= k < paths.len() && paths[k] == p;
                            assert(d.tombstones@[k]@ == p);
                        }
                        if exists|k: int|
                            0 <= k < d.tombstones@.len() && (
                            #[trigger] d.tombstones@[k])@ == p {
                            let k = choose|k: int|
                                0 <= k < d.tombstones@.len() && (
                                #[trigger] d.tombstones@[k])@ == p;
                            assert(paths[k] == p);
                        }
                    }
                }
                IndexSet { base, delta: d.shard, delta_tombstones, overlay }
            },
            None => {
                let delta_tombstones = TextSet::new();
                proof {
                    assert(delta_tombstones@.to_set() =~= Set::<Seq<char>>::empty());
                }
                IndexSet { base, delta: None, delta_tombstones, overlay }
            },
        }
    }

    /// Take over the content of a file as it is on disk now: its grams, or
    /// `None` if it cannot be read or searched.
    pub fn refresh_file(&mut self, rel_path: &str, grams: Option<Vec<u64>>)
        ensures
            final(self)@ == (IndexView {
                overlay: old(self)@.overlay.refreshed(rel_path@, overlay::grams_view(grams)),
                ..old(self)@
            }),
            final(self)@.overlay.tombstones == old(self)@.overlay.tombstones.insert(rel_path@),
            final(self)@.overlay.files == (match grams {
                Some(g) => old(self)@.overlay.files.insert(rel_path@, g@),
                None => old(self)@.overlay.files.remove(rel_path@),
            }),
    {
        self.overlay.refresh_file(rel_path, grams);
    }

    /// Void a deleted file in every layer.
    pub fn remove_file(&mut self, rel_path: &str)
        ensures
            final(self)@ == (IndexView {
                overlay: old(self)@.overlay.removed(rel_path@),
                ..old(self)@
            }),
            final(self)@.overlay.tombstones == old(self)@.overlay.tombstones.insert(rel_path@),
            final(self)@.overlay.files == old(self)@.overlay.files.remove(rel_path@),
    {
        self.overlay.remove_file(rel_path);
    }

    /// The files to verify for `query`.
    pub fn search(&self, query: &GramQuery) -> (plan: SearchPlan)
        ensures
            order::ascending_texts(text::texts(plan.candidates@)),
            forall|p: Seq<char>| #[trigger]
                text::texts(plan.candidates@).contains(p) <==> self@.candidate(*query, p),
            plan.scanned_all == (*query == GramQuery::All),
    {
        let scanned_all = match query {
            GramQuery::All => true,
            _ => false,
        };
        let mut paths = TextSet::new();
        add_proposed(&mut paths, &self.base, query, Some(&self.delta_tombstones), &self.overlay);
        match &self.delta {
            Some(delta) => {
                add_proposed(&mut paths, delta, query, None, &self.overlay);
            },
            None => {},
        }
        let dirty = self.overlay.matching_files(query);
        add_all(&mut paths, &dirty);
        let candidates = copied_texts(paths.items());
        proof {
            assert forall|p: Seq<char>| #[trigger]
                text::texts(candidates@).contains(p) <==> self@.candidate(*query, p) by {
                assert(paths@.to_set().contains(p) <==> paths@.contains(p));
                assert(text::texts(dirty@).to_set().contains(p) <==> text::texts(dirty@).contains(p));
            }
        }
        SearchPlan { candidates, scanned_all }
    }

    /// What the layers hold.
    pub fn status(&self) -> (s: FreshnessStatus)
        ensures
            s@ == self@.status(),
            text::text_option(s.commit_oid) == self@.base.commit_oid,
            s.base_files == self@.base.files.len(),
            s.delta_files == (match self@.delta {
                Some(d) => d.files.len(),
                None => 0,
            }),
            s.overlay_files == self@.overlay.files.dom().len(),
            self@.delta_tombstones.len() + self@.overlay.tombstones.len() <= usize::MAX
                ==> s.tombstones == self@.delta_tombstones.len() + self@.overlay.tombstones.len(),
            self@.delta_tombstones.len() + self@.overlay.tombstones.len() > usize::MAX
                ==> s.tombstones == usize::MAX,
    {
        let commit_oid = match self.base.commit_oid() {
            Some(o) => Some(o.to_string()),
            None => None,
        };
        let delta_files: u32 = match &self.delta {
            Some(d) => d.file_count(),
            None => 0,
        };
        FreshnessStatus {
            commit_oid,
            base_files: self.base.file_count(),
            delta_files,
            overlay_files: self.overlay.file_count(),
            tombstones: self.delta_tombstones.len().saturating_add(self.overlay.tombstone_count()),
        }
    }
}

fn overlay_of(dirty: Vec<DirtyFile>) -> (o: Overlay)
    ensures
        o@ == dirty_overlay(dirty@),
{
    let ghost all = dirty@;
    let mut o = Overlay::new();
    let mut i: usize = 0;
    proof {
        assert(all.take(0) =~= Seq::<DirtyFile>::empty());
    }
    while i < dirty.len()
        invariant
            i <= dirty@.len(),
            all == dirty@,
            o@ == dirty_overlay(all.take(i as int)),
        decreases dirty@.len() - i,
    {
        let d = &dirty[i];
        proof {
            assert(all.take(i + 1).drop_last() =~= all.take(i as int));
        }
        if !ingest::is_internal(d.path.as_str()) {
            if text::has_char(d.xy.as_str(), 'D') {
                o.remove_file(d.path.as_str());
            } else {
                let grams = match &d.grams {
                    Some(g) => Some(ingest::copied(g)),
                    None => None,
                };
                proof {
                    assert(overlay::grams_view(grams) == overlay::grams_view(d.grams));
                }
                o.refresh_file(d.path.as_str(), grams);
            }
        }
        i = i + 1;
    }
    proof {
        assert(all.take(i as int) =~= all);
    }
    o
}

/// Whether a path is in an optional set.
spec fn in_optional(s: Option<&TextSet>, p: Seq<char>) -> bool {
    match s {
        Some(t) => t@.contains(p),
        None => false,
    }
}

/// Add the paths that `shard` proposes and nothing voids.
fn add_proposed(
    paths: &mut TextSet,
    shard: &Shard,
    query: &GramQuery,
    voided: Option<&TextSet>,
    overlay: &Overlay,
)
    ensures
        forall|p: Seq<char>| #[trigger]
            final(paths)@.to_set().contains(p) <==> old(paths)@.to_set().contains(p) || (proposes(
                shard@,
                *query,
                p,
            ) && !in_optional(voided, p) && !overlay@.tombstones.contains(p)),
{
    let ids = posting::resolve_query(query, shard);
    let ghost start = paths@.to_set();
    let mut i: usize = 0;
    while i < ids.len()
        invariant
            i <= ids@.len(),
            forall|id: u32| #[trigger]
                ids@.contains(id) <==> id < shard@.files.len() && posting::holds(
                    *query,
                    posting::listed(shard@, id),
                ),
            forall|p: Seq<char>| #[trigger]
                paths@.to_set().contains(p) <==> start.contains(p) || (named_by(
                    shard@,
                    ids@,
                    i as int,
                    p,
                ) && !in_optional(voided, p) && !overlay@.tombstones.contains(p)),
        decreases ids@.len() - i,
    {
        let id: u32 = ids[i];
        let ghost before = paths@.to_set();
        proof {
            assert(ids@.contains(id));
        }
        match shard.path_of(id) {
            Some(p) => {
                let old_entry = match voided {
                    Some(t) => t.contains(p),
                    None => false,
                };
                if !old_entry && !overlay.supersedes(p) {
                    paths.insert(p);
                }
                proof {
                    assert forall|x: Seq<char>| #[trigger]
                        paths@.to_set().contains(x) <==> start.contains(x) || (named_by(
                            shard@,
                            ids@,
                            i + 1,
                            x,
                        ) && !in_optional(voided, x) && !overlay@.tombstones.contains(x)) by {
                        assert(before.contains(x) <==> start.contains(x) || (named_by(
                            shard@,
                            ids@,
                            i as int,
                            x,
                        ) && !in_optional(voided, x) && !overlay@.tombstones.contains(x)));
                        assert(shard@.files[ids@[i as int] as int] == p@);
                    }
                }
            },
            None => {},
        }
        i = i + 1;
    }
    proof {
        assert forall|p: Seq<char>| named_by(shard@, ids@, i as int, p) <==> #[trigger] proposes(
            shard@,
            *query,
            p,
        ) by {
            if named_by(shard@, ids@, i as int, p) {
                let k = choose|k: int|
                    0 <= k < i && shard@.files[#[trigger] ids@[k] as int] == p;
                let id = ids@[k];
                assert(ids@.contains(id));
                assert(posting::holds(*query, posting::listed(shard@, id)));
            }
            if proposes(shard@, *query, p) {
                let id = choose|id: u32|
                    #![trigger posting::listed(shard@, id)]
                    id < shard@.files.len() && shard@.files[id as int] == p && posting::holds(
                        *query,
                        posting::listed(shard@, id),
                    );
                assert(ids@.contains(id));
                let k = choose|k: int| 0 <= k < ids@.len() && ids@[k] == id;
                assert(shard@.files[ids@[k] as int] == p);
            }
        }
    }
}

/// Whether one of the first `n` ids belongs to the file at `p`.
spec fn named_by(view: ShardView, ids: Seq<u32>, n: int, p: Seq<char>) -> bool {
    exists|k: int| 0 <= k < n && view.files[#[trigger] ids[k] as int] == p
}

fn add_all(paths: &mut TextSet, more: &Vec<String>)
    ensures
        forall|p: Seq<char>| #[trigger]
            final(paths)@.to_set().contains(p) <==> old(paths)@.to_set().contains(p)
                || text::texts(more@).to_set().contains(p),
{
    let ghost start = paths@.to_set();
    let ghost all = text::texts(more@);
    let mut i: usize = 0;
    while i < more.len()
        invariant
            i <= more@.len(),
            all == text::texts(more@),
            forall|p: Seq<char>| #[trigger]
                paths@.to_set().contains(p) <==> start.contains(p) || all.take(
                    i as int,
                ).contains(p),
        decreases more@.len() - i,
    {
        let ghost before = paths@.to_set();
        let ghost seen = all.take(i as int);
        paths.insert(more[i].as_str());
        proof {
            let now = all.take(i + 1);
            assert(now =~= seen.push(all[i as int]));
            assert forall|p: Seq<char>| #[trigger]
                paths@.to_set().contains(p) <==> start.contains(p) || now.contains(p) by {
                assert(before.contains(p) <==> start.contains(p) || seen.contains(p));
                if seen.contains(p) {
                    let k = choose|k: int| 0 <= k < seen.len() && seen[k] == p;
                    assert(now[k] == p);
                }
                assert(now[i as int] == all[i as int]);
                if now.contains(p) && p != all[i as int] {
                    let k = choose|k: int| 0 <= k < now.len() && now[k] == p;
                    assert(seen[k] == p);
                }
            }
        }
        i = i + 1;
    }
    proof {
        assert(all.take(i as int) =~= all);
    }
}

fn copied_texts(v: &Vec<String>) -> (r: Vec<String>)
    ensures
        text::texts(r@) == text::texts(v@),
{
    let mut r: Vec<String> = Vec::new();
    let mut i: usize = 0;
    while i < v.len()
        invariant
            i <= v@.len(),
            r@.len() == i,
            forall|k: int| 0 <= k < i ==> r@[k]@ == v@[k]@,
        decreases v@.len() - i,
    {
        r.push(v[i].clone());
        i = i + 1;
    }
    proof {
        assert(text::texts(r@) =~= text::texts(v@));
    }
    r
}

} // verus!
