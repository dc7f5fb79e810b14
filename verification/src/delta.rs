//! The delta layer's state file: which commit the base shard is pinned to,
//! which commit the delta shard covers, and which paths of the base are
//! superseded.
use vstd::prelude::*;

use crate::text;

verus! {

/// The state file below the index directory.
pub open spec fn state_file() -> Seq<char> {
    "state.json"@
}

/// The delta shard below the index directory.
pub open spec fn delta_file() -> Seq<char> {
    "delta.shard"@
}

/// What the state file records.
#[derive(Debug, Clone)]
pub struct DeltaState {
    /// The commit that the base shard was built at.
    pub base_oid: String,
    /// The commit that the delta shard covers, if there is a delta.
    pub delta_oid: Option<String>,
    /// Paths of the base that newer history supersedes.
    pub tombstones: Vec<String>,
}

/// What the state file records, as characters.
pub struct StateView {
    pub base_oid: Seq<char>,
    pub delta_oid: Option<Seq<char>>,
    pub tombstones: Seq<Seq<char>>,
}

impl View for DeltaState {
    type V = StateView;

    open spec fn view(&self) -> StateView {
        StateView {
            base_oid: self.base_oid@,
            delta_oid: text::text_option(self.delta_oid),
            tombstones: text::texts(self.tombstones@),
        }
    }
}

/// Where the state file of an index directory is.
pub fn state_path(gitpixel_dir: &str) -> (path: String)
    ensures
        path@ == text::joined(gitpixel_dir@, state_file()),
        path@ == text::joined(gitpixel_dir@, "state.json"@),
{
    text::join_path(gitpixel_dir, "state.json")
}

/// Where the delta shard of an index directory is.
pub fn delta_shard_path(gitpixel_dir: &str) -> (path: String)
    ensures
        path@ == text::joined(gitpixel_dir@, delta_file()),
        path@ == text::joined(gitpixel_dir@, "delta.shard"@),
{
    text::join_path(gitpixel_dir, "delta.shard")
}

impl Default for DeltaState {
    fn default() -> (s: DeltaState)
        ensures
            s.base_oid@ == Seq::<char>::empty(),
            s.delta_oid is None,
            s.tombstones@ == Seq::<String>::empty(),
    {
        DeltaState { base_oid: String::new(), delta_oid: None, tombstones: Vec::new() }
    }
}

} // verus!
