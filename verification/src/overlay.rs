//! The dirty overlay: in-memory gram sets for files whose working-tree
//! content is newer than every shard.
use vstd::prelude::*;

use crate::order;
use crate::posting;
use crate::posting::GramQuery;
use crate::text;
use crate::text_set::{TextMap, TextSet};

verus! {

/// Files with newer content, and the paths whose older entries are void.
#[verifier::ext_equal]
pub struct OverlayView {
    pub files: Map<Seq<char>, Seq<u64>>,
    pub tombstones: Set<Seq<char>>,
}

impl OverlayView {
    pub open spec fn empty() -> OverlayView {
        OverlayView { files: Map::empty(), tombstones: Set::empty() }
    }

    /// `path` has new content with the given grams, or content that cannot be
    /// searched.
    pub open spec fn refreshed(self, path: Seq<char>, grams: Option<Seq<u64>>) -> OverlayView {
        OverlayView {
            files: match grams {
                Some(g) => self.files.insert(path, g),
                None => self.files.remove(path),
            },
            tombstones: self.tombstones.insert(path),
        }
    }

    /// `path` is gone.
    pub open spec fn removed(self, path: Seq<char>) -> OverlayView {
        self.refreshed(path, None)
    }
}

/// The grams of an optional list.
pub open spec fn grams_view(grams: Option<Vec<u64>>) -> Option<Seq<u64>> {
    match grams {
        Some(g) => Some(g@),
        None => None,
    }
}

pub struct Overlay {
    files: TextMap<Vec<u64>>,
    tombstones: TextSet,
}

impl View for Overlay {
    type V = OverlayView;

    closed spec fn view(&self) -> OverlayView {
        OverlayView {
            files: self.files@.map_values(|g: Vec<u64>| g@),
            tombstones: self.tombstones@.to_set(),
        }
    }
}

impl Overlay {
    /// Nothing is dirty.
    pub fn new() -> (r: Overlay)
        ensures
            r@ == OverlayView::empty(),
    {
        let r = Overlay { files: TextMap::new(), tombstones: TextSet::new() };
        proof {
            assert(r@.files =~= Map::<Seq<char>, Seq<u64>>::empty());
            assert(r@.tombstones =~= Set::<Seq<char>>::empty());
        }
        r
    }

    /// How many files have newer content.
    pub fn file_count(&self) -> (n: usize)
        ensures
            n == self@.files.dom().len(),
    {
        proof {
            assert(self@.files.dom() =~= self.files@.dom());
        }
        self.files.len()
    }

    /// How many paths have void entries.
    pub fn tombstone_count(&self) -> (n: usize)
        ensures
            n == self@.tombstones.len(),
    {
        self.tombstones.len()
    }

    /// Whether older entries of `path` are void.
    pub fn supersedes(&self, path: &str) -> (r: bool)
        ensures
            r == self@.tombstones.contains(path@),
    {
        self.tombstones.contains(path)
    }

    /// Record the grams of a file as it is now; `None` if it cannot be read
    /// or searched. Its older entries become void.
    pub fn refresh_file(&mut self, path: &str, grams: Option<Vec<u64>>)
        ensures
            final(self)@ == old(self)@.refreshed(path@, grams_view(grams)),
    {
        let ghost before = self@;
        let fresh = self.tombstones.insert(path);
        match grams {
            Some(g) => {
                self.files.insert(path, g);
            },
            None => {
                self.files.remove(path);
            },
        }
        proof {
            assert(self@ =~= before.refreshed(path@, grams_view(grams)));
        }
    }

    /// Void all entries of a deleted file.
    pub fn remove_file(&mut self, path: &str)
        ensures
            final(self)@ == old(self)@.removed(path@),
    {
        self.refresh_file(path, None);
    }

    /// The files whose grams satisfy `query`, in ascending order.
    pub fn matching_files(&self, query: &GramQuery) -> (r: Vec<String>)
        ensures
            order::ascending_texts(text::texts(r@)),
            forall|p: Seq<char>| #[trigger]
                text::texts(r@).contains(p) <==> self@.files.contains_key(p) && posting::holds(
                    *query,
                    posting::members(self@.files[p]),
                ),
    {
        let keys = self.files.keys();
        let ghost all = self.files.keys_view();
        let mut r: Vec<String> = Vec::new();
        let mut i: usize = 0;
        while i < keys.len()
            invariant
                i <= keys@.len(),
                text::texts(keys@) == all,
                all == self.files.keys_view(),
                order::ascending_texts(all),
                order::ascending_texts(text::texts(r@)),
                i < all.len() ==> forall|k: int|
                    0 <= k < r@.len() ==> order::text_less(#[trigger] text::texts(r@)[k], all[i as int]),
                forall|p: Seq<char>| #[trigger]
                    text::texts(r@).contains(p) <==> exists|k: int|
                        0 <= k < i && #[trigger] all[k] == p && posting::holds(
                            *query,
                            posting::members(self@.files[p]),
                        ),
            decreases keys@.len() - i,
        {
            let ghost before = text::texts(r@);
            let ghost p = all[i as int];
            let grams = self.files.value_at(i);
            proof {
                order::texts_are_ordered();
                assert(grams@ == self@.files[p]);
                assert(keys@[i as int]@ == p);
            }
            if posting::matches_grams(query, grams) {
                r.push(keys[i].clone());
                proof {
                    assert(text::texts(r@) =~= before.push(p));
                }
            }
            proof {
                let now = text::texts(r@);
                assert forall|x: Seq<char>| #[trigger] now.contains(x) <==> exists|k: int|
                    0 <= k < i + 1 && #[trigger] all[k] == x && posting::holds(
                        *query,
                        posting::members(self@.files[x]),
                    ) by {
                    if before.contains(x) {
                        let k = choose|k: int| 0 <= k < before.len() && before[k] == x;
                        assert(now[k] == x);
                    }
                    if now.contains(x) && !before.contains(x) {
                        let k = choose|k: int| 0 <= k < now.len() && now[k] == x;
                        if k < before.len() {
                            assert(before[k] == x);
                        }
                        assert(x == all[i as int]);
                    }
                    if now.len() > before.len() {
                        assert(now.last() == p);
                    }
                }
                if i + 1 < all.len() {
                    assert(order::text_less(all[i as int], all[i + 1]));
                    assert forall|k: int| 0 <= k < r@.len() implies order::text_less(
                        #[trigger] now[k],
                        all[i + 1],
                    ) by {
                        if k < before.len() {
                            assert(now[k] == before[k]);
                        }
                    }
                }
                assert forall|a: int, b: int| 0 <= a < b < now.len() implies order::text_less(
                    now[a],
                    now[b],
                ) by {
                    assert(now[a] == before[a]);
                    if b < before.len() {
                        assert(now[b] == before[b]);
                    }
                }
            }
            i = i + 1;
        }
        proof {
            assert forall|p: Seq<char>| #[trigger]
                text::texts(r@).contains(p) <==> self@.files.contains_key(p) && posting::holds(
                    *query,
                    posting::members(self@.files[p]),
                ) by {
                if self@.files.contains_key(p) {
                    assert(all.contains(p));
                    let k = choose|k: int| 0 <= k < all.len() && all[k] == p;
                    assert(all[k] == p);
                }
                if exists|k: int|
                    0 <= k < i && #[trigger] all[k] == p && posting::holds(
                        *query,
                        posting::members(self@.files[p]),
                    ) {
                    assert(all.contains(p));
                }
            }
        }
        r
    }
}

} // verus!
