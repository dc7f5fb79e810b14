//! Sets of texts and maps from texts, kept in ascending order.
use vstd::prelude::*;

use crate::order;
use crate::text;

verus! {

/// A set of texts.
pub struct TextSet {
    items: Vec<String>,
}

impl View for TextSet {
    type V = Seq<Seq<char>>;

    /// The members in ascending order.
    closed spec fn view(&self) -> Seq<Seq<char>> {
        text::texts(self.items@)
    }
}

proof fn lemma_insert_keeps_order(s: Seq<Seq<char>>, at: int, x: Seq<char>)
    requires
        order::ascending_texts(s),
        0 <= at <= s.len(),
        forall|i: int| 0 <= i < at ==> order::text_less(#[trigger] s[i], x),
        forall|i: int| at <= i < s.len() ==> order::text_less(x, #[trigger] s[i]),
    ensures
        order::ascending_texts(s.insert(at, x)),
        s.insert(at, x).to_set() == s.to_set().insert(x),
{
    let r = s.insert(at, x);
    assert forall|y: Seq<char>| r.to_set().contains(y) <==> s.to_set().insert(x).contains(y) by {
        if s.contains(y) {
            let k = choose|k: int| 0 <= k < s.len() && s[k] == y;
            if k < at {
                assert(r[k] == y);
            } else {
                assert(r[k + 1] == y);
            }
        }
        assert(r[at] == x);
        if r.contains(y) && y != x {
            let k = choose|k: int| 0 <= k < r.len() && r[k] == y;
            if k < at {
                assert(s[k] == y);
            } else {
                assert(s[k - 1] == y);
            }
        }
    }
    assert(r.to_set() =~= s.to_set().insert(x));
}

/// An ascending sequence has as many members as places.
pub proof fn lemma_ascending_count(s: Seq<Seq<char>>)
    requires
        order::ascending_texts(s),
    ensures
        s.to_set().finite(),
        s.to_set().len() == s.len(),
{
    order::texts_are_ordered();
    assert(s.no_duplicates()) by {
        assert forall|i: int, j: int| 0 <= i < s.len() && 0 <= j < s.len() && i != j implies s[i]
            != s[j] by {
            if i < j {
                assert(order::text_less(s[i], s[j]));
            } else {
                assert(order::text_less(s[j], s[i]));
            }
        }
    }
    s.unique_seq_to_set();
}

proof fn lemma_remove_keeps_order(s: Seq<Seq<char>>, at: int)
    requires
        order::ascending_texts(s),
        0 <= at < s.len(),
    ensures
        order::ascending_texts(s.remove(at)),
        s.remove(at).to_set() == s.to_set().remove(s[at]),
{
    order::texts_are_ordered();
    let r = s.remove(at);
    assert forall|y: Seq<char>|
        r.to_set().contains(y) <==> s.to_set().remove(s[at]).contains(y) by {
        if s.contains(y) && y != s[at] {
            let k = choose|k: int| 0 <= k < s.len() && s[k] == y;
            if k < at {
                assert(r[k] == y);
            } else {
                assert(r[k - 1] == y);
            }
        }
        if r.contains(y) {
            let k = choose|k: int| 0 <= k < r.len() && r[k] == y;
            if k < at {
                assert(s[k] == y);
                assert(order::text_less(s[k], s[at]));
            } else {
                assert(s[k + 1] == y);
                assert(order::text_less(s[at], s[k + 1]));
            }
        }
    }
    assert(r.to_set() =~= s.to_set().remove(s[at]));
}

impl TextSet {
    #[verifier::type_invariant]
    closed spec fn inv(self) -> bool {
        order::ascending_texts(text::texts(self.items@))
    }

    /// The empty set.
    pub fn new() -> (r: TextSet)
        ensures
            r@ == Seq::<Seq<char>>::empty(),
    {
        let r = TextSet { items: Vec::new() };
        proof {
            assert(r@ =~= Seq::<Seq<char>>::empty());
        }
        r
    }

    /// How many members there are.
    pub fn len(&self) -> (n: usize)
        ensures
            n == self@.len(),
            n == self@.to_set().len(),
    {
        proof {
            use_type_invariant(self);
            lemma_ascending_count(self@);
        }
        self.items.len()
    }

    /// The members in ascending order.
    pub fn items(&self) -> (r: &Vec<String>)
        ensures
            text::texts(r@) == self@,
            order::ascending_texts(self@),
    {
        proof {
            use_type_invariant(self);
        }
        &self.items
    }

    /// How many members come before `x`.
    pub fn position(&self, x: &str) -> (at: usize)
        ensures
            at <= self@.len(),
            order::ascending_texts(self@),
            forall|i: int| 0 <= i < at ==> order::text_less(#[trigger] self@[i], x@),
            forall|i: int| at <= i < self@.len() ==> !order::text_less(#[trigger] self@[i], x@),
    {
        proof {
            use_type_invariant(self);
            order::texts_are_ordered();
        }
        let mut lo: usize = 0;
        let mut hi: usize = self.items.len();
        while lo < hi
            invariant
                lo <= hi <= self.items@.len(),
                self@ == text::texts(self.items@),
                order::ascending_texts(self@),
                forall|i: int| 0 <= i < lo ==> order::text_less(#[trigger] self@[i], x@),
                forall|i: int|
                    hi <= i < self@.len() ==> !order::text_less(#[trigger] self@[i], x@),
            decreases hi - lo,
        {
            let mid: usize = lo + (hi - lo) / 2;
            proof {
                order::texts_are_ordered();
                assert(self@[mid as int] == self.items@[mid as int]@);
            }
            if order::text_before(self.items[mid].as_str(), x) {
                proof {
                    assert forall|i: int| 0 <= i < mid + 1 implies order::text_less(
                        #[trigger] self@[i],
                        x@,
                    ) by {
                        if i < mid {
                            assert(order::text_less(self@[i], self@[mid as int]));
                        }
                    }
                }
                lo = mid + 1;
            } else {
                proof {
                    assert forall|i: int| mid <= i < self@.len() implies !order::text_less(
                        #[trigger] self@[i],
                        x@,
                    ) by {
                        if i > mid {
                            assert(order::text_less(self@[mid as int], self@[i]));
                        }
                    }
                }
                hi = mid;
            }
        }
        lo
    }

    /// Whether `x` is a member.
    pub fn contains(&self, x: &str) -> (r: bool)
        ensures
            r == self@.contains(x@),
    {
        proof {
            order::texts_are_ordered();
        }
        let at: usize = self.position(x);
        if at < self.items.len() && text::same_text(self.items[at].as_str(), x) {
            proof {
                assert(self@[at as int] == x@);
            }
            true
        } else {
            proof {
                if self@.contains(x@) {
                    let k = choose|k: int| 0 <= k < self@.len() && self@[k] == x@;
                    if k > at {
                        assert(order::text_less(self@[at as int], self@[k]));
                    }
                }
            }
            false
        }
    }

    /// Add `x`. Whether it was new.
    pub fn insert(&mut self, x: &str) -> (fresh: bool)
        ensures
            fresh == !old(self)@.contains(x@),
            final(self)@.to_set() == old(self)@.to_set().insert(x@),
            order::ascending_texts(final(self)@),
            final(self)@.len() == old(self)@.len() + if fresh {
                1int
            } else {
                0
            },
    {
        proof {
            order::texts_are_ordered();
        }
        let ghost before = self@;
        let at: usize = self.position(x);
        if self.contains(x) {
            proof {
                assert(before.to_set().insert(x@) =~= before.to_set());
            }
            return false;
        }
        proof {
            assert forall|i: int| at <= i < before.len() implies order::text_less(
                x@,
                #[trigger] before[i],
            ) by {
                assert(before.contains(before[i]));
            }
            lemma_insert_keeps_order(before, at as int, x@);
        }
        let mut items: Vec<String> = Vec::new();
        std::mem::swap(&mut items, &mut self.items);
        items.insert(at, x.to_string());
        proof {
            assert(text::texts(items@) =~= before.insert(at as int, x@));
        }
        self.items = items;
        true
    }

    /// Take `x` out. Whether it was a member.
    pub fn remove(&mut self, x: &str) -> (found: bool)
        ensures
            found == old(self)@.contains(x@),
            final(self)@.to_set() == old(self)@.to_set().remove(x@),
            order::ascending_texts(final(self)@),
    {
        proof {
            order::texts_are_ordered();
        }
        let ghost before = self@;
        let at: usize = self.position(x);
        if !self.contains(x) {
            proof {
                assert(before.to_set().remove(x@) =~= before.to_set());
            }
            return false;
        }
        proof {
            let k = choose|k: int| 0 <= k < before.len() && before[k] == x@;
            if k > at {
                assert(order::text_less(before[at as int], before[k]));
            }
            assert(before[at as int] == x@);
            lemma_remove_keeps_order(before, at as int);
        }
        let mut items: Vec<String> = Vec::new();
        std::mem::swap(&mut items, &mut self.items);
        items.remove(at);
        proof {
            assert(text::texts(items@) =~= before.remove(at as int));
        }
        self.items = items;
        true
    }
}

/// A map from texts to values.
pub struct TextMap<V> {
    keys: TextSet,
    values: Vec<V>,
}

/// The map that assigns `values[i]` to `keys[i]`.
pub open spec fn paired<V>(keys: Seq<Seq<char>>, values: Seq<V>) -> Map<Seq<char>, V> {
    Map::new(|k: Seq<char>| keys.contains(k), |k: Seq<char>| values[keys.index_of(k)])
}

impl<V> TextMap<V> {
    /// The keys in ascending order.
    pub closed spec fn keys_view(&self) -> Seq<Seq<char>> {
        self.keys@
    }

    /// The values in the order of their keys.
    pub closed spec fn values_view(&self) -> Seq<V> {
        self.values@
    }

    #[verifier::type_invariant]
    closed spec fn inv(self) -> bool {
        self.keys@.len() == self.values@.len()
    }
}

impl<V> View for TextMap<V> {
    type V = Map<Seq<char>, V>;

    open spec fn view(&self) -> Map<Seq<char>, V> {
        paired(self.keys_view(), self.values_view())
    }
}

proof fn lemma_index_of(keys: Seq<Seq<char>>, at: int)
    requires
        order::ascending_texts(keys),
        0 <= at < keys.len(),
    ensures
        keys.index_of(keys[at]) == at,
{
    order::texts_are_ordered();
    assert(keys.contains(keys[at]));
    let k = keys.index_of(keys[at]);
    assert(0 <= k < keys.len() && keys[k] == keys[at]);
    if k < at {
        assert(order::text_less(keys[k], keys[at]));
    } else if at < k {
        assert(order::text_less(keys[at], keys[k]));
    }
}

/// The pairs of a map with ascending keys are its assignments.
pub proof fn lemma_paired_at<V>(keys: Seq<Seq<char>>, values: Seq<V>, at: int)
    requires
        order::ascending_texts(keys),
        0 <= at < keys.len(),
    ensures
        paired(keys, values).contains_key(keys[at]),
        paired(keys, values)[keys[at]] == values[at],
{
    lemma_index_of(keys, at);
    assert(keys.contains(keys[at]));
}

impl<V> TextMap<V> {
    /// The empty map.
    pub fn new() -> (r: TextMap<V>)
        ensures
            r@ == Map::<Seq<char>, V>::empty(),
            r.keys_view() == Seq::<Seq<char>>::empty(),
    {
        let r = TextMap { keys: TextSet::new(), values: Vec::new() };
        proof {
            assert(r@ =~= Map::<Seq<char>, V>::empty());
        }
        r
    }

    /// How many keys have a value.
    pub fn len(&self) -> (n: usize)
        ensures
            n == self.keys_view().len(),
            n == self@.dom().len(),
    {
        proof {
            assert(self@.dom() =~= self.keys@.to_set());
        }
        self.keys.len()
    }

    /// The keys in ascending order.
    pub fn keys(&self) -> (r: &Vec<String>)
        ensures
            text::texts(r@) == self.keys_view(),
            order::ascending_texts(self.keys_view()),
    {
        self.keys.items()
    }

    /// The value of the key at position `i`.
    pub fn value_at(&self, i: usize) -> (r: &V)
        requires
            i < self.keys_view().len(),
        ensures
            *r == self.values_view()[i as int],
            self@.contains_key(self.keys_view()[i as int]),
            *r == self@[self.keys_view()[i as int]],
    {
        proof {
            use_type_invariant(self);
        }
        let keys = self.keys.items();
        proof {
            lemma_paired_at(self.keys@, self.values@, i as int);
        }
        &self.values[i]
    }

    /// The value of `k`.
    pub fn get(&self, k: &str) -> (r: Option<&V>)
        ensures
            match r {
                Some(v) => self@.contains_key(k@) && *v == self@[k@],
                None => !self@.contains_key(k@),
            },
    {
        proof {
            use_type_invariant(self);
            order::texts_are_ordered();
        }
        let at: usize = self.keys.position(k);
        if self.keys.contains(k) {
            proof {
                let i = choose|i: int| 0 <= i < self.keys@.len() && self.keys@[i] == k@;
                if i > at {
                    assert(order::text_less(self.keys@[at as int], self.keys@[i]));
                }
                lemma_paired_at(self.keys@, self.values@, at as int);
            }
            Some(&self.values[at])
        } else {
            None
        }
    }

    /// Assign `v` to `k`.
    pub fn insert(&mut self, k: &str, v: V)
        ensures
            final(self)@ == old(self)@.insert(k@, v),
            final(self).keys_view().to_set() == old(self).keys_view().to_set().insert(k@),
            order::ascending_texts(final(self).keys_view()),
    {
        let mut keys = TextSet::new();
        let mut values: Vec<V> = Vec::new();
        take_parts(self, &mut keys, &mut values);
        put(&mut keys, &mut values, k, v);
        *self = TextMap { keys, values };
    }

    /// Forget `k`.
    pub fn remove(&mut self, k: &str)
        ensures
            final(self)@ == old(self)@.remove(k@),
            final(self).keys_view().to_set() == old(self).keys_view().to_set().remove(k@),
            order::ascending_texts(final(self).keys_view()),
    {
        let mut keys = TextSet::new();
        let mut values: Vec<V> = Vec::new();
        take_parts(self, &mut keys, &mut values);
        drop_key(&mut keys, &mut values, k);
        *self = TextMap { keys, values };
    }
}

fn take_parts<V>(m: &mut TextMap<V>, keys: &mut TextSet, values: &mut Vec<V>)
    requires
        old(keys)@.len() == 0,
        old(values)@.len() == 0,
    ensures
        final(keys)@ == old(m).keys_view(),
        final(values)@ == old(m).values_view(),
        final(keys)@.len() == final(values)@.len(),
{
    proof {
        use_type_invariant(&*m);
    }
    let mut empty: TextMap<V> = TextMap { keys: TextSet::new(), values: Vec::new() };
    std::mem::swap(&mut empty, m);
    proof {
        use_type_invariant(&empty);
    }
    let TextMap { keys: k, values: v } = empty;
    *keys = k;
    *values = v;
}

fn put<V>(keys: &mut TextSet, values: &mut Vec<V>, k: &str, v: V)
    requires
        old(keys)@.len() == old(values)@.len(),
    ensures
        final(keys)@.len() == final(values)@.len(),
        paired(final(keys)@, final(values)@) == paired(old(keys)@, old(values)@).insert(k@, v),
        final(keys)@.to_set() == old(keys)@.to_set().insert(k@),
        order::ascending_texts(final(keys)@),
{
    proof {
        order::texts_are_ordered();
    }
    let ghost keys0 = keys@;
    let ghost values0 = values@;
    let at: usize = keys.position(k);
    let known = keys.contains(k);
    if known {
        proof {
            let i = choose|i: int| 0 <= i < keys0.len() && keys0[i] == k@;
            if i > at {
                assert(order::text_less(keys0[at as int], keys0[i]));
            }
            assert(keys0[at as int] == k@);
        }
        values.set(at, v);
        proof {
            assert(keys0.to_set().insert(k@) =~= keys0.to_set());
            assert forall|x: Seq<char>| keys0.contains(x) implies #[trigger] paired(
                keys0,
                values@,
            )[x] == paired(keys0, values0).insert(k@, v)[x] by {
                let i = choose|i: int| 0 <= i < keys0.len() && keys0[i] == x;
                lemma_paired_at(keys0, values@, i);
                lemma_paired_at(keys0, values0, i);
                if x == k@ {
                    lemma_index_of(keys0, i);
                    lemma_index_of(keys0, at as int);
                }
            }
            assert(paired(keys0, values@) =~= paired(keys0, values0).insert(k@, v));
        }
    } else {
        let fresh = keys.insert(k);
        values.insert(at, v);
        proof {
            assert forall|i: int| at <= i < keys0.len() implies order::text_less(
                k@,
                #[trigger] keys0[i],
            ) by {
                assert(keys0.contains(keys0[i]));
            }
            lemma_insert_keeps_order(keys0, at as int, k@);
            order::ascending_texts_unique(keys@, keys0.insert(at as int, k@));
            let keys1 = keys@;
            assert forall|x: Seq<char>| keys1.contains(x) <==> keys0.contains(x) || x == k@ by {
                assert(keys1.to_set().contains(x) <==> keys0.to_set().insert(k@).contains(x));
            }
            assert forall|x: Seq<char>| keys1.contains(x) implies #[trigger] paired(
                keys1,
                values@,
            )[x] == paired(keys0, values0).insert(k@, v)[x] by {
                let i = choose|i: int| 0 <= i < keys1.len() && keys1[i] == x;
                lemma_paired_at(keys1, values@, i);
                if i < at {
                    assert(keys0[i] == x);
                    lemma_paired_at(keys0, values0, i);
                } else if i > at {
                    assert(keys0[i - 1] == x);
                    lemma_paired_at(keys0, values0, i - 1);
                }
                if i != at {
                    assert(x != k@) by {
                        lemma_index_of(keys1, i);
                        lemma_index_of(keys1, at as int);
                    }
                }
            }
            assert(paired(keys1, values@) =~= paired(keys0, values0).insert(k@, v));
        }
    }
}

fn drop_key<V>(keys: &mut TextSet, values: &mut Vec<V>, k: &str)
    requires
        old(keys)@.len() == old(values)@.len(),
    ensures
        final(keys)@.len() == final(values)@.len(),
        paired(final(keys)@, final(values)@) == paired(old(keys)@, old(values)@).remove(k@),
        final(keys)@.to_set() == old(keys)@.to_set().remove(k@),
        order::ascending_texts(final(keys)@),
{
    proof {
        order::texts_are_ordered();
    }
    let ghost keys0 = keys@;
    let ghost values0 = values@;
    let at: usize = keys.position(k);
    if !keys.remove(k) {
        proof {
            assert(keys0.to_set().remove(k@) =~= keys0.to_set());
            order::ascending_texts_unique(keys@, keys0);
            assert(paired(keys0, values0).remove(k@) =~= paired(keys0, values0));
        }
        return;
    }
    proof {
        let i = choose|i: int| 0 <= i < keys0.len() && keys0[i] == k@;
        if i > at {
            assert(order::text_less(keys0[at as int], keys0[i]));
        }
        lemma_remove_keeps_order(keys0, at as int);
        order::ascending_texts_unique(keys@, keys0.remove(at as int));
    }
    values.remove(at);
    proof {
        let keys1 = keys@;
        assert forall|x: Seq<char>| keys1.contains(x) <==> keys0.contains(x) && x != k@ by {
            assert(keys1.to_set().contains(x) <==> keys0.to_set().remove(k@).contains(x));
        }
        assert forall|x: Seq<char>| keys1.contains(x) implies #[trigger] paired(keys1, values@)[x]
            == paired(keys0, values0)[x] by {
            let i = choose|i: int| 0 <= i < keys1.len() && keys1[i] == x;
            lemma_paired_at(keys1, values@, i);
            if i < at {
                assert(keys0[i] == x);
                lemma_paired_at(keys0, values0, i);
            } else {
                assert(keys0[i + 1] == x);
                lemma_paired_at(keys0, values0, i + 1);
            }
        }
        assert(paired(keys1, values@) =~= paired(keys0, values0).remove(k@));
    }
}

} // verus!
