//! The order of texts, and stable sorting.
use vstd::prelude::*;
use vstd::utf8;

verus! {

/// Whether the bytes `a` come strictly before `b` lexicographically.
pub open spec fn lex_less(a: Seq<u8>, b: Seq<u8>) -> bool
    decreases a.len(),
{
    if b.len() == 0 {
        false
    } else if a.len() == 0 {
        true
    } else if a[0] != b[0] {
        a[0] < b[0]
    } else {
        lex_less(a.drop_first(), b.drop_first())
    }
}

/// Whether the text `a` comes strictly before `b`: by their UTF-8 bytes.
pub open spec fn text_less(a: Seq<char>, b: Seq<char>) -> bool {
    lex_less(utf8::encode_utf8(a), utf8::encode_utf8(b))
}

/// Whether the texts are strictly ascending.
pub open spec fn ascending_texts(s: Seq<Seq<char>>) -> bool {
    forall|i: int, j: int| 0 <= i < j < s.len() ==> text_less(s[i], s[j])
}

proof fn lemma_lex_transitive(a: Seq<u8>, b: Seq<u8>, c: Seq<u8>)
    requires
        lex_less(a, b),
        lex_less(b, c),
    ensures
        lex_less(a, c),
    decreases a.len(),
{
    if a.len() > 0 && a[0] == b[0] && b[0] == c[0] {
        lemma_lex_transitive(a.drop_first(), b.drop_first(), c.drop_first());
    }
}

proof fn lemma_lex_irreflexive(a: Seq<u8>)
    ensures
        !lex_less(a, a),
    decreases a.len(),
{
    if a.len() > 0 {
        lemma_lex_irreflexive(a.drop_first());
    }
}

proof fn lemma_lex_total(a: Seq<u8>, b: Seq<u8>)
    ensures
        a == b || lex_less(a, b) || lex_less(b, a),
    decreases a.len(),
{
    if a.len() == 0 || b.len() == 0 {
        if a.len() == 0 && b.len() == 0 {
            assert(a =~= b);
        }
    } else if a[0] == b[0] {
        lemma_lex_total(a.drop_first(), b.drop_first());
        if a.drop_first() == b.drop_first() {
            assert(a =~= seq![a[0]] + a.drop_first());
            assert(b =~= seq![b[0]] + b.drop_first());
        }
    }
}

/// Whether `a` and `b` agree in their first `k` bytes, and `a` then ends or has
/// the smaller byte.
pub open spec fn parts_ways(a: Seq<u8>, b: Seq<u8>, k: int) -> bool {
    &&& 0 <= k <= a.len()
    &&& k < b.len()
    &&& forall|i: int| 0 <= i < k ==> a[i] == b[i]
    &&& k == a.len() || a[k] < b[k]
}

/// A text comes before another exactly when, where their UTF-8 bytes part ways,
/// it ends or has the smaller byte.
pub proof fn first_difference_decides(a: Seq<char>, b: Seq<char>)
    ensures
        text_less(a, b) <==> exists|k: int| #[trigger]
            parts_ways(utf8::encode_utf8(a), utf8::encode_utf8(b), k),
{
    lemma_first_difference(utf8::encode_utf8(a), utf8::encode_utf8(b));
}

proof fn lemma_first_difference(a: Seq<u8>, b: Seq<u8>)
    ensures
        lex_less(a, b) <==> exists|k: int| #[trigger] parts_ways(a, b, k),
    decreases a.len(),
{
    if a.len() == 0 {
        if b.len() > 0 {
            assert(parts_ways(a, b, 0));
        }
    } else if b.len() > 0 {
        if a[0] != b[0] {
            if a[0] < b[0] {
                assert(parts_ways(a, b, 0));
            }
        } else {
            let c = a.drop_first();
            let d = b.drop_first();
            lemma_first_difference(c, d);
            if exists|k: int| #[trigger] parts_ways(c, d, k) {
                let k = choose|k: int| #[trigger] parts_ways(c, d, k);
                assert forall|i: int| 0 <= i < k + 1 implies a[i] == b[i] by {
                    if i > 0 {
                        assert(c[i - 1] == d[i - 1]);
                    }
                }
                assert(parts_ways(a, b, k + 1));
            }
            if exists|k: int| #[trigger] parts_ways(a, b, k) {
                let k = choose|k: int| #[trigger] parts_ways(a, b, k);
                assert forall|i: int| 0 <= i < k - 1 implies c[i] == d[i] by {
                    assert(a[i + 1] == b[i + 1]);
                }
                assert(parts_ways(c, d, k - 1));
            }
        }
    }
}

/// Texts are ordered: no text comes before itself, the order is transitive,
/// and of two different texts one comes before the other.
pub proof fn texts_are_ordered()
    ensures
        forall|a: Seq<char>| !#[trigger] text_less(a, a),
        forall|a: Seq<char>, b: Seq<char>, c: Seq<char>| #[trigger]
            text_less(a, b) && #[trigger] text_less(b, c) ==> text_less(a, c),
        forall|a: Seq<char>, b: Seq<char>|
            a == b || #[trigger] text_less(a, b) || text_less(b, a),
{
    assert forall|a: Seq<char>| !#[trigger] text_less(a, a) by {
        lemma_lex_irreflexive(utf8::encode_utf8(a));
    }
    assert forall|a: Seq<char>, b: Seq<char>, c: Seq<char>| #[trigger]
        text_less(a, b) && #[trigger] text_less(b, c) implies text_less(a, c) by {
        lemma_lex_transitive(utf8::encode_utf8(a), utf8::encode_utf8(b), utf8::encode_utf8(c));
    }
    assert forall|a: Seq<char>, b: Seq<char>|
        a == b || #[trigger] text_less(a, b) || text_less(b, a) by {
        lemma_lex_total(utf8::encode_utf8(a), utf8::encode_utf8(b));
        utf8::encode_utf8_decode_utf8(a);
        utf8::encode_utf8_decode_utf8(b);
    }
}

/// Two ascending sequences with the same members are the same sequence.
pub proof fn ascending_texts_unique(a: Seq<Seq<char>>, b: Seq<Seq<char>>)
    requires
        ascending_texts(a),
        ascending_texts(b),
        a.to_set() == b.to_set(),
    ensures
        a == b,
    decreases a.len(),
{
    texts_are_ordered();
    if a.len() == 0 {
        if b.len() > 0 {
            assert(b.to_set().contains(b[0]));
            assert(a.to_set().contains(b[0]));
        }
    } else {
        assert(a.to_set().contains(a[0]));
        assert(b.contains(a[0]));
        let j = choose|j: int| 0 <= j < b.len() && b[j] == a[0];
        assert(b.to_set().contains(b[0]));
        assert(a.contains(b[0]));
        let i = choose|i: int| 0 <= i < a.len() && a[i] == b[0];
        assert(a[0] == b[0]) by {
            if i > 0 && j > 0 {
                assert(text_less(a[0], a[i]));
                assert(text_less(b[0], b[j]));
            }
        }
        let ra = a.drop_first();
        let rb = b.drop_first();
        assert forall|x: Seq<char>| ra.to_set().contains(x) <==> rb.to_set().contains(x) by {
            if ra.contains(x) {
                let k = choose|k: int| 0 <= k < ra.len() && ra[k] == x;
                assert(a[k + 1] == x && text_less(a[0], a[k + 1]));
                assert(a.to_set().contains(x));
                assert(b.contains(x));
                let l = choose|l: int| 0 <= l < b.len() && b[l] == x;
                assert(rb[l - 1] == x);
            }
            if rb.contains(x) {
                let k = choose|k: int| 0 <= k < rb.len() && rb[k] == x;
                assert(b[k + 1] == x && text_less(b[0], b[k + 1]));
                assert(b.to_set().contains(x));
                assert(a.contains(x));
                let l = choose|l: int| 0 <= l < a.len() && a[l] == x;
                assert(ra[l - 1] == x);
            }
        }
        assert(ra.to_set() =~= rb.to_set());
        ascending_texts_unique(ra, rb);
        assert(a =~= seq![a[0]] + ra);
        assert(b =~= seq![b[0]] + rb);
    }
}

/// Whether `a` comes strictly before `b`.
pub fn text_before(a: &str, b: &str) -> (r: bool)
    ensures
        r == text_less(a@, b@),
{
    let x = a.as_bytes();
    let y = b.as_bytes();
    let mut i: usize = 0;
    proof {
        assert(x@.skip(0) =~= x@);
        assert(y@.skip(0) =~= y@);
    }
    while i < x.len() && i < y.len()
        invariant
            i <= x@.len(),
            i <= y@.len(),
            x@ == utf8::encode_utf8(a@),
            y@ == utf8::encode_utf8(b@),
            lex_less(x@, y@) == lex_less(x@.skip(i as int), y@.skip(i as int)),
        decreases x@.len() - i,
    {
        proof {
            assert(x@.skip(i as int).drop_first() =~= x@.skip(i + 1));
            assert(y@.skip(i as int).drop_first() =~= y@.skip(i + 1));
        }
        if x[i] != y[i] {
            return x[i] < y[i];
        }
        i = i + 1;
    }
    i < y.len()
}

// ---- stable sorting ----

/// Values that can be sorted.
pub trait Ranked: Sized {
    /// Whether `self` belongs strictly before `other`.
    spec fn precedes(self, other: Self) -> bool;

    /// The order has no cycles, and what belongs neither before nor after a
    /// value shares its place.
    proof fn is_weak_order()
        ensures
            forall|a: Self| !#[trigger] a.precedes(a),
            forall|a: Self, b: Self, c: Self| #[trigger]
                a.precedes(b) && #[trigger] b.precedes(c) ==> a.precedes(c),
            forall|a: Self, b: Self, c: Self|
                !#[trigger] a.precedes(b) && !#[trigger] b.precedes(c) ==> !a.precedes(c),
    ;

    fn goes_before(&self, other: &Self) -> (r: bool)
        ensures
            r == self.precedes(*other),
    ;
}

/// Whether no value stands behind one that it belongs before.
pub open spec fn in_order<T: Ranked>(s: Seq<T>) -> bool {
    forall|i: int, j: int| 0 <= i < j < s.len() ==> !(#[trigger] s[j]).precedes(#[trigger] s[i])
}

/// Whether two values share their place in the order.
pub open spec fn ties<T: Ranked>(a: T, b: T) -> bool {
    !a.precedes(b) && !b.precedes(a)
}

/// The members of `s` that share the place of `x`, in the order of `s`.
pub open spec fn peers<T: Ranked>(s: Seq<T>, x: T) -> Seq<T> {
    s.filter(|y: T| ties(y, x))
}

/// Whether `to` is `from`, stably sorted: in order, and values that share a
/// place stand as they stood.
pub open spec fn stably_sorted<T: Ranked>(from: Seq<T>, to: Seq<T>) -> bool {
    &&& in_order(to)
    &&& from.to_multiset() == to.to_multiset()
    &&& forall|x: T| #[trigger] peers(to, x) == peers(from, x)
}

proof fn lemma_peers_insert<T: Ranked>(s: Seq<T>, at: int, v: T, x: T)
    requires
        0 <= at <= s.len(),
        forall|i: int| at <= i < s.len() ==> v.precedes(#[trigger] s[i]),
    ensures
        peers(s.insert(at, v), x) == if ties(v, x) {
            peers(s, x).push(v)
        } else {
            peers(s, x)
        },
    decreases s.len(),
{
    reveal(Seq::filter);
    T::is_weak_order();
    let r = s.insert(at, v);
    if at == s.len() {
        assert(r =~= s.push(v));
        assert(r.drop_last() =~= s);
    } else {
        let t = s.drop_last();
        let last = s.last();
        assert(r.drop_last() =~= t.insert(at, v));
        assert(r.last() == last);
        assert(v.precedes(s[s.len() - 1]));
        lemma_peers_insert(t, at, v, x);
        if ties(v, x) {
            assert(!ties(last, x));
        }
    }
}

/// `from`, stably sorted.
pub open spec fn sorted<T: Ranked>(from: Seq<T>) -> Seq<T> {
    choose|to: Seq<T>| stably_sorted(from, to)
}

proof fn lemma_last_peer<T: Ranked>(s: Seq<T>, x: T)
    requires
        s.len() > 0,
        ties(s.last(), x),
    ensures
        peers(s, x).len() > 0,
        peers(s, x).last() == s.last(),
        peers(s, x).drop_last() == peers(s.drop_last(), x),
{
    reveal(Seq::filter);
    assert(peers(s, x).drop_last() =~= peers(s.drop_last(), x));
}

proof fn lemma_other_peer<T: Ranked>(s: Seq<T>, x: T)
    requires
        s.len() > 0,
        !ties(s.last(), x),
    ensures
        peers(s, x) == peers(s.drop_last(), x),
{
    reveal(Seq::filter);
}

/// A sequence can be stably sorted in one way only.
pub proof fn stable_order_is_unique<T: Ranked>(a: Seq<T>, b: Seq<T>)
    requires
        in_order(a),
        in_order(b),
        a.to_multiset() == b.to_multiset(),
        forall|x: T| #[trigger] peers(a, x) == peers(b, x),
    ensures
        a == b,
    decreases a.len(),
{
    T::is_weak_order();
    vstd::seq_lib::to_multiset_len(a);
    vstd::seq_lib::to_multiset_len(b);
    if a.len() == 0 {
        assert(a =~= b);
    } else {
        let x = a.last();
        let y = b.last();
        vstd::seq_lib::to_multiset_contains(a, x);
        vstd::seq_lib::to_multiset_contains(b, x);
        vstd::seq_lib::to_multiset_contains(a, y);
        vstd::seq_lib::to_multiset_contains(b, y);
        assert(a[a.len() - 1] == x && b[b.len() - 1] == y);
        assert(b.contains(x));
        assert(a.contains(y));
        let i = choose|i: int| 0 <= i < b.len() && b[i] == x;
        let j = choose|j: int| 0 <= j < a.len() && a[j] == y;
        assert(!y.precedes(x)) by {
            if i < b.len() - 1 {
                assert(!b[b.len() - 1].precedes(b[i]));
            }
        }
        assert(!x.precedes(y)) by {
            if j < a.len() - 1 {
                assert(!a[a.len() - 1].precedes(a[j]));
            }
        }
        assert(ties(x, x) && ties(y, x));
        lemma_last_peer(a, x);
        lemma_last_peer(b, x);
        assert(peers(a, x) == peers(b, x));
        assert(x == y);
        let c = a.drop_last();
        let d = b.drop_last();
        assert forall|z: T| #[trigger] peers(c, z) == peers(d, z) by {
            assert(peers(a, z) == peers(b, z));
            if ties(x, z) {
                lemma_last_peer(a, z);
                lemma_last_peer(b, z);
            } else {
                lemma_other_peer(a, z);
                lemma_other_peer(b, z);
            }
        }
        assert(a =~= c.push(x));
        assert(b =~= d.push(x));
        vstd::seq_lib::to_multiset_build(c, x);
        vstd::seq_lib::to_multiset_build(d, x);
        assert(c.to_multiset() =~= a.to_multiset().remove(x));
        assert(d.to_multiset() =~= b.to_multiset().remove(x));
        assert forall|i: int, j: int| 0 <= i < j < c.len() implies !(#[trigger] c[j]).precedes(
            #[trigger] c[i],
        ) by {
            assert(!a[j].precedes(a[i]));
        }
        assert forall|i: int, j: int| 0 <= i < j < d.len() implies !(#[trigger] d[j]).precedes(
            #[trigger] d[i],
        ) by {
            assert(!b[j].precedes(b[i]));
        }
        stable_order_is_unique(c, d);
    }
}

spec fn place<T: Ranked>(s: Seq<T>, v: T) -> int
    decreases s.len(),
{
    if s.len() == 0 || !v.precedes(s.last()) {
        s.len() as int
    } else {
        place(s.drop_last(), v)
    }
}

proof fn lemma_place<T: Ranked>(s: Seq<T>, v: T)
    ensures
        0 <= place(s, v) <= s.len(),
        forall|i: int| place(s, v) <= i < s.len() ==> v.precedes(#[trigger] s[i]),
        place(s, v) > 0 ==> !v.precedes(s[place(s, v) - 1]),
    decreases s.len(),
{
    if s.len() > 0 && v.precedes(s.last()) {
        let t = s.drop_last();
        lemma_place(t, v);
        assert forall|i: int| place(s, v) <= i < s.len() implies v.precedes(#[trigger] s[i]) by {
            if i < t.len() {
                assert(s[i] == t[i]);
            }
        }
    }
}

/// Every sequence can be stably sorted.
pub proof fn sorting_exists<T: Ranked>(from: Seq<T>)
    ensures
        stably_sorted(from, sorted(from)),
    decreases from.len(),
{
    if from.len() == 0 {
        assert(stably_sorted(from, from));
    } else {
        sorting_exists(from.drop_last());
        lemma_inserted(from);
    }
}

/// Sorting all but the last value and inserting that one sorts all.
proof fn lemma_inserted<T: Ranked>(from: Seq<T>)
    requires
        from.len() > 0,
        stably_sorted(from.drop_last(), sorted(from.drop_last())),
    ensures
        ({
            let s = sorted(from.drop_last());
            stably_sorted(from, s.insert(place(s, from.last()), from.last()))
        }),
{
    let rest = from.drop_last();
    let v = from.last();
    let s = sorted(rest);
    let at = place(s, v);
    lemma_place(s, v);
    let to = s.insert(at, v);
    lemma_still_in_order(s, at, v);
    vstd::seq_lib::to_multiset_insert(s, at, v);
    vstd::seq_lib::to_multiset_build(rest, v);
    assert(from =~= rest.push(v));
    assert forall|x: T| #[trigger] peers(to, x) == peers(from, x) by {
        assert(peers(s, x) == peers(rest, x));
        lemma_peers_insert(s, at, v, x);
        lemma_peers_insert(rest, rest.len() as int, v, x);
        assert(rest.insert(rest.len() as int, v) =~= from);
    }
}

/// Whether two sequences hold the same values, place by place.
pub open spec fn alike<T>(a: Seq<T>, b: Seq<T>, same: spec_fn(T, T) -> bool) -> bool {
    &&& a.len() == b.len()
    &&& forall|i: int| #![trigger a[i]] #![trigger b[i]] 0 <= i < a.len() ==> same(a[i], b[i])
}

proof fn lemma_same_place<T: Ranked>(
    a: Seq<T>,
    b: Seq<T>,
    x: T,
    y: T,
    same: spec_fn(T, T) -> bool,
)
    requires
        alike(a, b, same),
        same(x, y),
        forall|p: T, q: T, u: T, v: T| #[trigger]
            same(p, q) && #[trigger] same(u, v) ==> p.precedes(u) == q.precedes(v),
    ensures
        place(a, x) == place(b, y),
    decreases a.len(),
{
    if a.len() > 0 {
        assert(same(a[a.len() - 1], b[b.len() - 1]));
        let c = a.drop_last();
        let d = b.drop_last();
        assert forall|i: int| 0 <= i < c.len() implies same(c[i], d[i]) by {
            assert(same(a[i], b[i]));
        }
        lemma_same_place(c, d, x, y, same);
    }
}

/// Sequences that hold the same values are sorted into such sequences, where
/// the order tells the same values alike.
pub proof fn alike_sort_alike<T: Ranked>(a: Seq<T>, b: Seq<T>, same: spec_fn(T, T) -> bool)
    requires
        alike(a, b, same),
        forall|p: T, q: T, u: T, v: T| #[trigger]
            same(p, q) && #[trigger] same(u, v) ==> p.precedes(u) == q.precedes(v),
    ensures
        alike(sorted(a), sorted(b), same),
    decreases a.len(),
{
    sorting_exists(a);
    sorting_exists(b);
    if a.len() == 0 {
        vstd::seq_lib::to_multiset_len(a);
        vstd::seq_lib::to_multiset_len(b);
        vstd::seq_lib::to_multiset_len(sorted(a));
        vstd::seq_lib::to_multiset_len(sorted(b));
    } else {
        let c = a.drop_last();
        let d = b.drop_last();
        assert forall|i: int| 0 <= i < c.len() implies same(c[i], d[i]) by {
            assert(same(a[i], b[i]));
        }
        assert(same(a[a.len() - 1], b[b.len() - 1]));
        alike_sort_alike(c, d, same);
        sorting_exists(c);
        sorting_exists(d);
        lemma_inserted(a);
        lemma_inserted(b);
        let s = sorted(c);
        let t = sorted(d);
        let x = a.last();
        let y = b.last();
        let at = place(s, x);
        lemma_same_place(s, t, x, y, same);
        lemma_place(s, x);
        let r = s.insert(at, x);
        let q = t.insert(at, y);
        assert forall|z: T| #[trigger] peers(sorted(a), z) == peers(r, z) by {
            assert(peers(sorted(a), z) == peers(a, z));
            assert(peers(r, z) == peers(a, z));
        }
        stable_order_is_unique(sorted(a), r);
        assert forall|z: T| #[trigger] peers(sorted(b), z) == peers(q, z) by {
            assert(peers(sorted(b), z) == peers(b, z));
            assert(peers(q, z) == peers(b, z));
        }
        stable_order_is_unique(sorted(b), q);
        assert forall|i: int| 0 <= i < r.len() implies same(r[i], q[i]) by {
            if i < at {
                assert(same(s[i], t[i]));
            } else if i > at {
                assert(same(s[i - 1], t[i - 1]));
            }
        }
    }
}

/// The values of `v` from back to front.
fn reversed<T>(v: Vec<T>) -> (r: Vec<T>)
    ensures
        r@ == v@.reverse(),
{
    let mut rest = v;
    let mut r: Vec<T> = Vec::new();
    let n: usize = rest.len();
    let ghost all = rest@;
    proof {
        assert(rest@ =~= all.take(n as int));
    }
    while r.len() < n
        invariant
            n == all.len(),
            r@.len() <= n,
            rest@ == all.take(n - r@.len()),
            r@ == all.skip(n - r@.len()).reverse(),
        decreases n - r@.len(),
    {
        let x = rest.pop().unwrap();
        r.push(x);
        proof {
            assert(rest@ =~= all.take(n - r@.len()));
            assert(r@ =~= all.skip(n - r@.len()).reverse());
        }
    }
    proof {
        assert(all.skip(0) =~= all);
    }
    r
}

/// Sort stably.
pub fn stable_sort<T: Ranked>(from: Vec<T>) -> (to: Vec<T>)
    ensures
        stably_sorted(from@, to@),
        to@ == sorted(from@),
{
    let ghost all = from@;
    let n: usize = from.len();
    let mut rest = reversed(from);
    let mut to: Vec<T> = Vec::new();
    proof {
        T::is_weak_order();
        assert(all.take(0) =~= Seq::<T>::empty());
        assert(rest@ =~= all.skip(0).reverse());
        reveal(Seq::filter);
    }
    let mut done: usize = 0;
    while done < n
        invariant
            done <= n == all.len(),
            rest@ == all.skip(done as int).reverse(),
            to@.len() == done,
            stably_sorted(all.take(done as int), to@),
        decreases n - done,
    {
        let ghost before = to@;
        let ghost left = rest@;
        let v = rest.pop().unwrap();
        let ghost item = v;
        proof {
            T::is_weak_order();
            assert(item == all[done as int]);
            assert(rest@ =~= all.skip(done + 1).reverse());
        }
        let mut at: usize = to.len();
        while at > 0 && v.goes_before(&to[at - 1])
            invariant
                at <= to@.len(),
                to@ == before,
                v == item,
                forall|i: int| at <= i < before.len() ==> item.precedes(#[trigger] before[i]),
            decreases at,
        {
            at = at - 1;
        }
        to.insert(at, v);
        proof {
            let prior = all.take(done as int);
            let next = all.take(done + 1);
            assert(next =~= prior.push(item));
            assert(to@ == before.insert(at as int, item));
            lemma_still_in_order(before, at as int, item);
            vstd::seq_lib::to_multiset_insert(before, at as int, item);
            vstd::seq_lib::to_multiset_build(prior, item);
            assert forall|x: T| #[trigger] peers(to@, x) == peers(next, x) by {
                assert(peers(before, x) == peers(prior, x));
                lemma_peers_insert(before, at as int, item, x);
                lemma_peers_insert(prior, prior.len() as int, item, x);
                assert(prior.insert(prior.len() as int, item) =~= next);
            }
        }
        done = done + 1;
    }
    proof {
        assert(all.take(done as int) =~= all);
        let chosen = sorted(all);
        assert(stably_sorted(all, to@));
        assert(stably_sorted(all, chosen));
        assert forall|x: T| #[trigger] peers(to@, x) == peers(chosen, x) by {
            assert(peers(to@, x) == peers(all, x));
            assert(peers(chosen, x) == peers(all, x));
        }
        stable_order_is_unique(to@, chosen);
    }
    to
}

proof fn lemma_still_in_order<T: Ranked>(s: Seq<T>, at: int, v: T)
    requires
        in_order(s),
        0 <= at <= s.len(),
        forall|i: int| at <= i < s.len() ==> v.precedes(#[trigger] s[i]),
        at > 0 ==> !v.precedes(s[at - 1]),
    ensures
        in_order(s.insert(at, v)),
{
    T::is_weak_order();
    let r = s.insert(at, v);
    assert forall|i: int, j: int| 0 <= i < j < r.len() implies !(#[trigger] r[j]).precedes(
        #[trigger] r[i],
    ) by {
        if i < at && j == at {
            if i < at - 1 {
                assert(!s[at - 1].precedes(s[i]));
            }
        } else if i == at {
            assert(r[j] == s[j - 1]);
            assert(v.precedes(s[j - 1]));
            if r[j].precedes(v) {
                assert(v.precedes(v));
            }
        } else if i < at && j > at {
            assert(r[j] == s[j - 1]);
            assert(!s[j - 1].precedes(s[i]));
        } else if j < at {
            assert(!s[j].precedes(s[i]));
        } else {
            assert(!s[j - 1].precedes(s[i - 1]));
        }
    }
}

} // verus!
