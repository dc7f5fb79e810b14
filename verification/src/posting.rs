//! Boolean queries over grams, and the files that satisfy them.
use vstd::prelude::*;

use crate::shard::Shard;
use crate::shard_format::ShardView;

verus! {

/// Which grams a file must hold to be a candidate.
#[derive(Debug)]
pub enum GramQuery {
    /// Every file is a candidate.
    All,
    /// The files that hold one gram.
    Literal(u64),
    /// The files that satisfy every part.
    And(Vec<GramQuery>),
    /// The files that satisfy some part.
    Or(Vec<GramQuery>),
}

/// Whether a file that holds exactly the grams of `has` satisfies `query`.
pub open spec fn holds(query: GramQuery, has: spec_fn(u64) -> bool) -> bool
    decreases query, 0nat,
{
    match query {
        GramQuery::All => true,
        GramQuery::Literal(h) => has(h),
        GramQuery::And(parts) => all_of(parts@, parts@.len(), has),
        GramQuery::Or(parts) => some_of(parts@, parts@.len(), has),
    }
}

/// Whether such a file satisfies each of the first `n` parts.
pub open spec fn all_of(parts: Seq<GramQuery>, n: nat, has: spec_fn(u64) -> bool) -> bool
    decreases parts, n,
{
    n == 0 || n > parts.len() || (holds(parts[n - 1], has) && all_of(parts, (n - 1) as nat, has))
}

/// Whether such a file satisfies one of the first `n` parts.
pub open spec fn some_of(parts: Seq<GramQuery>, n: nat, has: spec_fn(u64) -> bool) -> bool
    decreases parts, n,
{
    0 < n <= parts.len() && (holds(parts[n - 1], has) || some_of(parts, (n - 1) as nat, has))
}

/// The grams that the shard lists for file `id`.
pub open spec fn listed(view: ShardView, id: u32) -> spec_fn(u64) -> bool {
    |h: u64| view.lookup_ids(h).contains(id)
}

/// The grams of a set.
pub open spec fn members(grams: Seq<u64>) -> spec_fn(u64) -> bool {
    |h: u64| grams.contains(h)
}

proof fn lemma_some_of(parts: Seq<GramQuery>, n: nat, at: int, has: spec_fn(u64) -> bool)
    requires
        0 <= at < n <= parts.len(),
        holds(parts[at], has),
    ensures
        some_of(parts, n, has),
    decreases n,
{
    if at < n - 1 {
        lemma_some_of(parts, (n - 1) as nat, at, has);
    }
}

proof fn lemma_not_all_of(parts: Seq<GramQuery>, n: nat, at: int, has: spec_fn(u64) -> bool)
    requires
        0 <= at < n <= parts.len(),
        !holds(parts[at], has),
    ensures
        !all_of(parts, n, has),
    decreases n,
{
    if at < n - 1 {
        lemma_not_all_of(parts, (n - 1) as nat, at, has);
    }
}

proof fn lemma_part_is_smaller(query: GramQuery, parts: Vec<GramQuery>, i: int)
    requires
        query == GramQuery::And(parts) || query == GramQuery::Or(parts),
        0 <= i < parts@.len(),
    ensures
        decreases_to!(query => parts@[i]),
{
    if query is And {
        assert(decreases_to!(query => query->And_0));
        assert(decreases_to!(query->And_0 => query->And_0@));
        assert(decreases_to!(query->And_0@ => query->And_0@[i]));
    } else {
        assert(decreases_to!(query => query->Or_0));
        assert(decreases_to!(query->Or_0 => query->Or_0@));
        assert(decreases_to!(query->Or_0@ => query->Or_0@[i]));
    }
}

/// A disjunction holds of a file exactly when some part of it does, whichever
/// part that is, and a conjunction exactly when every part does. A gram is
/// asked for as it is, and the query for everything asks for nothing.
pub proof fn parts_decide(parts: Vec<GramQuery>, h: u64, has: spec_fn(u64) -> bool)
    ensures
        holds(GramQuery::Or(parts), has) <==> exists|i: int|
            0 <= i < parts@.len() && holds(#[trigger] parts@[i], has),
        holds(GramQuery::And(parts), has) <==> forall|i: int|
            0 <= i < parts@.len() ==> holds(#[trigger] parts@[i], has),
        holds(GramQuery::Literal(h), has) <==> has(h),
        holds(GramQuery::All, has),
{
    lemma_parts(parts@, parts@.len(), has);
}

/// A file that holds more grams satisfies whatever it satisfied with fewer.
pub proof fn more_grams_satisfy_more(
    query: GramQuery,
    has: spec_fn(u64) -> bool,
    more: spec_fn(u64) -> bool,
)
    requires
        forall|h: u64| #[trigger] has(h) ==> more(h),
        holds(query, has),
    ensures
        holds(query, more),
    decreases query,
{
    match query {
        GramQuery::All => {},
        GramQuery::Literal(h) => {
            assert(has(h));
        },
        GramQuery::And(parts) => {
            parts_decide(parts, 0, has);
            parts_decide(parts, 0, more);
            assert forall|i: int| 0 <= i < parts@.len() implies holds(
                #[trigger] parts@[i],
                more,
            ) by {
                lemma_part_is_smaller(query, parts, i);
                more_grams_satisfy_more(parts@[i], has, more);
            }
        },
        GramQuery::Or(parts) => {
            parts_decide(parts, 0, has);
            parts_decide(parts, 0, more);
            let i = choose|i: int| 0 <= i < parts@.len() && holds(#[trigger] parts@[i], has);
            lemma_part_is_smaller(query, parts, i);
            more_grams_satisfy_more(parts@[i], has, more);
        },
    }
}

proof fn lemma_parts(parts: Seq<GramQuery>, n: nat, has: spec_fn(u64) -> bool)
    requires
        n <= parts.len(),
    ensures
        some_of(parts, n, has) <==> exists|i: int|
            0 <= i < n && holds(#[trigger] parts[i], has),
        all_of(parts, n, has) <==> forall|i: int|
            0 <= i < n ==> holds(#[trigger] parts[i], has),
    decreases n,
{
    if n > 0 {
        lemma_parts(parts, (n - 1) as nat, has);
        assert(holds(parts[n - 1], has) || !holds(parts[n - 1], has));
    }
}

/// For each file of the shard whether it satisfies `query`.
fn satisfying(query: &GramQuery, shard: &Shard) -> (marks: Vec<bool>)
    ensures
        marks@.len() == shard@.files.len(),
        forall|id: u32|
            id < marks@.len() ==> marks@[id as int] == #[trigger] holds(
                *query,
                listed(shard@, id),
            ),
    decreases query,
{
    let n: u32 = shard.file_count();
    match query {
        GramQuery::All => {
            let marks = filled(true, n);
            proof {
                assert forall|id: u32| id < marks@.len() implies marks@[id as int]
                    == #[trigger] holds(*query, listed(shard@, id)) by {
                    assert(*query == GramQuery::All);
                }
            }
            marks
        },
        GramQuery::Literal(h) => {
            let ids = shard.postings(*h);
            let marks = mark_ids(&ids, n);
            proof {
                assert forall|id: u32| id < marks@.len() implies marks@[id as int]
                    == #[trigger] holds(*query, listed(shard@, id)) by {
                    assert(holds(*query, listed(shard@, id)) == shard@.lookup_ids(*h).contains(id));
                }
            }
            marks
        },
        GramQuery::And(parts) => {
            let mut marks = filled(true, n);
            let mut i: usize = 0;
            while i < parts.len()
                invariant
                    i <= parts@.len(),
                    *query == GramQuery::And(*parts),
                    n == shard@.files.len(),
                    marks@.len() == n,
                    forall|id: u32|
                        id < n ==> marks@[id as int] == #[trigger] all_of(
                            parts@,
                            i as nat,
                            listed(shard@, id),
                        ),
                decreases parts@.len() - i,
            {
                proof {
                    lemma_part_is_smaller(*query, *parts, i as int);
                }
                let part = satisfying(&parts[i], shard);
                let ghost before = marks@;
                marks = both(&marks, &part);
                i = i + 1;
                proof {
                    assert forall|id: u32| id < n implies marks@[id as int] == #[trigger] all_of(
                        parts@,
                        i as nat,
                        listed(shard@, id),
                    ) by {
                        let has = listed(shard@, id);
                        assert(before[id as int] == all_of(parts@, (i - 1) as nat, has));
                        assert(part@[id as int] == holds(parts@[i - 1], has));
                    }
                }
            }
            proof {
                assert forall|id: u32| id < marks@.len() implies marks@[id as int]
                    == #[trigger] holds(*query, listed(shard@, id)) by {
                    assert(marks@[id as int] == all_of(parts@, i as nat, listed(shard@, id)));
                }
            }
            marks
        },
        GramQuery::Or(parts) => {
            let mut marks = filled(false, n);
            let mut i: usize = 0;
            while i < parts.len()
                invariant
                    i <= parts@.len(),
                    *query == GramQuery::Or(*parts),
                    n == shard@.files.len(),
                    marks@.len() == n,
                    forall|id: u32|
                        id < n ==> marks@[id as int] == #[trigger] some_of(
                            parts@,
                            i as nat,
                            listed(shard@, id),
                        ),
                decreases parts@.len() - i,
            {
                proof {
                    lemma_part_is_smaller(*query, *parts, i as int);
                }
                let part = satisfying(&parts[i], shard);
                let ghost before = marks@;
                marks = either(&marks, &part);
                i = i + 1;
                proof {
                    assert forall|id: u32| id < n implies marks@[id as int] == #[trigger] some_of(
                        parts@,
                        i as nat,
                        listed(shard@, id),
                    ) by {
                        let has = listed(shard@, id);
                        assert(before[id as int] == some_of(parts@, (i - 1) as nat, has));
                        assert(part@[id as int] == holds(parts@[i - 1], has));
                    }
                }
            }
            proof {
                assert forall|id: u32| id < marks@.len() implies marks@[id as int]
                    == #[trigger] holds(*query, listed(shard@, id)) by {
                    assert(marks@[id as int] == some_of(parts@, i as nat, listed(shard@, id)));
                }
            }
            marks
        },
    }
}

fn filled(b: bool, n: u32) -> (r: Vec<bool>)
    ensures
        r@.len() == n,
        forall|i: int| 0 <= i < n ==> r@[i] == b,
{
    let mut r: Vec<bool> = Vec::new();
    let mut i: u32 = 0;
    while i < n
        invariant
            i <= n,
            r@.len() == i,
            forall|k: int| 0 <= k < i ==> r@[k] == b,
        decreases n - i,
    {
        r.push(b);
        i = i + 1;
    }
    r
}

/// For each id below `n` whether it is listed.
fn mark_ids(ids: &Vec<u32>, n: u32) -> (r: Vec<bool>)
    ensures
        r@.len() == n,
        forall|id: u32| id < n ==> r@[id as int] == #[trigger] ids@.contains(id),
{
    let mut r = filled(false, n);
    let mut i: usize = 0;
    while i < ids.len()
        invariant
            i <= ids@.len(),
            r@.len() == n,
            forall|id: u32| id < n ==> r@[id as int] == #[trigger] ids@.take(i as int).contains(id),
        decreases ids@.len() - i,
    {
        let id: u32 = ids[i];
        let ghost before = ids@.take(i as int);
        if id < n {
            r.set(id as usize, true);
        }
        proof {
            let after = ids@.take(i + 1);
            assert(after =~= before.push(id));
            assert forall|x: u32| x < n implies r@[x as int] == #[trigger] after.contains(x) by {
                if before.contains(x) {
                    let k = choose|k: int| 0 <= k < before.len() && before[k] == x;
                    assert(after[k] == x);
                }
                assert(after[i as int] == id);
                if after.contains(x) && x != id {
                    let k = choose|k: int| 0 <= k < after.len() && after[k] == x;
                    assert(before[k] == x);
                }
            }
        }
        i = i + 1;
    }
    proof {
        assert(ids@.take(i as int) =~= ids@);
    }
    r
}

fn both(a: &Vec<bool>, b: &Vec<bool>) -> (r: Vec<bool>)
    requires
        a@.len() == b@.len(),
    ensures
        r@.len() == a@.len(),
        forall|i: int| 0 <= i < r@.len() ==> r@[i] == (a@[i] && b@[i]),
{
    let mut r: Vec<bool> = Vec::new();
    let mut i: usize = 0;
    while i < a.len()
        invariant
            i <= a@.len() == b@.len(),
            r@.len() == i,
            forall|k: int| 0 <= k < i ==> r@[k] == (a@[k] && b@[k]),
        decreases a@.len() - i,
    {
        r.push(a[i] && b[i]);
        i = i + 1;
    }
    r
}

fn either(a: &Vec<bool>, b: &Vec<bool>) -> (r: Vec<bool>)
    requires
        a@.len() == b@.len(),
    ensures
        r@.len() == a@.len(),
        forall|i: int| 0 <= i < r@.len() ==> r@[i] == (a@[i] || b@[i]),
{
    let mut r: Vec<bool> = Vec::new();
    let mut i: usize = 0;
    while i < a.len()
        invariant
            i <= a@.len() == b@.len(),
            r@.len() == i,
            forall|k: int| 0 <= k < i ==> r@[k] == (a@[k] || b@[k]),
        decreases a@.len() - i,
    {
        r.push(a[i] || b[i]);
        i = i + 1;
    }
    r
}

/// The ids of the shard's files that satisfy `query`, in ascending order.
pub fn resolve_query(query: &GramQuery, shard: &Shard) -> (ids: Vec<u32>)
    ensures
        crate::shard_format::ascending_ids(ids@),
        forall|id: u32| #[trigger]
            ids@.contains(id) <==> id < shard@.files.len() && holds(*query, listed(shard@, id)),
        query matches GramQuery::Literal(h) ==> forall|id: u32| #[trigger]
            ids@.contains(id) <==> id < shard@.files.len() && shard@.lookup_ids(*h).contains(id),
        query is All ==> forall|id: u32| #[trigger] ids@.contains(id) <==> id < shard@.files.len(),
{
    let marks = satisfying(query, shard);
    let n: u32 = shard.file_count();
    let mut ids: Vec<u32> = Vec::new();
    let mut i: u32 = 0;
    while i < n
        invariant
            i <= n,
            n == shard@.files.len() == marks@.len(),
            forall|id: u32|
                id < n ==> marks@[id as int] == #[trigger] holds(*query, listed(shard@, id)),
            crate::shard_format::ascending_ids(ids@),
            forall|k: int| 0 <= k < ids@.len() ==> ids@[k] < i,
            forall|id: u32| #[trigger]
                ids@.contains(id) <==> id < i && holds(*query, listed(shard@, id)),
        decreases n - i,
    {
        if marks[i as usize] {
            let ghost before = ids@;
            ids.push(i);
            proof {
                assert forall|id: u32| #[trigger] ids@.contains(id) <==> id < i + 1 && holds(
                    *query,
                    listed(shard@, id),
                ) by {
                    if before.contains(id) {
                        let k = choose|k: int| 0 <= k < before.len() && before[k] == id;
                        assert(ids@[k] == id);
                    }
                    assert(ids@.last() == i);
                    if ids@.contains(id) && id != i {
                        let k = choose|k: int| 0 <= k < ids@.len() && ids@[k] == id;
                        assert(before[k] == id);
                    }
                }
            }
        }
        i = i + 1;
    }
    ids
}

/// Whether a file with exactly the grams `grams` satisfies `query`.
pub fn matches_grams(query: &GramQuery, grams: &Vec<u64>) -> (r: bool)
    ensures
        r == holds(*query, members(grams@)),
        query matches GramQuery::Literal(h) ==> r == grams@.contains(*h),
        query is All ==> r,
    decreases query,
{
    match query {
        GramQuery::All => {
            proof {
                assert(*query == GramQuery::All);
            }
            true
        },
        GramQuery::Literal(h) => listed_gram(grams, *h),
        GramQuery::And(parts) => {
            let mut i: usize = 0;
            while i < parts.len()
                invariant
                    i <= parts@.len(),
                    *query == GramQuery::And(*parts),
                    all_of(parts@, i as nat, members(grams@)),
                decreases parts@.len() - i,
            {
                proof {
                    lemma_part_is_smaller(*query, *parts, i as int);
                }
                if !matches_grams(&parts[i], grams) {
                    proof {
                        lemma_not_all_of(parts@, parts@.len(), i as int, members(grams@));
                    }
                    return false;
                }
                i = i + 1;
            }
            true
        },
        GramQuery::Or(parts) => {
            let mut i: usize = 0;
            while i < parts.len()
                invariant
                    i <= parts@.len(),
                    *query == GramQuery::Or(*parts),
                    !some_of(parts@, i as nat, members(grams@)),
                decreases parts@.len() - i,
            {
                proof {
                    lemma_part_is_smaller(*query, *parts, i as int);
                }
                if matches_grams(&parts[i], grams) {
                    proof {
                        lemma_some_of(parts@, parts@.len(), i as int, members(grams@));
                    }
                    return true;
                }
                i = i + 1;
            }
            false
        },
    }
}

fn listed_gram(grams: &Vec<u64>, h: u64) -> (r: bool)
    ensures
        r == grams@.contains(h),
{
    let mut i: usize = 0;
    while i < grams.len()
        invariant
            i <= grams@.len(),
            forall|k: int| 0 <= k < i ==> grams@[k] != h,
        decreases grams@.len() - i,
    {
        if grams[i] == h {
            return true;
        }
        i = i + 1;
    }
    false
}

} // verus!
