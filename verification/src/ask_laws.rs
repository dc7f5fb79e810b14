//! What the channels of a question promise, and how its turns are grouped.
use vstd::prelude::*;

use crate::ask;
use crate::ask::{
    AskHit, AskSessionGroup, AskView, ChunkTurn, FoundTurn, GroupView, LexicalHit,
    SemanticGap, SemanticTurn, SnippetView,
};
use crate::finder;
use crate::order;
use crate::order::Ranked;
use crate::text;

verus! {

// ---- the lexical channel ----

/// The hits of turn `id`, in order.
pub open spec fn hits_of(hits: Seq<LexicalHit>, id: i64) -> Seq<LexicalHit> {
    hits.filter(|h: LexicalHit| h.turn_id == id)
}

/// Whether hit `i` is the first of its turn.
pub open spec fn opens(hits: Seq<LexicalHit>, i: int) -> bool {
    &&& 0 <= i < hits.len()
    &&& forall|k: int| 0 <= k < i ==> (#[trigger] hits[k]).turn_id != hits[i].turn_id
}

/// Whether the turn of hit `i` belongs before that of hit `j`: it has more
/// hits, or as many and the later time, or the same time too and the larger
/// id. A turn without a time comes behind those with one.
pub open spec fn outranks(hits: Seq<LexicalHit>, i: int, j: int) -> bool {
    let a = hits_of(hits, hits[i].turn_id).len();
    let b = hits_of(hits, hits[j].turn_id).len();
    let x = hits[i].ts;
    let y = hits[j].ts;
    ||| a > b
    ||| a == b && x is Some && y is None
    ||| a == b && x is Some && y is Some && x->0 > y->0
    ||| a == b && x == y && hits[i].turn_id > hits[j].turn_id
}

/// Whether `a` stands before `b`.
pub open spec fn stands_before(ranking: Seq<i64>, a: i64, b: i64) -> bool {
    exists|p: int, q: int|
        0 <= p < q < ranking.len() && #[trigger] ranking[p] == a && #[trigger] ranking[q] == b
}

proof fn lemma_count(hits: Seq<LexicalHit>, n: nat, id: i64)
    requires
        n <= hits.len(),
    ensures
        ask::hit_count(hits, n, id) == hits_of(hits.take(n as int), id).len(),
        ask::hit_count(hits, n, id) <= n,
    decreases n,
{
    reveal(Seq::filter);
    if n > 0 {
        lemma_count(hits, (n - 1) as nat, id);
        assert(hits.take(n as int).drop_last() =~= hits.take(n - 1));
    }
}

proof fn lemma_first_kept(hits: Seq<LexicalHit>, n: nat, i: int) -> (at: int)
    requires
        opens(hits, i),
        i < n <= hits.len(),
    ensures
        0 <= at < ask::firsts(hits, n).len(),
        ask::firsts(hits, n)[at] == hits[i],
    decreases n,
{
    if i == n - 1 {
        assert(ask::is_first(hits, n - 1));
        ask::firsts(hits, n).len() - 1
    } else {
        lemma_first_kept(hits, (n - 1) as nat, i)
    }
}

/// The tally of the turn that hit `i` opens, and its place among the sorted
/// tallies.
proof fn lemma_tally_at(hits: Seq<LexicalHit>, i: int) -> (p: int)
    requires
        hits.len() <= usize::MAX,
        opens(hits, i),
    ensures
        ({
            let s = order::sorted(ask::tallies(hits, hits.len()));
            &&& 0 <= p < s.len()
            &&& s[p].turn_id == hits[i].turn_id
            &&& s[p].count == hits_of(hits, hits[i].turn_id).len()
            &&& s[p].ts == hits[i].ts
        }),
{
    let t = ask::tallies(hits, hits.len());
    let s = order::sorted(t);
    let at = lemma_first_kept(hits, hits.len(), i);
    lemma_count(hits, hits.len(), hits[i].turn_id);
    assert(hits.take(hits.len() as int) =~= hits);
    order::sorting_exists(t);
    let x = t[at];
    vstd::seq_lib::to_multiset_contains(s, x);
    vstd::seq_lib::to_multiset_contains(t, x);
    assert(t.contains(x));
    let p = choose|p: int| 0 <= p < s.len() && s[p] == x;
    p
}

/// The turn with more hits stands before the one with fewer; with as many
/// hits, the one with the later time of its first hit does, then the one with
/// the larger id. Only the end of the ranking is cut off.
pub proof fn more_hits_rank_higher(hits: Seq<LexicalHit>, i: int, j: int)
    requires
        hits.len() <= usize::MAX,
        opens(hits, i),
        opens(hits, j),
        outranks(hits, i, j),
    ensures
        ask::lexical_ranking(hits).contains(hits[j].turn_id) ==> stands_before(
            ask::lexical_ranking(hits),
            hits[i].turn_id,
            hits[j].turn_id,
        ),
{
    let s = order::sorted(ask::tallies(hits, hits.len()));
    let r = ask::lexical_ranking(hits);
    order::sorting_exists(ask::tallies(hits, hits.len()));
    let p = lemma_tally_at(hits, i);
    let q0 = lemma_tally_at(hits, j);
    if r.contains(hits[j].turn_id) {
        let q = choose|q: int| 0 <= q < r.len() && r[q] == hits[j].turn_id;
        assert(r[q] == s[q].turn_id);
        assert(s.contains(s[q]) && s.contains(s[q0]));
        ask::lemma_tally_of(hits, s[q]);
        assert(s[q] == s[q0]);
        assert(s[p].precedes(s[q]));
        assert(p < q) by {
            if q < p {
                assert(!s[p].precedes(s[q]));
            }
        }
        assert(r[p] == hits[i].turn_id);
    }
}

/// The ranking lists turns that were hit and no others. It leaves one out only
/// when it is full, at two hundred turns.
pub proof fn ranking_lists_the_hit_turns(hits: Seq<LexicalHit>, id: i64)
    requires
        hits.len() <= usize::MAX,
    ensures
        ask::lexical_ranking(hits).len() <= 200,
        ask::lexical_ranking(hits).contains(id) ==> hits_of(hits, id).len() > 0,
        hits_of(hits, id).len() > 0 && ask::lexical_ranking(hits).len() < 200
            ==> ask::lexical_ranking(hits).contains(id),
{
    let t = ask::tallies(hits, hits.len());
    let s = order::sorted(t);
    let r = ask::lexical_ranking(hits);
    let keep = |h: LexicalHit| h.turn_id == id;
    order::sorting_exists(t);
    ask::lemma_firsts(hits, hits.len());
    crate::seqs::lemma_filter(hits, keep);
    if r.contains(id) {
        let p = choose|p: int| 0 <= p < r.len() && r[p] == id;
        let x = s[p];
        vstd::seq_lib::to_multiset_contains(s, x);
        vstd::seq_lib::to_multiset_contains(t, x);
        assert(s.contains(x));
        let k = choose|k: int| 0 <= k < t.len() && t[k] == x;
        let f = ask::firsts(hits, hits.len());
        assert(f[k].turn_id == id);
        let j = choose|j: int|
            0 <= j < hits.len() && (#[trigger] hits[j]).turn_id == f[k].turn_id;
        assert(keep(hits[j]));
        assert(hits_of(hits, id).contains(hits[j]));
    }
    if hits_of(hits, id).len() > 0 && r.len() < 200 {
        let h = hits_of(hits, id)[0];
        assert(keep(h) && hits.contains(h));
        let at = choose|at: int| 0 <= at < hits.len() && hits[at] == h;
        let i = lemma_opening(hits, at);
        let p = lemma_tally_at(hits, i);
        assert(r.len() == s.len());
        assert(r[p] == id);
    }
}

/// Some hit opens the turn of hit `at`.
proof fn lemma_opening(hits: Seq<LexicalHit>, at: int) -> (i: int)
    requires
        0 <= at < hits.len(),
    ensures
        opens(hits, i),
        hits[i].turn_id == hits[at].turn_id,
    decreases at,
{
    if forall|k: int| 0 <= k < at ==> (#[trigger] hits[k]).turn_id != hits[at].turn_id {
        at
    } else {
        let k = choose|k: int| 0 <= k < at && (#[trigger] hits[k]).turn_id == hits[at].turn_id;
        lemma_opening(hits, k)
    }
}

// ---- the semantic channel ----

/// A chunk belongs to the turn of its last row, and starts where that row
/// says; without a row it belongs to none.
pub proof fn last_row_names_the_turn(rows: Seq<ChunkTurn>, chunk: i64, i: int)
    ensures
        (forall|k: int| 0 <= k < rows.len() ==> (#[trigger] rows[k]).chunk_id != chunk)
            ==> ask::turn_of_chunk(rows, rows.len(), chunk) is None,
        0 <= i < rows.len() && rows[i].chunk_id == chunk && (forall|k: int|
            i < k < rows.len() ==> (#[trigger] rows[k]).chunk_id != chunk) ==> {
            &&& ask::turn_of_chunk(rows, rows.len(), chunk) matches Some(t)
            &&& t.turn_id == rows[i].turn_id
            &&& t.start == rows[i].start
        },
{
    lemma_row(rows, rows.len(), chunk, i);
}

proof fn lemma_row(rows: Seq<ChunkTurn>, n: nat, chunk: i64, i: int)
    ensures
        (forall|k: int| 0 <= k < n ==> (#[trigger] rows[k]).chunk_id != chunk)
            ==> ask::turn_of_chunk(rows, n, chunk) is None,
        0 <= i < n && rows[i].chunk_id == chunk && (forall|k: int|
            i < k < n ==> (#[trigger] rows[k]).chunk_id != chunk) ==> {
            &&& ask::turn_of_chunk(rows, n, chunk) matches Some(t)
            &&& t.turn_id == rows[i].turn_id
            &&& t.start == rows[i].start
        },
    decreases n,
{
    if n > 0 {
        lemma_row(rows, (n - 1) as nat, chunk, i);
        assert(rows[n - 1].chunk_id == chunk || rows[n - 1].chunk_id != chunk);
    }
}

/// The turn of chunk `i`, if it has one.
pub open spec fn turn_at(chunks: Seq<i64>, rows: Seq<ChunkTurn>, i: int) -> Option<SemanticTurn> {
    ask::turn_of_chunk(rows, rows.len(), chunks[i])
}

/// Whether chunk `i` is the nearest one of its turn.
pub open spec fn leads(chunks: Seq<i64>, rows: Seq<ChunkTurn>, i: int) -> bool {
    &&& 0 <= i < chunks.len()
    &&& turn_at(chunks, rows, i) matches Some(t)
    &&& forall|k: int|
        0 <= k < i ==> (#[trigger] turn_at(chunks, rows, k) matches Some(u) ==> u.turn_id
            != t.turn_id)
}

/// Each turn of the semantic channel stands there with its nearest chunk.
pub proof fn turns_come_with_their_nearest_chunk(
    chunks: Seq<i64>,
    rows: Seq<ChunkTurn>,
    n: nat,
    p: int,
) -> (i: int)
    requires
        n <= chunks.len(),
        0 <= p < ask::nearest_turns(chunks, rows, n).len(),
    ensures
        0 <= i < n,
        leads(chunks, rows, i),
        turn_at(chunks, rows, i) == Some(ask::nearest_turns(chunks, rows, n)[p]),
    decreases n,
{
    let m = (n - 1) as nat;
    let before = ask::nearest_turns(chunks, rows, m);
    if p < before.len() {
        turns_come_with_their_nearest_chunk(chunks, rows, m, p)
    } else {
        let t = turn_at(chunks, rows, n - 1)->0;
        assert forall|k: int| 0 <= k < n - 1 implies (#[trigger] turn_at(
            chunks,
            rows,
            k,
        ) matches Some(u) ==> u.turn_id != t.turn_id) by {
            if turn_at(chunks, rows, k) is Some {
                lemma_room_lists(chunks, rows, k, m);
            }
        }
        n - 1
    }
}

/// While there is room, the turn of every chunk so far is listed.
proof fn lemma_room_lists(chunks: Seq<i64>, rows: Seq<ChunkTurn>, k: int, m: nat)
    requires
        0 <= k < m <= chunks.len(),
        turn_at(chunks, rows, k) is Some,
        ask::nearest_turns(chunks, rows, m).len() < ask::CHANNEL_DEPTH,
    ensures
        ask::has_turn(ask::nearest_turns(chunks, rows, m), turn_at(chunks, rows, k)->0.turn_id),
    decreases m,
{
    let before = ask::nearest_turns(chunks, rows, (m - 1) as nat);
    let now = ask::nearest_turns(chunks, rows, m);
    let id = turn_at(chunks, rows, k)->0.turn_id;
    if k < m - 1 {
        lemma_room_lists(chunks, rows, k, (m - 1) as nat);
        let q = choose|q: int| 0 <= q < before.len() && (#[trigger] before[q]).turn_id == id;
        assert(now[q].turn_id == id);
    } else {
        if !ask::has_turn(before, id) {
            assert(now[now.len() - 1].turn_id == id);
        }
    }
}

proof fn lemma_prefix(chunks: Seq<i64>, rows: Seq<ChunkTurn>, m: nat, n: nat)
    requires
        m <= n,
    ensures
        ask::nearest_turns(chunks, rows, m).len() <= ask::nearest_turns(chunks, rows, n).len(),
        ask::nearest_turns(chunks, rows, m) == ask::nearest_turns(chunks, rows, n).take(
            ask::nearest_turns(chunks, rows, m).len() as int,
        ),
    decreases n,
{
    let a = ask::nearest_turns(chunks, rows, m);
    let b = ask::nearest_turns(chunks, rows, n);
    if m < n {
        lemma_prefix(chunks, rows, m, (n - 1) as nat);
        let c = ask::nearest_turns(chunks, rows, (n - 1) as nat);
        assert(a =~= b.take(a.len() as int)) by {
            assert(a == c.take(a.len() as int));
            assert forall|x: int| 0 <= x < a.len() implies a[x] == b[x] by {
                assert(c.take(a.len() as int)[x] == c[x]);
            }
        }
    } else {
        assert(a =~= b.take(a.len() as int));
    }
}

/// The nearer turn stands before the farther one: where chunk `i` leads one
/// turn and a farther chunk `j` another, and the turn of `j` is listed, the
/// turn of `i` is listed before it. The channel leaves a turn out only when it
/// is full, at two hundred turns.
pub proof fn nearer_turns_rank_higher(chunks: Seq<i64>, rows: Seq<ChunkTurn>, i: int, j: int)
    requires
        leads(chunks, rows, i),
        leads(chunks, rows, j),
        i < j,
    ensures
        ({
            let r = ask::nearest_turns(chunks, rows, chunks.len());
            let t = turn_at(chunks, rows, i)->0;
            let u = turn_at(chunks, rows, j)->0;
            &&& r.len() <= 200
            &&& r.len() < 200 ==> r.contains(t) && r.contains(u)
            &&& forall|q: int|
                0 <= q < r.len() && (#[trigger] r[q]).turn_id == u.turn_id ==> r[q] == u
                    && exists|p: int| 0 <= p < q && #[trigger] r[p] == t
        }),
{
    let n = chunks.len();
    let r = ask::nearest_turns(chunks, rows, n);
    let t = turn_at(chunks, rows, i)->0;
    let u = turn_at(chunks, rows, j)->0;
    ask::semantic_turns_are_distinct(chunks, rows, n);
    if r.len() < 200 {
        lemma_listed(chunks, rows, i);
        lemma_listed(chunks, rows, j);
    }
    assert forall|q: int| 0 <= q < r.len() && (#[trigger] r[q]).turn_id == u.turn_id implies r[q]
        == u && exists|p: int| 0 <= p < q && #[trigger] r[p] == t by {
        let k = turns_come_with_their_nearest_chunk(chunks, rows, n, q);
        lemma_one_leader(chunks, rows, j, k);
        // Chunk `j` was listed when its turn came, so there was room before it.
        let m = (i + 1) as nat;
        let early = ask::nearest_turns(chunks, rows, j as nat);
        lemma_prefix(chunks, rows, j as nat, n);
        if early.len() >= ask::CHANNEL_DEPTH {
            ask::lemma_full(chunks, rows, j as nat, n);
        }
        if q < early.len() {
            assert(early[q] == r[q]);
            let l = turns_come_with_their_nearest_chunk(chunks, rows, j as nat, q);
            lemma_one_leader(chunks, rows, j, l);
        }
        lemma_room_lists(chunks, rows, i, j as nat);
        let p = choose|p: int| 0 <= p < early.len() && (#[trigger] early[p]).turn_id == t.turn_id;
        let l = turns_come_with_their_nearest_chunk(chunks, rows, j as nat, p);
        lemma_one_leader(chunks, rows, i, l);
        assert(early[p] == r[p]);
        assert(r[p] == t);
    }
}

/// A turn has one nearest chunk.
proof fn lemma_one_leader(chunks: Seq<i64>, rows: Seq<ChunkTurn>, i: int, j: int)
    requires
        leads(chunks, rows, i),
        leads(chunks, rows, j),
        turn_at(chunks, rows, i)->0.turn_id == turn_at(chunks, rows, j)->0.turn_id,
    ensures
        i == j,
{
    if i < j {
        assert(turn_at(chunks, rows, i) is Some);
    } else if j < i {
        assert(turn_at(chunks, rows, j) is Some);
    }
}

proof fn lemma_listed(chunks: Seq<i64>, rows: Seq<ChunkTurn>, i: int)
    requires
        leads(chunks, rows, i),
        ask::nearest_turns(chunks, rows, chunks.len()).len() < 200,
    ensures
        ask::nearest_turns(chunks, rows, chunks.len()).contains(turn_at(chunks, rows, i)->0),
{
    let r = ask::nearest_turns(chunks, rows, chunks.len());
    let t = turn_at(chunks, rows, i)->0;
    lemma_room_lists(chunks, rows, i, chunks.len());
    let q = choose|q: int| 0 <= q < r.len() && (#[trigger] r[q]).turn_id == t.turn_id;
    let k = turns_come_with_their_nearest_chunk(chunks, rows, chunks.len(), q);
    lemma_one_leader(chunks, rows, i, k);
    assert(r[q] == t);
}

// ---- grouping ----

/// The next turn is shown as it is stored, with the score it was fused with,
/// its snippet, and marked with exactly the channels that list it.
pub proof fn shown_turns_are_the_stored_ones(v: AskView, found: FoundTurn)
    requires
        v.at < v.fused.len(),
    ensures
        ({
            let hit = ask::surfaced(v, found);
            let f = v.fused[v.at as int];
            &&& hit.score_bits == f.score_bits
            &&& hit.snippet == found.snippet
            &&& hit.matched_lexical <==> exists|i: int|
                0 <= i < v.lexical.len() && #[trigger] v.lexical[i] == f.turn_id
            &&& hit.matched_semantic <==> exists|i: int|
                0 <= i < v.semantic.len() && (#[trigger] v.semantic[i]).turn_id == f.turn_id
            &&& hit.turn_id == found.turn.turn_id
            &&& hit.session_id == found.turn.session_id
            &&& hit.seq == found.turn.seq
            &&& hit.agent == found.turn.agent
            &&& hit.source_session_id == found.turn.source_session_id
            &&& hit.cwd == found.turn.cwd
            &&& hit.role == found.turn.role
            &&& hit.ts == found.turn.ts
            &&& hit.ts_source == found.turn.ts_source
        }),
{
}

/// A turn of a session that has a group counts there and changes nothing else;
/// a turn of another session opens a group behind the others, as its best.
pub proof fn turns_join_their_session(
    groups: Seq<GroupView>,
    hit: AskHit,
    title: Option<String>,
    g: int,
)
    requires
        ask::sessions_differ(groups),
    ensures
        ({
            let now = ask::with_turn(groups, hit, title);
            &&& 0 <= g < groups.len() && groups[g].best.session_id == hit.session_id ==> {
                &&& now.len() == groups.len()
                &&& now[g].best == groups[g].best
                &&& now[g].session_title == groups[g].session_title
                &&& now[g].extra_hits == groups[g].extra_hits + 1
                &&& forall|i: int|
                    0 <= i < groups.len() && i != g ==> #[trigger] now[i] == groups[i]
            }
            &&& (forall|i: int|
                0 <= i < groups.len() ==> (#[trigger] groups[i]).best.session_id
                    != hit.session_id) ==> {
                &&& now.len() == groups.len() + 1
                &&& forall|i: int| 0 <= i < groups.len() ==> #[trigger] now[i] == groups[i]
                &&& now[groups.len() as int].best == hit
                &&& now[groups.len() as int].session_title == title
                &&& now[groups.len() as int].extra_hits == 0
            }
        }),
{
    ask::lemma_session_place(groups, hit.session_id);
    let at = ask::session_place(groups, hit.session_id);
    if 0 <= g < groups.len() && groups[g].best.session_id == hit.session_id && at < groups.len() {
        if at < g {
            assert(groups[at].best.session_id != groups[g].best.session_id);
        } else if g < at {
            assert(groups[g].best.session_id != groups[at].best.session_id);
        }
    }
}

/// Looking at a turn moves on by one turn of the ranking and changes nothing
/// but the groups; a turn that is not stored leaves those too.
pub proof fn looking_moves_on(v: AskView, found: Option<FoundTurn>)
    ensures
        ({
            let now = ask::after_turn(v, found);
            &&& now.at == v.at + 1
            &&& now.pattern == v.pattern
            &&& now.gap == v.gap
            &&& now.lexical == v.lexical
            &&& now.semantic == v.semantic
            &&& now.fused == v.fused
            &&& now.k == v.k
            &&& found is None ==> now.groups == v.groups
            &&& found matches Some(f) ==> now.groups == ask::with_turn(
                v.groups,
                ask::surfaced(v, f),
                f.title,
            )
        }),
{
}

/// Another turn is wanted exactly while groups are missing and turns are left,
/// and it is the next of the ranking.
pub proof fn turns_are_wanted_in_order(v: AskView)
    ensures
        ask::wanted(v) is Some <==> v.groups.len() < v.k && v.at < v.fused.len(),
        ask::wanted(v) matches Some(id) ==> id == v.fused[v.at as int].turn_id,
{
}

/// Each gap has its notice.
pub proof fn gaps_have_their_notice()
    ensures
        ask::notice_text(SemanticGap::NoModel)
            == "semantic channel unavailable (no embedding model) — lexical-only answer"@,
        ask::notice_text(SemanticGap::NoVectors)
            == "semantic channel empty (run `gitpixel recall embed`) — lexical-only answer"@,
{
}

// ---- snippets ----

/// A chunk of a listed turn starts where its first entry says; a turn that is
/// not listed has none.
pub proof fn first_entry_gives_the_start(found: Seq<SemanticTurn>, id: i64, i: int)
    ensures
        (forall|k: int| 0 <= k < found.len() ==> (#[trigger] found[k]).turn_id != id)
            ==> ask::chunk_start(found, id) is None,
        0 <= i < found.len() && found[i].turn_id == id && (forall|k: int|
            0 <= k < i ==> (#[trigger] found[k]).turn_id != id) ==> ask::chunk_start(found, id)
            == Some(found[i].start),
    decreases found.len(),
{
    if found.len() > 0 {
        let rest = found.drop_first();
        first_entry_gives_the_start(rest, id, i - 1);
        assert forall|k: int| 0 <= k < rest.len() implies #[trigger] rest[k] == found[k + 1] by {}
        if forall|k: int| 0 <= k < found.len() ==> (#[trigger] found[k]).turn_id != id {
            assert(found[0].turn_id != id);
            assert forall|k: int| 0 <= k < rest.len() implies (#[trigger] rest[k]).turn_id
                != id by {
                assert(rest[k] == found[k + 1]);
            }
        }
        if 0 < i < found.len() && found[i].turn_id == id && (forall|k: int|
            0 <= k < i ==> (#[trigger] found[k]).turn_id != id) {
            assert(found[0].turn_id != id);
            assert forall|k: int| 0 <= k < i - 1 implies (#[trigger] rest[k]).turn_id != id by {
                assert(rest[k] == found[k + 1]);
            }
            assert(rest[i - 1] == found[i]);
        }
    } else {
    }
}

/// On one line, a text keeps its length and every character but line ends,
/// which become spaces.
pub proof fn one_line_keeps_the_rest(s: Seq<char>, i: int)
    requires
        0 <= i < s.len(),
    ensures
        ask::on_one_line(s).len() == s.len(),
        s[i] == '\n' || s[i] == '\r' ==> ask::on_one_line(s)[i] == ' ',
        s[i] != '\n' && s[i] != '\r' ==> ask::on_one_line(s)[i] == s[i],
{
}

/// The head of a chunk is a part of the text on one line. It begins behind the
/// last character that lies within the first `start` bytes; it takes at least
/// a hundred and sixty bytes of the text, not a character more than that needs,
/// or all there is. An ellipsis follows exactly when the text goes on.
pub proof fn heads_are_parts_of_the_text(text: Seq<char>, start: nat) -> (r: (int, int))
    ensures
        ({
            let (from, to) = r;
            let head = ask::chunk_head(text, start);
            &&& 0 <= from <= to <= text.len()
            &&& text::byte_len(text.take(from)) <= start
            &&& from < text.len() ==> text::byte_len(text.take(from + 1)) > start
            &&& text::byte_len(text.subrange(from, to)) >= 160 || to == text.len()
            &&& from < to ==> text::byte_len(text.subrange(from, to - 1)) < 160
            &&& to < text.len() ==> head == ask::on_one_line(text.subrange(from, to)).push('…')
            &&& to == text.len() ==> head == ask::on_one_line(text.subrange(from, to))
        }),
{
    let from = text::chars_within(text, start) as int;
    text::chars_within_fit(text, start);
    let rest = text.skip(from);
    let n = text::chars_filling(rest, 160) as int;
    text::chars_filling_fill(rest, 160);
    assert(rest.take(n) =~= text.subrange(from, from + n));
    if n > 0 {
        assert(rest.take(n - 1) =~= text.subrange(from, from + n - 1));
    }
    (from, from + n)
}

/// A match is shown with its surroundings; without one, the head of the chunk
/// is shown, from its first byte, or from the start of the text where the
/// chunk is unknown or begins before it.
pub proof fn matches_are_shown_first(
    text: Seq<char>,
    span: (usize, usize),
    chunk: Option<i64>,
    at: i64,
)
    ensures
        ask::shown(text, Some(span), chunk) == (SnippetView::Around { start: span.0, end: span.1 }),
        ask::shown(text, None, None) == SnippetView::Head(ask::chunk_head(text, 0)),
        at >= 0 ==> ask::shown(text, None, Some(at)) == SnippetView::Head(
            ask::chunk_head(text, at as nat),
        ),
        at < 0 ==> ask::shown(text, None, Some(at)) == SnippetView::Head(ask::chunk_head(text, 0)),
        ask::start_byte(None) == 0,
        at >= 0 ==> ask::start_byte(Some(at)) == at,
        at < 0 ==> ask::start_byte(Some(at)) == 0,
{
}

/// A question without a finder has no match in any text, and one with a finder
/// has the first match of its pattern.
pub proof fn finders_find_their_pattern(pattern: Seq<char>, text: Seq<char>)
    ensures
        finder::span_in(Some(pattern), text) == finder::first_match(pattern, text),
        finder::span_in(None, text) is None,
{
}

/// The line of a group names the agent, the short id of the session, its number
/// and that of the turn, the time or a question mark, the directory or a dash,
/// the channels and the snippet, and how many more turns came up, if any did.
pub proof fn group_lines_show_the_best_turn(g: AskSessionGroup, time: Seq<char>)
    ensures
        ({
            let h = g.best;
            let line = h.agent@ + ":"@ + ask::short_id(h.source_session_id@) + " #"@
                + text::dec_int(h.session_id as int) + " t"@ + text::dec_int(h.seq as int) + " "@
                + (if h.ts is Some {
                time
            } else {
                "?"@
            }) + " "@ + (if h.cwd is Some {
                h.cwd->0@
            } else {
                "-"@
            }) + " ["@ + ask::channels(h) + "] \""@ + h.snippet@ + "\""@;
            &&& g.extra_hits == 0 ==> ask::group_line(g, time) == line
            &&& g.extra_hits > 0 ==> ask::group_line(g, time) == line + (" (+"@ + text::dec(
                g.extra_hits as nat,
            ) + " more turns)"@)
        }),
{
    let h = g.best;
    let line = h.agent@ + ":"@ + ask::short_id(h.source_session_id@) + " #"@ + text::dec_int(
        h.session_id as int,
    ) + " t"@ + text::dec_int(h.seq as int) + " "@ + (if h.ts is Some {
        time
    } else {
        "?"@
    }) + " "@ + (if h.cwd is Some {
        h.cwd->0@
    } else {
        "-"@
    }) + " ["@ + ask::channels(h) + "] \""@ + h.snippet@ + "\""@;
    assert(line + Seq::<char>::empty() =~= line);
}

/// The short form of an id is its longest start of at most eight bytes.
pub proof fn short_ids_are_prefixes(id: Seq<char>)
    ensures
        ask::short_id(id).len() <= id.len(),
        ask::short_id(id) == id.take(ask::short_id(id).len() as int),
        text::byte_len(ask::short_id(id)) <= 8,
        ask::short_id(id).len() < id.len() ==> text::byte_len(
            id.take(ask::short_id(id).len() as int + 1),
        ) > 8,
{
    text::chars_within_fit(id, 8);
}

/// The mark of a turn tells which channels surfaced it.
pub proof fn marks_tell_the_channels(hit: AskHit)
    ensures
        hit.matched_lexical && hit.matched_semantic ==> ask::channels(hit) == "l+s"@,
        hit.matched_lexical && !hit.matched_semantic ==> ask::channels(hit) == "lex"@,
        !hit.matched_lexical && hit.matched_semantic ==> ask::channels(hit) == "sem"@,
        !hit.matched_lexical && !hit.matched_semantic ==> ask::channels(hit) == "?"@,
{
}

} // verus!
