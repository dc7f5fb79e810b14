//! Hybrid retrieval over recorded sessions: turns that hold the words of a
//! question and turns that are near it in meaning, grouped by session.
use std::collections::BTreeMap;
use vstd::prelude::*;

use crate::finder;
use crate::finder::WordFinder;
use crate::order;
use crate::order::Ranked;
use crate::text;
use crate::words;

verus! {

/// How many turns each channel contributes at most.
pub const CHANNEL_DEPTH: usize = 200;

/// How many bytes the head of a chunk shows at least.
pub const SEM_SNIPPET_LEN: usize = 160;

/// A turn that answers a question.
#[derive(Debug, Clone)]
pub struct AskHit {
    pub turn_id: i64,
    pub session_id: i64,
    pub seq: i64,
    pub agent: String,
    pub source_session_id: String,
    pub cwd: Option<String>,
    pub role: String,
    pub ts: Option<i64>,
    pub ts_source: String,
    pub snippet: String,
    /// The fused score, as the bits of a single-precision number.
    pub score_bits: u32,
    /// Which channels surfaced this turn.
    pub matched_lexical: bool,
    pub matched_semantic: bool,
}

/// The best turn of a session, and how many more of its turns came up.
#[derive(Debug, Clone)]
pub struct AskSessionGroup {
    pub best: AskHit,
    pub session_title: Option<String>,
    pub extra_hits: usize,
}

/// The answer to a question.
#[derive(Debug)]
pub struct AskResult {
    pub groups: Vec<AskSessionGroup>,
    /// Why the answer is lexical only, if it is.
    pub notice: Option<String>,
}

/// What narrows a search.
#[derive(Debug)]
pub struct SearchFilters {
    pub agent: Option<String>,
    pub repo_prefix: Option<String>,
    pub since_ms: Option<i64>,
    pub until_ms: Option<i64>,
    pub role: Option<String>,
    pub human_only: bool,
    pub session_id: Option<i64>,
}

impl SearchFilters {
    /// Whether anything is narrowed at all.
    pub fn has_filters(&self) -> (r: bool)
        ensures
            r == (self.agent is Some || self.repo_prefix is Some || self.since_ms is Some
                || self.until_ms is Some || self.role is Some || self.human_only
                || self.session_id is Some),
    {
        self.agent.is_some() || self.repo_prefix.is_some() || self.since_ms.is_some()
            || self.until_ms.is_some() || self.role.is_some() || self.human_only
            || self.session_id.is_some()
    }

    /// The filters of the lexical channel: text that tools put into sessions
    /// repeats in nearly all of them and would drown what people said.
    pub fn for_words(&self) -> (r: SearchFilters)
        ensures
            r.human_only,
            text::text_option(r.agent) == text::text_option(self.agent),
            text::text_option(r.repo_prefix) == text::text_option(self.repo_prefix),
            r.since_ms == self.since_ms,
            r.until_ms == self.until_ms,
            text::text_option(r.role) == text::text_option(self.role),
            r.session_id == self.session_id,
    {
        self.people_only()
    }

    /// The filters of the semantic channel, which skips the same text.
    pub fn for_meaning(&self) -> (r: SearchFilters)
        ensures
            r.human_only,
            text::text_option(r.agent) == text::text_option(self.agent),
            text::text_option(r.repo_prefix) == text::text_option(self.repo_prefix),
            r.since_ms == self.since_ms,
            r.until_ms == self.until_ms,
            text::text_option(r.role) == text::text_option(self.role),
            r.session_id == self.session_id,
    {
        self.people_only()
    }

    fn people_only(&self) -> (r: SearchFilters)
        ensures
            r.human_only,
            text::text_option(r.agent) == text::text_option(self.agent),
            text::text_option(r.repo_prefix) == text::text_option(self.repo_prefix),
            r.since_ms == self.since_ms,
            r.until_ms == self.until_ms,
            text::text_option(r.role) == text::text_option(self.role),
            r.session_id == self.session_id,
    {
        SearchFilters {
            agent: text::copied_option(&self.agent),
            repo_prefix: text::copied_option(&self.repo_prefix),
            since_ms: self.since_ms,
            until_ms: self.until_ms,
            role: text::copied_option(&self.role),
            human_only: true,
            session_id: self.session_id,
        }
    }
}

/// Why the semantic channel cannot run.
#[derive(Debug, Clone, Copy, PartialEq, Eq, Structural)]
pub enum SemanticGap {
    NoModel,
    NoVectors,
}

/// Whether the semantic channel can run: with a model, over some vectors.
pub fn semantic_gap(has_model: bool, has_vectors: bool) -> (r: Option<SemanticGap>)
    ensures
        r == (if !has_model {
            Some(SemanticGap::NoModel)
        } else if !has_vectors {
            Some(SemanticGap::NoVectors)
        } else {
            None
        }),
{
    if !has_model {
        Some(SemanticGap::NoModel)
    } else if !has_vectors {
        Some(SemanticGap::NoVectors)
    } else {
        None
    }
}

/// The notice that an answer carries when the semantic channel did not run.
pub open spec fn notice_text(gap: SemanticGap) -> Seq<char> {
    match gap {
        SemanticGap::NoModel =>
            "semantic channel unavailable (no embedding model) — lexical-only answer"@,
        SemanticGap::NoVectors =>
            "semantic channel empty (run `gitpixel recall embed`) — lexical-only answer"@,
    }
}

pub fn gap_notice(gap: SemanticGap) -> (r: String)
    ensures
        r@ == notice_text(gap),
        gap is NoModel ==> r@
            == "semantic channel unavailable (no embedding model) — lexical-only answer"@,
        gap is NoVectors ==> r@
            == "semantic channel empty (run `gitpixel recall embed`) — lexical-only answer"@,
{
    match gap {
        SemanticGap::NoModel =>
            "semantic channel unavailable (no embedding model) — lexical-only answer".to_string(),
        SemanticGap::NoVectors =>
            "semantic channel empty (run `gitpixel recall embed`) — lexical-only answer".to_string(),
    }
}

// ---- the lexical channel ----

/// A turn that holds one of the words.
#[derive(Debug, Clone, Copy, PartialEq, Eq, Structural)]
pub struct LexicalHit {
    pub turn_id: i64,
    pub ts: Option<i64>,
}

/// How often a turn was hit.
#[derive(Debug, Clone, Copy, PartialEq, Eq, Structural)]
pub struct Tally {
    pub turn_id: i64,
    pub count: usize,
    pub ts: Option<i64>,
}

/// Whether a time is later; no time is before every time.
pub open spec fn later(a: Option<i64>, b: Option<i64>) -> bool {
    match (a, b) {
        (Some(x), Some(y)) => x > y,
        (Some(_), None) => true,
        (None, _) => false,
    }
}

impl Ranked for Tally {
    /// More words first, then later turns, then larger ids.
    open spec fn precedes(self, other: Tally) -> bool {
        ||| self.count > other.count
        ||| self.count == other.count && later(self.ts, other.ts)
        ||| self.count == other.count && self.ts == other.ts && self.turn_id > other.turn_id
    }

    proof fn is_weak_order() {
    }

    fn goes_before(&self, other: &Tally) -> (r: bool) {
        if self.count != other.count {
            return self.count > other.count;
        }
        match (self.ts, other.ts) {
            (Some(x), Some(y)) => if x != y {
                x > y
            } else {
                self.turn_id > other.turn_id
            },
            (Some(_), None) => true,
            (None, Some(_)) => false,
            (None, None) => self.turn_id > other.turn_id,
        }
    }
}

/// How many of the first `n` hits are of turn `id`.
pub open spec fn hit_count(hits: Seq<LexicalHit>, n: nat, id: i64) -> nat
    decreases n,
{
    if n == 0 {
        0
    } else {
        hit_count(hits, (n - 1) as nat, id) + if hits[n - 1].turn_id == id {
            1nat
        } else {
            0
        }
    }
}

/// Whether hit `i` is the first of its turn.
pub open spec fn is_first(hits: Seq<LexicalHit>, i: int) -> bool {
    forall|j: int| 0 <= j < i ==> (#[trigger] hits[j]).turn_id != hits[i].turn_id
}

/// The first hits of the turns among the first `n` hits.
pub open spec fn firsts(hits: Seq<LexicalHit>, n: nat) -> Seq<LexicalHit>
    decreases n,
{
    if n == 0 {
        Seq::empty()
    } else if is_first(hits, n - 1) {
        firsts(hits, (n - 1) as nat).push(hits[n - 1])
    } else {
        firsts(hits, (n - 1) as nat)
    }
}

/// Each turn once, with the number of its hits among the first `n` and the
/// time of the first of them.
pub open spec fn tallies(hits: Seq<LexicalHit>, n: nat) -> Seq<Tally> {
    firsts(hits, n).map_values(
        |h: LexicalHit|
            Tally {
                turn_id: h.turn_id,
                count: hit_count(hits, n, h.turn_id) as usize,
                ts: h.ts,
            },
    )
}

/// The turns of the lexical channel, best first.
pub open spec fn lexical_ranking(hits: Seq<LexicalHit>) -> Seq<i64> {
    let ranked = order::sorted(tallies(hits, hits.len()));
    let n = if ranked.len() < CHANNEL_DEPTH {
        ranked.len() as int
    } else {
        CHANNEL_DEPTH as int
    };
    ranked.take(n).map_values(|t: Tally| t.turn_id)
}

/// The place of `id` in a table of places.
fn place_of(m: &BTreeMap<i64, usize>, id: i64) -> (r: Option<usize>)
    ensures
        r == (if m@.contains_key(id) {
            Some(m@[id])
        } else {
            None
        }),
{
    broadcast use vstd::std_specs::btree::group_btree_axioms;
    broadcast use vstd::laws_cmp::group_laws_cmp;

    proof {
        assert(vstd::laws_cmp::obeys_cmp::<i64>());
    }
    match m.get(&id) {
        Some(at) => Some(*at),
        None => None,
    }
}

fn set_place(m: &mut BTreeMap<i64, usize>, id: i64, at: usize)
    ensures
        final(m)@ == old(m)@.insert(id, at),
{
    broadcast use vstd::std_specs::btree::group_btree_axioms;
    broadcast use vstd::laws_cmp::group_laws_cmp;

    proof {
        assert(vstd::laws_cmp::obeys_cmp::<i64>());
    }
    m.insert(id, at);
}

proof fn lemma_hit_count(hits: Seq<LexicalHit>, n: nat, id: i64)
    ensures
        hit_count(hits, n, id) <= n,
        (forall|j: int| 0 <= j < n ==> (#[trigger] hits[j]).turn_id != id) ==> hit_count(
            hits,
            n,
            id,
        ) == 0,
    decreases n,
{
    if n > 0 {
        lemma_hit_count(hits, (n - 1) as nat, id);
    }
}

pub(crate) proof fn lemma_firsts(hits: Seq<LexicalHit>, n: nat)
    requires
        n <= hits.len(),
    ensures
        firsts(hits, n).len() <= n,
        forall|k: int|
            0 <= k < firsts(hits, n).len() ==> exists|j: int|
                0 <= j < n && (#[trigger] hits[j]).turn_id == (#[trigger] firsts(
                    hits,
                    n,
                )[k]).turn_id,
        forall|a: int, b: int|
            0 <= a < b < firsts(hits, n).len() ==> (#[trigger] firsts(hits, n)[a]).turn_id != (
            #[trigger] firsts(hits, n)[b]).turn_id,
    decreases n,
{
    if n > 0 {
        let m = (n - 1) as nat;
        lemma_firsts(hits, m);
        let before = firsts(hits, m);
        let now = firsts(hits, n);
        assert forall|k: int| 0 <= k < now.len() implies exists|j: int|
            0 <= j < n && (#[trigger] hits[j]).turn_id == (#[trigger] now[k]).turn_id by {
            if k < before.len() {
                assert(now[k] == before[k]);
                let j = choose|j: int|
                    0 <= j < m && (#[trigger] hits[j]).turn_id == before[k].turn_id;
                assert(hits[j].turn_id == now[k].turn_id);
            } else {
                assert(hits[n - 1].turn_id == now[k].turn_id);
            }
        }
        assert forall|a: int, b: int| 0 <= a < b < now.len() implies (#[trigger] now[a]).turn_id
            != (#[trigger] now[b]).turn_id by {
            assert(now[a] == before[a]);
            if b < before.len() {
                assert(now[b] == before[b]);
            } else {
                let j = choose|j: int|
                    0 <= j < m && (#[trigger] hits[j]).turn_id == before[a].turn_id;
                assert(hits[j].turn_id != hits[n - 1].turn_id);
            }
        }
    }
}

/// Count the hits of each turn.
fn tally(hits: &Vec<LexicalHit>) -> (r: Vec<Tally>)
    ensures
        r@ == tallies(hits@, hits@.len()),
{
    let mut r: Vec<Tally> = Vec::new();
    let mut places: BTreeMap<i64, usize> = BTreeMap::new();
    let mut i: usize = 0;
    proof {
        assert(r@ =~= tallies(hits@, 0));
    }
    while i < hits.len()
        invariant
            i <= hits@.len(),
            hits.len() == hits@.len(),
            r@ == tallies(hits@, i as nat),
            forall|id: i64| #[trigger]
                places@.contains_key(id) <==> exists|j: int|
                    0 <= j < i && (#[trigger] hits@[j]).turn_id == id,
            forall|id: i64| #[trigger]
                places@.contains_key(id) ==> places@[id] < r@.len() && firsts(
                    hits@,
                    i as nat,
                )[places@[id] as int].turn_id == id,
        decreases hits@.len() - i,
    {
        let h = hits[i];
        let ghost n = i as nat;
        let ghost before = r@;
        let ghost places0 = places@;
        let ghost heads = firsts(hits@, n);
        proof {
            lemma_firsts(hits@, n);
            lemma_hit_count(hits@, n, h.turn_id);
        }
        match place_of(&places, h.turn_id) {
            Some(at) => {
                let t = r[at];
                proof {
                    assert(before[at as int].count == hit_count(hits@, n, h.turn_id) as usize);
                    assert(!is_first(hits@, i as int));
                    assert(firsts(hits@, (n + 1) as nat) == heads);
                }
                r.set(at, Tally { turn_id: t.turn_id, count: t.count + 1, ts: t.ts });
                proof {
                    assert forall|k: int| 0 <= k < heads.len() implies (#[trigger] r@[k])
                        == tallies(hits@, (n + 1) as nat)[k] by {
                        if k != at {
                            if k < at {
                                assert(heads[k].turn_id != heads[at as int].turn_id);
                            } else {
                                assert(heads[at as int].turn_id != heads[k].turn_id);
                            }
                        }
                    }
                    assert(r@ =~= tallies(hits@, (n + 1) as nat));
                }
            },
            None => {
                proof {
                    assert(is_first(hits@, i as int)) by {
                        assert forall|j: int| 0 <= j < i implies (#[trigger] hits@[j]).turn_id
                            != h.turn_id by {
                            if hits@[j].turn_id == h.turn_id {
                                assert(places0.contains_key(h.turn_id));
                            }
                        }
                    }
                    assert(firsts(hits@, (n + 1) as nat) == heads.push(h));
                }
                set_place(&mut places, h.turn_id, r.len());
                r.push(Tally { turn_id: h.turn_id, count: 1, ts: h.ts });
                proof {
                    assert forall|k: int| 0 <= k < r@.len() implies (#[trigger] r@[k])
                        == tallies(hits@, (n + 1) as nat)[k] by {
                        if k < heads.len() {
                            let j = choose|j: int|
                                0 <= j < n && (#[trigger] hits@[j]).turn_id == heads[k].turn_id;
                            assert(hits@[j].turn_id != h.turn_id);
                            assert(heads.push(h)[k] == heads[k]);
                        }
                    }
                    assert(r@ =~= tallies(hits@, (n + 1) as nat));
                }
            },
        }
        proof {
            assert forall|id: i64| #[trigger] places@.contains_key(id) <==> exists|j: int|
                0 <= j < i + 1 && (#[trigger] hits@[j]).turn_id == id by {
                assert(places0.contains_key(id) <==> exists|j: int|
                    0 <= j < i && (#[trigger] hits@[j]).turn_id == id);
                if id == h.turn_id {
                    assert(hits@[i as int].turn_id == id);
                }
            }
            assert forall|id: i64| #[trigger] places@.contains_key(id) implies places@[id]
                < r@.len() && firsts(hits@, (i + 1) as nat)[places@[id] as int].turn_id == id by {
                if places0.contains_key(id) {
                    assert(places@[id] == places0[id]);
                }
            }
        }
        i = i + 1;
    }
    r
}

/// Rank the turns by how many hits they have. `hits` are the hits of all
/// words, one word after the other.
pub fn rank_lexical(hits: &Vec<LexicalHit>) -> (r: Vec<i64>)
    ensures
        r@ == lexical_ranking(hits@),
{
    let ranked = order::stable_sort(tally(hits));
    let n: usize = if ranked.len() < CHANNEL_DEPTH {
        ranked.len()
    } else {
        CHANNEL_DEPTH
    };
    let ghost all = ranked@.take(n as int).map_values(|t: Tally| t.turn_id);
    let mut r: Vec<i64> = Vec::new();
    let mut i: usize = 0;
    while i < n
        invariant
            i <= n <= ranked@.len(),
            all == ranked@.take(n as int).map_values(|t: Tally| t.turn_id),
            r@ == all.take(i as int),
        decreases n - i,
    {
        r.push(ranked[i].turn_id);
        i = i + 1;
        proof {
            assert(r@ =~= all.take(i as int));
        }
    }
    proof {
        assert(r@ =~= all);
    }
    r
}

// ---- the semantic channel ----

/// Which turn a chunk belongs to, and where in its text the chunk starts.
#[derive(Debug, Clone, Copy, PartialEq, Eq, Structural)]
pub struct ChunkTurn {
    pub chunk_id: i64,
    pub turn_id: i64,
    pub start: i64,
}

/// A turn of the semantic channel, with the start of its nearest chunk.
#[derive(Debug, Clone, Copy, PartialEq, Eq, Structural)]
pub struct SemanticTurn {
    pub turn_id: i64,
    pub start: i64,
}

/// What the first `n` rows say of a chunk; a later row replaces an earlier.
pub open spec fn turn_of_chunk(rows: Seq<ChunkTurn>, n: nat, chunk: i64) -> Option<SemanticTurn>
    decreases n,
{
    if n == 0 {
        None
    } else if rows[n - 1].chunk_id == chunk {
        Some(SemanticTurn { turn_id: rows[n - 1].turn_id, start: rows[n - 1].start })
    } else {
        turn_of_chunk(rows, (n - 1) as nat, chunk)
    }
}

/// Whether a turn is among those found.
pub open spec fn has_turn(found: Seq<SemanticTurn>, id: i64) -> bool {
    exists|i: int| 0 <= i < found.len() && (#[trigger] found[i]).turn_id == id
}

/// The turns of the first `n` chunks, nearest first: each turn once, with its
/// nearest chunk, and no more than the channel holds.
pub open spec fn nearest_turns(chunks: Seq<i64>, rows: Seq<ChunkTurn>, n: nat) -> Seq<SemanticTurn>
    decreases n,
{
    if n == 0 {
        Seq::empty()
    } else {
        let before = nearest_turns(chunks, rows, (n - 1) as nat);
        match turn_of_chunk(rows, rows.len(), chunks[n - 1]) {
            Some(t) => if before.len() < CHANNEL_DEPTH && !has_turn(before, t.turn_id) {
                before.push(t)
            } else {
                before
            },
            None => before,
        }
    }
}

/// The row of each chunk: the place of its last one.
fn last_rows(rows: &Vec<ChunkTurn>) -> (m: BTreeMap<i64, usize>)
    ensures
        forall|c: i64| #[trigger]
            m@.contains_key(c) <==> turn_of_chunk(rows@, rows@.len(), c) is Some,
        forall|c: i64| #[trigger]
            m@.contains_key(c) ==> m@[c] < rows@.len() && turn_of_chunk(rows@, rows@.len(), c)
                == Some(
                SemanticTurn {
                    turn_id: rows@[m@[c] as int].turn_id,
                    start: rows@[m@[c] as int].start,
                },
            ),
{
    let mut m: BTreeMap<i64, usize> = BTreeMap::new();
    let mut i: usize = 0;
    while i < rows.len()
        invariant
            i <= rows@.len(),
            forall|c: i64| #[trigger]
                m@.contains_key(c) <==> turn_of_chunk(rows@, i as nat, c) is Some,
            forall|c: i64| #[trigger]
                m@.contains_key(c) ==> m@[c] < i && turn_of_chunk(rows@, i as nat, c) == Some(
                    SemanticTurn {
                        turn_id: rows@[m@[c] as int].turn_id,
                        start: rows@[m@[c] as int].start,
                    },
                ),
        decreases rows@.len() - i,
    {
        let ghost before = m@;
        set_place(&mut m, rows[i].chunk_id, i);
        i = i + 1;
        proof {
            assert forall|c: i64| #[trigger]
                m@.contains_key(c) <==> turn_of_chunk(rows@, i as nat, c) is Some by {
                assert(before.contains_key(c) <==> turn_of_chunk(rows@, (i - 1) as nat, c) is Some);
            }
            assert forall|c: i64| #[trigger] m@.contains_key(c) implies m@[c] < i && turn_of_chunk(
                rows@,
                i as nat,
                c,
            ) == Some(
                SemanticTurn {
                    turn_id: rows@[m@[c] as int].turn_id,
                    start: rows@[m@[c] as int].start,
                },
            ) by {
                if c != rows@[i - 1].chunk_id {
                    assert(before.contains_key(c));
                }
            }
        }
    }
    m
}

pub(crate) proof fn lemma_full(chunks: Seq<i64>, rows: Seq<ChunkTurn>, from: nat, to: nat)
    requires
        from <= to,
        nearest_turns(chunks, rows, from).len() >= CHANNEL_DEPTH,
    ensures
        nearest_turns(chunks, rows, to) == nearest_turns(chunks, rows, from),
    decreases to,
{
    if from < to {
        lemma_full(chunks, rows, from, (to - 1) as nat);
    }
}

/// The turns of the nearest chunks, nearest first. `rows` tells the turn of
/// each chunk.
pub fn semantic_turns(chunks: &Vec<i64>, rows: &Vec<ChunkTurn>) -> (r: Vec<SemanticTurn>)
    ensures
        r@ == nearest_turns(chunks@, rows@, chunks@.len()),
{
    let table = last_rows(rows);
    let mut seen: BTreeMap<i64, usize> = BTreeMap::new();
    let mut r: Vec<SemanticTurn> = Vec::new();
    let mut i: usize = 0;
    while i < chunks.len()
        invariant
            i <= chunks@.len(),
            forall|c: i64| #[trigger]
                table@.contains_key(c) <==> turn_of_chunk(rows@, rows@.len(), c) is Some,
            forall|c: i64| #[trigger]
                table@.contains_key(c) ==> table@[c] < rows@.len() && turn_of_chunk(
                    rows@,
                    rows@.len(),
                    c,
                ) == Some(
                    SemanticTurn {
                        turn_id: rows@[table@[c] as int].turn_id,
                        start: rows@[table@[c] as int].start,
                    },
                ),
            r@ == nearest_turns(chunks@, rows@, i as nat),
            r@.len() < CHANNEL_DEPTH,
            forall|id: i64| #[trigger] seen@.contains_key(id) <==> has_turn(r@, id),
        decreases chunks@.len() - i,
    {
        let ghost before = r@;
        let ghost seen0 = seen@;
        let c: i64 = chunks[i];
        proof {
            assert(table@.contains_key(c) <==> turn_of_chunk(rows@, rows@.len(), c) is Some);
        }
        match place_of(&table, c) {
            Some(at) => {
                let t = SemanticTurn { turn_id: rows[at].turn_id, start: rows[at].start };
                proof {
                    assert(seen0.contains_key(t.turn_id) <==> has_turn(before, t.turn_id));
                }
                if place_of(&seen, t.turn_id).is_none() {
                    set_place(&mut seen, t.turn_id, r.len());
                    r.push(t);
                    proof {
                        assert forall|id: i64| #[trigger]
                            seen@.contains_key(id) <==> has_turn(r@, id) by {
                            assert(seen0.contains_key(id) <==> has_turn(before, id));
                            if has_turn(before, id) {
                                let k = choose|k: int|
                                    0 <= k < before.len() && (#[trigger] before[k]).turn_id == id;
                                assert(r@[k].turn_id == id);
                            }
                            assert(r@[before.len() as int].turn_id == t.turn_id);
                            if has_turn(r@, id) && id != t.turn_id {
                                let k = choose|k: int|
                                    0 <= k < r@.len() && (#[trigger] r@[k]).turn_id == id;
                                assert(before[k].turn_id == id);
                            }
                        }
                    }
                    if r.len() >= CHANNEL_DEPTH {
                        proof {
                            lemma_full(chunks@, rows@, (i + 1) as nat, chunks@.len());
                        }
                        return r;
                    }
                }
            },
            None => {},
        }
        i = i + 1;
    }
    r
}

// ---- grouping by session ----

/// The group of a session with its counter as an integer.
pub struct GroupView {
    pub best: AskHit,
    pub session_title: Option<String>,
    pub extra_hits: nat,
}

pub open spec fn group_views(v: Seq<AskSessionGroup>) -> Seq<GroupView> {
    v.map_values(
        |g: AskSessionGroup|
            GroupView {
                best: g.best,
                session_title: g.session_title,
                extra_hits: g.extra_hits as nat,
            },
    )
}

/// The place of a session among the groups, or their number.
pub open spec fn session_place(groups: Seq<GroupView>, session: i64) -> int
    decreases groups.len(),
{
    if groups.len() == 0 {
        0
    } else if session_place(groups.drop_last(), session) < groups.len() - 1 {
        session_place(groups.drop_last(), session)
    } else if groups.last().best.session_id == session {
        groups.len() - 1
    } else {
        groups.len() as int
    }
}

/// The groups after one more turn: another hit of a known session counts
/// there, a new session opens a group.
pub open spec fn with_turn(
    groups: Seq<GroupView>,
    hit: AskHit,
    title: Option<String>,
) -> Seq<GroupView> {
    let at = session_place(groups, hit.session_id);
    if at < groups.len() {
        groups.update(
            at,
            GroupView { extra_hits: groups[at].extra_hits + 1, ..groups[at] },
        )
    } else {
        groups.push(GroupView { best: hit, session_title: title, extra_hits: 0 })
    }
}

/// A turn of the fused ranking.
#[derive(Debug, Clone, Copy, PartialEq, Eq, Structural)]
pub struct FusedTurn {
    pub turn_id: i64,
    /// Its score, as the bits of a single-precision number.
    pub score_bits: u32,
}

/// A turn as it is stored, with what to show of it.
#[derive(Debug)]
pub struct FoundTurn {
    pub turn: AskHit,
    pub title: Option<String>,
    pub snippet: String,
}

/// A question on its way to an answer.
pub struct AskView {
    /// The pattern that finds the words of the question, if there is one.
    pub pattern: Option<Seq<char>>,
    /// Why the semantic channel did not run, if it did not.
    pub gap: Option<SemanticGap>,
    /// The turns of the lexical channel.
    pub lexical: Seq<i64>,
    /// The turns of the semantic channel.
    pub semantic: Seq<SemanticTurn>,
    /// The turns of both channels, best first.
    pub fused: Seq<FusedTurn>,
    /// How many groups are wanted.
    pub k: nat,
    /// How many turns of the fused ranking have been looked at.
    pub at: nat,
    /// The groups so far.
    pub groups: Seq<GroupView>,
}

/// The turn to look at next: there is none once there are enough groups or all
/// turns have been looked at.
pub open spec fn wanted(v: AskView) -> Option<i64> {
    if v.groups.len() < v.k && v.at < v.fused.len() {
        Some(v.fused[v.at as int].turn_id)
    } else {
        None
    }
}

/// The next turn as the answer shows it: with its score, the channels that
/// surfaced it, and its snippet.
pub open spec fn surfaced(v: AskView, found: FoundTurn) -> AskHit {
    let f = v.fused[v.at as int];
    AskHit {
        score_bits: f.score_bits,
        matched_lexical: v.lexical.contains(f.turn_id),
        matched_semantic: has_turn(v.semantic, f.turn_id),
        snippet: found.snippet,
        ..found.turn
    }
}

/// The question after its next turn was looked at; a turn that is not stored
/// any more is passed over.
pub open spec fn after_turn(v: AskView, found: Option<FoundTurn>) -> AskView {
    AskView {
        at: v.at + 1,
        groups: match found {
            Some(f) => with_turn(v.groups, surfaced(v, f), f.title),
            None => v.groups,
        },
        ..v
    }
}

/// Whether the fused ranking holds turns of the two channels only.
pub open spec fn from_channels(v: AskView) -> bool {
    forall|i: int|
        0 <= i < v.fused.len() ==> v.lexical.contains((#[trigger] v.fused[i]).turn_id) || has_turn(
            v.semantic,
            v.fused[i].turn_id,
        )
}

/// Whether some channel surfaced the best turn of every group.
pub open spec fn all_surfaced(groups: Seq<GroupView>) -> bool {
    forall|i: int|
        0 <= i < groups.len() ==> (#[trigger] groups[i]).best.matched_lexical
            || groups[i].best.matched_semantic
}

/// Whether the semantic channel surfaced the best turn of no group.
pub open spec fn none_semantic(groups: Seq<GroupView>) -> bool {
    forall|i: int| 0 <= i < groups.len() ==> !(#[trigger] groups[i]).best.matched_semantic
}

/// Answers a question turn by turn: it says which turn to look at, takes in
/// what is stored of it, and gathers the turns into session groups.
pub struct Asking {
    finder: Option<WordFinder>,
    gap: Option<SemanticGap>,
    lexical: Vec<i64>,
    semantic: Vec<SemanticTurn>,
    fused: Vec<FusedTurn>,
    k: usize,
    at: usize,
    groups: Vec<AskSessionGroup>,
}

impl View for Asking {
    type V = AskView;

    closed spec fn view(&self) -> AskView {
        AskView {
            pattern: finder::pattern_of(self.finder),
            gap: self.gap,
            lexical: self.lexical@,
            semantic: self.semantic@,
            fused: self.fused@,
            k: self.k as nat,
            at: self.at as nat,
            groups: group_views(self.groups@),
        }
    }
}

/// A question at its start. `semantic` is what the semantic channel found, or
/// why it did not run.
pub open spec fn question(
    pattern: Option<Seq<char>>,
    lexical: Seq<i64>,
    semantic: Result<Vec<SemanticTurn>, SemanticGap>,
    fused: Seq<FusedTurn>,
    k: nat,
) -> AskView {
    AskView {
        pattern,
        gap: match semantic {
            Ok(_) => None,
            Err(gap) => Some(gap),
        },
        lexical,
        semantic: match semantic {
            Ok(turns) => turns@,
            Err(_) => Seq::empty(),
        },
        fused,
        k,
        at: 0,
        groups: Seq::empty(),
    }
}

/// Start on the answer to a question, with a finder for its words if there is
/// one. The turns of the two channels have been fused into one ranking.
pub fn ask_with(
    finder: Option<WordFinder>,
    lexical: Vec<i64>,
    semantic: Result<Vec<SemanticTurn>, SemanticGap>,
    fused: Vec<FusedTurn>,
    k: usize,
) -> (r: Asking)
    ensures
        r@ == question(finder::pattern_of(finder), lexical@, semantic, fused@, k as nat),
        r@.lexical == lexical@,
        semantic matches Ok(turns) ==> r@.semantic == turns@ && r@.gap is None,
        semantic matches Err(gap) ==> r@.semantic.len() == 0 && r@.gap == Some(gap),
        r@.fused == fused@,
        r@.k == k,
        r@.at == 0,
        r@.groups.len() == 0,
{
    let (semantic, gap) = match semantic {
        Ok(turns) => (turns, None),
        Err(gap) => (Vec::new(), Some(gap)),
    };
    let r = Asking { finder, gap, lexical, semantic, fused, k, at: 0, groups: Vec::new() };
    proof {
        assert(r@.groups =~= Seq::<GroupView>::empty());
        assert(r@.gap is Some ==> r@.semantic =~= Seq::<SemanticTurn>::empty());
    }
    r
}

/// Start on the answer to a question with these words. Without words, and
/// where their pattern cannot be compiled, there is none to find them.
pub fn ask(
    words: &Vec<String>,
    lexical: Vec<i64>,
    semantic: Result<Vec<SemanticTurn>, SemanticGap>,
    fused: Vec<FusedTurn>,
    k: usize,
) -> (r: Asking)
    ensures
        r@ == question(r@.pattern, lexical@, semantic, fused@, k as nat),
        words@.len() == 0 ==> r@.pattern is None,
        r@.pattern matches Some(p) ==> p == words::any_word(text::texts(words@)),
{
    ask_with(finder::finder_for(words), lexical, semantic, fused, k)
}

impl Asking {
    #[verifier::type_invariant]
    closed spec fn inv(self) -> bool {
        &&& self.at <= self.fused@.len()
        &&& forall|i: int|
            0 <= i < self.groups@.len() ==> (#[trigger] self.groups@[i]).extra_hits <= self.at
        &&& self.gap is Some ==> self.semantic@.len() == 0 && none_semantic(self@.groups)
        &&& from_channels(self@) ==> all_surfaced(self@.groups)
    }

    /// The turn to look at next, if another is wanted.
    pub fn wants(&self) -> (r: Option<i64>)
        ensures
            r == wanted(self@),
            r is Some <==> self@.groups.len() < self@.k && self@.at < self@.fused.len(),
            r matches Some(id) ==> id == self@.fused[self@.at as int].turn_id,
    {
        if self.groups.len() < self.k && self.at < self.fused.len() {
            Some(self.fused[self.at].turn_id)
        } else {
            None
        }
    }

    /// What to show of the next turn, given its text: the surroundings of the
    /// first of the question's words, or the head of its nearest chunk.
    pub fn snippet(&self, text: &str) -> (r: Snippet)
        requires
            wanted(self@) is Some,
        ensures
            r@ == shown(
                text@,
                finder::span_in(self@.pattern, text@),
                chunk_start(self@.semantic, wanted(self@)->0),
            ),
    {
        let start = chunk_start_of(&self.semantic, self.fused[self.at].turn_id);
        match &self.finder {
            Some(f) => snippet_for(text, Some(f), start),
            None => snippet_for(text, None, start),
        }
    }

    /// Take in what is stored of the next turn, if it still is.
    pub fn on_turn(&mut self, found: Option<FoundTurn>)
        requires
            wanted(old(self)@) is Some,
        ensures
            final(self)@ == after_turn(old(self)@, found),
            final(self)@.at == old(self)@.at + 1,
            final(self)@.fused == old(self)@.fused,
            final(self)@.k == old(self)@.k,
            found is None ==> final(self)@.groups == old(self)@.groups,
            found is Some ==> old(self)@.groups.len() <= final(self)@.groups.len()
                <= old(self)@.groups.len() + 1,
            forall|i: int|
                0 <= i < old(self)@.groups.len() ==> (#[trigger] final(self)@.groups[i]).best
                    == old(self)@.groups[i].best,
    {
        proof {
            use_type_invariant(&*self);
            assert(self.fused.len() == self.fused@.len());
        }
        let ghost v = self@;
        let ghost before = self.groups@;
        let f = self.fused[self.at];
        let at: usize = self.at + 1;
        let mut groups: Vec<AskSessionGroup> = Vec::new();
        std::mem::swap(&mut groups, &mut self.groups);
        match found {
            Some(found) => {
                let ghost found0 = found;
                let FoundTurn { turn, title, snippet } = found;
                let matched_lexical = lists_turn(&self.lexical, f.turn_id);
                let matched_semantic = chunk_start_of(&self.semantic, f.turn_id).is_some();
                let hit = AskHit {
                    score_bits: f.score_bits,
                    matched_lexical,
                    matched_semantic,
                    snippet,
                    ..turn
                };
                let place: usize = find_session(&groups, hit.session_id);
                if place < groups.len() {
                    let mut g = groups.remove(place);
                    g.extra_hits = g.extra_hits + 1;
                    let ghost counted = g;
                    groups.insert(place, g);
                    proof {
                        assert(groups@ =~= before.update(place as int, counted));
                    }
                } else {
                    groups.push(AskSessionGroup { best: hit, session_title: title, extra_hits: 0 });
                }
                proof {
                    assert(hit == surfaced(v, found0));
                    assert(group_views(groups@) =~= with_turn(v.groups, hit, title));
                }
            },
            None => {},
        }
        proof {
            lemma_marks_kept(v, found);
        }
        self.at = at;
        self.groups = groups;
    }

    /// The answer. It carries a notice exactly when the semantic channel did
    /// not run, and is then lexical only.
    pub fn finish(self) -> (r: AskResult)
        ensures
            group_views(r.groups@) == self@.groups,
            match self@.gap {
                Some(gap) => r.notice matches Some(n) && n@ == notice_text(gap),
                None => r.notice is None,
            },
            r.notice is Some ==> none_semantic(group_views(r.groups@)),
            from_channels(self@) ==> all_surfaced(group_views(r.groups@)),
    {
        proof {
            use_type_invariant(&self);
        }
        let notice = match self.gap {
            Some(gap) => Some(gap_notice(gap)),
            None => None,
        };
        AskResult { groups: self.groups, notice }
    }
}

proof fn lemma_marks_kept(v: AskView, found: Option<FoundTurn>)
    requires
        v.at < v.fused.len(),
    ensures
        v.semantic.len() == 0 && none_semantic(v.groups) ==> none_semantic(
            after_turn(v, found).groups,
        ),
        from_channels(v) && all_surfaced(v.groups) ==> all_surfaced(after_turn(v, found).groups),
        from_channels(after_turn(v, found)) == from_channels(v),
{
    if let Some(f) = found {
        let hit = surfaced(v, f);
        let now = after_turn(v, found).groups;
        lemma_session_place(v.groups, hit.session_id);
        if v.semantic.len() == 0 && none_semantic(v.groups) {
            assert forall|i: int| 0 <= i < now.len() implies !(
            #[trigger] now[i]).best.matched_semantic by {
                if i < v.groups.len() {
                    assert(now[i].best == v.groups[i].best);
                }
            }
        }
        if from_channels(v) && all_surfaced(v.groups) {
            let f = v.fused[v.at as int];
            assert(v.lexical.contains(f.turn_id) || has_turn(v.semantic, f.turn_id));
            assert forall|i: int| 0 <= i < now.len() implies (
            #[trigger] now[i]).best.matched_lexical || now[i].best.matched_semantic by {
                if i < v.groups.len() {
                    assert(now[i].best == v.groups[i].best);
                }
            }
        }
    }
    assert(after_turn(v, found).fused == v.fused);
}

/// The place of a session among the groups, or their number.
fn find_session(groups: &Vec<AskSessionGroup>, session: i64) -> (at: usize)
    ensures
        at == session_place(group_views(groups@), session),
{
    let ghost views = group_views(groups@);
    let mut at: usize = 0;
    proof {
        assert(views.take(0) =~= Seq::<GroupView>::empty());
    }
    while at < groups.len()
        invariant
            at <= groups@.len(),
            views == group_views(groups@),
            session_place(views.take(at as int), session) == at,
        decreases groups@.len() - at,
    {
        proof {
            assert(views.take(at + 1).drop_last() =~= views.take(at as int));
        }
        if groups[at].best.session_id == session {
            proof {
                lemma_place_stays(views, session, at + 1);
            }
            return at;
        }
        at = at + 1;
    }
    proof {
        assert(views.take(at as int) =~= views);
    }
    at
}

proof fn lemma_place_stays(views: Seq<GroupView>, session: i64, n: int)
    requires
        0 <= n <= views.len(),
        session_place(views.take(n), session) < n,
    ensures
        session_place(views, session) == session_place(views.take(n), session),
    decreases views.len() - n,
{
    if n < views.len() {
        assert(views.take(n + 1).drop_last() =~= views.take(n));
        lemma_place_stays(views, session, n + 1);
    } else {
        assert(views.take(n) =~= views);
    }
}

// ---- what a turn shows ----

/// Whether `id` is among `ids`.
pub fn lists_turn(ids: &Vec<i64>, id: i64) -> (r: bool)
    ensures
        r == ids@.contains(id),
{
    let mut i: usize = 0;
    while i < ids.len()
        invariant
            i <= ids@.len(),
            forall|k: int| 0 <= k < i ==> ids@[k] != id,
        decreases ids@.len() - i,
    {
        if ids[i] == id {
            return true;
        }
        i = i + 1;
    }
    false
}

/// Where the nearest chunk of a turn starts, if the semantic channel has the
/// turn.
pub open spec fn chunk_start(found: Seq<SemanticTurn>, id: i64) -> Option<i64>
    decreases found.len(),
{
    if found.len() == 0 {
        None
    } else if found[0].turn_id == id {
        Some(found[0].start)
    } else {
        chunk_start(found.drop_first(), id)
    }
}

proof fn lemma_chunk_start(found: Seq<SemanticTurn>, id: i64, i: int)
    requires
        0 <= i <= found.len(),
        forall|k: int| 0 <= k < i ==> (#[trigger] found[k]).turn_id != id,
    ensures
        chunk_start(found, id) == chunk_start(found.skip(i), id),
    decreases i,
{
    if i == 0 {
        assert(found.skip(0) =~= found);
    } else {
        assert(found[0].turn_id != id);
        let rest = found.drop_first();
        assert forall|k: int| 0 <= k < i - 1 implies (#[trigger] rest[k]).turn_id != id by {
            assert(rest[k] == found[k + 1]);
        }
        lemma_chunk_start(rest, id, i - 1);
        assert(rest.skip(i - 1) =~= found.skip(i));
    }
}

pub fn chunk_start_of(found: &Vec<SemanticTurn>, id: i64) -> (r: Option<i64>)
    ensures
        r == chunk_start(found@, id),
        r is Some == has_turn(found@, id),
        r matches Some(start) ==> exists|i: int|
            0 <= i < found@.len() && (#[trigger] found@[i]).turn_id == id && found@[i].start
                == start && forall|k: int| 0 <= k < i ==> (#[trigger] found@[k]).turn_id != id,
{
    let mut i: usize = 0;
    while i < found.len()
        invariant
            i <= found@.len(),
            forall|k: int| 0 <= k < i ==> (#[trigger] found@[k]).turn_id != id,
        decreases found@.len() - i,
    {
        if found[i].turn_id == id {
            proof {
                assert(found@[i as int].turn_id == id);
                lemma_chunk_start(found@, id, i as int);
            }
            return Some(found[i].start);
        }
        i = i + 1;
    }
    proof {
        lemma_chunk_start(found@, id, i as int);
    }
    None
}

/// What to show of a turn.
#[derive(Debug)]
pub enum Snippet {
    /// The surroundings of a match, given by its bytes.
    Around { start: usize, end: usize },
    /// This text.
    Head(String),
}

pub enum SnippetView {
    Around { start: usize, end: usize },
    Head(Seq<char>),
}

impl View for Snippet {
    type V = SnippetView;

    open spec fn view(&self) -> SnippetView {
        match *self {
            Snippet::Around { start, end } => SnippetView::Around { start, end },
            Snippet::Head(s) => SnippetView::Head(s@),
        }
    }
}

/// A text on one line.
pub open spec fn on_one_line(s: Seq<char>) -> Seq<char> {
    s.map_values(
        |c: char|
            if c == '\n' || c == '\r' {
                ' '
            } else {
                c
            },
    )
}

/// The head of a chunk: from the character that byte `start` falls into, as
/// many characters as fill the length of a snippet, on one line, with an
/// ellipsis if the text goes on.
pub open spec fn chunk_head(text: Seq<char>, start: nat) -> Seq<char> {
    let rest = text.skip(text::chars_within(text, start) as int);
    let n = text::chars_filling(rest, SEM_SNIPPET_LEN as nat);
    let line = on_one_line(rest.take(n as int));
    if n < rest.len() {
        line.push('…')
    } else {
        line
    }
}

/// The byte that a chunk starts at; a missing or negative one is the first.
pub open spec fn start_byte(chunk_start: Option<i64>) -> nat {
    match chunk_start {
        Some(b) => if b > 0 {
            b as nat
        } else {
            0
        },
        None => 0,
    }
}

/// What to show of a turn: the surroundings of the match, if there is one,
/// else the head of its nearest chunk.
pub open spec fn shown(
    text: Seq<char>,
    found: Option<(usize, usize)>,
    chunk_start: Option<i64>,
) -> SnippetView {
    match found {
        Some(span) => SnippetView::Around { start: span.0, end: span.1 },
        None => SnippetView::Head(chunk_head(text, start_byte(chunk_start))),
    }
}

/// What to show of a turn, given the span of a match in it.
pub fn make_snippet(text: &str, found: Option<(usize, usize)>, chunk_start: Option<i64>) -> (r:
    Snippet)
    ensures
        r@ == shown(text@, found, chunk_start),
        found matches Some(span) ==> r == (Snippet::Around { start: span.0, end: span.1 }),
        found is None ==> (r matches Snippet::Head(s) && s@ == chunk_head(
            text@,
            start_byte(chunk_start),
        )),
{
    if let Some(span) = found {
        return Snippet::Around { start: span.0, end: span.1 };
    }
    let chars = text::chars_of(text);
    let total: usize = text.as_bytes().len();
    let wanted: u64 = match chunk_start {
        Some(b) => if b > 0 {
            b as u64
        } else {
            0
        },
        None => 0,
    };
    let start: usize = if wanted < total as u64 {
        wanted as usize
    } else {
        total
    };
    proof {
        assert(chars@.skip(0) =~= text@);
        if wanted >= total {
            lemma_all_within(text@, start as nat, wanted as nat);
        }
    }
    let from: usize = text::count_within(&chars, 0, start);
    let n: usize = text::count_filling(&chars, from, SEM_SNIPPET_LEN);
    let ghost rest = text@.skip(from as int);
    let mut line = String::new();
    let mut i: usize = 0;
    proof {
        assert(on_one_line(rest.take(0)) =~= line@);
    }
    while i < n
        invariant
            i <= n,
            from + n <= chars@.len(),
            chars.len() == chars@.len(),
            chars@ == text@,
            rest == text@.skip(from as int),
            line@ == on_one_line(rest.take(i as int)),
        decreases n - i,
    {
        let c: char = chars[from + i];
        if c == '\n' || c == '\r' {
            line.push(' ');
        } else {
            line.push(c);
        }
        i = i + 1;
        proof {
            assert(line@ =~= on_one_line(rest.take(i as int)));
        }
    }
    proof {
        assert(chars.len() == chars@.len());
    }
    if from + n < chars.len() {
        line.push('…');
    }
    Snippet::Head(line)
}

proof fn lemma_all_within(s: Seq<char>, a: nat, b: nat)
    requires
        text::byte_len(s) <= a <= b,
    ensures
        text::chars_within(s, a) == text::chars_within(s, b),
        text::chars_within(s, a) == s.len(),
    decreases s.len(),
{
    if s.len() > 0 {
        let w = text::width(s[0]);
        assert(text::byte_len(s) == w + text::byte_len(s.drop_first()));
        lemma_all_within(s.drop_first(), (a - w) as nat, (b - w) as nat);
    }
}

/// What to show of a turn: the surroundings of the first of the question's
/// words, if there is a finder and it finds one, or the head of its nearest
/// chunk.
pub fn snippet_for(text: &str, finder: Option<&WordFinder>, chunk_start: Option<i64>) -> (r:
    Snippet)
    ensures
        r@ == shown(
            text@,
            match finder {
                Some(f) => finder::first_match(f@, text@),
                None => None,
            },
            chunk_start,
        ),
{
    let found = match finder {
        Some(f) => f.find(text),
        None => None,
    };
    make_snippet(text, found, chunk_start)
}

// ---- printing ----

/// Which channels surfaced a turn.
pub open spec fn channels(hit: AskHit) -> Seq<char> {
    match (hit.matched_lexical, hit.matched_semantic) {
        (true, true) => "l+s"@,
        (true, false) => "lex"@,
        (false, true) => "sem"@,
        (false, false) => "?"@,
    }
}

/// The characters that fill at most the first eight bytes.
pub open spec fn short_id(id: Seq<char>) -> Seq<char> {
    id.take(text::chars_within(id, 8) as int)
}

/// Whether the first eight bytes of an id end between two characters.
pub open spec fn cuts_cleanly(id: Seq<char>) -> bool {
    text::byte_len(id) <= 8 || text::byte_len(short_id(id)) == 8
}

/// One line for a session group. `ts_text` is the time of its best turn.
pub open spec fn group_line(g: AskSessionGroup, ts_text: Seq<char>) -> Seq<char> {
    let h = g.best;
    h.agent@ + ":"@ + short_id(h.source_session_id@) + " #"@ + text::dec_int(h.session_id as int)
        + " t"@ + text::dec_int(h.seq as int) + " "@ + (if h.ts is Some {
        ts_text
    } else {
        "?"@
    }) + " "@ + (match h.cwd {
        Some(c) => c@,
        None => "-"@,
    }) + " ["@ + channels(h) + "] \""@ + h.snippet@ + "\""@ + (if g.extra_hits > 0 {
        " (+"@ + text::dec(g.extra_hits as nat) + " more turns)"@
    } else {
        Seq::empty()
    })
}

/// One line for a session group. `ts_text` is the time of its best turn,
/// which counts only if the turn has a time.
pub fn format_group(g: &AskSessionGroup, ts_text: &str) -> (r: String)
    requires
        cuts_cleanly(g.best.source_session_id@),
    ensures
        r@ == group_line(*g, ts_text@),
{
    let h = &g.best;
    let id = text::chars_of(h.source_session_id.as_str());
    proof {
        assert(id@.skip(0) =~= id@);
    }
    let n: usize = text::count_within(&id, 0, 8);
    let short = text::text_of(&id, 0, n);
    proof {
        assert(short@ =~= short_id(id@));
    }
    let mut r = h.agent.clone();
    r.append(":");
    r.append(short.as_str());
    r.append(" #");
    text::push_dec_int(&mut r, h.session_id);
    r.append(" t");
    text::push_dec_int(&mut r, h.seq);
    r.append(" ");
    if h.ts.is_some() {
        r.append(ts_text);
    } else {
        r.append("?");
    }
    r.append(" ");
    match &h.cwd {
        Some(c) => {
            r.append(c.as_str());
        },
        None => {
            r.append("-");
        },
    }
    r.append(" [");
    r.append(
        match (h.matched_lexical, h.matched_semantic) {
            (true, true) => "l+s",
            (true, false) => "lex",
            (false, true) => "sem",
            (false, false) => "?",
        },
    );
    r.append("] \"");
    r.append(h.snippet.as_str());
    r.append("\"");
    let ghost line = r@;
    if g.extra_hits > 0 {
        r.append(" (+");
        text::push_dec(&mut r, g.extra_hits as u64);
        r.append(" more turns)");
        proof {
            assert(r@ =~= line + (" (+"@ + text::dec(g.extra_hits as nat) + " more turns)"@));
        }
    } else {
        proof {
            assert(line + Seq::<char>::empty() =~= line);
        }
    }
    r
}

// ---- laws ----

/// The question after what is stored of its turns was taken in, as long as
/// another turn was wanted.
pub open spec fn after_turns(v: AskView, found: Seq<Option<FoundTurn>>) -> AskView
    decreases found.len(),
{
    if found.len() == 0 {
        v
    } else {
        let before = after_turns(v, found.drop_last());
        if wanted(before) is Some {
            after_turn(before, found.last())
        } else {
            before
        }
    }
}

pub(crate) proof fn lemma_session_place(groups: Seq<GroupView>, session: i64)
    ensures
        ({
            let at = session_place(groups, session);
            &&& 0 <= at <= groups.len()
            &&& at < groups.len() ==> groups[at].best.session_id == session
            &&& at == groups.len() ==> forall|i: int|
                0 <= i < groups.len() ==> (#[trigger] groups[i]).best.session_id != session
        }),
    decreases groups.len(),
{
    if groups.len() > 0 {
        let before = groups.drop_last();
        lemma_session_place(before, session);
        let at = session_place(groups, session);
        if at == groups.len() {
            assert forall|i: int| 0 <= i < groups.len() implies (
            #[trigger] groups[i]).best.session_id != session by {
                if i < before.len() {
                    assert(groups[i] == before[i]);
                }
            }
        }
    }
}

/// Whether no session has two groups.
pub open spec fn sessions_differ(groups: Seq<GroupView>) -> bool {
    forall|i: int, j: int|
        0 <= i < j < groups.len() ==> (#[trigger] groups[i]).best.session_id != (
        #[trigger] groups[j]).best.session_id
}

/// An answer has at most `k` groups, and no session has two.
pub proof fn groups_are_sessions(v: AskView, found: Seq<Option<FoundTurn>>)
    requires
        v.groups.len() == 0,
    ensures
        after_turns(v, found).groups.len() <= v.k,
        sessions_differ(after_turns(v, found).groups),
        after_turns(v, found).k == v.k,
    decreases found.len(),
{
    if found.len() > 0 {
        let before = after_turns(v, found.drop_last());
        groups_are_sessions(v, found.drop_last());
        if wanted(before) is Some && found.last() is Some {
            let f = found.last()->0;
            let now = with_turn(before.groups, surfaced(before, f), f.title);
            lemma_session_place(before.groups, f.turn.session_id);
            assert forall|i: int, j: int| 0 <= i < j < now.len() implies (
            #[trigger] now[i]).best.session_id != (#[trigger] now[j]).best.session_id by {
                assert(now[i].best.session_id == before.groups[i].best.session_id);
                if j < before.groups.len() {
                    assert(now[j].best.session_id == before.groups[j].best.session_id);
                }
            }
        }
    }
}

/// An answer shows turns of the two channels only, and where the semantic
/// channel found nothing, or did not run, turns of the lexical channel only.
pub proof fn answers_come_from_the_channels(v: AskView, found: Seq<Option<FoundTurn>>)
    requires
        v.groups.len() == 0,
        from_channels(v),
    ensures
        all_surfaced(after_turns(v, found).groups),
        v.semantic.len() == 0 ==> none_semantic(after_turns(v, found).groups),
        from_channels(after_turns(v, found)),
        after_turns(v, found).semantic == v.semantic,
    decreases found.len(),
{
    if found.len() > 0 {
        let before = after_turns(v, found.drop_last());
        answers_come_from_the_channels(v, found.drop_last());
        if wanted(before) is Some {
            lemma_marks_kept(before, found.last());
        }
    }
}

/// How many turns the groups account for.
pub open spec fn turns_shown(groups: Seq<GroupView>) -> nat
    decreases groups.len(),
{
    if groups.len() == 0 {
        0
    } else {
        turns_shown(groups.drop_last()) + 1 + groups.last().extra_hits
    }
}

proof fn lemma_one_more_shown(groups: Seq<GroupView>, at: int)
    requires
        0 <= at < groups.len(),
    ensures
        turns_shown(
            groups.update(
                at,
                GroupView { extra_hits: groups[at].extra_hits + 1, ..groups[at] },
            ),
        ) == turns_shown(groups) + 1,
    decreases groups.len(),
{
    let g = GroupView { extra_hits: groups[at].extra_hits + 1, ..groups[at] };
    let now = groups.update(at, g);
    if at < groups.len() - 1 {
        lemma_one_more_shown(groups.drop_last(), at);
        assert(now.drop_last() =~= groups.drop_last().update(at, g));
    } else {
        assert(now.drop_last() =~= groups.drop_last());
    }
}

/// No turn that is stored is lost: each that is looked at opens a group or
/// counts in one, and one that is not stored any more counts nowhere.
pub proof fn every_turn_counts(v: AskView, found: Option<FoundTurn>)
    ensures
        turns_shown(after_turn(v, found).groups) == turns_shown(v.groups) + (if found is Some {
            1int
        } else {
            0
        }),
{
    if let Some(f) = found {
        let groups = v.groups;
        let hit = surfaced(v, f);
        let at = session_place(groups, hit.session_id);
        lemma_session_place(groups, hit.session_id);
        if at < groups.len() {
            lemma_one_more_shown(groups, at);
        } else {
            assert(with_turn(groups, hit, f.title).drop_last() =~= groups);
        }
    }
}

/// The semantic channel lists each turn once and no more turns than it holds.
pub proof fn semantic_turns_are_distinct(chunks: Seq<i64>, rows: Seq<ChunkTurn>, n: nat)
    ensures
        nearest_turns(chunks, rows, n).len() <= CHANNEL_DEPTH,
        forall|i: int, j: int|
            0 <= i < j < nearest_turns(chunks, rows, n).len() ==> (#[trigger] nearest_turns(
                chunks,
                rows,
                n,
            )[i]).turn_id != (#[trigger] nearest_turns(chunks, rows, n)[j]).turn_id,
    decreases n,
{
    if n > 0 {
        let m = (n - 1) as nat;
        semantic_turns_are_distinct(chunks, rows, m);
        let before = nearest_turns(chunks, rows, m);
        let now = nearest_turns(chunks, rows, n);
        assert forall|i: int, j: int| 0 <= i < j < now.len() implies (#[trigger] now[i]).turn_id
            != (#[trigger] now[j]).turn_id by {
            assert(now[i] == before[i]);
            if j < before.len() {
                assert(now[j] == before[j]);
            }
        }
    }
}

/// The lexical channel lists each turn once and no more turns than it holds.
pub proof fn lexical_turns_are_distinct(hits: Seq<LexicalHit>)
    ensures
        lexical_ranking(hits).len() <= CHANNEL_DEPTH,
        lexical_ranking(hits).no_duplicates(),
{
    let t = tallies(hits, hits.len());
    let s = order::sorted(t);
    order::sorting_exists(t);
    lemma_firsts(hits, hits.len());
    assert(t.no_duplicates()) by {
        assert forall|i: int, j: int| 0 <= i < t.len() && 0 <= j < t.len() && i != j implies t[i]
            != t[j] by {
            let f = firsts(hits, hits.len());
            if i < j {
                assert(f[i].turn_id != f[j].turn_id);
            } else {
                assert(f[j].turn_id != f[i].turn_id);
            }
        }
    }
    t.lemma_multiset_has_no_duplicates();
    assert(s.to_multiset() == t.to_multiset());
    s.lemma_multiset_has_no_duplicates_conv();
    let r = lexical_ranking(hits);
    assert forall|i: int, j: int| 0 <= i < r.len() && 0 <= j < r.len() && i != j implies r[i]
        != r[j] by {
        assert(r[i] == s[i].turn_id);
        assert(r[j] == s[j].turn_id);
        assert(s.contains(s[i]) && s.contains(s[j]));
        lemma_tally_of(hits, s[i]);
        assert(s[i] != s[j]);
    }
}

/// A member of the sorted tallies is determined by its turn.
pub(crate) proof fn lemma_tally_of(hits: Seq<LexicalHit>, x: Tally)
    ensures
        order::sorted(tallies(hits, hits.len())).contains(x) ==> forall|y: Tally|
            order::sorted(tallies(hits, hits.len())).contains(y) && y.turn_id == x.turn_id ==> y
                == x,
{
    let t = tallies(hits, hits.len());
    let s = order::sorted(t);
    order::sorting_exists(t);
    lemma_firsts(hits, hits.len());
    if s.contains(x) {
        assert forall|y: Tally| s.contains(y) && y.turn_id == x.turn_id implies y == x by {
            vstd::seq_lib::to_multiset_contains(s, x);
            vstd::seq_lib::to_multiset_contains(t, x);
            vstd::seq_lib::to_multiset_contains(s, y);
            vstd::seq_lib::to_multiset_contains(t, y);
            let i = choose|i: int| 0 <= i < t.len() && t[i] == x;
            let j = choose|j: int| 0 <= j < t.len() && t[j] == y;
            let f = firsts(hits, hits.len());
            if i < j {
                assert(f[i].turn_id != f[j].turn_id);
            } else if j < i {
                assert(f[j].turn_id != f[i].turn_id);
            }
        }
    }
}

} // verus!
