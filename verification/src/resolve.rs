//! Tiered call resolution. A name never fans out to several definition sites:
//! each call becomes at most one edge.
//!
//! - the callee is defined in the caller's own file: exact
//! - it is defined in exactly one file that the caller imports: exact
//! - its name is defined in exactly one file of the repository: probable
//! - otherwise the call stays unresolved, on record
use std::collections::BTreeMap;
use vstd::prelude::*;

use crate::resolve_laws;
use crate::text;

verus! {

/// What a definition is, as far as calls care.
#[derive(Debug, Clone, Copy, PartialEq, Eq, Structural)]
pub enum SymbolKind {
    Function,
    Method,
    Class,
    Struct,
    /// Anything that cannot be called.
    Other,
}

/// How sure an edge is.
#[derive(Debug, Clone, Copy, PartialEq, Eq, Structural)]
pub enum Tier {
    Exact,
    Probable,
}

/// How many calls ended in which tier.
#[derive(Debug, Clone)]
pub struct ResolveStats {
    pub exact: u64,
    pub probable: u64,
    pub unresolved: u64,
}

impl Default for ResolveStats {
    fn default() -> (s: ResolveStats)
        ensures
            s.exact == 0,
            s.probable == 0,
            s.unresolved == 0,
    {
        ResolveStats { exact: 0, probable: 0, unresolved: 0 }
    }
}

/// One call site that awaits resolution.
#[derive(Debug, Clone)]
pub struct PendingCall {
    pub callee_name: String,
    pub enclosing_symbol_id: Option<i64>,
    pub site_line: u32,
}

/// All pending calls of one file.
#[derive(Debug, Clone)]
pub struct FileCalls {
    pub file_id: i64,
    pub calls: Vec<PendingCall>,
}

/// What became of one call.
#[derive(Debug, Clone, Copy, PartialEq, Eq, Structural)]
pub enum Decision {
    Exact(i64),
    Probable(i64),
    Unresolved,
}

/// A row of the symbol table.
#[derive(Debug, Clone)]
pub struct SymbolDef {
    pub name: String,
    pub file_id: i64,
    pub symbol_id: i64,
    pub kind: SymbolKind,
    pub start_line: u32,
}

/// A definition that a call may mean.
#[derive(Debug, Clone, Copy, PartialEq, Eq, Structural)]
pub struct Candidate {
    pub file_id: i64,
    pub symbol_id: i64,
    pub kind: SymbolKind,
    pub start_line: u32,
}

/// A call from one symbol to another.
#[derive(Debug, Clone, Copy, PartialEq, Eq, Structural)]
pub struct CallEdge {
    pub src_id: i64,
    pub dst_id: i64,
    pub tier: Tier,
    pub site_line: u32,
}

// ---- the model ----

pub open spec fn is_callable(kind: SymbolKind) -> bool {
    kind != SymbolKind::Other
}

/// Which of several definitions in one place is meant: functions before
/// methods before classes before structs.
pub open spec fn priority(kind: SymbolKind) -> int {
    match kind {
        SymbolKind::Function => 0,
        SymbolKind::Method => 1,
        SymbolKind::Class => 2,
        SymbolKind::Struct => 3,
        SymbolKind::Other => 9,
    }
}

/// Whether `a` is preferred to `b` or as good: by kind, then by line, then by
/// symbol id.
pub open spec fn preferred(a: Candidate, b: Candidate) -> bool {
    ||| priority(a.kind) < priority(b.kind)
    ||| priority(a.kind) == priority(b.kind) && a.start_line < b.start_line
    ||| priority(a.kind) == priority(b.kind) && a.start_line == b.start_line && a.symbol_id
        <= b.symbol_id
}

/// Whether `id` is the symbol of a candidate that is preferred to all others.
pub open spec fn is_best(cands: Seq<Candidate>, id: i64) -> bool {
    exists|i: int|
        #![trigger cands[i]]
        0 <= i < cands.len() && cands[i].symbol_id == id && forall|j: int|
            0 <= j < cands.len() ==> preferred(cands[i], #[trigger] cands[j])
}

/// The symbol of the preferred candidate.
pub open spec fn best_id(cands: Seq<Candidate>) -> i64 {
    choose|id: i64| is_best(cands, id)
}

/// Whether all candidates are defined in one file.
pub open spec fn one_file(cands: Seq<Candidate>) -> bool {
    forall|i: int, j: int|
        0 <= i < cands.len() && 0 <= j < cands.len() ==> #[trigger] cands[i].file_id
            == #[trigger] cands[j].file_id
}

/// The candidates in file `file_id`.
pub open spec fn in_file(cands: Seq<Candidate>, file_id: i64) -> Seq<Candidate> {
    cands.filter(|c: Candidate| c.file_id == file_id)
}

/// The candidates in files that `caller` imports.
pub open spec fn in_imports(
    cands: Seq<Candidate>,
    imports: Set<(i64, i64)>,
    caller: i64,
) -> Seq<Candidate> {
    cands.filter(|c: Candidate| imports.contains((caller, c.file_id)))
}

/// The tiers, for a call out of file `caller` that may mean `cands`.
pub open spec fn decision(
    cands: Seq<Candidate>,
    imports: Set<(i64, i64)>,
    caller: i64,
) -> Decision {
    let own = in_file(cands, caller);
    let imported = in_imports(cands, imports, caller);
    if own.len() > 0 {
        Decision::Exact(best_id(own))
    } else if imported.len() > 0 {
        if one_file(imported) {
            Decision::Exact(best_id(imported))
        } else {
            Decision::Unresolved
        }
    } else if cands.len() > 0 && one_file(cands) {
        Decision::Probable(best_id(cands))
    } else {
        Decision::Unresolved
    }
}

/// The candidate that a row of the symbol table describes.
pub open spec fn candidate_of(d: SymbolDef) -> Candidate {
    Candidate {
        file_id: d.file_id,
        symbol_id: d.symbol_id,
        kind: d.kind,
        start_line: d.start_line,
    }
}

/// Whether a row is a callable definition of `name`.
pub open spec fn defining(name: Seq<char>) -> spec_fn(SymbolDef) -> bool {
    |d: SymbolDef| is_callable(d.kind) && d.name@ == name
}

/// The callable definitions of `name`, in table order.
pub open spec fn callable_named(defs: Seq<SymbolDef>, name: Seq<char>) -> Seq<Candidate> {
    defs.filter(defining(name)).map_values(|d: SymbolDef| candidate_of(d))
}

/// What the tables say: who defines what, and which file imports which.
pub struct IndexModel {
    pub defs: Seq<SymbolDef>,
    pub imports: Set<(i64, i64)>,
}

impl IndexModel {
    /// What a call out of `caller` to `name` resolves to.
    pub open spec fn decide(self, caller: i64, name: Seq<char>) -> Decision {
        decision(callable_named(self.defs, name), self.imports, caller)
    }
}

// ---- candidates ----

fn callable(kind: SymbolKind) -> (r: bool)
    ensures
        r == is_callable(kind),
{
    match kind {
        SymbolKind::Function | SymbolKind::Method | SymbolKind::Class | SymbolKind::Struct => true,
        SymbolKind::Other => false,
    }
}

fn kind_priority(kind: SymbolKind) -> (p: u8)
    ensures
        p == priority(kind),
{
    match kind {
        SymbolKind::Function => 0,
        SymbolKind::Method => 1,
        SymbolKind::Class => 2,
        SymbolKind::Struct => 3,
        SymbolKind::Other => 9,
    }
}

pub proof fn lemma_best_unique(cands: Seq<Candidate>, id: i64)
    requires
        is_best(cands, id),
    ensures
        best_id(cands) == id,
{
    let other = best_id(cands);
    assert(is_best(cands, other));
    let i = choose|i: int|
        #![trigger cands[i]]
        0 <= i < cands.len() && cands[i].symbol_id == id && forall|j: int|
            0 <= j < cands.len() ==> preferred(cands[i], #[trigger] cands[j]);
    let k = choose|i: int|
        #![trigger cands[i]]
        0 <= i < cands.len() && cands[i].symbol_id == other && forall|j: int|
            0 <= j < cands.len() ==> preferred(cands[i], #[trigger] cands[j]);
    assert(preferred(cands[i], cands[k]));
    assert(preferred(cands[k], cands[i]));
}

fn prefers(a: Candidate, b: Candidate) -> (r: bool)
    ensures
        r == preferred(a, b),
{
    let pa: u8 = kind_priority(a.kind);
    let pb: u8 = kind_priority(b.kind);
    pa < pb || (pa == pb && (a.start_line < b.start_line || (a.start_line == b.start_line
        && a.symbol_id <= b.symbol_id)))
}

/// The symbol of the preferred candidate.
pub fn best(cands: &Vec<Candidate>) -> (r: Option<i64>)
    ensures
        match r {
            Some(id) => cands@.len() > 0 && id == best_id(cands@) && is_best(cands@, id),
            None => cands@.len() == 0,
        },
        r matches Some(id) ==> exists|i: int|
            #![trigger cands@[i]]
            0 <= i < cands@.len() && cands@[i].symbol_id == id && forall|j: int|
                0 <= j < cands@.len() ==> !({
                    let c = #[trigger] cands@[j];
                    ||| resolve_laws::kind_goes_first(c.kind, cands@[i].kind)
                    ||| c.kind == cands@[i].kind && c.start_line < cands@[i].start_line
                    ||| c.kind == cands@[i].kind && c.start_line == cands@[i].start_line
                        && c.symbol_id < cands@[i].symbol_id
                }),
{
    if cands.len() == 0 {
        return None;
    }
    let mut at: usize = 0;
    let mut i: usize = 1;
    while i < cands.len()
        invariant
            at < i <= cands@.len(),
            forall|j: int| 0 <= j < i ==> preferred(cands@[at as int], #[trigger] cands@[j]),
        decreases cands@.len() - i,
    {
        if !prefers(cands[at], cands[i]) {
            at = i;
        }
        i = i + 1;
    }
    proof {
        assert(is_best(cands@, cands@[at as int].symbol_id));
        lemma_best_unique(cands@, cands@[at as int].symbol_id);
        assert forall|j: int| 0 <= j < cands@.len() implies !({
            let c = #[trigger] cands@[j];
            ||| resolve_laws::kind_goes_first(c.kind, cands@[at as int].kind)
            ||| c.kind == cands@[at as int].kind && c.start_line < cands@[at as int].start_line
            ||| c.kind == cands@[at as int].kind && c.start_line == cands@[at as int].start_line
                && c.symbol_id < cands@[at as int].symbol_id
        }) by {
            resolve_laws::preference_goes_by_kind_line_and_id(cands@[at as int], cands@[j]);
        }
    }
    Some(cands[at].symbol_id)
}

fn single_file(cands: &Vec<Candidate>) -> (r: bool)
    ensures
        r == one_file(cands@),
{
    let mut i: usize = 0;
    while i < cands.len()
        invariant
            i <= cands@.len(),
            forall|j: int| 0 <= j < i ==> #[trigger] cands@[j].file_id == cands@[0].file_id,
        decreases cands@.len() - i,
    {
        if cands[i].file_id != cands[0].file_id {
            proof {
                assert(cands@[i as int].file_id != cands@[0].file_id);
            }
            return false;
        }
        i = i + 1;
    }
    true
}

// ---- the index ----

/// The key of the bucket that holds a name: FNV-1a of its bytes.
spec fn bucket_key(bytes: Seq<u8>) -> u64
    decreases bytes.len(),
{
    if bytes.len() == 0 {
        0xcbf2_9ce4_8422_2325
    } else {
        let k = bucket_key(bytes.drop_last()) ^ (bytes.last() as u64);
        k.wrapping_mul(0x100_0000_01b3)
    }
}

spec fn name_key(name: Seq<char>) -> u64 {
    bucket_key(vstd::utf8::encode_utf8(name))
}

fn key_of(name: &str) -> (k: u64)
    ensures
        k == name_key(name@),
{
    let b = name.as_bytes();
    let mut k: u64 = 0xcbf2_9ce4_8422_2325;
    let mut i: usize = 0;
    proof {
        assert(b@.take(0) =~= Seq::<u8>::empty());
    }
    while i < b.len()
        invariant
            i <= b@.len(),
            k == bucket_key(b@.take(i as int)),
        decreases b@.len() - i,
    {
        proof {
            assert(b@.take(i + 1).drop_last() =~= b@.take(i as int));
        }
        k = (k ^ (b[i] as u64)).wrapping_mul(0x100_0000_01b3);
        i = i + 1;
    }
    proof {
        assert(b@.take(i as int) =~= b@);
    }
    k
}

/// The callable rows among `defs` whose name falls into bucket `k`.
spec fn bucket_rows(defs: Seq<SymbolDef>, k: u64) -> Seq<(Seq<char>, Candidate)>
    decreases defs.len(),
{
    if defs.len() == 0 {
        Seq::empty()
    } else {
        let d = defs.last();
        let before = bucket_rows(defs.drop_last(), k);
        if is_callable(d.kind) && name_key(d.name@) == k {
            before.push((d.name@, candidate_of(d)))
        } else {
            before
        }
    }
}

spec fn entries(v: Seq<(String, Candidate)>) -> Seq<(Seq<char>, Candidate)> {
    v.map_values(|e: (String, Candidate)| (e.0@, e.1))
}

/// The candidates of `name` within a bucket.
spec fn named_in(rows: Seq<(Seq<char>, Candidate)>, name: Seq<char>) -> Seq<Candidate>
    decreases rows.len(),
{
    if rows.len() == 0 {
        Seq::empty()
    } else if rows.last().0 == name {
        named_in(rows.drop_last(), name).push(rows.last().1)
    } else {
        named_in(rows.drop_last(), name)
    }
}

proof fn lemma_bucket_complete(defs: Seq<SymbolDef>, name: Seq<char>)
    ensures
        named_in(bucket_rows(defs, name_key(name)), name) == callable_named(defs, name),
    decreases defs.len(),
{
    let keep = defining(name);
    reveal(Seq::filter);
    if defs.len() == 0 {
        assert(callable_named(defs, name) =~= Seq::<Candidate>::empty());
    } else {
        let d = defs.last();
        let rest = defs.drop_last();
        let rows = bucket_rows(rest, name_key(name));
        lemma_bucket_complete(rest, name);
        if is_callable(d.kind) && name_key(d.name@) == name_key(name) {
            let row = (d.name@, candidate_of(d));
            assert(rows.push(row).drop_last() =~= rows);
        }
        if keep(d) {
            assert(defs.filter(keep) == rest.filter(keep).push(d));
            assert(callable_named(defs, name) =~= callable_named(rest, name).push(candidate_of(d)));
        } else {
            assert(defs.filter(keep) == rest.filter(keep));
        }
    }
}

/// Definitions by name and imports by file, for deciding calls.
pub struct ResolveIndex {
    by_name: BTreeMap<u64, Vec<(String, Candidate)>>,
    imports_of: BTreeMap<i64, Vec<i64>>,
    model: Ghost<IndexModel>,
}

impl View for ResolveIndex {
    type V = IndexModel;

    closed spec fn view(&self) -> IndexModel {
        self.model@
    }
}

spec fn buckets_hold(m: Map<u64, Vec<(String, Candidate)>>, defs: Seq<SymbolDef>) -> bool {
    forall|k: u64| #[trigger]
        bucket_rows(defs, k) == (if m.contains_key(k) {
            entries(m[k]@)
        } else {
            Seq::empty()
        })
}

spec fn imports_hold(m: Map<i64, Vec<i64>>, imports: Set<(i64, i64)>) -> bool {
    forall|f: i64, d: i64| #[trigger]
        imports.contains((f, d)) <==> m.contains_key(f) && m[f]@.contains(d)
}

/// The pairs of an import table.
pub open spec fn import_set(imports: Seq<(i64, i64)>) -> Set<(i64, i64)> {
    imports.to_set()
}

fn add_definition(m: &mut BTreeMap<u64, Vec<(String, Candidate)>>, d: &SymbolDef, defs: Ghost<
    Seq<SymbolDef>,
>)
    requires
        buckets_hold(old(m)@, defs@),
    ensures
        buckets_hold(final(m)@, defs@.push(*d)),
{
    broadcast use vstd::std_specs::btree::group_btree_axioms;
    broadcast use vstd::laws_cmp::group_laws_cmp;

    proof {
        assert(vstd::laws_cmp::obeys_cmp::<u64>());
        assert(defs@.push(*d).drop_last() =~= defs@);
    }
    if !callable(d.kind) {
        proof {
            assert forall|k: u64| #[trigger] bucket_rows(defs@.push(*d), k) == (if m@.contains_key(
                k,
            ) {
                entries(m@[k]@)
            } else {
                Seq::empty()
            }) by {
                assert(bucket_rows(defs@, k) == bucket_rows(defs@.push(*d), k));
            }
        }
        return;
    }
    let k: u64 = key_of(d.name.as_str());
    let mut bucket: Vec<(String, Candidate)> = match m.remove(&k) {
        Some(b) => b,
        None => Vec::new(),
    };
    let ghost before = entries(bucket@);
    proof {
        assert(before =~= bucket_rows(defs@, k));
    }
    let c = Candidate {
        file_id: d.file_id,
        symbol_id: d.symbol_id,
        kind: d.kind,
        start_line: d.start_line,
    };
    bucket.push((d.name.clone(), c));
    proof {
        assert(entries(bucket@) =~= before.push((d.name@, candidate_of(*d))));
    }
    m.insert(k, bucket);
    proof {
        assert forall|x: u64| #[trigger] bucket_rows(defs@.push(*d), x) == (if m@.contains_key(x) {
            entries(m@[x]@)
        } else {
            Seq::empty()
        }) by {
            assert(bucket_rows(defs@, x) == (if old(m)@.contains_key(x) {
                entries(old(m)@[x]@)
            } else {
                Seq::empty()
            }));
            if x != k {
                assert(m@.contains_key(x) == old(m)@.contains_key(x));
            }
        }
    }
}

fn add_import(m: &mut BTreeMap<i64, Vec<i64>>, file: i64, dst: i64, imports: Ghost<
    Set<(i64, i64)>,
>)
    requires
        imports_hold(old(m)@, imports@),
    ensures
        imports_hold(final(m)@, imports@.insert((file, dst))),
{
    broadcast use vstd::std_specs::btree::group_btree_axioms;
    broadcast use vstd::laws_cmp::group_laws_cmp;

    proof {
        assert(vstd::laws_cmp::obeys_cmp::<i64>());
    }
    let mut list: Vec<i64> = match m.remove(&file) {
        Some(l) => l,
        None => Vec::new(),
    };
    let ghost before = list@;
    list.push(dst);
    let ghost after = list@;
    m.insert(file, list);
    proof {
        assert forall|f: i64, d: i64| #[trigger]
            imports@.insert((file, dst)).contains((f, d)) <==> m@.contains_key(f)
                && m@[f]@.contains(d) by {
            assert(imports@.contains((f, d)) <==> old(m)@.contains_key(f)
                && old(m)@[f]@.contains(d));
            if f == file {
                assert(after == before.push(dst));
                assert(m@[f]@ == after);
                if before.contains(d) {
                    let i = choose|i: int| 0 <= i < before.len() && before[i] == d;
                    assert(after[i] == d);
                }
                assert(after.last() == dst);
                if after.contains(d) && d != dst {
                    let i = choose|i: int| 0 <= i < after.len() && after[i] == d;
                    assert(before[i] == d);
                }
            }
        }
    }
}

impl ResolveIndex {
    /// Buckets and import lists agree with the tables.
    #[verifier::type_invariant]
    closed spec fn inv(self) -> bool {
        &&& buckets_hold(self.by_name@, self.model@.defs)
        &&& imports_hold(self.imports_of@, self.model@.imports)
    }

    /// Index the symbol table and the resolved rows of the import table.
    pub fn build(symbols: &Vec<SymbolDef>, imports: &Vec<(i64, i64)>) -> (r: ResolveIndex)
        ensures
            r@.defs == symbols@,
            r@.imports == import_set(imports@),
    {
        let mut by_name: BTreeMap<u64, Vec<(String, Candidate)>> = BTreeMap::new();
        let mut i: usize = 0;
        proof {
            assert(symbols@.take(0) =~= Seq::<SymbolDef>::empty());
        }
        while i < symbols.len()
            invariant
                i <= symbols@.len(),
                buckets_hold(by_name@, symbols@.take(i as int)),
            decreases symbols@.len() - i,
        {
            add_definition(&mut by_name, &symbols[i], Ghost(symbols@.take(i as int)));
            proof {
                assert(symbols@.take(i as int).push(symbols@[i as int]) =~= symbols@.take(i + 1));
            }
            i = i + 1;
        }
        let mut imports_of: BTreeMap<i64, Vec<i64>> = BTreeMap::new();
        let mut j: usize = 0;
        while j < imports.len()
            invariant
                j <= imports@.len(),
                imports_hold(imports_of@, imports@.take(j as int).to_set()),
            decreases imports@.len() - j,
        {
            let pair: (i64, i64) = imports[j];
            add_import(&mut imports_of, pair.0, pair.1, Ghost(imports@.take(j as int).to_set()));
            proof {
                let before = imports@.take(j as int);
                let after = imports@.take(j + 1);
                assert(after =~= before.push(pair));
                assert forall|p: (i64, i64)|
                    after.to_set().contains(p) <==> before.to_set().insert(pair).contains(p) by {
                    if before.contains(p) {
                        let k = choose|k: int| 0 <= k < before.len() && before[k] == p;
                        assert(after[k] == p);
                    }
                    assert(after[j as int] == pair);
                }
                assert(after.to_set() =~= before.to_set().insert(pair));
            }
            j = j + 1;
        }
        proof {
            assert(symbols@.take(i as int) =~= symbols@);
            assert(imports@.take(j as int) =~= imports@);
        }
        ResolveIndex {
            by_name,
            imports_of,
            model: Ghost(IndexModel { defs: symbols@, imports: import_set(imports@) }),
        }
    }

    /// The callable definitions of `name`.
    fn candidates(&self, name: &str) -> (r: Vec<Candidate>)
        ensures
            r@ == callable_named(self@.defs, name@),
    {
        broadcast use vstd::std_specs::btree::group_btree_axioms;
        broadcast use vstd::laws_cmp::group_laws_cmp;

        proof {
            use_type_invariant(self);
            assert(vstd::laws_cmp::obeys_cmp::<u64>());
            lemma_bucket_complete(self@.defs, name@);
        }
        let k: u64 = key_of(name);
        match self.by_name.get(&k) {
            None => {
                proof {
                    assert(bucket_rows(self@.defs, k) == Seq::<(Seq<char>, Candidate)>::empty());
                }
                Vec::new()
            },
            Some(bucket) => {
                proof {
                    assert(bucket_rows(self@.defs, k) == entries(bucket@));
                }
                pick(bucket, name)
            },
        }
    }

    /// Whether `file` imports `other`.
    fn imports(&self, file: i64, other: i64) -> (r: bool)
        ensures
            r == self@.imports.contains((file, other)),
    {
        broadcast use vstd::std_specs::btree::group_btree_axioms;
        broadcast use vstd::laws_cmp::group_laws_cmp;

        proof {
            use_type_invariant(self);
            assert(vstd::laws_cmp::obeys_cmp::<i64>());
        }
        match self.imports_of.get(&file) {
            None => false,
            Some(list) => lists(list, other),
        }
    }

    /// The tier decision for one call out of `caller_file_id` to `name`.
    pub fn decide(&self, caller_file_id: i64, name: &str) -> (r: Decision)
        ensures
            r == self@.decide(caller_file_id, name@),
    {
        let cands = self.candidates(name);
        let ghost is_own = |c: Candidate| c.file_id == caller_file_id;
        let ghost is_imported = |c: Candidate|
            self@.imports.contains((caller_file_id, c.file_id));
        let mut own: Vec<Candidate> = Vec::new();
        let mut imported: Vec<Candidate> = Vec::new();
        let mut i: usize = 0;
        proof {
            assert(cands@.take(0) =~= Seq::<Candidate>::empty());
            reveal(Seq::filter);
        }
        while i < cands.len()
            invariant
                i <= cands@.len(),
                is_own == (|c: Candidate| c.file_id == caller_file_id),
                is_imported == (|c: Candidate|
                    self@.imports.contains((caller_file_id, c.file_id))),
                own@ == cands@.take(i as int).filter(is_own),
                imported@ == cands@.take(i as int).filter(is_imported),
            decreases cands@.len() - i,
        {
            let c: Candidate = cands[i];
            proof {
                reveal(Seq::filter);
                assert(cands@.take(i + 1).drop_last() =~= cands@.take(i as int));
            }
            if c.file_id == caller_file_id {
                own.push(c);
            }
            if self.imports(caller_file_id, c.file_id) {
                imported.push(c);
            }
            i = i + 1;
        }
        proof {
            assert(cands@.take(i as int) =~= cands@);
        }
        match best(&own) {
            Some(id) => {
                return Decision::Exact(id);
            },
            None => {},
        }
        if imported.len() > 0 {
            if !single_file(&imported) {
                // Ambiguous: never fan out.
                return Decision::Unresolved;
            }
            match best(&imported) {
                Some(id) => {
                    return Decision::Exact(id);
                },
                None => {},
            }
        }
        if single_file(&cands) {
            match best(&cands) {
                Some(id) => {
                    return Decision::Probable(id);
                },
                None => {},
            }
        }
        Decision::Unresolved
    }
}

fn lists(list: &Vec<i64>, x: i64) -> (r: bool)
    ensures
        r == list@.contains(x),
{
    let mut i: usize = 0;
    while i < list.len()
        invariant
            i <= list@.len(),
            forall|k: int| 0 <= k < i ==> list@[k] != x,
        decreases list@.len() - i,
    {
        if list[i] == x {
            return true;
        }
        i = i + 1;
    }
    false
}

fn pick(bucket: &Vec<(String, Candidate)>, name: &str) -> (r: Vec<Candidate>)
    ensures
        r@ == named_in(entries(bucket@), name@),
{
    let mut r: Vec<Candidate> = Vec::new();
    let mut i: usize = 0;
    let ghost rows = entries(bucket@);
    while i < bucket.len()
        invariant
            i <= bucket@.len(),
            rows == entries(bucket@),
            r@ == named_in(rows.take(i as int), name@),
        decreases bucket@.len() - i,
    {
        proof {
            assert(rows.take(i + 1).drop_last() =~= rows.take(i as int));
            assert(rows.take(i + 1).last() == (bucket@[i as int].0@, bucket@[i as int].1));
        }
        if text::same_text(bucket[i].0.as_str(), name) {
            r.push(bucket[i].1);
        }
        i = i + 1;
    }
    proof {
        assert(rows.take(i as int) =~= rows);
    }
    r
}

// ---- planning the writes ----

/// One change that resolution makes to the graph tables.
#[derive(Debug)]
pub enum StoreWrite {
    /// Insert a call edge.
    Edge(CallEdge),
    /// Insert a row for a call that stays unresolved.
    Unresolved { file_id: i64, name: String, enclosing_symbol_id: Option<i64>, site_line: u32 },
    /// Insert a call edge and delete the row that recorded it as unresolved.
    Relink { edge: CallEdge, row_id: i64 },
}

/// A stored call that could not be resolved when it was seen.
#[derive(Debug)]
pub struct UnresolvedRow {
    pub id: i64,
    pub file_id: i64,
    pub name: String,
    pub enclosing: i64,
    pub site_line: u32,
}

/// A write with its text as characters.
pub enum WriteView {
    Edge(CallEdge),
    Unresolved {
        file_id: i64,
        name: Seq<char>,
        enclosing_symbol_id: Option<i64>,
        site_line: u32,
    },
    Relink { edge: CallEdge, row_id: i64 },
}

impl View for StoreWrite {
    type V = WriteView;

    open spec fn view(&self) -> WriteView {
        match *self {
            StoreWrite::Edge(e) => WriteView::Edge(e),
            StoreWrite::Unresolved { file_id, name, enclosing_symbol_id, site_line } => {
                WriteView::Unresolved { file_id, name: name@, enclosing_symbol_id, site_line }
            },
            StoreWrite::Relink { edge, row_id } => WriteView::Relink { edge, row_id },
        }
    }
}

pub open spec fn write_views(v: Seq<StoreWrite>) -> Seq<WriteView> {
    v.map_values(|w: StoreWrite| w@)
}

/// The one write for a call of file `file_id`. A call outside any symbol has
/// nothing to hang an edge on.
pub open spec fn call_write(model: IndexModel, file_id: i64, call: PendingCall) -> WriteView {
    let unresolved = WriteView::Unresolved {
        file_id,
        name: call.callee_name@,
        enclosing_symbol_id: call.enclosing_symbol_id,
        site_line: call.site_line,
    };
    match call.enclosing_symbol_id {
        None => unresolved,
        Some(src_id) => match model.decide(file_id, call.callee_name@) {
            Decision::Exact(dst_id) => WriteView::Edge(
                CallEdge { src_id, dst_id, tier: Tier::Exact, site_line: call.site_line },
            ),
            Decision::Probable(dst_id) => WriteView::Edge(
                CallEdge { src_id, dst_id, tier: Tier::Probable, site_line: call.site_line },
            ),
            Decision::Unresolved => unresolved,
        },
    }
}

/// The writes for the calls of one file, in call order.
pub open spec fn file_writes(model: IndexModel, fc: FileCalls) -> Seq<WriteView> {
    fc.calls@.map_values(|c: PendingCall| call_write(model, fc.file_id, c))
}

/// The writes for all files, in order.
pub open spec fn all_writes(model: IndexModel, pending: Seq<FileCalls>) -> Seq<WriteView>
    decreases pending.len(),
{
    if pending.len() == 0 {
        Seq::empty()
    } else {
        all_writes(model, pending.drop_last()) + file_writes(model, pending.last())
    }
}

/// Whether a write is an edge of the given tier.
pub open spec fn links(w: WriteView, tier: Tier) -> bool {
    match w {
        WriteView::Edge(e) => e.tier == tier,
        WriteView::Relink { edge, row_id: _ } => edge.tier == tier,
        WriteView::Unresolved { .. } => false,
    }
}

/// How many of the writes are edges of the given tier.
pub open spec fn linked(writes: Seq<WriteView>, tier: Tier) -> nat
    decreases writes.len(),
{
    if writes.len() == 0 {
        0
    } else {
        linked(writes.drop_last(), tier) + if links(writes.last(), tier) {
            1nat
        } else {
            0
        }
    }
}

/// Whether the statistics count `calls` calls of which `writes` links some.
pub open spec fn counts(stats: ResolveStats, writes: Seq<WriteView>, calls: nat) -> bool {
    &&& stats.exact == linked(writes, Tier::Exact)
    &&& stats.probable == linked(writes, Tier::Probable)
    &&& stats.exact + stats.probable + stats.unresolved == calls
}

proof fn lemma_linked_push(writes: Seq<WriteView>, w: WriteView)
    ensures
        linked(writes.push(w), Tier::Exact) == linked(writes, Tier::Exact) + if links(
            w,
            Tier::Exact,
        ) {
            1nat
        } else {
            0
        },
        linked(writes.push(w), Tier::Probable) == linked(writes, Tier::Probable) + if links(
            w,
            Tier::Probable,
        ) {
            1nat
        } else {
            0
        },
{
    assert(writes.push(w).drop_last() =~= writes);
}

impl ResolveIndex {
    /// The one write for a call.
    fn plan_call(&self, file_id: i64, call: &PendingCall) -> (w: StoreWrite)
        ensures
            w@ == call_write(self@, file_id, *call),
    {
        let unresolved = StoreWrite::Unresolved {
            file_id,
            name: call.callee_name.clone(),
            enclosing_symbol_id: call.enclosing_symbol_id,
            site_line: call.site_line,
        };
        match call.enclosing_symbol_id {
            None => unresolved,
            Some(src_id) => match self.decide(file_id, call.callee_name.as_str()) {
                Decision::Exact(dst_id) => StoreWrite::Edge(
                    CallEdge { src_id, dst_id, tier: Tier::Exact, site_line: call.site_line },
                ),
                Decision::Probable(dst_id) => StoreWrite::Edge(
                    CallEdge { src_id, dst_id, tier: Tier::Probable, site_line: call.site_line },
                ),
                Decision::Unresolved => unresolved,
            },
        }
    }
}

fn count_write(stats: &mut ResolveStats, w: &StoreWrite)
    requires
        old(stats).exact + old(stats).probable + old(stats).unresolved < u64::MAX,
    ensures
        final(stats).exact == old(stats).exact + if links(w@, Tier::Exact) {
            1int
        } else {
            0
        },
        final(stats).probable == old(stats).probable + if links(w@, Tier::Probable) {
            1int
        } else {
            0
        },
        final(stats).exact + final(stats).probable + final(stats).unresolved == old(stats).exact
            + old(stats).probable + old(stats).unresolved + 1,
{
    let tier = match w {
        StoreWrite::Edge(e) => Some(e.tier),
        StoreWrite::Relink { edge, row_id: _ } => Some(edge.tier),
        StoreWrite::Unresolved { .. } => None,
    };
    match tier {
        Some(Tier::Exact) => {
            stats.exact = stats.exact + 1;
        },
        Some(Tier::Probable) => {
            stats.probable = stats.probable + 1;
        },
        None => {
            stats.unresolved = stats.unresolved + 1;
        },
    }
}

/// Resolve the pending calls against the symbol and import tables. The writes
/// are to be made in order; there is one per call.
pub fn resolve_calls(
    symbols: &Vec<SymbolDef>,
    imports: &Vec<(i64, i64)>,
    pending: &Vec<FileCalls>,
) -> (r: (ResolveStats, Vec<StoreWrite>))
    ensures
        ({
            let model = IndexModel { defs: symbols@, imports: import_set(imports@) };
            &&& write_views(r.1@) == all_writes(model, pending@)
            &&& counts(r.0, write_views(r.1@), r.1@.len())
        }),
        r.1@.len() == resolve_laws::call_count(pending@),
        r.0.exact + r.0.probable + r.0.unresolved == r.1@.len(),
        r.0.exact == write_views(r.1@).filter(resolve_laws::makes_edge(Tier::Exact)).len(),
        r.0.probable == write_views(r.1@).filter(resolve_laws::makes_edge(Tier::Probable)).len(),
{
    let index = ResolveIndex::build(symbols, imports);
    let ghost model = index@;
    let mut stats: ResolveStats = ResolveStats::default();
    let mut writes: Vec<StoreWrite> = Vec::new();
    let mut i: usize = 0;
    proof {
        assert(write_views(writes@) =~= Seq::<WriteView>::empty());
        assert(pending@.take(0) =~= Seq::<FileCalls>::empty());
    }
    while i < pending.len()
        invariant
            i <= pending@.len(),
            model == index@,
            write_views(writes@) == all_writes(model, pending@.take(i as int)),
            counts(stats, write_views(writes@), writes@.len()),
        decreases pending@.len() - i,
    {
        let fc = &pending[i];
        let ghost before = write_views(writes@);
        let ghost of_file = file_writes(model, *fc);
        let mut j: usize = 0;
        proof {
            assert(before + of_file.take(0) =~= before);
        }
        while j < fc.calls.len()
            invariant
                j <= fc.calls@.len(),
                model == index@,
                of_file == file_writes(model, *fc),
                write_views(writes@) == before + of_file.take(j as int),
                counts(stats, write_views(writes@), writes@.len()),
            decreases fc.calls@.len() - j,
        {
            let w = index.plan_call(fc.file_id, &fc.calls[j]);
            let ghost so_far = write_views(writes@);
            let ghost view = w@;
            proof {
                lemma_linked_push(so_far, view);
                assert(writes.len() == writes@.len());
            }
            let ghost before_push = writes@;
            writes.push(w);
            proof {
                assert(writes.len() == before_push.len() + 1);
                assert(write_views(writes@) =~= so_far.push(view));
                assert(of_file.take(j + 1) =~= of_file.take(j as int).push(view));
                assert(write_views(writes@) =~= before + of_file.take(j + 1));
            }
            count_write(&mut stats, &writes[writes.len() - 1]);
            j = j + 1;
        }
        proof {
            assert(of_file.take(j as int) =~= of_file);
            assert(pending@.take(i + 1).drop_last() =~= pending@.take(i as int));
        }
        i = i + 1;
    }
    proof {
        assert(pending@.take(i as int) =~= pending@);
        resolve_laws::one_write_per_call(model, pending@);
        assert(write_views(writes@).len() == writes@.len());
        resolve_laws::statistics_count_the_writes(stats, write_views(writes@), writes@.len());
    }
    (stats, writes)
}

/// The write for a stored unresolved call, if it resolves now.
pub open spec fn retry_write(model: IndexModel, row: UnresolvedRow) -> Option<WriteView> {
    match model.decide(row.file_id, row.name@) {
        Decision::Exact(dst_id) => Some(
            WriteView::Relink {
                edge: CallEdge {
                    src_id: row.enclosing,
                    dst_id,
                    tier: Tier::Exact,
                    site_line: row.site_line,
                },
                row_id: row.id,
            },
        ),
        Decision::Probable(dst_id) => Some(
            WriteView::Relink {
                edge: CallEdge {
                    src_id: row.enclosing,
                    dst_id,
                    tier: Tier::Probable,
                    site_line: row.site_line,
                },
                row_id: row.id,
            },
        ),
        Decision::Unresolved => None,
    }
}

/// The writes of a retry over all stored unresolved calls, in order.
pub open spec fn retry_writes(model: IndexModel, rows: Seq<UnresolvedRow>) -> Seq<WriteView>
    decreases rows.len(),
{
    if rows.len() == 0 {
        Seq::empty()
    } else {
        let before = retry_writes(model, rows.drop_last());
        match retry_write(model, rows.last()) {
            Some(w) => before.push(w),
            None => before,
        }
    }
}

/// Try every stored unresolved call again. Rows that resolve become edges and
/// are deleted; the others stay.
pub fn resolve_all(
    symbols: &Vec<SymbolDef>,
    imports: &Vec<(i64, i64)>,
    rows: &Vec<UnresolvedRow>,
) -> (r: (ResolveStats, Vec<StoreWrite>))
    ensures
        ({
            let model = IndexModel { defs: symbols@, imports: import_set(imports@) };
            &&& write_views(r.1@) == retry_writes(model, rows@)
            &&& counts(r.0, write_views(r.1@), rows@.len())
        }),
        r.0.exact + r.0.probable + r.0.unresolved == rows@.len(),
        r.0.exact + r.0.probable == r.1@.len(),
        r.0.exact == write_views(r.1@).filter(resolve_laws::makes_edge(Tier::Exact)).len(),
        r.0.probable == write_views(r.1@).filter(resolve_laws::makes_edge(Tier::Probable)).len(),
{
    let index = ResolveIndex::build(symbols, imports);
    let ghost model = index@;
    let mut stats: ResolveStats = ResolveStats::default();
    let mut writes: Vec<StoreWrite> = Vec::new();
    let mut i: usize = 0;
    proof {
        assert(write_views(writes@) =~= Seq::<WriteView>::empty());
        assert(rows@.take(0) =~= Seq::<UnresolvedRow>::empty());
    }
    while i < rows.len()
        invariant
            i <= rows@.len(),
            model == index@,
            write_views(writes@) == retry_writes(model, rows@.take(i as int)),
            counts(stats, write_views(writes@), i as nat),
            stats.exact + stats.probable == writes@.len(),
        decreases rows@.len() - i,
    {
        let row = &rows[i];
        proof {
            assert(rows@.take(i + 1).drop_last() =~= rows@.take(i as int));
        }
        let found = match index.decide(row.file_id, row.name.as_str()) {
            Decision::Exact(dst) => Some((dst, Tier::Exact)),
            Decision::Probable(dst) => Some((dst, Tier::Probable)),
            Decision::Unresolved => None,
        };
        match found {
            None => {
                stats.unresolved = stats.unresolved + 1;
            },
            Some((dst_id, tier)) => {
                let edge = CallEdge {
                    src_id: row.enclosing,
                    dst_id,
                    tier,
                    site_line: row.site_line,
                };
                let w = StoreWrite::Relink { edge, row_id: row.id };
                let ghost so_far = write_views(writes@);
                proof {
                    lemma_linked_push(so_far, w@);
                }
                count_write(&mut stats, &w);
                let ghost view = w@;
                writes.push(w);
                proof {
                    assert(write_views(writes@) =~= so_far.push(view));
                }
            },
        }
        i = i + 1;
    }
    proof {
        assert(rows@.take(i as int) =~= rows@);
        resolve_laws::statistics_count_the_writes(stats, write_views(writes@), rows@.len());
    }
    (stats, writes)
}

} // verus!
