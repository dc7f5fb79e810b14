//! Symbols and call edges of the graph as JSON, and the protocol for names
//! that mean several symbols.
use std::collections::BTreeMap;
use vstd::prelude::*;

use crate::json;
use crate::json::{Json, Member};
use crate::order;
use crate::text;
use crate::text_set::TextSet;

verus! {

/// A row of the symbol table.
#[derive(Debug)]
pub struct SymbolRow {
    pub id: i64,
    pub uid: String,
    pub file_id: i64,
    pub name: String,
    pub qualified: String,
    pub kind: String,
    pub start_line: u32,
    pub end_line: u32,
    pub sig: String,
}

/// An edge, with the symbol at its other end if that is known.
#[derive(Debug)]
pub struct EdgeItem {
    pub kind: String,
    pub tier: String,
    pub site_line: u32,
    pub other: Option<SymbolRow>,
}

/// A row of the file table.
#[derive(Debug)]
pub struct FileRow {
    pub id: i64,
    pub path: String,
}

/// The paths of the files by their ids.
pub struct FileMap {
    paths: BTreeMap<i64, String>,
}

impl View for FileMap {
    type V = Map<i64, Seq<char>>;

    closed spec fn view(&self) -> Map<i64, Seq<char>> {
        self.paths@.map_values(|s: String| s@)
    }
}

/// The paths of the rows by their ids; a later row replaces an earlier one.
pub open spec fn paths_by_id(rows: Seq<FileRow>) -> Map<i64, Seq<char>>
    decreases rows.len(),
{
    if rows.len() == 0 {
        Map::empty()
    } else {
        paths_by_id(rows.drop_last()).insert(rows.last().id, rows.last().path@)
    }
}

/// The path of a file, empty if it is unknown.
pub open spec fn path_or_empty(files: Map<i64, Seq<char>>, id: i64) -> Seq<char> {
    if files.contains_key(id) {
        files[id]
    } else {
        Seq::empty()
    }
}

fn put_path(m: &mut BTreeMap<i64, String>, id: i64, path: String)
    ensures
        final(m)@ == old(m)@.insert(id, path),
{
    broadcast use vstd::std_specs::btree::group_btree_axioms;
    broadcast use vstd::laws_cmp::group_laws_cmp;

    proof {
        assert(vstd::laws_cmp::obeys_cmp::<i64>());
    }
    m.insert(id, path);
}

/// The paths of the files by their ids.
pub fn file_map(rows: &Vec<FileRow>) -> (r: FileMap)
    ensures
        r@ == paths_by_id(rows@),
{
    let mut r = FileMap { paths: BTreeMap::new() };
    let mut i: usize = 0;
    proof {
        assert(rows@.take(0) =~= Seq::<FileRow>::empty());
        assert(r@ =~= Map::<i64, Seq<char>>::empty());
    }
    while i < rows.len()
        invariant
            i <= rows@.len(),
            r@ == paths_by_id(rows@.take(i as int)),
        decreases rows@.len() - i,
    {
        let ghost before = r@;
        let path = rows[i].path.clone();
        let ghost text = path@;
        put_path(&mut r.paths, rows[i].id, path);
        proof {
            assert(rows@.take(i + 1).drop_last() =~= rows@.take(i as int));
            assert(r@ =~= before.insert(rows@[i as int].id, text));
        }
        i = i + 1;
    }
    proof {
        assert(rows@.take(i as int) =~= rows@);
    }
    r
}

impl FileMap {
    /// The path of a file, empty if it is unknown.
    pub fn path_of(&self, id: i64) -> (r: String)
        ensures
            r@ == path_or_empty(self@, id),
    {
        broadcast use vstd::std_specs::btree::group_btree_axioms;
        broadcast use vstd::laws_cmp::group_laws_cmp;

        proof {
            assert(vstd::laws_cmp::obeys_cmp::<i64>());
        }
        match self.paths.get(&id) {
            Some(p) => p.clone(),
            None => String::new(),
        }
    }
}

// ---- values ----

/// Whether `j` describes the symbol `s`.
pub open spec fn is_symbol(j: Json, s: SymbolRow, files: Map<i64, Seq<char>>) -> bool {
    let m = json::members(j);
    &&& json::has_keys(
        j,
        seq![
            "uid"@,
            "name"@,
            "qualified"@,
            "kind"@,
            "path"@,
            "start_line"@,
            "end_line"@,
            "sig"@,
        ],
    )
    &&& json::is_str(m[0].value, s.uid@)
    &&& json::is_str(m[1].value, s.name@)
    &&& json::is_str(m[2].value, s.qualified@)
    &&& json::is_str(m[3].value, s.kind@)
    &&& json::is_str(m[4].value, path_or_empty(files, s.file_id))
    &&& json::is_uint(m[5].value, s.start_line as int)
    &&& json::is_uint(m[6].value, s.end_line as int)
    &&& json::is_str(m[7].value, s.sig@)
}

/// A symbol as JSON.
pub fn symbol_json(s: &SymbolRow, files: &FileMap) -> (j: Json)
    ensures
        is_symbol(j, *s, files@),
{
    let path = files.path_of(s.file_id);
    let mut m: Vec<Member> = Vec::new();
    m.push(json::member("uid", json::str_json(s.uid.as_str())));
    m.push(json::member("name", json::str_json(s.name.as_str())));
    m.push(json::member("qualified", json::str_json(s.qualified.as_str())));
    m.push(json::member("kind", json::str_json(s.kind.as_str())));
    m.push(json::member("path", json::str_json(path.as_str())));
    m.push(json::member("start_line", Json::Uint(s.start_line as u64)));
    m.push(json::member("end_line", Json::Uint(s.end_line as u64)));
    m.push(json::member("sig", json::str_json(s.sig.as_str())));
    proof {
        assert(m@.map_values(|x: Member| x.key@) =~= seq![
            "uid"@,
            "name"@,
            "qualified"@,
            "kind"@,
            "path"@,
            "start_line"@,
            "end_line"@,
            "sig"@,
        ]);
    }
    Json::Obj(m)
}

/// Whether `j` lists the symbols `syms`, in order.
pub open spec fn is_symbol_list(j: Json, syms: Seq<SymbolRow>, files: Map<i64, Seq<char>>) -> bool {
    &&& j is Arr
    &&& json::items(j).len() == syms.len()
    &&& forall|i: int|
        0 <= i < syms.len() ==> is_symbol(#[trigger] json::items(j)[i], syms[i], files)
}

/// The symbols as JSON.
pub fn symbols_json(syms: &Vec<SymbolRow>, files: &FileMap) -> (j: Json)
    ensures
        is_symbol_list(j, syms@, files@),
{
    let mut v: Vec<Json> = Vec::new();
    let mut i: usize = 0;
    while i < syms.len()
        invariant
            i <= syms@.len(),
            v@.len() == i,
            forall|k: int| 0 <= k < i ==> is_symbol(#[trigger] v@[k], syms@[k], files@),
        decreases syms@.len() - i,
    {
        v.push(symbol_json(&syms[i], files));
        i = i + 1;
    }
    Json::Arr(v)
}

/// Whether `j` describes the edge `e`.
pub open spec fn is_edge(j: Json, e: EdgeItem, files: Map<i64, Seq<char>>) -> bool {
    let m = json::members(j);
    &&& json::has_keys(j, seq!["symbol"@, "tier"@, "site_line"@])
    &&& match e.other {
        Some(s) => is_symbol(m[0].value, s, files),
        None => m[0].value == Json::Null,
    }
    &&& json::is_str(m[1].value, e.tier@)
    &&& json::is_uint(m[2].value, e.site_line as int)
}

/// An edge as JSON.
pub fn edge_json(e: &EdgeItem, files: &FileMap) -> (j: Json)
    ensures
        is_edge(j, *e, files@),
{
    let symbol = match &e.other {
        Some(s) => symbol_json(s, files),
        None => Json::Null,
    };
    let mut m: Vec<Member> = Vec::new();
    m.push(json::member("symbol", symbol));
    m.push(json::member("tier", json::str_json(e.tier.as_str())));
    m.push(json::member("site_line", Json::Uint(e.site_line as u64)));
    proof {
        assert(m@.map_values(|x: Member| x.key@) =~= seq!["symbol"@, "tier"@, "site_line"@]);
    }
    Json::Obj(m)
}

/// Whether `j` lists the edges `edges`, in order.
pub open spec fn is_edge_list(j: Json, edges: Seq<EdgeItem>, files: Map<i64, Seq<char>>) -> bool {
    &&& j is Arr
    &&& json::items(j).len() == edges.len()
    &&& forall|i: int|
        0 <= i < edges.len() ==> is_edge(#[trigger] json::items(j)[i], edges[i], files)
}

/// The edges as JSON.
pub fn edges_json(edges: &Vec<EdgeItem>, files: &FileMap) -> (j: Json)
    ensures
        is_edge_list(j, edges@, files@),
{
    let mut v: Vec<Json> = Vec::new();
    let mut i: usize = 0;
    while i < edges.len()
        invariant
            i <= edges@.len(),
            v@.len() == i,
            forall|k: int| 0 <= k < i ==> is_edge(#[trigger] v@[k], edges@[k], files@),
        decreases edges@.len() - i,
    {
        v.push(edge_json(&edges[i], files));
        i = i + 1;
    }
    Json::Arr(v)
}

/// Whether an edge has the kind `kind`.
pub open spec fn of_kind(kind: Seq<char>) -> spec_fn(EdgeItem) -> bool {
    |e: EdgeItem| e.kind@ == kind
}

/// Whether some edge has the kind `kind`.
pub open spec fn occurs(edges: Seq<EdgeItem>, kind: Seq<char>) -> bool {
    exists|i: int| 0 <= i < edges.len() && (#[trigger] edges[i]).kind@ == kind
}

/// Whether `j` has one member per kind of edge, in ascending order, each with
/// the edges of that kind in order.
pub open spec fn is_edges_by_kind(
    j: Json,
    edges: Seq<EdgeItem>,
    files: Map<i64, Seq<char>>,
) -> bool {
    let m = json::members(j);
    let keys = m.map_values(|x: Member| x.key@);
    &&& j is Obj
    &&& order::ascending_texts(keys)
    &&& forall|k: Seq<char>| #[trigger] keys.contains(k) <==> occurs(edges, k)
    &&& forall|i: int|
        0 <= i < m.len() ==> is_edge_list(
            (#[trigger] m[i]).value,
            edges.filter(of_kind(m[i].key@)),
            files,
        )
}

/// The edges of one kind as JSON.
fn edges_of_kind(edges: &Vec<EdgeItem>, kind: &str, files: &FileMap) -> (j: Json)
    ensures
        is_edge_list(j, edges@.filter(of_kind(kind@)), files@),
{
    let ghost keep = of_kind(kind@);
    let mut v: Vec<Json> = Vec::new();
    let mut i: usize = 0;
    proof {
        reveal(Seq::filter);
        assert(edges@.take(0) =~= Seq::<EdgeItem>::empty());
    }
    while i < edges.len()
        invariant
            i <= edges@.len(),
            keep == of_kind(kind@),
            v@.len() == edges@.take(i as int).filter(keep).len(),
            forall|k: int|
                0 <= k < v@.len() ==> is_edge(
                    #[trigger] v@[k],
                    edges@.take(i as int).filter(keep)[k],
                    files@,
                ),
        decreases edges@.len() - i,
    {
        let ghost before = edges@.take(i as int).filter(keep);
        proof {
            reveal(Seq::filter);
            assert(edges@.take(i + 1).drop_last() =~= edges@.take(i as int));
            assert(edges@.take(i + 1).last() == edges@[i as int]);
        }
        if text::same_text(edges[i].kind.as_str(), kind) {
            v.push(edge_json(&edges[i], files));
            proof {
                assert(edges@.take(i + 1).filter(keep) == before.push(edges@[i as int]));
            }
        } else {
            proof {
                assert(edges@.take(i + 1).filter(keep) == before);
            }
        }
        i = i + 1;
    }
    proof {
        assert(edges@.take(i as int) =~= edges@);
    }
    Json::Arr(v)
}

/// The kinds that occur.
fn kinds_of(edges: &Vec<EdgeItem>) -> (r: TextSet)
    ensures
        order::ascending_texts(r@),
        forall|k: Seq<char>| #[trigger] r@.contains(k) <==> occurs(edges@, k),
{
    let mut r = TextSet::new();
    let mut i: usize = 0;
    while i < edges.len()
        invariant
            i <= edges@.len(),
            forall|k: Seq<char>| #[trigger]
                r@.contains(k) <==> exists|j: int|
                    0 <= j < i && (#[trigger] edges@[j]).kind@ == k,
        decreases edges@.len() - i,
    {
        let ghost before = r@;
        let kind = edges[i].kind.as_str();
        r.insert(kind);
        proof {
            assert forall|k: Seq<char>| #[trigger] r@.contains(k) <==> exists|j: int|
                0 <= j < i + 1 && (#[trigger] edges@[j]).kind@ == k by {
                assert(r@.to_set().contains(k) <==> before.to_set().insert(kind@).contains(k));
                assert(before.to_set().contains(k) <==> before.contains(k));
                if k == kind@ {
                    assert(edges@[i as int].kind@ == k);
                }
            }
        }
        i = i + 1;
    }
    let listed = r.items();
    r
}

/// The edges as JSON, grouped by their kind.
pub fn edges_by_kind(edges: &Vec<EdgeItem>, files: &FileMap) -> (j: Json)
    ensures
        is_edges_by_kind(j, edges@, files@),
{
    let kinds = kinds_of(edges);
    let names = kinds.items();
    let mut m: Vec<Member> = Vec::new();
    let mut i: usize = 0;
    while i < names.len()
        invariant
            i <= names@.len(),
            m@.len() == i,
            forall|k: int|
                0 <= k < i ==> (#[trigger] m@[k]).key@ == names@[k]@ && is_edge_list(
                    m@[k].value,
                    edges@.filter(of_kind(m@[k].key@)),
                    files@,
                ),
        decreases names@.len() - i,
    {
        let name = names[i].as_str();
        m.push(json::member(name, edges_of_kind(edges, name, files)));
        i = i + 1;
    }
    proof {
        assert(m@.map_values(|x: Member| x.key@) =~= kinds@);
    }
    Json::Obj(m)
}

// ---- names that mean several symbols ----

/// What a uid or name means.
#[derive(Debug)]
pub enum Resolved {
    One(SymbolRow),
    Many(Vec<SymbolRow>),
}

/// A text in double quotes, with escapes, as the debug format writes it.
pub uninterp spec fn quoted(s: Seq<char>) -> Seq<char>;

/// The debug format of `str` (`format!("{:?}")`): a function of the text
/// alone. Which characters it escapes is left unsaid.
#[verifier::external_body]
pub(crate) fn debug_text(s: &str) -> (r: String)
    ensures
        r@ == quoted(s@),
{
    format!("{s:?}")
}

/// Whether a request names a symbol by its uid.
pub fn is_uid(uid_or_name: &str) -> (r: bool)
    ensures
        r == uid_or_name@.contains('#'),
{
    text::has_char(uid_or_name, '#')
}

/// The error of a uid or name that no symbol has, written with its quoted
/// form.
pub open spec fn unknown_symbol(by_uid: bool, quoted_text: Seq<char>) -> Seq<char> {
    if by_uid {
        "no symbol with uid "@ + quoted_text
    } else {
        "no symbol named "@ + quoted_text
    }
}

/// The error of a uid or name that no symbol has.
pub fn unknown_symbol_error(by_uid: bool, quoted_text: &str) -> (r: String)
    ensures
        r@ == unknown_symbol(by_uid, quoted_text@),
{
    let mut r = if by_uid {
        "no symbol with uid ".to_string()
    } else {
        "no symbol named ".to_string()
    };
    r.append(quoted_text);
    r
}

/// The symbol with a uid, given what is stored under it.
pub fn found_by_uid(uid: &str, found: Option<SymbolRow>) -> (r: Result<SymbolRow, String>)
    ensures
        match r {
            Ok(s) => found == Some(s),
            Err(e) => found is None && e@ == unknown_symbol(true, quoted(uid@)),
        },
        r matches Err(e) ==> e@ == "no symbol with uid "@ + quoted(uid@),
{
    match found {
        Some(s) => Ok(s),
        None => {
            let q = debug_text(uid);
            Err(unknown_symbol_error(true, q.as_str()))
        },
    }
}

/// What a uid or name means, given the symbols that have it: a uid means the
/// first, a name is ambiguous if there are several.
pub fn resolve_symbol(uid_or_name: &str, found: Vec<SymbolRow>) -> (r: Result<Resolved, String>)
    ensures
        match r {
            Err(e) => found@.len() == 0 && e@ == unknown_symbol(
                uid_or_name@.contains('#'),
                quoted(uid_or_name@),
            ),
            Ok(Resolved::One(s)) => found@.len() > 0 && s == found@[0] && (found@.len() == 1
                || uid_or_name@.contains('#')),
            Ok(Resolved::Many(v)) => found@.len() > 1 && v == found && !uid_or_name@.contains('#'),
        },
{
    let by_uid = is_uid(uid_or_name);
    if found.len() == 0 {
        let q = debug_text(uid_or_name);
        return Err(unknown_symbol_error(by_uid, q.as_str()));
    }
    if found.len() == 1 || by_uid {
        let mut rest = found;
        return Ok(Resolved::One(rest.remove(0)));
    }
    Ok(Resolved::Many(found))
}

/// Whether `j` answers an ambiguous name.
pub open spec fn is_candidates(j: Json, syms: Seq<SymbolRow>, files: Map<i64, Seq<char>>) -> bool {
    let m = json::members(j);
    &&& json::has_keys(j, seq!["candidates"@, "hint"@])
    &&& is_symbol_list(m[0].value, syms, files)
    &&& json::is_str(m[1].value, "ambiguous name; re-call with uid"@)
}

/// The answer to an ambiguous name.
pub fn candidates_value(syms: &Vec<SymbolRow>, files: &FileMap) -> (j: Json)
    ensures
        is_candidates(j, syms@, files@),
{
    let mut m: Vec<Member> = Vec::new();
    m.push(json::member("candidates", symbols_json(syms, files)));
    m.push(json::member("hint", json::str_json("ambiguous name; re-call with uid")));
    proof {
        assert(m@.map_values(|x: Member| x.key@) =~= seq!["candidates"@, "hint"@]);
    }
    Json::Obj(m)
}

// ---- context ----

/// What the context of a symbol shows.
#[derive(Debug)]
pub struct Item {
    pub name: String,
    pub kind: String,
    pub path: String,
    pub start_line: u32,
    pub end_line: u32,
    pub sig: String,
    pub snippet: String,
}

/// How many lines of a symbol are shown at most.
pub const MAX_SNIPPET_LINES: usize = 60;

/// The index of the first line to show.
pub open spec fn first_line(start_line: u32) -> nat {
    if start_line > 0 {
        (start_line - 1) as nat
    } else {
        0
    }
}

/// How many lines to show: those of the symbol, at least one, at most `max`.
pub open spec fn line_count(start_line: u32, end_line: u32, max: nat) -> nat {
    let wanted = if end_line > first_line(start_line) {
        (end_line - first_line(start_line)) as nat
    } else {
        0
    };
    let capped = if wanted < max {
        wanted
    } else {
        max
    };
    if capped < 1 {
        1
    } else {
        capped
    }
}

/// The lines `from..from + n`, as far as they exist.
pub open spec fn line_range(lines: Seq<Seq<char>>, from: nat, n: nat) -> Seq<Seq<char>> {
    let rest = if from < lines.len() {
        lines.skip(from as int)
    } else {
        Seq::empty()
    };
    if n < rest.len() {
        rest.take(n as int)
    } else {
        rest
    }
}

/// The lines of a symbol in the content of its file.
pub open spec fn symbol_lines(
    content: Seq<char>,
    start_line: u32,
    end_line: u32,
    max: nat,
) -> Seq<char> {
    text::separated(
        line_range(
            text::lines(content),
            first_line(start_line),
            line_count(start_line, end_line, max),
        ),
        '\n',
    )
}

/// The lines of a symbol; nothing if its file could not be read.
pub fn read_snippet(
    content: Option<&str>,
    start_line: u32,
    end_line: u32,
    max_lines: usize,
) -> (r: String)
    ensures
        r@ == (match content {
            Some(c) => symbol_lines(c@, start_line, end_line, max_lines as nat),
            None => Seq::empty(),
        }),
{
    let mut r = String::new();
    let c = match content {
        Some(c) => c,
        None => {
            return r;
        },
    };
    let all = text::lines_of(c);
    let from: u32 = if start_line > 0 {
        start_line - 1
    } else {
        0
    };
    let wanted: u32 = if end_line > from {
        end_line - from
    } else {
        0
    };
    let capped: usize = if (wanted as u64) < max_lines as u64 {
        wanted as usize
    } else {
        max_lines
    };
    let n: usize = if capped < 1 {
        1
    } else {
        capped
    };
    let ghost lines = text::lines(c@);
    let ghost want = line_range(lines, from as nat, n as nat);
    let mut picked: Vec<String> = Vec::new();
    if (from as u64) < all.len() as u64 {
        let base: usize = from as usize;
        let mut i: usize = 0;
        proof {
            assert(text::texts(picked@) =~= want.take(0));
        }
        while i < n && i < all.len() - base
            invariant
                base <= all@.len(),
                i <= n,
                i <= all@.len() - base,
                lines == text::texts(all@),
                want == line_range(lines, base as nat, n as nat),
                base < lines.len(),
                text::texts(picked@) == want.take(i as int),
            decreases n - i,
        {
            let ghost before = text::texts(picked@);
            picked.push(all[base + i].clone());
            proof {
                assert(text::texts(picked@) =~= before.push(lines[base + i]));
                assert(want[i as int] == lines[base + i]);
            }
            i = i + 1;
            proof {
                assert(text::texts(picked@) =~= want.take(i as int));
            }
        }
        proof {
            assert(want.take(i as int) =~= want);
        }
    } else {
        proof {
            assert(text::texts(picked@) =~= want);
        }
    }
    text::push_separated(&mut r, &picked, '\n');
    proof {
        assert(r@ =~= text::separated(want, '\n'));
    }
    r
}

/// The item that shows a symbol, given the content of its file.
pub fn context_item(s: &SymbolRow, files: &FileMap, content: Option<&str>) -> (r: Item)
    ensures
        r.name@ == s.name@,
        r.kind@ == s.kind@,
        r.path@ == path_or_empty(files@, s.file_id),
        r.start_line == s.start_line,
        r.end_line == s.end_line,
        r.sig@ == s.sig@,
        r.snippet@ == (match content {
            Some(c) => symbol_lines(
                c@,
                s.start_line,
                s.end_line,
                MAX_SNIPPET_LINES as nat,
            ),
            None => Seq::empty(),
        }),
        content matches Some(c) ==> r.snippet@ == symbol_lines(c@, s.start_line, s.end_line, 60),
{
    Item {
        name: s.name.clone(),
        kind: s.kind.clone(),
        path: files.path_of(s.file_id),
        start_line: s.start_line,
        end_line: s.end_line,
        sig: s.sig.clone(),
        snippet: read_snippet(content, s.start_line, s.end_line, MAX_SNIPPET_LINES),
    }
}

} // verus!
