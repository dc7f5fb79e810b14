//! What the command line prints, and how it reads extractor names.
use vstd::prelude::*;

use crate::api::Response;
use crate::graph_json;
use crate::json;
use crate::json::{Json, Member};
use crate::shard::Shard;
use crate::text;

verus! {

// ---- responses ----

/// What a response brings: its data, or its error.
pub fn unwrap_response(resp: Response) -> (r: Result<Json, String>)
    ensures
        match r {
            Ok(v) => resp.ok && v == resp.data,
            Err(e) => !resp.ok && (match resp.error {
                Some(m) => e == m,
                None => e@ == "unknown error"@,
            }),
        },
{
    if resp.ok {
        Ok(resp.data)
    } else {
        match resp.error {
            Some(m) => Err(m),
            None => Err("unknown error".to_string()),
        }
    }
}

/// Who answers a request.
#[derive(Debug)]
pub enum Source {
    /// The daemon did, with this response.
    Answered(Response),
    /// This process has to.
    InProcess,
}

/// Choose who answers a request: the daemon if it may and did, else this
/// process. `answer` is the response of the daemon, if it gave one.
pub fn choose_source(no_daemon: bool, answer: Option<Response>) -> (r: Source)
    ensures
        r == (if no_daemon || answer is None {
            Source::InProcess
        } else {
            Source::Answered(answer->0)
        }),
{
    if no_daemon {
        return Source::InProcess;
    }
    match answer {
        Some(resp) => Source::Answered(resp),
        None => Source::InProcess,
    }
}

/// A text member, or another text where there is none.
pub open spec fn str_or(j: Json, key: Seq<char>, other: Seq<char>) -> Seq<char> {
    match json::str_of(json::value_of(j, key)) {
        Some(s) => s,
        None => other,
    }
}

/// A number member, or zero where there is none.
pub open spec fn uint_or_zero(j: Json, key: Seq<char>) -> u64 {
    match json::uint_of(json::value_of(j, key)) {
        Some(n) => n,
        None => 0,
    }
}

/// A truth member, or false where there is none.
pub open spec fn bool_or_false(j: Json, key: Seq<char>) -> bool {
    match json::bool_of(json::value_of(j, key)) {
        Some(b) => b,
        None => false,
    }
}

fn text_or<'a>(j: &'a Json, key: &str, other: &'a str) -> (r: &'a str)
    ensures
        r@ == str_or(*j, key@, other@),
{
    match j.get_str(key) {
        Some(s) => s,
        None => other,
    }
}

fn number_or_zero(j: &Json, key: &str) -> (r: u64)
    ensures
        r == uint_or_zero(*j, key@),
{
    match j.get_uint(key) {
        Some(n) => n,
        None => 0,
    }
}

fn truth_or_false(j: &Json, key: &str) -> (r: bool)
    ensures
        r == bool_or_false(*j, key@),
{
    match j.get_bool(key) {
        Some(b) => b,
        None => false,
    }
}

// ---- notes ----

/// The note on a graph that had to be built first.
pub open spec fn build_note(ms: u64) -> Seq<char> {
    "gitpixel: built graph.db on first use ("@ + text::dec(ms as nat) + " ms)"@
}

/// The note on a graph that had to be built first, if it had to.
pub fn announce_graph_build(data: &Json) -> (r: Option<String>)
    ensures
        match r {
            Some(s) => json::value_of(*data, "graph_build"@) matches Some(info) && s@
                == build_note(uint_or_zero(info, "build_ms"@)),
            None => json::value_of(*data, "graph_build"@) is None,
        },
{
    match data.get("graph_build") {
        Some(info) => {
            let mut r = "gitpixel: built graph.db on first use (".to_string();
            text::push_dec(&mut r, number_or_zero(info, "build_ms"));
            r.append(" ms)");
            Some(r)
        },
        None => None,
    }
}

/// The note that an answer is a lower bound.
pub open spec fn bound_note(n: u64) -> Seq<char> {
    "note: lower bound — "@ + text::dec(n as nat) + " same-name call site(s) unresolved"@
}

/// Whether the envelope of an answer says that it is a lower bound.
pub open spec fn is_lower_bound(data: Json) -> bool {
    json::value_of(data, "envelope"@) matches Some(env) && bool_or_false(env, "lower_bound"@)
}

/// The note that an answer is a lower bound, if it is.
pub fn envelope_note(data: &Json) -> (r: Option<String>)
    ensures
        match r {
            Some(s) => is_lower_bound(*data) && s@ == bound_note(
                uint_or_zero(json::value_of(*data, "envelope"@)->0, "unresolved_same_name"@),
            ),
            None => !is_lower_bound(*data),
        },
{
    match data.get("envelope") {
        Some(env) => if truth_or_false(env, "lower_bound") {
            let mut r = "note: lower bound — ".to_string();
            text::push_dec(&mut r, number_or_zero(env, "unresolved_same_name"));
            r.append(" same-name call site(s) unresolved");
            Some(r)
        } else {
            None
        },
        None => None,
    }
}

// ---- symbols ----

/// One line for a symbol.
pub open spec fn symbol_text(s: Json) -> Seq<char> {
    text::filled(str_or(s, "kind"@, "?"@), 9) + " "@ + str_or(s, "name"@, "?"@) + "  "@ + str_or(
        s,
        "path"@,
        "?"@,
    ) + ":"@ + text::dec(uint_or_zero(s, "start_line"@) as nat) + "-"@ + text::dec(
        uint_or_zero(s, "end_line"@) as nat,
    ) + "  "@ + str_or(s, "uid"@, "?"@)
}

pub fn symbol_line(s: &Json) -> (r: String)
    ensures
        r@ == symbol_text(*s),
{
    let mut r = String::new();
    text::push_filled(&mut r, text_or(s, "kind", "?"), 9);
    r.append(" ");
    r.append(text_or(s, "name", "?"));
    r.append("  ");
    r.append(text_or(s, "path", "?"));
    r.append(":");
    text::push_dec(&mut r, number_or_zero(s, "start_line"));
    r.append("-");
    text::push_dec(&mut r, number_or_zero(s, "end_line"));
    r.append("  ");
    r.append(text_or(s, "uid", "?"));
    proof {
        assert(r@ =~= symbol_text(*s));
    }
    r
}

/// One line for a symbol that an ambiguous name may mean.
pub open spec fn candidate_text(c: Json) -> Seq<char> {
    "  "@ + str_or(c, "uid"@, "?"@) + "  ("@ + str_or(c, "kind"@, "?"@) + " "@ + str_or(
        c,
        "path"@,
        "?"@,
    ) + ":"@ + text::dec(uint_or_zero(c, "start_line"@) as nat) + ")"@
}

fn candidate_line(c: &Json) -> (r: String)
    ensures
        r@ == candidate_text(*c),
{
    let mut r = "  ".to_string();
    r.append(text_or(c, "uid", "?"));
    r.append("  (");
    r.append(text_or(c, "kind", "?"));
    r.append(" ");
    r.append(text_or(c, "path", "?"));
    r.append(":");
    text::push_dec(&mut r, number_or_zero(c, "start_line"));
    r.append(")");
    r
}

/// How the answer to a graph command is printed.
#[derive(Debug)]
pub enum GraphOutput {
    /// As raw JSON.
    Raw,
    /// One line per symbol that the name may mean.
    Candidates(Vec<String>),
    /// In the form of the command.
    Pretty,
}

/// Decide how the answer to a graph command is printed: raw if that was asked
/// for, as a choice if the name was ambiguous, else in the command's form.
pub fn finish_graph_cmd(data: &Json, raw_json: bool) -> (r: GraphOutput)
    ensures
        match r {
            GraphOutput::Raw => raw_json,
            GraphOutput::Candidates(lines) => {
                &&& !raw_json
                &&& json::value_of(*data, "candidates"@) matches Some(Json::Arr(c))
                &&& text::texts(lines@) == c@.map_values(|j: Json| candidate_text(j))
            },
            GraphOutput::Pretty => !raw_json && !(json::value_of(
                *data,
                "candidates"@,
            ) matches Some(Json::Arr(_))),
        },
{
    if raw_json {
        return GraphOutput::Raw;
    }
    match data.get_items("candidates") {
        Some(c) => {
            let ghost all = c@.map_values(|j: Json| candidate_text(j));
            let mut lines: Vec<String> = Vec::new();
            let mut i: usize = 0;
            while i < c.len()
                invariant
                    i <= c@.len(),
                    lines@.len() == i,
                    forall|k: int| 0 <= k < i ==> (#[trigger] lines@[k])@ == candidate_text(c@[k]),
                decreases c@.len() - i,
            {
                lines.push(candidate_line(&c[i]));
                i = i + 1;
            }
            proof {
                assert(text::texts(lines@) =~= all);
            }
            GraphOutput::Candidates(lines)
        },
        None => GraphOutput::Pretty,
    }
}

/// The lines that answer a look-up by name, if the answer has symbols at all.
pub open spec fn symbol_list_lines(syms: Seq<Json>) -> Seq<Seq<char>> {
    if syms.len() == 0 {
        seq!["no symbols found"@]
    } else {
        syms.map_values(|s: Json| symbol_text(s))
    }
}

pub fn symbol_lines(data: &Json) -> (r: Option<Vec<String>>)
    ensures
        match r {
            Some(lines) => {
                &&& json::value_of(*data, "symbols"@) matches Some(Json::Arr(v))
                &&& text::texts(lines@) == symbol_list_lines(v@)
            },
            None => !(json::value_of(*data, "symbols"@) matches Some(Json::Arr(_))),
        },
{
    match data.get_items("symbols") {
        Some(v) => {
            let mut lines: Vec<String> = Vec::new();
            if v.len() == 0 {
                lines.push("no symbols found".to_string());
                proof {
                    assert(text::texts(lines@) =~= symbol_list_lines(v@));
                }
                return Some(lines);
            }
            let mut i: usize = 0;
            while i < v.len()
                invariant
                    i <= v@.len(),
                    lines@.len() == i,
                    forall|k: int| 0 <= k < i ==> (#[trigger] lines@[k])@ == symbol_text(v@[k]),
                decreases v@.len() - i,
            {
                lines.push(symbol_line(&v[i]));
                i = i + 1;
            }
            proof {
                assert(text::texts(lines@) =~= symbol_list_lines(v@));
            }
            Some(lines)
        },
        None => None,
    }
}

/// One line for an edge.
pub open spec fn edge_text(e: Json) -> Seq<char> {
    let head = "  ["@ + str_or(e, "tier"@, "?"@) + "] line "@ + text::dec(
        uint_or_zero(e, "site_line"@) as nat,
    ) + "  "@;
    match json::value_of(e, "symbol"@) {
        Some(s) => if s == Json::Null {
            head + "<unknown symbol>"@
        } else {
            head + symbol_text(s)
        },
        None => head + "<unknown symbol>"@,
    }
}

fn edge_line(e: &Json) -> (r: String)
    ensures
        r@ == edge_text(*e),
{
    let mut r = "  [".to_string();
    r.append(text_or(e, "tier", "?"));
    r.append("] line ");
    text::push_dec(&mut r, number_or_zero(e, "site_line"));
    r.append("  ");
    match e.get("symbol") {
        Some(s) => if s.is_null() {
            r.append("<unknown symbol>");
        } else {
            let line = symbol_line(s);
            r.append(line.as_str());
        },
        None => {
            r.append("<unknown symbol>");
        },
    }
    r
}

/// The lines that answer a request for callers or callees.
pub open spec fn uses_text(data: Json, edges: Seq<Json>) -> Seq<Seq<char>> {
    (match json::value_of(data, "symbol"@) {
        Some(s) => seq![symbol_text(s)],
        None => Seq::empty(),
    }).push(str_or(data, "role"@, "?"@) + ": "@ + text::dec(edges.len())) + edges.map_values(
        |e: Json| edge_text(e),
    )
}

pub fn uses_lines(data: &Json) -> (r: Option<Vec<String>>)
    ensures
        match r {
            Some(lines) => {
                &&& json::value_of(*data, "edges"@) matches Some(Json::Arr(v))
                &&& text::texts(lines@) == uses_text(*data, v@)
            },
            None => !(json::value_of(*data, "edges"@) matches Some(Json::Arr(_))),
        },
{
    match data.get_items("edges") {
        Some(v) => {
            let mut lines: Vec<String> = Vec::new();
            match data.get("symbol") {
                Some(s) => {
                    lines.push(symbol_line(s));
                },
                None => {},
            }
            let mut head = text_or(data, "role", "?").to_string();
            head.append(": ");
            text::push_dec(&mut head, v.len() as u64);
            lines.push(head);
            let ghost start = text::texts(lines@);
            let ghost rest = v@.map_values(|e: Json| edge_text(e));
            let mut i: usize = 0;
            proof {
                assert(text::texts(lines@) =~= start + rest.take(0));
            }
            while i < v.len()
                invariant
                    i <= v@.len(),
                    rest == v@.map_values(|e: Json| edge_text(e)),
                    text::texts(lines@) == start + rest.take(i as int),
                decreases v@.len() - i,
            {
                let ghost before = text::texts(lines@);
                let line = edge_line(&v[i]);
                let ghost view = line@;
                lines.push(line);
                i = i + 1;
                proof {
                    assert(text::texts(lines@) =~= before.push(view));
                    assert(text::texts(lines@) =~= start + rest.take(i as int));
                }
            }
            proof {
                assert(rest.take(i as int) =~= rest);
                assert(text::texts(lines@) =~= uses_text(*data, v@));
            }
            Some(lines)
        },
        None => None,
    }
}

/// What an answer with context shows behind its symbol: its text, or its
/// edges if it has none.
pub fn context_text(data: &Json) -> (r: Option<&str>)
    ensures
        match r {
            Some(s) => s@ == str_or(*data, "text"@, Seq::empty()) && s@.len() > 0,
            None => str_or(*data, "text"@, Seq::empty()).len() == 0,
        },
{
    match data.get_str("text") {
        Some(s) => if s.is_empty() {
            None
        } else {
            Some(s)
        },
        None => None,
    }
}

/// The lines that answer a request for context: the symbol, then the text or,
/// if it is empty, the edges as JSON.
pub open spec fn context_list(data: Json, incoming: Seq<char>, outgoing: Seq<char>) -> Seq<
    Seq<char>,
> {
    let text = str_or(data, "text"@, Seq::empty());
    (match json::value_of(data, "symbol"@) {
        Some(s) => seq![symbol_text(s)],
        None => Seq::empty(),
    }) + (if text.len() > 0 {
        seq!["\n"@ + text]
    } else {
        seq!["\nincoming: "@ + incoming, "outgoing: "@ + outgoing]
    })
}

/// The lines that answer a request for context. `incoming` and `outgoing` are
/// its edges as JSON.
pub fn context_lines(data: &Json, incoming: &str, outgoing: &str) -> (r: Vec<String>)
    ensures
        text::texts(r@) == context_list(*data, incoming@, outgoing@),
{
    let mut r: Vec<String> = Vec::new();
    match data.get("symbol") {
        Some(s) => {
            r.push(symbol_line(s));
        },
        None => {},
    }
    match context_text(data) {
        Some(t) => {
            let mut line = "\n".to_string();
            line.append(t);
            r.push(line);
        },
        None => {
            let mut first = "\nincoming: ".to_string();
            first.append(incoming);
            r.push(first);
            let mut second = "outgoing: ".to_string();
            second.append(outgoing);
            r.push(second);
        },
    }
    proof {
        assert(text::texts(r@) =~= context_list(*data, incoming@, outgoing@));
    }
    r
}

// ---- searches ----

/// One line for a match.
pub open spec fn match_text(m: Json) -> Seq<char> {
    str_or(m, "path"@, Seq::empty()) + ":"@ + text::dec(uint_or_zero(m, "line"@) as nat) + ":"@
        + str_or(m, "text"@, Seq::empty()) + "\n"@
}

/// The first `n` matches, a line each.
pub open spec fn matches_text(matches: Seq<Json>, n: nat) -> Seq<char>
    decreases n,
{
    if n == 0 {
        Seq::empty()
    } else {
        matches_text(matches, (n - 1) as nat) + match_text(matches[n - 1])
    }
}

/// The matches, a line each.
pub fn print_search_matches(matches: &Vec<Json>) -> (r: String)
    ensures
        r@ == matches_text(matches@, matches@.len()),
{
    let mut r = String::new();
    let mut i: usize = 0;
    proof {
        assert(r@ =~= matches_text(matches@, 0));
    }
    while i < matches.len()
        invariant
            i <= matches@.len(),
            r@ == matches_text(matches@, i as nat),
        decreases matches@.len() - i,
    {
        let m = &matches[i];
        let ghost before = r@;
        r.append(text_or(m, "path", ""));
        r.append(":");
        text::push_dec(&mut r, number_or_zero(m, "line"));
        r.append(":");
        r.append(text_or(m, "text", ""));
        r.append("\n");
        proof {
            reveal_strlit("");
            assert(""@ =~= Seq::<char>::empty());
            assert(r@ =~= before + match_text(*m));
        }
        i = i + 1;
    }
    r
}

/// Whether `j` is the row that a search prints for a match as JSON.
pub open spec fn is_match_row(j: Json, m: Json) -> bool {
    let v = json::members(j);
    &&& json::has_keys(j, seq!["path"@, "line"@, "text"@])
    &&& json::is_str(v[0].value, str_or(m, "path"@, Seq::empty()))
    &&& json::is_uint(v[1].value, uint_or_zero(m, "line"@) as int)
    &&& json::is_str(v[2].value, str_or(m, "text"@, Seq::empty()))
}

/// The row that a search prints for a match as JSON.
pub fn match_row(m: &Json) -> (j: Json)
    ensures
        is_match_row(j, *m),
{
    let mut v: Vec<Member> = Vec::new();
    v.push(json::member("path", json::str_json(text_or(m, "path", ""))));
    v.push(json::member("line", Json::Uint(number_or_zero(m, "line"))));
    v.push(json::member("text", json::str_json(text_or(m, "text", ""))));
    proof {
        reveal_strlit("");
        assert(""@ =~= Seq::<char>::empty());
        assert(v@.map_values(|x: Member| x.key@) =~= seq!["path"@, "line"@, "text"@]);
    }
    Json::Obj(v)
}

/// The line on how a search went.
pub open spec fn search_stats_text(s: Json) -> Seq<char> {
    "candidates="@ + text::dec(uint_or_zero(s, "candidates"@) as nat) + (if bool_or_false(
        s,
        "scanned_all"@,
    ) {
        " (full scan)"@
    } else {
        Seq::empty()
    }) + " matches="@ + text::dec(uint_or_zero(s, "matches"@) as nat) + " elapsed_us="@ + text::dec(
        uint_or_zero(s, "elapsed_us"@) as nat,
    )
}

pub fn search_stats_line(s: &Json) -> (r: String)
    ensures
        r@ == search_stats_text(*s),
{
    let mut r = "candidates=".to_string();
    text::push_dec(&mut r, number_or_zero(s, "candidates"));
    if truth_or_false(s, "scanned_all") {
        r.append(" (full scan)");
    }
    r.append(" matches=");
    text::push_dec(&mut r, number_or_zero(s, "matches"));
    r.append(" elapsed_us=");
    text::push_dec(&mut r, number_or_zero(s, "elapsed_us"));
    proof {
        assert(r@ =~= search_stats_text(*s));
    }
    r
}

// ---- status ----

/// The line on the index.
pub open spec fn index_text(i: Json) -> Seq<char> {
    "index: commit="@ + str_or(i, "commit_oid"@, "-"@) + " base_files="@ + text::dec(
        uint_or_zero(i, "base_files"@) as nat,
    ) + " delta_files="@ + text::dec(uint_or_zero(i, "delta_files"@) as nat) + " overlay_files="@
        + text::dec(uint_or_zero(i, "overlay_files"@) as nat) + " tombstones="@ + text::dec(
        uint_or_zero(i, "tombstones"@) as nat,
    )
}

fn index_line(i: &Json) -> (r: String)
    ensures
        r@ == index_text(*i),
{
    let mut r = "index: commit=".to_string();
    r.append(text_or(i, "commit_oid", "-"));
    r.append(" base_files=");
    text::push_dec(&mut r, number_or_zero(i, "base_files"));
    r.append(" delta_files=");
    text::push_dec(&mut r, number_or_zero(i, "delta_files"));
    r.append(" overlay_files=");
    text::push_dec(&mut r, number_or_zero(i, "overlay_files"));
    r.append(" tombstones=");
    text::push_dec(&mut r, number_or_zero(i, "tombstones"));
    r
}

/// The line on the graph.
pub open spec fn graph_text(data: Json) -> Seq<char> {
    match json::value_of(data, "graph"@) {
        Some(g) => if bool_or_false(g, "present"@) {
            "graph: files="@ + text::dec(uint_or_zero(g, "files"@) as nat) + " symbols="@
                + text::dec(uint_or_zero(g, "symbols"@) as nat) + " edges="@ + text::dec(
                uint_or_zero(g, "edges"@) as nat,
            ) + " unresolved_calls="@ + text::dec(uint_or_zero(g, "unresolved_calls"@) as nat)
        } else {
            "graph: not built (runs on first graph command)"@
        },
        None => "graph: not built (runs on first graph command)"@,
    }
}

fn graph_line(data: &Json) -> (r: String)
    ensures
        r@ == graph_text(*data),
{
    match data.get("graph") {
        Some(g) => if truth_or_false(g, "present") {
            let mut r = "graph: files=".to_string();
            text::push_dec(&mut r, number_or_zero(g, "files"));
            r.append(" symbols=");
            text::push_dec(&mut r, number_or_zero(g, "symbols"));
            r.append(" edges=");
            text::push_dec(&mut r, number_or_zero(g, "edges"));
            r.append(" unresolved_calls=");
            text::push_dec(&mut r, number_or_zero(g, "unresolved_calls"));
            r
        } else {
            "graph: not built (runs on first graph command)".to_string()
        },
        None => "graph: not built (runs on first graph command)".to_string(),
    }
}

/// The lines that answer a request for the status.
pub open spec fn status_text(data: Json, daemon_runs: bool) -> Seq<Seq<char>> {
    seq!["root: "@ + str_or(data, "root"@, "?"@)] + (match json::value_of(data, "index"@) {
        Some(i) => seq![index_text(i)],
        None => Seq::empty(),
    }) + seq![
        graph_text(data),
        if daemon_runs {
            "daemon: running"@
        } else {
            "daemon: not running"@
        },
    ]
}

pub fn status_lines(data: &Json, daemon_runs: bool) -> (r: Vec<String>)
    ensures
        text::texts(r@) == status_text(*data, daemon_runs),
{
    let mut r: Vec<String> = Vec::new();
    let mut root = "root: ".to_string();
    root.append(text_or(data, "root", "?"));
    r.push(root);
    match data.get("index") {
        Some(i) => {
            r.push(index_line(i));
        },
        None => {},
    }
    r.push(graph_line(data));
    r.push(
        if daemon_runs {
            "daemon: running".to_string()
        } else {
            "daemon: not running".to_string()
        },
    );
    proof {
        assert(text::texts(r@) =~= status_text(*data, daemon_runs));
    }
    r
}

/// The line on a raw shard.
pub fn shard_stats_line(shard: &Shard) -> (r: String)
    ensures
        r@ == "files="@ + text::dec(shard@.files.len()) + " grams="@ + text::dec(shard@.gram_count)
            + " extractor="@ + shard@.extractor_id + " commit="@ + (match shard@.commit_oid {
            Some(o) => o,
            None => "-"@,
        }),
{
    let mut r = "files=".to_string();
    text::push_dec(&mut r, shard.file_count() as u64);
    r.append(" grams=");
    text::push_dec(&mut r, shard.gram_count());
    r.append(" extractor=");
    r.append(shard.extractor_id());
    r.append(" commit=");
    match shard.commit_oid() {
        Some(o) => {
            r.append(o);
        },
        None => {
            r.append("-");
        },
    }
    r
}

// ---- extractors ----

/// Which grams an index holds.
#[derive(Debug, Clone, Copy, PartialEq, Eq, Structural)]
pub enum ExtractorKind {
    Sparse,
    Trigram,
}

/// A gram extractor with its lengths.
#[derive(Debug, Clone, Copy, PartialEq, Eq, Structural)]
pub enum Extractor {
    Trigram,
    Sparse { min: usize, max: usize },
}

/// The extractor of an index command.
pub fn make_extractor(kind: ExtractorKind, min_gram: usize, max_gram: usize) -> (r: Extractor)
    ensures
        r == (match kind {
            ExtractorKind::Sparse => Extractor::Sparse { min: min_gram, max: max_gram },
            ExtractorKind::Trigram => Extractor::Trigram,
        }),
{
    match kind {
        ExtractorKind::Sparse => Extractor::Sparse { min: min_gram, max: max_gram },
        ExtractorKind::Trigram => Extractor::Trigram,
    }
}

/// Whether all characters are decimal digits.
pub open spec fn all_digits(s: Seq<char>) -> bool {
    forall|i: int| 0 <= i < s.len() ==> '0' <= (#[trigger] s[i]) && s[i] <= '9'
}

/// The number that decimal digits write.
pub open spec fn digits_value(s: Seq<char>) -> nat
    decreases s.len(),
{
    if s.len() == 0 {
        0
    } else {
        10 * digits_value(s.drop_last()) + (s.last() as nat - '0' as nat) as nat
    }
}

/// The digits of a number without the plus sign that may stand before them.
pub open spec fn unsigned_digits(s: Seq<char>) -> Seq<char> {
    if s.len() > 0 && s[0] == '+' {
        s.drop_first()
    } else {
        s
    }
}

/// The number that a text writes, if it is one that a machine word holds.
pub open spec fn number_of(s: Seq<char>) -> Option<usize> {
    let d = unsigned_digits(s);
    if d.len() > 0 && all_digits(d) && digits_value(d) <= usize::MAX {
        Some(digits_value(d) as usize)
    } else {
        None
    }
}

proof fn lemma_value_grows(s: Seq<char>, n: int)
    requires
        0 <= n <= s.len(),
    ensures
        digits_value(s.take(n)) <= digits_value(s),
    decreases s.len(),
{
    if n < s.len() {
        lemma_value_grows(s.drop_last(), n);
        assert(s.drop_last().take(n) =~= s.take(n));
    } else {
        assert(s.take(n) =~= s);
    }
}

/// The number of the characters behind `from`, if they write one.
fn parse_number(chars: &Vec<char>, from: usize, to: usize) -> (r: Option<usize>)
    requires
        from <= to <= chars@.len(),
    ensures
        r == number_of(chars@.subrange(from as int, to as int)),
{
    let ghost s = chars@.subrange(from as int, to as int);
    let start: usize = if from < to && chars[from] == '+' {
        from + 1
    } else {
        from
    };
    let ghost d = unsigned_digits(s);
    proof {
        if from < to {
            assert(s[0] == chars@[from as int]);
        }
        assert(d =~= chars@.subrange(start as int, to as int));
    }
    if start == to {
        return None;
    }
    let mut value: usize = 0;
    let mut i: usize = start;
    proof {
        assert(d.take(0) =~= Seq::<char>::empty());
    }
    while i < to
        invariant
            start <= i <= to <= chars@.len(),
            start < to,
            d == unsigned_digits(s),
            s == chars@.subrange(from as int, to as int),
            d == chars@.subrange(start as int, to as int),
            all_digits(d.take(i - start)),
            value == digits_value(d.take(i - start)),
        decreases to - i,
    {
        let c: char = chars[i];
        proof {
            assert(d[i - start] == c);
            assert(d.take(i - start + 1).drop_last() =~= d.take(i - start));
            assert(d.take(i - start + 1).last() == c);
        }
        if c < '0' || c > '9' {
            return None;
        }
        let digit: usize = (c as u32 - '0' as u32) as usize;
        proof {
            lemma_value_grows(d, i - start + 1);
            assert forall|k: int| 0 <= k < i - start + 1 implies '0' <= (#[trigger] d.take(
                i - start + 1,
            )[k]) && d.take(i - start + 1)[k] <= '9' by {
                if k < i - start {
                    assert(d.take(i - start)[k] == d[k]);
                }
            }
        }
        if value > (usize::MAX - digit) / 10 {
            return None;
        }
        value = value * 10 + digit;
        i = i + 1;
    }
    proof {
        assert(d.take(i - start) =~= d);
    }
    Some(value)
}

/// The place of the first `c`, or the length.
pub open spec fn first_place(s: Seq<char>, c: char) -> int
    decreases s.len(),
{
    if s.len() == 0 || s[0] == c {
        0
    } else {
        1 + first_place(s.drop_first(), c)
    }
}

/// The extractor that an id names: "trigram", or "sparse-crc32-" and the
/// least and the greatest length with a dash between them.
pub open spec fn extractor_named(id: Seq<char>) -> Option<Extractor> {
    let prefix = "sparse-crc32-"@;
    let rest = id.skip(prefix.len() as int);
    let dash = first_place(rest, '-');
    if id == "trigram"@ {
        Some(Extractor::Trigram)
    } else if prefix.is_prefix_of(id) && dash < rest.len() {
        match (number_of(rest.take(dash)), number_of(rest.skip(dash + 1))) {
            (Some(min), Some(max)) => Some(Extractor::Sparse { min, max }),
            _ => None,
        }
    } else {
        None
    }
}

/// The error of an id that names no extractor, written with its quoted form.
pub open spec fn unsupported(quoted_id: Seq<char>) -> Seq<char> {
    "index built with unsupported extractor "@ + quoted_id + "; re-run `gitpixel index`"@
}

/// The error of an id that names no extractor.
pub fn unsupported_error(quoted_id: &str) -> (r: String)
    ensures
        r@ == unsupported(quoted_id@),
{
    let mut r = "index built with unsupported extractor ".to_string();
    r.append(quoted_id);
    r.append("; re-run `gitpixel index`");
    r
}

/// The extractor that an id names.
pub fn parse_extractor(id: &str) -> (r: Option<Extractor>)
    ensures
        r == extractor_named(id@),
{
    if text::same_text(id, "trigram") {
        return Some(Extractor::Trigram);
    }
    if !text::has_prefix(id, "sparse-crc32-") {
        return None;
    }
    let chars = text::chars_of(id);
    let from: usize = "sparse-crc32-".unicode_len();
    let ghost rest = id@.skip(from as int);
    let mut dash: usize = from;
    while dash < chars.len() && chars[dash] != '-'
        invariant
            from <= dash <= chars@.len(),
            chars@ == id@,
            rest == id@.skip(from as int),
            first_place(rest, '-') == (dash - from) + first_place(id@.skip(dash as int), '-'),
        decreases chars@.len() - dash,
    {
        proof {
            assert(id@.skip(dash as int)[0] == chars@[dash as int]);
            assert(id@.skip(dash as int).drop_first() =~= id@.skip(dash + 1));
        }
        dash = dash + 1;
    }
    proof {
        if dash < chars@.len() {
            assert(id@.skip(dash as int)[0] == chars@[dash as int]);
        }
        assert(first_place(rest, '-') == dash - from);
    }
    if dash >= chars.len() {
        return None;
    }
    let min = parse_number(&chars, from, dash);
    let max = parse_number(&chars, dash + 1, chars.len());
    proof {
        assert(chars@.subrange(from as int, dash as int) =~= rest.take(dash - from));
        assert(chars@.subrange(dash + 1, chars@.len() as int) =~= rest.skip(dash - from + 1));
    }
    match (min, max) {
        (Some(min), Some(max)) => Some(Extractor::Sparse { min, max }),
        _ => None,
    }
}

/// The extractor that a shard was built with.
pub fn extractor_for_shard(shard: &Shard) -> (r: Result<Extractor, String>)
    ensures
        match r {
            Ok(e) => extractor_named(shard@.extractor_id) == Some(e),
            Err(m) => extractor_named(shard@.extractor_id) is None && m@ == unsupported(
                graph_json::quoted(shard@.extractor_id),
            ),
        },
{
    match parse_extractor(shard.extractor_id()) {
        Some(e) => Ok(e),
        None => {
            let q = graph_json::debug_text(shard.extractor_id());
            Err(unsupported_error(q.as_str()))
        },
    }
}

} // verus!
