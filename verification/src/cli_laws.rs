//! What the command line prints of the service's answers, and which names mean
//! which extractor.
use vstd::prelude::*;

use crate::api;
use crate::api::GraphState;
use crate::cli;
use crate::cli::Extractor;
use crate::graph_json;
use crate::graph_json::{EdgeItem, SymbolRow};
use crate::indexset::{FreshnessStatus, MatchLine, SearchStats};
use crate::json;
use crate::json::Json;
use crate::serve_laws;
use crate::text;
use crate::text_laws;

verus! {

/// A member that is missing, or has another type, is printed as its stand-in;
/// any other as it is.
pub proof fn missing_members_have_stand_ins(j: Json, key: Seq<char>, other: Seq<char>)
    ensures
        serve_laws::text_at(j, key) is None ==> cli::str_or(j, key, other) == other,
        serve_laws::text_at(j, key) matches Some(s) ==> cli::str_or(j, key, other) == s,
        serve_laws::number_at(j, key) is None ==> cli::uint_or_zero(j, key) == 0,
        serve_laws::number_at(j, key) matches Some(n) ==> cli::uint_or_zero(j, key) == n,
        cli::bool_or_false(j, key) <==> serve_laws::truth_at(j, key) == Some(true),
{
}

// ---- symbols and edges ----

/// A symbol's line shows its kind, filled up to nine characters, its name, its
/// path, its first and last line, and its uid.
pub proof fn symbol_lines_show_the_row(j: Json, s: SymbolRow, files: Map<i64, Seq<char>>)
    requires
        graph_json::is_symbol(j, s, files),
    ensures
        cli::symbol_text(j) == text::filled(s.kind@, 9) + " "@ + s.name@ + "  "@ + (
        if files.contains_key(s.file_id) {
            files[s.file_id]
        } else {
            Seq::empty()
        }) + ":"@ + text::dec(s.start_line as nat) + "-"@ + text::dec(s.end_line as nat) + "  "@
            + s.uid@,
        cli::candidate_text(j) == "  "@ + s.uid@ + "  ("@ + s.kind@ + " "@ + (
        if files.contains_key(s.file_id) {
            files[s.file_id]
        } else {
            Seq::empty()
        }) + ":"@ + text::dec(s.start_line as nat) + ")"@,
{
    serve_laws::symbols_tell_their_row(j, s, files);
}

/// A symbol of which something is missing is shown with question marks in the
/// place of texts and zeros in the place of numbers.
pub proof fn symbol_lines_show_what_is_missing(s: Json)
    ensures
        cli::symbol_text(s) == text::filled(cli::str_or(s, "kind"@, "?"@), 9) + " "@ + cli::str_or(
            s,
            "name"@,
            "?"@,
        ) + "  "@ + cli::str_or(s, "path"@, "?"@) + ":"@ + text::dec(
            cli::uint_or_zero(s, "start_line"@) as nat,
        ) + "-"@ + text::dec(cli::uint_or_zero(s, "end_line"@) as nat) + "  "@ + cli::str_or(
            s,
            "uid"@,
            "?"@,
        ),
        cli::candidate_text(s) == "  "@ + cli::str_or(s, "uid"@, "?"@) + "  ("@ + cli::str_or(
            s,
            "kind"@,
            "?"@,
        ) + " "@ + cli::str_or(s, "path"@, "?"@) + ":"@ + text::dec(
            cli::uint_or_zero(s, "start_line"@) as nat,
        ) + ")"@,
{
}

/// An edge without a symbol at its other end says so, and one without a tier
/// shows a question mark.
pub proof fn edge_lines_show_what_is_missing(e: Json)
    ensures
        ({
            let head = "  ["@ + cli::str_or(e, "tier"@, "?"@) + "] line "@ + text::dec(
                cli::uint_or_zero(e, "site_line"@) as nat,
            ) + "  "@;
            let end = json::value_of(e, "symbol"@);
            &&& end is None || end == Some(Json::Null) ==> cli::edge_text(e) == head
                + "<unknown symbol>"@
            &&& end is Some && end != Some(Json::Null) ==> cli::edge_text(e) == head
                + cli::symbol_text(end->0)
        }),
{
}

/// An edge's line shows its tier, its line, and the symbol at its other end.
pub proof fn edge_lines_show_the_edge(j: Json, e: EdgeItem, files: Map<i64, Seq<char>>)
    requires
        graph_json::is_edge(j, e, files),
    ensures
        ({
            let head = "  ["@ + e.tier@ + "] line "@ + text::dec(e.site_line as nat) + "  "@;
            &&& e.other is None ==> cli::edge_text(j) == head + "<unknown symbol>"@
            &&& e.other is Some ==> cli::edge_text(j) == head + cli::symbol_text(
                json::value_of(j, "symbol"@)->0,
            )
        }),
{
    serve_laws::edges_tell_their_end(j, e, files);
}

/// A look-up prints one line per symbol, in order, or says that there is none.
pub proof fn lookups_print_each_symbol(syms: Seq<Json>, i: int)
    ensures
        syms.len() == 0 ==> cli::symbol_list_lines(syms) == seq!["no symbols found"@],
        syms.len() > 0 ==> cli::symbol_list_lines(syms).len() == syms.len(),
        0 <= i < syms.len() ==> cli::symbol_list_lines(syms)[i] == cli::symbol_text(syms[i]),
{
}

/// Callers or callees are printed behind the symbol and a line with the role and
/// their number, one line each, in order.
pub proof fn uses_print_each_edge(data: Json, edges: Seq<Json>, s: Json, i: int)
    requires
        json::value_of(data, "symbol"@) == Some(s),
    ensures
        cli::uses_text(data, edges).len() == edges.len() + 2,
        cli::uses_text(data, edges)[0] == cli::symbol_text(s),
        cli::uses_text(data, edges)[1] == cli::str_or(data, "role"@, "?"@) + ": "@ + text::dec(
            edges.len(),
        ),
        0 <= i < edges.len() ==> cli::uses_text(data, edges)[2 + i] == cli::edge_text(edges[i]),
{
}

/// Without a symbol, an answer with callers or callees begins with their number,
/// and one with context with its text or edges.
pub proof fn answers_without_a_symbol(
    data: Json,
    edges: Seq<Json>,
    i: int,
    incoming: Seq<char>,
    outgoing: Seq<char>,
)
    requires
        json::value_of(data, "symbol"@) is None,
    ensures
        cli::uses_text(data, edges).len() == edges.len() + 1,
        cli::uses_text(data, edges)[0] == cli::str_or(data, "role"@, "?"@) + ": "@ + text::dec(
            edges.len(),
        ),
        0 <= i < edges.len() ==> cli::uses_text(data, edges)[1 + i] == cli::edge_text(edges[i]),
        cli::str_or(data, "text"@, Seq::empty()).len() > 0 ==> cli::context_list(
            data,
            incoming,
            outgoing,
        ) == seq!["\n"@ + cli::str_or(data, "text"@, Seq::empty())],
        cli::str_or(data, "text"@, Seq::empty()).len() == 0 ==> cli::context_list(
            data,
            incoming,
            outgoing,
        ) == seq!["\nincoming: "@ + incoming, "outgoing: "@ + outgoing],
{
    let list = cli::context_list(data, incoming, outgoing);
    if cli::str_or(data, "text"@, Seq::empty()).len() > 0 {
        assert(list =~= seq!["\n"@ + cli::str_or(data, "text"@, Seq::empty())]);
    } else {
        assert(list =~= seq!["\nincoming: "@ + incoming, "outgoing: "@ + outgoing]);
    }
}

/// A context is printed behind its symbol: its text if there is one, else its
/// edges on both sides.
pub proof fn contexts_print_their_text(data: Json, s: Json, incoming: Seq<char>, outgoing: Seq<char>)
    requires
        json::value_of(data, "symbol"@) == Some(s),
    ensures
        cli::context_list(data, incoming, outgoing)[0] == cli::symbol_text(s),
        serve_laws::text_at(data, "text"@) matches Some(t) && t.len() > 0 ==> cli::context_list(
            data,
            incoming,
            outgoing,
        ) == seq![cli::symbol_text(s), "\n"@ + serve_laws::text_at(data, "text"@)->0],
        serve_laws::text_at(data, "text"@) is None || serve_laws::text_at(data, "text"@)->0.len()
            == 0 ==> cli::context_list(data, incoming, outgoing) == seq![
            cli::symbol_text(s),
            "\nincoming: "@ + incoming,
            "outgoing: "@ + outgoing,
        ],
{
    let list = cli::context_list(data, incoming, outgoing);
    if serve_laws::text_at(data, "text"@) is Some && serve_laws::text_at(data, "text"@)->0.len()
        > 0 {
        assert(list =~= seq![
            cli::symbol_text(s),
            "\n"@ + serve_laws::text_at(data, "text"@)->0,
        ]);
    } else {
        assert(list =~= seq![
            cli::symbol_text(s),
            "\nincoming: "@ + incoming,
            "outgoing: "@ + outgoing,
        ]);
    }
}

// ---- notes ----

/// The notes tell their number.
pub proof fn notes_tell_their_number(n: u64)
    ensures
        cli::build_note(n) == "gitpixel: built graph.db on first use ("@ + text::dec(n as nat)
            + " ms)"@,
        cli::bound_note(n) == "note: lower bound — "@ + text::dec(n as nat)
            + " same-name call site(s) unresolved"@,
{
}

/// An answer is a lower bound exactly when its envelope says so.
pub proof fn envelopes_tell_the_bound(data: Json)
    ensures
        cli::is_lower_bound(data) <==> {
            &&& json::value_of(data, "envelope"@) is Some
            &&& serve_laws::truth_at(json::value_of(data, "envelope"@)->0, "lower_bound"@) == Some(
                true,
            )
        },
{
}

// ---- searches ----

/// A match is printed as its path, its line number and its text, with a line end
/// behind them.
pub proof fn match_lines_show_the_match(j: Json, l: MatchLine)
    requires
        api::is_match(j, l),
    ensures
        cli::match_text(j) == l.path@ + ":"@ + text::dec(l.line_number as nat) + ":"@ + l.line@
            + "\n"@,
{
    serve_laws::matches_tell_their_line(j, l);
}

/// A match of which something is missing is printed with nothing in the place of
/// texts and zero in the place of the number, and statistics likewise with
/// zeros.
pub proof fn match_lines_show_what_is_missing(m: Json, s: Json)
    ensures
        cli::match_text(m) == cli::str_or(m, "path"@, Seq::empty()) + ":"@ + text::dec(
            cli::uint_or_zero(m, "line"@) as nat,
        ) + ":"@ + cli::str_or(m, "text"@, Seq::empty()) + "\n"@,
        cli::search_stats_text(s) == "candidates="@ + text::dec(
            cli::uint_or_zero(s, "candidates"@) as nat,
        ) + (if serve_laws::truth_at(s, "scanned_all"@) == Some(true) {
            " (full scan)"@
        } else {
            Seq::empty()
        }) + " matches="@ + text::dec(cli::uint_or_zero(s, "matches"@) as nat) + " elapsed_us="@
            + text::dec(cli::uint_or_zero(s, "elapsed_us"@) as nat),
{
}

/// Matches are printed one after the other.
pub proof fn matches_are_printed_in_order(a: Seq<Json>, b: Seq<Json>, one: Json)
    ensures
        cli::matches_text(a + b, (a.len() + b.len()) as nat) == cli::matches_text(a, a.len())
            + cli::matches_text(b, b.len()),
        cli::matches_text(seq![one], 1) == cli::match_text(one),
{
    lemma_matches(a, b, b.len());
    assert(cli::matches_text(seq![one], 0) =~= Seq::<char>::empty());
    assert(seq![one][0] == one);
    assert(cli::matches_text(seq![one], 1) =~= cli::match_text(one));
}

proof fn lemma_matches(a: Seq<Json>, b: Seq<Json>, n: nat)
    requires
        n <= b.len(),
    ensures
        cli::matches_text(a + b, (a.len() + n) as nat) == cli::matches_text(a, a.len())
            + cli::matches_text(b, n),
    decreases n,
{
    if n == 0 {
        lemma_same_matches(a + b, a, a.len());
        assert(cli::matches_text(a, a.len()) + cli::matches_text(b, 0) =~= cli::matches_text(
            a,
            a.len(),
        ));
    } else {
        lemma_matches(a, b, (n - 1) as nat);
        assert((a + b)[a.len() + n - 1] == b[n - 1]);
        assert(cli::matches_text(a + b, (a.len() + n) as nat) =~= cli::matches_text(a, a.len())
            + cli::matches_text(b, n));
    }
}

proof fn lemma_same_matches(s: Seq<Json>, t: Seq<Json>, n: nat)
    requires
        n <= s.len(),
        n <= t.len(),
        forall|i: int| 0 <= i < n ==> s[i] == t[i],
    ensures
        cli::matches_text(s, n) == cli::matches_text(t, n),
    decreases n,
{
    if n > 0 {
        lemma_same_matches(s, t, (n - 1) as nat);
    }
}

/// A match that is printed as JSON has the path, line and text of the answer.
pub proof fn match_rows_show_the_match(row: Json, j: Json, l: MatchLine)
    requires
        api::is_match(j, l),
        cli::is_match_row(row, j),
    ensures
        api::is_match(row, l),
{
    serve_laws::matches_tell_their_line(j, l);
}

/// The line on a search shows its numbers, and whether everything was scanned.
pub proof fn search_lines_show_the_statistics(j: Json, s: SearchStats)
    requires
        api::is_search_stats(j, s),
        s.elapsed_us <= u64::MAX,
    ensures
        cli::search_stats_text(j) == "candidates="@ + text::dec(s.candidates as nat) + (
        if s.scanned_all {
            " (full scan)"@
        } else {
            Seq::empty()
        }) + " matches="@ + text::dec(s.matches as nat) + " elapsed_us="@ + text::dec(
            s.elapsed_us as nat,
        ),
{
    serve_laws::search_statistics_are_found(j, s);
}

// ---- status ----

/// The line on an index shows its commit, or a dash, and its numbers.
pub proof fn index_lines_show_the_freshness(j: Json, s: FreshnessStatus)
    requires
        api::is_freshness(j, s),
    ensures
        cli::index_text(j) == "index: commit="@ + (match s.commit_oid {
            Some(o) => o@,
            None => "-"@,
        }) + " base_files="@ + text::dec(s.base_files as nat) + " delta_files="@ + text::dec(
            s.delta_files as nat,
        ) + " overlay_files="@ + text::dec(s.overlay_files as nat) + " tombstones="@ + text::dec(
            s.tombstones as nat,
        ),
{
    serve_laws::freshness_is_found(j, s);
}

/// The status prints the root, the index, the graph's counts or that it is not
/// built, and whether the daemon runs.
pub proof fn status_lines_show_the_status(
    j: Json,
    root: Seq<char>,
    s: FreshnessStatus,
    g: GraphState,
    daemon_runs: bool,
)
    requires
        api::is_status_reply(j, root, s, g),
    ensures
        ({
            let lines = cli::status_text(j, daemon_runs);
            &&& lines.len() == 4
            &&& lines[0] == "root: "@ + root
            &&& lines[1] == cli::index_text(json::value_of(j, "index"@)->0)
            &&& g is Absent ==> lines[2] == "graph: not built (runs on first graph command)"@
            &&& g matches GraphState::Counts(files, symbols, edges, unresolved) ==> lines[2]
                == "graph: files="@ + text::dec(files as nat) + " symbols="@ + text::dec(
                symbols as nat,
            ) + " edges="@ + text::dec(edges as nat) + " unresolved_calls="@ + text::dec(
                unresolved as nat,
            )
            &&& lines[3] == (if daemon_runs {
                "daemon: running"@
            } else {
                "daemon: not running"@
            })
        }),
{
    serve_laws::status_is_found(j, root, s, g);
    serve_laws::graph_state_is_found(json::value_of(j, "graph"@)->0, g);
}

/// A status of which something is missing is printed with stand-ins: a question
/// mark for the root, no line for the index, and a graph that is not built.
pub proof fn status_lines_show_what_is_missing(data: Json, i: Json, g: Json)
    ensures
        ({
            let lines = cli::status_text(data, true);
            &&& lines[0] == "root: "@ + cli::str_or(data, "root"@, "?"@)
            &&& json::value_of(data, "index"@) is None ==> lines.len() == 3 && lines[1]
                == cli::graph_text(data)
            &&& json::value_of(data, "index"@) == Some(i) ==> lines.len() == 4 && lines[1]
                == cli::index_text(i) && lines[2] == cli::graph_text(data)
        }),
        cli::index_text(i) == "index: commit="@ + cli::str_or(i, "commit_oid"@, "-"@)
            + " base_files="@ + text::dec(cli::uint_or_zero(i, "base_files"@) as nat)
            + " delta_files="@ + text::dec(cli::uint_or_zero(i, "delta_files"@) as nat)
            + " overlay_files="@ + text::dec(cli::uint_or_zero(i, "overlay_files"@) as nat)
            + " tombstones="@ + text::dec(cli::uint_or_zero(i, "tombstones"@) as nat),
        json::value_of(data, "graph"@) is None ==> cli::graph_text(data)
            == "graph: not built (runs on first graph command)"@,
        json::value_of(data, "graph"@) == Some(g) && serve_laws::truth_at(g, "present"@) != Some(
            true,
        ) ==> cli::graph_text(data) == "graph: not built (runs on first graph command)"@,
        json::value_of(data, "graph"@) == Some(g) && serve_laws::truth_at(g, "present"@) == Some(
            true,
        ) ==> cli::graph_text(data) == "graph: files="@ + text::dec(
            cli::uint_or_zero(g, "files"@) as nat,
        ) + " symbols="@ + text::dec(cli::uint_or_zero(g, "symbols"@) as nat) + " edges="@
            + text::dec(cli::uint_or_zero(g, "edges"@) as nat) + " unresolved_calls="@ + text::dec(
            cli::uint_or_zero(g, "unresolved_calls"@) as nat,
        ),
{
}

// ---- extractors ----

/// The number of a text counts its digits; what has none, or another character
/// among them, or counts too much for a machine word, is no number. One plus
/// sign may stand before the digits.
pub proof fn numbers_count_their_digits(d: Seq<char>)
    requires
        d.len() == 0 || d[0] != '+',
    ensures
        cli::number_of(d) is Some <==> {
            &&& d.len() > 0
            &&& forall|i: int| 0 <= i < d.len() ==> '0' <= #[trigger] d[i] <= '9'
            &&& text_laws::value(d, 10) <= usize::MAX
        },
        cli::number_of(d) matches Some(n) ==> n == text_laws::value(d, 10),
        cli::number_of(seq!['+'] + d) == cli::number_of(d),
{
    assert((seq!['+'] + d).drop_first() =~= d);
    if cli::all_digits(d) {
        lemma_digits(d);
        assert forall|i: int| 0 <= i < d.len() implies '0' <= #[trigger] d[i] <= '9' by {}
    }
    if forall|i: int| 0 <= i < d.len() ==> '0' <= #[trigger] d[i] <= '9' {
        assert(cli::all_digits(d));
    }
}

proof fn lemma_digits(d: Seq<char>)
    requires
        cli::all_digits(d),
    ensures
        cli::digits_value(d) == text_laws::value(d, 10),
    decreases d.len(),
{
    if d.len() > 0 {
        let t = d.drop_last();
        assert forall|i: int| 0 <= i < t.len() implies '0' <= (#[trigger] t[i]) && t[i] <= '9' by {
            assert(t[i] == d[i]);
        }
        lemma_digits(t);
        assert('0' <= d[d.len() - 1] <= '9');
    }
}

/// Two plus signs make no number.
pub proof fn one_plus_sign_at_most(d: Seq<char>)
    requires
        d.len() > 0,
        d[0] == '+',
    ensures
        cli::number_of(seq!['+'] + d) is None,
{
    let s = seq!['+'] + d;
    assert(s.drop_first() =~= d);
    assert(!cli::all_digits(d)) by {
        if cli::all_digits(d) {
            assert('0' <= d[0]);
        }
    }
}

/// A number in decimal is read as that number.
pub proof fn decimals_are_read_back(n: usize)
    ensures
        cli::number_of(text::dec(n as nat)) == Some(n),
{
    text_laws::decimals_count_their_number(n as nat);
    let d = text::dec(n as nat);
    assert('0' <= d[0] <= '9');
    numbers_count_their_digits(d);
}

/// The id of each extractor names that extractor, and an id that begins neither
/// way names none.
pub proof fn ids_name_their_extractor(min: usize, max: usize, id: Seq<char>)
    ensures
        cli::extractor_named("trigram"@) == Some(Extractor::Trigram),
        cli::extractor_named(
            "sparse-crc32-"@ + text::dec(min as nat) + seq!['-'] + text::dec(max as nat),
        ) == Some(Extractor::Sparse { min, max }),
        id != "trigram"@ && !"sparse-crc32-"@.is_prefix_of(id) ==> cli::extractor_named(id) is None,
{
    reveal_strlit("trigram");
    reveal_strlit("sparse-crc32-");
    let prefix = "sparse-crc32-"@;
    let a = text::dec(min as nat);
    let b = text::dec(max as nat);
    let full = prefix + a + seq!['-'] + b;
    let rest = a + seq!['-'] + b;
    decimals_are_read_back(min);
    decimals_are_read_back(max);
    text_laws::decimals_count_their_number(min as nat);
    assert(full.skip(prefix.len() as int) =~= rest);
    assert(prefix =~= full.subrange(0, prefix.len() as int));
    assert(full[0] == prefix[0]);
    assert("trigram"@[0] != prefix[0]);
    assert forall|i: int| 0 <= i < a.len() implies #[trigger] rest[i] != '-' by {
        assert(rest[i] == a[i]);
    }
    lemma_first_place(rest, '-', a.len() as int);
    assert(rest.take(a.len() as int) =~= a);
    assert(rest.skip(a.len() as int + 1) =~= b);
}

proof fn lemma_first_place(s: Seq<char>, c: char, n: int)
    requires
        0 <= n <= s.len(),
        forall|i: int| 0 <= i < n ==> #[trigger] s[i] != c,
        n < s.len() ==> s[n] == c,
    ensures
        cli::first_place(s, c) == n,
    decreases s.len(),
{
    if n > 0 {
        let t = s.drop_first();
        assert(s[0] != c);
        assert forall|i: int| 0 <= i < n - 1 implies #[trigger] t[i] != c by {
            assert(t[i] == s[i + 1]);
        }
        lemma_first_place(t, c, n - 1);
    }
}

/// Behind the prefix, an id is cut at its first dash into the two lengths; one
/// without a dash, or with a length that is no number, names no extractor.
pub proof fn lengths_stand_around_the_first_dash(a: Seq<char>, b: Seq<char>)
    requires
        !a.contains('-'),
    ensures
        cli::extractor_named("sparse-crc32-"@ + a) is None,
        ({
            let id = "sparse-crc32-"@ + a + seq!['-'] + b;
            match (cli::number_of(a), cli::number_of(b)) {
                (Some(min), Some(max)) => cli::extractor_named(id) == Some(
                    Extractor::Sparse { min, max },
                ),
                _ => cli::extractor_named(id) is None,
            }
        }),
{
    reveal_strlit("trigram");
    reveal_strlit("sparse-crc32-");
    let prefix = "sparse-crc32-"@;
    let short = prefix + a;
    let full = prefix + a + seq!['-'] + b;
    let rest = a + seq!['-'] + b;
    assert(short.skip(prefix.len() as int) =~= a);
    assert(short[0] == prefix[0]);
    assert("trigram"@[0] != prefix[0]);
    lemma_first_place(a, '-', a.len() as int);
    assert(full.skip(prefix.len() as int) =~= rest);
    assert(prefix =~= full.subrange(0, prefix.len() as int));
    assert(full[0] == prefix[0]);
    assert forall|i: int| 0 <= i < a.len() implies #[trigger] rest[i] != '-' by {
        assert(rest[i] == a[i]);
        assert(a.contains(a[i]));
    }
    lemma_first_place(rest, '-', a.len() as int);
    assert(rest.take(a.len() as int) =~= a);
    assert(rest.skip(a.len() as int + 1) =~= b);
}

/// The error of an unsupported extractor names it.
pub proof fn unsupported_extractors_are_named(q: Seq<char>)
    ensures
        cli::unsupported(q) == "index built with unsupported extractor "@ + q
            + "; re-run `gitpixel index`"@,
{
}

} // verus!
