# gitpixel

Fast, always-fresh code retrieval. The library holds the logic, verified with
[Verus](https://github.com/verus-lang/verus); `app/` is the program around it.

## The library (`src/`)

- **Shards** (`shard_format`, `shard_builder`, `shard`, `varint`, `bytes`): the
  binary index file, written and read back. `shard_laws` proves that reading
  gives back what was written.
- **The layered index** (`ingest`, `posting`, `overlay`, `indexset`, `delta`): a
  base pinned to a commit, a delta for later commits, an overlay for the dirty
  working tree. `ingest_laws` proves which files a shard lists, `indexset_laws`
  that no indexed file is missed and that a stale entry never counts,
  `reopen_laws` that opening again on a root that was left alone changes nothing.
- **The code graph** (`resolve`, `graph_build`, `graph_json`): tiered call
  resolution, whole builds and single-file updates. `resolve_laws` proves that
  an ambiguous name never becomes an edge and that a recorded call links again.
- **Recall** (`words`, `finder`, `ask`): the words of a question, the two
  rankings of turns, and the session groups of the answer.
- **Serving** (`api`, `daemon`, `cli`, `json`): requests and responses, the
  decisions of the daemon's loop, and what the commands print.
- **Foundations** (`text`, `text_set`, `order`, `seqs`, `hash`).

Functions that call into other crates or into parts of the standard library
without a specification are marked `#[verifier::external_body]`; the comment
above each says what is claimed of the call.

## The program (`app/`)

Files, SQLite, `git`, the Unix socket, the file watcher and the command line.
Parsers for source languages, embeddings, sparse grams and the graph analyses
behind `impact`, `trace`, `processes`, `clusters` and `changes` are not built in.
