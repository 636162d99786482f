# gcast

A media-casting server's logic as a verified library: fuzzy and regex-based
searching of file names, the scanned file cache and its directory tree, the
automatic choice of subtitle and audio tracks, and the decisions of the
server's state machines (front jobs, player events, file search, cache
refresh, background programs). Every function under `src/` carries a contract
that Verus proves.

Layout:

- `src/fuzzy/`: incremental longest-common-subsequence matching, its
  backtracking paths and the fuzzy search built on it.
- `src/searcher/`: compiling search terms to regular expressions, running them
  over candidates, ranking and highlighting the hits.
- `src/server/`: the server's data (cache, tree, tracks, configuration) and the
  decision functions of its event loops.
- `src/text.rs`, `src/order.rs`: characters, strings, ordering and sorting.
- `src/ansistring.rs`, `src/net.rs`, `src/lcs.rs`: terminal colouring, frame
  headers and a stand-alone matcher.
- `tests/`: tests run against the compiled library.
- `app/`: a command-line search over standard input (`main.rs`), and
  `settings.rs`, which reads the server's TOML configuration file into the
  library's `Config`; the search command itself needs no configuration and does
  not call it.
