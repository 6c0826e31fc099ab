# leandown

leandown publishes literate Lean 4 files as a static website. A page is a
Lean source with a `-- leandown` marker, an optional `-- [meta]` section of
TOML comment lines (`title`, `group`), and `-- [content]`, after which
comment lines are prose (Markdown with KaTeX math) and the other lines are
code. Prose placeholders such as `{{theorem}}` become numbered labels
(`Theorem 1`) with anchors; the declaration in the next code block becomes a
cross-reference target that backticked names and `[ref: Theorem 1]` link to.
Only files that `lake build` accepts without warnings are published.

## Layout

- `src/` — the library, verified with Verus:
  - `text.rs`: character-level text operations (trimming, lines, words,
    joining paths).
  - `parse.rs`: reading a source into a `Page` of prose, code and hidden
    blocks.
  - `xref.rs`: tag numbering, cross-reference tables, backlinks.
  - `graph.rs`: the dependency-first order of pages and their groups.
  - `markup.rs`: title case, prose line breaks, reference links, code
    listings.
  - `render.rs`: the HTML of pages, the sidebar and the index.
  - `site.rs`: the whole site from the validated pages.
  - `serve.rs`, `validate.rs`: the decisions of the development server and
    of validation with `lake build`.
  - `maps.rs`: small maps keyed by text or block index.
  - `outside.rs`: the calls into the standard library and outside crates
    (`html-escape`, `indexmap`, `regex-syntax`) with their trusted
    contracts.
- `app/` — the command-line program: file system, processes, TOML, the file
  watcher and the HTTP server.
- `tests/` — tests of the library.

Paths are Unix paths: the contracts on joining, stripping and comparing
paths, and on file extensions, state what the standard library does with
`/`-separated paths.
