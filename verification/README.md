# loom

A layout engine for documents written in Yarn, a plain-text format close to
Markdown, with its core written and proved in Verus.

## Layout

- `src/` — the verified library:
  - `grammar.rs`, `parser.rs`, `source.rs`: the Yarn format as mathematical
    functions, the parser proved to follow them, and `parse` for a whole
    source (every source parses; what is left unread is handed back).
  - `document.rs`: the document graph, held by index: scopes and the
    lookup of names (the innermost scope wins), the commands `use`,
    `load`, `symbol` and `group`, the modules they want from files, parameter definitions, the node of each child of
    a source, placeholders, the steps by which each node is set, and the
    ways of setting a word where a hyphenator allows it to be split.
  - `chars.rs`: the character classes of the format (ASCII tables, Unicode
    categories and brackets beyond).
  - `stream.rs`: the stream of entries that paragraphs are laid out from,
    what a path through its branches reads, and how alternatives are joined
    into branches, with proofs that no alternative is lost.
  - `layout.rs`: glue between atoms and its laws, anchor counters,
    surfaces, and the token stream.
  - `html.rs`: styles and markup of the HTML output, escaped words.
  - `book.rs`, `nodes.rs`, `number.rs`, `raster.rs`, `platform.rs`: page
    metrics, tokens, super- and subscript digits, pixels, the platform.
- `app/` — the program around it: reading files, `.config` and the styles
  file (JSON), finding the modules a source wants (`name.yarn` in the
  working directory, then in `$LOOM_DATA`, for `use`; in the yarn
  directory of `.config` for `load`) and building again with them,
  writing HTML, following the steps of the nodes from node to node, and the
  parts that compute in floating point (space scales,
  line and column breaking).
- `tests/` — tests of the library.

Run `loom <source.yarn> [html.style]` to write `source.html`.
