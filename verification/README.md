# AtlasWiki

AtlasWiki indexes a vault of linked Markdown notes: it parses the notes, keeps a
graph of them, finds broken links and typos, answers searches, and writes maps of
content into the vault.

The library under `src/` is written in Verus: what its functions return is stated in
`requires` and `ensures` clauses and proved. The program under `app/` is ordinary Rust
around it. It walks directories, talks to the database, the network and the terminal,
and does the arithmetic on floating-point numbers. It also runs the tokenizers that are not
of the plain kind the library takes.

## The library

| Modules | What they hold |
| --- | --- |
| `text`, `paths`, `sorting`, `wide` | Strings, paths, stable sorting and large numbers, with their models |
| `ast`, `fences`, `mask`, `matching`, `frontmatter`, `sections`, `links`, `parser` | From the text of a note to its sections, links, tags, attributes and chunks |
| `typo`, `diagnostics` | Link targets, broken links, suggestions |
| `digraph`, `wiring`, `routes`, `graph` | The graph of notes, shortest paths, orphans and wanted pages |
| `trails`, `steiner`, `rag_graph`, `graph_rag` | Paths and trees that connect notes, and what is told of them |
| `taxonomy`, `synthesis`, `moc` | Maps of content and the living index |
| `security`, `watcher` | Paths that stay within the vault, harmless markup, and what to do when files change |
| `lsp`, `editor`, `mcp`, `serve`, `commands` | What the servers and the command line decide |
| `retrieval`, `fusion`, `storage` | Queries, ranking, and the rows of the index |
| `beam`, `hnsw`, `recall` | Approximate nearest neighbours by integer distances |
| `rng`, `adjacency`, `walks`, `topology` | Random walks over the graph |
| `tokens`, `embedder` | Plain tokenizers, the tables of static embeddings, and the rows that a text is made of |

Public proof functions state what holds across functions, for instance that masking
keeps every byte in its place, that regenerating a map changes nothing else in a note,
or that a cleaned path never leaves the vault.

Calls into other crates stand in small functions marked `external_body`. The comment
above each of them says what is taken from that crate without proof.
