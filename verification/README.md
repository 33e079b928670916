# rsorder

Reorders the top-level items of a Rust source file so that every definition
comes before its uses. Items that depend on each other in a cycle are kept
together between `// mutual start` and `// mutual end` lines. `// TO REORDER`
... `// TO REORDER END` regions restrict the reordering to the items inside
them, each region with its own ordering options. A `check` mode lists the
dependencies that are used before they are declared.

The library is written in Verus: every function in `src/` carries a
contract, and Verus proves the code against it, with two exceptions whose
contracts are trusted: `syntax::parse_spans`, the call into `syn` that
parses the text and reports each item's byte span, and `text::string_of`,
which collects characters into a `String`.

## Layout

| path              | what it holds                                                        |
|-------------------|----------------------------------------------------------------------|
| `src/syntax.rs`   | parsing the text with `syn`: the items' spans, sorted by start, joined with their reported shapes and references |
| `src/analyze.rs`  | cutting the text into a `FileModel`: preamble, items with their comments and dependency edges, regions, postamble |
| `src/model.rs`    | item kinds, their labels, and the classification of item shapes     |
| `src/graph.rs`    | reachability and the strongly connected components of a dependency graph |
| `src/order.rs`    | ordering one scope: dependencies first, mutual groups contiguous, ties broken by the options |
| `src/lib.rs`      | `reorder` and `check`: whole-file and scoped mode, the new text and the `Plan` |
| `src/render.rs`   | Mermaid graphs and the HTML movement diagram of a `Plan`             |
| `src/mermaid.rs`  | Mermaid graphs and the diff table of a `FileModel` under an `ItemOrder` |
| `src/rewrite.rs`  | the text of a `FileModel` under an `ItemOrder`                        |
| `src/text.rs`     | character-sequence helpers: trimming, splitting, joining, replacing, decimals |
| `src/settle.rs`   | ordering has one result (whatever the order members are listed in) and settles: items renumbered in the order found are ordered in place |
| `src/laws.rs`     | properties that span several functions, stated and proved            |
| `src/region_laws.rs` | the mutual groups of scoped mode: the cycles within each region     |
| `src/demo.rs`     | the small program used by the examples                               |
| `app/`            | the command-line tool: argument handling, file I/O, and the extraction of items with `syn` |
| `tests/`          | end-to-end cases through `syn`, and tests of the parts on hand-made inputs |

The parser itself is `syn`. The library calls it for the items' spans;
`app/extract.rs` walks the same parsed items (an impl of `syn`'s `Visit`
trait) and reports each one's shape and referenced names as plain values
(`ItemInfo`). Everything after that is in the verified library.
