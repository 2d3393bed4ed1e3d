# cpp-navigator

A navigator for C++ code bases: find the definitions, declarations and references of
a symbol, as JSON records, as a bundle to paste, as text, or in an interactive tree.

The library under `src/` is verified with Verus. It works on files held in memory and
on plain values; the program under `app/` walks directories, reads and writes, talks
to the terminal and to libclang, and hands over what it has read.

## Layout

| Path | What it holds |
|------|---------------|
| `src/text.rs`, `src/ascii.rs`, `src/names.rs`, `src/paths.rs`, `src/order.rs` | Text, bytes, sets of names, paths by components, stable ordering |
| `src/sources.rs`, `src/search.rs` | Files in memory; the candidate finder and macro discovery |
| `src/engine/` | Macro blanking, syntax trees, what nodes declare, the syntactic and the semantic backend |
| `src/commands.rs`, `src/cli.rs` | The degradation ladder and whole runs |
| `src/output.rs`, `src/human.rs`, `src/budget.rs` | Records, optional fields, framing, text for a terminal, token budgets |
| `src/interactive/` | Hits, the tree, folding, the browser, editors and IDEs |
| `tests/` | Tests against the real parser and searcher |
| `app/` | The program |

## What is proved

Every function of the library has a contract over mathematical values. Public proof
functions state what holds across functions, among them:

- every resolution carries, byte for byte, what its span covers in its file, and the
  function or class found for an offset lies around it;
- blanking macros keeps length, newlines and every byte that is no identifier;
- a qualified target matches whole components only, and its references leave out hits
  that belong to another scope;
- what the engine resolves depends on which files the candidates are in, and on nothing
  else of them;
- a search keeps to its cap, its extensions and its preference for headers;
- the rung of the ladder follows from what was found;
- a token budget only selects: payload text is never edited, and a record is dropped only
  where shortening arrays cannot make room for it;
- opening and closing folders in place gives the rows of a full build, whatever keys
  are pressed; jump numbers are sequential and row identifiers unique;
- a wholly open tree shows every line once, the lines of a file in source order.

What the library takes on trust are small wrappers around calls into `tree-sitter`,
`grep`, `regex` and `std`. Each says in its doc comment what it claims.
