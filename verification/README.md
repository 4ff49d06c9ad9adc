# deordinal

Finds ordering labels (`1.`, `(a)`, `①`, `Step 1:`, `フェーズ1`) at the start of
prose in Markdown, in HTML comments and in code comments (JavaScript,
TypeScript, JSX/TSX, Python), and removes them where that is safe.

## Layout

- `src/` is the library, verified with Verus:
  - `rules.rs`: the label grammar and the check of one line of prose;
  - `markdown.rs`, `html.rs`, `code.rs`: where prose is found in each kind of
    file, ignore directives in Markdown, and the structure that fixes keep;
  - `fix.rs`: which removals are applied, and the laws of fixing;
  - `report.rs`, `order.rs`, `config.rs`, `paths.rs`: reports and the order
    of errors, configuration and paths;
  - `text.rs`, `syntax.rs`, `sorting.rs`, `diagnostic.rs`: supporting pieces.
- `app/` is the command-line program: argument handling, file discovery,
  reading and writing files, and printing.
- `tests/` runs the library on concrete inputs.

Markdown is parsed with pulldown-cmark, code and HTML with tree-sitter, and
configuration globs are matched with globset; the library states what it
assumes of each of these calls next to the call.
