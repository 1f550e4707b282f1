# cliboard

A live math whiteboard for the terminal. Commands such as
`cliboard step "Title" "\latex"` append markdown and LaTeX to a board file
(`.cb.md`); a small local server renders the board with KaTeX and the
browser polls it for changes. Viewers can select equations (their LaTeX is
turned into Unicode for the terminal) and ask questions on a step, which
are answered with `cliboard reply`.

## Layout

- `src/` is the library, verified with Verus:
  - `text.rs`: character-level text operations (trim, split, join, find,
    replace, lines, lower case) with their specifications.
  - `unicode.rs`: LaTeX to Unicode: symbol table, fractions, roots,
    accents, scripts, matrices, cleanup.
  - `document.rs`: the board's model (title, theme, steps, prose,
    dividers) and the selection.
  - `parser.rs`: front matter, and the state machine that turns markdown
    events into blocks; `parse` is proved to number its steps `1..n` in
    order, one for each `##` heading among pulldown-cmark's events (whose
    start and end events pulldown-cmark documents as balanced).
  - `render.rs`: HTML of equations, blocks, pages and chat replies, with
    escaping and equation numbering.
  - `export.rs`: the self-contained export page.
  - `server.rs`: routing, version polling, selections and the text copied
    to the terminal.
  - `session.rs`: chat messages and which are pending, slugs, the header of
    a new board.
  - `cli.rs`: the commands and what each appends to the board.
- `app/` is the command-line program around the library: argument parsing,
  files, the HTTP server, the file watcher and the browser.
- `tests/` exercises the library, with KaTeX and pulldown-cmark linked.

Markdown tokenizing (pulldown-cmark) and math rendering (KaTeX) are outside
crates; the library calls them through a few trusted wrappers whose
results are named, and proves everything built on top of them.
