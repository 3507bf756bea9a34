# dress

A Markdown pager for the terminal, written in Verus: the library renders
Markdown into styled lines and drives the pager (scrolling, search with
highlighting, line jumps, status bar). Every function of it is verified
against its contract, except the small trusted wrappers around comrak,
syntect, two-face, unicode-width and two std string functions, whose
contracts are stated and not proved.

## Layout

- `src/style.rs` — colors, modifiers, styles, spans and lines.
- `src/text.rs` — character-level helpers (search, trimming, decimal numbers),
  and the trusted calls into `str::to_lowercase`, `String::push` and
  `unicode-width`.
- `src/markdown.rs` — parsing with comrak, which hands its document over in
  its XML form (a trusted call).
- `src/tree.rs`, `src/xml.rs` — the document tree and the verified reader of
  the XML form (comrak writes a code block's info string unescaped, and the
  reader takes it whole, but for `math" math_style="display`, which comrak
  writes exactly as it writes the info string `math`), with the proof that it
  reads back what that form writes.
- `src/highlight.rs` — syntax highlighting of code blocks with syntect and
  two-face (trusted calls) and the verified post-processing.
- `src/render.rs` — rendering of blocks, lists, inline text, tables, alerts
  and code blocks into lines.
- `src/app.rs` — the pager's state machine: keys, scrolling, search,
  highlighting of matches, the status bar and the visible lines.
- `src/laws.rs` — properties proved over every state and input: the pager's
  invariant, keys that undo each other, typed searches and line jumps,
  search highlighting, aligned table columns and closed code-block frames.
- `app/main.rs` — the command: arguments, reading the file, the terminal and
  the event loop (ratatui/crossterm).
