# logviewer

A viewer for large log files in the terminal: it reads a file piece by piece,
keeps a sparse index of its lines, searches it, and shows matches in panes of
their own.

The library under `src/` is written in Rust with Verus. What it does is stated in
`requires` and `ensures` clauses and proved; `app/` is the program around it, which
reads keys, files and the clock and draws on the terminal.

| Modules | What they hold |
|---|---|
| `file`, `lines`, `index`, `encoding`, `view` | bytes, rows and the scrolling window of a file |
| `text`, `styled` | columns, wrapping, styled spans |
| `search`, `reports`, `history`, `config`, `keymap`, `bindings`, `theme` | patterns, keywords, settings |
| `layout`, `panes`, `modes` | the split tree, what panes hold, what is typed |
| `app`, `arrange`, `jumps`, `moves`, `commands`, `keys` | the state of the program and what each key does to it |
| `fit`, `body`, `panels`, `screen` | what is drawn, and where |

Proof functions whose names begin with `law_` state what holds of several
functions together: that closing a pane undoes making it, that wrapping loses no
character, that a file that grows is seen as it is, and so on.

The library asks for work outside itself (a search, a file to write, the
clipboard) by `app::Effect` values, and reads the file through a function from
`file::DiskRequest` to `file::DiskReply`.
