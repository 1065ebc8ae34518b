# cid

The part of `cid` that decides: what a run of project steps looks like on a
terminal, what `cid project` does with a directory, and what a key does to a
one-line prompt. Every function of the library states what it returns, and
Verus proves it.

- `src/project/report.rs`: the plan as a tree that is redrawn while it runs, a
  coloured prefix per step when output streams, and the summary.
- `src/project.rs`, `src/project/scan.rs`: steps, plans, and what is in a
  project's directory.
- `src/cmd/project.rs`: what to run and what to say for `cid project deps` and
  `cid project build`, and how a run is reported while it happens.
- `src/cmd/lines.rs`: the lines of a command's output, in whatever pieces it
  arrives.
- `src/prompt.rs`: the line being typed, and the frame that shows it.
- `src/text.rs`, `src/utf8.rs`, `src/width.rs`, `src/escapes.rs`, `src/term.rs`,
  `src/duration.rs`: text, terminal cells, escape sequences, styles and lengths
  of time.

`app/` owns the terminal, the directory and the processes.

What is believed without proof is marked `external_body` or written as an
`assume_specification`, each with a comment that says what of whom:
`unicode-width`'s widths, and a few functions of the standard library.
