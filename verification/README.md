# commedit

An editor for the commits of a git repository. It shows the history of one or
more branches as a list with its ancestry graph, and lets you rewrite it in place:
the message, the author and the committer of a commit, the content of its diff,
the order of commits; squash, split, revert, drop and restore them; and resolve
the conflicts that a rewrite leads to.

## Layout

- `src/` is the library: everything that the editor decides and computes, written
  in Verus and proved against the contracts of its functions.
  - Texts and lists: `text`, `white`, `numbers`, `unicode`, `order`, `paths`,
    `indices`.
  - What the history engine hands over: `model`.
  - The diff: `linenums`, `diff_cues`, `split_laws`, `gutter`, `blame_col`,
    `highlight`, `ink`, `buffer_util`, `file_edits`, `keys`.
  - The history list: `display`, `rows`, `search`, `msglint`, `selection`.
  - Drags and drops: `dnd`, `dragdrop`, `hover`, `lanebranch`, `trash`.
  - Conflicts: `conflict`, `conflict_mode`.
  - The session: `state`, `saving`, `session`, `identity`, `spelling`,
    `window_state`, `fontsize`.
- `tests/` runs the library on concrete values.
- `app/` is the window: GTK widgets, the files that settings are kept in, and the
  calls into the history engine. It hands the library plain values and carries out
  what the library answers.

## What is believed without proof

The colours of code come from syntect, through the wrappers of `ink`. The classes
of characters and their case come from the standard library, through the wrappers
of `unicode`; `text` appends a character to a string with it. Each of these items
says in its comment what it claims of the function that it calls.
