# rsedit_core

The core of a small Emacs-like editor, with its data structures and rules
proved correct.

## Layout

- `src/` — the library.
  - `buffer/` — the text of a buffer and what is kept beside it:
    - `gap_buffer.rs`, `buffer_trait.rs`, `lines.rs`: the gap buffer, the
      interface the editor asks of a text, and the line/column arithmetic;
    - `undo.rs`: the undo history, with undo and redo as the same inversion;
    - `overlay.rs`: faces put on spans of text that survive edits;
    - `scan.rs`, `syntax.rs`: the caches of scanning and colouring;
    - `mark.rs`: the mark and the region.
  - `gap_buffer.rs` — the first, simpler gap buffer and its interface.
  - `input.rs` — keys, keymaps and transient keymaps.
  - `isearch.rs` — the keys of an incremental search, where a match is
    shown and what asking for the next one does.
  - `scripts.rs` — which files a script name stands for, which entries of
    `lisp-path` name no directory, the program a script's text is evaluated
    as, and what running it gives back.
  - `echo.rs` — the echo message, when it stops being shown, and when the
    screen next wants drawing.
  - `editor.rs` — the session state that is plain data: whether the editor
    runs, the echo message, the backtrace of the last error, the log.
  - `mouse.rs` — what a mouse event means: the drag it starts, carries on or
    ends, and the command it runs.
  - `dispatch.rs` — resolving a key sequence, what the echo area says of it,
    how a command's binding is run, and the steps around running it.
  - `commands.rs` — prefix arguments and argument specs.
  - `kill_ring.rs` — the kill ring.
  - `lisp.rs` — the reader: the lexer and the parser of the editor's Lisp.
  - `evaluator.rs` — the evaluator: values, the environment of dynamically
    scoped frames, and evaluation, stated against the record of the calls it
    made of the host and what each answered.
  - `string_ops.rs` — small string helpers.
- `app/` — what runs around the library: reading numbers as floats, the
  per-thread command stamp undo groups by, the clock the echo area is timed
  by, and the command forms of mouse events.
- `tests/` — tests of the library.
