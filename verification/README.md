# gitview

The logic of a two-pane git viewer for the terminal, written in Verus: a list of
changed files on one side, a syntax-highlighted diff on the other, with staging,
history, review notes and an editor in the diff pane.

`src/` is the library. Every function in it is verified against its contract:

- `git`, `repo`: what git's output means, and the commands that are run.
- `textarea`, `annotate`, `width`, `style`, `text`, `path`: text, its width on a
  terminal, and the note input.
- `list/`: the file list: its tree and sections, keys, staging, what it draws,
  and its event loop without the waiting.
- `preview/`: the diff document, highlighting, word emphasis, note cards, the
  pane's state, and its event loop.
- `config`, `keymap`, `input`, `ipc`: settings, keys and messages.
- `json`, `orchestrate`, `popup`, `herdr_cli`, `nvim`, `hostenv`, `layout`: the
  host that the panes run in, and the editor's remote control.

What holds of the library as a whole stands as proof functions named `law_*`.
What comes from other crates (`similar`, `syntect`, `two-face`, `unicode-width`,
`serde_json`) is called through small functions whose contracts say what is
relied on.

`app/` is the program around it: terminal, processes, sockets and threads. It
carries out what the library decides and hands the outcome back.

`tests/` runs the library.
