# jj-yield

A terminal UI for comparing the sides of multi-sided Jujutsu conflicts and
picking one side per conflict region. Each side is shown as a full snapshot,
labelled by its change id and description, diffed against the merge base and
syntax-highlighted.

## Layout

- `src/` — the library, verified with Verus:
  - `parser`, `conflict` — the snapshot marker grammar, the parsed file, its
    columns, and rendering with or without resolutions (an unresolved render
    gives back the input exactly);
  - `app` — the review screen as a state machine over key presses; work that
    needs the outside world comes back as an `Action`, and its outcome is fed
    in again;
  - `jj` — what the output of `jj root`, `jj resolve --list` and
    `jj file show` means;
  - `diff`, `highlight`, `view` — the side-versus-base diff (`similar`),
    syntax highlighting (tree-sitter) and the styled runs the panes show;
  - `editor` — choosing the editor and quoting the path for the shell;
  - `text` — the meaning of splitting, trimming and number parsing on
    character sequences, and executable versions proved against it.
- `app/` — the program: runs `jj`, the terminal (ratatui/crossterm), the
  event loop and the editor.
- `tests/` — tests of the library.

## Keybindings

| Key | Action |
| --- | --- |
| `j` / `k`, `↑` / `↓` | scroll content |
| `Ctrl-d` / `Ctrl-u` | half-page scroll |
| `gg` / `G` | top / bottom |
| `h` / `l`, `Tab` / `Shift-Tab` | focus previous / next side |
| `n` / `N` | next / previous conflict region |
| `]` / `[` (or `J` / `K`) | next / previous file |
| `⏎` | pick the focused side for this region |
| `1`–`9` | pick a side by number |
| `u` | un-resolve the current region |
| `w` | write resolution(s) to disk |
| `p` | preview the resulting file |
| `e` | open the file in `$EDITOR` |
| `r` | refresh from jj |
| `?` | toggle help |
| `q` / `Esc` / `Ctrl-c` | quit |
