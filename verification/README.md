# flw

`flw` follows the commands a coding agent runs and explains each one with
explainshell, in a side pane of tmux.

The library under `src/` holds the logic, proved with Verus:

- `text`: character-level text operations (search, trim, replace, lines,
  numbers) with their specifications.
- `explainshell`: reading explainshell pages (tags, entities, the command
  and its help boxes), URL encoding and the JSON text the list pane writes.
- `pane`: the explanation pane's reading of that JSON text.
- `highlight`, `readback`, `exchange`: the proof that the explanation pane
  reads back what the list pane wrote.
- `display`: cleaning and laying out explanations, highlighting the source
  of a match, and unwrapping the commands agents wrap.
- `tui`: the command list's state, its key handling and screens.
- `watch`: the decisions of the two panes' loops (what the list shows for
  the selected command, when each pane redraws, when the explanation pane
  gives up on its file).
- `tidy`: the proof that stripping a page's text a second time changes
  nothing.
- `launch`: shell quoting, the shell wrappers, tmux commands and scripts,
  explainshell addresses, and reading what tmux prints.

`app/` is the program around it: the terminal, files, processes and the
network.
