# call_hierarchy

The logic of a call hierarchy panel, verified with Verus: the tree of callers or
callees of a symbol, the rows that the tree shows, and the steps by which it is
loaded and browsed.

- `symbol`: symbols, calls and the keys that identify a symbol.
- `tree`: the call tree and the paths into it.
- `paths`: sets and maps keyed by a path or a symbol.
- `rows`: flattening the expanded part of the tree into rows.
- `width`: which row is the widest.
- `model`: the panel as a value, and what each event makes of it.
- `panel`: the panel, and the requests that it makes of the program around it.
- `display`, `dock`: what the panel shows, and where it stands.
- `visible`, `fetches`, `laws`: what holds of the rows, of the fetches and of the
  panel as a whole.

`app/` puts the panel into the editor's window.
