# nextup

A task list kept as a binary heap, so that the most urgent task is always on
top: adding, completing, deferring or deleting a task starts a short ranking
session in which the user compares the task with its neighbours in the heap.

`src/` is the library, written in Verus and proved:

- `range` — spans of a text buffer and the free list that reuses them
  (best-fit allocation, coalescing release), with the laws that the free
  offsets grow and shrink by exactly what is handed back and out.
- `strings` — the UTF-8 text buffer that stores the tasks: what `add` stores,
  `get` reads back, and nothing else in the buffer changes.
- `list` — the heap of tasks, the ranking cursor and the iterator, with the
  law that a ranking session answered by a consistent preference leaves the
  heap in order, so that the task next up is the most urgent, after at most
  one question per level of the heap.
- `config`, `datasource` — which store holds the list, parsed from a TOML
  configuration.
- `secret` — the `{{ name }}` placeholders of a connection string.
- `error` — the library's errors.

`app/` is the command-line program around it: argument parsing, files, the
PostgreSQL store, the keyring and the terminal dialogs.
