# rzip

A small archive browser. The library (`src/`) holds its logic, verified
with Verus:

- `paths`: the components of a `/`-separated path, the file it names, its
  stem and extension.
- `model`: the abstract directory tree of a listing, what filing a file
  into it does, and the laws of filing (every filed file is found again,
  one file per member, no repeated directory names).
- `tree`: the directory type and its operations.
- `zipfile`: the zip crate's reader and writer over archives held in
  memory, with what the library relies on of them.
- `internal`, `rzip`: listings of zip and rar archives built from their
  members, in archive order, zip archives read from their bytes, and new
  zip archives written in memory from the files given.
- `gui`, `cli`, `events`: the decisions of the window and of the
  command-line mode.

`app/` is the program around it: the window, the dialogs, reading files
from disk and writing the archives the library builds back to it, and
extracting archives.
