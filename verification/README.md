# tidyrs

A local-first file organizer. It scans a directory tree, finds duplicate files and
directories, lets the user choose what to do about each group in a terminal UI, carries out
the resulting plan, and can undo it.

- `src/` is the library, written and verified in Verus.
  - `paths`, `order`, `sorting`, `text`, `calendar`: paths by components, orders, a stable
    sort with grouping, numbers and dates as text.
  - `hashing`: BLAKE3 digests of contents that arrive in pieces.
  - `walker`, `cache`: which files a walk keeps, and the keys under which digests are cached.
  - `dedup`, `dirs`, `dirdup`, `report`: duplicate files, the sizes and digests of directories,
    duplicate directories, and the groups shown.
  - `plan`, `actions`, `filesystem`: plans, their execution and undo as decisions between
    requests to the file system, and what both do to a model of it.
  - `ui`, `screen`: the state behind the terminal UI, what keys make of it, and what is drawn.
- `app/` is the command: arguments, the file system, the trash, the cache database, JSON files
  and the terminal.
- `tests/` runs the library.
