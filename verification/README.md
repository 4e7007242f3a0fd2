# revius

Revius (`rvs`) is a small version control system that keeps a whole
repository in one SQLite file. File contents are cut into chunks with
FastCDC, each chunk is stored once under its BLAKE3 hash and compressed
with zstd, and trees and commits are hashed from canonical byte encodings.

The crate is in two parts:

- `src/` is the verified library, checked with Verus: object encodings,
  tree building, history walks and the graph view, merge-base search and
  three-way merge planning, status, switch/reset/restore planning, refs,
  branch rules, configuration and the storage of chunks and blobs. Each
  public function states its result in its contract; the `law_*` proof
  functions state properties that span several functions.
- `app/` is the command-line program around it: argument parsing, the
  database, the working directory and the printing.

`tests/` holds the tests of the library.
