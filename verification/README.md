# litegraft

Branch, snapshot and diff SQLite database files, without a SQL engine.

A database is hashed page by page into a content-addressed store that lies next to it in
`<db>.litegraft/`. A snapshot stores only the pages that the store does not hold; a branch is
a named pointer to a snapshot; a checkout gives back the same bytes; a diff names the tables
and indexes that own the differing pages. While a journal or a write-ahead log beside the
database says that it is incomplete, it is neither read nor replaced.

## Layout

- `src/` is the library, verified with Verus. It works on plain values: the bytes of a
  database, the files of a store by name, the words of a command line. Every command is a
  function of these, and its contract says what it changes and what it prints.
- `app/` is the program around it: it reads and writes files, prints, and measures time.
- `tests/` holds the tests; they see the library from outside.

## What is proved

Each function's contract fixes its result, errors and their messages among them. Beyond the
single functions these hold:

- A b-tree walk returns exactly the pages that are reachable from the root and the pages on
  their overflow chains, each once; what it accepts is a tree (`btree::reach`). It reads no
  page twice, on damaged files neither (`btree::walk`).
- Attribution gives every page of a database exactly one owner, and leaves a page to nobody
  only where nothing claims it (`btree::owners`).
- Varints, messages, manifests, HEAD, branches and objects read back as they were written
  (`record`, `roundtrip`, `store_laws`).
- Taking the same snapshot twice changes nothing; restoring a snapshot gives back the file it
  was taken of, also where objects were missing or damaged before it was taken; a snapshot
  reads like that file (`snapshot_laws`). SHA-256 is implemented here and proved against its
  definition; that two pages with one hash are one page is a condition of these laws.
- A diff is empty exactly where two states are equal, mirrors when they are swapped, and its
  rows add up to the pages that differ (`diff`, `commands::laws`).
- Several spellings of a path are one branch, and writing one branch touches no other (`paths`,
  `store_laws`).
- A JSON string literal decodes to the text that it was made of (`render`).
- While the files beside a database say that it is incomplete, no command reads or replaces
  it, with or without `--force`; `--allow-wal` overrides this for a write-ahead log, nothing
  does for a journal (`commands::laws`).
- `gc` takes nothing from any snapshot and is idempotent; `verify` passes exactly on sound
  stores; a checkout leaves a clean working file (`commands::laws`).

Five functions of the standard library are taken at their word: `String::push`,
`String::push_str`, `std::str::from_utf8`, `String::from_utf8_lossy` and the `{:?}` form of a
string.
