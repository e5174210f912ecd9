# inillucent_engine

The decisions of an embedded SQL engine, verified with Verus.

An engine keeps its tables and indexes in trees of pages, writes through a log
for each file, and commits over several files at once. This crate holds what such
an engine decides, as functions over plain values with contracts that Verus
proves: how an index is sorted, which columns a tree has, what a failed statement
takes back, when a plan is compiled again, which pages a sound file holds, and
how one deletion commits several files.

- `src/` is the library. Each module's documentation says what it decides; the
  crate's documentation lists them.
- `tests/` runs it.
- `app/` is a connection built over the library: it reads and writes files, and
  reaches pages, logs, trees, the planner and the modules through the traits in
  `app/services.rs`.

## What is proved

Every function's contract says what it returns for every input it takes. Beside
them stand laws over several functions, as public proof functions: an order of
entries is the only one there is, a record taken back leaves the tree as it was,
no file of a commit commits alone, a marker is read back as it was written, a page
of a sound file has one holder, a source is imported whole, every known pragma is
answered.

## What is trusted

`explain` calls `char::to_uppercase` and `char::to_lowercase`. Their results are
named, and said outright for ASCII. `text` calls `String::from_utf8_lossy`, whose
result is named, and said outright for what is UTF-8.

Binary64 numbers are carried as their bits beside their place among all numbers;
no arithmetic on them is done here.
