# BasaltDB

An educational relational database engine, written in Verus: the storage
engine and the SQL front-end are verified against their contracts.

## Layout

- `src/storage/`: fixed-size pages, the slotted-page layout, the bookkeeping of
  heap files, the row encoding and the system catalog (`_tables` / `_columns`).
  Each page format is stated byte by byte as spec functions; the laws (a row
  read back is the row written, an insert appends exactly one record, a created
  table is read back from the catalog rows, ...) are proof functions.
- `src/parser/`: the tokenizer, the grammar of the SQL subset as spec functions
  over the tokens, a recursive-descent parser proved to compute it, and the
  mapping of failures to `Error::Syntax` with line and column.
- `src/error.rs`, `src/text.rs`: the error type and its messages.
- `app/`: the command-line prompt and the file-backed heap files and catalog,
  which do the file I/O around the library: they read and write the pages
  that the library's step functions (`first_placement`, `next_placement`,
  `append_page_rows`) ask for.
- `tests/`: tests of the parser and of the storage engine.
