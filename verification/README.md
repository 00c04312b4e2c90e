# jif

A library for parsing, dumping and manipulating JIF (Junction Image Format) files, with its
behaviour stated in `requires` / `ensures` contracts and proved by Verus.

A JIF is a snapshot of an address space: a list of virtual memory areas (pheaders), each with an
interval tree that says which pages hold private data, which are zero, and which come from a
reference file; an ordering section that lists the pages in the order they are first touched; and
a data section.

## Layout

- `src/`: the verified library.
  - `utils`, `text`: byte and text helpers (alignment, little-endian reads and writes, integer
    parsing).
  - `itree/`: intervals, interval tree nodes, the interval tree (building, lookup, counting) and
    the construction of trees from page data or from a diff against a reference file.
  - `deduper`: storage of data segments, each held once.
  - `pheader`, `ord`, `prefetch`, `jif`: the materialized and raw models of a JIF.
  - `read`, `write`: parsing and writing the binary format; `layout` lays a materialized JIF out
    as a raw one, and `dump` writes a materialized JIF.
  - `fragment`, `fracture`: splitting areas by data source, and splitting intervals by the
    ordering section.
  - `tracer`, `tsa`: timestamped access logs and the ordering chunks built from them.
  - `selectors`, `query`: the query language over JIFs and what it selects.
  - `digest`: digests of the pages of JIFs, to compare them (SHA-256 comes from `sha2`).
- `tests/`: tests of the library.
- `app/`: command line tools around the library (`read`, `modify`, `compare`, `time`, `trace`):
  file I/O, argument parsing, printing and plotting.
