# ruvector

A vector index, a vector database on top of it, and the write rules of a graph store,
verified with Verus.

## Layout

- `src/` is the library.
  - `index` holds the vector index: a graph of near neighbours that is searched with a
    beam. `index_model` says what insertion and removal make of an index, `beam` what a
    search visits and finds, and `index_laws` what follows for every index.
  - `vector_db` holds the database. Its storage is read and written by the caller: each
    operation takes what the storage said, and a search says step by step what to read
    next. `search` holds the rules of filtered search, `search_laws` what follows from
    them.
  - `graph_storage` holds the write rules of the graph store: each operation takes what a
    transaction read and gives what it is to write. `tables` says what writes make of the
    tables, `graph_laws` what follows for every store. `path_rules` decides which paths
    a store may be opened at, and `decimal` reads and writes counters.
  - `ranking`, `sorting`, `text`, `lists`, `metadata`, `distance`, `types` and `error` are
    shared by these.
- `tests/` runs the library, on database files where it is about storage.
- `app/` puts the library on top of database files, locks and floating-point vectors.

## Distances

The library orders distances and does not compute them. A distance is an `i32`: the place
of a single-precision number in the order of all such numbers. The function that measures
distances is handed to the index when it is made, and must depend on the components of the
two vectors and the metric alone.

## What is not proved

One function is trusted: the one that reads the clock for the time stamp of an entry.
Nothing is claimed of its result.
