# Sana

Sana is a search database for vectors, text and attributes that keeps everything in
object storage: a write-ahead log per namespace, sorted string tables, vector and text
indexes, and small control files that are replaced by compare-and-set.

`src/` is the library, written in [Verus](https://github.com/verus-lang/verus). Every
function states what it returns or changes, and the verifier proves it. What holds
across functions is stated by the public proof functions whose names start with `law_`.

`app/` is ordinary Rust around it: the command line, the HTTP servers, the stores, and
the loops that carry out what the library decides.

## Layout

- `value`, `doc`, `attr`, `schema`: documents, their keys and attributes, and the
  columns they make up.
- `wal`, `frame`, `codec`, `checksum`, `sst`: what is stored, byte by byte.
- `documents`, `indexer`, `manifest`, `namespace`: what readers see, and how flushing
  and compacting keep it.
- `query`: filters, sorting, nearest vectors, aggregates and recall.
- `vector`, `rabitq`, `text`: the indexes. `arithmetic` says how they compute.
- `index_queue`, `queue_broker`, `maintenance`, `reader_lease`, `pinning`: who works
  on what, and for how long.
- `sorting`, `sorted`, `textmap`, `strings`, `seqs`: what the rest is built with.
  `error` says what can go wrong, and `phrase` puts its texts together.
- `object_store`, `cache_warm`, `backpressure`, `metrics`, `operations`, `metadata`,
  `api`, `cli`: the rest of the service.

## Numbers

The library holds floating-point numbers by their bits. It compares them itself; a
function that has to add or divide takes the single operations as an argument, and its
contract says which operations it carries out, on what and in which order.

## What is taken on trust

Calls into other crates and into parts of the standard library stand in small wrappers
marked `external_body`. The comment above each says what it claims.
