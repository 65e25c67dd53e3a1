# striped_maps

Hash tables and request handlers for a key-value benchmark server.

- `src/` is the verified library:
  - `buckets`, `hashmap`, `hashmaps::striped`: striped hash tables of tagged
    buckets (removal leaves a dead slot); the second one doubles its buckets
    when a bucket fills.
  - `striped_hash_table`: a table whose lock stripes and data buckets are kept
    apart.
  - `adapters`: one map interface over a standard hash map, a vector of them,
    `dashmap` and `leapfrog`.
  - `collections::striped`: the growing table as a benchmark collection.
  - `protocol`, `text`, `text_protocol`, `sharded_map_handler`: the binary,
    line and JSON request protocols, as functions from a command to a reply.
  - `server`: options and the session handshake.
  - `laws`: properties that relate the table operations.
- `app/` is the server program: sockets, threads, locks, JSON and CSV, and
  the `bustle` benchmark glue.
- `tests/` runs the library on concrete values.
