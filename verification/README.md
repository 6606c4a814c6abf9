# kitchensync

Serverless file synchronisation. A directory keeps a store file,
`.kitchensync`, listing each file with its SHA-1 and modification time;
`update` refreshes the store from the disk, and `sync` compares the local
store with the store at a target (a directory or an S3 bucket) and copies,
touches or removes files so that one side matches the other.

Each line of the store file reads `sha timestamp name`: the SHA-1 in
lower-case hex, the modification time in whole seconds since the epoch as a
signed 64-bit decimal (`i64`, the type that updating and syncing carry, so
times before the epoch are kept too), and the path.

Layout:

- `src/` — the library, verified with Verus:
  - `store.rs`: the store as a map from paths to items kept in path order
    (names with the same components are one key, as with `std::path::Path`), its
    file format (`parse`, `write`) and the law that reading back a written
    store gives its seen entries;
  - `update.rs`: matching the files on disk with the store and building the
    updated store, with laws on what an update records;
  - `sync.rs`: the actions that make a destination like a source, with the
    law that performing them does so;
  - `commands.rs`: the decisions of the `sync` command between its I/O steps;
  - `remote.rs`: reading a target location (via the `url` crate), and the
    prefix and object keys of an S3 target;
  - `digest.rs`: SHA-1 in hex (via the `sha1` crate);
  - `sort_helper.rs`: ordering runs of status lines in a transcript;
  - `path_order.rs`, `decimal.rs`, `text.rs`, `config.rs`, `logging.rs`:
    path components and their order, timestamps as text, line splitting,
    configuration, log text.
- `app/` — the command: arguments, the file system, S3, concurrency, output.
  Run under the name `sort_helper`, the binary orders status lines from
  standard input.
- `tests/` — tests of the library.
