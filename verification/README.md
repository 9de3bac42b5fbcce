# kvs

A single-threaded, persistent key/value store with a client and a server that
talk JSON over TCP. Two storage engines sit behind the `KvsEngine` trait: a
log-structured store of its own, and one backed by `sled`.

## Layout

- `src/` is the library, written and proved with Verus.
  - `engine/command.rs`: the commands of the log and their JSON records, printed
    and parsed byte by byte (strings are escaped by `serde_json`).
  - `engine/files.rs`: the names of the log files and the ids read from them.
  - `engine/kv.rs`: the in-memory side of the log-structured store: the index,
    the replay of the log files, appends, and the steps of a compaction, with a
    ghost model of the bytes of every file. Its laws say that replaying the
    files gives back what was written, that the index points at each key's
    value, that a compacted file replays to the same contents, and that after
    every completed operation (a compaction included, once its older files are
    dropped) reopening the store from its files reads back its contents.
  - `engine/sled.rs`: the `sled` engine.
  - `server.rs`, `request.rs`, `response.rs`, `errors.rs`: the choice of engine,
    how a request is answered, and the errors.
- `app/` is the program around it: command-line parsing, the TCP server and
  client, the JSON wire format, and the file I/O of the log-structured store.
  Run as `kvs-server` it serves; under any other name it is the client.
- `tests/` exercises the library.
