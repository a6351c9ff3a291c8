# BlazeNet

BlazeNet distributes games to internet cafes. A producer cuts the files of a
game into chunks and publishes manifests, an origin keeps the chunks, a
scheduler hands out tasks, and agents in data centres and cafes fetch what
they lack from each other.

- `src/` is the library: every decision, data structure and file format, with
  contracts that Verus proves. Calls into blake3, fastcdc, iroh, rand_chacha,
  redb, serde_json and tonic stand behind small functions whose contracts are
  taken on trust; each says in its doc comment what it claims.
  - `common/` what all roles share: hexadecimal and decimal texts, byte order,
    sorting, hashing, tables, update plans, keep-alive packets
  - `producer/` chunking, manifests, differences between versions, uploads
  - `origin/` the chunk store and the upload service
  - `agent/` downloading, merging files, serving chunks
  - `scheduler/` records, tasks, the admin interface, probing of nodes
  - `poc`, `bench` trial programs
- `tests/` runs the library on concrete values, with the outside crates linked.
- `app/` is the programs around it: files, sockets, databases, HTTP.

A law that relates several functions is a public proof function beside them,
for instance `decode_of_encode` in `producer/manifest.rs` or
`compact_keeps_live_chunks` in `origin/storage.rs`.
