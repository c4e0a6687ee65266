# bitturbulence

A verified library for BitTurbulence, a peer-to-peer file transfer protocol
in the spirit of BitTorrent: flows of files cut into pieces of 16 KiB
blocks, Merkle verification of blocks, pieces and files, rarest-first block
scheduling over several streams per peer, a tracker and a Kademlia DHT.

The library in `src/` is written in Verus; every function states its
behaviour in `requires` / `ensures` and Verus proves it. The laws of the
library (what a read gives back of a write, what one call undoes, what every
operation keeps) are public proof functions next to the code they speak of.

- `protocol/` — piece sizing, metadata and info hashes, priorities,
  authentication payloads, frame codec, bitmaps.
- `pieces/` — Merkle hashing, the piece picker, the block scheduler and the
  saved record of verified pieces.
- `peer/` — what a peer announced, pending requests, the hello exchange,
  and one step of a session: a message in, the new state and the action.
- `tracker/` — the tracker's peer table and how it answers messages.
- `dht/` — node identifiers and distances, the routing table, tokens, the
  value store and how a node answers messages.
- `client/` — the client's state file, IPC answers, flows at start,
  scheduling across files, download links, data streams (the blocks a
  filler serves and the requests cancelled meanwhile), announces and flow
  creation.

Calls into outside code go through small trusted wrappers whose contracts
say what that code documents:

- `sha2` (SHA-256 of a byte string, `crypto.rs`), `hex` (encoding and
  decoding, `hexstr.rs`), `rand` (shuffling the trackers of a tier, random
  node identifiers and tokens), `serde_json` (reading and writing the saved
  verified pieces, `pieces/have.rs`);
- from std: `SystemTime::now`, `SystemTime::duration_since` and
  `Duration::as_secs` (`clock.rs`), `String::from_utf8`
  (`protocol/auth.rs`) and the `{:?}` text of a character
  (`tracker/server.rs`).

`app/` is the `submarine` command-line program around the library: argument
parsing, files, the IPC socket, and the tracker's SQLite database.
`tests/` holds the tests, run against the compiled library.
