# bittorrent

A BitTorrent client library and a small git object store, written in Verus. The
library's behaviour is stated in `requires`/`ensures` contracts over mathematical
models and proved.

Layout:

- `src/` — the verified library
  - `bencode` — decoding bencoded text into JSON-like values
  - `digits` — integer parsing and decimal formatting with `str::parse` rules
  - `torrent` — metainfo, piece hashes, total length, info hash
  - `tracker` — announce request, announce URL, compact peer lists
  - `handshake`, `message`, `peer` — the peer wire protocol: handshake, framing
    (on `bytes::BytesMut`), block requests
  - `piece` — the decisions of downloading one piece from a peer, as a state machine
  - `download` — cutting downloaded bytes into files
  - `git` — loose objects (`<kind> <size>\0<content>` under zlib), blob hashing, tree
    entries and `ls-tree` lines
  - `fileutils` — the decisions of a copy tool and umask formatting
  - `primitives` — SHA-1 (`sha1`), hexadecimal (`hex`), zlib (`flate2`) and UTF-8
    checks, the calls into other crates
- `app/` — the command-line tools (`bittorrent`, `git`, `copy`, `open_ex`,
  `show_umask`): argument parsing, files, network, async I/O and serde
- `tests/` — tests of the library on concrete values
