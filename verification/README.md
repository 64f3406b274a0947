# torrex

A BitTorrent client library, verified with Verus, and the HTTP API that runs
it.

- `src/` is the library: bencode decoding, torrent metainfo, tracker
  requests and answers, the peer wire protocol (handshakes, messages,
  bitfields), putting pieces together from blocks and checking them, dealing
  pieces out among peers, the download state machine, magnet links and the
  metadata extension. Verus proves every function against its contract
  (the constructors of the two field-less decoder types need none); the
  laws that span several functions are public proof functions next to them
  (for instance `lemma_request_roundtrip`, `lemma_arrival_order_irrelevant`,
  `lemma_extended_handshake_roundtrip`).
  Calls into `sha1`, `serde_bencode`, `urlencoding`, `hex` and `rand` go through
  small wrappers whose contracts state what those crates do.
- `app/` is the server around it: files, sockets, the tracker over HTTP,
  tasks and channels. It reads and writes, and it drives the loops and
  timeouts; the decisions taken on what it reads (how a message decodes,
  when the exchange with a peer ends, when a piece is complete and counts
  as downloaded, which peer gets which piece, what a pause or stop does)
  come from the library.
- `tests/` runs the library on concrete inputs.
