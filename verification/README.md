# bittorrent-client

A small BitTorrent client: it makes torrent files, seeds a file to whoever
connects, and leeches a file from a list of peers.

The library under `src/` holds everything that can be computed without a socket
or a file, with contracts that Verus proves:

- `bencode`, `decimal`, `ascii`: the bencode format, both ways.
- `torrent`: torrent files, parsed and created; `digest`: SHA-1.
- `peer`, `wire`: handshakes and messages, both ways.
- `network`: from bytes that were read to handshakes and messages.
- `download`: the leeching side of a connection as a state machine, which
  assembles and verifies pieces.
- `seed`: the seeding side of a connection.
- `orchestrate`: peer ids, piece lengths, which peer is asked for which piece.
- `text`: text for people to read.

The modules whose names end in `_laws` state what holds of several functions
together, for instance that decoding undoes encoding, that a message that was
written is read back, and that the blocks of an honest peer make up the content
in whatever order they come.

What is taken on trust is marked `external_body`: the SHA-1 digest of the `sha1`
crate, and a few functions and types of the standard library. Each says what is
claimed of it.

`app/` is the program around the library: the command line, TCP with tokio, and
files.
