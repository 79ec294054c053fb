# bitborrower

A minimal BitTorrent client (BEP 3), verified with Verus.

- `src/` is the verified library: peer wire messages and their framing
  (`message`), the handshake (`peer`), the work queue (`queue`), torrent
  metadata and its info hash (`torrent`), and the decisions of a download
  worker (`download`).
- `app/` is the command-line program: argument parsing, reading and
  bencoding .torrent files, and the TCP/file I/O that drives a worker.
- `tests/` exercises the library on concrete values.
