# dhaar-torrent

A BitTorrent client whose core is a library verified with Verus: every
decision the client makes about bytes, pieces and peers is a function with a
contract, and the contracts are proved.

## Layout

- `src/` — the verified library.
  - `bencode` — the bencode grammar: reading, writing, and the proofs that
    writing what was read gives back the same bytes and reading what was
    written gives back the same value.
  - `metadata` — `.torrent` files: the `info` dictionary, tracker tiers, and the
    info hash taken over the `info` bytes exactly as the file writes them.
  - `wire_protocol`, `codec`, `messages`, `session` — the peer wire protocol:
    bitfields, message framing, the handshake.
  - `piece_manager`, `requests` — which piece goes to which peer, and how one
    connection asks for, assembles and verifies its pieces.
  - `store` — the geometry of the partial-download store and the rules for
    resuming it.
  - `tracker`, `swarm`, `peer`, `peer_manager` — announces, tracker responses,
    and choosing whom to dial.
  - `status`, `config`, `helpers` — counters, settings, hex and URL encoding.
  - `client` — the list of downloads a front end keeps: no torrent twice, and
    the window title.
- `app/` — the command-line client: tokio actors, sockets, files, HTTP.
- `tests/` — tests of the library.

## Usage

```sh
dhaar-torrent <torrent_file> [-c <config file>] [-l <listening port>]
```
