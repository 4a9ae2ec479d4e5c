# node

A peer-to-peer node in which every node connects to every other node and,
every few seconds, sends each of them a short text message. Works on 64-bit
machines with IPv4.

The library (`src/`) is verified with Verus. It holds:

- `message`: the wire formats. Text messages are framed by their length as
  eight native-endian bytes; address messages are a mode byte followed by an
  `ip:port` text that must match an IPv4 socket pattern.
- `node`: the node's state (`NodeBuilder`, `Node`) and the decisions it takes
  while peers connect: refusing to join itself, answering a newcomer with the
  addresses it knows, and recording the addresses a peer shares.
- `connections`: the table of known sockets, without duplicates.
- `text`, `byte_order`: decoding, trimming and number rendering, and the
  native byte order of the length prefix.
- `errors`: `NodeError`.

The program (`app/`) parses the command line, sets up logging, and runs the
sockets, timers and tasks, handing every read to the library:

    node --period=5 --port=8080 --level=info
    node --period=10 --port=8081 --connect=127.0.0.1:8080 --level=info
