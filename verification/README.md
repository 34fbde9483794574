# server

A signalling server for conferences, with its logic verified by Verus. Peers connect over
WebSockets, register with `Hello <id>`, meet in rooms (`ROOM_CMD_CREATE <room>`,
`ROOM_CMD_JOIN <room>`), ask who is there (`ROOM_PEER_LIST`) and write to one another
(`ROOM_PEER_MSG <id> <body>`). For every room that is created the media server, which registers
as 999, is asked for an alias: a peer whose id is that of the room. When nobody but the alias
remains, the room ends.

- `src/` is the library. `server` holds the server, `model` what its contracts speak of,
  `protocol` and `text` the messages, `connection` what becomes of the events of a connection,
  `link` and `message` the calls into `futures`, `tokio` and `tungstenite`, `laws` what holds of
  the whole.
- `tests/` runs the library with the real channels and tasks.
- `app/` is the program: sockets, tasks and the lock around the server.

The methods that work on a server ask that everybody a request takes is connected;
`can_handle_message`, `can_serve` and `can_remove_peer` say whether that is so.
