# caro

The game logic of a two-player five-in-a-row server, verified with Verus.

- `src/board.rs`: empty boards, five-in-a-row detection, full boards.
- `src/game.rs`: what joining, moving, restarting, disconnecting and the end
  of a grace period do to a room, with the laws they keep.
- `src/store.rs`: new rooms, marks, host succession, pair keys, new users,
  and the collection of open rooms.
- `src/sockets.rs`: the registry of connected sockets and the socket events.
- `src/history.rs`: head-to-head records: writes, aliases, queries, sums.
- `src/config.rs`, `src/text.rs`: settings and the text handling they need.
- `src/keyed.rs`: vectors with distinct keys read as maps and sets.
- `app/`: the HTTP and Socket.IO server, SQLite access and JSON, around the
  library.
