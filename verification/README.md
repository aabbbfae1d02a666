# scorpio

The verified core of a small websocket chat server.

Clients connect to the server, start conversations with other connected
clients (`--connect`, then a line of addresses), list the conversations they
belong to (`--list`), pick the one to talk in (`--switch`, then its
identifier), show what the server knows of them (`--current`), and chat: a line
that is no command goes to the other members of the client's conversation, or
comes back as an echo when the client talks in none.

Layout:

- `src/` — the library, verified with Verus.
  - `addr.rs`: peer addresses.
  - `text.rs`: trimming, splitting on spaces and reading decimal identifiers.
  - `peers.rs`: the map from addresses to clients.
  - `server.rs`: clients, conversations and the server's bookkeeping and its invariant.
  - `protocol.rs`: the connection modes, the commands, the replies, and the
    step function that handles one message (`Server::handle_message`), with its
    specification `step`.
  - `laws.rs`: properties that span several messages.
  - `state.rs`: the client program's state.
- `tests/` — tests of the library.
- `app/` — the server and client programs: sockets, tasks, channels, and the
  text of the replies.
