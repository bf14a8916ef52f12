# game_cluster

The verified core of a distributed game server made of a registry center,
game servers (one master, any number of slaves) and clients.

- `src/` is the library, proved with Verus:
  - `decimal`: decimal text of integers and its parsing, with their round trip;
  - `map_tool`: map tags, their text form (with its round trip), the quadrant
    rule, and the maps a rectangle or a whole world covers;
  - `node`, `message`, `config`: nodes, their load, the messages and the
    float-free configuration;
  - `table`: a table keyed by text, viewed as a map;
  - `registry`, `registry_laws`: the registry center's registration, load
    reports, heartbeat expiry, master election and load balancing, and what
    holds of them across calls;
  - `server`, `server_laws`: a server's role, client sessions, heartbeats,
    routing and its reading of the registry center's messages;
  - `outside`: the wall clock and the id generator.
- `app/` holds the programs (`server <config.toml>`, `registry`, `client`):
  sockets, http, serialization, and the world of float positions.
- `tests/` runs the library on concrete values.
