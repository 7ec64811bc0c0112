# shardworld

The core of a multiplayer game whose world is divided among servers, verified with
[Verus](https://github.com/verus-lang/verus), and the programs around it.

The world is a square. Where more than two players meet, the square they are in is divided into
four shards, each with a server of its own; where the players leave, shards are merged again.
Players cross the borders between shards without noticing more than a change of authority.

## The programs

| Program            | What it does                                                             |
|--------------------|--------------------------------------------------------------------------|
| `broker`           | passes every message on: to the clients that listen to a topic, to the servers in charge of it |
| `spatial_server`   | follows where the clients are, and decides when shards are divided or merged |
| `dedicated_server` | runs the players of its shards                                           |
| `orchestrator`     | starts and stops dedicated servers                                       |
| `gatekeeper`       | lets players in over HTTP                                                |
| `client`           | shows the game                                                           |
| `quic_server`      | a small game server that players connect to directly                     |
| `test_flow`        | runs the services together with three clients                            |

`app/` is one program for all of them. It takes the service from the name under which it is
called, or from its first argument. The client's window needs bevy's features `2d`
and `ui`, which `Cargo.toml` leaves out: add them to the line of `bevy` to build the client.

## The library

`src/` holds what the programs decide and compute. It does no input or output: it takes packets
and settings and returns packets and decisions.

- `wide`, `binary32`, `geometry`, `grid`: long whole numbers, single-precision numbers on the
  level of their bits, points and rectangles, and when quadrants tile a rectangle exactly
- `quadtree`, `spatial`, `spatial_server`: the division of the world
- `wire`, `topics`, `net`, `broker`: messages and their ways
- `dedicated_server`, `game_server`, `quic_server`, `client`: the players
- `orchestrator`, `gatekeeper`, `settings`, `text`, `ids`, `messages`, `sorted`: the rest

Every function has a contract over a mathematical model of its data. What holds of the services
as a whole is stated and proved in `quadtree_laws`, `spatial_laws`, `broker_laws` and
`system_laws`: that the shards always cover the world, that a client always has a shard, that
what a server publishes reaches exactly its listeners, that positions, requests, signals and
broadcasts mean to the service that gets them what they meant to the one that sent them.

Random identifiers come from the `uuid` and `rand` crates. `ids` states what is taken for granted
of them.

Coordinates are `Binary32`, whose operations give what those of the machine's `f32` give, down to
the bit pattern of every result that is a number; a result that is none is always the same NaN.
Whether a shard is near a position is decided exactly, without rounding: `wide` holds the squares
of the distances in full. The programs convert at their edges.
