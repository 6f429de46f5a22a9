# moba_lobby

The lobby and game-session logic of a small MOBA, written in Verus: every
function in `src/` carries a contract, and Verus proves that the code meets it.

## Layout

- `src/` — the verified library.
  - `ids`, `champions`, `protocol`: identifiers, champion and map
    definitions, and the messages between clients, the lobby server and game
    servers.
  - `teams`, `lobby`, `names`: the teams of a lobby (joining, leaving,
    moving, trading places, readjusting to new settings) and the naming of
    players.
  - `server`: the lobby server as a state machine: each message is one step
    from a state to the next state and the effects (messages to send, a game
    server to start). `invariants` and `membership` hold what every step
    keeps: lobbies led by their players, names and ports in use once, and
    players' current lobbies in agreement with the lobbies' teams.
  - `options`: the server's options, port ranges and their parsing.
  - `address`: whether a player's address is IPv4 and whether it is local.
  - `client`: what the game client does with the server's messages, and its
    copy of the lobby.
  - `text_edit`, `scripts`, `effects`, `states`, `vision`, `game_server`: the game
    client's text fields, the scheduler of the registration scripts, the
    effects on units and commands deferred until their unit exists, the
    states of a unit, which units are shown, and what a game server decides
    for each player.
- `tests/` — tests of the library, run against the compiled crate.
- `app/` — the lobby server's executable: command line and configuration,
  WebTransport connections, JSON messages, and game server processes. It
  hands each event to the library and performs the effects that come back.
