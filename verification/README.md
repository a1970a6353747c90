# umpire

The rules and state of a turn-based game of conquest on a grid map, verified with Verus.
Players own cities that produce units; units move, carry one another and fight; each player
sees the map through its own record of observations, limited by fog of war if it is on.

## Layout

- `src/util.rs`: locations, dimensions, directions, wrapping.
- `src/cli.rs`: the small language in which players and AIs are specified on the command line.
- `src/colors.rs`: the roles a color plays on the screen.
- `src/game/`: the game itself.
  - `unit.rs`, `city.rs`, `tile.rs`, `terrain.rs`, `alignment.rs`, `orders.rs`:
    the pieces on the map.
  - `combat.rs`: fights, decided round by round by a fair coin.
  - `grid.rs`, `map.rs`, `map_index.rs`: the map, with its well-formedness invariant
    (unit IDs unique, carried units where their carriers are, counts that agree with the tiles).
  - `map_text.rs`: maps written as text.
  - `obs.rs`: observations and each player's record of them.
  - `move_.rs`: the record of a unit's move.
  - `paths.rs`: shortest paths over what a player has observed, the paths they give, and the
    steps a unit could take.
  - `engine.rs`: the game: players and their secrets, turns and phases, production, observation,
    and moving units along shortest paths, boarding, fighting and taking cities on the way.
  - `features.rs`: what an AI is shown of the game, as counts and flags.
  - `action.rs`, `ai.rs`, `player.rs`: player actions, the reduced actions an AI chooses among,
    AI and player specifications.
- `tests/`: tests run against the compiled library.
- `app/`: the game server's command line, which sets up a game from its arguments.

The outside crates the library calls, `regex` (reading AI specifications), `uuid` (player
secrets) and `rand` (the coin that decides each round of a fight), are reached through a few
trusted functions whose contracts say what those crates document.
