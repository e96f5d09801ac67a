# clrs

The rules of clrs, a territory game in which players colour the tiles of a
square map with buildings (pulsers, scatters and lines) and abilities (nukes,
fortifies and expands), written in Verus with their contracts proved.

## Layout

- `src/` the verified library:
  - `color`, `grid`: tile colours and their strengths, positions, the map;
  - `pathfinding`, `objects`, `tile_lists`: what a building or ability
    reaches, and the index from tiles to the objects that reach them;
  - `conflicts`, `resolve`: colour requests, guaranteed conflicts, and how a
    tile's requests decide what becomes of it;
  - `buildings`, `abilities`: what each building and ability asks for when it
    acts, and the rules for placing an ability;
  - `points`, `end_game`: building and ability points, and who has won;
  - `actions`, `ai`: the requests of the human player and the decisions of
    the computer players;
  - `settings`, `flow`, `draw`: game settings, the game's states and restart,
    and what the screen shows of the game;
  - `game`: a running game and the order in which a simulation step applies
    the rules above, to the buildings and to the abilities on the map;
  - `random`: the random draws, taken from the `rand` crate.
- `tests/` tests of the library.
- `app/` a text front end that runs a game and prints it, and the
  serialisable copies of the saved component types.
