# robot_reboot

A solver for the sliding-robot puzzle of robotreboot.com: four robots on a
16 x 16 board slide until a wall, the edge or another robot stops them, and
the robot of the goal's colour has to reach the goal.

The library (`src/`) is verified with Verus:

- `pieces`: colours, directions, cells and their names.
- `quarters`: the quarter boards and how a quarter is turned into place.
- `config`: the challenge description; reading the board choice, assembling
  the tiles and walls of the five boards.
- `state`, `board`: how a robot slides, what a move and a sequence of moves do.
- `compressed`, `bitset`: the nine-byte packing of a search state and the
  flag array over all 2^32 configurations.
- `search`: breadth-first search, proved to return a shortest solution (of
  those, the first in the order in which moves are tried), and to return
  none only when no solution exists.
- `submission`, `schedule`: the answer sent back, and how long to wait for
  the next challenge.

`app/` fetches challenges over HTTP, parses and writes JSON, sleeps, and
posts the answers.

Robot positions are kept in arrays indexed by colour (`[Position; 4]`) rather
than in an `enum_map::EnumMap<Color, Position>`: `EnumMap` needs its key type
to implement `enum_map::Enum`, which only that crate's derive macro or an impl
of the outside trait can provide, and Verus refuses to take the `EnumMap` type
in (its key trait carries a generic associated type). Holding the map in a
struct hidden from Verus does not help either: the key trait still has to be
implemented for `Color` in the library, and Verus stops on that impl (the
compiler panics on the trait's generic associated type). The `enum-map`
dependency is therefore unused.
