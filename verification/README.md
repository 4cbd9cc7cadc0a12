# rewo_world

Screen models and game-side logic of the Rewo client, written in Verus and
proved against their contracts.

- `src/` is the verified library: the recipe book and its overlay, the
  craftability matcher (`stacked_contents`), text wrapping
  (`string_splitter`), command suggestions, the sign editor, the statistics
  screen and its lists, the screen framework's focus and key handling, the
  `java.util.Random` generator and one round of its bounded draw, and the
  integer geometry of scrolling lists. Every function states what it returns
  over mathematical models (`Seq`, `Map`, `Multiset`, spec functions), and
  the laws that relate functions stand as public proof functions.
- `app/` holds what the library cannot: floating-point geometry (particle
  motion, ray casts, rotations, pointer hit tests, sign board placement, the
  fractional scroll amount), and the loop that repeats `next_int_round` until
  a round answers. Player physics, riding and the pause and server-links
  layouts are not here: they stand on parts of the game client that this
  project does not have.
- `tests/` runs the library on concrete values.
