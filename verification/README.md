# fsrng

A route randomiser for games: given a game's objectives, the flags and
preferences the player selected and a seed, it draws an order in which to
complete every objective. Objectives whose flag checks fail are left out; an
objective is only drawn once its unlock condition holds; among the open
objectives, each is drawn with the weight that the player's preferences give it.

Layout:

- `src/` — the library, verified with Verus:
  - `data/models.rs`: the data types, and `Weighting`, a map from preference id to weight;
  - `data.rs`: where game data lives and where routes are written;
  - `conditions.rs`: flag checks, unlock conditions, open and remaining objectives;
  - `weights.rs`: objective weights and the weighted pick of a roll;
  - `generation.rs`: drawing a whole route with a seeded generator, a ChaCha8
    stream given by its seed and by how many of its words are used up, so that
    a seed always draws the same route;
  - `route_laws.rs`: what every drawn route satisfies;
  - `selection.rs`, `interface.rs`: what the player's answers select.
- `app/` — the command-line program: prompts, JSON files, the clock.
- `tests/` — tests of the library.
