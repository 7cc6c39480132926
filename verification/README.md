# sjovt

The logic of a small top-down shooter built on bevy, as a Verus-verified
library (`src/`) with the game itself (`app/`) around it.

* `navigation` – a tile grid with per-tile costs. `generate_heatmap` runs a
  breadth-first search from an affector tile (over a `queues::Queue` and a
  `bit_vec::BitVec`), `generate_vectorfield` stores on every tile the step
  of steepest descent.
* `search` – the search stated step by step over sequences, and the facts
  every step keeps (sizes, no overflow, termination).
* `search_laws` – what the finished search guarantees: the affector has heat
  zero, every tile is reached, each tile is reached from a neighbour one step
  closer, uniform costs give distance times cost, and following the
  direction field from any tile reaches the affector.
* `blood` – the blood canvas: splashes into the alpha channel, the red fill.
* `combat` – health and projectile hits.
* `weapon` – weapon pickup and firing decisions.
* `timing` – cool-downs on a nanosecond clock.
* `containers` – the trusted declarations of `queues::Queue` and
  `bit_vec::BitVec`.

`app/` holds the bevy plugins and systems: rendering, input, physics,
floating-point motion, and the conversions between bevy's entities, instants
and positions and the library's plain values.
