# rect_packing

Two-dimensional rectangle bin packing: rectangles of integer sides are placed,
possibly turned by 90 degrees, into square boxes of a fixed side so that each
lies inside its box and no two overlap, using as few boxes as possible.

The library (`src/`) is written in Verus and verified:

- `rectangle`, `bin`, `instance`, `evaluator`: the data, the placement
  checks of a box, and the score (boxes used, then wasted area).
- `skyline`, `rect_order`, `greedy`: the skyline packer, stable sorting and
  the greedy strategies; a greedy run places every rectangle that fits an
  empty box exactly once, inside its box and without overlap.
- `framework`, `generic_greedy`, `generic_local_search`, `packing_problem`,
  `algorithm`: the generic optimisation framework.
- `local_search`, `local_search_geometry`, `local_search_overlap`: local
  search over rectangle orders, over single moves in a packing, and with
  overlap tolerated for a while; each keeps the rectangles placed and only
  ever records strictly better packings.
- `generator`, `random`: random instances, and the calls into `rand`.
- `gui`: the state of the viewer and its decisions (snapshots kept, tracked
  rectangles, changes between snapshots, colours).

`app/` holds the program: the benchmarks (timing and averages), the
annealing schedule of the overlap search (floating point) and the egui
viewer. `tests/` exercises the library.
