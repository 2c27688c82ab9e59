# terminus

Planning logic for a polar access constellation, verified with Verus.

`src/` is the verified library:

- `activation`, `greedy`, `cover_bound`, `exact_cover`, `order`, `tally`:
  which satellites to light. The greedy planner is specified as a function of
  the band (the pick it makes, where lighting stops, what pruning switches
  off); the lower bound and the exact search are proved against every plan
  that serves the band, and the exact search is specified node by node, so a
  budget finishes exactly when it covers the nodes the search visits.
- `schedule`, `switching`: smoothing a run of plans into a flyable timetable,
  and the proof that smoothing never adds a switch.
- `topology`, `window_pool`, `distinct`: how many optical terminals each
  backbone topology costs.
- `routing`: necklace hops and anchor-migration paths.
- `constellation`, `placement`: the phase generator's integer recurrence and
  the KV-cache arithmetic in whole numbers.
- `udp`: IPv4/UDP framing through etherparse, with the decision on top of the
  decoder verified.

`app/` holds the floating-point orbital geometry, link budgets and timing
models that use the library, and `tests/` exercises the library from outside.
