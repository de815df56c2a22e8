# resims

A small city: agents with decaying needs, goals that advertise relief, jobs,
homes, zoned buildings, roads and walls. The library is headless and verified
with Verus; a window around it draws the city and takes the player's orders.

- `src/scalar` — single-precision numbers as bit patterns. Every operation is
  specified by what the exact result rounds to, so a city computes the same
  bits everywhere.
- `src/sim` — the city: agents, goals, buildings, the routing grid, rooms,
  routes, snapshots, and the systems of one tick (`src/sim/systems`). What
  holds of the city as a whole stands in `src/sim/laws`.
- `src/scene` — the city as triangles: shapes, near-plane clipping, painter's
  order.
- `src/viewport.rs` — canvas gestures.
- `src/ui` — what the player sees and does, apart from drawing it.
- `app` — window, sound, files, and the floating-point work at the edges
  (camera, wall crossings, personality draws).
