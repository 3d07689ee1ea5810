# mesh_localization

Verified core of a swarm-localisation system for ESP32 nodes. Each node
measures the signal strength of its neighbours, shares what it measured,
builds the matrix of estimated distances, recovers a 2-D layout of the swarm
with iterative multidimensional scaling in I16F16 fixed point, and routes over
the measured links with Dijkstra. A 2-D Kabsch alignment (`kabsch::align`)
is provided for bringing a new layout onto an earlier one.

Layout:

- `src/` — the library, verified with Verus:
  - `fixed_point`: I16F16 arithmetic on raw bits (through the `fixed` crate), integer and fixed-point square roots;
  - `mds`, `kabsch`: layout recovery and alignment (`atan2`, `sin_cos` from the `cordic` crate);
  - `assoc`, `mac`, `node_state`, `topology`: per-node measurement tables keyed by MAC, topology-control messages;
  - `dijkstra`, `routing`: shortest paths over measured distances and RSSI, estimated distances to nodes out of range;
  - `packet`, `telemetry`, `metrics`, `tasks`: received frames, the telemetry request, timing figures, the decisions of the node's tasks;
  - `screen`, `ui`: what the node's OLED and the monitoring UI show.
- `tests/` — tests run against the compiled library.
- `app/` — unverified glue: postcard wire formats, the `f32` RSSI filter,
  OLED drawing (ssd1306 + mousefood), the MQTT terminal UI (rumqttc +
  ratatui) and the Prometheus metrics server (actix-web).

Collections. The measurement and topology tables are association lists of
`Vec`s keyed by MAC (`assoc`, `node_state::Neighbours`,
`topology::Topology`) rather than `hashbrown` maps: declaring
`hashbrown::HashMap` to Verus is refused, because its allocator parameter is
bounded by a trait of `allocator_api2`, a crate this project does not depend
on; and the tables' contracts rely on a fixed entry order, which a map with a
per-process hash seed does not give. Capacity-bounded `heapless` vectors are
std `Vec`s whose bounds (`MAX_SWARM_SIZE` nodes, 256-byte frames) are stated
in `requires`.
