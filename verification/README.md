# velos

The verified core of the VELOS traffic microsimulation, written in Verus.

`src/` is the library; every function in it is verified against its
contract:

- `components`: agent components (vehicle types, routes, car-following
  models, the GPU agent state).
- `sorting`: a stable merge sort of item indices by integer keys.
- `compute`: lane ordering of agents for the wave-front dispatch.
- `partition`: BFS bisection, recursive k-way partitioning of the road
  network, edge assignment and boundary edges.
- `multi_gpu`: logical partitions with inbox/outbox staging and the
  scheduler that routes boundary agents between them.
- `od_matrix`: origin-destination trip volumes between zones.
- `bus_spawner`: time-gated bus spawn requests from trip schedules.
- `aggregator`: windowed detection counts per camera and vehicle class.
- `camera`: the camera registry's sequential ids and covered edges.
- `error`: detection API errors and their gRPC status mapping.
- `tiles`: map tile payloads, gzip-decoded when compressed.
- `perception`, `sim`, `view`: buffer sizing, run state and view modes.

`tests/` exercises the library; `app/` holds what stays outside Verus:
the error type with its `Display`, the conversion from a `petgraph` road
graph, the floating-point simulation clock of the bus spawner and the
floating-point speed averages beside the detection counts.
