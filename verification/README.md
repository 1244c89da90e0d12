# spin_geospatial

A geohash-indexed spatial store for venues and their departments, with device
check-ins that raise enter, exit (after three readings outside) and department-change
events.

- `src/` is the verified library:
  - `geohash`: the geohash grid as integer cells, encoding and decoding of geohash
    text, neighbors, cell sizes (in millimetres);
  - `index`: what painting an object writes to the spatial index (native and upward
    keys) and which keys point and area queries read, and how their answers merge;
  - `refs`: the key schema and the JSON lists of object references held by a cell;
  - `events`: device state, event detection, ISO timestamps and dwell times;
  - `api`: query strings, slugs, department search, zone and content helpers;
  - `kv`: addresses and answers of the HTTP key-value store;
  - `text`, `models`: string helpers and the plain response types.
- `app/` is the Spin HTTP component around it: routing, the key-value store, JSON, and
  the floating-point geometry (coordinates to cells, distances, circle sweeps).
- `tests/` runs the library on concrete values.
