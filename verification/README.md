# telemetry-ingest

Sensor readings in over HTTP, stored in Postgres, with a hot cache of each
sensor's latest readings. What the service decides is a library whose contracts
Verus proves; the program around it does the I/O.

## Layout

- `src/readings.rs`: sensor ids, readings and batches, and what is refused.
- `src/buffer.rs`: the readings of one sensor, ordered by time and bounded.
- `src/residency.rs`: which sensors the cache holds, as a mathematical map, and
  the laws that every insertion keeps.
- `src/cache.rs`: the cache itself, with its timestamp index and its figures.
- `src/config.rs`: the configuration read from the environment.
- `src/api.rs`: what each request is answered.
- `src/db.rs`, `src/startup.rs`: rows, retries, retention and cache warm-up.
- `src/telemetry.rs`: collector endpoints and route names.
- `src/text.rs`, `src/timestamp.rs`: text, points in time and measured values.
- `app/`: sockets, SQL, exporters, JSON and the environment.
- `tests/`: the library on concrete values.

## Residency

The cache holds at most 131,072 readings over at most 2,048 sensors. For a
per-sensor limit `P`, held to 1..131072, the sensor limit is
`min(2048, floor(131072 / P))`.

At capacity a new sensor replaces the resident whose newest reading is oldest,
and only with a reading that is strictly newer. Ties keep incumbents, and reads
do not refresh residency. Eviction removes the whole buffer of a sensor and its
accounting. Older history cannot displace newer live readings, whichever order
they arrive in.

A batch reaches the cache only after it was persisted. A warm-up that fails
leaves nothing behind but the sensors that were written to meanwhile.
