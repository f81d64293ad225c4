# mira_core

The storage engine of a small OpenTelemetry database, as a verified library.

Logs and metrics come in as OTLP requests and go out as blocks: immutable
directories of Arrow tables whose names carry their time range, their writer and
their sequence. Searches, correlation frames, service maps and entity listings
are computed from the tables of the blocks that can matter.

`src/` is the engine, verified with Verus. Every function says what it returns
in terms of plain sequences and maps, and the promises that span several
functions are public proof functions whose names start with `law_`.

| | |
|---|---|
| `text`, `order`, `sort`, `tally`, `path`, `index`, `float`, `json`, `textlaws` | numbers and text, orders, and the JSON writer |
| `wire`, `proto`, `otlp`, `identity` | OTLP values, their wire format, and the identity of a resource |
| `table`, `columns`, `schema`, `attrs`, `interning`, `logs`, `points`, `metrics`, `sizing`, `signal` | tables, and what accumulates into them |
| `headroom`, `pointlaws`, `readback` | what holds of what has accumulated, and of reading it back |
| `block`, `publish`, `sweep`, `offload`, `guard`, `format`, `checksum`, `bloom`, `attrindex` | names, plans and files of blocks |
| `query`, `probe`, `filter`, `attrfilter`, `scan`, `opening`, `select`, `source`, `search`, `emit`, `paging`, `pagelaws` | searches |
| `frame`, `servicemap`, `facets`, `framelaws`, `anchorlaws` | frames, maps and listings |
| `diag` | the probes of the export path |

`app/` is ordinary Rust around it: directories and files, mappings, Arrow's own
reader and writer, mounts, threads and clocks.

`tests/` runs the library.
