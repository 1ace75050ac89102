# boxrun

A manager of sandbox boxes for running commands: a server that creates,
starts, stops and removes boxes, runs commands in them and streams their
output, with a command line and a client library around it.

The logic lives in `src/` and is verified with Verus:

- `store`: boxes, executions and output events, with the store's queries
  (lookup by id or name, listings in their documented order, garbage
  collection of old boxes) and its refusals.
- `box_manager`: the lifecycle of boxes and executions and the accounting
  of the CPU and memory that running boxes hold against the host's limits;
  `accounting` proves that the totals always match the running boxes, that
  boxes are admitted only within the limits, and that refused requests
  change nothing.
- `events`: the publish/subscribe bus for execution events, with laws on
  delivery order and the end of a stream.
- `routes`, `cli`, `sdk`: the decisions of the HTTP handlers, the command
  line and the client (action paths, event replay, run output, volume
  specifications, the event-stream reader, answer checking).
- `models`, `config`, `error`: request validation, defaults, the image
  catalog, limits and error codes.

`app/` holds what talks to the outside world: the HTTP server (axum), the
SQLite file that keeps the store across restarts, the command line (clap)
and the HTTP client.
