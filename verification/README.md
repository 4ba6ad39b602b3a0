# chekov

The deterministic core of an event-sourcing framework, written in Verus and
proved against its contracts.

- `state`: keys, values, revisions, cells, mutations, read sets and
  transition batches.
- `journal`: a transactional overlay over a read-only state view, with
  nested checkpoints that commit into their parent or revert, and the batch
  it produces.
- `storage`: an in-memory store that validates a whole batch against its
  cells (compare-and-swap on revisions and values) and applies it, or
  changes nothing.
- `laws`: what a journal's batch does to a store that did or did not move
  since the journal read it.
- `event_store`: streams, expected versions, bus notifications and their
  text form, storage errors, the event trait.
- `aggregate`: which recorded events an aggregate instance applies, skips or
  rejects, and the version it reaches.
- `event_type`: the names under which the events of a type are recorded.
- `console`: what the console layer keeps of spans and waker events.
- `subscriber`: the subscribers of each stream, in subscription order.
- `registry`: the running instances of an aggregate type, by identity.
- `assoc`, `order`, `text`: association lists, byte-string order, text
  helpers.

`app/` holds the glue to `tracing` and `chrono` that cannot be verified:
visitors that collect span fields, and timestamp conversions.
