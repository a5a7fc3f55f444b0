# keel

A data model description engine. Business code declares resources, their
fields and their relations as data (`spec`); the engine reads them as a plan
(`plan`), answers queries written as text (`query`), holds grants and the sudo
seal (`cap`), keeps the estate of schema generations (`estate`), and caches
answers (`face`).

The library under `src/` is written in Verus: every function carries a
contract and is verified. The pieces that must run outside it live in `app/`:
JSON for the HTTP face, the asynchronous traits a caller implements for its
store and cleanup hook, the delivery of retained cleanup events to that
hook, and the loops that drive the estate's step machines against a store.

The engine's sequences that wait on the store and decide in turn are step
machines: each step takes the state reached and the store's reply and
gives the next state and the next action.

- `estate::step`: attaching to an estate, moving it to a new model,
  collecting retired generations, and delivering retained events to the
  hook (a hook that fails leaves its events for a later delivery).
- `estate::verify`: verifying a stored estate (its root, its generation
  records, and its physical shape against the shape recorded).
- `estate::adopt`: adopting an unsealed namespace, which goes on only when
  the store's shape equals the generated layout, then restores every
  counter's high-water mark and seals.
- `life::flow`: the writes (new rows, partial updates, new ties, retunes).
  Each walks a script of store questions (is the target live, leased, held
  by another row, is a unique value taken) and counter draws, in the order
  the checks are made, and is written only once its values are found.
- `query::run`: what a query keeps of what the store scanned and pulled.

`app/` runs these loops (`estate.rs`, `cleanup.rs`, `write.rs`,
`query.rs`), performing each action through traits (`Works`, `Rows`,
`Reads`) whose statements depend on the caller's table layout.

What is not here: implementations of those traits (the table DDL and
naming, and the manifest reader and its delta planner, are not part of
this crate), the `Core`, `Face` and `Tx` request surface, leases and
batches, and the HTTP listener.

Layout of `src/`:

- `text` — text operations with their specifications (digits, parsing of
  integers, prefixes, ordering of texts).
- `atom`, `bond`, `plan`, `spec` — field kinds, relation kinds, the plan a
  model is read as, and the builder business code declares resources with.
- `query` — query trees; `parse` reads query text, `check` holds a tree to
  the plan, `sift` digests trees and applies predicates, order and paging,
  `run` keeps, orders, pages and bags a query's rows and ties.
- `life` — rows, ties and their cells; reading them back from stored values,
  the transitive closure of a bond, schema rows woven into manifest lines
  and lines etched back into rows, what purging a generation removes, and
  the write path's decisions: binding text under a field's law, the
  counters a new row's serial fields draw from and the values it is
  inserted with, the uniqueness claims a write makes, partial updates and
  clears, new ties and their retunes, and (`flow`) the writes as step
  machines.
- `cap` — shaping raw fields into cells, vetting grants, the seal, anchors,
  and whether a grant holds for a request.
- `estate` — faults, schema steps, counter names, catalog records and the
  catalog's tables, the sealed shape text, the field law and the values that
  survive a change of kind, the expressions a copy into a new generation
  uses, the paths a move retires, the cleanup decisions with the events
  the derivative hook is told, the drift of a shape, and the step machines
  of attach, verification, adoption, schema move, cleanup and delivery.
- `face`, `serve`, `config`, `wire`, `store` — callers, the answer cache, the
  HTTP face's decisions, retention, stored values and the store trait.
