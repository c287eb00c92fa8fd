# spark_ecs

A sparse-set entity-component-system core written in Verus, with its
behaviour stated in `requires` / `ensures` contracts and proved.

Component, resource and event types are named by `u32` keys and share one
value type `V`; deferred resource edits are values of a type `U` that
implements `ResourceUpdate<V>`.

## Layout

- `src/entity.rs` — generational entity handles and their allocator.
- `src/storage.rs` — the per-component sparse set with its change clock.
- `src/access.rs` — read/write sets of queries and systems, conflict checks.
- `src/filter.rs` — `With` / `Without` / `Changed` / `Added` / `And` / `Or`
  filters and the wrapping-aware change test.
- `src/query.rs` — queries: shapes of terms, the driver choice, rows.
- `src/commands.rs` — the deferred command queue.
- `src/events.rs` — double-buffered event channels.
- `src/world.rs` — the world, command flushing and the per-system
  change-detection baselines.
- `src/system.rs` — systems and their parameters.
- `src/scheduler.rs` — rank-based batching of systems by access.
- `src/time.rs` — the frame clamp, the real-time clock and the fixed-timestep
  accumulator.
- `src/application.rs` — stages, plugins, workloads, startup and runner.
- `app/` — the frame clock with its floating-point time scale, its plugin,
  and the benchmark world builder.
- `tests/` — the test suite.

Laws that span several operations are public proof functions whose names
begin with `law_`.
