# pullgraph

Demand-driven computation: providers are registered per produced type, demand
switches them on and off, and a per-step context produces only what is
demanded, dependencies first.

The library under `src/` is written in Verus and verified:

- `inner.rs`: the registry (entries with demand counts, activity flags,
  dependency lists and providers; the reverse dependency map), with demand
  acquisition and its mirror, release (a type whose last reference goes
  releases its dependencies), and exact checks of when they are possible.
- `activation.rs`: what acquiring and releasing demand does to the entries,
  as functions on values, with the lemmas the registry rests on.
- `accounting.rs`: the references types hold on one another, and the proof
  that acquisition and release keep every count equal to the live demands on
  the type plus the references its active dependents hold.
- `graph.rs`: the reverse dependency map and the cycle search over it.
- `context.rs`: one execution step's produced values and the production order.
- `pullgraph.rs`: the typed front of the registry.
- `laws.rs`: properties that span several operations.
- `error.rs`, `demand.rs`, `provider.rs`, `keyed.rs`, `type_key.rs`: errors,
  demand handles, the provider trait, keyed lists and type keys.

`app/` wraps the library for shared use: clones of a graph share one
registry, demand is released when its handle is dropped, providers are
written for their own value types, and errors implement the standard
formatting and error traits.
