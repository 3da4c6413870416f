# sentinel

The logic of the Sentinel game, verified with Verus, and a thin bevy app
around it.

## Layout

- `src/graph/` — a world of entities carrying graph components: nodes,
  edges and graphs.
  - `model.rs` — the mathematical model of the world (`Seq<EntityState>`)
    and the effect of each operation on it.
  - `components.rs` — `Edge`, `Node`, `Graph` and `GraphWorld`, whose
    operations (inserting and removing components, despawning with its
    cascade, cloning and moving names and markers) keep the world well
    formed: every edge is listed at its nodes and graph, and every list
    holds edges that point back. Inserting an edge component checks every
    end; linking an edge to new ends, as relationship components do, checks
    only that each end is another living entity.
  - `util.rs`, `ops.rs`, `commands.rs`, `debug.rs` — reading the graph,
    flattening subgraphs, promoting edges, twisting cycles, and a printable
    picture of a node.
  - `lemmas.rs`, `cascade.rs`, `nonempty.rs` — the proofs that the
    operations keep the world well formed, that despawning removes exactly
    what is despawned with an entity, that inserting an edge and taking it
    off again gives the world back, and that no edge operation or despawn
    leaves a node or a graph without edges.
- `src/progression/` — the default progression graph and its manager.
- `src/inspector.rs` — the debug inspector's cache (ordered by entity), the
  widget it draws, and keyboard navigation.
- `src/state/` — the application and game states and the checks that move
  them on.
- `src/player.rs`, `src/labels.rs`, `src/input.rs`, `src/testing.rs`,
  `src/plugins.rs`, `src/dirs.rs`, `src/text.rs`, `src/sorted.rs` — players,
  entity names, virtual keyboards, test helpers, plugin groups, the save
  directory, text rendering and ordered lists.
- `app/` — the game binary: bevy plugins and systems that hand plain values
  to the library and apply what it returns, and the viewport's
  floating-point camera controller.
- `tests/` — tests of the library on concrete values.
