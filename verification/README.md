# task_graph

A library for running tasks in a directed acyclic graph, with the logic
proved by Verus.

- `src/value.rs`: the values the context store holds (`Value`), their
  mathematical models (`ValueView`), and `ContextValue`, the types that can
  be stored and read back as themselves.
- `src/context.rs`: `ExtendedContext`, the key-value store shared by tasks,
  modelled as a map from keys to value models.
- `src/graph.rs`: `TaskGraph`, tasks joined by direct and conditional edges,
  modelled as a `GraphView`. A task waits for the source of each edge that
  leads to it, as target or as else task; an edge that would close a cycle
  of such waits is found by depth-first search and refused, leaving the
  graph as it was.
- `src/schedule.rs`: the decisions of an execution: which tasks are ready
  to run, and how the reports of tasks that ran (their conditions' outcomes,
  or their failure) change the state.
- `src/laws.rs`: properties that relate several operations.
- `app/lib.rs`: the async layer: tasks as async trait objects, the context
  behind a tokio lock, and the loop that runs ready tasks in parallel.
