# dfs

A distributed file system built around deterministic simulation testing,
written in Verus: the library under `src/` is verified, the program under
`app/` runs it.

- `btree`: an order-5 B-tree. `insert` adds a key (a repeated key is held once
  more), `find` looks one up, `to_string` writes the tree out. The tree is kept
  sorted, balanced (every leaf equally deep) and every node but the root at
  least half full; the layout after each insert is stated by `tree_insert`.
- `simulation::runtime`: the simulation. Events wait in a queue that hands out
  the earliest first (by fire time, then priority, then sequence); a scheduler
  stamps them, a fault injector marks them, the environment serves them.
  `Runtime::step` decides what happens to the next event (`Runtime::handle`
  carries out the environment's answer); the caller hands the response to the
  replica and passes its next request to `Runtime::resume`. Each call states
  the state it leaves the scheduler, fault injector and backend in, so a run
  replays exactly from the same start (`lemma_step_replays`).
- `abstraction::file_system::stub`: the file system a replica sees: each
  operation is a request to the runtime and a reading of its response.
- `database`: page positions, the page cache index, and cache cells.
- `app/`: replica threads, the channels between them and the runtime, and the
  loop that drives the simulation.
