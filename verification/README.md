# folder_scanner

Finds folders with a given name (for example `node_modules`) below a root
folder, reports the size of each, and deletes them on request; plus a small
tour of thread workloads.

- `src/` is the verified library (Verus):
  - `scanner.rs`: the search as a state machine (`scan_directory`,
    `DirectoryScan::resume`), the size count of one folder (`calculate_dir_size`,
    `DirSize`), and the deletion tally.
  - `scan_model.rs`: a finite directory tree, what a search of it must report,
    and the proofs that the state machines, answered from such a tree, do exactly
    that.
  - `passes.rs`, `numbers.rs`, `turns.rs`: the computations of the thread tour.
  - `console.rs`, `decimal.rs`: log lines, thread colours, status text, decimal text.
- `app/` is the program around it: it lists directories, deletes folders,
  spawns threads, sleeps, measures time and prints.
- `tests/` runs the library on concrete values.
