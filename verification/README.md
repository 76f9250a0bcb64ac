# mtdynamic

Thread-count controllers for parallel regions, and the letterboxes through
which instrumented programs hand in measurements and receive the thread
count to use next.

- `src/` is the library, verified with Verus:
  - `corridor`: the integer search of the corridor and runtime controllers;
  - `chromosome`, `ranking`, `genetic`: the genetic controller's population,
    its ranking by score and its evolution;
  - `selection`: the choice of the densest range of a frequency distribution;
  - `letterbox`: the shared hash table of regions, samples and thread counts;
  - `demand`, `controller`: the per-connection letterbox of the controller
    server and the controller traits;
  - `incoming`: the byte layout of a message to the controller server
    (three four-byte fields, least significant byte first).
- `app/` is the controller server, the floating-point controllers, and the
  C interface to the letterbox in shared memory.
- `tests/` exercises the library.
