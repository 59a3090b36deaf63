# krio

A family of coroutine strategies that share a vocabulary, verified with Verus:
state-machine transforms for compilers, fibers with a stack of their own, and
schedulers for one agent or several.

`src/` is the library. Its functions say in their contracts what they return and
what they change, and the modules close with laws: public proof functions that say
what holds across calls. What a host supplies in order to wait, to watch or to run
agents of its own carries no contract, and neither does the spin parker; of a
clock, a host may say what it can read.

| Module      | What it is                                                    |
|-------------|---------------------------------------------------------------|
| `vocab`     | Markers, suspensions, task ids, the `Task` and `Clock` traits |
| `stackless` | The state-machine transform of one function                   |
| `crossfn`   | The state-machine transform across calls, and its audit       |
| `runtime`   | Round-robin scheduling, budgets, roles                        |
| `preempt`   | Time slicing                                                  |
| `fiber`     | Lifecycle, values, stacks and first frames of fibers          |
| `parallel`  | Work stealing, parking, stop-the-world                        |
| `wasm`      | What a WebAssembly host supplies                              |

`app/` is what the library cannot hold: context switches, mapped stacks, threads
that park, clocks in floating point, and the statics of a wasm module. It hands
the library plain values and does what the library decides.

`tests/` runs the library from outside.
