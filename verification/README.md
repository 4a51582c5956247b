# dee

Cost-based rewriting of SQL transformation graphs, verified with Verus.

A graph holds named queries that read each other: Views, Tables and TempTables.
The library decides how to change such a graph so that it runs faster without
changing what it computes:

- `hmp` looks for Views worth materializing. It ranks them (`ranking`,
  `leaf_ranking`, `operators`, `hmp_ranking`), prices combinations of them
  (`dup`, `combo`, `search`, `makespan`) and tries the best, one run at a time.
- `nodefusion` fuses all Tables into one query (`fusion`, `fused`), by rule or by
  a search over the expressions to materialize (`chain`, `fusion_pricing`,
  `fusion_search`).
- `cse` and `cspe` factor out what the plans of several nodes have in common
  (`logical`).
- `learned` fits cost rates to measured plans, and `stored` keeps them.

`src/` is verified and does no I/O. What has to be asked of an engine is named
there as a question (a query to plan, a set to price, a graph to run), and the
answer is taken in by another call. `app/` asks the questions: it talks to the
engine and to the metadata store.

Costs are whole numbers of the cost model's unit. Times are whole numbers of
nanoseconds in plans, of microseconds in `makespan` and of milliseconds in the
searches; shares and factors are millionths. A ranking counts in millionths of
a millionth, so that costs for each row stay apart. Arithmetic saturates.
