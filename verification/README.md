# mochila

Heuristics for the 0-1 knapsack problem with pairwise penalties, and for the
maximum weight independent set problem as its special case, verified with Verus.

- `src/lib.rs`: the instance (`Problema`), weight and value of a solution.
- `src/carrossel.rs`: the greedy constructor and the carousel greedy.
- `src/ils_vnd.rs`: iterated local search with variable neighbourhood descent.
- `src/ils_vnd_mwis.rs`: the moves of the independent set variant.
- `src/instancias.rs`: random instances and the thinning of penalty lists.
- `src/leitura.rs`, `src/cplex.rs`: the instance file format and the text
  exchanged with the exact solver.
- `src/sorteio.rs`: the calls into `rand`.
- `app/`: timing, files, the external solver, and the loops whose end depends
  on random draws.

Quantities are integers. Instances read from files are scaled by 100, which
keeps every comparison that the heuristics make unchanged.
