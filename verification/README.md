# cplib

A library of algorithms and data structures for competitive programming, written in Verus:
each function carries a `requires` / `ensures` contract over a mathematical model of its
data, and Verus proves the code against it.

## Layout

- `src/` — the verified library.
  - Algebra: `ops` (semigroups, monoids, groups, and the `fold` of a sequence), `mint`
    (modular integers), `gcd`, `factorial`, `floor_sum`, `min_prime_factor`, `bits`.
  - Data structures: `fenwick`, `segtree`, `sparse_table`, `disjoint_sparse_table`,
    `union_find`, `union_find_with_potential`, `rollback_union_find`, `sorted_array`,
    `rectangle`.
  - Sorting, ordering and points: `compress`, `radix_sort`, `hilbert_sort`, `point`.
  - Strings: `kmp`, `z_algorithm`, `manacher`, `suffix_array`, `suffix_automaton`.
  - Graphs: `graph` (compressed adjacency lists, strongly connected components, lowest
    common ancestors, bipartite colouring) and `graph2` (adjacency lists with numbered
    edges, step-by-step depth-first and breadth-first traversals, strongly connected
    components).
  - Input and output: `from_bytes`, `input`, `reader` (the token buffer of a fast reader),
    `output` (decimal formatting).
- `tests/` — tests that run the compiled library.
- `app/` — the parts that do I/O: the reader over `std::io::Read`, the writer, the input
  macros and the error types with `Display`.

Contracts state results through spec functions such as `fold`, `binomial`,
`floor_sum_spec` or `is_suffix_array`, and laws that relate several operations stand as
public proof functions (for example `lemma_prefix_after_update` for Fenwick trees,
`lemma_invalid_key_stays_invalid` for the rollback union-find and
`SCC::lemma_mutual_reach_same_block` for strongly connected components).
