# treegraph_consensus

A consensus graph after the GHAST rule, written in Verus. Blocks form a tree
through their parents and a graph through their parents and referees. The pivot
chain follows the heaviest branch of the tree, each pivot block closes an epoch,
and the epochs put all blocks into one order for execution.

- `src/` is the library. Everything in it is verified but for a few wrappers
  around `slab`, `hibitset`, `ethereum-types` and `rlp`, each marked
  `external_body` with a comment that says what is relied on.
  - Models: `dag`, `sums`, `model`, `state`, `frames`, `views`, `past`, `order`.
  - Containers: `arena`, `bits`, `hash_index`, `anticone_cache`, `path_tree`,
    `wide`, `types`, `text`.
  - A block on its way in: `insert`, `collect`, `anticone`, `trees`, `barrier`,
    `removal`, `adaptive`, `brutal`, `validity`, `arrival`.
  - The pivot chain and its epochs: `pivot`, `epochs`, `metadata`, `finish`,
    `construct`, `confirmation`.
  - Execution: `rewards`, `plans`, `executor`.
  - The whole: `genesis`, `consensus`, `graph`, `admission`, `queries`,
    `terminals`, `gas_price`, `logs`.
  - What holds of it: `rule`, `heaviest`, `branch`, `agreement`, `history`,
    `rebuild`.
- `tests/` runs the library.
- `app/` is ordinary Rust around it: locks, storage, execution, the ledger.
