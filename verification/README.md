# ckb (verified core)

Verified logic of several CKB components, written in Verus:

- `src/cell_set.rs`: the live cell set (transaction metadata with dead-cell
  bits, a counting Bloom filter over cell keys), the diff of a fork switch,
  `update`, and the read-only overlay that previews a diff. Laws: the overlay
  agrees with `update`; an empty diff changes nothing; detaching a block
  undoes attaching it; attached transactions are present; marking a cell
  live undoes marking it dead; deleting just-inserted cell keys restores
  every filter answer when no bucket counter saturated.
- `src/mock.rs`: the registry of mocked scripts and the decoding of mocked
  execution results from script arguments.
- `src/list_epochs.rs`, `src/difficulty.rs`: the epoch range and the numbers
  of each row of the epoch table, with 256-bit difficulties.
- `src/memory_tracker.rs`, `src/miner.rs`: the tracker's and the miner's
  decisions.
- `src/vec_map.rs`, `src/transaction.rs`, `src/text.rs`, `src/bloom.rs`,
  `src/hardfork.rs`: containers, chain data, number rendering, the filter's
  bucket model and trusted interface, constants.

`app/` holds what Verus does not check: process-wide registries, threads,
allocator and database access, printing, floating-point ratios and serde.
