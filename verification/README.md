# paimon_vindex_core

The core of an inverted-file vector index, written in Rust and verified with
Verus.

- `src/` is the library. It decides, lays out and counts. Every function in it
  is verified, but for three that make one call of another crate each, whose
  contracts are believed: `treemap_contains` and `deserialize_treemap` in
  `filter` call `roaring`, and `draw_between` in `sampling` calls `rand`.
  Vector components and distances are the bit patterns of single-precision
  numbers. Arithmetic on them is handed in by the caller as a function, and
  contracts speak of its results.
- `app/` holds the arithmetic, the threads, the files and the training loops
  around the library.
- `tests/` runs the library on concrete vectors.

| Part | Modules |
| --- | --- |
| Numbers, bytes, plans | `arith`, `bitops`, `bytes`, `float_ops`, `order`, `plan` |
| Nearest rows | `topk`, `scan`, `nearest`, `batch_nearest`, `tiled`, `certified`, `pruned` |
| Row filters and lists | `filter`, `matching`, `lists`, `list_search` |
| Clustering | `kmeans`, `kmeans_assign`, `kmeans_plan`, `kmeans_split`, `kmeans_update`, `cluster_heap`, `sampling` |
| Coarse assignment | `projected_assign`, `projection_plan` |
| Product quantization | `pq`, `pq_encode`, `pq_tables`, `pq_scan`, `pq_search`, `opq`, `ivfpq`, `ivfpq_codes`, `ivfpq_batch`, `session`, `table_reuse` |
| Scalar quantization | `sq`, `sq_batch`, `sq_blocks`, `sq_distance`, `ivfsq`, `ivfsq_codes` |
| Residual quantization | `rq`, `rotate`, `rq_encode`, `rq_factors`, `rq_query`, `rq_products`, `rq_rows`, `blocks`, `ivfrq`, `ivfrq_codes`, `ivfrq_search`, `ivfrq_trace`, `ivfrq_batch`, `ivfrq_stored` |
| Files of residual codes | `ivfrq_io`, `ivfrq_write` |
| Whole vectors | `ivfflat`, `ivfflat_vectors`, `distance` |

Public proof functions whose names begin with `law_` state what holds across
functions.
