//! Core of an inverted-file vector index.
//!
//! The library holds everything that an index decides, lays out and counts:
//! quantizer code layouts, the deterministic rotation of the residual
//! quantizer, on-disk framing, top-k selection, row filters, search planning
//! and clustering bookkeeping. Vector components and distances are carried as
//! the bit patterns of IEEE 754 single-precision numbers; the arithmetic on
//! them is done by the caller, who hands its results in.
pub mod arith;
pub mod batch_nearest;
pub mod bitops;
pub mod blocks;
pub mod bytes;
pub mod certified;
pub mod cluster_heap;
pub mod distance;
pub mod exact;
pub mod factor_values;
pub mod filter;
pub mod float_ops;
pub mod ivfflat;
pub mod ivfflat_vectors;
pub mod ivfpq;
pub mod ivfpq_batch;
pub mod ivfpq_codes;
pub mod ivfrq;
pub mod ivfrq_batch;
pub mod ivfrq_codes;
pub mod ivfrq_io;
pub mod ivfrq_search;
pub mod ivfrq_stored;
pub mod ivfrq_trace;
pub mod ivfrq_write;
pub mod ivfsq;
pub mod ivfsq_codes;
pub mod kmeans;
pub mod kmeans_assign;
pub mod kmeans_plan;
pub mod kmeans_split;
pub mod kmeans_update;
pub mod list_search;
pub mod lists;
pub mod matching;
pub mod mean_values;
pub mod nearest;
pub mod opq;
pub mod order;
pub mod plan;
pub mod pq;
pub mod pq_encode;
pub mod pq_scan;
pub mod pq_search;
pub mod pq_tables;
pub mod product_values;
pub mod projected_assign;
pub mod projection_plan;
pub mod pruned;
pub mod rotate;
pub mod rotation_values;
pub mod rq;
pub mod rq_encode;
pub mod rq_factors;
pub mod rq_products;
pub mod rq_query;
pub mod rq_rows;
pub mod sampling;
pub mod scan;
pub mod session;
pub mod sq;
pub mod sq_batch;
pub mod sq_blocks;
pub mod sq_distance;
pub mod sq_values;
pub mod table_reuse;
pub mod table_values;
pub mod tiled;
pub mod topk;
