//! An in-process approximate-nearest-neighbour index store over dense
//! embedding vectors: single-writer bulk rebuild, read-only search,
//! explicit invalidation.
//!
//! Vector components and distances are IEEE 754 single-precision values
//! carried as their 32-bit bit patterns (`u32`). The store never interprets
//! a component; only the graph primitive (supplied by the caller through
//! [`AnnGraph`]) does. For non-negative finite values the unsigned order of
//! the bit patterns agrees with the numeric order, so ranking by `u32`
//! ranks by distance; the graph primitive owes non-negative, non-NaN
//! distances (a cosine metric clamps rounding error at zero), which is
//! what makes this representation sound.

mod points;
mod ranking;
mod store;

pub use points::EmbeddingPoint;
pub use ranking::Candidate;
pub use ranking::HnswSearchResult;
pub use ranking::candidates_sorted;
pub use ranking::distinct_positions;
pub use ranking::is_ranked_prefix_of;
pub use ranking::lemma_ranked_prefix_keeps_nearest;
pub use ranking::select_top_k;
pub use ranking::sorted_by_distance;
pub use store::AnnGraph;
pub use store::HnswError;
pub use store::HnswIndexStore;
pub use store::batch_dims_uniform;
pub use store::hits_from_points;
pub use store::points_match_batch;
