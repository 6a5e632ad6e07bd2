//! Indexed points: a caller-assigned identifier together with a
//! fixed-dimension embedding vector.

use vstd::prelude::*;

verus! {

/// One indexed point: a caller-assigned identifier and its embedding.
///
/// The identifier is opaque to the index: it is never interpreted, only
/// returned. Components are IEEE 754 single-precision values carried as
/// their 32-bit bit patterns; the store stores and compares them only as
/// opaque words.
#[derive(Clone, Debug)]
pub struct EmbeddingPoint {
    pub id: i64,
    pub embedding: Vec<u32>,
}

impl EmbeddingPoint {
    /// Number of components of this point's embedding.
    pub open spec fn dim(&self) -> nat {
        self.embedding@.len()
    }
}

} // verus!
