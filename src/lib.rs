//! Packed (coordinate-list) sparse vectors: gather from a dense array,
//! scatter back, scaled accumulation (`x += alpha * y`) and inner product,
//! all working on the stored entries only.
//!
//! Values are exact 64-bit integers; a result that would leave that range is
//! reported as an error instead of being wrapped.

pub mod dense;
pub mod laws;
pub mod packed_vector;

pub use packed_vector::{PackedError, PackedVec};
