//! An approximate nearest-neighbour index over fixed-dimension integer vectors,
//! built as a forest of randomized binary space-partitioning trees.
//!
//! Items are vectors of `i32` components under non-negative ids. `Annoy::build`
//! divides them again and again by splits of the metric until few enough are
//! left for a bucket, once for each tree. A search walks all trees at once, best
//! branch first, gathers candidates and ranks them by their raw distance to the
//! query. Distances are whole numbers: the Euclidean metric returns the squared
//! distance, and the angular metric returns it squared and in parts of `UNIT`,
//! the length that a unit vector is given.

pub mod ann;
pub mod distance;
pub mod error;
pub mod forest;
pub mod frontier;
pub mod node;
pub mod numeric;
pub mod random;
pub mod search;
pub mod shares;
pub mod snapshot;
pub mod split;

pub use ann::Annoy;
pub use distance::Angular;
pub use distance::Distance;
pub use distance::Euclidean;
pub use distance::Hamming;
pub use distance::Manhattan;
pub use distance::Metric;
pub use error::AnnoyError;
pub use node::Node;
pub use node::NodeImpl;
