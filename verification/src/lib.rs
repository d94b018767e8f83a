//! A sparse three-dimensional bitmap, stored as a compressed octree.

pub mod bitmap;
pub mod canonical;
pub mod index;
pub mod laws;
pub mod node;

pub use bitmap::OctreeBitmap;
pub use bitmap::OctreeError;
pub use index::BranchIndex;
pub use index::Index;
pub use node::Node;
