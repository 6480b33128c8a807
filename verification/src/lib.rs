pub mod arena;
pub mod octree;
pub mod utils;

pub use octree::Octree;
