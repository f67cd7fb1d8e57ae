//! A page-assignment and placement-geometry engine: it partitions a set of
//! sized raster images across fixed-size pages with no overlap, decides each
//! item's orientation, computes its physical embed position, and strips alpha
//! channels for viewers that cannot render transparency.

pub mod compositor;
pub mod images;
pub mod packing;
pub mod placement;
pub mod sizes;
