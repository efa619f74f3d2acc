//! A fixed-capacity arena allocator: bump allocation from the top of the
//! arena downward, with first-fit reuse of released blocks.

pub mod block;
pub mod allocator;
pub mod laws;
