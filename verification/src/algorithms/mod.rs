pub mod mark_sweep;
pub mod ref_count;

pub use mark_sweep::MarkSweepGc;
pub use ref_count::{RefCountGc, RefCountNode};
