//! The decisions of a teaching kernel's process and synchronisation system
//! calls, over the state they read.
pub mod deadlock;
pub mod memory_set;
pub mod process;
pub mod sync;
pub mod vec_map;
