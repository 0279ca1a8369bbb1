//! Sorted concurrent-set building blocks: a key-ordered chain of nodes with
//! tagged links, a lock-coupling set and an optimistic set over it, and a spin lock.

pub mod chain;
pub mod concurrent_set;
pub mod fine_grained;
pub mod log_check;
pub mod optimistic_fine_grained;
pub mod spinlock;

pub use concurrent_set::ConcurrentSet;
pub use fine_grained::FineGrainedListSet;
pub use optimistic_fine_grained::OptimisticFineGrainedListSet;
pub use spinlock::SpinLock;
