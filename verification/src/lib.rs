//! A generational slot arena: a pool stores values in indexed slots and hands
//! out copyable handles that pair the slot index with a per-slot generation
//! counter, so a handle that outlives its value is detected and refused
//! instead of resolving to whatever reused the slot.

pub mod pool;

pub use pool::Handle;
pub use pool::Pool;
