//! A guest-side memory boundary: a model of the linear memory that a host and a
//! guest share, the allocator contract over it, and the marshalling conventions
//! (byte dumps, 8-byte numbers, an exported greeting with its descriptor).
pub mod marshal;
pub mod memory;
