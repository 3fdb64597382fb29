//! Offset finder: process memory access and pointer scanning.
pub mod bounds;
pub mod bytes;
pub mod chain;
pub mod chunks;
pub mod findings;
pub mod hits;
pub mod joint;
pub mod lines;
pub mod lockstep;
pub mod macho;
pub mod meaning;
pub mod memory;
pub mod path;
pub mod pointers;
pub mod process;
pub mod procmem;
pub mod region;
pub mod resolve;
pub mod reverse;
pub mod scan;
pub mod shared;
pub mod snapshot;
pub mod sort;
pub mod steady;
pub mod task;
pub mod text;
pub mod trails;
