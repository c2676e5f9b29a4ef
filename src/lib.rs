//! A multi-size-class memory allocator.
//!
//! - `pool`: a fixed-capacity slab of equal-size slots (`Pool`).
//! - `fix`: the growable, address-sorted set of pools of one size class
//!   (`FixMemory`).
//! - `dy`: the router over the five size classes, with the native allocator
//!   as fallback for larger requests (`DyMemory`).
//! - `allocator`: the front whose router is built on first use
//!   (`Allocator`).
//! - `layout`: sizes, alignments and buffers exchanged with the native
//!   allocator.
//!
//! The library keeps the allocator's books over addresses held as plain
//! integers. The memory itself comes from the native allocator, which the
//! caller drives as the returned steps ask: a class that needs a new pool
//! names the buffer layout it wants, and a dropped pool hands its buffer
//! back.
//!
//! Beside it: `byte` (byte order of values in memory) and `ecs` (entity
//! identifiers, runtime type information and errors shared by the
//! entity-component layers that allocate through it).
pub mod layout;
pub mod pool;
pub mod fix;
pub mod dy;
pub mod allocator;
pub mod byte;
pub mod ecs;
