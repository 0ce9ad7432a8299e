//! Virtual-memory management for a small kernel: address spaces made of
//! non-overlapping areas, each mapped through a policy (direct, eager,
//! swappable, copy-on-write), over a shared pool of physical frames.
//!
//! The data and the operations:
//! - `addr`: addresses, pages and page ranges;
//! - `paging`: page-table entries and page tables;
//! - `frame`, `phys`, `swap`, `cow`: the frame pool, the content of memory,
//!   the swap extension and the copy-on-write table;
//! - `context`: the state that all address spaces share, and what a request
//!   for a frame, an eviction and a swap-in do to it;
//! - `handler`: the four mapping policies;
//! - `memory_set`: memory attributes, areas and sets;
//! - `program`: the address space of a program image.
//!
//! What is proved of them beyond the contracts of the single operations:
//! - `effects`, `ownership`, `sharing`, `delaying`: which entries and frames
//!   a step can touch, and what it keeps;
//! - `residency`, `soundness`: the validity of a state and of a memory set in
//!   it, and which operations keep it;
//! - `laws`: what follows for memory sets.

pub mod addr;
pub mod context;
pub mod cow;
pub mod delaying;
pub mod effects;
pub mod frame;
pub mod handler;
pub mod laws;
pub mod memory_set;
pub mod ownership;
pub mod paging;
pub mod phys;
pub mod program;
pub mod residency;
pub mod sharing;
pub mod soundness;
pub mod swap;
