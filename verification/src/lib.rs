//! Core algorithms of a microkernel, chiefly its virtual-memory paging
//! engine: a multi-level hardware page-table tree and the map / unmap /
//! guard / iterate / find-free-space operations on it, together with the
//! small utility routines (bit scans, alignment, hexdumps), the scheduler's
//! queue bookkeeping and the IPC server construction helpers that surround
//! it.

pub mod devices;
pub mod error;
pub mod flush;
pub mod hierarchy;
pub mod interrupts;
pub mod ipc;
pub mod laws;
pub mod page_state;
pub mod scheduler;
pub mod table;
pub mod utils;
