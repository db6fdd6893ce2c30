//! Merge algorithms for replicated ordered-list data types (list CRDTs):
//! WOOT, RGA, YATA and Fugue, over a plain array-backed sequence, together
//! with a multi-replica simulation harness that checks convergence.

pub mod crdt;
pub mod dumb_common;
pub mod rga;
pub mod woot;
pub mod yata;
pub mod fugue;
pub mod woot_dumb_impl;
pub mod rga_dumb_impl;
pub mod yata_dumb_impl;
pub mod fugue_dumb_impl;
