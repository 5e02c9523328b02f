//! Flow and flowlet analysis for multi-switch network captures.
//!
//! Decoded packet observations are grouped into flows keyed by the ordered
//! (source address, destination address) pair. Each flow's observations can
//! be drained in ascending-timestamp order and partitioned into flowlets:
//! maximal runs of packets whose adjacent timestamp gaps stay within a
//! configurable timeout. Each flowlet is identified by the canonical
//! (sorted, deduplicated) set of switch labels its packets traversed, and
//! flowlets of one flow with the same switch set aggregate their hit counts.
//!
//! Reading capture files, decoding raw blocks into observations, command
//! line handling and tabular output live outside this crate; the library
//! works on plain decoded values.

pub mod cli;
pub mod flows;
pub mod model;
pub mod output;
pub mod switch;
