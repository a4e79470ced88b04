//! Rules of the Spur cluster manager: what its WireGuard mesh looks like and how
//! it is applied, which nodes a job may be placed on, and what the caches of
//! accounting limits hold.
//!
//! Everything here computes on plain values. Interfaces, config files, clocks,
//! locks and the database belong to the caller.

pub mod cidr;
pub mod laws;
pub mod limits_cache;
pub mod mesh;
pub mod mesh_run;
pub mod names;
pub mod node_match;
pub mod qos;
pub mod refresh;
pub mod text;
