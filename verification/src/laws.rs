//! What the library promises, stated of its operations.
//!
//! Each law takes the inputs and the results of calls, and says how they relate
//! in terms of plain characters, fields and numbers.

pub mod cidr;
pub mod limits_cache;
pub mod mesh;
pub mod mesh_run;
pub mod node_match;
pub mod qos;
pub mod refresh;
pub mod text;
