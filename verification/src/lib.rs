//! The mechanical half of a host project's lifecycle: memory audits, register
//! references, the environment fingerprint, and the setup gate.

pub mod text;
pub mod memory;
pub mod dream;
pub mod envhash;
pub mod recipe;
pub mod refs;
pub mod setup;
pub mod bootstrap;
pub mod mcp;
