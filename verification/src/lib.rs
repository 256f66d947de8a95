//! Runtime binary-instrumentation core: locating a loaded module's memory
//! regions, finding byte signatures (with wildcards) inside executable pages,
//! recording installed hooks, and reading and rewriting the bundled-script
//! container format.

pub mod pattern;
pub mod region;
pub mod codec;
pub mod inject;
pub mod sig;
pub mod hooks;
pub mod asset;
pub mod config;
