//! Tmplx: an HTML template engine that compiles templates into Rust
//! macros at build time. This crate holds the verified core: the four
//! passes of the template compiler, the decisions of the workspace
//! orchestrator, and the runtime escaping routines.

pub mod build_logic;
pub mod text;
pub mod tmplx_runtime;
pub mod compiler;
pub mod models;
