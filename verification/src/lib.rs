//! Finds build and dependency artifact directories (such as `node_modules`,
//! Rust `target` folders and Python virtual environments) and holds the
//! decisions around them: what counts as an artifact, how a scan proceeds,
//! how the result table is ordered and navigated, and which paths are risky.
pub mod text;
pub mod ui;
pub mod location;
pub mod matcher;
pub mod registry;
pub mod engine;
pub mod walker;
