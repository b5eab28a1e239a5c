//! Keeps composite GLSL shader documents in sync with the files they are
//! built from: computes the smallest set of directories to watch, resolves
//! `#pragma include(...)` and feature pragmas into one compilable source
//! text per shader, and maps a changed file back to the compiled units that
//! must be rebuilt.
//!
//! The library works on plain values throughout: the surrounding program
//! reads files into a `shader::store::SourceStore` snapshot, runs the
//! filesystem watcher thread, and drives the render loop.

pub mod actions;
pub mod buffer;
pub mod change_event;
pub mod config;
pub mod minime;
pub mod paths;
pub mod shader;
pub mod state;
pub mod text;
pub mod uniforms;
pub mod utils;
pub mod watch_set;
