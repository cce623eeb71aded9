//! Core of the `grip` build pipeline for a small statically-typed language:
//! package manifests and the dependency graph builder, and the compiler
//! passes from symbol registration through name resolution, type checking,
//! linting and reachability-based lowering, orchestrated by an error-gated
//! driver. Lexing/parsing, manifest file I/O, rendering and code-generation
//! backends are external collaborators: the core takes plain data in and
//! returns plain data (diagnostics and an IR artifact) out.

pub mod ast;
pub mod cache;
pub mod dependency;
pub mod diagnostic;
pub mod driver;
pub mod graphs;
pub mod lint;
pub mod lower;
pub mod package;
pub mod resolve;
mod text;
pub mod typecheck;
