//! Project-level coordination for a language server of a game scripting
//! dialect: project discovery, declared-script resolution, cross-file
//! namespaces, diagnostic attribution and the editor queries over the
//! cached analysis of each file.
pub mod model;
pub mod builtins;
pub mod completion;
pub mod diagnostics;
pub mod literal;
pub mod names;
pub mod namespace;
pub mod paths;
pub mod query;
pub mod pipeline;
pub mod semantic_token;
pub mod session;
pub mod text;
