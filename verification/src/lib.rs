//! A small POSIX-inspired command shell: argument parsing, variable
//! expansion, builtin dispatch and history bookkeeping, with contracts.
pub mod text;
pub mod parser;
pub mod store;
pub mod expand;
pub mod history;
pub mod effects;
pub mod shell;
pub mod builtins;
pub mod evaluator;
pub mod completer;
pub mod laws;
