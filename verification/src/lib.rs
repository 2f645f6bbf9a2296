//! Supply-chain audit resolution over a resolved dependency graph.

pub mod bits;
pub mod commands;
pub mod context;
pub mod criteria;
pub mod diffstat;
pub mod files;
pub mod flow;
pub mod laws;
pub mod lower;
pub mod manual;
pub mod metadata;
pub mod minimize;
pub mod model;
pub mod order;
pub mod paths;
pub mod recommend;
pub mod require;
pub mod resolver;
pub mod satisfy;
pub mod semantics;
pub mod suggest;
pub mod text;
pub mod universe;
