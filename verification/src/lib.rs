//! A declarative graph-rewriting engine: an attributed undirected graph,
//! patterns that are searched for in it, and procedures that rewrite every
//! occurrence that was found.

pub mod condition;
pub mod dirty_graph;
pub mod graph_model;
pub mod lex;
pub mod matcher;
pub mod node;
pub mod numeric;
pub mod ordered;
pub mod pattern_graph;
pub mod procedures;
pub mod rgg_graph;
pub mod rule;
pub mod search;
pub mod value;

pub use condition::Condition;
pub use dirty_graph::{DirtyGraph, GraphError};
pub use matcher::{MatchingDecision, MatchingState};
pub use node::{FromNode, Node, ToNode};
pub use procedures::{
    AddProcedure, ApplyResult, DeleteProcedure, MergeProcedure, Procedure, ReplaceProcedure,
};
pub use rgg_graph::RggGraph;
pub use rule::{NodeSet, Rule, RuleResult};
pub use value::{RGGType, Value};
