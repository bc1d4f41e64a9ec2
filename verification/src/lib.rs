//! A simulated network of nodes that watch their own load and safety, vote on their neighbours,
//! leave the network when they are compromised and come back by quorum.
//!
//! The library holds the decisions: what a node concludes from the signals it has, what a
//! supervisor lets through, how links open and close, how an attack scenario is applied and taken
//! back. It performs no input or output. Where a decision needs an answer of one of the prediction
//! models, the library hands out the question and is called again with the answer.

pub mod ai_module;
pub mod config;
pub mod control;
pub mod executor;
pub mod ids;
pub mod lists;
pub mod network;
pub mod node;
pub mod persistence;
pub mod proposal;
pub mod questions;
pub mod scenarios;
pub mod setup;
pub mod single;
pub mod supervisor;
pub mod text;
pub mod verdicts;
pub mod visualization;
