//! OpenDaemon core: configuration, dependency graph, start and stop plans,
//! log buffering, readiness bookkeeping, and the decisions of the command
//! line, the editor extension's JSON-RPC protocol and the Model Context
//! Protocol server of a local service orchestrator.

pub mod text;
pub mod dag;
pub mod table;

pub mod logs;
pub mod config;
pub mod graph;
pub mod plan;
pub mod process;
pub mod error;
pub mod json;
pub mod orchestrator;
pub mod rpc;
pub mod pattern;
pub mod ready;
pub mod cli;
pub mod daemon_client;
pub mod mcp;
pub mod auth;
