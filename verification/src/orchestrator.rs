//! What the orchestrator reports: its events and errors, and the category
//! under which an error is published.

use vstd::prelude::*;
use vstd::string::*;
use crate::graph::{graph_error_text, GraphError};
use crate::logs::LogLine;
use crate::process::{process_error_text, ProcessError};

verus! {

/// An event published to the orchestrator's subscribers.
#[derive(Debug, Clone)]
pub enum OrchestratorEvent {
    ServiceStarting { service: String },
    ServiceReady { service: String },
    ServiceFailed { service: String, error: String },
    ServiceStopped { service: String },
    LogLine { service: String, line: LogLine },
    Error { message: String, category: String },
}

/// Why an orchestration step failed.
#[derive(Debug)]
pub enum OrchestratorError {
    Config(String),
    Graph(GraphError),
    Process(ProcessError),
    ServiceNotFound(String),
    ReadyError(String),
}

/// Display text of an orchestration error.
pub open spec fn orchestrator_error_text(e: OrchestratorError) -> Seq<char> {
    match e {
        OrchestratorError::Config(m) => "Configuration error: "@ + m@,
        OrchestratorError::Graph(g) => "Graph error: "@ + graph_error_text(g),
        OrchestratorError::Process(p) => "Process error: "@ + process_error_text(p),
        OrchestratorError::ServiceNotFound(m) => "Service not found: "@ + m@,
        OrchestratorError::ReadyError(m) => "Ready watcher error: "@ + m@,
    }
}

/// The category an error is published under.
pub open spec fn error_category_text(e: OrchestratorError) -> Seq<char> {
    match e {
        OrchestratorError::Config(_) => "CONFIG"@,
        OrchestratorError::Graph(_) => "GRAPH"@,
        OrchestratorError::Process(_) => "PROCESS"@,
        OrchestratorError::ServiceNotFound(_) => "SERVICE"@,
        OrchestratorError::ReadyError(_) => "READY"@,
    }
}

impl OrchestratorError {
    /// Display text, such as `Service not found: api`.
    pub fn to_string(&self) -> (r: String)
        ensures
            r@ == orchestrator_error_text(*self),
    {
        let mut r = String::new();
        let t = match self {
            OrchestratorError::Config(m) => {
                r.append("Configuration error: ");
                m.clone()
            },
            OrchestratorError::Graph(g) => {
                r.append("Graph error: ");
                g.to_string()
            },
            OrchestratorError::Process(p) => {
                r.append("Process error: ");
                p.to_string()
            },
            OrchestratorError::ServiceNotFound(m) => {
                r.append("Service not found: ");
                m.clone()
            },
            OrchestratorError::ReadyError(m) => {
                r.append("Ready watcher error: ");
                m.clone()
            },
        };
        r.append(t.as_str());
        r
    }

    /// The category the error is published under, such as `GRAPH`.
    pub fn category(&self) -> (r: &'static str)
        ensures
            r@ == error_category_text(*self),
    {
        match self {
            OrchestratorError::Config(_) => "CONFIG",
            OrchestratorError::Graph(_) => "GRAPH",
            OrchestratorError::Process(_) => "PROCESS",
            OrchestratorError::ServiceNotFound(_) => "SERVICE",
            OrchestratorError::ReadyError(_) => "READY",
        }
    }

    /// The event that publishes this error.
    pub fn to_event(&self) -> (r: OrchestratorEvent)
        ensures
            r matches OrchestratorEvent::Error { message, category } && message@ == orchestrator_error_text(*self)
                && category@ == error_category_text(*self),
    {
        let message = self.to_string();
        let category = String::from_str(self.category());
        OrchestratorEvent::Error { message, category }
    }
}

/// The message when a service does not become ready in time.
pub open spec fn ready_timeout_text(service: Seq<char>) -> Seq<char> {
    "Timeout waiting for service '"@ + service + "' to be ready"@
}

/// The error for a service that did not become ready in time.
pub fn ready_timeout_error(service: &str) -> (r: OrchestratorError)
    ensures
        r matches OrchestratorError::ReadyError(m) && m@ == ready_timeout_text(service@),
{
    let mut m = String::new();
    m.append("Timeout waiting for service '");
    m.append(service);
    m.append("' to be ready");
    OrchestratorError::ReadyError(m)
}

} // verus!
