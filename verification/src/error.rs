//! The error types of the orchestrator, one per component, gathered in
//! `DmnError`, with their display texts, a user-facing message, a category
//! for logs, and whether retrying can help.

use vstd::prelude::*;
use vstd::string::*;
use crate::text::{decimal, i32_to_decimal, signed_decimal, u64_to_decimal};

verus! {

/// Configuration errors.
#[derive(Debug)]
pub enum ConfigError {
    ReadError(String),
    ParseError(String),
    ValidationError(String),
    MissingField(String),
    InvalidField { field: String, reason: String },
    EnvFileNotFound(String),
    EnvFileParseError(String),
    Io(String),
    Json(String),
}

/// Display text of a `ConfigError`.
pub open spec fn config_error_text(e: ConfigError) -> Seq<char>
{
    match e {
        ConfigError::ReadError(v0) => "Failed to read configuration file: "@ + v0@,
        ConfigError::ParseError(v0) => "Failed to parse configuration: "@ + v0@,
        ConfigError::ValidationError(v0) => "Configuration validation failed: "@ + v0@,
        ConfigError::MissingField(v0) => "Missing required field: "@ + v0@,
        ConfigError::InvalidField { field, reason } => "Invalid field value for '"@ + field@ + "': "@ + reason@,
        ConfigError::EnvFileNotFound(v0) => "Environment file not found: "@ + v0@,
        ConfigError::EnvFileParseError(v0) => "Failed to parse environment file: "@ + v0@,
        ConfigError::Io(v0) => "IO error: "@ + v0@,
        ConfigError::Json(v0) => "JSON parse error: "@ + v0@,
    }
}

impl ConfigError {
    /// Display text.
    pub fn to_string(&self) -> (r: String)
        ensures
            r@ == config_error_text(*self),
    {
        let mut r = String::new();
        match self {
            ConfigError::ReadError(v0) => {
                r.append("Failed to read configuration file: ");
                r.append(v0.as_str());
            },
            ConfigError::ParseError(v0) => {
                r.append("Failed to parse configuration: ");
                r.append(v0.as_str());
            },
            ConfigError::ValidationError(v0) => {
                r.append("Configuration validation failed: ");
                r.append(v0.as_str());
            },
            ConfigError::MissingField(v0) => {
                r.append("Missing required field: ");
                r.append(v0.as_str());
            },
            ConfigError::InvalidField { field, reason } => {
                r.append("Invalid field value for '");
                r.append(field.as_str());
                r.append("': ");
                r.append(reason.as_str());
            },
            ConfigError::EnvFileNotFound(v0) => {
                r.append("Environment file not found: ");
                r.append(v0.as_str());
            },
            ConfigError::EnvFileParseError(v0) => {
                r.append("Failed to parse environment file: ");
                r.append(v0.as_str());
            },
            ConfigError::Io(v0) => {
                r.append("IO error: ");
                r.append(v0.as_str());
            },
            ConfigError::Json(v0) => {
                r.append("JSON parse error: ");
                r.append(v0.as_str());
            },
        }
        proof {
            assert(r@ =~= config_error_text(*self));
        }
        r
    }
}

/// Dependency graph errors.
#[derive(Debug)]
pub enum GraphError {
    CyclicDependency { cycle: String },
    ServiceNotFound { service: String },
    MissingDependency { service: String, dependency: String },
    TopologicalSortError(String),
}

/// Display text of a `GraphError`.
pub open spec fn graph_error_text(e: GraphError) -> Seq<char>
{
    match e {
        GraphError::CyclicDependency { cycle } => "Cyclic dependency detected: "@ + cycle@,
        GraphError::ServiceNotFound { service } => "Service '"@ + service@ + "' not found in configuration"@,
        GraphError::MissingDependency { service, dependency } => "Service '"@ + service@ + "' depends on non-existent service '"@ + dependency@ + "'"@,
        GraphError::TopologicalSortError(v0) => "Failed to compute start order: "@ + v0@,
    }
}

impl GraphError {
    /// Display text.
    pub fn to_string(&self) -> (r: String)
        ensures
            r@ == graph_error_text(*self),
    {
        let mut r = String::new();
        match self {
            GraphError::CyclicDependency { cycle } => {
                r.append("Cyclic dependency detected: ");
                r.append(cycle.as_str());
            },
            GraphError::ServiceNotFound { service } => {
                r.append("Service '");
                r.append(service.as_str());
                r.append("' not found in configuration");
            },
            GraphError::MissingDependency { service, dependency } => {
                r.append("Service '");
                r.append(service.as_str());
                r.append("' depends on non-existent service '");
                r.append(dependency.as_str());
                r.append("'");
            },
            GraphError::TopologicalSortError(v0) => {
                r.append("Failed to compute start order: ");
                r.append(v0.as_str());
            },
        }
        proof {
            assert(r@ =~= graph_error_text(*self));
        }
        r
    }
}

/// Process management errors.
#[derive(Debug)]
pub enum ProcessError {
    SpawnError { service: String, reason: String },
    AlreadyRunning { service: String },
    NotRunning { service: String },
    ServiceNotFound { service: String },
    CommandParseError { command: String, reason: String },
    StopTimeout { service: String },
    ServiceFailed { service: String, exit_code: i32 },
    OutputReadError(String),
    Io(String),
}

/// Display text of a `ProcessError`.
pub open spec fn process_error_text(e: ProcessError) -> Seq<char>
{
    match e {
        ProcessError::SpawnError { service, reason } => "Failed to spawn service '"@ + service@ + "': "@ + reason@,
        ProcessError::AlreadyRunning { service } => "Service '"@ + service@ + "' is already running"@,
        ProcessError::NotRunning { service } => "Service '"@ + service@ + "' is not running"@,
        ProcessError::ServiceNotFound { service } => "Service '"@ + service@ + "' not found"@,
        ProcessError::CommandParseError { command, reason } => "Failed to parse command '"@ + command@ + "': "@ + reason@,
        ProcessError::StopTimeout { service } => "Service '"@ + service@ + "' failed to stop within timeout"@,
        ProcessError::ServiceFailed { service, exit_code } => "Service '"@ + service@ + "' exited with code "@ + signed_decimal(exit_code as int),
        ProcessError::OutputReadError(v0) => "Failed to read process output: "@ + v0@,
        ProcessError::Io(v0) => "IO error: "@ + v0@,
    }
}

impl ProcessError {
    /// Display text.
    pub fn to_string(&self) -> (r: String)
        ensures
            r@ == process_error_text(*self),
    {
        let mut r = String::new();
        match self {
            ProcessError::SpawnError { service, reason } => {
                r.append("Failed to spawn service '");
                r.append(service.as_str());
                r.append("': ");
                r.append(reason.as_str());
            },
            ProcessError::AlreadyRunning { service } => {
                r.append("Service '");
                r.append(service.as_str());
                r.append("' is already running");
            },
            ProcessError::NotRunning { service } => {
                r.append("Service '");
                r.append(service.as_str());
                r.append("' is not running");
            },
            ProcessError::ServiceNotFound { service } => {
                r.append("Service '");
                r.append(service.as_str());
                r.append("' not found");
            },
            ProcessError::CommandParseError { command, reason } => {
                r.append("Failed to parse command '");
                r.append(command.as_str());
                r.append("': ");
                r.append(reason.as_str());
            },
            ProcessError::StopTimeout { service } => {
                r.append("Service '");
                r.append(service.as_str());
                r.append("' failed to stop within timeout");
            },
            ProcessError::ServiceFailed { service, exit_code } => {
                r.append("Service '");
                r.append(service.as_str());
                r.append("' exited with code ");
                let d = i32_to_decimal(*exit_code);
                r.append(d.as_str());
            },
            ProcessError::OutputReadError(v0) => {
                r.append("Failed to read process output: ");
                r.append(v0.as_str());
            },
            ProcessError::Io(v0) => {
                r.append("IO error: ");
                r.append(v0.as_str());
            },
        }
        proof {
            assert(r@ =~= process_error_text(*self));
        }
        r
    }
}

/// Readiness check errors.
#[derive(Debug)]
pub enum ReadyError {
    Timeout { service: String, timeout_secs: u64, condition: String, details: String, troubleshooting: String },
    InvalidRegex { service: String, pattern: String },
    HttpError { service: String, url: String, reason: String },
    NoLogReceiver(String),
    RegexError(String),
    ReqwestError(String),
}

/// Display text of a `ReadyError`.
pub open spec fn ready_error_text(e: ReadyError) -> Seq<char>
{
    match e {
        ReadyError::Timeout { service, timeout_secs, condition, details, troubleshooting } => "Timeout waiting for service '"@ + service@ + "' to be ready after "@ + decimal(timeout_secs as nat) + " seconds.\nCondition: "@ + condition@ + "\n"@ + details@ + troubleshooting@,
        ReadyError::InvalidRegex { service, pattern } => "Invalid regex pattern for service '"@ + service@ + "': "@ + pattern@,
        ReadyError::HttpError { service, url, reason } => "HTTP request failed for service '"@ + service@ + "' at URL '"@ + url@ + "': "@ + reason@,
        ReadyError::NoLogReceiver(v0) => "No log receiver provided for service '"@ + v0@ + "'"@,
        ReadyError::RegexError(v0) => "Regex error: "@ + v0@,
        ReadyError::ReqwestError(v0) => "HTTP client error: "@ + v0@,
    }
}

impl ReadyError {
    /// Display text.
    pub fn to_string(&self) -> (r: String)
        ensures
            r@ == ready_error_text(*self),
    {
        let mut r = String::new();
        match self {
            ReadyError::Timeout { service, timeout_secs, condition, details, troubleshooting } => {
                r.append("Timeout waiting for service '");
                r.append(service.as_str());
                r.append("' to be ready after ");
                let d = u64_to_decimal(*timeout_secs);
                r.append(d.as_str());
                r.append(" seconds.\nCondition: ");
                r.append(condition.as_str());
                r.append("\n");
                r.append(details.as_str());
                r.append(troubleshooting.as_str());
            },
            ReadyError::InvalidRegex { service, pattern } => {
                r.append("Invalid regex pattern for service '");
                r.append(service.as_str());
                r.append("': ");
                r.append(pattern.as_str());
            },
            ReadyError::HttpError { service, url, reason } => {
                r.append("HTTP request failed for service '");
                r.append(service.as_str());
                r.append("' at URL '");
                r.append(url.as_str());
                r.append("': ");
                r.append(reason.as_str());
            },
            ReadyError::NoLogReceiver(v0) => {
                r.append("No log receiver provided for service '");
                r.append(v0.as_str());
                r.append("'");
            },
            ReadyError::RegexError(v0) => {
                r.append("Regex error: ");
                r.append(v0.as_str());
            },
            ReadyError::ReqwestError(v0) => {
                r.append("HTTP client error: ");
                r.append(v0.as_str());
            },
        }
        proof {
            assert(r@ =~= ready_error_text(*self));
        }
        r
    }
}

/// Orchestration errors.
#[derive(Debug)]
pub enum OrchestratorError {
    StartError { service: String, reason: String },
    StopError { service: String, reason: String },
    RestartError { service: String, reason: String },
    ServiceNotFound { service: String },
    StartAllError(String),
    StopAllError(String),
    DependencyError(String),
    ConfigError(String),
    GraphError(GraphError),
    ProcessError(ProcessError),
    ReadyError(String),
}

/// Display text of a `OrchestratorError`.
pub open spec fn orchestrator_error_text(e: OrchestratorError) -> Seq<char>
{
    match e {
        OrchestratorError::StartError { service, reason } => "Failed to start service '"@ + service@ + "': "@ + reason@,
        OrchestratorError::StopError { service, reason } => "Failed to stop service '"@ + service@ + "': "@ + reason@,
        OrchestratorError::RestartError { service, reason } => "Failed to restart service '"@ + service@ + "': "@ + reason@,
        OrchestratorError::ServiceNotFound { service } => "Service '"@ + service@ + "' not found in configuration"@,
        OrchestratorError::StartAllError(v0) => "Failed to start all services: "@ + v0@,
        OrchestratorError::StopAllError(v0) => "Failed to stop all services: "@ + v0@,
        OrchestratorError::DependencyError(v0) => "Dependency error: "@ + v0@,
        OrchestratorError::ConfigError(v0) => "Configuration error: "@ + v0@,
        OrchestratorError::GraphError(v0) => "Graph error: "@ + graph_error_text(v0),
        OrchestratorError::ProcessError(v0) => "Process error: "@ + process_error_text(v0),
        OrchestratorError::ReadyError(v0) => "Ready error: "@ + v0@,
    }
}

impl OrchestratorError {
    /// Display text.
    pub fn to_string(&self) -> (r: String)
        ensures
            r@ == orchestrator_error_text(*self),
    {
        let mut r = String::new();
        match self {
            OrchestratorError::StartError { service, reason } => {
                r.append("Failed to start service '");
                r.append(service.as_str());
                r.append("': ");
                r.append(reason.as_str());
            },
            OrchestratorError::StopError { service, reason } => {
                r.append("Failed to stop service '");
                r.append(service.as_str());
                r.append("': ");
                r.append(reason.as_str());
            },
            OrchestratorError::RestartError { service, reason } => {
                r.append("Failed to restart service '");
                r.append(service.as_str());
                r.append("': ");
                r.append(reason.as_str());
            },
            OrchestratorError::ServiceNotFound { service } => {
                r.append("Service '");
                r.append(service.as_str());
                r.append("' not found in configuration");
            },
            OrchestratorError::StartAllError(v0) => {
                r.append("Failed to start all services: ");
                r.append(v0.as_str());
            },
            OrchestratorError::StopAllError(v0) => {
                r.append("Failed to stop all services: ");
                r.append(v0.as_str());
            },
            OrchestratorError::DependencyError(v0) => {
                r.append("Dependency error: ");
                r.append(v0.as_str());
            },
            OrchestratorError::ConfigError(v0) => {
                r.append("Configuration error: ");
                r.append(v0.as_str());
            },
            OrchestratorError::GraphError(v0) => {
                r.append("Graph error: ");
                let t = v0.to_string();
                r.append(t.as_str());
            },
            OrchestratorError::ProcessError(v0) => {
                r.append("Process error: ");
                let t = v0.to_string();
                r.append(t.as_str());
            },
            OrchestratorError::ReadyError(v0) => {
                r.append("Ready error: ");
                r.append(v0.as_str());
            },
        }
        proof {
            assert(r@ =~= orchestrator_error_text(*self));
        }
        r
    }
}

/// MCP server errors.
#[derive(Debug)]
pub enum McpError {
    ServiceNotFound { service: String },
    InvalidParameter { parameter: String, reason: String },
    AuthenticationRequired,
    ToolNotFound { tool: String },
    ToolExecutionError { tool: String, reason: String },
    Io(String),
    Json(String),
}

/// Display text of a `McpError`.
pub open spec fn mcp_error_text(e: McpError) -> Seq<char>
{
    match e {
        McpError::ServiceNotFound { service } => "Service '"@ + service@ + "' not found"@,
        McpError::InvalidParameter { parameter, reason } => "Invalid parameter '"@ + parameter@ + "': "@ + reason@,
        McpError::AuthenticationRequired => "Authentication required for this operation"@,
        McpError::ToolNotFound { tool } => "Tool '"@ + tool@ + "' not found"@,
        McpError::ToolExecutionError { tool, reason } => "Failed to execute tool '"@ + tool@ + "': "@ + reason@,
        McpError::Io(v0) => "IO error: "@ + v0@,
        McpError::Json(v0) => "JSON error: "@ + v0@,
    }
}

impl McpError {
    /// Display text.
    pub fn to_string(&self) -> (r: String)
        ensures
            r@ == mcp_error_text(*self),
    {
        let mut r = String::new();
        match self {
            McpError::ServiceNotFound { service } => {
                r.append("Service '");
                r.append(service.as_str());
                r.append("' not found");
            },
            McpError::InvalidParameter { parameter, reason } => {
                r.append("Invalid parameter '");
                r.append(parameter.as_str());
                r.append("': ");
                r.append(reason.as_str());
            },
            McpError::AuthenticationRequired => {
                r.append("Authentication required for this operation");
            },
            McpError::ToolNotFound { tool } => {
                r.append("Tool '");
                r.append(tool.as_str());
                r.append("' not found");
            },
            McpError::ToolExecutionError { tool, reason } => {
                r.append("Failed to execute tool '");
                r.append(tool.as_str());
                r.append("': ");
                r.append(reason.as_str());
            },
            McpError::Io(v0) => {
                r.append("IO error: ");
                r.append(v0.as_str());
            },
            McpError::Json(v0) => {
                r.append("JSON error: ");
                r.append(v0.as_str());
            },
        }
        proof {
            assert(r@ =~= mcp_error_text(*self));
        }
        r
    }
}

/// RPC server errors.
#[derive(Debug)]
pub enum RpcError {
    InvalidRequest(String),
    MethodNotFound { method: String },
    InvalidParams { method: String, reason: String },
    InternalError(String),
    Io(String),
    Json(String),
}

/// Display text of a `RpcError`.
pub open spec fn rpc_error_text(e: RpcError) -> Seq<char>
{
    match e {
        RpcError::InvalidRequest(v0) => "Invalid RPC request: "@ + v0@,
        RpcError::MethodNotFound { method } => "Method '"@ + method@ + "' not found"@,
        RpcError::InvalidParams { method, reason } => "Invalid parameters for method '"@ + method@ + "': "@ + reason@,
        RpcError::InternalError(v0) => "Internal RPC error: "@ + v0@,
        RpcError::Io(v0) => "IO error: "@ + v0@,
        RpcError::Json(v0) => "JSON error: "@ + v0@,
    }
}

impl RpcError {
    /// Display text.
    pub fn to_string(&self) -> (r: String)
        ensures
            r@ == rpc_error_text(*self),
    {
        let mut r = String::new();
        match self {
            RpcError::InvalidRequest(v0) => {
                r.append("Invalid RPC request: ");
                r.append(v0.as_str());
            },
            RpcError::MethodNotFound { method } => {
                r.append("Method '");
                r.append(method.as_str());
                r.append("' not found");
            },
            RpcError::InvalidParams { method, reason } => {
                r.append("Invalid parameters for method '");
                r.append(method.as_str());
                r.append("': ");
                r.append(reason.as_str());
            },
            RpcError::InternalError(v0) => {
                r.append("Internal RPC error: ");
                r.append(v0.as_str());
            },
            RpcError::Io(v0) => {
                r.append("IO error: ");
                r.append(v0.as_str());
            },
            RpcError::Json(v0) => {
                r.append("JSON error: ");
                r.append(v0.as_str());
            },
        }
        proof {
            assert(r@ =~= rpc_error_text(*self));
        }
        r
    }
}

/// Any error of the orchestrator.
#[derive(Debug)]
pub enum DmnError {
    Config(ConfigError),
    Graph(GraphError),
    Process(ProcessError),
    Ready(ReadyError),
    Orchestrator(OrchestratorError),
    Mcp(McpError),
    Rpc(RpcError),
    /// An I/O error; the text is its message.
    Io(String),
    /// A JSON error; the text is its message.
    Json(String),
}

/// Display text of a `DmnError`.
pub open spec fn dmn_error_text(e: DmnError) -> Seq<char> {
    match e {
        DmnError::Config(x) => "Configuration error: "@ + config_error_text(x),
        DmnError::Graph(x) => "Dependency graph error: "@ + graph_error_text(x),
        DmnError::Process(x) => "Process error: "@ + process_error_text(x),
        DmnError::Ready(x) => "Ready watcher error: "@ + ready_error_text(x),
        DmnError::Orchestrator(x) => "Orchestrator error: "@ + orchestrator_error_text(x),
        DmnError::Mcp(x) => "MCP server error: "@ + mcp_error_text(x),
        DmnError::Rpc(x) => "RPC error: "@ + rpc_error_text(x),
        DmnError::Io(m) => "IO error: "@ + m@,
        DmnError::Json(m) => "JSON error: "@ + m@,
    }
}

/// The message shown to a user: a heading for the component, then the
/// component's own error text.
pub open spec fn user_message_text(e: DmnError) -> Seq<char> {
    match e {
        DmnError::Config(x) => "Configuration Error: "@ + config_error_text(x),
        DmnError::Graph(x) => "Dependency Error: "@ + graph_error_text(x),
        DmnError::Process(x) => "Process Error: "@ + process_error_text(x),
        DmnError::Ready(x) => "Ready Check Error: "@ + ready_error_text(x),
        DmnError::Orchestrator(x) => "Orchestration Error: "@ + orchestrator_error_text(x),
        DmnError::Mcp(x) => "MCP Error: "@ + mcp_error_text(x),
        DmnError::Rpc(x) => "RPC Error: "@ + rpc_error_text(x),
        DmnError::Io(m) => "IO Error: "@ + m@,
        DmnError::Json(m) => "JSON Error: "@ + m@,
    }
}

/// The log category of an error.
pub open spec fn category_text(e: DmnError) -> Seq<char> {
    match e {
        DmnError::Config(_) => "CONFIG"@,
        DmnError::Graph(_) => "GRAPH"@,
        DmnError::Process(_) => "PROCESS"@,
        DmnError::Ready(_) => "READY"@,
        DmnError::Orchestrator(_) => "ORCHESTRATOR"@,
        DmnError::Mcp(_) => "MCP"@,
        DmnError::Rpc(_) => "RPC"@,
        DmnError::Io(_) => "IO"@,
        DmnError::Json(_) => "JSON"@,
    }
}

/// Errors that retrying may clear: a process already running, not running
/// or slow to stop, a readiness timeout, and MCP and RPC errors.
pub open spec fn recoverable(e: DmnError) -> bool {
    match e {
        DmnError::Process(p) => p is AlreadyRunning || p is NotRunning || p is StopTimeout,
        DmnError::Ready(r) => r is Timeout,
        DmnError::Mcp(_) => true,
        DmnError::Rpc(_) => true,
        _ => false,
    }
}

impl DmnError {
    /// Display text, such as `Process error: Service 'api' not found`.
    pub fn to_string(&self) -> (r: String)
        ensures
            r@ == dmn_error_text(*self),
    {
        let mut r = String::new();
        let t = match self {
            DmnError::Config(x) => {
                r.append("Configuration error: ");
                x.to_string()
            },
            DmnError::Graph(x) => {
                r.append("Dependency graph error: ");
                x.to_string()
            },
            DmnError::Process(x) => {
                r.append("Process error: ");
                x.to_string()
            },
            DmnError::Ready(x) => {
                r.append("Ready watcher error: ");
                x.to_string()
            },
            DmnError::Orchestrator(x) => {
                r.append("Orchestrator error: ");
                x.to_string()
            },
            DmnError::Mcp(x) => {
                r.append("MCP server error: ");
                x.to_string()
            },
            DmnError::Rpc(x) => {
                r.append("RPC error: ");
                x.to_string()
            },
            DmnError::Io(m) => {
                r.append("IO error: ");
                m.clone()
            },
            DmnError::Json(m) => {
                r.append("JSON error: ");
                m.clone()
            },
        };
        r.append(t.as_str());
        r
    }

    /// A message for users, such as `Configuration Error: Missing required field: version`.
    pub fn user_message(&self) -> (r: String)
        ensures
            r@ == user_message_text(*self),
    {
        let mut r = String::new();
        let t = match self {
            DmnError::Config(x) => {
                r.append("Configuration Error: ");
                x.to_string()
            },
            DmnError::Graph(x) => {
                r.append("Dependency Error: ");
                x.to_string()
            },
            DmnError::Process(x) => {
                r.append("Process Error: ");
                x.to_string()
            },
            DmnError::Ready(x) => {
                r.append("Ready Check Error: ");
                x.to_string()
            },
            DmnError::Orchestrator(x) => {
                r.append("Orchestration Error: ");
                x.to_string()
            },
            DmnError::Mcp(x) => {
                r.append("MCP Error: ");
                x.to_string()
            },
            DmnError::Rpc(x) => {
                r.append("RPC Error: ");
                x.to_string()
            },
            DmnError::Io(m) => {
                r.append("IO Error: ");
                m.clone()
            },
            DmnError::Json(m) => {
                r.append("JSON Error: ");
                m.clone()
            },
        };
        r.append(t.as_str());
        r
    }

    /// The log category, such as `PROCESS`.
    pub fn category(&self) -> (r: &'static str)
        ensures
            r@ == category_text(*self),
    {
        match self {
            DmnError::Config(_) => "CONFIG",
            DmnError::Graph(_) => "GRAPH",
            DmnError::Process(_) => "PROCESS",
            DmnError::Ready(_) => "READY",
            DmnError::Orchestrator(_) => "ORCHESTRATOR",
            DmnError::Mcp(_) => "MCP",
            DmnError::Rpc(_) => "RPC",
            DmnError::Io(_) => "IO",
            DmnError::Json(_) => "JSON",
        }
    }

    /// Whether retrying may clear the error.
    pub fn is_recoverable(&self) -> (r: bool)
        ensures
            r == recoverable(*self),
    {
        match self {
            DmnError::Config(_) => false,
            DmnError::Graph(_) => false,
            DmnError::Process(ProcessError::AlreadyRunning { .. }) => true,
            DmnError::Process(ProcessError::NotRunning { .. }) => true,
            DmnError::Process(ProcessError::StopTimeout { .. }) => true,
            DmnError::Process(_) => false,
            DmnError::Ready(ReadyError::Timeout { .. }) => true,
            DmnError::Ready(_) => false,
            DmnError::Orchestrator(_) => false,
            DmnError::Mcp(_) => true,
            DmnError::Rpc(_) => true,
            DmnError::Io(_) => false,
            DmnError::Json(_) => false,
        }
    }
}

} // verus!
