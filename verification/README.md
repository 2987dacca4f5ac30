# OpenDaemon core, verified

`dmn` orchestrates local development services from one `dmn.json` file.
This crate is its core as a Verus library: every function under `src/`
carries a contract that Verus proves, except the few marked
`#[verifier::external_body]`. Those wrap one outside call each (petgraph,
regex, the clock, sorting, appending a character, string formatting and
lower-casing), and their
contracts are believed, as their doc comments say, not proved.

- `src/config.rs`: the configuration, its validation (including cycles among
  dependencies) and `.env` files.
- `src/graph.rs`, `src/dag.rs`: the dependency graph (on `petgraph`) and the
  walks and cycles it is reasoned about with.
- `src/plan.rs`: what starting and stopping services does, step by step:
  dependencies before dependents on the way up, dependents before
  dependencies on the way down.
- `src/logs.rs`: per-service ring buffers of output lines.
- `src/process.rs`, `src/ready.rs`: service states, command lines, readiness.
- `src/json.rs`: JSON values, and their mathematical view, in which the
  answers below are stated exactly.
- `src/rpc.rs`, `src/mcp.rs`, `src/daemon_client.rs`, `src/cli.rs`: the
  requests and answers of the editor protocol, the MCP tools, and the
  command line's supervisor.

`app/` is the program around it: argument handling, processes, files,
sockets and the serde forms of the library's types.
