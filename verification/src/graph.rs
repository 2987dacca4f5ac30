//! The service dependency graph, held in a `petgraph` directed graph: an
//! edge runs from each dependency to the service that needs it. It yields
//! the start order (dependencies first), the dependencies and dependents
//! of a service, and reports cycles.

use vstd::prelude::*;
use vstd::string::*;
use crate::config::{
    dep_has, dep_names, first_missing_dep, has_dependency_cycle, has_name, names_of, unique_names,
    DmnConfig, ServiceConfig,
};
use crate::dag::{closed_ranked, has_cycle, is_cycle, is_lasso, is_walk, lemma_closed_no_cycle, walk_step};
use crate::text::{join, join_strings, str_eq};

verus! {

#[verifier::external_type_specification]
#[verifier::external_body]
#[verifier::reject_recursive_types(N)]
#[verifier::reject_recursive_types(E)]
#[verifier::reject_recursive_types(Ty)]
#[verifier::reject_recursive_types(Ix)]
pub struct ExGraph<N, E, Ty, Ix>(petgraph::graph::Graph<N, E, Ty, Ix>);

#[verifier::external_type_specification]
#[verifier::external_body]
pub struct ExDirected(petgraph::Directed);

/// The node weights of a graph, by node index.
pub uninterp spec fn graph_nodes(g: petgraph::graph::Graph<String, (), petgraph::Directed, u32>) -> Seq<Seq<char>>;

/// The edges of a graph as `(source, target)` node indices, in the order
/// they were added.
pub uninterp spec fn graph_edges(g: petgraph::graph::Graph<String, (), petgraph::Directed, u32>) -> Seq<(usize, usize)>;

/// The edge `a -> b` is among `edges`.
pub open spec fn edge_listed(edges: Seq<(usize, usize)>, a: int, b: int) -> bool {
    exists|k: int| 0 <= k < edges.len() && edges[k].0 == a && edges[k].1 == b
}

/// The relation the edges describe.
pub open spec fn edge_rel(edges: Seq<(usize, usize)>) -> spec_fn(int, int) -> bool {
    |a: int, b: int| edge_listed(edges, a, b)
}

/// The targets of the edges leaving `v`, the most recently added first.
pub open spec fn successors(edges: Seq<(usize, usize)>, v: int) -> Seq<usize>
    decreases edges.len(),
{
    if edges.len() == 0 {
        Seq::empty()
    } else {
        let rest = successors(edges.drop_last(), v);
        if edges.last().0 == v { seq![edges.last().1] + rest } else { rest }
    }
}

/// The sources of the edges entering `v`, the most recently added first.
pub open spec fn predecessors(edges: Seq<(usize, usize)>, v: int) -> Seq<usize>
    decreases edges.len(),
{
    if edges.len() == 0 {
        Seq::empty()
    } else {
        let rest = predecessors(edges.drop_last(), v);
        if edges.last().1 == v { seq![edges.last().0] + rest } else { rest }
    }
}

/// A new graph without nodes or edges.
///
/// Trusted: calls `Graph::new`.
#[verifier::external_body]
fn graph_new() -> (g: petgraph::graph::Graph<String, (), petgraph::Directed, u32>)
    ensures
        graph_nodes(g) == Seq::<Seq<char>>::empty(),
        graph_edges(g) == Seq::<(usize, usize)>::empty(),
{
    petgraph::graph::Graph::new()
}

/// Adds a node and returns its index.
///
/// Trusted: calls `Graph::add_node`, which appends the node, so that its
/// index is the former node count; it panics when the index would reach
/// `u32::MAX`, which the precondition excludes.
#[verifier::external_body]
fn graph_add_node(g: &mut petgraph::graph::Graph<String, (), petgraph::Directed, u32>, name: String) -> (i: usize)
    requires
        graph_nodes(*old(g)).len() < u32::MAX,
    ensures
        i == graph_nodes(*old(g)).len(),
        graph_nodes(*final(g)) == graph_nodes(*old(g)).push(name@),
        graph_edges(*final(g)) == graph_edges(*old(g)),
{
    g.add_node(name).index()
}

/// Adds the edge `a -> b`.
///
/// Trusted: calls `Graph::add_edge`, which appends the edge (parallel
/// edges are kept); it panics when a node does not exist or the edge index
/// would reach `u32::MAX`, which the precondition excludes.
#[verifier::external_body]
fn graph_add_edge(g: &mut petgraph::graph::Graph<String, (), petgraph::Directed, u32>, a: usize, b: usize)
    requires
        a < graph_nodes(*old(g)).len(),
        b < graph_nodes(*old(g)).len(),
        graph_edges(*old(g)).len() < u32::MAX,
    ensures
        graph_nodes(*final(g)) == graph_nodes(*old(g)),
        graph_edges(*final(g)) == graph_edges(*old(g)).push((a, b)),
{
    g.add_edge(petgraph::graph::NodeIndex::new(a), petgraph::graph::NodeIndex::new(b), ());
}

/// Number of nodes.
///
/// Trusted: calls `Graph::node_count`.
#[verifier::external_body]
fn graph_node_count(g: &petgraph::graph::Graph<String, (), petgraph::Directed, u32>) -> (r: usize)
    ensures
        r == graph_nodes(*g).len(),
{
    g.node_count()
}

/// Number of edges.
///
/// Trusted: calls `Graph::edge_count`.
#[verifier::external_body]
fn graph_edge_count(g: &petgraph::graph::Graph<String, (), petgraph::Directed, u32>) -> (r: usize)
    ensures
        r == graph_edges(*g).len(),
{
    g.edge_count()
}

/// The nodes `v` has an edge to, or from (`incoming`).
///
/// Trusted: calls `Graph::neighbors_directed`, whose documentation says it
/// lists one neighbor per edge, in reverse order of the edges' addition.
#[verifier::external_body]
fn graph_neighbors(g: &petgraph::graph::Graph<String, (), petgraph::Directed, u32>, v: usize, incoming: bool) -> (r: Vec<usize>)
    requires
        v < graph_nodes(*g).len(),
    ensures
        r@ == if incoming { predecessors(graph_edges(*g), v as int) } else { successors(graph_edges(*g), v as int) },
{
    let dir = if incoming { petgraph::Direction::Incoming } else { petgraph::Direction::Outgoing };
    let mut r = Vec::new();
    for n in g.neighbors_directed(petgraph::graph::NodeIndex::new(v), dir) {
        r.push(n.index());
    }
    r
}

/// Whether the graph has a cycle.
///
/// Trusted: calls `petgraph::algo::is_cyclic_directed`, documented to
/// return `true` exactly when the directed graph contains a cycle (a self
/// loop counts).
#[verifier::external_body]
fn graph_is_cyclic(g: &petgraph::graph::Graph<String, (), petgraph::Directed, u32>) -> (r: bool)
    ensures
        r == has_cycle(edge_rel(graph_edges(*g)), graph_nodes(*g).len() as int),
{
    petgraph::algo::is_cyclic_directed(g)
}

/// `order` lists each node below `n` exactly once, and the source of every
/// edge before its target.
pub open spec fn is_topological_order(edges: Seq<(usize, usize)>, n: int, order: Seq<usize>) -> bool {
    &&& order.len() == n
    &&& forall|i: int| 0 <= i < order.len() ==> #[trigger] order[i] < n
    &&& forall|i: int, j: int| 0 <= i < order.len() && 0 <= j < order.len() && i != j ==> order[i] != order[j]
    &&& forall|v: usize| v < n ==> #[trigger] order.contains(v)
    &&& forall|i: int, j: int|
        0 <= i < order.len() && 0 <= j < order.len() && #[trigger] edge_listed(edges, order[i] as int, order[j] as int)
            ==> i < j
}

/// A topological order of the nodes, or `None` when the graph has a cycle.
///
/// Trusted: calls `petgraph::algo::toposort`, documented to return the
/// nodes in topological order (each node before its successors) when the
/// graph is acyclic and an error otherwise, self loops included.
#[verifier::external_body]
fn graph_toposort(g: &petgraph::graph::Graph<String, (), petgraph::Directed, u32>) -> (r: Option<Vec<usize>>)
    ensures
        r is None <==> has_cycle(edge_rel(graph_edges(*g)), graph_nodes(*g).len() as int),
        r matches Some(order) ==> is_topological_order(graph_edges(*g), graph_nodes(*g).len() as int, order@),
{
    match petgraph::algo::toposort(g, None) {
        Ok(nodes) => {
            let mut r = Vec::new();
            for n in nodes {
                r.push(n.index());
            }
            Some(r)
        },
        Err(_) => None,
    }
}

/// Why a graph could not be built or queried.
#[derive(Debug)]
pub enum GraphError {
    /// The services form a cycle; the text describes it.
    CyclicDependency(String),
    /// No service has this name.
    ServiceNotFound(String),
}

/// Display text of a graph error.
pub open spec fn graph_error_text(e: GraphError) -> Seq<char> {
    match e {
        GraphError::CyclicDependency(m) => "Cyclic dependency detected: "@ + m@,
        GraphError::ServiceNotFound(m) => "Service not found: "@ + m@,
    }
}

impl GraphError {
    /// Display text, such as `Service not found: db`.
    pub fn to_string(&self) -> (r: String)
        ensures
            r@ == graph_error_text(*self),
    {
        let mut r = String::new();
        match self {
            GraphError::CyclicDependency(m) => {
                r.append("Cyclic dependency detected: ");
                r.append(m.as_str());
            },
            GraphError::ServiceNotFound(m) => {
                r.append("Service not found: ");
                r.append(m.as_str());
            },
        }
        r
    }
}

/// The services and their dependency edges.
pub struct ServiceGraph {
    graph: petgraph::graph::Graph<String, (), petgraph::Directed, u32>,
    node_map: Vec<String>,
}

/// The names of a vector of strings, as character sequences.
pub open spec fn string_views(v: Seq<String>) -> Seq<Seq<char>> {
    v.map_values(|s: String| s@)
}

/// The names are pairwise distinct.
pub open spec fn distinct_names(names: Seq<Seq<char>>) -> bool {
    forall|i: int, j: int| 0 <= i < names.len() && 0 <= j < names.len() && i != j ==> names[i] != names[j]
}

impl ServiceGraph {
    /// Service names by node index.
    pub closed spec fn names(&self) -> Seq<Seq<char>> {
        graph_nodes(self.graph)
    }

    /// Edges, dependency to dependent, in the order they were added.
    pub closed spec fn edges(&self) -> Seq<(usize, usize)> {
        graph_edges(self.graph)
    }

    /// Names are distinct, the name table matches the graph, and every edge
    /// joins two nodes.
    pub closed spec fn wf(&self) -> bool {
        &&& string_views(self.node_map@) == graph_nodes(self.graph)
        &&& distinct_names(graph_nodes(self.graph))
        &&& forall|k: int| 0 <= k < graph_edges(self.graph).len() ==> (#[trigger] graph_edges(self.graph)[k]).0
            < graph_nodes(self.graph).len() && graph_edges(self.graph)[k].1 < graph_nodes(self.graph).len()
    }

    /// A graph with no services.
    pub fn new() -> (r: Self)
        ensures
            r.wf(),
            r.names() == Seq::<Seq<char>>::empty(),
            r.edges() == Seq::<(usize, usize)>::empty(),
    {
        let r = ServiceGraph { graph: graph_new(), node_map: Vec::new() };
        assert(string_views(r.node_map@) =~= Seq::<Seq<char>>::empty());
        r
    }

    /// Number of services.
    pub fn node_count(&self) -> (r: usize)
        ensures
            r == self.names().len(),
    {
        graph_node_count(&self.graph)
    }

    /// Number of dependency edges.
    pub fn edge_count(&self) -> (r: usize)
        ensures
            r == self.edges().len(),
    {
        graph_edge_count(&self.graph)
    }

    /// Node index of the service named `name`.
    pub(crate) fn node_index(&self, name: &str) -> (r: Option<usize>)
        requires
            self.wf(),
        ensures
            match r {
                Some(i) => i < self.names().len() && self.names()[i as int] == name@,
                None => forall|i: int| 0 <= i < self.names().len() ==> self.names()[i] != name@,
            },
    {
        let mut i: usize = 0;
        while i < self.node_map.len()
            invariant
                self.wf(),
                i <= self.node_map@.len(),
                forall|j: int| 0 <= j < i ==> self.names()[j] != name@,
            decreases self.node_map@.len() - i,
        {
            assert(self.names()[i as int] == self.node_map@[i as int]@);
            if str_eq(self.node_map[i].as_str(), name) {
                return Some(i);
            }
            i = i + 1;
        }
        None
    }

    /// Whether a service is named `name`.
    pub fn contains_service(&self, name: &str) -> (r: bool)
        requires
            self.wf(),
        ensures
            r == self.names().contains(name@),
    {
        match self.node_index(name) {
            Some(i) => {
                assert(self.names()[i as int] == name@);
                true
            },
            None => false,
        }
    }
}


/// The node index of the service named `d`.
pub open spec fn name_pos(e: Seq<(String, ServiceConfig)>, d: Seq<char>) -> int {
    choose|j: int| 0 <= j < e.len() && e[j].0@ == d
}

/// The edges for the dependencies `deps` of service `i`: from each
/// dependency to `i`.
pub open spec fn service_edges(e: Seq<(String, ServiceConfig)>, i: int, deps: Seq<Seq<char>>) -> Seq<(usize, usize)> {
    deps.map_values(|d: Seq<char>| (name_pos(e, d) as usize, i as usize))
}

/// The edges for the first `i` services, in order.
pub open spec fn config_edges(e: Seq<(String, ServiceConfig)>, i: int) -> Seq<(usize, usize)>
    decreases i,
{
    if i <= 0 {
        Seq::empty()
    } else {
        config_edges(e, i - 1) + service_edges(e, i - 1, dep_names(e[i - 1].1))
    }
}

/// The first dependency, service by service, that names no service.
pub open spec fn first_missing_in(e: Seq<(String, ServiceConfig)>, i: int) -> Option<Seq<char>>
    decreases i,
{
    if i <= 0 {
        None
    } else {
        match first_missing_in(e, i - 1) {
            Some(d) => Some(d),
            None => first_missing_dep(e, dep_names(e[i - 1].1)),
        }
    }
}

proof fn lemma_config_edges_mono(e: Seq<(String, ServiceConfig)>, i: int, m: int)
    requires
        0 <= i <= m,
    ensures
        config_edges(e, i).len() <= config_edges(e, m).len(),
    decreases m - i,
{
    if i < m {
        lemma_config_edges_mono(e, i, m - 1);
    }
}

proof fn lemma_first_missing_in_prefix(e: Seq<(String, ServiceConfig)>, i: int, m: int)
    requires
        0 <= i <= m,
        first_missing_in(e, i) is Some,
    ensures
        first_missing_in(e, m) == first_missing_in(e, i),
    decreases m - i,
{
    if i < m {
        lemma_first_missing_in_prefix(e, i, m - 1);
    }
}

proof fn lemma_first_missing_dep_prefix(e: Seq<(String, ServiceConfig)>, deps: Seq<Seq<char>>, k: int)
    requires
        0 <= k <= deps.len(),
        first_missing_dep(e, deps.take(k)) is Some,
    ensures
        first_missing_dep(e, deps) == first_missing_dep(e, deps.take(k)),
    decreases deps.len() - k,
{
    if k < deps.len() {
        assert(deps.take(k + 1).drop_last() =~= deps.take(k));
        lemma_first_missing_dep_prefix(e, deps, k + 1);
    } else {
        assert(deps.take(k) =~= deps);
    }
}

/// The names along the node indices `p`.
pub open spec fn path_names(names: Seq<Seq<char>>, p: Seq<usize>) -> Seq<Seq<char>> {
    p.map_values(|k: usize| names[k as int])
}

/// `err` describes a path into a cycle of the graph: its service names
/// joined by ` -> `.
pub open spec fn reports_lasso(names: Seq<Seq<char>>, edges: Seq<(usize, usize)>, err: GraphError) -> bool {
    err matches GraphError::CyclicDependency(m) && exists|p: Seq<usize>|
        is_lasso(edge_rel(edges), names.len() as int, p) && m@ == join(path_names(names, p), " -> "@)
}

/// Count of `false` entries.
spec fn unvisited(s: Seq<bool>) -> nat
    decreases s.len(),
{
    if s.len() == 0 {
        0
    } else {
        unvisited(s.drop_last()) + if s.last() { 0nat } else { 1nat }
    }
}

proof fn lemma_unvisited_set(s: Seq<bool>, i: int)
    requires
        0 <= i < s.len(),
        !s[i],
    ensures
        unvisited(s.update(i, true)) + 1 == unvisited(s),
    decreases s.len(),
{
    let t = s.update(i, true);
    if i == s.len() - 1 {
        assert(t.drop_last() =~= s.drop_last());
    } else {
        assert(t.drop_last() =~= s.drop_last().update(i, true));
        lemma_unvisited_set(s.drop_last(), i);
    }
}

proof fn lemma_unvisited_mono(s: Seq<bool>, t: Seq<bool>)
    requires
        s.len() == t.len(),
        forall|k: int| 0 <= k < t.len() && !t[k] ==> !s[k],
    ensures
        unvisited(t) <= unvisited(s),
    decreases s.len(),
{
    if s.len() > 0 {
        let s2 = s.drop_last();
        let t2 = t.drop_last();
        assert forall|k: int| 0 <= k < t2.len() && !t2[k] implies !s2[k] by {
            assert(t2[k] == t[k] && s2[k] == s[k]);
        }
        lemma_unvisited_mono(s2, t2);
    }
}

proof fn lemma_successors(edges: Seq<(usize, usize)>, v: int)
    ensures
        forall|x: usize| #[trigger] successors(edges, v).contains(x) <==> edge_listed(edges, v, x as int),
    decreases edges.len(),
{
    if edges.len() > 0 {
        let d = edges.drop_last();
        lemma_successors(d, v);
        assert forall|x: usize| successors(edges, v).contains(x) <==> edge_listed(edges, v, x as int) by {
            if edge_listed(edges, v, x as int) {
                let k = choose|k: int| 0 <= k < edges.len() && edges[k].0 == v && edges[k].1 == x;
                if k < d.len() {
                    assert(d[k] == edges[k]);
                    assert(edge_listed(d, v, x as int));
                    assert(successors(d, v).contains(x));
                    let j = choose|j: int| 0 <= j < successors(d, v).len() && successors(d, v)[j] == x;
                    if edges.last().0 == v {
                        assert(successors(edges, v)[j + 1] == x);
                    }
                } else {
                    assert(successors(edges, v)[0] == x);
                }
            }
            if successors(edges, v).contains(x) {
                let j = choose|j: int| 0 <= j < successors(edges, v).len() && successors(edges, v)[j] == x;
                if edges.last().0 == v {
                    if j == 0 {
                        assert(edges[edges.len() - 1].0 == v && edges[edges.len() - 1].1 == x);
                    } else {
                        assert(successors(d, v)[j - 1] == x);
                        assert(successors(d, v).contains(x));
                        let k = choose|k: int| 0 <= k < d.len() && d[k].0 == v && d[k].1 == x;
                        assert(edges[k] == d[k]);
                    }
                } else {
                    assert(successors(d, v)[j] == x);
                    assert(successors(d, v).contains(x));
                    let k = choose|k: int| 0 <= k < d.len() && d[k].0 == v && d[k].1 == x;
                    assert(edges[k] == d[k]);
                }
            }
        }
    }
}

/// Depth-first search state: nodes seen, nodes on the current path, the
/// path, and (for the proof) the order in which nodes were finished.
struct CycleWalk {
    visited: Vec<bool>,
    rec_stack: Vec<bool>,
    path: Vec<usize>,
    rank: Ghost<Seq<int>>,
    finished: Ghost<int>,
}

impl CycleWalk {
    spec fn done(&self) -> spec_fn(int) -> bool {
        |v: int| self.visited@[v] && !self.rec_stack@[v]
    }

    /// Finished nodes reach only finished nodes, finished earlier; the
    /// nodes on the current path are those marked, and form a walk.
    spec fn inv(&self, edges: Seq<(usize, usize)>, n: int) -> bool {
        let vis = self.visited@;
        let rec = self.rec_stack@;
        let p = self.path@;
        &&& vis.len() == n
        &&& rec.len() == n
        &&& forall|v: int| 0 <= v < n && #[trigger] rec[v] ==> vis[v]
        &&& forall|v: int| 0 <= v < n && #[trigger] vis[v] && !rec[v] ==> self.rank@[v] < self.finished@
        &&& closed_ranked(edge_rel(edges), n, self.done(), self.rank@)
        &&& forall|k: int| 0 <= k < p.len() ==> #[trigger] p[k] < n && rec[p[k] as int]
        &&& forall|v: int| 0 <= v < n && #[trigger] rec[v] ==> exists|k: int| 0 <= k < p.len() && p[k] == v
        &&& forall|k: int| 0 <= k < p.len() - 1 ==> #[trigger] walk_step(edge_rel(edges), p, k)
    }
}

impl ServiceGraph {
    /// Depth first from `node`: true when a node on the current path is
    /// reached again, the path then ending with it.
    fn dfs_find_cycle(&self, node: usize, walk: &mut CycleWalk) -> (found: bool)
        requires
            self.wf(),
            old(walk).inv(self.edges(), self.names().len() as int),
            node < self.names().len(),
            old(walk).path@.len() > 0 ==> edge_listed(self.edges(), old(walk).path@.last() as int, node as int),
        ensures
            found ==> is_lasso(edge_rel(self.edges()), self.names().len() as int, final(walk).path@),
            !found ==> {
                &&& final(walk).inv(self.edges(), self.names().len() as int)
                &&& final(walk).path@ == old(walk).path@
                &&& final(walk).rec_stack@ == old(walk).rec_stack@
                &&& final(walk).visited@[node as int]
                &&& !final(walk).rec_stack@[node as int]
                &&& forall|u: int|
                    0 <= u < self.names().len() && old(walk).visited@[u] && !old(walk).rec_stack@[u]
                        ==> final(walk).visited@[u] && final(walk).rank@[u] == old(walk).rank@[u]
                &&& forall|u: int| 0 <= u < self.names().len() && !final(walk).visited@[u] ==> !old(walk).visited@[u]
            },
        decreases unvisited(old(walk).visited@),
    {
        let ghost edges = self.edges();
        let ghost n = self.names().len() as int;
        let ghost p0 = walk.path@;
        if walk.rec_stack[node] {
            walk.path.push(node);
            proof {
                let p = walk.path@;
                let k = choose|k: int| 0 <= k < p0.len() && p0[k] == node;
                assert(p[k] == p.last());
                assert forall|m: int| 0 <= m < p.len() implies #[trigger] p[m] < n by {
                    if m < p0.len() {
                        assert(p[m] == p0[m]);
                    }
                }
                assert forall|m: int| 0 <= m < p.len() - 1 implies #[trigger] walk_step(edge_rel(edges), p, m) by {
                    if m < p0.len() - 1 {
                        assert(walk_step(edge_rel(edges), p0, m));
                    }
                }
            }
            return true;
        }
        if walk.visited[node] {
            return false;
        }
        let ghost vis0 = walk.visited@;
        let ghost rec0 = walk.rec_stack@;
        let ghost rank0 = walk.rank@;
        walk.visited.set(node, true);
        walk.rec_stack.set(node, true);
        walk.path.push(node);
        proof {
            lemma_unvisited_set(vis0, node as int);
            let vis = walk.visited@;
            let rec = walk.rec_stack@;
            let p = walk.path@;
            assert(closed_ranked(edge_rel(edges), n, walk.done(), walk.rank@)) by {
                assert forall|i: int, j: int|
                    0 <= i < n && 0 <= j < n && walk.done()(i) && #[trigger] edge_rel(edges)(i, j)
                    implies walk.done()(j) && walk.rank@[j] < walk.rank@[i] by {
                    assert(i != node);
                    assert(vis0[i] && !rec0[i]);
                    assert(old(walk).done()(i));
                }
            }
            assert forall|k: int| 0 <= k < p.len() implies #[trigger] p[k] < n && rec[p[k] as int] by {
                if k < p0.len() {
                    assert(p[k] == p0[k]);
                }
            }
            assert forall|v: int| 0 <= v < n && #[trigger] rec[v] implies exists|k: int| 0 <= k < p.len() && p[k] == v by {
                if v == node {
                    assert(p[p0.len() as int] == v);
                } else {
                    let k = choose|k: int| 0 <= k < p0.len() && p0[k] == v;
                    assert(p[k] == v);
                }
            }
            assert forall|k: int| 0 <= k < p.len() - 1 implies #[trigger] walk_step(edge_rel(edges), p, k) by {
                if k < p0.len() - 1 {
                    assert(walk_step(edge_rel(edges), p0, k));
                }
            }
        }
        let nbs = graph_neighbors(&self.graph, node, false);
        proof {
            lemma_successors(edges, node as int);
        }
        let mut k: usize = 0;
        while k < nbs.len()
            invariant
                self.wf(),
                edges == self.edges(),
                n == self.names().len(),
                node < n,
                nbs@ == successors(edges, node as int),
                forall|x: usize| nbs@.contains(x) <==> edge_listed(edges, node as int, x as int),
                k <= nbs@.len(),
                walk.inv(edges, n),
                walk.path@ == p0.push(node),
                walk.rec_stack@ == rec0.update(node as int, true),
                walk.visited@[node as int],
                vis0 == old(walk).visited@,
                rec0 == old(walk).rec_stack@,
                rank0 == old(walk).rank@,
                vis0.len() == n,
                rec0.len() == n,
                !vis0[node as int],
                forall|j: int| 0 <= j < k ==> #[trigger] walk.done()(nbs@[j] as int),
                forall|u: int| 0 <= u < n && vis0[u] && !rec0[u] ==> walk.visited@[u] && walk.rank@[u] == rank0[u],
                forall|u: int| 0 <= u < n && !walk.visited@[u] ==> !vis0[u],
                unvisited(walk.visited@) < unvisited(vis0),
            decreases nbs@.len() - k,
        {
            let nb = nbs[k];
            proof {
                assert(nbs@.contains(nb));
                let kk = choose|kk: int| 0 <= kk < edges.len() && edges[kk].0 == node && edges[kk].1 == nb;
                assert(edges[kk].1 < n);
            }
            let ghost vis1 = walk.visited@;
            let ghost rec1 = walk.rec_stack@;
            let ghost rank1 = walk.rank@;
            proof {
                assert forall|j: int| 0 <= j < k implies vis1[#[trigger] nbs@[j] as int] && !rec1[nbs@[j] as int] by {
                    assert(walk.done()(nbs@[j] as int));
                }
                assert forall|u: int| 0 <= u < n && vis0[u] && !rec0[u] implies vis1[u] && !rec1[u] && rank1[u] == rank0[u] by {
                    assert(u != node);
                }
            }
            if self.dfs_find_cycle(nb, walk) {
                return true;
            }
            proof {
                lemma_unvisited_mono(vis1, walk.visited@);
                assert forall|j: int| 0 <= j < k + 1 implies #[trigger] walk.done()(nbs@[j] as int) by {
                    if j < k {
                        assert(nbs@[j] < n) by {
                            assert(nbs@.contains(nbs@[j]));
                            let kk = choose|kk: int| 0 <= kk < edges.len() && edges[kk].0 == node && edges[kk].1 == nbs@[j];
                        }
                        assert(vis1[nbs@[j] as int] && !rec1[nbs@[j] as int]);
                    }
                }
                assert forall|u: int| 0 <= u < n && vis0[u] && !rec0[u] implies walk.visited@[u] && walk.rank@[u] == rank0[u] by {
                    assert(vis1[u] && !rec1[u] && rank1[u] == rank0[u]);
                }
            }
            k = k + 1;
        }
        let ghost f = walk.finished@;
        let ghost vis2 = walk.visited@;
        let ghost rec2 = walk.rec_stack@;
        proof {
            assert forall|j: int| 0 <= j < nbs@.len() implies vis2[#[trigger] nbs@[j] as int] && !rec2[nbs@[j] as int] by {
                assert(walk.done()(nbs@[j] as int));
            }
        }
        walk.rec_stack.set(node, false);
        walk.path.pop();
        walk.rank = Ghost(walk.rank@.update(node as int, f));
        walk.finished = Ghost(f + 1);
        proof {
            let vis = walk.visited@;
            let rec = walk.rec_stack@;
            let p = walk.path@;
            assert(rec =~= rec0);
            assert(p =~= p0);
            assert(closed_ranked(edge_rel(edges), n, walk.done(), walk.rank@)) by {
                assert forall|i: int, j: int|
                    0 <= i < n && 0 <= j < n && walk.done()(i) && #[trigger] edge_rel(edges)(i, j)
                    implies walk.done()(j) && walk.rank@[j] < walk.rank@[i] by {
                    if i == node {
                        assert(nbs@.contains(j as usize));
                        let jj = choose|jj: int| 0 <= jj < nbs@.len() && nbs@[jj] == j as usize;
                        assert(vis2[nbs@[jj] as int] && !rec2[nbs@[jj] as int]);
                    } else {
                        assert(vis2[i] && !rec2[i]);
                    }
                }
            }
            assert forall|k: int| 0 <= k < p.len() implies #[trigger] p[k] < n && rec[p[k] as int] by {
                assert(p[k] == p0[k]);
            }
        }
        false
    }

    /// The names along a path into a cycle, found by a depth-first search
    /// from each node in turn.
    fn find_cycle_services(&self) -> (r: Vec<String>)
        requires
            self.wf(),
            has_cycle(edge_rel(self.edges()), self.names().len() as int),
        ensures
            exists|p: Seq<usize>|
                is_lasso(edge_rel(self.edges()), self.names().len() as int, p) && string_views(r@) == path_names(
                    self.names(),
                    p,
                ),
    {
        let ghost edges = self.edges();
        let n = self.node_map.len();
        let mut start: usize = 0;
        while start < n
            invariant
                self.wf(),
                edges == self.edges(),
                n == self.names().len(),
                start <= n,
                forall|p: Seq<usize>| is_cycle(edge_rel(edges), n as int, p) ==> p[0] >= start,
            decreases n - start,
        {
            let mut visited: Vec<bool> = Vec::new();
            let mut rec_stack: Vec<bool> = Vec::new();
            let mut i: usize = 0;
            while i < n
                invariant
                    i <= n,
                    visited@.len() == i,
                    rec_stack@.len() == i,
                    forall|j: int| 0 <= j < i ==> !#[trigger] visited@[j],
                    forall|j: int| 0 <= j < i ==> !#[trigger] rec_stack@[j],
                decreases n - i,
            {
                visited.push(false);
                rec_stack.push(false);
                i = i + 1;
            }
            let mut walk = CycleWalk {
                visited,
                rec_stack,
                path: Vec::new(),
                rank: Ghost(Seq::new(n as nat, |j: int| 0int)),
                finished: Ghost(0int),
            };
            proof {
                assert(closed_ranked(edge_rel(edges), n as int, walk.done(), walk.rank@)) by {
                    assert forall|a: int, b: int|
                        0 <= a < n && 0 <= b < n && walk.done()(a) && #[trigger] edge_rel(edges)(a, b)
                        implies walk.done()(b) && walk.rank@[b] < walk.rank@[a] by {
                        assert(!walk.visited@[a]);
                    }
                }
                assert forall|v: int| 0 <= v < n && #[trigger] walk.rec_stack@[v] implies walk.visited@[v] by {
                    assert(!walk.rec_stack@[v]);
                }
            }
            if self.dfs_find_cycle(start, &mut walk) {
                let ghost p = walk.path@;
                let mut names: Vec<String> = Vec::new();
                let mut k: usize = 0;
                while k < walk.path.len()
                    invariant
                        self.wf(),
                        walk.path@ == p,
                        forall|m: int| 0 <= m < p.len() ==> #[trigger] p[m] < self.names().len(),
                        k <= p.len(),
                        names@.len() == k,
                        forall|m: int| 0 <= m < k ==> #[trigger] names@[m]@ == self.names()[p[m] as int],
                    decreases p.len() - k,
                {
                    let idx = walk.path[k];
                    assert(self.names()[idx as int] == self.node_map@[idx as int]@);
                    names.push(self.node_map[idx].clone());
                    k = k + 1;
                }
                assert(string_views(names@) =~= path_names(self.names(), p));
                return names;
            }
            proof {
                lemma_closed_no_cycle(edge_rel(edges), n as int, walk.done(), walk.rank@, start as int);
            }
            start = start + 1;
        }
        proof {
            let p = choose|p: Seq<usize>| is_cycle(edge_rel(edges), n as int, p);
            assert(p[0] < n);
        }
        let mut r: Vec<String> = Vec::new();
        r.push(String::from_str("unknown cycle"));
        r
    }

    /// Fails when the services form a cycle, naming the services along a
    /// path into it.
    pub fn check_cycles(&self) -> (r: Result<(), GraphError>)
        requires
            self.wf(),
        ensures
            r is Ok <==> !has_cycle(edge_rel(self.edges()), self.names().len() as int),
            r matches Err(err) ==> reports_lasso(self.names(), self.edges(), err),
    {
        if graph_is_cyclic(&self.graph) {
            let names = self.find_cycle_services();
            let description = join_strings(&names, " -> ");
            Err(GraphError::CyclicDependency(description))
        } else {
            Ok(())
        }
    }

    /// Builds the graph of a configuration: a node per service, in order,
    /// and an edge from each dependency to the service that lists it. Fails
    /// on the first dependency that names no service, then on a cycle.
    pub fn from_config(config: &DmnConfig) -> (r: Result<ServiceGraph, GraphError>)
        requires
            config.services.wf(),
            config.services.entries().len() < u32::MAX,
            config_edges(config.services.entries(), config.services.entries().len() as int).len() < u32::MAX,
        ensures
            ({
                let e = config.services.entries();
                let edges = config_edges(e, e.len() as int);
                match first_missing_in(e, e.len() as int) {
                    Some(d) => r matches Err(GraphError::ServiceNotFound(x)) && x@ == d,
                    None => match r {
                        Ok(g) => {
                            &&& g.wf()
                            &&& g.names() == names_of(e)
                            &&& g.edges() == edges
                            &&& !has_cycle(edge_rel(edges), e.len() as int)
                        },
                        Err(err) => has_cycle(edge_rel(edges), e.len() as int) && reports_lasso(names_of(e), edges, err),
                    },
                }
            }),
    {
        let ghost e = config.services.entries();
        let entries = config.services.as_slice();
        let n = entries.len();
        let mut graph = graph_new();
        let mut node_map: Vec<String> = Vec::new();
        let mut i: usize = 0;
        while i < n
            invariant
                entries@ == e,
                n == e.len(),
                n < u32::MAX,
                i <= n,
                graph_nodes(graph) == names_of(e).take(i as int),
                string_views(node_map@) == graph_nodes(graph),
                graph_edges(graph) == Seq::<(usize, usize)>::empty(),
            decreases n - i,
        {
            let _ = graph_add_node(&mut graph, entries[i].0.clone());
            node_map.push(entries[i].0.clone());
            assert(names_of(e).take(i + 1) =~= names_of(e).take(i as int).push(e[i as int].0@));
            assert(string_views(node_map@) =~= graph_nodes(graph));
            i = i + 1;
        }
        assert(names_of(e).take(n as int) =~= names_of(e));
        let mut i: usize = 0;
        while i < n
            invariant
                config.services.wf(),
                e == config.services.entries(),
                entries@ == e,
                n == e.len(),
                i <= n,
                graph_nodes(graph) == names_of(e),
                string_views(node_map@) == graph_nodes(graph),
                graph_edges(graph) == config_edges(e, i as int),
                first_missing_in(e, i as int) is None,
                config_edges(e, n as int).len() < u32::MAX,
            decreases n - i,
        {
            let deps = &entries[i].1.depends_on;
            let ghost names = dep_names(e[i as int].1);
            proof {
                lemma_config_edges_mono(e, i as int + 1, n as int);
            }
            let mut k: usize = 0;
            while k < deps.len()
                invariant
                    config.services.wf(),
                    e == config.services.entries(),
                    entries@ == e,
                    n == e.len(),
                    i < n,
                    deps@ == e[i as int].1.depends_on@,
                    names == dep_names(e[i as int].1),
                    k <= deps@.len(),
                    graph_nodes(graph) == names_of(e),
                    string_views(node_map@) == graph_nodes(graph),
                    graph_edges(graph) == config_edges(e, i as int) + service_edges(e, i as int, names.take(k as int)),
                    first_missing_in(e, i as int) is None,
                    first_missing_dep(e, names.take(k as int)) is None,
                    config_edges(e, i as int + 1).len() < u32::MAX,
                decreases deps@.len() - k,
            {
                let dep = &deps[k];
                proof {
                    assert(names.take(k + 1).drop_last() =~= names.take(k as int));
                    assert(names[k as int] == dep@);
                }
                match config.services.position(dep.as_str()) {
                    None => {
                        proof {
                            assert(first_missing_dep(e, names.take(k + 1)) == Some(dep@));
                            lemma_first_missing_dep_prefix(e, names, k + 1);
                            assert(first_missing_in(e, i + 1) == Some(dep@));
                            lemma_first_missing_in_prefix(e, i + 1, n as int);
                        }
                        return Err(GraphError::ServiceNotFound(dep.clone()));
                    },
                    Some(j) => {
                        proof {
                            assert(e[j as int].0@ == dep@);
                            let c = name_pos(e, dep@);
                            assert(0 <= c < e.len() && e[c].0@ == dep@);
                            assert(c == j);
                            assert(graph_nodes(graph).len() == n);
                            assert(service_edges(e, i as int, names.take(k + 1)) =~= service_edges(
                                e,
                                i as int,
                                names.take(k as int),
                            ).push((j, i)));
                            assert(names.take(k as int).len() == k);
                            assert(service_edges(e, i as int, names).len() == names.len());
                            assert(config_edges(e, i as int + 1).len() == config_edges(e, i as int).len() + names.len());
                        }
                        graph_add_edge(&mut graph, j, i);
                        assert(graph_edges(graph) =~= config_edges(e, i as int) + service_edges(
                            e,
                            i as int,
                            names.take(k + 1),
                        ));
                    },
                }
                k = k + 1;
            }
            assert(names.take(deps@.len() as int) =~= names);
            i = i + 1;
        }
        let g = ServiceGraph { graph, node_map };
        proof {
            assert forall|a: int, b: int|
                0 <= a < g.names().len() && 0 <= b < g.names().len() && a != b implies g.names()[a] != g.names()[b] by {
                assert(g.names()[a] == e[a].0@);
                assert(g.names()[b] == e[b].0@);
            }
            lemma_config_edges_in_range(e, n as int);
        }
        match g.check_cycles() {
            Ok(()) => Ok(g),
            Err(err) => Err(err),
        }
    }
}

proof fn lemma_config_edges_in_range(e: Seq<(String, ServiceConfig)>, i: int)
    requires
        0 <= i <= e.len(),
        e.len() < u32::MAX,
        first_missing_in(e, i) is None,
    ensures
        forall|k: int| 0 <= k < config_edges(e, i).len() ==> (#[trigger] config_edges(e, i)[k]).0 < e.len()
            && config_edges(e, i)[k].1 < e.len(),
    decreases i,
{
    if i > 0 {
        lemma_config_edges_in_range(e, i - 1);
        let prev = config_edges(e, i - 1);
        let deps = dep_names(e[i - 1].1);
        let se = service_edges(e, i - 1, deps);
        lemma_no_missing_all_named(e, deps);
        assert forall|k: int| 0 <= k < config_edges(e, i).len() implies (#[trigger] config_edges(e, i)[k]).0 < e.len()
            && config_edges(e, i)[k].1 < e.len() by {
            if k >= prev.len() {
                let m = k - prev.len();
                assert(config_edges(e, i)[k] == se[m]);
                assert(has_name(e, deps[m]));
            } else {
                assert(config_edges(e, i)[k] == prev[k]);
            }
        }
    }
}

proof fn lemma_no_missing_all_named(e: Seq<(String, ServiceConfig)>, deps: Seq<Seq<char>>)
    requires
        first_missing_dep(e, deps) is None,
    ensures
        forall|m: int| 0 <= m < deps.len() ==> has_name(e, #[trigger] deps[m]),
    decreases deps.len(),
{
    if deps.len() > 0 {
        lemma_no_missing_all_named(e, deps.drop_last());
        assert forall|m: int| 0 <= m < deps.len() implies has_name(e, #[trigger] deps[m]) by {
            if m < deps.len() - 1 {
                assert(deps[m] == deps.drop_last()[m]);
            }
        }
    }
}


proof fn lemma_predecessors(edges: Seq<(usize, usize)>, v: int)
    ensures
        forall|x: usize| #[trigger] predecessors(edges, v).contains(x) <==> edge_listed(edges, x as int, v),
    decreases edges.len(),
{
    if edges.len() > 0 {
        let d = edges.drop_last();
        lemma_predecessors(d, v);
        assert forall|x: usize| predecessors(edges, v).contains(x) <==> edge_listed(edges, x as int, v) by {
            if edge_listed(edges, x as int, v) {
                let k = choose|k: int| 0 <= k < edges.len() && edges[k].0 == x && edges[k].1 == v;
                if k < d.len() {
                    assert(d[k] == edges[k]);
                    assert(edge_listed(d, x as int, v));
                    assert(predecessors(d, v).contains(x));
                    let j = choose|j: int| 0 <= j < predecessors(d, v).len() && predecessors(d, v)[j] == x;
                    if edges.last().1 == v {
                        assert(predecessors(edges, v)[j + 1] == x);
                    }
                } else {
                    assert(predecessors(edges, v)[0] == x);
                }
            }
            if predecessors(edges, v).contains(x) {
                let j = choose|j: int| 0 <= j < predecessors(edges, v).len() && predecessors(edges, v)[j] == x;
                if edges.last().1 == v {
                    if j == 0 {
                        assert(edges[edges.len() - 1].0 == x && edges[edges.len() - 1].1 == v);
                    } else {
                        assert(predecessors(d, v)[j - 1] == x);
                        assert(predecessors(d, v).contains(x));
                        let k = choose|k: int| 0 <= k < d.len() && d[k].0 == x && d[k].1 == v;
                        assert(edges[k] == d[k]);
                    }
                } else {
                    assert(predecessors(d, v)[j] == x);
                    assert(predecessors(d, v).contains(x));
                    let k = choose|k: int| 0 <= k < d.len() && d[k].0 == x && d[k].1 == v;
                    assert(edges[k] == d[k]);
                }
            }
        }
    }
}

impl ServiceGraph {
    /// The services in an order to start them: each after every service it
    /// depends on. Fails when the services form a cycle.
    pub fn get_start_order(&self) -> (r: Result<Vec<String>, GraphError>)
        requires
            self.wf(),
        ensures
            r is Ok <==> !has_cycle(edge_rel(self.edges()), self.names().len() as int),
            match r {
                Ok(v) => exists|order: Seq<usize>|
                    is_topological_order(self.edges(), self.names().len() as int, order) && string_views(v@)
                        == path_names(self.names(), order),
                Err(err) => err matches GraphError::CyclicDependency(m) && m@
                    == "Cannot determine start order due to circular dependencies"@,
            },
    {
        match graph_toposort(&self.graph) {
            Some(order) => {
                let ghost n = self.names().len();
                let mut names: Vec<String> = Vec::new();
                let mut k: usize = 0;
                while k < order.len()
                    invariant
                        self.wf(),
                        n == self.names().len(),
                        is_topological_order(self.edges(), n as int, order@),
                        k <= order@.len(),
                        names@.len() == k,
                        forall|m: int| 0 <= m < k ==> #[trigger] names@[m]@ == self.names()[order@[m] as int],
                    decreases order@.len() - k,
                {
                    let idx = order[k];
                    assert(idx < n);
                    assert(self.names()[idx as int] == self.node_map@[idx as int]@);
                    names.push(self.node_map[idx].clone());
                    k = k + 1;
                }
                assert(string_views(names@) =~= path_names(self.names(), order@));
                Ok(names)
            },
            None => Err(
                GraphError::CyclicDependency(
                    String::from_str("Cannot determine start order due to circular dependencies"),
                ),
            ),
        }
    }

    /// The names of the nodes `v` is joined to, one per edge.
    fn neighbor_names(&self, v: usize, incoming: bool) -> (r: Vec<String>)
        requires
            self.wf(),
            v < self.names().len(),
        ensures
            string_views(r@) == path_names(
                self.names(),
                if incoming { predecessors(self.edges(), v as int) } else { successors(self.edges(), v as int) },
            ),
    {
        let nbs = graph_neighbors(&self.graph, v, incoming);
        proof {
            lemma_predecessors(self.edges(), v as int);
            lemma_successors(self.edges(), v as int);
        }
        let mut names: Vec<String> = Vec::new();
        let mut k: usize = 0;
        while k < nbs.len()
            invariant
                self.wf(),
                v < self.names().len(),
                nbs@ == if incoming { predecessors(self.edges(), v as int) } else { successors(self.edges(), v as int) },
                forall|x: usize| #[trigger] predecessors(self.edges(), v as int).contains(x) <==> edge_listed(self.edges(), x as int, v as int),
                forall|x: usize| #[trigger] successors(self.edges(), v as int).contains(x) <==> edge_listed(self.edges(), v as int, x as int),
                k <= nbs@.len(),
                names@.len() == k,
                forall|m: int| 0 <= m < k ==> #[trigger] names@[m]@ == self.names()[nbs@[m] as int],
            decreases nbs@.len() - k,
        {
            let idx = nbs[k];
            proof {
                assert(nbs@.contains(idx));
                if incoming {
                    assert(predecessors(self.edges(), v as int).contains(idx));
                    let kk = choose|kk: int| 0 <= kk < self.edges().len() && self.edges()[kk].0 == idx && self.edges()[kk].1 == v;
                } else {
                    assert(successors(self.edges(), v as int).contains(idx));
                    let kk = choose|kk: int| 0 <= kk < self.edges().len() && self.edges()[kk].0 == v && self.edges()[kk].1 == idx;
                }
            }
            assert(self.names()[idx as int] == self.node_map@[idx as int]@);
            names.push(self.node_map[idx].clone());
            k = k + 1;
        }
        assert(string_views(names@) =~= path_names(self.names(), nbs@));
        names
    }

    /// The services `service_name` depends on, one per dependency edge, the
    /// most recently added first.
    pub fn get_dependencies(&self, service_name: &str) -> (r: Result<Vec<String>, GraphError>)
        requires
            self.wf(),
        ensures
            r is Ok <==> self.names().contains(service_name@),
            match r {
                Ok(v) => exists|i: int|
                    0 <= i < self.names().len() && self.names()[i] == service_name@ && string_views(v@)
                        == path_names(self.names(), predecessors(self.edges(), i)),
                Err(err) => err matches GraphError::ServiceNotFound(x) && x@ == service_name@,
            },
    {
        match self.node_index(service_name) {
            Some(i) => Ok(self.neighbor_names(i, true)),
            None => Err(GraphError::ServiceNotFound(String::from_str(service_name))),
        }
    }

    /// The services that depend on `service_name`, one per dependency edge,
    /// the most recently added first.
    pub fn get_dependents(&self, service_name: &str) -> (r: Result<Vec<String>, GraphError>)
        requires
            self.wf(),
        ensures
            r is Ok <==> self.names().contains(service_name@),
            match r {
                Ok(v) => exists|i: int|
                    0 <= i < self.names().len() && self.names()[i] == service_name@ && string_views(v@)
                        == path_names(self.names(), successors(self.edges(), i)),
                Err(err) => err matches GraphError::ServiceNotFound(x) && x@ == service_name@,
            },
    {
        match self.node_index(service_name) {
            Some(i) => Ok(self.neighbor_names(i, false)),
            None => Err(GraphError::ServiceNotFound(String::from_str(service_name))),
        }
    }
}

/// Within the first `i` services, the graph has an edge `a -> b` exactly
/// when service `b` (one of them) lists service `a` as a dependency.
proof fn lemma_config_edges_deps(e: Seq<(String, ServiceConfig)>, i: int, a: int, b: int)
    requires
        unique_names(e),
        e.len() <= usize::MAX,
        0 <= i <= e.len(),
        first_missing_in(e, i) is None,
    ensures
        edge_listed(config_edges(e, i), a, b) <==> (0 <= b < i && dep_has(e, b, a)),
    decreases i,
{
    if i > 0 {
        lemma_config_edges_deps(e, i - 1, a, b);
        let prev = config_edges(e, i - 1);
        let deps = dep_names(e[i - 1].1);
        let se = service_edges(e, i - 1, deps);
        let all = config_edges(e, i);
        lemma_no_missing_all_named(e, deps);
        assert(all == prev + se);
        if edge_listed(all, a, b) {
            let k = choose|k: int| 0 <= k < all.len() && all[k].0 == a && all[k].1 == b;
            if k < prev.len() {
                assert(all[k] == prev[k]);
                assert(edge_listed(prev, a, b));
            } else {
                let m = k - prev.len();
                assert(all[k] == se[m]);
                assert(has_name(e, deps[m]));
                let c = name_pos(e, deps[m]);
                assert(0 <= c < e.len() && e[c].0@ == deps[m]);
                assert(se[m] == (c as usize, (i - 1) as usize));
                assert(deps[m] == e[i - 1].1.depends_on@[m]@);
                assert(e[i - 1].1.depends_on@[m]@ == e[a].0@);
                assert(dep_has(e, i - 1, a));
            }
        }
        if 0 <= b < i && dep_has(e, b, a) {
            if b < i - 1 {
                let k = choose|k: int| 0 <= k < prev.len() && prev[k].0 == a && prev[k].1 == b;
                assert(all[k] == prev[k]);
            } else {
                let m = choose|m: int| 0 <= m < e[b].1.depends_on@.len() && #[trigger] e[b].1.depends_on@[m]@ == e[a].0@;
                assert(deps[m] == e[a].0@);
                assert(has_name(e, deps[m]));
                let c = name_pos(e, deps[m]);
                assert(0 <= c < e.len() && e[c].0@ == deps[m]);
                assert(c == a);
                assert(se[m] == (c as usize, (i - 1) as usize));
                assert(all[prev.len() + m] == se[m]);
                assert(all[prev.len() + m].0 == a && all[prev.len() + m].1 == b);
            }
        }
    }
}

/// A cycle read backwards is a cycle of the reversed relation.
proof fn lemma_reverse_cycle(r1: spec_fn(int, int) -> bool, r2: spec_fn(int, int) -> bool, n: int, p: Seq<usize>)
    requires
        is_cycle(r1, n, p),
        forall|a: int, b: int| #[trigger] r1(a, b) ==> r2(b, a),
    ensures
        is_cycle(r2, n, p.reverse()),
{
    let q = p.reverse();
    assert forall|k: int| 0 <= k < q.len() implies #[trigger] q[k] < n by {
        assert(q[k] == p[p.len() - 1 - k]);
    }
    assert forall|k: int| 0 <= k < q.len() - 1 implies #[trigger] walk_step(r2, q, k) by {
        let j = p.len() - 2 - k;
        assert(walk_step(r1, p, j));
        assert(q[k] == p[j + 1] && q[k + 1] == p[j]);
    }
}

/// The graph built from a configuration (all of whose dependencies name
/// services) has a cycle exactly when some services of the configuration
/// depend on each other in a circle: `ServiceGraph::from_config` and
/// `DmnConfig::validate` reject the same configurations for cycles.
pub proof fn law_graph_cycles_are_dependency_cycles(e: Seq<(String, ServiceConfig)>)
    requires
        unique_names(e),
        e.len() <= usize::MAX,
        first_missing_in(e, e.len() as int) is None,
    ensures
        has_cycle(edge_rel(config_edges(e, e.len() as int)), e.len() as int) <==> has_dependency_cycle(e),
{
    let n = e.len() as int;
    let g = edge_rel(config_edges(e, n));
    let d = crate::config::dep_edge(e);
    assert forall|a: int, b: int| #[trigger] g(a, b) implies d(b, a) by {
        lemma_config_edges_deps(e, n, a, b);
    }
    assert forall|a: int, b: int| #[trigger] d(a, b) implies g(b, a) by {
        lemma_config_edges_deps(e, n, b, a);
    }
    if has_cycle(g, n) {
        let p = choose|p: Seq<usize>| is_cycle(g, n, p);
        lemma_reverse_cycle(g, d, n, p);
    }
    if has_dependency_cycle(e) {
        let p = choose|p: Seq<usize>| is_cycle(d, n, p);
        lemma_reverse_cycle(d, g, n, p);
    }
}

/// In a start order of the graph built from a configuration, every service
/// comes after each service it depends on.
pub proof fn law_start_order_puts_dependencies_first(e: Seq<(String, ServiceConfig)>, order: Seq<usize>)
    requires
        unique_names(e),
        e.len() <= usize::MAX,
        first_missing_in(e, e.len() as int) is None,
        is_topological_order(config_edges(e, e.len() as int), e.len() as int, order),
    ensures
        forall|i: int, j: int|
            0 <= i < order.len() && 0 <= j < order.len() && dep_has(e, order[j] as int, order[i] as int) ==> i < j,
{
    let n = e.len() as int;
    assert forall|i: int, j: int|
        0 <= i < order.len() && 0 <= j < order.len() && dep_has(e, order[j] as int, order[i] as int) implies i < j by {
        lemma_config_edges_deps(e, n, order[i] as int, order[j] as int);
        assert(edge_listed(config_edges(e, n), order[i] as int, order[j] as int));
    }
}

/// In the graph built from a configuration, the dependencies of a service
/// are the services named in its `depends_on`, and its dependents the
/// services naming it.
pub proof fn law_neighbors_match_config(e: Seq<(String, ServiceConfig)>, v: int)
    requires
        unique_names(e),
        e.len() <= usize::MAX,
        first_missing_in(e, e.len() as int) is None,
        0 <= v < e.len(),
    ensures
        forall|a: usize| predecessors(config_edges(e, e.len() as int), v).contains(a) <==> dep_has(e, v, a as int),
        forall|b: usize| successors(config_edges(e, e.len() as int), v).contains(b) <==> dep_has(e, b as int, v),
{
    let n = e.len() as int;
    let edges = config_edges(e, n);
    lemma_predecessors(edges, v);
    lemma_successors(edges, v);
    assert forall|a: usize| predecessors(edges, v).contains(a) <==> dep_has(e, v, a as int) by {
        lemma_config_edges_deps(e, n, a as int, v);
    }
    assert forall|b: usize| successors(edges, v).contains(b) <==> dep_has(e, b as int, v) by {
        lemma_config_edges_deps(e, n, v, b as int);
    }
}

proof fn lemma_predecessors_concat(a: Seq<(usize, usize)>, b: Seq<(usize, usize)>, v: int)
    ensures
        predecessors(a + b, v) == predecessors(b, v) + predecessors(a, v),
    decreases b.len(),
{
    if b.len() == 0 {
        assert(a + b =~= a);
        assert(predecessors(b, v) + predecessors(a, v) =~= predecessors(a, v));
    } else {
        let bd = b.drop_last();
        assert((a + b).drop_last() =~= a + bd);
        assert((a + b).last() == b.last());
        lemma_predecessors_concat(a, bd, v);
        if b.last().1 == v {
            assert(seq![b.last().0] + (predecessors(bd, v) + predecessors(a, v)) =~= (seq![b.last().0] + predecessors(
                bd,
                v,
            )) + predecessors(a, v));
        }
    }
}

/// The dependency nodes of service `v`, the last listed first.
spec fn reversed_dep_nodes(e: Seq<(String, ServiceConfig)>, deps: Seq<Seq<char>>) -> Seq<usize> {
    Seq::new(deps.len(), |k: int| name_pos(e, deps[deps.len() - 1 - k]) as usize)
}

proof fn lemma_service_edge_predecessors(e: Seq<(String, ServiceConfig)>, i: int, deps: Seq<Seq<char>>, v: int)
    requires
        0 <= i <= usize::MAX,
        0 <= v <= usize::MAX,
    ensures
        predecessors(service_edges(e, i, deps), v) == if i == v {
            reversed_dep_nodes(e, deps)
        } else {
            Seq::<usize>::empty()
        },
    decreases deps.len(),
{
    let se = service_edges(e, i, deps);
    if deps.len() == 0 {
        assert(reversed_dep_nodes(e, deps) =~= Seq::<usize>::empty());
    } else {
        let dd = deps.drop_last();
        assert(se.drop_last() =~= service_edges(e, i, dd));
        assert(se.last() == (name_pos(e, deps.last()) as usize, i as usize));
        lemma_service_edge_predecessors(e, i, dd, v);
        if i == v {
            assert(seq![name_pos(e, deps.last()) as usize] + reversed_dep_nodes(e, dd) =~= reversed_dep_nodes(e, deps));
        }
    }
}

proof fn lemma_config_edge_predecessors(e: Seq<(String, ServiceConfig)>, m: int, v: int)
    requires
        0 <= m <= e.len(),
        e.len() <= usize::MAX,
        0 <= v < e.len(),
    ensures
        predecessors(config_edges(e, m), v) == if v < m {
            reversed_dep_nodes(e, dep_names(e[v].1))
        } else {
            Seq::<usize>::empty()
        },
    decreases m,
{
    if m > 0 {
        let prev = config_edges(e, m - 1);
        let se = service_edges(e, m - 1, dep_names(e[m - 1].1));
        lemma_config_edge_predecessors(e, m - 1, v);
        lemma_predecessors_concat(prev, se, v);
        lemma_service_edge_predecessors(e, m - 1, dep_names(e[m - 1].1), v);
        if v == m - 1 {
            assert(reversed_dep_nodes(e, dep_names(e[v].1)) + Seq::<usize>::empty() =~= reversed_dep_nodes(
                e,
                dep_names(e[v].1),
            ));
        } else {
            assert(Seq::<usize>::empty() + predecessors(prev, v) =~= predecessors(prev, v));
        }
    }
}

/// In the graph built from a configuration whose dependencies all name
/// services, the dependencies of a service are exactly the names in its
/// `depends_on`, the last listed first; so the two are equal as multisets.
pub proof fn law_dependencies_are_depends_on(e: Seq<(String, ServiceConfig)>, v: int)
    requires
        e.len() <= usize::MAX,
        first_missing_in(e, e.len() as int) is None,
        0 <= v < e.len(),
    ensures
        path_names(names_of(e), predecessors(config_edges(e, e.len() as int), v)) == dep_names(e[v].1).reverse(),
        path_names(names_of(e), predecessors(config_edges(e, e.len() as int), v)).to_multiset()
            == dep_names(e[v].1).to_multiset(),
{
    let deps = dep_names(e[v].1);
    lemma_config_edge_predecessors(e, e.len() as int, v);
    if first_missing_in(e, v + 1) is Some {
        lemma_first_missing_in_prefix(e, v + 1, e.len() as int);
    }
    assert(first_missing_dep(e, deps) is None);
    lemma_no_missing_all_named(e, deps);
    let got = path_names(names_of(e), reversed_dep_nodes(e, deps));
    assert forall|k: int| 0 <= k < deps.len() implies #[trigger] got[k] == deps.reverse()[k] by {
        let d = deps[deps.len() - 1 - k];
        assert(has_name(e, d));
        let c = name_pos(e, d);
        assert(0 <= c < e.len() && e[c].0@ == d);
    }
    assert(got =~= deps.reverse());
    deps.lemma_reverse_to_multiset();
}

impl ServiceGraph {
    /// The nodes of the services `v` depends on, one per dependency edge,
    /// the most recently added first.
    pub(crate) fn dependency_nodes(&self, v: usize) -> (r: Vec<usize>)
        requires
            self.wf(),
            v < self.names().len(),
        ensures
            r@ == predecessors(self.edges(), v as int),
            forall|x: usize| #[trigger] r@.contains(x) <==> edge_listed(self.edges(), x as int, v as int),
            forall|k: int| 0 <= k < r@.len() ==> #[trigger] r@[k] < self.names().len(),
    {
        let r = graph_neighbors(&self.graph, v, true);
        proof {
            lemma_predecessors(self.edges(), v as int);
            assert forall|k: int| 0 <= k < r@.len() implies #[trigger] r@[k] < self.names().len() by {
                assert(r@.contains(r@[k]));
                let e = choose|e: int| 0 <= e < self.edges().len() && self.edges()[e].0 == r@[k] && self.edges()[e].1 == v;
                assert(self.edges()[e].0 < self.names().len());
            }
        }
        r
    }

    /// The nodes of the services that depend on `v`, one per dependency
    /// edge, the most recently added first.
    pub(crate) fn dependent_nodes(&self, v: usize) -> (r: Vec<usize>)
        requires
            self.wf(),
            v < self.names().len(),
        ensures
            r@ == successors(self.edges(), v as int),
            forall|x: usize| #[trigger] r@.contains(x) <==> edge_listed(self.edges(), v as int, x as int),
            forall|k: int| 0 <= k < r@.len() ==> #[trigger] r@[k] < self.names().len(),
    {
        let r = graph_neighbors(&self.graph, v, false);
        proof {
            lemma_successors(self.edges(), v as int);
            assert forall|k: int| 0 <= k < r@.len() implies #[trigger] r@[k] < self.names().len() by {
                assert(r@.contains(r@[k]));
                let e = choose|e: int| 0 <= e < self.edges().len() && self.edges()[e].0 == v && self.edges()[e].1 == r@[k];
                assert(self.edges()[e].1 < self.names().len());
            }
        }
        r
    }

    /// The name of node `v`.
    pub(crate) fn name_of(&self, v: usize) -> (r: String)
        requires
            self.wf(),
            v < self.names().len(),
        ensures
            r@ == self.names()[v as int],
    {
        assert(self.names()[v as int] == self.node_map@[v as int]@);
        self.node_map[v].clone()
    }
}

/// The services of a well-formed graph have distinct names.
pub proof fn lemma_distinct_names(g: ServiceGraph)
    requires
        g.wf(),
    ensures
        distinct_names(g.names()),
{
}

} // verus!
