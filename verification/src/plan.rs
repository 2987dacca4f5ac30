//! The orchestrator's decisions on starting and stopping: which services to
//! launch, wait for or stop, and in which order. The program carries the
//! steps out one by one (spawning, waiting, publishing events) and stops at
//! the first that fails.

use vstd::prelude::*;
use vstd::string::*;
use crate::dag::{has_cycle, is_walk, walk_step};
use crate::graph::{edge_listed, edge_rel, is_topological_order, string_views, ServiceGraph};
use crate::orchestrator::OrchestratorError;
use crate::process::{is_active, is_active_status, status_of, StatusTable};

verus! {

/// What a step of a start does.
#[derive(Debug, Clone, Copy, PartialEq, Eq, Structural)]
pub enum StepKind {
    /// Announce the service as starting, spawn it, record it as starting
    /// and watch for it to become ready.
    Launch,
    /// Wait until the service is ready.
    AwaitReady,
}

/// One step of a start. `depth` counts the starts it is nested in: a
/// failure of the step is reported once by its own start and once more by
/// each enclosing one.
#[derive(Debug, Clone)]
pub struct StartStep {
    pub kind: StepKind,
    pub service: String,
    pub node: usize,
    pub depth: usize,
}

/// Whether each service is running or starting, by node, according to the
/// recorded states.
pub open spec fn activity(names: Seq<Seq<char>>, statuses: Seq<(String, crate::process::ServiceStatus)>) -> Seq<bool> {
    Seq::new(
        names.len(),
        |a: int|
            match status_of(statuses, names[a]) {
                Some(s) => is_active(s),
                None => false,
            },
    )
}

/// The position of node `v` in `order`.
pub open spec fn order_pos(order: Seq<usize>, v: int) -> int {
    choose|i: int| 0 <= i < order.len() && order[i] == v
}

/// Step `i` launches node `a`.
pub open spec fn launched_at(steps: Seq<StartStep>, i: int, a: int) -> bool {
    &&& 0 <= i < steps.len()
    &&& steps[i].kind is Launch
    &&& steps[i].node == a
}

/// Node `a` is launched by one of the first `j` steps.
pub open spec fn launched_before(steps: Seq<StartStep>, j: int, a: int) -> bool {
    exists|i: int| 0 <= i < j && #[trigger] launched_at(steps, i, a)
}

/// Step `j` waits for node `a`.
pub open spec fn awaited_at(steps: Seq<StartStep>, j: int, a: int) -> bool {
    &&& 0 <= j < steps.len()
    &&& steps[j].kind is AwaitReady
    &&& steps[j].node == a
}

/// Each step names its node.
pub open spec fn steps_named(names: Seq<Seq<char>>, steps: Seq<StartStep>) -> bool {
    forall|i: int|
        0 <= i < steps.len() ==> (#[trigger] steps[i]).node < names.len() && steps[i].service@ == names[steps[i].node as int]
}

/// No service is launched that was running or starting, or launched
/// before.
pub open spec fn launches_fresh(active0: Seq<bool>, steps: Seq<StartStep>) -> bool {
    forall|i: int|
        0 <= i < steps.len() && (#[trigger] steps[i]).kind is Launch ==> !active0[steps[i].node as int]
            && !launched_before(steps, i, steps[i].node as int)
}

/// Before a service is launched, each service it depends on is waited
/// for, after it was found running or starting, or launched.
pub open spec fn dependencies_first(edges: Seq<(usize, usize)>, active0: Seq<bool>, steps: Seq<StartStep>) -> bool {
    forall|i: int, d: int|
        0 <= i < steps.len() && steps[i].kind is Launch && #[trigger] edge_listed(edges, d, steps[i].node as int)
            ==> exists|j: int|
            0 <= j < i && #[trigger] awaited_at(steps, j, d) && (active0[d] || launched_before(steps, j, d))
}

/// Some step waits for node `d`, after it was found running or starting,
/// or launched.
pub open spec fn awaited_ready(steps: Seq<StartStep>, active0: Seq<bool>, d: int) -> bool {
    exists|j: int| 0 <= j < steps.len() && #[trigger] awaited_at(steps, j, d) && (active0[d] || launched_before(steps, j, d))
}

/// Step `i` is followed, before step `hi`, by the launch of a service that
/// depends on the service of step `i`.
pub open spec fn serves_later(edges: Seq<(usize, usize)>, steps: Seq<StartStep>, i: int, hi: int) -> bool {
    exists|j: int| i < j < hi && #[trigger] launched_at(steps, j, steps[j].node as int) && edge_listed(
        edges,
        steps[i].node as int,
        steps[j].node as int,
    )
}

/// A node is active once it was active at the start or has been launched.
pub open spec fn activity_after(active: Seq<bool>, active0: Seq<bool>, steps: Seq<StartStep>) -> bool {
    &&& active.len() == active0.len()
    &&& forall|a: int| 0 <= a < active.len() ==> #[trigger] active[a] == (active0[a] || launched_before(steps, steps.len() as int, a))
}

/// `order` is a topological order of the graph's nodes.
pub open spec fn ordered_by(g: ServiceGraph, order: Seq<usize>) -> bool {
    is_topological_order(g.edges(), g.names().len() as int, order)
}

/// The positions in a topological order: each node has one, and a
/// dependency comes before its dependent.
proof fn lemma_order_pos(g: ServiceGraph, order: Seq<usize>)
    requires
        ordered_by(g, order),
        g.names().len() <= usize::MAX,
    ensures
        forall|v: int| 0 <= v < g.names().len() ==> 0 <= #[trigger] order_pos(order, v) < g.names().len() && order[order_pos(order, v)] == v,
        forall|a: int, b: int|
            0 <= a < g.names().len() && 0 <= b < g.names().len() && #[trigger] edge_listed(g.edges(), a, b)
                ==> order_pos(order, a) < order_pos(order, b),
{
    let n = g.names().len() as int;
    assert forall|v: int| 0 <= v < n implies 0 <= #[trigger] order_pos(order, v) < n && order[order_pos(order, v)] == v by {
        assert(order.contains(v as usize));
        let i = choose|i: int| 0 <= i < order.len() && order[i] == v as usize;
        assert(order[i] == v);
    }
    assert forall|a: int, b: int|
        0 <= a < n && 0 <= b < n && #[trigger] edge_listed(g.edges(), a, b) implies order_pos(order, a) < order_pos(
        order,
        b,
    ) by {
        assert(order.contains(a as usize));
        assert(order.contains(b as usize));
        let ia = choose|i: int| 0 <= i < order.len() && order[i] == a as usize;
        assert(order[ia] == a);
        let ib = choose|i: int| 0 <= i < order.len() && order[i] == b as usize;
        assert(order[ib] == b);
        let pa = order_pos(order, a);
        let pb = order_pos(order, b);
        assert(edge_listed(g.edges(), order[pa] as int, order[pb] as int));
    }
}

/// Steps before `j` are the same in a longer plan.
proof fn lemma_prefix(s1: Seq<StartStep>, s2: Seq<StartStep>)
    requires
        s1.len() <= s2.len(),
        s2.subrange(0, s1.len() as int) == s1,
    ensures
        forall|i: int| 0 <= i < s1.len() ==> #[trigger] s2[i] == s1[i],
        forall|j: int, a: int| 0 <= j <= s1.len() ==> (#[trigger] launched_before(s2, j, a) <==> launched_before(s1, j, a)),
{
    assert forall|i: int| 0 <= i < s1.len() implies #[trigger] s2[i] == s1[i] by {
        assert(s2.subrange(0, s1.len() as int)[i] == s2[i]);
    }
    assert forall|j: int, a: int| 0 <= j <= s1.len() implies (#[trigger] launched_before(s2, j, a) <==> launched_before(
        s1,
        j,
        a,
    )) by {
        if launched_before(s2, j, a) {
            let i = choose|i: int| 0 <= i < j && #[trigger] launched_at(s2, i, a);
            assert(launched_at(s1, i, a));
        }
        if launched_before(s1, j, a) {
            let i = choose|i: int| 0 <= i < j && #[trigger] launched_at(s1, i, a);
            assert(launched_at(s2, i, a));
        }
    }
}

/// Launches `v` after its dependencies, launching those not yet running or
/// starting first, and waiting for each to be ready.
fn plan_launch(
    g: &ServiceGraph,
    v: usize,
    depth: usize,
    active: &mut Vec<bool>,
    steps: &mut Vec<StartStep>,
    Ghost(active0): Ghost<Seq<bool>>,
    Ghost(order): Ghost<Seq<usize>>,
)
    requires
        g.wf(),
        ordered_by(*g, order),
        v < g.names().len(),
        depth + order_pos(order, v as int) <= g.names().len(),
        active0.len() == g.names().len(),
        !old(active)@[v as int],
        activity_after(old(active)@, active0, old(steps)@),
        launches_fresh(active0, old(steps)@),
        dependencies_first(g.edges(), active0, old(steps)@),
        steps_named(g.names(), old(steps)@),
    ensures
        activity_after(final(active)@, active0, final(steps)@),
        launches_fresh(active0, final(steps)@),
        dependencies_first(g.edges(), active0, final(steps)@),
        steps_named(g.names(), final(steps)@),
        old(steps)@.len() < final(steps)@.len(),
        final(steps)@.subrange(0, old(steps)@.len() as int) == old(steps)@,
        launched_at(final(steps)@, final(steps)@.len() - 1, v as int),
        final(steps)@.last().depth == depth,
        forall|i: int| old(steps)@.len() <= i < final(steps)@.len() ==> (#[trigger] final(steps)@[i]).depth >= depth,
        forall|i: int|
            old(steps)@.len() <= i < final(steps)@.len() - 1 ==> #[trigger] serves_later(
                g.edges(),
                final(steps)@,
                i,
                final(steps)@.len() as int,
            ),
        forall|a: int|
            0 <= a < g.names().len() && order_pos(order, v as int) < #[trigger] order_pos(order, a) ==> final(active)@[a]
                == old(active)@[a],
    decreases order_pos(order, v as int),
{
    let count = g.node_count();
    proof {
        lemma_order_pos(*g, order);
    }
    let ghost n = g.names().len() as int;
    let ghost start = steps@.len() as int;
    let ghost active_in = active@;
    let ghost steps_in = steps@;
    let deps = g.dependency_nodes(v);
    assert(steps@.subrange(0, start) =~= steps_in);
    let mut k: usize = 0;
    while k < deps.len()
        invariant
            g.wf(),
            ordered_by(*g, order),
            n == g.names().len(),
            n == count,
            v < n,
            depth + order_pos(order, v as int) <= n,
            active0.len() == n,
            forall|x: usize| #[trigger] deps@.contains(x) <==> edge_listed(g.edges(), x as int, v as int),
            forall|m: int| 0 <= m < deps@.len() ==> #[trigger] deps@[m] < n,
            forall|w: int| 0 <= w < n ==> 0 <= #[trigger] order_pos(order, w) < n && order[order_pos(order, w)] == w,
            forall|a: int, b: int|
                0 <= a < n && 0 <= b < n && #[trigger] edge_listed(g.edges(), a, b) ==> order_pos(order, a) < order_pos(
                    order,
                    b,
                ),
            k <= deps@.len(),
            !active@[v as int],
            activity_after(active@, active0, steps@),
            launches_fresh(active0, steps@),
            dependencies_first(g.edges(), active0, steps@),
            steps_named(g.names(), steps@),
            0 <= start <= steps@.len(),
            steps@.subrange(0, start) == steps_in,
            forall|i: int| start <= i < steps@.len() ==> (#[trigger] steps@[i]).depth >= depth,
            forall|i: int|
                start <= i < steps@.len() ==> #[trigger] serves_later(g.edges(), steps@, i, steps@.len() as int)
                    || edge_listed(g.edges(), steps@[i].node as int, v as int),
            forall|m: int| 0 <= m < k ==> #[trigger] awaited_ready(steps@, active0, deps@[m] as int),
            forall|a: int|
                0 <= a < n && order_pos(order, v as int) <= #[trigger] order_pos(order, a) ==> active@[a] == active_in[a],
        decreases deps@.len() - k,
    {
        let d = deps[k];
        assert(deps@.contains(d));
        assert(edge_listed(g.edges(), d as int, v as int));
        let ghost before = steps@;
        let ghost active_before = active@;
        if !active[d] {
            plan_launch(g, d, depth + 1, active, steps, Ghost(active0), Ghost(order));
            let ghost cur = steps@;
            proof {
                assert forall|a: int|
                    0 <= a < n && order_pos(order, v as int) <= #[trigger] order_pos(order, a) implies active@[a]
                    == active_in[a] by {
                    assert(order_pos(order, d as int) < order_pos(order, v as int));
                    assert(active@[a] == active_before[a]);
                }
                assert(cur.subrange(0, before.len() as int) == before);
                lemma_prefix(before, cur);
                assert(forall|i: int| 0 <= i < before.len() ==> cur[i] == before[i]);
                let last = cur.len() - 1;
                assert(launched_at(cur, last, d as int));
                assert(launched_before(cur, cur.len() as int, d as int));
                assert forall|i: int|
                    start <= i < cur.len() implies #[trigger] serves_later(g.edges(), cur, i, cur.len() as int)
                    || edge_listed(g.edges(), cur[i].node as int, v as int) by {
                    if i < before.len() {
                        assert(cur[i] == before[i]);
                        if serves_later(g.edges(), before, i, before.len() as int) {
                            let j = choose|j: int|
                                i < j < before.len() && #[trigger] launched_at(before, j, before[j].node as int)
                                    && edge_listed(g.edges(), before[i].node as int, before[j].node as int);
                            assert(cur[j] == before[j]);
                            assert(launched_at(cur, j, cur[j].node as int));
                        }
                    } else if i == last {
                        assert(cur[i].node == d);
                    }
                }
                assert forall|m: int| 0 <= m < k implies #[trigger] awaited_ready(cur, active0, deps@[m] as int) by {
                    assert(awaited_ready(before, active0, deps@[m] as int));
                    let j = choose|j: int|
                        0 <= j < before.len() && #[trigger] awaited_at(before, j, deps@[m] as int) && (
                        active0[deps@[m] as int] || launched_before(before, j, deps@[m] as int));
                    assert(cur[j] == before[j]);
                    assert(awaited_at(cur, j, deps@[m] as int));
                }
            }
        }
        let ghost mid = steps@;
        proof {
            assert(active@[d as int]);
            assert(active0[d as int] || launched_before(mid, mid.len() as int, d as int));
        }
        let name = g.name_of(d);
        steps.push(StartStep { kind: StepKind::AwaitReady, service: name, node: d, depth });
        proof {
            let j = mid.len() as int;
            assert(steps@.subrange(0, mid.len() as int) =~= mid);
            lemma_prefix(mid, steps@);
            assert(awaited_at(steps@, j, d as int));
            assert(launched_before(steps@, j, d as int) == launched_before(mid, j, d as int));
            assert forall|a: int| 0 <= a < active@.len() implies #[trigger] active@[a] == (active0[a] || launched_before(
                steps@,
                steps@.len() as int,
                a,
            )) by {
                if launched_before(steps@, steps@.len() as int, a) {
                    let i = choose|i: int| 0 <= i < steps@.len() && #[trigger] launched_at(steps@, i, a);
                    assert(i < mid.len());
                    assert(launched_at(mid, i, a));
                }
                if launched_before(mid, mid.len() as int, a) {
                    let i = choose|i: int| 0 <= i < mid.len() && #[trigger] launched_at(mid, i, a);
                    assert(launched_at(steps@, i, a));
                }
            }
            assert forall|i: int|
                0 <= i < steps@.len() && (#[trigger] steps@[i]).kind is Launch implies !active0[steps@[i].node as int]
                && !launched_before(steps@, i, steps@[i].node as int) by {
                assert(i < mid.len());
                assert(steps@[i] == mid[i]);
            }
            assert forall|i: int, dd: int|
                0 <= i < steps@.len() && steps@[i].kind is Launch && #[trigger] edge_listed(
                    g.edges(),
                    dd,
                    steps@[i].node as int,
                ) implies exists|jj: int|
                0 <= jj < i && #[trigger] awaited_at(steps@, jj, dd) && (active0[dd] || launched_before(steps@, jj, dd)) by {
                assert(i < mid.len());
                assert(steps@[i] == mid[i]);
                let jj = choose|jj: int|
                    0 <= jj < i && #[trigger] awaited_at(mid, jj, dd) && (active0[dd] || launched_before(mid, jj, dd));
                assert(awaited_at(steps@, jj, dd));
            }
            assert forall|i: int|
                start <= i < steps@.len() implies #[trigger] serves_later(g.edges(), steps@, i, steps@.len() as int)
                || edge_listed(g.edges(), steps@[i].node as int, v as int) by {
                if i < mid.len() {
                    assert(steps@[i] == mid[i]);
                    if serves_later(g.edges(), mid, i, mid.len() as int) {
                        let jj = choose|jj: int|
                            i < jj < mid.len() && #[trigger] launched_at(mid, jj, mid[jj].node as int) && edge_listed(
                                g.edges(),
                                mid[i].node as int,
                                mid[jj].node as int,
                            );
                        assert(steps@[jj] == mid[jj]);
                        assert(launched_at(steps@, jj, steps@[jj].node as int));
                    }
                }
            }
            let ghost now = steps@;
            assert forall|m: int| 0 <= m < k + 1 implies #[trigger] awaited_ready(now, active0, deps@[m] as int) by {
                if m == k {
                    assert(awaited_at(now, j, deps@[m] as int));
                    assert(active0[deps@[m] as int] || launched_before(now, j, deps@[m] as int));
                } else {
                    assert(awaited_ready(mid, active0, deps@[m] as int));
                    let jj = choose|jj: int|
                        0 <= jj < mid.len() && #[trigger] awaited_at(mid, jj, deps@[m] as int) && (active0[deps@[m] as int]
                            || launched_before(mid, jj, deps@[m] as int));
                    assert(now[jj] == mid[jj]);
                    assert(awaited_at(now, jj, deps@[m] as int));
                }
            }
            assert(steps@.subrange(0, start) =~= steps_in);
        }
        k = k + 1;
    }
    let ghost pre = steps@;
    let name = g.name_of(v);
    steps.push(StartStep { kind: StepKind::Launch, service: name, node: v, depth });
    active.set(v, true);
    proof {
        let last = pre.len() as int;
        assert(steps@.subrange(0, pre.len() as int) =~= pre);
        lemma_prefix(pre, steps@);
        assert(launched_at(steps@, last, v as int));
        assert(!launched_before(pre, last, v as int));
        assert forall|a: int| 0 <= a < active@.len() implies #[trigger] active@[a] == (active0[a] || launched_before(
            steps@,
            steps@.len() as int,
            a,
        )) by {
            if a != v {
                if launched_before(steps@, steps@.len() as int, a) {
                    let i = choose|i: int| 0 <= i < steps@.len() && #[trigger] launched_at(steps@, i, a);
                    assert(i < pre.len());
                    assert(launched_at(pre, i, a));
                }
                if launched_before(pre, pre.len() as int, a) {
                    let i = choose|i: int| 0 <= i < pre.len() && #[trigger] launched_at(pre, i, a);
                    assert(launched_at(steps@, i, a));
                }
            }
        }
        assert forall|i: int|
            0 <= i < steps@.len() && (#[trigger] steps@[i]).kind is Launch implies !active0[steps@[i].node as int]
            && !launched_before(steps@, i, steps@[i].node as int) by {
            if i < pre.len() {
                assert(steps@[i] == pre[i]);
            } else {
                assert(!active0[v as int]);
            }
        }
        assert forall|i: int, dd: int|
            0 <= i < steps@.len() && steps@[i].kind is Launch && #[trigger] edge_listed(
                g.edges(),
                dd,
                steps@[i].node as int,
            ) implies exists|jj: int|
            0 <= jj < i && #[trigger] awaited_at(steps@, jj, dd) && (active0[dd] || launched_before(steps@, jj, dd)) by {
            if i < pre.len() {
                assert(steps@[i] == pre[i]);
                let jj = choose|jj: int|
                    0 <= jj < i && #[trigger] awaited_at(pre, jj, dd) && (active0[dd] || launched_before(pre, jj, dd));
                assert(awaited_at(steps@, jj, dd));
            } else {
                let e = choose|e: int|
                    0 <= e < g.edges().len() && g.edges()[e].0 == dd && g.edges()[e].1 == steps@[i].node as int;
                assert(dd == g.edges()[e].0 as int);
                assert(deps@.contains(dd as usize));
                let m = choose|m: int| 0 <= m < deps@.len() && deps@[m] == dd as usize;
                assert(awaited_ready(pre, active0, deps@[m] as int));
                let jj = choose|jj: int|
                    0 <= jj < pre.len() && #[trigger] awaited_at(pre, jj, deps@[m] as int) && (active0[deps@[m] as int]
                        || launched_before(pre, jj, deps@[m] as int));
                assert(awaited_at(steps@, jj, dd));
            }
        }
        assert forall|i: int|
            start <= i < steps@.len() - 1 implies #[trigger] serves_later(g.edges(), steps@, i, steps@.len() as int) by {
            assert(steps@[i] == pre[i]);
            if serves_later(g.edges(), pre, i, pre.len() as int) {
                let jj = choose|jj: int|
                    i < jj < pre.len() && #[trigger] launched_at(pre, jj, pre[jj].node as int) && edge_listed(
                        g.edges(),
                        pre[i].node as int,
                        pre[jj].node as int,
                    );
                assert(steps@[jj] == pre[jj]);
                assert(launched_at(steps@, jj, steps@[jj].node as int));
            } else {
                assert(launched_at(steps@, last, steps@[last].node as int));
            }
        }
        assert(steps@.subrange(0, start) =~= steps_in);
    }
}

/// The steps of starting `service`, when it exists: nothing when it is
/// already running or starting; else the services it depends on first (each
/// launched in the same way when it is not running or starting, then waited
/// for), and the service itself last.
pub open spec fn start_plan_ok(g: ServiceGraph, active0: Seq<bool>, v: int, steps: Seq<StartStep>) -> bool {
    &&& steps_named(g.names(), steps)
    &&& if active0[v] {
        steps.len() == 0
    } else {
        &&& steps.len() > 0
        &&& launched_at(steps, steps.len() - 1, v)
        &&& steps.last().depth == 0
        &&& launches_fresh(active0, steps)
        &&& dependencies_first(g.edges(), active0, steps)
        &&& forall|i: int| 0 <= i < steps.len() - 1 ==> #[trigger] serves_later(g.edges(), steps, i, steps.len() as int)
    }
}

/// The steps of starting `service` with the services it depends on, given
/// the recorded states; fails when no service has that name.
pub fn plan_start(graph: &ServiceGraph, statuses: &StatusTable, service: &str) -> (r: Result<
    Vec<StartStep>,
    OrchestratorError,
>)
    requires
        graph.wf(),
        !has_cycle(edge_rel(graph.edges()), graph.names().len() as int),
    ensures
        !graph.names().contains(service@) ==> (r matches Err(OrchestratorError::ServiceNotFound(m)) && m@ == service@),
        graph.names().contains(service@) ==> (r matches Ok(steps) && exists|v: int|
            0 <= v < graph.names().len() && graph.names()[v] == service@ && start_plan_ok(
                *graph,
                activity(graph.names(), statuses.entries()),
                v,
                steps@,
            )),
{
    let v = match graph.node_index(service) {
        Some(v) => v,
        None => {
            return Err(OrchestratorError::ServiceNotFound(String::from_str(service)));
        },
    };
    let ghost n = graph.names().len() as int;
    let ghost active0 = activity(graph.names(), statuses.entries());
    let count = graph.node_count();
    let order_names = graph.get_start_order();
    let ghost order: Seq<usize> = choose|order: Seq<usize>|
        is_topological_order(graph.edges(), n, order) && string_views(order_names->Ok_0@) == crate::graph::path_names(
            graph.names(),
            order,
        );
    assert(ordered_by(*graph, order));
    let mut active = initial_activity(graph, statuses);
    let mut steps: Vec<StartStep> = Vec::new();
    if active[v] {
        return Ok(steps);
    }
    proof {
        lemma_order_pos(*graph, order);
        assert forall|b: int| 0 <= b < active@.len() implies #[trigger] active@[b] == (active0[b] || launched_before(
            steps@,
            steps@.len() as int,
            b,
        )) by {}
    }
    plan_launch(graph, v, 0, &mut active, &mut steps, Ghost(active0), Ghost(order));
    Ok(steps)
}

/// The steps of starting every service in the start order, each with the
/// services it depends on, given the recorded states. Each start is
/// nested in the whole, which reports a failure once more.
pub fn plan_start_all(graph: &ServiceGraph, statuses: &StatusTable) -> (r: Vec<StartStep>)
    requires
        graph.wf(),
        !has_cycle(edge_rel(graph.edges()), graph.names().len() as int),
    ensures
        steps_named(graph.names(), r@),
        launches_fresh(activity(graph.names(), statuses.entries()), r@),
        dependencies_first(graph.edges(), activity(graph.names(), statuses.entries()), r@),
        forall|a: int|
            0 <= a < graph.names().len() ==> activity(graph.names(), statuses.entries())[a] || launched_before(
                r@,
                r@.len() as int,
                a,
            ),
{
    let ghost n = graph.names().len() as int;
    let ghost active0 = activity(graph.names(), statuses.entries());
    let count = graph.node_count();
    let order_names = graph.get_start_order();
    let ghost order: Seq<usize> = choose|order: Seq<usize>|
        is_topological_order(graph.edges(), n, order) && string_views(order_names->Ok_0@) == crate::graph::path_names(
            graph.names(),
            order,
        );
    assert(ordered_by(*graph, order));
    let mut active = initial_activity(graph, statuses);
    let mut steps: Vec<StartStep> = Vec::new();
    proof {
        lemma_order_pos(*graph, order);
    }
    let names = order_names.unwrap();
    assert(string_views(names@).len() == names@.len());
    assert(names@.len() == n);
    let mut k: usize = 0;
    while k < names.len()
        invariant
            graph.wf(),
            ordered_by(*graph, order),
            n == graph.names().len(),
            n == count,
            active0 == activity(graph.names(), statuses.entries()),
            string_views(names@) == crate::graph::path_names(graph.names(), order),
            names@.len() == n,
            forall|w: int| 0 <= w < n ==> 0 <= #[trigger] order_pos(order, w) < n && order[order_pos(order, w)] == w,
            k <= names@.len(),
            activity_after(active@, active0, steps@),
            launches_fresh(active0, steps@),
            dependencies_first(graph.edges(), active0, steps@),
            steps_named(graph.names(), steps@),
            forall|m: int| 0 <= m < k ==> active@[#[trigger] order[m] as int],
        decreases names@.len() - k,
    {
        assert(string_views(names@)[k as int] == names@[k as int]@);
        assert(crate::graph::path_names(graph.names(), order)[k as int] == graph.names()[order[k as int] as int]);
        assert(order[k as int] < n);
        let v = match graph.node_index(names[k].as_str()) {
            Some(v) => v,
            None => {
                assert(graph.names()[order[k as int] as int] == names@[k as int]@);
                assert(false);
                0
            },
        };
        proof {
            assert(graph.names()[order[k as int] as int] == names@[k as int]@);
            crate::graph::lemma_distinct_names(*graph);
            assert(v == order[k as int]);
        }
        if !active[v] {
            let ghost before = active@;
            let ghost steps_before = steps@;
            plan_launch(graph, v, 1, &mut active, &mut steps, Ghost(active0), Ghost(order));
            proof {
                lemma_prefix(steps_before, steps@);
                assert(launched_at(steps@, steps@.len() - 1, v as int));
                assert forall|m: int| 0 <= m < k + 1 implies active@[#[trigger] order[m] as int] by {
                    if m < k {
                        let a = order[m] as int;
                        assert(before[a]);
                        if !active0[a] {
                            assert(launched_before(steps_before, steps_before.len() as int, a));
                            let i = choose|i: int| 0 <= i < steps_before.len() && #[trigger] launched_at(steps_before, i, a);
                            assert(launched_at(steps@, i, a));
                        }
                    } else {
                        assert(launched_before(steps@, steps@.len() as int, v as int));
                    }
                }
            }
        }
        k = k + 1;
    }
    proof {
        assert forall|a: int| 0 <= a < n implies active0[a] || launched_before(steps@, steps@.len() as int, a) by {
            let m = order_pos(order, a);
            assert(active@[order[m] as int]);
        }
    }
    steps
}

/// Whether each service is running or starting, by node.
fn initial_activity(graph: &ServiceGraph, statuses: &StatusTable) -> (r: Vec<bool>)
    requires
        graph.wf(),
    ensures
        r@ == activity(graph.names(), statuses.entries()),
{
    let ghost n = graph.names().len() as int;
    let ghost active0 = activity(graph.names(), statuses.entries());
    let mut active: Vec<bool> = Vec::new();
    let mut a: usize = 0;
    while a < graph.node_count()
        invariant
            graph.wf(),
            n == graph.names().len(),
            active0 == activity(graph.names(), statuses.entries()),
            a <= n,
            active@.len() == a,
            forall|b: int| 0 <= b < a ==> #[trigger] active@[b] == active0[b],
        decreases n - a,
    {
        let name = graph.name_of(a);
        let on = match statuses.get_status(name.as_str()) {
            Some(s) => is_active_status(s),
            None => false,
        };
        active.push(on);
        a = a + 1;
    }
    assert(active@ =~= active0);
    active
}

/// One step of a stop: stop the service's process, forget that it was
/// ready, and announce it as stopped. `depth` counts the stops it is
/// nested in, as for a start.
#[derive(Debug, Clone)]
pub struct StopStep {
    pub service: String,
    pub node: usize,
    pub depth: usize,
}

/// Step `i` stops node `a`.
pub open spec fn stopped_at(steps: Seq<StopStep>, i: int, a: int) -> bool {
    &&& 0 <= i < steps.len()
    &&& steps[i].node == a
}

/// Node `a` is stopped by one of the first `j` steps.
pub open spec fn stopped_before(steps: Seq<StopStep>, j: int, a: int) -> bool {
    exists|i: int| 0 <= i < j && #[trigger] stopped_at(steps, i, a)
}

/// Each stop step names its node.
pub open spec fn stops_named(names: Seq<Seq<char>>, steps: Seq<StopStep>) -> bool {
    forall|i: int|
        0 <= i < steps.len() ==> (#[trigger] steps[i]).node < names.len() && steps[i].service@ == names[steps[i].node as int]
}

/// Only services that were running or starting are stopped, each once.
pub open spec fn stops_fresh(active0: Seq<bool>, steps: Seq<StopStep>) -> bool {
    forall|i: int|
        0 <= i < steps.len() ==> active0[(#[trigger] steps[i]).node as int] && !stopped_before(steps, i, steps[i].node as int)
}

/// When a service is stopped, each service that depends on it is stopped
/// already, or was not running or starting.
pub open spec fn dependents_first(edges: Seq<(usize, usize)>, active0: Seq<bool>, steps: Seq<StopStep>) -> bool {
    forall|i: int, w: int|
        0 <= i < steps.len() && #[trigger] edge_listed(edges, steps[i].node as int, w) ==> !active0[w]
            || stopped_before(steps, i, w)
}

/// A node is active while it was active at the start and is not stopped.
pub open spec fn activity_left(active: Seq<bool>, active0: Seq<bool>, steps: Seq<StopStep>) -> bool {
    &&& active.len() == active0.len()
    &&& forall|a: int| 0 <= a < active.len() ==> #[trigger] active[a] == (active0[a] && !stopped_before(steps, steps.len() as int, a))
}

/// Step `i` is followed, before step `hi`, by the stop of a service it
/// depends on.
pub open spec fn leads_to_later(edges: Seq<(usize, usize)>, steps: Seq<StopStep>, i: int, hi: int) -> bool {
    exists|j: int| i < j < hi && #[trigger] stopped_at(steps, j, steps[j].node as int) && edge_listed(
        edges,
        steps[j].node as int,
        steps[i].node as int,
    )
}

/// Stop steps before `j` are the same in a longer plan.
proof fn lemma_stop_prefix(s1: Seq<StopStep>, s2: Seq<StopStep>)
    requires
        s1.len() <= s2.len(),
        s2.subrange(0, s1.len() as int) == s1,
    ensures
        forall|i: int| 0 <= i < s1.len() ==> #[trigger] s2[i] == s1[i],
        forall|j: int, a: int| 0 <= j <= s1.len() ==> (#[trigger] stopped_before(s2, j, a) <==> stopped_before(s1, j, a)),
{
    assert forall|i: int| 0 <= i < s1.len() implies #[trigger] s2[i] == s1[i] by {
        assert(s2.subrange(0, s1.len() as int)[i] == s2[i]);
    }
    assert forall|j: int, a: int| 0 <= j <= s1.len() implies (#[trigger] stopped_before(s2, j, a) <==> stopped_before(
        s1,
        j,
        a,
    )) by {
        if stopped_before(s2, j, a) {
            let i = choose|i: int| 0 <= i < j && #[trigger] stopped_at(s2, i, a);
            assert(stopped_at(s1, i, a));
        }
        if stopped_before(s1, j, a) {
            let i = choose|i: int| 0 <= i < j && #[trigger] stopped_at(s1, i, a);
            assert(stopped_at(s2, i, a));
        }
    }
}

/// Stops `v` after the services that depend on it, stopping first those
/// that are running or starting.
fn plan_halt(
    g: &ServiceGraph,
    v: usize,
    depth: usize,
    active: &mut Vec<bool>,
    steps: &mut Vec<StopStep>,
    Ghost(active0): Ghost<Seq<bool>>,
    Ghost(order): Ghost<Seq<usize>>,
)
    requires
        g.wf(),
        ordered_by(*g, order),
        v < g.names().len(),
        depth <= order_pos(order, v as int) + 1,
        active0.len() == g.names().len(),
        old(active)@[v as int],
        activity_left(old(active)@, active0, old(steps)@),
        stops_fresh(active0, old(steps)@),
        dependents_first(g.edges(), active0, old(steps)@),
        stops_named(g.names(), old(steps)@),
    ensures
        activity_left(final(active)@, active0, final(steps)@),
        stops_fresh(active0, final(steps)@),
        dependents_first(g.edges(), active0, final(steps)@),
        stops_named(g.names(), final(steps)@),
        old(steps)@.len() < final(steps)@.len(),
        final(steps)@.subrange(0, old(steps)@.len() as int) == old(steps)@,
        stopped_at(final(steps)@, final(steps)@.len() - 1, v as int),
        final(steps)@.last().depth == depth,
        forall|i: int| old(steps)@.len() <= i < final(steps)@.len() ==> (#[trigger] final(steps)@[i]).depth >= depth,
        forall|i: int|
            old(steps)@.len() <= i < final(steps)@.len() - 1 ==> #[trigger] leads_to_later(
                g.edges(),
                final(steps)@,
                i,
                final(steps)@.len() as int,
            ),
        forall|a: int|
            0 <= a < g.names().len() && #[trigger] order_pos(order, a) < order_pos(order, v as int) ==> final(active)@[a]
                == old(active)@[a],
    decreases g.names().len() - order_pos(order, v as int),
{
    let count = g.node_count();
    proof {
        lemma_order_pos(*g, order);
    }
    let ghost n = g.names().len() as int;
    let ghost start = steps@.len() as int;
    let ghost active_in = active@;
    let ghost steps_in = steps@;
    let ws = g.dependent_nodes(v);
    assert(steps@.subrange(0, start) =~= steps_in);
    let mut k: usize = 0;
    while k < ws.len()
        invariant
            g.wf(),
            ordered_by(*g, order),
            n == g.names().len(),
            n == count,
            v < n,
            depth <= order_pos(order, v as int) + 1,
            active0.len() == n,
            forall|x: usize| #[trigger] ws@.contains(x) <==> edge_listed(g.edges(), v as int, x as int),
            forall|m: int| 0 <= m < ws@.len() ==> #[trigger] ws@[m] < n,
            forall|w: int| 0 <= w < n ==> 0 <= #[trigger] order_pos(order, w) < n && order[order_pos(order, w)] == w,
            forall|a: int, b: int|
                0 <= a < n && 0 <= b < n && #[trigger] edge_listed(g.edges(), a, b) ==> order_pos(order, a) < order_pos(
                    order,
                    b,
                ),
            k <= ws@.len(),
            active@[v as int],
            activity_left(active@, active0, steps@),
            stops_fresh(active0, steps@),
            dependents_first(g.edges(), active0, steps@),
            stops_named(g.names(), steps@),
            0 <= start <= steps@.len(),
            steps@.subrange(0, start) == steps_in,
            forall|i: int| start <= i < steps@.len() ==> (#[trigger] steps@[i]).depth >= depth,
            forall|i: int|
                start <= i < steps@.len() ==> #[trigger] leads_to_later(g.edges(), steps@, i, steps@.len() as int)
                    || edge_listed(g.edges(), v as int, steps@[i].node as int),
            forall|m: int| 0 <= m < k ==> !active@[#[trigger] ws@[m] as int],
            forall|a: int|
                0 <= a < n && #[trigger] order_pos(order, a) <= order_pos(order, v as int) ==> active@[a] == active_in[a],
        decreases ws@.len() - k,
    {
        let w = ws[k];
        assert(ws@.contains(w));
        assert(edge_listed(g.edges(), v as int, w as int));
        let ghost before = steps@;
        let ghost active_before = active@;
        if active[w] {
            plan_halt(g, w, depth + 1, active, steps, Ghost(active0), Ghost(order));
            let ghost cur = steps@;
            proof {
                assert forall|a: int|
                    0 <= a < n && #[trigger] order_pos(order, a) <= order_pos(order, v as int) implies active@[a]
                    == active_in[a] by {
                    assert(order_pos(order, v as int) < order_pos(order, w as int));
                    assert(active@[a] == active_before[a]);
                }
                assert(cur.subrange(0, before.len() as int) == before);
                lemma_stop_prefix(before, cur);
                let last = cur.len() - 1;
                assert(stopped_at(cur, last, w as int));
                assert forall|i: int|
                    start <= i < cur.len() implies #[trigger] leads_to_later(g.edges(), cur, i, cur.len() as int)
                    || edge_listed(g.edges(), v as int, cur[i].node as int) by {
                    if i < before.len() {
                        assert(cur[i] == before[i]);
                        if leads_to_later(g.edges(), before, i, before.len() as int) {
                            let j = choose|j: int|
                                i < j < before.len() && #[trigger] stopped_at(before, j, before[j].node as int)
                                    && edge_listed(g.edges(), before[j].node as int, before[i].node as int);
                            assert(cur[j] == before[j]);
                            assert(stopped_at(cur, j, cur[j].node as int));
                        }
                    } else if i == last {
                        assert(cur[i].node == w);
                    }
                }
                assert forall|m: int| 0 <= m < k + 1 implies !active@[#[trigger] ws@[m] as int] by {
                    if m < k {
                        let a = ws@[m] as int;
                        assert(!active_before[a]);
                        if active@[a] {
                            assert(!stopped_before(cur, cur.len() as int, a));
                            assert(stopped_before(before, before.len() as int, a) || !active0[a]);
                            if stopped_before(before, before.len() as int, a) {
                                let i = choose|i: int| 0 <= i < before.len() && #[trigger] stopped_at(before, i, a);
                                assert(stopped_at(cur, i, a));
                            }
                        }
                    } else {
                        assert(stopped_before(cur, cur.len() as int, w as int));
                    }
                }
            }
        }
        k = k + 1;
    }
    let ghost pre = steps@;
    proof {
        assert(!stopped_before(pre, pre.len() as int, v as int));
        assert(active0[v as int]);
    }
    let name = g.name_of(v);
    steps.push(StopStep { service: name, node: v, depth });
    active.set(v, false);
    let ghost now = steps@;
    proof {
        let last = pre.len() as int;
        assert(now.subrange(0, pre.len() as int) =~= pre);
        lemma_stop_prefix(pre, now);
        assert(stopped_at(now, last, v as int));
        assert forall|a: int| 0 <= a < active@.len() implies #[trigger] active@[a] == (active0[a] && !stopped_before(
            now,
            now.len() as int,
            a,
        )) by {
            if a != v {
                if stopped_before(now, now.len() as int, a) {
                    let i = choose|i: int| 0 <= i < now.len() && #[trigger] stopped_at(now, i, a);
                    assert(i < pre.len());
                    assert(stopped_at(pre, i, a));
                }
                if stopped_before(pre, pre.len() as int, a) {
                    let i = choose|i: int| 0 <= i < pre.len() && #[trigger] stopped_at(pre, i, a);
                    assert(stopped_at(now, i, a));
                }
            } else {
                assert(stopped_before(now, now.len() as int, a));
            }
        }
        assert forall|i: int|
            0 <= i < now.len() implies active0[(#[trigger] now[i]).node as int] && !stopped_before(
            now,
            i,
            now[i].node as int,
        ) by {
            if i < pre.len() {
                assert(now[i] == pre[i]);
            }
        }
        assert forall|i: int, w: int|
            0 <= i < now.len() && #[trigger] edge_listed(g.edges(), now[i].node as int, w) implies !active0[w]
            || stopped_before(now, i, w) by {
            if i < pre.len() {
                assert(now[i] == pre[i]);
            } else {
                let e = choose|e: int|
                    0 <= e < g.edges().len() && g.edges()[e].0 == v as int && g.edges()[e].1 == w;
                assert(w == g.edges()[e].1 as int);
                assert(ws@.contains(w as usize));
                let m = choose|m: int| 0 <= m < ws@.len() && ws@[m] == w as usize;
                assert(!active@[ws@[m] as int]);
                assert(w != v) by {
                    assert(order_pos(order, v as int) < order_pos(order, w));
                }
            }
        }
        assert forall|i: int| 0 <= i < now.len() implies (#[trigger] now[i]).node < g.names().len()
            && now[i].service@ == g.names()[now[i].node as int] by {
            if i < pre.len() {
                assert(now[i] == pre[i]);
            }
        }
        assert forall|i: int|
            start <= i < now.len() - 1 implies #[trigger] leads_to_later(g.edges(), now, i, now.len() as int) by {
            assert(now[i] == pre[i]);
            if leads_to_later(g.edges(), pre, i, pre.len() as int) {
                let jj = choose|jj: int|
                    i < jj < pre.len() && #[trigger] stopped_at(pre, jj, pre[jj].node as int) && edge_listed(
                        g.edges(),
                        pre[jj].node as int,
                        pre[i].node as int,
                    );
                assert(now[jj] == pre[jj]);
                assert(stopped_at(now, jj, now[jj].node as int));
            } else {
                assert(stopped_at(now, last, now[last].node as int));
            }
        }
        assert forall|i: int| start <= i < now.len() implies (#[trigger] now[i]).depth >= depth by {
            if i < pre.len() {
                assert(now[i] == pre[i]);
            }
        }
        assert(now.subrange(0, start) =~= steps_in);
    }
}

/// The steps of stopping `service`, when it exists: nothing when it is not
/// running or starting; else the services that depend on it first (each
/// stopped in the same way when it is running or starting), and the service
/// itself last.
pub open spec fn stop_plan_ok(g: ServiceGraph, active0: Seq<bool>, v: int, steps: Seq<StopStep>) -> bool {
    &&& stops_named(g.names(), steps)
    &&& if !active0[v] {
        steps.len() == 0
    } else {
        &&& steps.len() > 0
        &&& stopped_at(steps, steps.len() - 1, v)
        &&& steps.last().depth == 0
        &&& stops_fresh(active0, steps)
        &&& dependents_first(g.edges(), active0, steps)
        &&& forall|i: int| 0 <= i < steps.len() - 1 ==> #[trigger] leads_to_later(g.edges(), steps, i, steps.len() as int)
    }
}

/// The steps of stopping `service` and, before it, the services that depend
/// on it, given the recorded states; fails when no service has that name.
pub fn plan_stop(graph: &ServiceGraph, statuses: &StatusTable, service: &str) -> (r: Result<
    Vec<StopStep>,
    OrchestratorError,
>)
    requires
        graph.wf(),
        !has_cycle(edge_rel(graph.edges()), graph.names().len() as int),
    ensures
        !graph.names().contains(service@) ==> (r matches Err(OrchestratorError::ServiceNotFound(m)) && m@ == service@),
        graph.names().contains(service@) ==> (r matches Ok(steps) && exists|v: int|
            0 <= v < graph.names().len() && graph.names()[v] == service@ && stop_plan_ok(
                *graph,
                activity(graph.names(), statuses.entries()),
                v,
                steps@,
            )),
{
    let v = match graph.node_index(service) {
        Some(v) => v,
        None => {
            return Err(OrchestratorError::ServiceNotFound(String::from_str(service)));
        },
    };
    let ghost n = graph.names().len() as int;
    let ghost active0 = activity(graph.names(), statuses.entries());
    let count = graph.node_count();
    let order_names = graph.get_start_order();
    let ghost order: Seq<usize> = choose|order: Seq<usize>|
        is_topological_order(graph.edges(), n, order) && string_views(order_names->Ok_0@) == crate::graph::path_names(
            graph.names(),
            order,
        );
    assert(ordered_by(*graph, order));
    let mut active = initial_activity(graph, statuses);
    let mut steps: Vec<StopStep> = Vec::new();
    if !active[v] {
        return Ok(steps);
    }
    proof {
        lemma_order_pos(*graph, order);
        assert forall|b: int| 0 <= b < active@.len() implies #[trigger] active@[b] == (active0[b] && !stopped_before(
            steps@,
            steps@.len() as int,
            b,
        )) by {}
    }
    plan_halt(graph, v, 0, &mut active, &mut steps, Ghost(active0), Ghost(order));
    Ok(steps)
}

/// The steps of stopping every running or starting service, the reverse
/// of the start order, each after the services that depend on it. Each
/// stop is nested in the whole, which reports a failure once more.
pub fn plan_stop_all(graph: &ServiceGraph, statuses: &StatusTable) -> (r: Vec<StopStep>)
    requires
        graph.wf(),
        !has_cycle(edge_rel(graph.edges()), graph.names().len() as int),
    ensures
        stops_named(graph.names(), r@),
        stops_fresh(activity(graph.names(), statuses.entries()), r@),
        dependents_first(graph.edges(), activity(graph.names(), statuses.entries()), r@),
        forall|a: int|
            0 <= a < graph.names().len() ==> (activity(graph.names(), statuses.entries())[a] <==> stopped_before(
                r@,
                r@.len() as int,
                a,
            )),
{
    let ghost n = graph.names().len() as int;
    let ghost active0 = activity(graph.names(), statuses.entries());
    let count = graph.node_count();
    let order_names = graph.get_start_order();
    let ghost order: Seq<usize> = choose|order: Seq<usize>|
        is_topological_order(graph.edges(), n, order) && string_views(order_names->Ok_0@) == crate::graph::path_names(
            graph.names(),
            order,
        );
    assert(ordered_by(*graph, order));
    let mut active = initial_activity(graph, statuses);
    let mut steps: Vec<StopStep> = Vec::new();
    proof {
        lemma_order_pos(*graph, order);
    }
    let names = order_names.unwrap();
    assert(string_views(names@).len() == names@.len());
    assert(names@.len() == n);
    let mut k: usize = names.len();
    while k > 0
        invariant
            graph.wf(),
            ordered_by(*graph, order),
            n == graph.names().len(),
            n == count,
            active0 == activity(graph.names(), statuses.entries()),
            string_views(names@) == crate::graph::path_names(graph.names(), order),
            names@.len() == n,
            forall|w: int| 0 <= w < n ==> 0 <= #[trigger] order_pos(order, w) < n && order[order_pos(order, w)] == w,
            k <= names@.len(),
            activity_left(active@, active0, steps@),
            stops_fresh(active0, steps@),
            dependents_first(graph.edges(), active0, steps@),
            stops_named(graph.names(), steps@),
            forall|m: int| k <= m < n ==> !active@[#[trigger] order[m] as int],
        decreases k,
    {
        k = k - 1;
        assert(string_views(names@)[k as int] == names@[k as int]@);
        assert(crate::graph::path_names(graph.names(), order)[k as int] == graph.names()[order[k as int] as int]);
        assert(order[k as int] < n);
        let v = match graph.node_index(names[k].as_str()) {
            Some(v) => v,
            None => {
                assert(false);
                0
            },
        };
        proof {
            crate::graph::lemma_distinct_names(*graph);
            assert(v == order[k as int]);
        }
        if active[v] {
            let ghost before = active@;
            let ghost steps_before = steps@;
            plan_halt(graph, v, 1, &mut active, &mut steps, Ghost(active0), Ghost(order));
            proof {
                lemma_stop_prefix(steps_before, steps@);
                assert(stopped_at(steps@, steps@.len() - 1, v as int));
                assert(stopped_before(steps@, steps@.len() as int, v as int));
                assert forall|m: int| k <= m < n implies !active@[#[trigger] order[m] as int] by {
                    if m > k {
                        let a = order[m] as int;
                        assert(!before[a]);
                        if active@[a] {
                            if stopped_before(steps_before, steps_before.len() as int, a) {
                                let i = choose|i: int| 0 <= i < steps_before.len() && #[trigger] stopped_at(steps_before, i, a);
                                assert(stopped_at(steps@, i, a));
                            }
                        }
                    }
                }
            }
        }
    }
    proof {
        assert forall|a: int| 0 <= a < n implies (active0[a] <==> stopped_before(steps@, steps@.len() as int, a)) by {
            let m = order_pos(order, a);
            assert(!active@[order[m] as int]);
            if stopped_before(steps@, steps@.len() as int, a) {
                let i = choose|i: int| 0 <= i < steps@.len() && #[trigger] stopped_at(steps@, i, a);
                assert(active0[steps@[i].node as int]);
            }
        }
    }
    steps
}

/// There is a walk along dependency edges (dependency to dependent) from
/// node `a` to node `b`.
pub open spec fn leads_to(edges: Seq<(usize, usize)>, n: int, a: int, b: int) -> bool {
    exists|p: Seq<usize>| #[trigger] is_walk(edge_rel(edges), n, p) && p[0] == a && p.last() == b
}

/// Step `i` of a start plan, and every later one, works towards the
/// service the plan starts.
proof fn lemma_start_step_leads(g: ServiceGraph, active0: Seq<bool>, v: int, steps: Seq<StartStep>, i: int)
    requires
        start_plan_ok(g, active0, v, steps),
        !active0[v],
        0 <= i < steps.len(),
    ensures
        leads_to(g.edges(), g.names().len() as int, steps[i].node as int, v),
    decreases steps.len() - i,
{
    let n = g.names().len() as int;
    let e = edge_rel(g.edges());
    if i == steps.len() - 1 {
        let p = seq![steps[i].node];
        assert(is_walk(e, n, p));
    } else {
        assert(serves_later(g.edges(), steps, i, steps.len() as int));
        let j = choose|j: int|
            i < j < steps.len() && #[trigger] launched_at(steps, j, steps[j].node as int) && edge_listed(
                g.edges(),
                steps[i].node as int,
                steps[j].node as int,
            );
        lemma_start_step_leads(g, active0, v, steps, j);
        let q = choose|q: Seq<usize>| #[trigger] is_walk(e, n, q) && q[0] == steps[j].node && q.last() == v;
        let p = seq![steps[i].node] + q;
        assert forall|k: int| 0 <= k < p.len() implies #[trigger] p[k] < n by {
            if k > 0 {
                assert(p[k] == q[k - 1]);
            }
        }
        assert forall|k: int| 0 <= k < p.len() - 1 implies #[trigger] walk_step(e, p, k) by {
            if k > 0 {
                assert(walk_step(e, q, k - 1));
                assert(p[k] == q[k - 1] && p[k + 1] == q[k]);
            }
        }
        assert(is_walk(e, n, p));
        assert(p.last() == q.last());
    }
}

/// A start launches and waits for nothing but the service asked for and the
/// services it depends on, directly or through others.
pub proof fn law_start_plan_stays_within_dependencies(
    g: ServiceGraph,
    active0: Seq<bool>,
    v: int,
    steps: Seq<StartStep>,
)
    requires
        0 <= v < active0.len(),
        start_plan_ok(g, active0, v, steps),
    ensures
        forall|i: int| 0 <= i < steps.len() ==> leads_to(g.edges(), g.names().len() as int, #[trigger] steps[i].node as int, v),
{
    assert forall|i: int| 0 <= i < steps.len() implies leads_to(
        g.edges(),
        g.names().len() as int,
        #[trigger] steps[i].node as int,
        v,
    ) by {
        lemma_start_step_leads(g, active0, v, steps, i);
    }
}

/// Step `i` of a stop plan stops a service that depends on the service the
/// plan stops.
proof fn lemma_stop_step_follows(g: ServiceGraph, active0: Seq<bool>, v: int, steps: Seq<StopStep>, i: int)
    requires
        stop_plan_ok(g, active0, v, steps),
        active0[v],
        0 <= i < steps.len(),
    ensures
        leads_to(g.edges(), g.names().len() as int, v, steps[i].node as int),
    decreases steps.len() - i,
{
    let n = g.names().len() as int;
    let e = edge_rel(g.edges());
    if i == steps.len() - 1 {
        let p = seq![steps[i].node];
        assert(is_walk(e, n, p));
    } else {
        assert(leads_to_later(g.edges(), steps, i, steps.len() as int));
        let j = choose|j: int|
            i < j < steps.len() && #[trigger] stopped_at(steps, j, steps[j].node as int) && edge_listed(
                g.edges(),
                steps[j].node as int,
                steps[i].node as int,
            );
        lemma_stop_step_follows(g, active0, v, steps, j);
        let q = choose|q: Seq<usize>| #[trigger] is_walk(e, n, q) && q[0] == v && q.last() == steps[j].node;
        let p = q.push(steps[i].node);
        assert forall|k: int| 0 <= k < p.len() implies #[trigger] p[k] < n by {
            if k < q.len() {
                assert(p[k] == q[k]);
            }
        }
        assert forall|k: int| 0 <= k < p.len() - 1 implies #[trigger] walk_step(e, p, k) by {
            if k < q.len() - 1 {
                assert(walk_step(e, q, k));
                assert(p[k] == q[k] && p[k + 1] == q[k + 1]);
            } else {
                assert(p[k] == q.last());
            }
        }
        assert(is_walk(e, n, p));
    }
}

/// A stop stops nothing but the service asked for and the services that
/// depend on it, directly or through others.
pub proof fn law_stop_plan_stays_within_dependents(g: ServiceGraph, active0: Seq<bool>, v: int, steps: Seq<StopStep>)
    requires
        0 <= v < active0.len(),
        stop_plan_ok(g, active0, v, steps),
    ensures
        forall|i: int| 0 <= i < steps.len() ==> leads_to(g.edges(), g.names().len() as int, v, #[trigger] steps[i].node as int),
{
    assert forall|i: int| 0 <= i < steps.len() implies leads_to(
        g.edges(),
        g.names().len() as int,
        v,
        #[trigger] steps[i].node as int,
    ) by {
        lemma_stop_step_follows(g, active0, v, steps, i);
    }
}

/// The services a restart starts again once its stop steps ran, in order:
/// the stop order reversed (so the restarted service first, then the
/// services that depend on it), or the service alone when nothing was
/// running to stop.
pub open spec fn restart_starts(service: Seq<char>, stops: Seq<StopStep>) -> Seq<Seq<char>> {
    if stops.len() == 0 {
        seq![service]
    } else {
        Seq::new(stops.len(), |k: int| stops[stops.len() - 1 - k].service@)
    }
}

/// The steps of restarting `service`: stopping it and the services that
/// depend on it, then the services to start again, in order (each is then
/// started with its dependencies); fails when no service has that name.
pub fn plan_restart(graph: &ServiceGraph, statuses: &StatusTable, service: &str) -> (r: Result<
    (Vec<StopStep>, Vec<String>),
    OrchestratorError,
>)
    requires
        graph.wf(),
        !has_cycle(edge_rel(graph.edges()), graph.names().len() as int),
    ensures
        !graph.names().contains(service@) ==> (r matches Err(OrchestratorError::ServiceNotFound(m)) && m@ == service@),
        graph.names().contains(service@) ==> (r matches Ok((stops, starts)) && exists|v: int|
            0 <= v < graph.names().len() && graph.names()[v] == service@ && stop_plan_ok(
                *graph,
                activity(graph.names(), statuses.entries()),
                v,
                stops@,
            ) && starts@.map_values(|s: String| s@) == restart_starts(service@, stops@)),
{
    let stops = match plan_stop(graph, statuses, service) {
        Ok(stops) => stops,
        Err(e) => {
            return Err(e);
        },
    };
    let mut starts: Vec<String> = Vec::new();
    if stops.len() == 0 {
        starts.push(String::from_str(service));
        proof {
            assert(starts@.map_values(|s: String| s@) =~= restart_starts(service@, stops@));
        }
    } else {
        let len = stops.len();
        let mut i: usize = len;
        while i > 0
            invariant
                i <= len,
                len == stops@.len(),
                starts@.len() == len - i,
                forall|k: int| 0 <= k < starts@.len() ==> #[trigger] starts@[k]@ == stops@[len - 1 - k].service@,
            decreases i,
        {
            i = i - 1;
            let name = stops[i].service.clone();
            starts.push(name);
        }
        proof {
            assert(starts@.map_values(|s: String| s@) =~= restart_starts(service@, stops@));
        }
    }
    Ok((stops, starts))
}

/// A restart starts the restarted service first, and never starts a
/// service before one it depends on among those it starts again.
pub proof fn law_restart_starts_dependencies_first(g: ServiceGraph, active0: Seq<bool>, v: int, steps: Seq<StopStep>)
    requires
        0 <= v < active0.len(),
        stop_plan_ok(g, active0, v, steps),
    ensures
        restart_starts(g.names()[v], steps).len() > 0,
        restart_starts(g.names()[v], steps)[0] == g.names()[v],
        forall|p: int, q: int|
            0 <= p < q < steps.len() ==> !edge_listed(
                g.edges(),
                #[trigger] steps[steps.len() - 1 - q].node as int,
                #[trigger] steps[steps.len() - 1 - p].node as int,
            ),
{
    let n = steps.len() as int;
    if n > 0 {
        assert(stopped_at(steps, n - 1, v));
        assert(restart_starts(g.names()[v], steps)[0] == steps[n - 1].service@);
    }
    assert forall|p: int, q: int| 0 <= p < q < steps.len() implies !edge_listed(
        g.edges(),
        #[trigger] steps[steps.len() - 1 - q].node as int,
        #[trigger] steps[steps.len() - 1 - p].node as int,
    ) by {
        let k = n - 1 - p;
        let m = n - 1 - q;
        let w = steps[k].node as int;
        if edge_listed(g.edges(), steps[m].node as int, w) {
            assert(active0[w]);
            assert(stopped_before(steps, m, w));
            let m2 = choose|i: int| 0 <= i < m && #[trigger] stopped_at(steps, i, w);
            assert(stopped_before(steps, k, steps[k].node as int)) by {
                assert(stopped_at(steps, m2, w));
            }
        }
    }
}

/// Along a chain of services that were running or starting, each
/// depending on the one before and the first being the stopped service,
/// every service is stopped.
proof fn lemma_stop_chain(g: ServiceGraph, active0: Seq<bool>, v: int, steps: Seq<StopStep>, p: Seq<usize>, k: int)
    requires
        0 <= v < active0.len(),
        active0[v],
        stop_plan_ok(g, active0, v, steps),
        is_walk(edge_rel(g.edges()), g.names().len() as int, p),
        p[0] == v,
        forall|m: int| 0 <= m < p.len() ==> active0[#[trigger] p[m] as int],
        0 <= k < p.len(),
    ensures
        stopped_before(steps, steps.len() as int, p[k] as int),
    decreases k,
{
    if k == 0 {
        assert(stopped_at(steps, steps.len() - 1, v));
    } else {
        lemma_stop_chain(g, active0, v, steps, p, k - 1);
        let i = choose|i: int| 0 <= i < steps.len() && #[trigger] stopped_at(steps, i, p[k - 1] as int);
        assert(walk_step(edge_rel(g.edges()), p, k - 1));
        assert(edge_listed(g.edges(), steps[i].node as int, p[k] as int));
        assert(active0[p[k] as int]);
        let j = choose|j: int| 0 <= j < i && #[trigger] stopped_at(steps, j, p[k] as int);
        assert(stopped_at(steps, j, p[k] as int));
    }
}

/// Stopping a service that was running or starting stops every service
/// that depends on it, directly or through others, along a chain of
/// services that were all running or starting.
pub proof fn law_stop_plan_reaches_active_dependents(
    g: ServiceGraph,
    active0: Seq<bool>,
    v: int,
    steps: Seq<StopStep>,
    chain: Seq<usize>,
)
    requires
        0 <= v < active0.len(),
        active0[v],
        stop_plan_ok(g, active0, v, steps),
        is_walk(edge_rel(g.edges()), g.names().len() as int, chain),
        chain[0] == v,
        forall|m: int| 0 <= m < chain.len() ==> active0[#[trigger] chain[m] as int],
    ensures
        stopped_before(steps, steps.len() as int, chain.last() as int),
{
    lemma_stop_chain(g, active0, v, steps, chain, chain.len() - 1);
}

/// Along a chain of services that were neither running nor starting, each
/// depended on by the next and the last being the started service, every
/// service is launched.
proof fn lemma_start_chain(g: ServiceGraph, active0: Seq<bool>, v: int, steps: Seq<StartStep>, p: Seq<usize>, k: int)
    requires
        0 <= v < active0.len(),
        !active0[v],
        start_plan_ok(g, active0, v, steps),
        is_walk(edge_rel(g.edges()), g.names().len() as int, p),
        p.last() == v,
        forall|m: int| 0 <= m < p.len() ==> !active0[#[trigger] p[m] as int],
        0 <= k < p.len(),
    ensures
        launched_before(steps, steps.len() as int, p[k] as int),
    decreases p.len() - k,
{
    if k == p.len() - 1 {
        assert(launched_at(steps, steps.len() - 1, v));
    } else {
        lemma_start_chain(g, active0, v, steps, p, k + 1);
        let i = choose|i: int| 0 <= i < steps.len() && #[trigger] launched_at(steps, i, p[k + 1] as int);
        assert(walk_step(edge_rel(g.edges()), p, k));
        assert(edge_listed(g.edges(), p[k] as int, steps[i].node as int));
        assert(!active0[p[k] as int]);
        let j = choose|j: int| 0 <= j < i && #[trigger] awaited_at(steps, j, p[k] as int) && (active0[p[k] as int]
            || launched_before(steps, j, p[k] as int));
        let l = choose|l: int| 0 <= l < j && #[trigger] launched_at(steps, l, p[k] as int);
        assert(launched_at(steps, l, p[k] as int));
    }
}

/// Starting a service that was neither running nor starting launches every
/// service it depends on, directly or through others, along a chain of
/// services that were all neither running nor starting.
pub proof fn law_start_plan_reaches_stopped_dependencies(
    g: ServiceGraph,
    active0: Seq<bool>,
    v: int,
    steps: Seq<StartStep>,
    chain: Seq<usize>,
)
    requires
        0 <= v < active0.len(),
        !active0[v],
        start_plan_ok(g, active0, v, steps),
        is_walk(edge_rel(g.edges()), g.names().len() as int, chain),
        chain.last() == v,
        forall|m: int| 0 <= m < chain.len() ==> !active0[#[trigger] chain[m] as int],
    ensures
        launched_before(steps, steps.len() as int, chain[0] as int),
{
    lemma_start_chain(g, active0, v, steps, chain, 0);
}

/// Starting a service that is running or starting does nothing, and so does
/// stopping one that is neither: a second start or stop in a row is no
/// step at all.
pub proof fn law_repeated_start_and_stop_do_nothing(
    g: ServiceGraph,
    active0: Seq<bool>,
    v: int,
    starts: Seq<StartStep>,
    stops: Seq<StopStep>,
)
    requires
        0 <= v < active0.len(),
    ensures
        active0[v] && start_plan_ok(g, active0, v, starts) ==> starts.len() == 0,
        !active0[v] && stop_plan_ok(g, active0, v, stops) ==> stops.len() == 0,
{
}

} // verus!
