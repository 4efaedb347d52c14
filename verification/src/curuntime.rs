//! Runtime plan compiler and runtime composition shell.
//!
//! The plan compiler derives a deterministic execution order over the nodes
//! of a graph: for every edge the source runs before the destination, and
//! among the nodes that are ready at each step the lowest insertion index
//! wins. A cyclic graph admits no such order, and compilation fails on it —
//! exactly on it — with [`CuError::CycleDetected`].

use vstd::prelude::*;

use crate::config::{config_wf, CuConfig, CuConfigView, Node, NodeId, NodeInstanceConfig};
use crate::common::CuListsManager;
use crate::{CuError, CuResult};

verus! {

/// How many recent iterations the runtime keeps for diagnostics and replay.
pub const HISTORY_CAPACITY: usize = 10;

/// `v` is the sequence of per-node instance configurations of `c`, one per
/// node in index order.
pub open spec fn instance_configs_of(c: CuConfigView, v: Seq<Option<&NodeInstanceConfig>>) -> bool {
    &&& v.len() == c.nodes.len()
    &&& forall|i: int|
        0 <= i < v.len() ==> match #[trigger] v[i] {
            Some(cc) => c.nodes[i].config == Some(cc@),
            None => c.nodes[i].config is None,
        }
}

/// The runtime composition shell: the task instances built by an external
/// factory, plus the bounded history of recent iterations.
pub struct CuRuntime<CT, CL: Sized + PartialEq> {
    pub task_instances: CT,
    pub copper_lists: CuListsManager<CL>,
}

impl<CT, CL: Sized + PartialEq> CuRuntime<CT, CL> {
    /// Builds the runtime: hands the ordered per-node instance
    /// configurations to the factory and owns what it returns, together
    /// with an empty history of capacity [`HISTORY_CAPACITY`]. The first
    /// factory failure aborts construction with
    /// [`CuError::TaskInstantiationError`] carrying the cause; no partially
    /// built runtime is ever returned.
    pub fn new<'a, F: Fn(Vec<Option<&'a NodeInstanceConfig>>) -> CuResult<CT>>(
        config: &'a CuConfig,
        tasks_instanciator: F,
    ) -> (r: CuResult<Self>)
        requires
            forall|v: Vec<Option<&'a NodeInstanceConfig>>| #[trigger] call_requires(
                tasks_instanciator,
                (v,),
            ),
        ensures
            match r {
                Ok(rt) => {
                    &&& rt.copper_lists@ == Seq::<CL>::empty()
                    &&& rt.copper_lists.wf()
                    &&& rt.copper_lists.spec_capacity() == HISTORY_CAPACITY
                    &&& exists|v: Vec<Option<&'a NodeInstanceConfig>>, ct: CT|
                        instance_configs_of(config@, v@) && #[trigger] call_ensures(
                            tasks_instanciator,
                            (v,),
                            Ok(ct),
                        ) && ct == rt.task_instances
                },
                Err(e) => e matches CuError::TaskInstantiationError(cause) && exists|
                    v: Vec<Option<&'a NodeInstanceConfig>>,
                    e2: CuError,
                |
                    instance_configs_of(config@, v@) && #[trigger] call_ensures(
                        tasks_instanciator,
                        (v,),
                        Err(e2),
                    ) && *cause == e2,
            },
    {
        let all_instances_configs = config.get_all_instances_configs();
        let ghost configs_snapshot = all_instances_configs;
        let task_instances = match tasks_instanciator(all_instances_configs) {
            Ok(ct) => ct,
            Err(cause) => {
                proof {
                    assert(instance_configs_of(config@, configs_snapshot@));
                    assert(call_ensures(
                        tasks_instanciator,
                        (configs_snapshot,),
                        Err::<CT, CuError>(cause),
                    ));
                }
                let ghost cause_snapshot = cause;
                return Err(CuError::TaskInstantiationError(Box::new(cause)));
            },
        };
        let copper_lists = match CuListsManager::<CL>::new(HISTORY_CAPACITY) {
            Ok(m) => m,
            Err(_) => vstd::pervasive::unreached(),
        };
        proof {
            assert(instance_configs_of(config@, configs_snapshot@));
            assert(call_ensures(
                tasks_instanciator,
                (configs_snapshot,),
                Ok::<CT, CuError>(task_instances),
            ));
        }
        Ok(Self { task_instances, copper_lists })
    }
}

/// The message-slot role a node plays during one iteration.
#[derive(Clone, Copy, Debug, PartialEq, Eq, Structural)]
pub enum TaskRole {
    /// No incoming edges: the task only produces into its output slot.
    Source,
    /// Incoming and outgoing edges: the task consumes its predecessors'
    /// slots and produces into its own.
    Transform,
    /// No outgoing edges: the task only consumes.
    Sink,
}

/// Some edge enters `v`.
pub open spec fn has_incoming(c: CuConfigView, v: int) -> bool {
    exists|k: int| 0 <= k < c.edges.len() && (#[trigger] c.edges[k]).dst == v
}

/// Some edge leaves `v`.
pub open spec fn has_outgoing(c: CuConfigView, v: int) -> bool {
    exists|k: int| 0 <= k < c.edges.len() && (#[trigger] c.edges[k]).src == v
}

/// The role of node `node_id`, read off the graph topology: no incoming
/// edges makes a source, no outgoing edges makes a sink, both kinds make a
/// transform. This mapping is derived once from the graph, not re-derived
/// per iteration.
pub fn node_role(config: &CuConfig, node_id: NodeId) -> (r: TaskRole)
    requires
        node_id < config@.nodes.len(),
    ensures
        r == (if !has_incoming(config@, node_id as int) {
            TaskRole::Source
        } else if !has_outgoing(config@, node_id as int) {
            TaskRole::Sink
        } else {
            TaskRole::Transform
        }),
{
    let mut incoming = false;
    let mut outgoing = false;
    let mut k: usize = 0;
    while k < config.edges.len()
        invariant
            k <= config.edges.len(),
            incoming == exists|m: int| 0 <= m < k && (#[trigger] config@.edges[m]).dst == node_id,
            outgoing == exists|m: int| 0 <= m < k && (#[trigger] config@.edges[m]).src == node_id,
        decreases config.edges.len() - k,
    {
        let e = &config.edges[k];
        proof {
            assert(config@.edges[k as int].src == e.0 as int);
            assert(config@.edges[k as int].dst == e.1 as int);
        }
        if e.1 == node_id {
            incoming = true;
        }
        if e.0 == node_id {
            outgoing = true;
        }
        k = k + 1;
    }
    if !incoming {
        TaskRole::Source
    } else if !outgoing {
        TaskRole::Sink
    } else {
        TaskRole::Transform
    }
}

/// Some edge runs from `u` to `v`.
pub open spec fn has_edge(c: CuConfigView, u: int, v: int) -> bool {
    exists|k: int| 0 <= k < c.edges.len() && (#[trigger] c.edges[k]).src == u && c.edges[k].dst == v
}

/// `p` is a closed walk through the graph: every consecutive pair is an
/// edge, and so is the pair formed by the last and the first element.
pub open spec fn is_cycle(c: CuConfigView, p: Seq<int>) -> bool {
    &&& p.len() >= 1
    &&& forall|i: int| 0 <= i < p.len() ==> 0 <= #[trigger] p[i] < c.nodes.len()
    &&& forall|i: int| 0 <= i < p.len() - 1 ==> has_edge(c, #[trigger] p[i], p[i + 1])
    &&& has_edge(c, p[p.len() - 1], p[0])
}

/// The graph holds a cycle.
pub open spec fn has_cycle(c: CuConfigView) -> bool {
    exists|p: Seq<int>| is_cycle(c, p)
}

/// Node `v` is ready once the nodes of `placed` have run: it is a valid
/// index, it has not run yet, and every predecessor has.
pub open spec fn ready(c: CuConfigView, placed: Seq<int>, v: int) -> bool {
    &&& 0 <= v < c.nodes.len()
    &&& !placed.contains(v)
    &&& forall|k: int|
        0 <= k < c.edges.len() && (#[trigger] c.edges[k]).dst == v ==> placed.contains(
            c.edges[k].src,
        )
}

/// `order` is the greedy execution order: at each step the smallest ready
/// node index is taken.
pub open spec fn is_plan_order(c: CuConfigView, order: Seq<int>) -> bool {
    &&& order.len() == c.nodes.len()
    &&& forall|i: int| 0 <= i < order.len() ==> ready(c, order.take(i), #[trigger] order[i])
    &&& forall|i: int, w: int|
        #![trigger ready(c, order.take(i), w)]
        0 <= i < order.len() && 0 <= w < order[i] ==> !ready(c, order.take(i), w)
}

/// The node index sequence of a compiled plan.
pub open spec fn plan_order(plan: Seq<(NodeId, &Node)>) -> Seq<int> {
    Seq::new(plan.len(), |i: int| plan[i].0 as int)
}

/// Whether all predecessors of `j` have run.
fn preds_placed(config: &CuConfig, placed: &Vec<bool>, j: usize) -> (b: bool)
    requires
        config.wf(),
        placed@.len() == config@.nodes.len(),
        j < config@.nodes.len(),
    ensures
        b == forall|k: int|
            0 <= k < config@.edges.len() && (#[trigger] config@.edges[k]).dst == j ==> placed@[config@.edges[k].src],
{
    let mut k: usize = 0;
    while k < config.edges.len()
        invariant
            k <= config.edges.len(),
            forall|m: int|
                0 <= m < k && (#[trigger] config@.edges[m]).dst == j ==> placed@[config@.edges[m].src],
        decreases config.edges.len() - k,
    {
        let e = &config.edges[k];
        proof {
            assert(config@.edges[k as int].src == e.0 as int);
            assert(config@.edges[k as int].dst == e.1 as int);
            assert(0 <= config@.edges[k as int].src < config@.nodes.len());
        }
        if e.1 as usize == j {
            if !placed[e.0 as usize] {
                return false;
            }
        }
        k = k + 1;
    }
    true
}

/// The smallest node index that is ready, if any.
fn find_ready(config: &CuConfig, placed: &Vec<bool>, Ghost(order): Ghost<Seq<int>>) -> (r: Option<
    usize,
>)
    requires
        config.wf(),
        placed@.len() == config@.nodes.len(),
        forall|v: int| 0 <= v < placed@.len() ==> (placed@[v] <==> order.contains(v)),
    ensures
        match r {
            Some(j) => j < config@.nodes.len() && ready(config@, order, j as int) && forall|w: int|
                0 <= w < j ==> !ready(config@, order, w),
            None => forall|w: int| !ready(config@, order, w),
        },
{
    let n = config.nodes.len();
    let mut j: usize = 0;
    while j < n
        invariant
            n == config@.nodes.len(),
            j <= n,
            forall|w: int| 0 <= w < j ==> !ready(config@, order, w),
        decreases n - j,
    {
        if !placed[j] {
            if preds_placed(config, placed, j) {
                return Some(j);
            }
        }
        j = j + 1;
    }
    None
}

/// Extends a backward chain of unresolved predecessors by one.
proof fn lemma_chain(c: CuConfigView, placed: Seq<int>, v0: int, m: nat) -> (p: Seq<int>)
    requires
        config_wf(c),
        0 <= v0 < c.nodes.len(),
        !placed.contains(v0),
        forall|v: int|
            0 <= v < c.nodes.len() && !placed.contains(v) ==> exists|k: int|
                0 <= k < c.edges.len() && (#[trigger] c.edges[k]).dst == v && !placed.contains(
                    c.edges[k].src,
                ),
    ensures
        p.len() == m + 1,
        p[0] == v0,
        forall|i: int| 0 <= i < p.len() ==> 0 <= #[trigger] p[i] < c.nodes.len() && !placed.contains(p[i]),
        forall|i: int| 0 <= i < p.len() - 1 ==> has_edge(c, #[trigger] p[i + 1], p[i]),
    decreases m,
{
    if m == 0 {
        seq![v0]
    } else {
        let q = lemma_chain(c, placed, v0, (m - 1) as nat);
        let last = q[m - 1];
        let k = choose|k: int|
            0 <= k < c.edges.len() && (#[trigger] c.edges[k]).dst == last && !placed.contains(
                c.edges[k].src,
            );
        let p = q.push(c.edges[k].src);
        assert(has_edge(c, p[m as int], p[m - 1]));
        p
    }
}

/// A sequence of more than `n` values drawn from `0..n` repeats a value.
proof fn lemma_pigeonhole(p: Seq<int>, n: int)
    requires
        n >= 0,
        p.len() > n,
        forall|i: int| 0 <= i < p.len() ==> 0 <= #[trigger] p[i] < n,
    ensures
        exists|i: int, j: int| 0 <= i < j < p.len() && p[i] == p[j],
{
    if forall|i: int, j: int| 0 <= i < j < p.len() ==> p[i] != p[j] {
        assert(p.no_duplicates());
        p.unique_seq_to_set();
        assert(p.to_set().subset_of(vstd::set_lib::set_int_range(0, n))) by {
            assert forall|x: int| p.to_set().contains(x) implies vstd::set_lib::set_int_range(
                0,
                n,
            ).contains(x) by {
                let i = choose|i: int| 0 <= i < p.len() && p[i] == x;
            }
        }
        vstd::set_lib::lemma_int_range(0, n);
        vstd::set_lib::lemma_len_subset(p.to_set(), vstd::set_lib::set_int_range(0, n));
        assert(false);
    }
}

/// When every node is either placed or blocked by an unplaced predecessor,
/// and some node is unplaced, the graph holds a cycle.
#[verifier::rlimit(80)]
proof fn lemma_stuck_cycle(c: CuConfigView, placed: Seq<int>, v0: int)
    requires
        config_wf(c),
        0 <= v0 < c.nodes.len(),
        !placed.contains(v0),
        forall|w: int| !ready(c, placed, w),
    ensures
        has_cycle(c),
{
    let n = c.nodes.len() as int;
    assert forall|v: int| 0 <= v < n && !placed.contains(v) implies exists|k: int|
        0 <= k < c.edges.len() && (#[trigger] c.edges[k]).dst == v && !placed.contains(
            c.edges[k].src,
        ) by {
        assert(!ready(c, placed, v));
    }
    let p = lemma_chain(c, placed, v0, n as nat);
    lemma_pigeonhole(p, n);
    let (i, j) = choose|i: int, j: int| 0 <= i < j < p.len() && p[i] == p[j];
    let q = Seq::new((j - i) as nat, |t: int| p[j - 1 - t]);
    assert(is_cycle(c, q)) by {
        assert forall|t: int| 0 <= t < q.len() - 1 implies has_edge(c, #[trigger] q[t], q[t + 1]) by {
            assert(q[t] == p[j - 1 - t]);
            assert(q[t + 1] == p[j - 2 - t]);
            assert(has_edge(c, p[(j - 2 - t) + 1], p[j - 2 - t]));
        }
        assert(q[q.len() - 1] == p[i]);
        assert(has_edge(c, p[(j - 1) + 1], p[j - 1]));
        assert(q[0] == p[j - 1]);
    }
}

/// The first position in `order` holding `v`, or the length when absent.
spec fn pos_from(order: Seq<int>, v: int, i: int) -> int
    decreases order.len() - i,
{
    if i < 0 || i >= order.len() {
        order.len() as int
    } else if order[i] == v {
        i
    } else {
        pos_from(order, v, i + 1)
    }
}

/// The first position behaves as a first position.
proof fn lemma_pos_from(order: Seq<int>, v: int, i: int)
    requires
        0 <= i <= order.len(),
    ensures
        order.subrange(i, order.len() as int).contains(v) ==> i <= pos_from(order, v, i)
            < order.len() && order[pos_from(order, v, i)] == v,
        !order.subrange(i, order.len() as int).contains(v) ==> pos_from(order, v, i)
            == order.len(),
    decreases order.len() - i,
{
    let tail = order.subrange(i, order.len() as int);
    if i < order.len() {
        lemma_pos_from(order, v, i + 1);
        let tail2 = order.subrange(i + 1, order.len() as int);
        if order[i] == v {
            assert(tail[0] == v);
        } else {
            if tail.contains(v) {
                let t = choose|t: int| 0 <= t < tail.len() && tail[t] == v;
                assert(tail[t] == order[i + t]);
                assert(t != 0);
                assert(tail2[t - 1] == v);
                assert(tail2.contains(v));
            }
            if tail2.contains(v) {
                let t = choose|t: int| 0 <= t < tail2.len() && tail2[t] == v;
                assert(tail[t + 1] == v);
                assert(tail.contains(v));
            }
        }
    }
}

/// An index in the cycle whose node sits earliest in the order.
proof fn lemma_argmin(order: Seq<int>, p: Seq<int>, l: int) -> (t: int)
    requires
        1 <= l <= p.len(),
    ensures
        0 <= t < l,
        forall|u: int| 0 <= u < l ==> pos_from(order, p[t], 0) <= pos_from(order, #[trigger] p[u], 0),
    decreases l,
{
    if l == 1 {
        0
    } else {
        let t1 = lemma_argmin(order, p, l - 1);
        if pos_from(order, p[l - 1], 0) < pos_from(order, p[t1], 0) {
            l - 1
        } else {
            t1
        }
    }
}

/// A valid execution order excludes every cycle: the cycle node placed
/// earliest would need a predecessor placed yet earlier.
proof fn lemma_order_cycle_false(c: CuConfigView, order: Seq<int>, p: Seq<int>)
    requires
        order.len() == c.nodes.len(),
        forall|i: int| 0 <= i < order.len() ==> 0 <= #[trigger] order[i] < c.nodes.len(),
        forall|i: int, j: int| 0 <= i < j < order.len() ==> order[i] != order[j],
        forall|k: int, i: int, j: int|
            #![trigger c.edges[k], order[i], order[j]]
            0 <= k < c.edges.len() && 0 <= i < order.len() && 0 <= j < order.len() && order[i]
                == c.edges[k].src && order[j] == c.edges[k].dst ==> i < j,
    ensures
        !is_cycle(c, p),
{
    if is_cycle(c, p) {
    let n = order.len() as int;
    assert forall|v: int| 0 <= v < n implies order.contains(v) by {
        if !order.contains(v) {
            assert(order.no_duplicates());
            order.unique_seq_to_set();
            assert(order.to_set().subset_of(
                vstd::set_lib::set_int_range(0, n).remove(v),
            )) by {
                assert forall|x: int| order.to_set().contains(x) implies vstd::set_lib::set_int_range(
                    0,
                    n,
                ).remove(v).contains(x) by {
                    let i = choose|i: int| 0 <= i < order.len() && order[i] == x;
                }
            }
            vstd::set_lib::lemma_int_range(0, n);
            assert(vstd::set_lib::set_int_range(0, n).remove(v).len() == n - 1);
            vstd::set_lib::lemma_len_subset(
                order.to_set(),
                vstd::set_lib::set_int_range(0, n).remove(v),
            );
            assert(false);
        }
    }
    let t = lemma_argmin(order, p, p.len() as int);
    let v = p[t];
    let tp = if t == 0 {
        p.len() - 1
    } else {
        t - 1
    };
    let u = p[tp];
    assert(has_edge(c, u, v)) by {
        if t == 0 {
        } else {
            assert(has_edge(c, p[t - 1], p[(t - 1) + 1]));
        }
    }
    let k = choose|k: int| 0 <= k < c.edges.len() && (#[trigger] c.edges[k]).src == u && c.edges[k].dst == v;
    assert(order.contains(u));
    assert(order.contains(v));
    assert(order.subrange(0, order.len() as int) =~= order);
    lemma_pos_from(order, u, 0);
    lemma_pos_from(order, v, 0);
    let a = pos_from(order, u, 0);
    let b = pos_from(order, v, 0);
    assert(a < b);
    assert(pos_from(order, p[t], 0) <= pos_from(order, p[tp], 0));
    }
}

/// Derives a deterministic execution order over the graph's nodes: every
/// edge's source precedes its destination, and among the ready nodes the
/// lowest index is always taken next. Fails with
/// [`CuError::CycleDetected`] exactly when the graph holds a cycle.
pub fn compute_runtime_plan<'a>(config: &'a CuConfig) -> (r: CuResult<Vec<(NodeId, &'a Node)>>)
    requires
        config.wf(),
        config@.nodes.len() <= NodeId::MAX,
    ensures
        match r {
            Ok(plan) => {
                &&& is_plan_order(config@, plan_order(plan@))
                &&& forall|i: int|
                    0 <= i < plan@.len() ==> ((#[trigger] plan@[i]).1)@ == config@.nodes[plan_order(
                        plan@,
                    )[i]]
                &&& forall|k: int, i: int, j: int|
                    #![trigger config@.edges[k], plan_order(plan@)[i], plan_order(plan@)[j]]
                    0 <= k < config@.edges.len() && 0 <= i < plan@.len() && 0 <= j < plan@.len()
                        && plan_order(plan@)[i] == config@.edges[k].src && plan_order(plan@)[j]
                        == config@.edges[k].dst ==> i < j
                &&& !has_cycle(config@)
            },
            Err(e) => e == CuError::CycleDetected && has_cycle(config@),
        },
{
    let n = config.nodes.len();
    let mut placed: Vec<bool> = vec![false; n];
    let mut plan: Vec<(NodeId, &'a Node)> = Vec::new();
    while plan.len() < n
        invariant
            n == config@.nodes.len(),
            n <= NodeId::MAX,
            placed@.len() == n,
            plan@.len() <= n,
            forall|v: int|
                0 <= v < n ==> (placed@[v] <==> plan_order(plan@).contains(v)),
            forall|i: int|
                0 <= i < plan@.len() ==> ready(
                    config@,
                    plan_order(plan@).take(i),
                    #[trigger] plan_order(plan@)[i],
                ),
            forall|i: int, w: int|
                #![trigger ready(config@, plan_order(plan@).take(i), w)]
                0 <= i < plan@.len() && 0 <= w < plan_order(plan@)[i] ==> !ready(
                    config@,
                    plan_order(plan@).take(i),
                    w,
                ),
            forall|i: int|
                0 <= i < plan@.len() ==> ((#[trigger] plan@[i]).1)@ == config@.nodes[plan_order(
                    plan@,
                )[i]],
        decreases n - plan.len(),
    {
        let ghost order = plan_order(plan@);
        match find_ready(config, &placed, Ghost(order)) {
            None => {
                proof {
                    assert forall|i: int, j: int|
                        0 <= i < j < order.len() implies order[i] != order[j] by {
                        assert(ready(config@, order.take(j), order[j]));
                        assert(order.take(j)[i] == order[i]);
                    }
                    assert forall|i: int| 0 <= i < order.len() implies 0 <= #[trigger] order[i]
                        < n by {
                        assert(ready(config@, order.take(i), order[i]));
                    }
                    assert(exists|v: int| 0 <= v < n && !order.contains(v)) by {
                        if forall|v: int| 0 <= v < n ==> order.contains(v) {
                            assert(order.no_duplicates());
                            order.unique_seq_to_set();
                            assert(vstd::set_lib::set_int_range(0, n as int).subset_of(
                                order.to_set(),
                            )) by {
                                assert forall|x: int|
                                    vstd::set_lib::set_int_range(0, n as int).contains(
                                        x,
                                    ) implies order.to_set().contains(x) by {
                                    assert(order.contains(x));
                                }
                            }
                            vstd::set_lib::lemma_int_range(0, n as int);
                            vstd::set_lib::lemma_len_subset(
                                vstd::set_lib::set_int_range(0, n as int),
                                order.to_set(),
                            );
                            assert(false);
                        }
                    }
                    let v1 = choose|v: int| 0 <= v < n && !order.contains(v);
                    lemma_stuck_cycle(config@, order, v1);
                }
                return Err(CuError::CycleDetected);
            },
            Some(j) => {
                let node_ref = &config.nodes[j];
                let ghost old_plan = plan@;
                plan.push((j as NodeId, node_ref));
                placed[j] = true;
                proof {
                    assert(plan_order(plan@) =~= order.push(j as int));
                    let new_order = plan_order(plan@);
                    assert(new_order.take(new_order.len() - 1) =~= order);
                    assert forall|i: int| 0 <= i < plan@.len() implies ready(
                        config@,
                        new_order.take(i),
                        #[trigger] new_order[i],
                    ) by {
                        if i < plan@.len() - 1 {
                            assert(new_order.take(i) =~= order.take(i));
                            assert(new_order[i] == order[i]);
                        }
                    }
                    assert forall|i: int, w: int|
                        #![trigger ready(config@, new_order.take(i), w)]
                        0 <= i < plan@.len() && 0 <= w < new_order[i] implies !ready(
                        config@,
                        new_order.take(i),
                        w,
                    ) by {
                        if i < plan@.len() - 1 {
                            assert(new_order.take(i) =~= order.take(i));
                            assert(!ready(config@, order.take(i), w));
                        } else {
                            assert(new_order.take(i) =~= order);
                        }
                    }
                    assert forall|v: int|
                        0 <= v < n implies (placed@[v] <==> new_order.contains(v)) by {
                        if v == j {
                            assert(new_order[new_order.len() - 1] == j as int);
                        } else {
                            if new_order.contains(v) {
                                let t = choose|t: int|
                                    0 <= t < new_order.len() && new_order[t] == v;
                                assert(order[t] == v);
                            }
                            if order.contains(v) {
                                let t = choose|t: int| 0 <= t < order.len() && order[t] == v;
                                assert(new_order[t] == v);
                            }
                        }
                    }
                }
            },
        }
    }
    proof {
        let order = plan_order(plan@);
        assert forall|i: int, j: int| 0 <= i < j < order.len() implies order[i] != order[j] by {
            assert(ready(config@, order.take(j), order[j]));
            assert(order.take(j)[i] == order[i]);
        }
        assert forall|i: int| 0 <= i < order.len() implies 0 <= #[trigger] order[i] < n by {
            assert(ready(config@, order.take(i), order[i]));
        }
        assert forall|k: int, i: int, j: int|
            #![trigger config@.edges[k], order[i], order[j]]
            0 <= k < config@.edges.len() && 0 <= i < plan@.len() && 0 <= j < plan@.len() && order[i]
                == config@.edges[k].src && order[j] == config@.edges[k].dst implies i < j by {
            assert(ready(config@, order.take(j), order[j]));
            assert(order.take(j).contains(config@.edges[k].src));
            let t = choose|t: int| 0 <= t < j && order.take(j)[t] == config@.edges[k].src;
            assert(order[t] == order[i]);
            if t != i {
                assert(order[t] != order[i]);
            }
        }
        if has_cycle(config@) {
            let p = choose|p: Seq<int>| is_cycle(config@, p);
            lemma_order_cycle_false(config@, order, p);
        }
    }
    Ok(plan)
}

} // verus!
