//! What an execution plan guarantees about the configuration it was built
//! from, stated over the history of resource uses: nodes wait exactly for the
//! hazards on the resources they share with earlier nodes, barriers follow the
//! states of consecutive uses, and the recorded first and last states are
//! those of the first and last use.

use vstd::prelude::*;
use crate::name_order::{below_by_code, law_name_order_by_code, lemma_name_less_asymmetric, name_less, sorted_by_name};
use crate::graph_config::{
    law_declared_resources_unchanged,
    declared_resources, entry_state, name_string, resources_in_order, state_entries, tables_in_order,
    first_resource_named, resource_name, ResourceDefinition,
    binding_slot_repeats, first_repeat_from, node_name_repeats, plan_fault, repeats_earlier,
    unknown_binding_from, unknown_fault_from,
    binding_fault_from, config_fault, config_plan_fault, declared_names, dependency_names, distinct_names,
    is_plan_of, lemma_no_repeat_distinct, node_fault_from, node_outcome, planned_node_matches, resources_fault,
    ComputeGraphConfig, ExecutionPlan,
    apply_binding, barrier_before, binding_outcome, binding_resource_repeats, bindings_outcome,
    empty_plan_model, hazard_dependencies, model_before, model_sized, position_of, required_state_of,
    writes, ComputeNodeConfig, PlanModel, PlannedBarrier, PlannedResourceState, ResourceBinding,
};

verus! {

// ---------------------------------------------------------------------------
// History of resource uses
// ---------------------------------------------------------------------------

/// Binding `k` of node `p` refers to the resource at position `r`.
pub open spec fn binding_targets(nodes: Seq<ComputeNodeConfig>, names: Seq<Seq<char>>, p: int, k: int, r: int) -> bool {
    &&& 0 <= p < nodes.len()
    &&& 0 <= k < nodes[p].bindings@.len()
    &&& position_of(names, nodes[p].bindings@[k].resource@) == Some(r)
}

/// Node `p` binds the resource at position `r`.
pub open spec fn node_uses(nodes: Seq<ComputeNodeConfig>, names: Seq<Seq<char>>, p: int, r: int) -> bool {
    exists|k: int| binding_targets(nodes, names, p, k, r)
}

/// Node `p` binds the resource at position `r` with an access that may write it.
pub open spec fn node_writes(nodes: Seq<ComputeNodeConfig>, names: Seq<Seq<char>>, p: int, r: int) -> bool {
    exists|k: int| binding_targets(nodes, names, p, k, r) && writes(nodes[p].bindings@[k].access)
}

/// Node `p` binds the resource at position `r` for reading only.
pub open spec fn node_reads(nodes: Seq<ComputeNodeConfig>, names: Seq<Seq<char>>, p: int, r: int) -> bool {
    exists|k: int| binding_targets(nodes, names, p, k, r) && !writes(nodes[p].bindings@[k].access)
}

/// The state node `p` needs the resource at position `r` in.
pub open spec fn use_state(nodes: Seq<ComputeNodeConfig>, names: Seq<Seq<char>>, p: int, r: int) -> PlannedResourceState {
    required_state_of(nodes[p].bindings@[choose|k: int| binding_targets(nodes, names, p, k, r)].access)
}

/// The last node before node `i` that writes the resource at position `r`.
pub open spec fn last_write_before(nodes: Seq<ComputeNodeConfig>, names: Seq<Seq<char>>, r: int, i: nat) -> Option<usize>
    decreases i,
{
    if i == 0 {
        None
    } else if node_writes(nodes, names, i - 1, r) {
        Some((i - 1) as usize)
    } else {
        last_write_before(nodes, names, r, (i - 1) as nat)
    }
}

/// The state of the last use, before node `i`, of the resource at position `r`.
pub open spec fn last_use_before(nodes: Seq<ComputeNodeConfig>, names: Seq<Seq<char>>, r: int, i: nat) -> Option<PlannedResourceState>
    decreases i,
{
    if i == 0 {
        None
    } else if node_uses(nodes, names, i - 1, r) {
        Some(use_state(nodes, names, i - 1, r))
    } else {
        last_use_before(nodes, names, r, (i - 1) as nat)
    }
}

/// The state of the first use, before node `i`, of the resource at position `r`.
pub open spec fn first_use_before(nodes: Seq<ComputeNodeConfig>, names: Seq<Seq<char>>, r: int, i: nat) -> Option<PlannedResourceState>
    decreases i,
{
    if i == 0 {
        None
    } else {
        match first_use_before(nodes, names, r, (i - 1) as nat) {
            Some(s) => Some(s),
            None => if node_uses(nodes, names, i - 1, r) {
                Some(use_state(nodes, names, i - 1, r))
            } else {
                None
            },
        }
    }
}

/// No node binds the same resource twice.
pub open spec fn single_use_per_node(nodes: Seq<ComputeNodeConfig>) -> bool {
    forall|p: int, k: int| 0 <= p < nodes.len() && 0 <= k < nodes[p].bindings@.len()
        ==> !#[trigger] binding_resource_repeats(nodes[p].bindings@, k)
}

/// The barriers for the first `k` bindings of a node whose resources are in
/// the states `current` when it starts.
pub open spec fn barriers_for(
    current: Seq<Option<PlannedResourceState>>,
    names: Seq<Seq<char>>,
    bindings: Seq<ResourceBinding>,
    k: nat,
) -> Seq<PlannedBarrier>
    decreases k,
{
    if k == 0 {
        seq![]
    } else {
        let prev = barriers_for(current, names, bindings, (k - 1) as nat);
        match position_of(names, bindings[k - 1].resource@) {
            Some(r) => prev + barrier_before(current[r], bindings[k - 1]),
            None => prev,
        }
    }
}

/// The states of all resources, as left by their last uses before node `i`.
pub open spec fn states_before(nodes: Seq<ComputeNodeConfig>, names: Seq<Seq<char>>, i: nat) -> Seq<Option<PlannedResourceState>> {
    Seq::new(names.len(), |r: int| last_use_before(nodes, names, r, i))
}

// ---------------------------------------------------------------------------
// The planning state of one resource
// ---------------------------------------------------------------------------

/// Everything the planning state holds about the resource at position `r`.
pub struct ResourceSlot {
    pub current: Option<PlannedResourceState>,
    pub readers: Seq<usize>,
    pub last_writer: Option<usize>,
    pub initial: Option<PlannedResourceState>,
    pub last: Option<PlannedResourceState>,
}

/// The planning state of the resource at position `r`.
pub open spec fn slot_of(m: PlanModel, r: int) -> ResourceSlot {
    ResourceSlot {
        current: m.current_states[r],
        readers: m.active_readers[r],
        last_writer: m.last_writers[r],
        initial: m.initial_states[r],
        last: m.final_states[r],
    }
}

/// The planning state of a resource after binding `b` of node `node` uses it.
pub open spec fn slot_after(s: ResourceSlot, b: ResourceBinding, node: usize) -> ResourceSlot {
    let req = required_state_of(b.access);
    let w = writes(b.access);
    ResourceSlot {
        current: Some(req),
        readers: if w { Seq::<usize>::empty() } else { s.readers.push(node) },
        last_writer: if w { Some(node) } else { s.last_writer },
        initial: if s.initial is None { Some(req) } else { s.initial },
        last: Some(req),
    }
}

proof fn lemma_apply_binding_slots(m: PlanModel, r0: int, b: ResourceBinding, node: usize, r: int)
    requires
        model_sized(m, m.current_states.len()),
        0 <= r0 < m.current_states.len(),
        0 <= r < m.current_states.len(),
    ensures
        model_sized(apply_binding(m, r0, b, node), m.current_states.len()),
        r != r0 ==> slot_of(apply_binding(m, r0, b, node), r) == slot_of(m, r),
        r == r0 ==> slot_of(apply_binding(m, r0, b, node), r) == slot_after(slot_of(m, r0), b, node),
{
}

proof fn lemma_hazard_by_slot(m1: PlanModel, m2: PlanModel, r: int, w: bool)
    requires
        slot_of(m1, r) == slot_of(m2, r),
    ensures
        hazard_dependencies(m1, r, w) == hazard_dependencies(m2, r, w),
{
}

/// The first `k` bindings of a node refer to distinct resource names.
pub open spec fn distinct_bindings_upto(bindings: Seq<ResourceBinding>, k: int) -> bool {
    forall|j: int| 0 <= j < k ==> !binding_resource_repeats(bindings, j)
}

/// The effect of the first `k` bindings of a node, when they refer to
/// distinct resources: each used resource is updated once from its starting
/// state, the others keep theirs; the node waits for the hazards of its uses
/// as they were when it started; its barriers follow the starting states.
proof fn lemma_bindings_effect(m: PlanModel, names: Seq<Seq<char>>, bs: Seq<ResourceBinding>, node: usize, k: nat)
    requires
        model_sized(m, names.len()),
        k <= bs.len(),
        distinct_bindings_upto(bs, k as int),
    ensures
        model_sized(bindings_outcome(m, names, bs, node, k).model, names.len()),
        forall|r: int| #![trigger slot_of(bindings_outcome(m, names, bs, node, k).model, r)]
            0 <= r < names.len() ==> {
            let out = slot_of(bindings_outcome(m, names, bs, node, k).model, r);
            &&& (forall|j: int| 0 <= j < k ==> position_of(names, bs[j].resource@) != Some(r))
                ==> out == slot_of(m, r)
            &&& forall|j: int| 0 <= j < k && position_of(names, bs[j].resource@) == Some(r)
                ==> out == slot_after(slot_of(m, r), bs[j], node)
        },
        forall|x: usize| bindings_outcome(m, names, bs, node, k).dependencies.contains(x)
            <==> exists|j: int| 0 <= j < k && (#[trigger] position_of(names, bs[j].resource@)) is Some
                && hazard_dependencies(m, position_of(names, bs[j].resource@)->0, writes(bs[j].access)).contains(x),
        bindings_outcome(m, names, bs, node, k).barriers == barriers_for(m.current_states, names, bs, k),
    decreases k,
{
    if k > 0 {
        let j0 = (k - 1) as int;
        lemma_bindings_effect(m, names, bs, node, (k - 1) as nat);
        let prev = bindings_outcome(m, names, bs, node, (k - 1) as nat);
        let out = bindings_outcome(m, names, bs, node, k);
        assert(out == binding_outcome(prev, names, bs[j0], node));
        match position_of(names, bs[j0].resource@) {
            None => {
                assert forall|x: usize| out.dependencies.contains(x)
                    <==> exists|j: int| 0 <= j < k && (#[trigger] position_of(names, bs[j].resource@)) is Some
                        && hazard_dependencies(m, position_of(names, bs[j].resource@)->0, writes(bs[j].access)).contains(x) by {
                    if exists|j: int| 0 <= j < k && (#[trigger] position_of(names, bs[j].resource@)) is Some
                        && hazard_dependencies(m, position_of(names, bs[j].resource@)->0, writes(bs[j].access)).contains(x) {
                        let j = choose|j: int| 0 <= j < k && (#[trigger] position_of(names, bs[j].resource@)) is Some
                            && hazard_dependencies(m, position_of(names, bs[j].resource@)->0, writes(bs[j].access)).contains(x);
                        assert(j != j0);
                    }
                }
                assert forall|r: int| 0 <= r < names.len() implies {
                    let o = #[trigger] slot_of(out.model, r);
                    &&& (forall|j: int| 0 <= j < k ==> position_of(names, bs[j].resource@) != Some(r))
                        ==> o == slot_of(m, r)
                    &&& forall|j: int| 0 <= j < k && position_of(names, bs[j].resource@) == Some(r)
                        ==> o == slot_after(slot_of(m, r), bs[j], node)
                } by {
                    assert(slot_of(out.model, r) == slot_of(prev.model, r));
                }
            },
            Some(r0) => {
                assert(names[r0] == bs[j0].resource@ && 0 <= r0 < names.len());
                // No earlier binding refers to r0.
                assert forall|j: int| 0 <= j < j0 implies position_of(names, bs[j].resource@) != Some(r0) by {
                    if position_of(names, bs[j].resource@) == Some(r0) {
                        assert(names[r0] == bs[j].resource@);
                        assert(!binding_resource_repeats(bs, j0));
                    }
                }
                assert(slot_of(prev.model, r0) == slot_of(m, r0));
                lemma_hazard_by_slot(prev.model, m, r0, writes(bs[j0].access));
                assert forall|r: int| 0 <= r < names.len() implies {
                    let o = #[trigger] slot_of(out.model, r);
                    &&& (forall|j: int| 0 <= j < k ==> position_of(names, bs[j].resource@) != Some(r))
                        ==> o == slot_of(m, r)
                    &&& forall|j: int| 0 <= j < k && position_of(names, bs[j].resource@) == Some(r)
                        ==> o == slot_after(slot_of(m, r), bs[j], node)
                } by {
                    lemma_apply_binding_slots(prev.model, r0, bs[j0], node, r);
                    if r != r0 {
                        assert(slot_of(out.model, r) == slot_of(prev.model, r));
                    } else {
                        assert forall|j: int| 0 <= j < k && position_of(names, bs[j].resource@) == Some(r)
                            implies j == j0 by {
                            if j != j0 {
                                assert(position_of(names, bs[j].resource@) != Some(r0));
                            }
                        }
                    }
                }
                lemma_apply_binding_slots(prev.model, r0, bs[j0], node, r0);
                assert forall|x: usize| out.dependencies.contains(x)
                    <==> exists|j: int| 0 <= j < k && (#[trigger] position_of(names, bs[j].resource@)) is Some
                        && hazard_dependencies(m, position_of(names, bs[j].resource@)->0, writes(bs[j].access)).contains(x) by {
                    if exists|j: int| 0 <= j < k && (#[trigger] position_of(names, bs[j].resource@)) is Some
                        && hazard_dependencies(m, position_of(names, bs[j].resource@)->0, writes(bs[j].access)).contains(x) {
                        let j = choose|j: int| 0 <= j < k && (#[trigger] position_of(names, bs[j].resource@)) is Some
                            && hazard_dependencies(m, position_of(names, bs[j].resource@)->0, writes(bs[j].access)).contains(x);
                        if j != j0 {
                            assert(prev.dependencies.contains(x));
                        }
                    }
                    if hazard_dependencies(m, r0, writes(bs[j0].access)).contains(x) {
                        assert(position_of(names, bs[j0].resource@) is Some);
                    }
                }
            },
        }
    }
}

// ---------------------------------------------------------------------------
// The planning state before each node, described by the history
// ---------------------------------------------------------------------------

/// The planning state of resource `r` before node `i` is what the uses of
/// `r` by nodes `0..i` leave behind.
pub open spec fn slot_matches_history(nodes: Seq<ComputeNodeConfig>, names: Seq<Seq<char>>, m: PlanModel, r: int, i: nat) -> bool {
    let s = slot_of(m, r);
    &&& s.current == last_use_before(nodes, names, r, i)
    &&& s.last == last_use_before(nodes, names, r, i)
    &&& s.initial == first_use_before(nodes, names, r, i)
    &&& s.last_writer == last_write_before(nodes, names, r, i)
    &&& forall|p: usize| #[trigger] s.readers.contains(p) <==> (p < i && node_reads(nodes, names, p as int, r)
        && forall|q: int| p < q < i ==> !node_writes(nodes, names, q, r))
}

/// Within a node that binds each resource once, the binding that refers to a
/// used resource is the only one, and it decides how the node uses it.
proof fn lemma_single_binding(nodes: Seq<ComputeNodeConfig>, names: Seq<Seq<char>>, p: int, k: int, r: int)
    requires
        single_use_per_node(nodes),
        binding_targets(nodes, names, p, k, r),
    ensures
        forall|j: int| binding_targets(nodes, names, p, j, r) ==> j == k,
        use_state(nodes, names, p, r) == required_state_of(nodes[p].bindings@[k].access),
        node_writes(nodes, names, p, r) == writes(nodes[p].bindings@[k].access),
        node_reads(nodes, names, p, r) == !writes(nodes[p].bindings@[k].access),
{
    let bs = nodes[p].bindings@;
    assert forall|j: int| binding_targets(nodes, names, p, j, r) implies j == k by {
        assert(bs[j].resource@ == names[r] && bs[k].resource@ == names[r]);
        if j < k {
            assert(!binding_resource_repeats(nodes[p].bindings@, k));
        } else if j > k {
            assert(!binding_resource_repeats(nodes[p].bindings@, j));
        }
    }
    let c = choose|j: int| binding_targets(nodes, names, p, j, r);
    assert(c == k);
}

/// Before every node, the planning state of every resource is what the
/// history of its uses leaves behind.
pub proof fn lemma_model_before_history(nodes: Seq<ComputeNodeConfig>, names: Seq<Seq<char>>, i: nat)
    requires
        single_use_per_node(nodes),
        i <= nodes.len() <= usize::MAX,
    ensures
        model_sized(model_before(nodes, names, i), names.len()),
        forall|r: int| 0 <= r < names.len() ==> #[trigger] slot_matches_history(nodes, names, model_before(nodes, names, i), r, i),
    decreases i,
{
    if i == 0 {
        let m = empty_plan_model(names.len());
        assert forall|r: int| 0 <= r < names.len() implies #[trigger] slot_matches_history(nodes, names, m, r, 0) by {
            assert(m.active_readers[r] == Seq::<usize>::empty());
        }
    } else {
        let p = (i - 1) as nat;
        lemma_model_before_history(nodes, names, p);
        let m = model_before(nodes, names, p);
        let bs = nodes[p as int].bindings@;
        assert(distinct_bindings_upto(bs, bs.len() as int)) by {
            assert forall|j: int| 0 <= j < bs.len() implies !binding_resource_repeats(bs, j) by {
                assert(!binding_resource_repeats(nodes[p as int].bindings@, j));
            }
        }
        lemma_bindings_effect(m, names, bs, p as usize, bs.len());
        let out = bindings_outcome(m, names, bs, p as usize, bs.len()).model;
        assert(out == model_before(nodes, names, i));
        assert forall|r: int| 0 <= r < names.len() implies #[trigger] slot_matches_history(nodes, names, out, r, i) by {
            let before = slot_of(m, r);
            assert(slot_matches_history(nodes, names, m, r, p));
            let after = slot_of(out, r);
            if node_uses(nodes, names, p as int, r) {
                let k = choose|k: int| binding_targets(nodes, names, p as int, k, r);
                lemma_single_binding(nodes, names, p as int, k, r);
                assert(after == slot_after(before, bs[k], p as usize));
                if writes(bs[k].access) {
                    assert forall|x: usize| #[trigger] after.readers.contains(x) <==> (x < i && node_reads(nodes, names, x as int, r)
                        && forall|q: int| x < q < i ==> !node_writes(nodes, names, q, r)) by {
                        if x < p {
                            assert(node_writes(nodes, names, p as int, r));
                        }
                    }
                } else {
                    assert forall|x: usize| #[trigger] after.readers.contains(x) <==> (x < i && node_reads(nodes, names, x as int, r)
                        && forall|q: int| x < q < i ==> !node_writes(nodes, names, q, r)) by {
                        if after.readers.contains(x) && x != p {
                            let t = choose|t: int| 0 <= t < after.readers.len() && after.readers[t] == x;
                            assert(after.readers == before.readers.push(p as usize));
                            assert(after.readers[before.readers.len() as int] == p as usize);
                            assert(t < before.readers.len());
                            assert(before.readers[t] == x);
                            assert(before.readers.contains(x));
                        }
                        if x < p && node_reads(nodes, names, x as int, r)
                            && (forall|q: int| x < q < i ==> !node_writes(nodes, names, q, r)) {
                            assert(before.readers.contains(x));
                            let t = choose|t: int| 0 <= t < before.readers.len() && before.readers[t] == x;
                            assert(after.readers[t] == x);
                        }
                        if x == p {
                            assert(after.readers[before.readers.len() as int] == x);
                        }
                    }
                }
            } else {
                assert forall|j: int| 0 <= j < bs.len() implies position_of(names, bs[j].resource@) != Some(r) by {
                    if position_of(names, bs[j].resource@) == Some(r) {
                        assert(binding_targets(nodes, names, p as int, j, r));
                    }
                }
                assert(after == before);
                assert(!node_reads(nodes, names, p as int, r));
                assert(!node_writes(nodes, names, p as int, r));
                assert forall|x: usize| #[trigger] after.readers.contains(x) <==> (x < i && node_reads(nodes, names, x as int, r)
                    && forall|q: int| x < q < i ==> !node_writes(nodes, names, q, r)) by {
                    if x < p && node_reads(nodes, names, x as int, r)
                        && (forall|q: int| x < q < p ==> !node_writes(nodes, names, q, r)) {
                        assert forall|q: int| x < q < i implies !node_writes(nodes, names, q, r) by {
                            if q < p {
                            }
                        }
                    }
                }
            }
        }
    }
}


// ---------------------------------------------------------------------------
// Laws of plans
// ---------------------------------------------------------------------------

/// `plan` is what planning configuration `c` gives (`c`'s node and resource
/// counts, as the length of any vector, fit in `usize`).
pub open spec fn planned_from(c: ComputeGraphConfig, plan: ExecutionPlan) -> bool {
    &&& plan_fault(c) is None
    &&& is_plan_of(c, plan)
    &&& c.compute_nodes@.len() <= usize::MAX
    &&& declared_names(c).len() <= usize::MAX
}

/// A configuration that validation accepts binds each resource at most once
/// per node, and declares distinct resource names.
pub proof fn law_valid_single_use(c: ComputeGraphConfig)
    requires
        config_fault(c) is None,
    ensures
        single_use_per_node(c.compute_nodes@),
        distinct_names(declared_names(c)),
{
    let nodes = c.compute_nodes@;
    lemma_no_repeat_distinct(declared_names(c));
    lemma_node_fault_none_iff(nodes, 0);
    assert forall|p: int, k: int| 0 <= p < nodes.len() && 0 <= k < nodes[p].bindings@.len()
        implies !#[trigger] binding_resource_repeats(nodes[p].bindings@, k) by {
        assert(binding_fault_from(nodes[p], 0) is None);
        lemma_binding_fault_none_iff(nodes[p], 0);
    }
}

proof fn lemma_last_write_is(nodes: Seq<ComputeNodeConfig>, names: Seq<Seq<char>>, r: int, j: int, i: nat)
    requires
        0 <= j < i,
        node_writes(nodes, names, j, r),
        forall|q: int| j < q < i ==> !node_writes(nodes, names, q, r),
    ensures
        last_write_before(nodes, names, r, i) == Some(j as usize),
    decreases i,
{
    if i - 1 > j {
        lemma_last_write_is(nodes, names, r, j, (i - 1) as nat);
    }
}

proof fn lemma_last_write_earlier(nodes: Seq<ComputeNodeConfig>, names: Seq<Seq<char>>, r: int, i: nat)
    requires
        last_write_before(nodes, names, r, i) is Some,
        i <= usize::MAX + 1,
    ensures
        last_write_before(nodes, names, r, i)->0 < i,
        node_writes(nodes, names, last_write_before(nodes, names, r, i)->0 as int, r),
    decreases i,
{
    if i > 0 && !node_writes(nodes, names, i - 1, r) {
        lemma_last_write_earlier(nodes, names, r, (i - 1) as nat);
    }
}

proof fn lemma_dependency_names(nodes: Seq<ComputeNodeConfig>, deps: Set<usize>, n: nat)
    requires
        n <= nodes.len() <= usize::MAX,
    ensures
        forall|d: String| dependency_names(nodes, deps, n).contains(d) <==> exists|j: int|
            0 <= j < n && deps.contains(j as usize) && d == #[trigger] nodes[j].name,
    decreases n,
{
    if n > 0 {
        lemma_dependency_names(nodes, deps, (n - 1) as nat);
        let prev = dependency_names(nodes, deps, (n - 1) as nat);
        let cur = dependency_names(nodes, deps, n);
        assert forall|d: String| cur.contains(d) <==> exists|j: int|
            0 <= j < n && deps.contains(j as usize) && d == #[trigger] nodes[j].name by {
            if deps.contains((n - 1) as usize) {
                assert(cur == prev.push(nodes[n - 1].name));
                if cur.contains(d) {
                    let t = choose|t: int| 0 <= t < cur.len() && cur[t] == d;
                    if t < prev.len() {
                        assert(prev.contains(d));
                    } else {
                        assert(d == nodes[n - 1].name);
                    }
                }
                if exists|j: int| 0 <= j < n && deps.contains(j as usize) && d == #[trigger] nodes[j].name {
                    let j = choose|j: int| 0 <= j < n && deps.contains(j as usize) && d == #[trigger] nodes[j].name;
                    if j < n - 1 {
                        assert(prev.contains(d));
                        let t = choose|t: int| 0 <= t < prev.len() && prev[t] == d;
                        assert(cur[t] == d);
                    } else {
                        assert(cur[prev.len() as int] == d);
                    }
                }
            } else {
                if exists|j: int| 0 <= j < n && deps.contains(j as usize) && d == #[trigger] nodes[j].name {
                    let j = choose|j: int| 0 <= j < n && deps.contains(j as usize) && d == #[trigger] nodes[j].name;
                    assert(j != n - 1);
                }
            }
        }
    }
}

/// What node `i` of a valid configuration waits for, in terms of the history
/// of uses before it.
proof fn lemma_node_dependencies(c: ComputeGraphConfig, i: int)
    requires
        single_use_per_node(c.compute_nodes@),
        0 <= i < c.compute_nodes@.len() <= usize::MAX,
    ensures
        forall|x: usize| #[trigger] node_outcome(c.compute_nodes@, declared_names(c), i as nat).dependencies.contains(x)
            <==> exists|k: int, r: int| #[trigger] binding_targets(c.compute_nodes@, declared_names(c), i, k, r)
                && 0 <= r < declared_names(c).len() && (
                last_write_before(c.compute_nodes@, declared_names(c), r, i as nat) == Some(x)
                || (writes(c.compute_nodes@[i].bindings@[k].access)
                    && x < i && node_reads(c.compute_nodes@, declared_names(c), x as int, r)
                    && forall|q: int| x < q < i ==> !node_writes(c.compute_nodes@, declared_names(c), q, r))),
        node_outcome(c.compute_nodes@, declared_names(c), i as nat).barriers
            == barriers_for(states_before(c.compute_nodes@, declared_names(c), i as nat), declared_names(c),
                c.compute_nodes@[i].bindings@, c.compute_nodes@[i].bindings@.len()),
{
    let nodes = c.compute_nodes@;
    let names = declared_names(c);
    lemma_model_before_history(nodes, names, i as nat);
    let m = model_before(nodes, names, i as nat);
    let bs = nodes[i].bindings@;
    assert(distinct_bindings_upto(bs, bs.len() as int)) by {
        assert forall|j: int| 0 <= j < bs.len() implies !binding_resource_repeats(bs, j) by {
            assert(!binding_resource_repeats(nodes[i].bindings@, j));
        }
    }
    lemma_bindings_effect(m, names, bs, i as usize, bs.len());
    let out = node_outcome(nodes, names, i as nat);
    assert forall|x: usize| #[trigger] out.dependencies.contains(x)
        <==> exists|k: int, r: int| #[trigger] binding_targets(nodes, names, i, k, r)
            && 0 <= r < names.len() && (
            last_write_before(nodes, names, r, i as nat) == Some(x)
            || (writes(nodes[i].bindings@[k].access)
                && x < i && node_reads(nodes, names, x as int, r)
                && forall|q: int| x < q < i ==> !node_writes(nodes, names, q, r))) by {
        if out.dependencies.contains(x) {
            let k = choose|k: int| 0 <= k < bs.len() && (#[trigger] position_of(names, bs[k].resource@)) is Some
                && hazard_dependencies(m, position_of(names, bs[k].resource@)->0, writes(bs[k].access)).contains(x);
            let r = position_of(names, bs[k].resource@)->0;
            assert(names[r] == bs[k].resource@);
            assert(binding_targets(nodes, names, i, k, r));
            assert(slot_matches_history(nodes, names, m, r, i as nat));
            if m.active_readers[r].to_set().contains(x) && writes(bs[k].access) {
                assert(slot_of(m, r).readers.contains(x));
            }
        }
        if exists|k: int, r: int| #[trigger] binding_targets(nodes, names, i, k, r)
            && 0 <= r < names.len() && (
            last_write_before(nodes, names, r, i as nat) == Some(x)
            || (writes(nodes[i].bindings@[k].access)
                && x < i && node_reads(nodes, names, x as int, r)
                && forall|q: int| x < q < i ==> !node_writes(nodes, names, q, r))) {
            let (k, r) = choose|k: int, r: int| #[trigger] binding_targets(nodes, names, i, k, r)
                && 0 <= r < names.len() && (
                last_write_before(nodes, names, r, i as nat) == Some(x)
                || (writes(nodes[i].bindings@[k].access)
                    && x < i && node_reads(nodes, names, x as int, r)
                    && forall|q: int| x < q < i ==> !node_writes(nodes, names, q, r)));
            assert(slot_matches_history(nodes, names, m, r, i as nat));
            if last_write_before(nodes, names, r, i as nat) != Some(x) {
                assert(slot_of(m, r).readers.contains(x));
                assert(m.active_readers[r].to_set().contains(x));
            }
            assert(hazard_dependencies(m, r, writes(bs[k].access)).contains(x));
            assert(position_of(names, bs[k].resource@) is Some);
        }
    }
    assert(m.current_states =~= states_before(nodes, names, i as nat)) by {
        assert forall|r: int| 0 <= r < names.len() implies m.current_states[r] == last_use_before(nodes, names, r, i as nat) by {
            assert(slot_matches_history(nodes, names, m, r, i as nat));
        }
    }
}

/// A node waits for the last earlier node that writes a resource it binds:
/// reads and writes after a write are ordered after that write.
pub proof fn law_waits_for_last_writer(c: ComputeGraphConfig, plan: ExecutionPlan, i: int, j: int, r: int)
    requires
        planned_from(c, plan),
        single_use_per_node(c.compute_nodes@),
        0 <= j < i < c.compute_nodes@.len(),
        0 <= r < declared_names(c).len(),
        node_writes(c.compute_nodes@, declared_names(c), j, r),
        node_uses(c.compute_nodes@, declared_names(c), i, r),
        forall|q: int| j < q < i ==> !node_writes(c.compute_nodes@, declared_names(c), q, r),
    ensures
        plan.nodes@[i].dependencies@.contains(c.compute_nodes@[j].name),
{
    let nodes = c.compute_nodes@;
    let names = declared_names(c);
    lemma_node_dependencies(c, i);
    lemma_last_write_is(nodes, names, r, j, i as nat);
    let k = choose|k: int| binding_targets(nodes, names, i, k, r);
    assert(binding_targets(nodes, names, i, k, r));
    let deps = node_outcome(nodes, names, i as nat).dependencies;
    assert(deps.contains(j as usize));
    assert(planned_node_matches(plan.nodes@[i], nodes, names, i));
    lemma_dependency_names(nodes, deps, nodes.len());
}

/// A node that writes a resource waits for every node that read it since its
/// last earlier write: writes after reads are ordered after those reads.
pub proof fn law_writer_waits_for_readers(c: ComputeGraphConfig, plan: ExecutionPlan, i: int, j: int, r: int)
    requires
        planned_from(c, plan),
        single_use_per_node(c.compute_nodes@),
        0 <= j < i < c.compute_nodes@.len(),
        0 <= r < declared_names(c).len(),
        node_reads(c.compute_nodes@, declared_names(c), j, r),
        node_writes(c.compute_nodes@, declared_names(c), i, r),
        forall|q: int| j < q < i ==> !node_writes(c.compute_nodes@, declared_names(c), q, r),
    ensures
        plan.nodes@[i].dependencies@.contains(c.compute_nodes@[j].name),
{
    let nodes = c.compute_nodes@;
    let names = declared_names(c);
    lemma_node_dependencies(c, i);
    let k = choose|k: int| binding_targets(nodes, names, i, k, r) && writes(nodes[i].bindings@[k].access);
    assert(binding_targets(nodes, names, i, k, r));
    let deps = node_outcome(nodes, names, i as nat).dependencies;
    assert(deps.contains(j as usize));
    assert(planned_node_matches(plan.nodes@[i], nodes, names, i));
    lemma_dependency_names(nodes, deps, nodes.len());
}

/// A node waits only for earlier nodes that share a resource with it, one of
/// the two writing it: the plan runs correctly in configuration order and
/// adds no ordering that no hazard calls for.
pub proof fn law_waits_only_for_earlier_conflicts(c: ComputeGraphConfig, plan: ExecutionPlan, i: int, d: String)
    requires
        planned_from(c, plan),
        single_use_per_node(c.compute_nodes@),
        0 <= i < c.compute_nodes@.len(),
        plan.nodes@[i].dependencies@.contains(d),
    ensures
        exists|j: int, r: int| #![trigger c.compute_nodes@[j], node_uses(c.compute_nodes@, declared_names(c), i, r)]
            0 <= j < i && d == c.compute_nodes@[j].name
            && node_uses(c.compute_nodes@, declared_names(c), i, r)
            && node_uses(c.compute_nodes@, declared_names(c), j, r)
            && (node_writes(c.compute_nodes@, declared_names(c), j, r)
                || node_writes(c.compute_nodes@, declared_names(c), i, r)),
{
    let nodes = c.compute_nodes@;
    let names = declared_names(c);
    lemma_node_dependencies(c, i);
    let deps = node_outcome(nodes, names, i as nat).dependencies;
    assert(planned_node_matches(plan.nodes@[i], nodes, names, i));
    lemma_dependency_names(nodes, deps, nodes.len());
    let j = choose|j: int| 0 <= j < nodes.len() && deps.contains(j as usize) && d == #[trigger] nodes[j].name;
    let x = j as usize;
    assert(deps.contains(x));
    let (k, r) = choose|k: int, r: int| #[trigger] binding_targets(nodes, names, i, k, r)
        && 0 <= r < names.len() && (
        last_write_before(nodes, names, r, i as nat) == Some(x)
        || (writes(nodes[i].bindings@[k].access)
            && x < i && node_reads(nodes, names, x as int, r)
            && forall|q: int| x < q < i ==> !node_writes(nodes, names, q, r)));
    assert(node_uses(nodes, names, i, r));
    if last_write_before(nodes, names, r, i as nat) == Some(x) {
        lemma_last_write_earlier(nodes, names, r, i as nat);
        assert(node_writes(nodes, names, j, r));
    } else {
        assert(node_reads(nodes, names, j, r));
        assert(node_writes(nodes, names, i, r));
    }
}

/// The barriers before a node follow the states that the last earlier uses
/// left its resources in: a transition where the needed state differs, a UAV
/// barrier between unordered accesses, nothing before a first use.
pub proof fn law_barriers_follow_states(c: ComputeGraphConfig, plan: ExecutionPlan, i: int)
    requires
        planned_from(c, plan),
        single_use_per_node(c.compute_nodes@),
        0 <= i < c.compute_nodes@.len(),
    ensures
        plan.nodes@[i].barriers_before@ == barriers_for(states_before(c.compute_nodes@, declared_names(c), i as nat),
            declared_names(c), c.compute_nodes@[i].bindings@, c.compute_nodes@[i].bindings@.len()),
{
    lemma_node_dependencies(c, i);
    assert(planned_node_matches(plan.nodes@[i], c.compute_nodes@, declared_names(c), i));
}

// ---------------------------------------------------------------------------
// Laws of validation
// ---------------------------------------------------------------------------

/// No two declared resources share a name, no two nodes share a name, and no
/// node binds the same resource or the same slot twice.
pub open spec fn config_is_unique(c: ComputeGraphConfig) -> bool {
    let nodes = c.compute_nodes@;
    &&& distinct_names(declared_names(c))
    &&& forall|i: int, j: int| 0 <= i < nodes.len() && 0 <= j < nodes.len() && i != j
        ==> #[trigger] nodes[i].name@ != #[trigger] nodes[j].name@
    &&& forall|p: int, j: int, k: int| #![trigger nodes[p].bindings@[j], nodes[p].bindings@[k]]
        0 <= p < nodes.len() && 0 <= j < nodes[p].bindings@.len() && 0 <= k < nodes[p].bindings@.len() && j != k
        ==> nodes[p].bindings@[j].resource@ != nodes[p].bindings@[k].resource@
            && nodes[p].bindings@[j].slot != nodes[p].bindings@[k].slot
}

/// Every binding of every node names a declared resource.
pub open spec fn bindings_declared(c: ComputeGraphConfig) -> bool {
    forall|p: int, k: int| 0 <= p < c.compute_nodes@.len() && 0 <= k < c.compute_nodes@[p].bindings@.len()
        ==> (#[trigger] position_of(declared_names(c), c.compute_nodes@[p].bindings@[k].resource@)) is Some
}

proof fn lemma_first_repeat_none_iff(names: Seq<Seq<char>>, i: int)
    requires
        0 <= i,
    ensures
        first_repeat_from(names, i) is None <==> forall|k: int| i <= k < names.len() ==> !repeats_earlier(names, k),
    decreases names.len() - i,
{
    if i < names.len() {
        lemma_first_repeat_none_iff(names, i + 1);
    }
}

proof fn lemma_binding_fault_none_iff(node: ComputeNodeConfig, k: int)
    requires
        0 <= k,
    ensures
        binding_fault_from(node, k) is None <==> forall|j: int| k <= j < node.bindings@.len()
            ==> !binding_resource_repeats(node.bindings@, j) && !binding_slot_repeats(node.bindings@, j),
    decreases node.bindings@.len() - k,
{
    if k < node.bindings@.len() {
        lemma_binding_fault_none_iff(node, k + 1);
    }
}

proof fn lemma_node_fault_none_iff(nodes: Seq<ComputeNodeConfig>, i: int)
    requires
        0 <= i,
    ensures
        node_fault_from(nodes, i) is None <==> forall|p: int| i <= p < nodes.len()
            ==> !node_name_repeats(nodes, p) && binding_fault_from(#[trigger] nodes[p], 0) is None,
    decreases nodes.len() - i,
{
    if i < nodes.len() {
        lemma_node_fault_none_iff(nodes, i + 1);
    }
}

proof fn lemma_unknown_binding_none_iff(names: Seq<Seq<char>>, node: ComputeNodeConfig, k: int)
    requires
        0 <= k,
    ensures
        unknown_binding_from(names, node, k) is None <==> forall|j: int| k <= j < node.bindings@.len()
            ==> (#[trigger] position_of(names, node.bindings@[j].resource@)) is Some,
    decreases node.bindings@.len() - k,
{
    if k < node.bindings@.len() {
        lemma_unknown_binding_none_iff(names, node, k + 1);
    }
}

proof fn lemma_unknown_fault_none_iff(names: Seq<Seq<char>>, nodes: Seq<ComputeNodeConfig>, i: int)
    requires
        0 <= i,
    ensures
        unknown_fault_from(names, nodes, i) is None <==> forall|p: int| i <= p < nodes.len()
            ==> unknown_binding_from(names, #[trigger] nodes[p], 0) is None,
    decreases nodes.len() - i,
{
    if i < nodes.len() {
        lemma_unknown_fault_none_iff(names, nodes, i + 1);
    }
}

/// Validation accepts exactly the configurations in which resource names,
/// node names, and the resources and slots bound by each node are unique.
pub proof fn law_validation_accepts_unique_configs(c: ComputeGraphConfig)
    ensures
        config_fault(c) is None <==> config_is_unique(c),
{
    let names = declared_names(c);
    let nodes = c.compute_nodes@;
    lemma_first_repeat_none_iff(names, 0);
    lemma_node_fault_none_iff(nodes, 0);
    if config_fault(c) is None {
        lemma_no_repeat_distinct(names);
        assert forall|i: int, j: int| 0 <= i < nodes.len() && 0 <= j < nodes.len() && i != j
            implies #[trigger] nodes[i].name@ != #[trigger] nodes[j].name@ by {
            if i < j {
                assert(!node_name_repeats(nodes, j));
            } else {
                assert(!node_name_repeats(nodes, i));
            }
        }
        assert forall|p: int, j: int, k: int| #![trigger nodes[p].bindings@[j], nodes[p].bindings@[k]]
            0 <= p < nodes.len() && 0 <= j < nodes[p].bindings@.len() && 0 <= k < nodes[p].bindings@.len() && j != k
            implies nodes[p].bindings@[j].resource@ != nodes[p].bindings@[k].resource@
                && nodes[p].bindings@[j].slot != nodes[p].bindings@[k].slot by {
            assert(binding_fault_from(nodes[p], 0) is None);
            lemma_binding_fault_none_iff(nodes[p], 0);
            if j < k {
                assert(!binding_resource_repeats(nodes[p].bindings@, k));
                assert(!binding_slot_repeats(nodes[p].bindings@, k));
            } else {
                assert(!binding_resource_repeats(nodes[p].bindings@, j));
                assert(!binding_slot_repeats(nodes[p].bindings@, j));
            }
        }
    }
    if config_is_unique(c) {
        assert forall|k: int| 0 <= k < names.len() implies !repeats_earlier(names, k) by {
            if repeats_earlier(names, k) {
                let j = choose|j: int| 0 <= j < k && names[j] == names[k];
            }
        }
        assert forall|p: int| 0 <= p < nodes.len() implies !node_name_repeats(nodes, p)
            && binding_fault_from(#[trigger] nodes[p], 0) is None by {
            if node_name_repeats(nodes, p) {
                let j = choose|j: int| 0 <= j < p && nodes[j].name@ == nodes[p].name@;
                assert(nodes[j].name@ != nodes[p].name@);
            }
            lemma_binding_fault_none_iff(nodes[p], 0);
            let bs = nodes[p].bindings@;
            assert forall|j: int| 0 <= j < bs.len()
                implies !binding_resource_repeats(bs, j) && !binding_slot_repeats(bs, j) by {
                if binding_resource_repeats(bs, j) {
                    let t = choose|t: int| 0 <= t < j && bs[t].resource@ == bs[j].resource@;
                    assert(nodes[p].bindings@[t].resource@ != nodes[p].bindings@[j].resource@);
                }
                if binding_slot_repeats(bs, j) {
                    let t = choose|t: int| 0 <= t < j && bs[t].slot == bs[j].slot;
                    assert(nodes[p].bindings@[t].slot != nodes[p].bindings@[j].slot);
                }
            }
        }
    }
}

/// A plan is built from a configuration exactly when validation accepts it
/// and every binding names a declared resource.
pub proof fn law_plan_exists_for_valid_declared_configs(c: ComputeGraphConfig)
    ensures
        config_plan_fault(c) is None <==> (config_is_unique(c) && bindings_declared(c)),
{
    let names = declared_names(c);
    let nodes = c.compute_nodes@;
    law_validation_accepts_unique_configs(c);
    lemma_unknown_fault_none_iff(names, nodes, 0);
    if config_fault(c) is None {
        assert(plan_fault(c) == unknown_fault_from(names, nodes, 0));
        if unknown_fault_from(names, nodes, 0) is None {
            assert forall|p: int, k: int| 0 <= p < nodes.len() && 0 <= k < nodes[p].bindings@.len()
                implies (#[trigger] position_of(names, nodes[p].bindings@[k].resource@)) is Some by {
                assert(unknown_binding_from(names, nodes[p], 0) is None);
                lemma_unknown_binding_none_iff(names, nodes[p], 0);
            }
        }
        if bindings_declared(c) {
            assert forall|p: int| 0 <= p < nodes.len()
                implies unknown_binding_from(names, #[trigger] nodes[p], 0) is None by {
                lemma_unknown_binding_none_iff(names, nodes[p], 0);
                assert forall|j: int| 0 <= j < nodes[p].bindings@.len()
                    implies (#[trigger] position_of(names, nodes[p].bindings@[j].resource@)) is Some by {
                }
            }
        }
    }
}



// ---------------------------------------------------------------------------
// Laws of the plan's tables
// ---------------------------------------------------------------------------

proof fn lemma_entry_state_push(entries: Seq<(String, PlannedResourceState)>, e: (String, PlannedResourceState), name: Seq<char>)
    ensures
        entry_state(entries.push(e), name) == match entry_state(entries, name) {
            Some(s) => Some(s),
            None => if e.0@ == name { Some(e.1) } else { None },
        },
    decreases entries.len(),
{
    let pushed = entries.push(e);
    if entries.len() > 0 {
        assert(pushed[0] == entries[0]);
        assert(pushed.drop_first() =~= entries.drop_first().push(e));
        lemma_entry_state_push(entries.drop_first(), e, name);
        if entries[0].0@ != name {
            assert(entry_state(pushed, name) == entry_state(pushed.drop_first(), name));
            assert(entry_state(entries, name) == entry_state(entries.drop_first(), name));
        }
    } else {
        assert(pushed[0] == e);
        assert(pushed.drop_first() =~= Seq::<(String, PlannedResourceState)>::empty());
        assert(entry_state(pushed.drop_first(), name) is None);
    }
}

/// Positions listed in name order are listed once.
proof fn lemma_sorted_distinct(names: Seq<Seq<char>>, order: Seq<usize>, t1: int, t2: int)
    requires
        sorted_by_name(names, order),
        0 <= t1 < order.len(),
        0 <= t2 < order.len(),
        t1 != t2,
    ensures
        order[t1] != order[t2],
{
    lemma_name_less_asymmetric(names[order[t1] as int], names[order[t1] as int]);
}

/// Looking up a declared name in a state table finds the state of that
/// resource, when it stands among the listed positions and has one.
proof fn lemma_state_entries_lookup(
    c: ComputeGraphConfig,
    order: Seq<usize>,
    states: Seq<Option<PlannedResourceState>>,
    k: nat,
    p: int,
)
    requires
        distinct_names(declared_names(c)),
        sorted_by_name(declared_names(c), order),
        k <= order.len(),
        0 <= p < declared_names(c).len(),
        states.len() == declared_names(c).len(),
    ensures
        entry_state(state_entries(declared_resources(c), order, states, k), declared_names(c)[p])
            == if exists|t: int| 0 <= t < k && order[t] == p { states[p] } else { None },
    decreases k,
{
    let names = declared_names(c);
    let decl = declared_resources(c);
    if k > 0 {
        lemma_state_entries_lookup(c, order, states, (k - 1) as nat, p);
        let q = order[k - 1] as int;
        let prev = state_entries(decl, order, states, (k - 1) as nat);
        assert(names[q] == resource_name(decl[q]));
        assert(name_string(decl[q])@ == names[q]);
        if let Some(st) = states[q] {
            lemma_entry_state_push(prev, (name_string(decl[q]), st), names[p]);
        }
        if exists|t: int| 0 <= t < k - 1 && order[t] == p {
            let t = choose|t: int| 0 <= t < k - 1 && order[t] == p;
            lemma_sorted_distinct(names, order, t, k - 1);
        }
        if q != p {
            assert(names[q] != names[p]);
            if exists|t: int| 0 <= t < k && order[t] == p {
                let t = choose|t: int| 0 <= t < k && order[t] == p;
                assert(t != k - 1);
            }
        }
    }
}

/// The first and last states a plan records for a resource are those of its
/// first and its last use by the nodes, in configuration order; an unused
/// resource has none.
pub proof fn law_first_and_last_states(c: ComputeGraphConfig, plan: ExecutionPlan, r: int)
    requires
        planned_from(c, plan),
        single_use_per_node(c.compute_nodes@),
        0 <= r < declared_names(c).len(),
    ensures
        entry_state(plan.initial_resource_states@, declared_names(c)[r])
            == first_use_before(c.compute_nodes@, declared_names(c), r, c.compute_nodes@.len()),
        entry_state(plan.final_resource_states@, declared_names(c)[r])
            == last_use_before(c.compute_nodes@, declared_names(c), r, c.compute_nodes@.len()),
{
    let nodes = c.compute_nodes@;
    let names = declared_names(c);
    lemma_no_repeat_distinct(names);
    lemma_model_before_history(nodes, names, nodes.len());
    let last = model_before(nodes, names, nodes.len());
    assert(slot_matches_history(nodes, names, last, r, nodes.len()));
    let order = choose|order: Seq<usize>| #[trigger] sorted_by_name(names, order) && tables_in_order(c, plan, order);
    assert(order.contains(r as usize));
    lemma_state_entries_lookup(c, order, last.initial_states, order.len(), r);
    lemma_state_entries_lookup(c, order, last.final_states, order.len(), r);
}

/// A plan keys its resources by name, as a map ordered by name would: the
/// resources stand in strictly increasing name order, and the one with the
/// name of a declared resource is that resource.
pub proof fn law_plan_resources_keyed_by_name(c: ComputeGraphConfig, plan: ExecutionPlan, r: int)
    requires
        planned_from(c, plan),
        0 <= r < declared_names(c).len(),
    ensures
        forall|k1: int, k2: int| 0 <= k1 < k2 < plan.resources@.len()
            ==> name_less(resource_name(plan.resources@[k1]), resource_name(plan.resources@[k2])),
        exists|t: int| first_resource_named(plan, declared_names(c)[r], t)
            && plan.resources@[t] == declared_resources(c)[r],
{
    let names = declared_names(c);
    let decl = declared_resources(c);
    lemma_no_repeat_distinct(names);
    let order = choose|order: Seq<usize>| #[trigger] sorted_by_name(names, order) && tables_in_order(c, plan, order);
    assert forall|k: int| 0 <= k < plan.resources@.len()
        implies resource_name(plan.resources@[k]) == names[order[k] as int] by {
        assert(plan.resources@[k] == decl[order[k] as int]);
    }
    assert(order.contains(r as usize));
    let t = choose|t: int| 0 <= t < order.len() && order[t] == r as usize;
    assert forall|k: int| 0 <= k < t implies resource_name(#[trigger] plan.resources@[k]) != names[r] by {
        lemma_sorted_distinct(names, order, k, t);
        assert(resource_name(plan.resources@[k]) == names[order[k] as int]);
    }
    assert(resource_name(plan.resources@[t]) == names[r]);
    assert(first_resource_named(plan, names[r], t));
}


/// Every declared image stands in the plan unchanged (same name, width,
/// height and format) under its name, and so does every declared buffer.
pub proof fn law_plan_keeps_declared_resources(c: ComputeGraphConfig, plan: ExecutionPlan)
    requires
        planned_from(c, plan),
    ensures
        forall|i: int| 0 <= i < c.images@.len() ==> exists|t: int|
            first_resource_named(plan, c.images@[i].name@, t)
            && plan.resources@[t] == ResourceDefinition::Image(#[trigger] c.images@[i]),
        forall|j: int| 0 <= j < c.buffers@.len() ==> exists|t: int|
            first_resource_named(plan, c.buffers@[j].name@, t)
            && plan.resources@[t] == ResourceDefinition::Buffer(#[trigger] c.buffers@[j]),
{
    law_declared_resources_unchanged(c);
    let ni = c.images@.len();
    assert forall|i: int| 0 <= i < c.images@.len() implies exists|t: int|
        first_resource_named(plan, c.images@[i].name@, t)
        && plan.resources@[t] == ResourceDefinition::Image(#[trigger] c.images@[i]) by {
        assert(declared_resources(c)[i] == ResourceDefinition::Image(c.images@[i]));
        assert(declared_names(c)[i] == resource_name(declared_resources(c)[i]));
        law_plan_resources_keyed_by_name(c, plan, i);
    }
    assert forall|j: int| 0 <= j < c.buffers@.len() implies exists|t: int|
        first_resource_named(plan, c.buffers@[j].name@, t)
        && plan.resources@[t] == ResourceDefinition::Buffer(#[trigger] c.buffers@[j]) by {
        assert(declared_resources(c)[ni + j] == ResourceDefinition::Buffer(c.buffers@[j]));
        assert(declared_names(c)[ni + j] == resource_name(declared_resources(c)[ni + j]));
        law_plan_resources_keyed_by_name(c, plan, ni + j);
    }
}

/// The plan lists its resources in the order of their names by character
/// code, as a map keyed by name holds them: of two resources the earlier one's
/// name agrees with the later one's up to some position, where it either ends
/// or has the character with the smaller code (so `"Zeta"` comes before
/// `"alpha"`).
pub proof fn law_plan_resources_in_code_order(c: ComputeGraphConfig, plan: ExecutionPlan)
    requires
        planned_from(c, plan),
    ensures
        forall|k1: int, k2: int| 0 <= k1 < k2 < plan.resources@.len()
            ==> below_by_code(resource_name(#[trigger] plan.resources@[k1]), resource_name(#[trigger] plan.resources@[k2])),
{
    let names = declared_names(c);
    let order = choose|order: Seq<usize>| #[trigger] sorted_by_name(names, order) && tables_in_order(c, plan, order);
    assert(plan.resources@.len() == names.len());
    if names.len() > 0 {
        law_plan_resources_keyed_by_name(c, plan, 0);
        assert forall|k1: int, k2: int| 0 <= k1 < k2 < plan.resources@.len()
            implies below_by_code(resource_name(#[trigger] plan.resources@[k1]), resource_name(#[trigger] plan.resources@[k2])) by {
            let a = resource_name(plan.resources@[k1]);
            let b = resource_name(plan.resources@[k2]);
            assert(name_less(a, b));
            law_name_order_by_code(a, b);
        }
    }
}

// ---------------------------------------------------------------------------
// Replaying a plan's barriers
// ---------------------------------------------------------------------------

/// Records one barrier in the states of the resources (by position): a
/// transition must find the resource in its `before` state and leaves it in
/// its `after` state; a UAV barrier changes no state.  `None` when a
/// transition does not find what it expects.
pub open spec fn replay_barrier(
    names: Seq<Seq<char>>,
    st: Seq<Option<PlannedResourceState>>,
    b: PlannedBarrier,
) -> Option<Seq<Option<PlannedResourceState>>> {
    match b {
        PlannedBarrier::Transition { resource, before, after } => match position_of(names, resource@) {
            Some(r) => if st[r] == Some(before) { Some(st.update(r, Some(after))) } else { None },
            None => None,
        },
        PlannedBarrier::Uav { .. } => Some(st),
    }
}

/// Records a sequence of barriers, in order.
pub open spec fn replay_barriers(
    names: Seq<Seq<char>>,
    st: Seq<Option<PlannedResourceState>>,
    bs: Seq<PlannedBarrier>,
) -> Option<Seq<Option<PlannedResourceState>>>
    decreases bs.len(),
{
    if bs.len() == 0 {
        Some(st)
    } else {
        match replay_barrier(names, st, bs[0]) {
            Some(next) => replay_barriers(names, next, bs.drop_first()),
            None => None,
        }
    }
}

/// The states a state table records for the resources (by position).
pub open spec fn recorded_states(names: Seq<Seq<char>>, entries: Seq<(String, PlannedResourceState)>) -> Seq<Option<PlannedResourceState>> {
    Seq::new(names.len(), |r: int| entry_state(entries, names[r]))
}

/// Starting from the plan's initial states, the states after recording the
/// barriers of the first `k` nodes.
pub open spec fn replay_plan(names: Seq<Seq<char>>, plan: ExecutionPlan, k: nat) -> Option<Seq<Option<PlannedResourceState>>>
    decreases k,
{
    if k == 0 {
        Some(recorded_states(names, plan.initial_resource_states@))
    } else {
        match replay_plan(names, plan, (k - 1) as nat) {
            Some(st) => replay_barriers(names, st, plan.nodes@[k - 1].barriers_before@),
            None => None,
        }
    }
}

proof fn lemma_replay_concat(
    names: Seq<Seq<char>>,
    st: Seq<Option<PlannedResourceState>>,
    a: Seq<PlannedBarrier>,
    b: Seq<PlannedBarrier>,
)
    ensures
        replay_barriers(names, st, a + b) == match replay_barriers(names, st, a) {
            Some(m) => replay_barriers(names, m, b),
            None => None,
        },
    decreases a.len(),
{
    if a.len() > 0 {
        assert((a + b)[0] == a[0]);
        assert((a + b).drop_first() =~= a.drop_first() + b);
        if let Some(next) = replay_barrier(names, st, a[0]) {
            lemma_replay_concat(names, next, a.drop_first(), b);
        }
    } else {
        assert(a + b =~= b);
    }
}

/// Without an earlier use, the last and the first earlier use are both absent.
proof fn lemma_no_earlier_use(nodes: Seq<ComputeNodeConfig>, names: Seq<Seq<char>>, r: int, i: nat)
    ensures
        (last_use_before(nodes, names, r, i) is None) == (first_use_before(nodes, names, r, i) is None),
    decreases i,
{
    if i > 0 {
        lemma_no_earlier_use(nodes, names, r, (i - 1) as nat);
    }
}

/// Once a resource has been used, later nodes do not change its first use.
proof fn lemma_first_use_stable(nodes: Seq<ComputeNodeConfig>, names: Seq<Seq<char>>, r: int, i: nat, n: nat)
    requires
        i <= n,
        first_use_before(nodes, names, r, i) is Some,
    ensures
        first_use_before(nodes, names, r, n) == first_use_before(nodes, names, r, i),
    decreases n - i,
{
    if i < n {
        lemma_first_use_stable(nodes, names, r, i, (n - 1) as nat);
    }
}

/// What replaying leaves before node `i`: the state of the last earlier use,
/// or for a resource not used yet the state of its first use.
pub open spec fn replay_expected(nodes: Seq<ComputeNodeConfig>, names: Seq<Seq<char>>, i: nat) -> Seq<Option<PlannedResourceState>> {
    Seq::new(names.len(), |r: int| match last_use_before(nodes, names, r, i) {
        Some(s) => Some(s),
        None => first_use_before(nodes, names, r, nodes.len()),
    })
}

/// `replay_expected` after the first `k` bindings of node `i`.
pub open spec fn replay_partial(nodes: Seq<ComputeNodeConfig>, names: Seq<Seq<char>>, i: int, k: int) -> Seq<Option<PlannedResourceState>> {
    Seq::new(names.len(), |r: int| if exists|j: int| 0 <= j < k && #[trigger] binding_targets(nodes, names, i, j, r) {
        Some(use_state(nodes, names, i, r))
    } else {
        replay_expected(nodes, names, i as nat)[r]
    })
}

proof fn lemma_replay_node(nodes: Seq<ComputeNodeConfig>, names: Seq<Seq<char>>, i: int, k: nat)
    requires
        single_use_per_node(nodes),
        0 <= i < nodes.len(),
        k <= nodes[i].bindings@.len(),
    ensures
        replay_barriers(names, replay_expected(nodes, names, i as nat),
            barriers_for(states_before(nodes, names, i as nat), names, nodes[i].bindings@, k))
            == Some(replay_partial(nodes, names, i, k as int)),
    decreases k,
{
    let bs = nodes[i].bindings@;
    let start = replay_expected(nodes, names, i as nat);
    let cur = states_before(nodes, names, i as nat);
    if k == 0 {
        assert(replay_partial(nodes, names, i, 0) =~= start);
    } else {
        lemma_replay_node(nodes, names, i, (k - 1) as nat);
        let prev_b = barriers_for(cur, names, bs, (k - 1) as nat);
        let prev = replay_partial(nodes, names, i, k - 1);
        let target = replay_partial(nodes, names, i, k as int);
        let b = bs[k - 1];
        match position_of(names, b.resource@) {
            None => {
                assert(barriers_for(cur, names, bs, k) == prev_b);
                assert forall|r: int| 0 <= r < names.len() implies target[r] == prev[r] by {
                    if exists|j: int| 0 <= j < k && #[trigger] binding_targets(nodes, names, i, j, r) {
                        let j = choose|j: int| 0 <= j < k && #[trigger] binding_targets(nodes, names, i, j, r);
                        assert(j != k - 1);
                    }
                }
                assert(target =~= prev);
            },
            Some(r0) => {
                let extra = barrier_before(cur[r0], b);
                assert(barriers_for(cur, names, bs, k) == prev_b + extra);
                lemma_replay_concat(names, start, prev_b, extra);
                assert(names[r0] == b.resource@ && 0 <= r0 < names.len());
                assert(binding_targets(nodes, names, i, k - 1, r0));
                lemma_single_binding(nodes, names, i, k - 1, r0);
                let req = required_state_of(b.access);
                // The earlier bindings of the node do not use r0.
                assert(!exists|j: int| 0 <= j < k - 1 && #[trigger] binding_targets(nodes, names, i, j, r0));
                assert(prev[r0] == start[r0]);
                assert(cur[r0] == last_use_before(nodes, names, r0, i as nat));
                lemma_no_earlier_use(nodes, names, r0, i as nat);
                if cur[r0] is None {
                    // The first use of r0 is this one.
                    assert(first_use_before(nodes, names, r0, (i + 1) as nat) == Some(use_state(nodes, names, i, r0)));
                    lemma_first_use_stable(nodes, names, r0, (i + 1) as nat, nodes.len());
                    assert(start[r0] == Some(req));
                } else {
                    assert(start[r0] == cur[r0]);
                }
                let expected_next = if extra.len() == 0 { prev } else { prev.update(r0, Some(req)) };
                match cur[r0] {
                    None => {
                        assert(extra =~= Seq::<PlannedBarrier>::empty());
                    },
                    Some(cs) => {
                        if cs != req {
                            let t = PlannedBarrier::Transition { resource: b.resource, before: cs, after: req };
                            assert(extra =~= seq![t]);
                            assert(prev[r0] == Some(cs));
                            assert(position_of(names, t->Transition_resource@) == Some(r0));
                            assert(replay_barrier(names, prev, t) == Some(prev.update(r0, Some(req))));
                            assert(extra[0] == t);
                            assert(extra.drop_first() =~= Seq::<PlannedBarrier>::empty());
                            assert(replay_barriers(names, prev.update(r0, Some(req)), extra.drop_first())
                                == Some(prev.update(r0, Some(req))));
                        } else if cs == PlannedResourceState::UnorderedAccess {
                            let u = PlannedBarrier::Uav { resource: b.resource };
                            assert(extra =~= seq![u]);
                            assert(extra[0] == u);
                            assert(replay_barrier(names, prev, u) == Some(prev));
                            assert(extra.drop_first() =~= Seq::<PlannedBarrier>::empty());
                            assert(replay_barriers(names, prev, extra.drop_first()) == Some(prev));
                            assert(prev[r0] == Some(req));
                            assert(prev.update(r0, Some(req)) =~= prev);
                        } else {
                            assert(extra =~= Seq::<PlannedBarrier>::empty());
                        }
                    },
                }
                assert(replay_barriers(names, prev, extra) == Some(expected_next));
                assert forall|r: int| 0 <= r < names.len() implies target[r] == expected_next[r] by {
                    if r == r0 {
                        assert(binding_targets(nodes, names, i, k - 1, r0));
                    } else {
                        if exists|j: int| 0 <= j < k && #[trigger] binding_targets(nodes, names, i, j, r) {
                            let j = choose|j: int| 0 <= j < k && #[trigger] binding_targets(nodes, names, i, j, r);
                            assert(j != k - 1);
                            assert(binding_targets(nodes, names, i, j, r));
                        }
                    }
                }
                assert(target =~= expected_next);
            },
        }
    }
}

proof fn lemma_replay_prefix(c: ComputeGraphConfig, plan: ExecutionPlan, i: nat)
    requires
        planned_from(c, plan),
        single_use_per_node(c.compute_nodes@),
        i <= c.compute_nodes@.len(),
    ensures
        replay_plan(declared_names(c), plan, i) == Some(replay_expected(c.compute_nodes@, declared_names(c), i)),
    decreases i,
{
    let nodes = c.compute_nodes@;
    let names = declared_names(c);
    if i == 0 {
        assert forall|r: int| 0 <= r < names.len() implies recorded_states(names, plan.initial_resource_states@)[r]
            == replay_expected(nodes, names, 0)[r] by {
            law_first_and_last_states(c, plan, r);
        }
        assert(recorded_states(names, plan.initial_resource_states@) =~= replay_expected(nodes, names, 0));
    } else {
        let p = (i - 1) as int;
        lemma_replay_prefix(c, plan, (i - 1) as nat);
        law_barriers_follow_states(c, plan, p);
        let bs = nodes[p].bindings@;
        lemma_replay_node(nodes, names, p, bs.len());
        let part = replay_partial(nodes, names, p, bs.len() as int);
        let next = replay_expected(nodes, names, i);
        assert forall|r: int| 0 <= r < names.len() implies part[r] == next[r] by {
            if node_uses(nodes, names, p, r) {
                let k = choose|k: int| binding_targets(nodes, names, p, k, r);
                assert(binding_targets(nodes, names, p, k, r));
            } else {
                assert(!exists|j: int| 0 <= j < bs.len() && #[trigger] binding_targets(nodes, names, p, j, r));
            }
        }
        assert(part =~= next);
    }
}

/// Replaying a plan's barriers node by node, starting from its recorded
/// initial states, every transition finds the resource in the state it
/// expects, every binding of a node finds its resource in the state it
/// needs once the node's barriers are recorded, and the states reached at the
/// end are the plan's recorded final states.
pub proof fn law_barriers_replay_to_final_states(c: ComputeGraphConfig, plan: ExecutionPlan)
    requires
        planned_from(c, plan),
        single_use_per_node(c.compute_nodes@),
    ensures
        forall|i: nat| i <= c.compute_nodes@.len() ==> (#[trigger] replay_plan(declared_names(c), plan, i)) is Some,
        forall|i: int, k: int| 0 <= i < c.compute_nodes@.len() && 0 <= k < c.compute_nodes@[i].bindings@.len()
            ==> replay_plan(declared_names(c), plan, (i + 1) as nat)->0[
                    position_of(declared_names(c), (#[trigger] c.compute_nodes@[i].bindings@[k]).resource@)->0]
                == Some(required_state_of(c.compute_nodes@[i].bindings@[k].access)),
        replay_plan(declared_names(c), plan, c.compute_nodes@.len())
            == Some(recorded_states(declared_names(c), plan.final_resource_states@)),
{
    let nodes = c.compute_nodes@;
    let names = declared_names(c);
    assert forall|i: nat| i <= nodes.len() implies (#[trigger] replay_plan(names, plan, i)) is Some by {
        lemma_replay_prefix(c, plan, i);
    }
    assert forall|i: int, k: int| 0 <= i < nodes.len() && 0 <= k < nodes[i].bindings@.len()
        implies replay_plan(names, plan, (i + 1) as nat)->0[
            position_of(names, (#[trigger] nodes[i].bindings@[k]).resource@)->0]
            == Some(required_state_of(nodes[i].bindings@[k].access)) by {
        lemma_replay_prefix(c, plan, (i + 1) as nat);
        lemma_binding_declared(c, i, k);
        let r = position_of(names, nodes[i].bindings@[k].resource@)->0;
        assert(names[r] == nodes[i].bindings@[k].resource@);
        assert(binding_targets(nodes, names, i, k, r));
        lemma_single_binding(nodes, names, i, k, r);
    }
    lemma_replay_prefix(c, plan, nodes.len());
    assert forall|r: int| 0 <= r < names.len() implies replay_expected(nodes, names, nodes.len())[r]
        == recorded_states(names, plan.final_resource_states@)[r] by {
        law_first_and_last_states(c, plan, r);
        lemma_no_earlier_use(nodes, names, r, nodes.len());
    }
    assert(replay_expected(nodes, names, nodes.len()) =~= recorded_states(names, plan.final_resource_states@));
}


/// In a configuration that planning accepts, every binding names a declared resource.
proof fn lemma_binding_declared(c: ComputeGraphConfig, i: int, k: int)
    requires
        plan_fault(c) is None,
        0 <= i < c.compute_nodes@.len(),
        0 <= k < c.compute_nodes@[i].bindings@.len(),
    ensures
        position_of(declared_names(c), c.compute_nodes@[i].bindings@[k].resource@) is Some,
{
    let names = declared_names(c);
    let nodes = c.compute_nodes@;
    lemma_unknown_fault_none_iff(names, nodes, 0);
    assert(unknown_binding_from(names, nodes[i], 0) is None);
    lemma_unknown_binding_none_iff(names, nodes[i], 0);
}

// ---------------------------------------------------------------------------
// Barriers between consecutive uses of a resource
// ---------------------------------------------------------------------------

/// The resource a barrier is recorded for.
pub open spec fn barrier_resource(x: PlannedBarrier) -> String {
    match x {
        PlannedBarrier::Transition { resource, .. } => resource,
        PlannedBarrier::Uav { resource } => resource,
    }
}

/// The barriers for binding `m` are among the barriers for the first `n`
/// bindings of a node.
proof fn lemma_barriers_for_includes(
    cur: Seq<Option<PlannedResourceState>>,
    names: Seq<Seq<char>>,
    bs: Seq<ResourceBinding>,
    n: nat,
    m: int,
    r: int,
)
    requires
        0 <= m < n <= bs.len(),
        position_of(names, bs[m].resource@) == Some(r),
    ensures
        forall|x: PlannedBarrier| #[trigger] barrier_before(cur[r], bs[m]).contains(x)
            ==> barriers_for(cur, names, bs, n).contains(x),
    decreases n,
{
    let prev = barriers_for(cur, names, bs, (n - 1) as nat);
    if m < n - 1 {
        lemma_barriers_for_includes(cur, names, bs, (n - 1) as nat, m, r);
    }
    assert forall|x: PlannedBarrier| #[trigger] barrier_before(cur[r], bs[m]).contains(x)
        implies barriers_for(cur, names, bs, n).contains(x) by {
        match position_of(names, bs[n - 1].resource@) {
            Some(r1) => {
                let both = prev + barrier_before(cur[r1], bs[n - 1]);
                if m == n - 1 {
                    let t = choose|t: int| 0 <= t < barrier_before(cur[r], bs[m]).len()
                        && barrier_before(cur[r], bs[m])[t] == x;
                    assert(both[prev.len() + t] == x);
                } else {
                    let t = choose|t: int| 0 <= t < prev.len() && prev[t] == x;
                    assert(both[t] == x);
                }
            },
            None => {},
        }
    }
}

/// Only the bindings of resource `r` give barriers for it; where none of
/// them needs one, the node records no barrier for `r`.
proof fn lemma_barriers_for_without(
    cur: Seq<Option<PlannedResourceState>>,
    names: Seq<Seq<char>>,
    bs: Seq<ResourceBinding>,
    n: nat,
    r: int,
)
    requires
        n <= bs.len(),
        0 <= r < names.len(),
        position_of(names, names[r]) == Some(r),
        forall|m: int| 0 <= m < n && bs[m].resource@ == names[r]
            ==> barrier_before(cur[r], #[trigger] bs[m]).len() == 0,
    ensures
        forall|t: int| 0 <= t < barriers_for(cur, names, bs, n).len()
            ==> barrier_resource(#[trigger] barriers_for(cur, names, bs, n)[t])@ != names[r],
    decreases n,
{
    if n > 0 {
        lemma_barriers_for_without(cur, names, bs, (n - 1) as nat, r);
        let prev = barriers_for(cur, names, bs, (n - 1) as nat);
        let b = bs[n - 1];
        match position_of(names, b.resource@) {
            Some(r1) => {
                let extra = barrier_before(cur[r1], b);
                let all = prev + extra;
                assert(names[r1] == b.resource@);
                assert forall|t: int| 0 <= t < all.len() implies barrier_resource(#[trigger] all[t])@ != names[r] by {
                    if t >= prev.len() {
                        assert(barrier_resource(extra[t - prev.len()]) == b.resource);
                        if b.resource@ == names[r] {
                            assert(barrier_before(cur[r], bs[n - 1]).len() == 0);
                            assert(r1 == r);
                        }
                    } else {
                        assert(all[t] == prev[t]);
                    }
                }
            },
            None => {},
        }
    }
}

/// The position of a name holds that name.
proof fn lemma_position_is_named(names: Seq<Seq<char>>, r: int)
    ensures
        forall|x: Seq<char>| #[trigger] position_of(names, x) == Some(r) ==> 0 <= r < names.len() && names[r] == x,
{
}

/// When node `j` is the last node before node `i` that uses resource `r`,
/// the state of `r` before node `i` is the one node `j` used it in.
proof fn lemma_last_use_is(nodes: Seq<ComputeNodeConfig>, names: Seq<Seq<char>>, r: int, j: int, i: nat)
    requires
        0 <= j < i,
        node_uses(nodes, names, j, r),
        forall|q: int| j < q < i ==> !node_uses(nodes, names, q, r),
    ensures
        last_use_before(nodes, names, r, i) == Some(use_state(nodes, names, j, r)),
    decreases i,
{
    if i - 1 > j {
        assert(!node_uses(nodes, names, i - 1, r));
        lemma_last_use_is(nodes, names, r, j, (i - 1) as nat);
    }
}

/// Without an earlier use of resource `r`, nothing is known of its state.
proof fn lemma_no_use_yet(nodes: Seq<ComputeNodeConfig>, names: Seq<Seq<char>>, r: int, i: nat)
    requires
        forall|q: int| 0 <= q < i ==> !node_uses(nodes, names, q, r),
    ensures
        last_use_before(nodes, names, r, i) is None,
    decreases i,
{
    if i > 0 {
        assert(!node_uses(nodes, names, i - 1, r));
        lemma_no_use_yet(nodes, names, r, (i - 1) as nat);
    }
}

/// Node `j` binds (through binding `kj`) the resource that binding `k` of a
/// later node `i` binds, and no node between them binds it.  Then node `i`
/// records, before it runs: a UAV barrier for the resource when both uses
/// read and write it without a state change (a `Write` or `ReadWrite` after a
/// `Write` or `ReadWrite`), a transition from shader-read to unordered access
/// when a writing use follows a read, the reverse transition when a read
/// follows a writing use, and no barrier at all for it between two reads.
pub proof fn law_barrier_between_consecutive_uses(c: ComputeGraphConfig, plan: ExecutionPlan, i: int, k: int, j: int, kj: int)
    requires
        planned_from(c, plan),
        single_use_per_node(c.compute_nodes@),
        0 <= j < i < c.compute_nodes@.len(),
        0 <= k < c.compute_nodes@[i].bindings@.len(),
        0 <= kj < c.compute_nodes@[j].bindings@.len(),
        c.compute_nodes@[j].bindings@[kj].resource@ == c.compute_nodes@[i].bindings@[k].resource@,
        forall|q: int, kq: int| j < q < i && 0 <= kq < c.compute_nodes@[q].bindings@.len()
            ==> c.compute_nodes@[q].bindings@[kq].resource@ != c.compute_nodes@[i].bindings@[k].resource@,
    ensures
        !(c.compute_nodes@[j].bindings@[kj].access is Read) && !(c.compute_nodes@[i].bindings@[k].access is Read)
            ==> plan.nodes@[i].barriers_before@.contains(
                (PlannedBarrier::Uav { resource: c.compute_nodes@[i].bindings@[k].resource })),
        c.compute_nodes@[j].bindings@[kj].access is Read && !(c.compute_nodes@[i].bindings@[k].access is Read)
            ==> plan.nodes@[i].barriers_before@.contains((PlannedBarrier::Transition {
                resource: c.compute_nodes@[i].bindings@[k].resource,
                before: PlannedResourceState::ShaderRead,
                after: PlannedResourceState::UnorderedAccess,
            })),
        !(c.compute_nodes@[j].bindings@[kj].access is Read) && c.compute_nodes@[i].bindings@[k].access is Read
            ==> plan.nodes@[i].barriers_before@.contains((PlannedBarrier::Transition {
                resource: c.compute_nodes@[i].bindings@[k].resource,
                before: PlannedResourceState::UnorderedAccess,
                after: PlannedResourceState::ShaderRead,
            })),
        c.compute_nodes@[j].bindings@[kj].access is Read && c.compute_nodes@[i].bindings@[k].access is Read
            ==> forall|t: int| 0 <= t < plan.nodes@[i].barriers_before@.len()
                ==> barrier_resource(#[trigger] plan.nodes@[i].barriers_before@[t])@
                    != c.compute_nodes@[i].bindings@[k].resource@,
{
    let nodes = c.compute_nodes@;
    let names = declared_names(c);
    let bs = nodes[i].bindings@;
    let b = bs[k];
    let earlier = nodes[j].bindings@[kj];
    lemma_binding_declared(c, i, k);
    let r = position_of(names, b.resource@)->Some_0;
    lemma_position_is_named(names, r);
    assert(binding_targets(nodes, names, j, kj, r));
    assert(binding_targets(nodes, names, i, k, r));
    lemma_single_binding(nodes, names, j, kj, r);
    lemma_single_binding(nodes, names, i, k, r);
    assert forall|q: int| j < q < i implies !node_uses(nodes, names, q, r) by {
        if node_uses(nodes, names, q, r) {
            let kq = choose|kq: int| binding_targets(nodes, names, q, kq, r);
            assert(nodes[q].bindings@[kq].resource@ == names[r]);
        }
    }
    lemma_last_use_is(nodes, names, r, j, i as nat);
    let cur = states_before(nodes, names, i as nat);
    assert(cur[r] == Some(required_state_of(earlier.access)));
    law_barriers_follow_states(c, plan, i);
    lemma_barriers_for_includes(cur, names, bs, bs.len(), k, r);
    let here = barrier_before(cur[r], b);
    if !(earlier.access is Read) && !(b.access is Read) {
        assert(here[0] == (PlannedBarrier::Uav { resource: b.resource }));
        assert(here.contains((PlannedBarrier::Uav { resource: b.resource })));
    }
    if earlier.access is Read && !(b.access is Read) {
        assert(here.contains(here[0]));
    }
    if !(earlier.access is Read) && b.access is Read {
        assert(here.contains(here[0]));
    }
    if earlier.access is Read && b.access is Read {
        assert forall|m: int| 0 <= m < bs.len() && bs[m].resource@ == names[r]
            implies barrier_before(cur[r], #[trigger] bs[m]).len() == 0 by {
            assert(binding_targets(nodes, names, i, m, r));
        }
        lemma_barriers_for_without(cur, names, bs, bs.len(), r);
    }
}

/// A node records no barrier for a resource that no earlier node binds: its
/// first use needs none.
pub proof fn law_no_barrier_before_first_use(c: ComputeGraphConfig, plan: ExecutionPlan, i: int, k: int)
    requires
        planned_from(c, plan),
        single_use_per_node(c.compute_nodes@),
        0 <= i < c.compute_nodes@.len(),
        0 <= k < c.compute_nodes@[i].bindings@.len(),
        forall|q: int, kq: int| 0 <= q < i && 0 <= kq < c.compute_nodes@[q].bindings@.len()
            ==> c.compute_nodes@[q].bindings@[kq].resource@ != c.compute_nodes@[i].bindings@[k].resource@,
    ensures
        forall|t: int| 0 <= t < plan.nodes@[i].barriers_before@.len()
            ==> barrier_resource(#[trigger] plan.nodes@[i].barriers_before@[t])@
                != c.compute_nodes@[i].bindings@[k].resource@,
{
    let nodes = c.compute_nodes@;
    let names = declared_names(c);
    let bs = nodes[i].bindings@;
    let b = bs[k];
    lemma_binding_declared(c, i, k);
    let r = position_of(names, b.resource@)->Some_0;
    lemma_position_is_named(names, r);
    assert forall|q: int| 0 <= q < i implies !node_uses(nodes, names, q, r) by {
        if node_uses(nodes, names, q, r) {
            let kq = choose|kq: int| binding_targets(nodes, names, q, kq, r);
            assert(nodes[q].bindings@[kq].resource@ == names[r]);
        }
    }
    lemma_no_use_yet(nodes, names, r, i as nat);
    let cur = states_before(nodes, names, i as nat);
    assert(cur[r] is None);
    law_barriers_follow_states(c, plan, i);
    lemma_barriers_for_without(cur, names, bs, bs.len(), r);
}

} // verus!
