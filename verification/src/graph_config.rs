//! Compute graph configuration, its validation, and the execution plan that
//! orders nodes by their resource hazards and places barriers between them.
//!
//! Resources are identified by name.  A plan keeps the resources in the order
//! in which they were declared (images first, then buffers), and keeps the
//! first and last state of every resource at the same position as the
//! resource itself.

use vstd::prelude::*;
use crate::text::{decimal, push_decimal};
use crate::name_order::{
    lemma_name_less_asymmetric, lemma_name_less_total, lemma_name_less_transitive, name_less, precedes,
    sorted_by_name,
};

verus! {

/// Pixel format of an image resource.
#[derive(Debug, Clone, Copy, PartialEq, Eq, Structural)]
pub enum ImageFormat {
    Rgba8Unorm,
}

/// How a compute node uses a bound resource.
#[derive(Debug, Clone, Copy, PartialEq, Eq, Structural)]
pub enum ResourceAccess {
    Read,
    Write,
    ReadWrite,
}

/// The state a resource has to be in while a node uses it.
#[derive(Debug, Clone, Copy, PartialEq, Eq, Structural)]
pub enum PlannedResourceState {
    ShaderRead,
    UnorderedAccess,
}

/// An image resource declared by the configuration.
#[derive(Debug, PartialEq, Eq)]
pub struct ImageResourceConfig {
    pub name: String,
    pub width: u32,
    pub height: u32,
    pub format: ImageFormat,
}

/// A buffer resource declared by the configuration.
#[derive(Debug, PartialEq, Eq)]
pub struct BufferResourceConfig {
    pub name: String,
    pub size_in_bytes: u64,
}

/// A resource bound to a descriptor slot of a compute node.
#[derive(Debug, PartialEq, Eq)]
pub struct ResourceBinding {
    pub resource: String,
    pub slot: u32,
    pub access: ResourceAccess,
}

/// A compute node: a shader dispatch together with the resources it binds.
#[derive(Debug, PartialEq, Eq)]
pub struct ComputeNodeConfig {
    pub name: String,
    pub shader: String,
    pub dispatch: [u32; 3],
    pub bindings: Vec<ResourceBinding>,
}

/// A whole compute graph as written in its configuration.
#[derive(Debug)]
pub struct ComputeGraphConfig {
    pub images: Vec<ImageResourceConfig>,
    pub buffers: Vec<BufferResourceConfig>,
    pub compute_nodes: Vec<ComputeNodeConfig>,
}

/// A barrier that has to be recorded before a node runs.
#[derive(Debug, PartialEq, Eq)]
pub enum PlannedBarrier {
    Transition { resource: String, before: PlannedResourceState, after: PlannedResourceState },
    Uav { resource: String },
}

/// A declared resource of either kind.
#[derive(Debug, PartialEq, Eq)]
pub enum ResourceDefinition {
    Image(ImageResourceConfig),
    Buffer(BufferResourceConfig),
}

/// A node of the plan: the configured node, the names of the nodes it has to
/// wait for (in configuration order) and the barriers to record before it.
#[derive(Debug, PartialEq, Eq)]
pub struct PlannedComputeNode {
    pub name: String,
    pub shader: String,
    pub dispatch: [u32; 3],
    pub bindings: Vec<ResourceBinding>,
    pub dependencies: Vec<String>,
    pub barriers_before: Vec<PlannedBarrier>,
}

/// The execution plan of a compute graph.
///
/// `resources` holds the declared resources ordered by name;
/// `initial_resource_states` and `final_resource_states` hold, ordered by
/// resource name, the state of every bound resource at its first and at its
/// last use.
#[derive(Debug, PartialEq, Eq)]
pub struct ExecutionPlan {
    pub resources: Vec<ResourceDefinition>,
    pub nodes: Vec<PlannedComputeNode>,
    pub initial_resource_states: Vec<(String, PlannedResourceState)>,
    pub final_resource_states: Vec<(String, PlannedResourceState)>,
}

/// Why a configuration is rejected.
#[derive(Debug, PartialEq, Eq)]
pub enum GraphConfigError {
    DuplicateResource(String),
    DuplicateNode(String),
    DuplicateNodeResourceBinding { node: String, resource: String },
    DuplicateNodeBindingSlot { node: String, slot: u32 },
    UnknownResource { node: String, resource: String },
}

/// A rejection reason with names taken as character sequences.
pub enum GraphConfigFault {
    DuplicateResource(Seq<char>),
    DuplicateNode(Seq<char>),
    DuplicateNodeResourceBinding { node: Seq<char>, resource: Seq<char> },
    DuplicateNodeBindingSlot { node: Seq<char>, slot: u32 },
    UnknownResource { node: Seq<char>, resource: Seq<char> },
}

impl View for GraphConfigError {
    type V = GraphConfigFault;

    open spec fn view(&self) -> GraphConfigFault {
        match self {
            GraphConfigError::DuplicateResource(n) => GraphConfigFault::DuplicateResource(n@),
            GraphConfigError::DuplicateNode(n) => GraphConfigFault::DuplicateNode(n@),
            GraphConfigError::DuplicateNodeResourceBinding { node, resource } =>
                GraphConfigFault::DuplicateNodeResourceBinding { node: node@, resource: resource@ },
            GraphConfigError::DuplicateNodeBindingSlot { node, slot } =>
                GraphConfigFault::DuplicateNodeBindingSlot { node: node@, slot: *slot },
            GraphConfigError::UnknownResource { node, resource } =>
                GraphConfigFault::UnknownResource { node: node@, resource: resource@ },
        }
    }
}

impl Clone for ImageResourceConfig {
    fn clone(&self) -> (r: Self)
        ensures
            r == *self,
    {
        ImageResourceConfig {
            name: self.name.clone(),
            width: self.width,
            height: self.height,
            format: self.format,
        }
    }
}

impl Clone for BufferResourceConfig {
    fn clone(&self) -> (r: Self)
        ensures
            r == *self,
    {
        BufferResourceConfig { name: self.name.clone(), size_in_bytes: self.size_in_bytes }
    }
}

impl Clone for ResourceDefinition {
    fn clone(&self) -> (r: Self)
        ensures
            r == *self,
    {
        match self {
            ResourceDefinition::Image(i) => ResourceDefinition::Image(i.clone()),
            ResourceDefinition::Buffer(b) => ResourceDefinition::Buffer(b.clone()),
        }
    }
}

impl Clone for ResourceBinding {
    fn clone(&self) -> (r: Self)
        ensures
            r == *self,
    {
        ResourceBinding { resource: self.resource.clone(), slot: self.slot, access: self.access }
    }
}

// ---------------------------------------------------------------------------
// Access modes
// ---------------------------------------------------------------------------

/// The state a resource must be in for the given access.
pub open spec fn required_state_of(access: ResourceAccess) -> PlannedResourceState {
    match access {
        ResourceAccess::Read => PlannedResourceState::ShaderRead,
        _ => PlannedResourceState::UnorderedAccess,
    }
}

/// Whether the access may modify the resource.
pub open spec fn writes(access: ResourceAccess) -> bool {
    !(access is Read)
}

impl ResourceAccess {
    /// The state a resource must be in for this access.
    pub fn required_state(self) -> (s: PlannedResourceState)
        ensures
            s == required_state_of(self),
    {
        match self {
            ResourceAccess::Read => PlannedResourceState::ShaderRead,
            ResourceAccess::Write | ResourceAccess::ReadWrite => PlannedResourceState::UnorderedAccess,
        }
    }

    /// Whether this access may modify the resource.
    pub fn is_write(self) -> (w: bool)
        ensures
            w == writes(self),
    {
        match self {
            ResourceAccess::Read => false,
            ResourceAccess::Write | ResourceAccess::ReadWrite => true,
        }
    }
}

// ---------------------------------------------------------------------------
// Resource declarations
// ---------------------------------------------------------------------------

/// The name of a declared resource.
pub open spec fn resource_name(d: ResourceDefinition) -> Seq<char> {
    match d {
        ResourceDefinition::Image(i) => i.name@,
        ResourceDefinition::Buffer(b) => b.name@,
    }
}

/// The name of a declared resource, as the string it holds.
pub open spec fn name_string(d: ResourceDefinition) -> String {
    match d {
        ResourceDefinition::Image(i) => i.name,
        ResourceDefinition::Buffer(b) => b.name,
    }
}

/// The declared resources in declaration order: images, then buffers.
pub open spec fn declared_resources(c: ComputeGraphConfig) -> Seq<ResourceDefinition> {
    c.images@.map_values(|i: ImageResourceConfig| ResourceDefinition::Image(i))
        + c.buffers@.map_values(|b: BufferResourceConfig| ResourceDefinition::Buffer(b))
}

/// The declared resources are the configuration's images, each unchanged
/// (same name, width, height and format), followed by its buffers, each
/// unchanged (same name and size).
pub proof fn law_declared_resources_unchanged(c: ComputeGraphConfig)
    ensures
        declared_resources(c).len() == c.images@.len() + c.buffers@.len(),
        forall|i: int| 0 <= i < c.images@.len() ==> #[trigger] declared_resources(c)[i]
            == ResourceDefinition::Image(c.images@[i]),
        forall|j: int| 0 <= j < c.buffers@.len() ==> #[trigger] declared_resources(c)[c.images@.len() + j]
            == ResourceDefinition::Buffer(c.buffers@[j]),
{
    let imgs = c.images@.map_values(|i: ImageResourceConfig| ResourceDefinition::Image(i));
    let bufs = c.buffers@.map_values(|b: BufferResourceConfig| ResourceDefinition::Buffer(b));
    assert forall|j: int| 0 <= j < c.buffers@.len() implies #[trigger] declared_resources(c)[c.images@.len() + j]
        == ResourceDefinition::Buffer(c.buffers@[j]) by {
        assert((imgs + bufs)[imgs.len() + j] == bufs[j]);
    }
}

/// The names of resource definitions, in their order.
pub open spec fn definition_names(defs: Seq<ResourceDefinition>) -> Seq<Seq<char>> {
    defs.map_values(|d: ResourceDefinition| resource_name(d))
}

/// The names of the declared resources, in declaration order.
pub open spec fn declared_names(c: ComputeGraphConfig) -> Seq<Seq<char>> {
    definition_names(declared_resources(c))
}

/// Whether `names[i]` already occurs before position `i`.
pub open spec fn repeats_earlier(names: Seq<Seq<char>>, i: int) -> bool {
    exists|j: int| 0 <= j < i && names[j] == names[i]
}

/// Whether all names are distinct.
pub open spec fn distinct_names(names: Seq<Seq<char>>) -> bool {
    forall|i: int, j: int| 0 <= i < names.len() && 0 <= j < names.len() && i != j ==> names[i] != names[j]
}

/// The first repeated name at or after position `i`.
pub open spec fn first_repeat_from(names: Seq<Seq<char>>, i: int) -> Option<Seq<char>>
    decreases names.len() - i,
{
    if i < 0 || i >= names.len() {
        None
    } else if repeats_earlier(names, i) {
        Some(names[i])
    } else {
        first_repeat_from(names, i + 1)
    }
}

/// What collecting the declared resources rejects, if anything.
pub open spec fn resources_fault(c: ComputeGraphConfig) -> Option<GraphConfigFault> {
    match first_repeat_from(declared_names(c), 0) {
        Some(n) => Some(GraphConfigFault::DuplicateResource(n)),
        None => None,
    }
}

/// Without a repeat from position `i` on, no name at or after `i` occurs earlier.
pub proof fn lemma_no_repeat_from(names: Seq<Seq<char>>, i: int)
    requires
        0 <= i,
        first_repeat_from(names, i) is None,
    ensures
        forall|k: int| i <= k < names.len() ==> !repeats_earlier(names, k),
    decreases names.len() - i,
{
    if i < names.len() {
        lemma_no_repeat_from(names, i + 1);
    }
}

/// Names without any repeat are distinct.
pub proof fn lemma_no_repeat_distinct(names: Seq<Seq<char>>)
    requires
        first_repeat_from(names, 0) is None,
    ensures
        distinct_names(names),
{
    lemma_no_repeat_from(names, 0);
    assert forall|i: int, j: int|
        0 <= i < names.len() && 0 <= j < names.len() && i != j implies names[i] != names[j] by {
        if i < j {
            assert(!repeats_earlier(names, j));
        } else {
            assert(!repeats_earlier(names, i));
        }
    }
}

fn name_of(d: &ResourceDefinition) -> (n: &String)
    ensures
        n@ == resource_name(*d),
{
    match d {
        ResourceDefinition::Image(i) => &i.name,
        ResourceDefinition::Buffer(b) => &b.name,
    }
}

/// Whether the name of `defs[i]` is already used by an earlier definition.
fn name_declared_before(defs: &Vec<ResourceDefinition>, i: usize) -> (found: bool)
    requires
        i < defs@.len(),
    ensures
        found == repeats_earlier(definition_names(defs@), i as int),
{
    let ghost names = definition_names(defs@);
    let target = name_of(&defs[i]);
    let mut j: usize = 0;
    while j < i
        invariant
            j <= i < defs@.len(),
            names == definition_names(defs@),
            target@ == names[i as int],
            forall|k: int| 0 <= k < j ==> names[k] != names[i as int],
        decreases i - j,
    {
        assert(names[j as int] == resource_name(defs@[j as int]));
        if name_of(&defs[j]).eq(target) {
            return true;
        }
        j += 1;
    }
    false
}

impl ComputeGraphConfig {
    /// Collects the declared resources in declaration order, rejecting the
    /// first name that is declared a second time.
    pub fn collect_resources(&self) -> (r: Result<Vec<ResourceDefinition>, GraphConfigError>)
        ensures
            match r {
                Ok(defs) => {
                    &&& resources_fault(*self) is None
                    &&& defs@ == declared_resources(*self)
                    &&& defs@.len() == self.images@.len() + self.buffers@.len()
                    &&& forall|i: int| 0 <= i < self.images@.len() ==> #[trigger] defs@[i]
                        == ResourceDefinition::Image(self.images@[i])
                    &&& forall|j: int| 0 <= j < self.buffers@.len() ==> #[trigger] defs@[self.images@.len() + j]
                        == ResourceDefinition::Buffer(self.buffers@[j])
                },
                Err(e) => resources_fault(*self) == Some(e@),
            },
    {
        let mut defs: Vec<ResourceDefinition> = Vec::new();
        let ghost all = declared_resources(*self);
        let ghost names = declared_names(*self);
        let ni = self.images.len();
        let nb = self.buffers.len();
        let mut i: usize = 0;
        while i < ni
            invariant
                i <= ni == self.images@.len(),
                nb == self.buffers@.len(),
                all == declared_resources(*self),
                names == declared_names(*self),
                all.len() == ni + nb,
                defs@ == all.subrange(0, i as int),
                first_repeat_from(names, 0) == first_repeat_from(names, i as int),
            decreases ni - i,
        {
            defs.push(ResourceDefinition::Image(self.images[i].clone()));
            assert(all[i as int] == ResourceDefinition::Image(self.images@[i as int]));
            assert(defs@ == all.subrange(0, i + 1));
            assert(definition_names(defs@)
                =~= names.subrange(0, i + 1));
            let dup = name_declared_before(&defs, i);
            if dup {
                assert(repeats_earlier(names, i as int)) by {
                    let sub = names.subrange(0, i + 1);
                    let j = choose|j: int| 0 <= j < i && sub[j] == sub[i as int];
                    assert(names[j] == names[i as int]);
                }
                return Err(GraphConfigError::DuplicateResource(self.images[i].name.clone()));
            }
            assert(!repeats_earlier(names, i as int)) by {
                let sub = names.subrange(0, i + 1);
                if repeats_earlier(names, i as int) {
                    let j = choose|j: int| 0 <= j < i && names[j] == names[i as int];
                    assert(sub[j] == sub[i as int]);
                }
            }
            i += 1;
        }
        let mut k: usize = 0;
        while k < nb
            invariant
                k <= nb == self.buffers@.len(),
                ni == self.images@.len(),
                all == declared_resources(*self),
                names == declared_names(*self),
                all.len() == ni + nb,
                defs@ == all.subrange(0, ni + k),
                first_repeat_from(names, 0) == first_repeat_from(names, ni + k),
            decreases nb - k,
        {
            let i = defs.len();
            defs.push(ResourceDefinition::Buffer(self.buffers[k].clone()));
            assert(all[i as int] == ResourceDefinition::Buffer(self.buffers@[k as int]));
            assert(defs@ == all.subrange(0, i + 1));
            assert(definition_names(defs@)
                =~= names.subrange(0, i + 1));
            let dup = name_declared_before(&defs, i);
            if dup {
                assert(repeats_earlier(names, i as int)) by {
                    let sub = names.subrange(0, i + 1);
                    let j = choose|j: int| 0 <= j < i && sub[j] == sub[i as int];
                    assert(names[j] == names[i as int]);
                }
                return Err(GraphConfigError::DuplicateResource(self.buffers[k].name.clone()));
            }
            assert(!repeats_earlier(names, i as int)) by {
                let sub = names.subrange(0, i + 1);
                if repeats_earlier(names, i as int) {
                    let j = choose|j: int| 0 <= j < i && names[j] == names[i as int];
                    assert(sub[j] == sub[i as int]);
                }
            }
            k += 1;
        }
        assert(defs@ =~= all);
        proof {
            law_declared_resources_unchanged(*self);
        }
        Ok(defs)
    }
}


// ---------------------------------------------------------------------------
// Validation
// ---------------------------------------------------------------------------

/// Whether the name of node `i` is already used by an earlier node.
pub open spec fn node_name_repeats(nodes: Seq<ComputeNodeConfig>, i: int) -> bool {
    exists|j: int| 0 <= j < i && nodes[j].name@ == nodes[i].name@
}

/// Whether binding `k` binds a resource that an earlier binding of the same node binds.
pub open spec fn binding_resource_repeats(bindings: Seq<ResourceBinding>, k: int) -> bool {
    exists|j: int| 0 <= j < k && bindings[j].resource@ == bindings[k].resource@
}

/// Whether binding `k` uses a slot that an earlier binding of the same node uses.
pub open spec fn binding_slot_repeats(bindings: Seq<ResourceBinding>, k: int) -> bool {
    exists|j: int| 0 <= j < k && bindings[j].slot == bindings[k].slot
}

/// The first rejected binding of `node` at or after binding `k`.
pub open spec fn binding_fault_from(node: ComputeNodeConfig, k: int) -> Option<GraphConfigFault>
    decreases node.bindings@.len() - k,
{
    let bs = node.bindings@;
    if k < 0 || k >= bs.len() {
        None
    } else if binding_resource_repeats(bs, k) {
        Some(GraphConfigFault::DuplicateNodeResourceBinding { node: node.name@, resource: bs[k].resource@ })
    } else if binding_slot_repeats(bs, k) {
        Some(GraphConfigFault::DuplicateNodeBindingSlot { node: node.name@, slot: bs[k].slot })
    } else {
        binding_fault_from(node, k + 1)
    }
}

/// The first rejected node at or after node `i`: a repeated node name, or a
/// repeated resource or slot among its bindings.
pub open spec fn node_fault_from(nodes: Seq<ComputeNodeConfig>, i: int) -> Option<GraphConfigFault>
    decreases nodes.len() - i,
{
    if i < 0 || i >= nodes.len() {
        None
    } else if node_name_repeats(nodes, i) {
        Some(GraphConfigFault::DuplicateNode(nodes[i].name@))
    } else {
        match binding_fault_from(nodes[i], 0) {
            Some(f) => Some(f),
            None => node_fault_from(nodes, i + 1),
        }
    }
}

/// What validation rejects in a configuration, if anything: first repeated
/// resource names, then the nodes in order.
pub open spec fn config_fault(c: ComputeGraphConfig) -> Option<GraphConfigFault> {
    match resources_fault(c) {
        Some(f) => Some(f),
        None => node_fault_from(c.compute_nodes@, 0),
    }
}

fn node_name_used_before(nodes: &Vec<ComputeNodeConfig>, i: usize) -> (found: bool)
    requires
        i < nodes@.len(),
    ensures
        found == node_name_repeats(nodes@, i as int),
{
    let mut j: usize = 0;
    while j < i
        invariant
            j <= i < nodes@.len(),
            forall|k: int| 0 <= k < j ==> nodes@[k].name@ != nodes@[i as int].name@,
        decreases i - j,
    {
        if nodes[j].name.eq(&nodes[i].name) {
            return true;
        }
        j += 1;
    }
    false
}

fn binding_resource_used_before(bindings: &Vec<ResourceBinding>, k: usize) -> (found: bool)
    requires
        k < bindings@.len(),
    ensures
        found == binding_resource_repeats(bindings@, k as int),
{
    let mut j: usize = 0;
    while j < k
        invariant
            j <= k < bindings@.len(),
            forall|m: int| 0 <= m < j ==> bindings@[m].resource@ != bindings@[k as int].resource@,
        decreases k - j,
    {
        if bindings[j].resource.eq(&bindings[k].resource) {
            return true;
        }
        j += 1;
    }
    false
}

fn binding_slot_used_before(bindings: &Vec<ResourceBinding>, k: usize) -> (found: bool)
    requires
        k < bindings@.len(),
    ensures
        found == binding_slot_repeats(bindings@, k as int),
{
    let mut j: usize = 0;
    while j < k
        invariant
            j <= k < bindings@.len(),
            forall|m: int| 0 <= m < j ==> bindings@[m].slot != bindings@[k as int].slot,
        decreases k - j,
    {
        if bindings[j].slot == bindings[k].slot {
            return true;
        }
        j += 1;
    }
    false
}

fn check_node_bindings(node: &ComputeNodeConfig) -> (r: Result<(), GraphConfigError>)
    ensures
        match r {
            Ok(()) => binding_fault_from(*node, 0) is None,
            Err(e) => binding_fault_from(*node, 0) == Some(e@),
        },
{
    let n = node.bindings.len();
    let mut k: usize = 0;
    while k < n
        invariant
            k <= n == node.bindings@.len(),
            binding_fault_from(*node, 0) == binding_fault_from(*node, k as int),
        decreases n - k,
    {
        if binding_resource_used_before(&node.bindings, k) {
            return Err(GraphConfigError::DuplicateNodeResourceBinding {
                node: node.name.clone(),
                resource: node.bindings[k].resource.clone(),
            });
        }
        if binding_slot_used_before(&node.bindings, k) {
            return Err(GraphConfigError::DuplicateNodeBindingSlot {
                node: node.name.clone(),
                slot: node.bindings[k].slot,
            });
        }
        k += 1;
    }
    Ok(())
}

impl ComputeGraphConfig {
    /// Checks that resource names, node names, and the resources and slots
    /// bound by each node are unique, reporting the first violation.
    pub fn validate(&self) -> (r: Result<(), GraphConfigError>)
        ensures
            match r {
                Ok(()) => config_fault(*self) is None,
                Err(e) => config_fault(*self) == Some(e@),
            },
    {
        match self.collect_resources() {
            Ok(_) => {},
            Err(e) => {
                return Err(e);
            },
        }
        let n = self.compute_nodes.len();
        let mut i: usize = 0;
        while i < n
            invariant
                i <= n == self.compute_nodes@.len(),
                resources_fault(*self) is None,
                node_fault_from(self.compute_nodes@, 0) == node_fault_from(self.compute_nodes@, i as int),
            decreases n - i,
        {
            if node_name_used_before(&self.compute_nodes, i) {
                return Err(GraphConfigError::DuplicateNode(self.compute_nodes[i].name.clone()));
            }
            match check_node_bindings(&self.compute_nodes[i]) {
                Ok(()) => {},
                Err(e) => {
                    return Err(e);
                },
            }
            i += 1;
        }
        Ok(())
    }
}


// ---------------------------------------------------------------------------
// Planning
// ---------------------------------------------------------------------------

/// Planning state, one entry per declared resource (at the resource's position):
/// its current state, the nodes that read it since it was last written, the
/// node that wrote it last, and its state at its first and at its last use.
pub struct PlanModel {
    pub current_states: Seq<Option<PlannedResourceState>>,
    pub active_readers: Seq<Seq<usize>>,
    pub last_writers: Seq<Option<usize>>,
    pub initial_states: Seq<Option<PlannedResourceState>>,
    pub final_states: Seq<Option<PlannedResourceState>>,
}

/// The planning state after some bindings of a node, together with the
/// nodes that node has to wait for and the barriers it needs so far.
pub struct NodeModel {
    pub model: PlanModel,
    pub dependencies: Set<usize>,
    pub barriers: Seq<PlannedBarrier>,
}

/// The planning state before any node, for `n` resources.
pub open spec fn empty_plan_model(n: nat) -> PlanModel {
    PlanModel {
        current_states: Seq::new(n, |i: int| None),
        active_readers: Seq::new(n, |i: int| Seq::<usize>::empty()),
        last_writers: Seq::new(n, |i: int| None),
        initial_states: Seq::new(n, |i: int| None),
        final_states: Seq::new(n, |i: int| None),
    }
}

/// The position of the resource called `name`, if one is declared.
pub open spec fn position_of(names: Seq<Seq<char>>, name: Seq<char>) -> Option<int> {
    if exists|j: int| 0 <= j < names.len() && names[j] == name {
        Some(choose|j: int| 0 <= j < names.len() && names[j] == name)
    } else {
        None
    }
}

/// The nodes that a use of resource `r` has to wait for: its last writer, and
/// for a write also every node that read it since.
pub open spec fn hazard_dependencies(m: PlanModel, r: int, write: bool) -> Set<usize> {
    let from_writer = match m.last_writers[r] {
        Some(w) => Set::empty().insert(w),
        None => Set::empty(),
    };
    if write {
        from_writer.union(m.active_readers[r].to_set())
    } else {
        from_writer
    }
}

/// The barrier needed before binding `b` when its resource is in state `current`:
/// a transition when the state changes, a UAV barrier between two unordered
/// accesses, none otherwise.
pub open spec fn barrier_before(current: Option<PlannedResourceState>, b: ResourceBinding) -> Seq<PlannedBarrier> {
    let req = required_state_of(b.access);
    match current {
        Some(cur) => if cur != req {
            seq![PlannedBarrier::Transition { resource: b.resource, before: cur, after: req }]
        } else if cur == PlannedResourceState::UnorderedAccess {
            seq![PlannedBarrier::Uav { resource: b.resource }]
        } else {
            seq![]
        },
        None => seq![],
    }
}

/// The planning state after node `node` uses resource `r` through binding `b`.
pub open spec fn apply_binding(m: PlanModel, r: int, b: ResourceBinding, node: usize) -> PlanModel {
    let req = required_state_of(b.access);
    let w = writes(b.access);
    PlanModel {
        current_states: m.current_states.update(r, Some(req)),
        active_readers: m.active_readers.update(r, if w { Seq::<usize>::empty() } else { m.active_readers[r].push(node) }),
        last_writers: if w { m.last_writers.update(r, Some(node)) } else { m.last_writers },
        initial_states: if m.initial_states[r] is None { m.initial_states.update(r, Some(req)) } else { m.initial_states },
        final_states: m.final_states.update(r, Some(req)),
    }
}

/// One binding of node `node` applied to the node's progress.
pub open spec fn binding_outcome(acc: NodeModel, names: Seq<Seq<char>>, b: ResourceBinding, node: usize) -> NodeModel {
    match position_of(names, b.resource@) {
        None => acc,
        Some(r) => NodeModel {
            model: apply_binding(acc.model, r, b, node),
            dependencies: acc.dependencies.union(hazard_dependencies(acc.model, r, writes(b.access))),
            barriers: acc.barriers + barrier_before(acc.model.current_states[r], b),
        },
    }
}

/// The progress of node `node` after its first `k` bindings, starting from `m`.
pub open spec fn bindings_outcome(
    m: PlanModel,
    names: Seq<Seq<char>>,
    bindings: Seq<ResourceBinding>,
    node: usize,
    k: nat,
) -> NodeModel
    decreases k,
{
    if k == 0 {
        NodeModel { model: m, dependencies: Set::empty(), barriers: seq![] }
    } else {
        binding_outcome(bindings_outcome(m, names, bindings, node, (k - 1) as nat), names, bindings[k - 1], node)
    }
}

/// The planning state before node `i` runs.
pub open spec fn model_before(nodes: Seq<ComputeNodeConfig>, names: Seq<Seq<char>>, i: nat) -> PlanModel
    decreases i,
{
    if i == 0 {
        empty_plan_model(names.len())
    } else {
        let p = (i - 1) as nat;
        bindings_outcome(model_before(nodes, names, p), names, nodes[p as int].bindings@, p as usize,
            nodes[p as int].bindings@.len()).model
    }
}

/// The outcome of planning node `i`.
pub open spec fn node_outcome(nodes: Seq<ComputeNodeConfig>, names: Seq<Seq<char>>, i: nat) -> NodeModel {
    bindings_outcome(model_before(nodes, names, i), names, nodes[i as int].bindings@, i as usize,
        nodes[i as int].bindings@.len())
}

/// The names of the nodes among the first `n` whose index is in `deps`, in node order.
pub open spec fn dependency_names(nodes: Seq<ComputeNodeConfig>, deps: Set<usize>, n: nat) -> Seq<String>
    decreases n,
{
    if n == 0 {
        seq![]
    } else {
        let prev = dependency_names(nodes, deps, (n - 1) as nat);
        if deps.contains((n - 1) as usize) { prev.push(nodes[n - 1].name) } else { prev }
    }
}

/// The first binding of `node`, at or after `k`, whose resource is not declared.
pub open spec fn unknown_binding_from(names: Seq<Seq<char>>, node: ComputeNodeConfig, k: int) -> Option<GraphConfigFault>
    decreases node.bindings@.len() - k,
{
    let bs = node.bindings@;
    if k < 0 || k >= bs.len() {
        None
    } else if position_of(names, bs[k].resource@) is None {
        Some(GraphConfigFault::UnknownResource { node: node.name@, resource: bs[k].resource@ })
    } else {
        unknown_binding_from(names, node, k + 1)
    }
}

/// The first binding of a node at or after node `i` whose resource is not declared.
pub open spec fn unknown_fault_from(names: Seq<Seq<char>>, nodes: Seq<ComputeNodeConfig>, i: int) -> Option<GraphConfigFault>
    decreases nodes.len() - i,
{
    if i < 0 || i >= nodes.len() {
        None
    } else {
        match unknown_binding_from(names, nodes[i], 0) {
            Some(f) => Some(f),
            None => unknown_fault_from(names, nodes, i + 1),
        }
    }
}

/// What planning rejects in a configuration, if anything: first repeated
/// resource names, then the first binding of an undeclared resource.
pub open spec fn plan_fault(c: ComputeGraphConfig) -> Option<GraphConfigFault> {
    match resources_fault(c) {
        Some(f) => Some(f),
        None => unknown_fault_from(declared_names(c), c.compute_nodes@, 0),
    }
}

/// Planned node `p` is node `i` of the configuration, with the dependencies and
/// barriers that planning gives it.
pub open spec fn planned_node_matches(
    p: PlannedComputeNode,
    nodes: Seq<ComputeNodeConfig>,
    names: Seq<Seq<char>>,
    i: int,
) -> bool {
    let node = nodes[i];
    let outcome = node_outcome(nodes, names, i as nat);
    &&& p.name == node.name
    &&& p.shader == node.shader
    &&& p.dispatch == node.dispatch
    &&& p.bindings@ == node.bindings@
    &&& p.dependencies@ == dependency_names(nodes, outcome.dependencies, nodes.len())
    &&& p.barriers_before@ == outcome.barriers
}

/// `plan` is the execution plan of configuration `c`.
pub open spec fn is_plan_of(c: ComputeGraphConfig, plan: ExecutionPlan) -> bool {
    let names = declared_names(c);
    let nodes = c.compute_nodes@;
    let last = model_before(nodes, names, nodes.len());
    &&& exists|order: Seq<usize>| #[trigger] sorted_by_name(names, order) && tables_in_order(c, plan, order)
    &&& plan.nodes@.len() == nodes.len()
    &&& forall|i: int| 0 <= i < nodes.len() ==> #[trigger] planned_node_matches(plan.nodes@[i], nodes, names, i)
}

/// The resources at the positions in `order`.
pub open spec fn resources_in_order(defs: Seq<ResourceDefinition>, order: Seq<usize>) -> Seq<ResourceDefinition> {
    Seq::new(order.len(), |k: int| defs[order[k] as int])
}

/// The named states of the resources at the first `k` positions of `order`
/// that have a state.
pub open spec fn state_entries(
    defs: Seq<ResourceDefinition>,
    order: Seq<usize>,
    states: Seq<Option<PlannedResourceState>>,
    k: nat,
) -> Seq<(String, PlannedResourceState)>
    decreases k,
{
    if k == 0 {
        seq![]
    } else {
        let prev = state_entries(defs, order, states, (k - 1) as nat);
        let p = order[k - 1] as int;
        match states[p] {
            Some(s) => prev.push((name_string(defs[p]), s)),
            None => prev,
        }
    }
}

/// The plan's resources and state tables list the declared resources, and
/// the first and last states planning gives them, in the order `order`.
pub open spec fn tables_in_order(c: ComputeGraphConfig, plan: ExecutionPlan, order: Seq<usize>) -> bool {
    let decl = declared_resources(c);
    let nodes = c.compute_nodes@;
    let last = model_before(nodes, declared_names(c), nodes.len());
    &&& plan.resources@ == resources_in_order(decl, order)
    &&& plan.initial_resource_states@ == state_entries(decl, order, last.initial_states, order.len())
    &&& plan.final_resource_states@ == state_entries(decl, order, last.final_states, order.len())
}

/// Every sequence of the model has one entry per resource.
pub open spec fn model_sized(m: PlanModel, n: nat) -> bool {
    &&& m.current_states.len() == n
    &&& m.active_readers.len() == n
    &&& m.last_writers.len() == n
    &&& m.initial_states.len() == n
    &&& m.final_states.len() == n
}

/// Every node index recorded in the model is below `bound`.
pub open spec fn model_indices_below(m: PlanModel, bound: nat) -> bool {
    &&& forall|r: int, q: int| 0 <= r < m.active_readers.len() && 0 <= q < m.active_readers[r].len()
        ==> m.active_readers[r][q] < bound
    &&& forall|r: int| 0 <= r < m.last_writers.len() && (#[trigger] m.last_writers[r]) is Some
        ==> m.last_writers[r]->0 < bound
}

/// Distinct names make the position of a declared name the only one holding it.
pub proof fn lemma_position_of_distinct(names: Seq<Seq<char>>, p: int)
    requires
        distinct_names(names),
        0 <= p < names.len(),
    ensures
        position_of(names, names[p]) == Some(p),
{
    let q = choose|j: int| 0 <= j < names.len() && names[j] == names[p];
    assert(names[q] == names[p]);
}

struct PlanningState {
    current_states: Vec<Option<PlannedResourceState>>,
    active_readers: Vec<Vec<usize>>,
    last_writers: Vec<Option<usize>>,
    initial_states: Vec<Option<PlannedResourceState>>,
    final_states: Vec<Option<PlannedResourceState>>,
}

impl PlanningState {
    spec fn model(&self) -> PlanModel {
        PlanModel {
            current_states: self.current_states@,
            active_readers: self.active_readers@.map_values(|v: Vec<usize>| v@),
            last_writers: self.last_writers@,
            initial_states: self.initial_states@,
            final_states: self.final_states@,
        }
    }

    fn new(n: usize) -> (s: Self)
        ensures
            s.model() == empty_plan_model(n as nat),
    {
        let mut s = PlanningState {
            current_states: Vec::new(),
            active_readers: Vec::new(),
            last_writers: Vec::new(),
            initial_states: Vec::new(),
            final_states: Vec::new(),
        };
        let mut i: usize = 0;
        while i < n
            invariant
                i <= n,
                s.current_states@.len() == i,
                s.active_readers@.len() == i,
                s.last_writers@.len() == i,
                s.initial_states@.len() == i,
                s.final_states@.len() == i,
                forall|k: int| 0 <= k < i ==> s.current_states@[k] is None,
                forall|k: int| 0 <= k < i ==> s.active_readers@[k]@ == Seq::<usize>::empty(),
                forall|k: int| 0 <= k < i ==> s.last_writers@[k] is None,
                forall|k: int| 0 <= k < i ==> s.initial_states@[k] is None,
                forall|k: int| 0 <= k < i ==> s.final_states@[k] is None,
            decreases n - i,
        {
            s.current_states.push(None);
            s.active_readers.push(Vec::new());
            s.last_writers.push(None);
            s.initial_states.push(None);
            s.final_states.push(None);
            i += 1;
        }
        let ghost e = empty_plan_model(n as nat);
        assert(s.model().active_readers =~= e.active_readers);
        assert(s.model().current_states =~= e.current_states);
        assert(s.model().last_writers =~= e.last_writers);
        assert(s.model().initial_states =~= e.initial_states);
        assert(s.model().final_states =~= e.final_states);
        s
    }

    /// Applies binding `b` of node `node` to resource `r`, marking the nodes it
    /// has to wait for in `deps` and recording the barrier it needs.
    fn apply(
        &mut self,
        deps: &mut Vec<bool>,
        barriers: &mut Vec<PlannedBarrier>,
        r: usize,
        b: &ResourceBinding,
        node: usize,
        Ghost(bound): Ghost<nat>,
    )
        requires
            model_sized(old(self).model(), old(self).current_states@.len()),
            r < old(self).current_states@.len(),
            model_indices_below(old(self).model(), bound),
            node < bound,
            old(deps)@.len() == bound,
        ensures
            final(self).model() == apply_binding(old(self).model(), r as int, *b, node),
            model_sized(final(self).model(), old(self).current_states@.len()),
            model_indices_below(final(self).model(), bound),
            final(deps)@.len() == bound,
            forall|x: usize| x < bound ==> final(deps)@[x as int] == (old(deps)@[x as int]
                || hazard_dependencies(old(self).model(), r as int, writes(b.access)).contains(x)),
            forall|x: usize| hazard_dependencies(old(self).model(), r as int, writes(b.access)).contains(x) ==> x < bound,
            final(barriers)@ == old(barriers)@ + barrier_before(old(self).current_states@[r as int], *b),
    {
        let ghost m0 = self.model();
        let ghost deps0 = deps@;
        let req = b.access.required_state();
        let w = b.access.is_write();
        let ghost hz = hazard_dependencies(m0, r as int, w);
        let ghost readers0 = m0.active_readers[r as int];
        assert(forall|t: int| 0 <= t < readers0.len() ==> readers0[t] < bound);
        match self.last_writers[r] {
            Some(lw) => {
                assert(m0.last_writers[r as int] is Some);
                deps.set(lw, true);
            },
            None => {},
        }
        let ghost after_writer = deps@;
        assert(forall|x: usize| x < bound ==> after_writer[x as int] == (deps0[x as int]
            || m0.last_writers[r as int] == Some(x)));
        if w {
            let rs = &self.active_readers[r];
            assert(rs@ == readers0);
            let nr = rs.len();
            let mut q: usize = 0;
            while q < nr
                invariant
                    q <= nr == rs@.len(),
                    rs@ == readers0,
                    forall|t: int| 0 <= t < readers0.len() ==> readers0[t] < bound,
                    deps@.len() == bound,
                    after_writer.len() == bound,
                    forall|x: usize| x < bound ==> deps@[x as int] == (after_writer[x as int]
                        || exists|t: int| 0 <= t < q && readers0[t] == x),
                decreases nr - q,
            {
                let x = rs[q];
                let ghost before = deps@;
                assert forall|y: usize| y < bound implies #[trigger] before[y as int] == (after_writer[y as int]
                    || exists|t: int| 0 <= t < q && readers0[t] == y) by {
                    assert(deps@[y as int] == before[y as int]);
                }
                deps.set(x, true);
                q += 1;
                assert forall|y: usize| y < bound implies deps@[y as int] == (after_writer[y as int]
                    || exists|t: int| 0 <= t < q && readers0[t] == y) by {
                    if y == x {
                        assert(readers0[q - 1] == y);
                        assert(exists|t: int| 0 <= t < q && readers0[t] == y);
                    } else {
                        assert(deps@[y as int] == before[y as int]);
                        if exists|t: int| 0 <= t < q && readers0[t] == y {
                            let t = choose|t: int| 0 <= t < q && readers0[t] == y;
                            assert(t < q - 1);
                            assert(exists|t: int| 0 <= t < q - 1 && readers0[t] == y);
                        }
                        if exists|t: int| 0 <= t < q - 1 && readers0[t] == y {
                            let t = choose|t: int| 0 <= t < q - 1 && readers0[t] == y;
                            assert(exists|t: int| 0 <= t < q && readers0[t] == y);
                        }
                    }
                }
            }
        }
        assert forall|x: usize| x < bound implies deps@[x as int] == (deps0[x as int] || hz.contains(x)) by {
            assert(after_writer[x as int] == (deps0[x as int] || m0.last_writers[r as int] == Some(x)));
            if !w {
                assert(deps@ == after_writer);
            }
            if w {
                assert(readers0.to_set().contains(x) == readers0.contains(x));
            }
        }
        assert forall|x: usize| hz.contains(x) implies x < bound by {
            if w && readers0.to_set().contains(x) {
                assert(readers0.contains(x));
                let t = choose|t: int| 0 <= t < readers0.len() && readers0[t] == x;
            }
        }
        match self.current_states[r] {
            Some(cur) => {
                if cur != req {
                    barriers.push(PlannedBarrier::Transition { resource: b.resource.clone(), before: cur, after: req });
                } else if cur == PlannedResourceState::UnorderedAccess {
                    barriers.push(PlannedBarrier::Uav { resource: b.resource.clone() });
                }
            },
            None => {},
        }
        match self.initial_states[r] {
            None => {
                self.initial_states.set(r, Some(req));
            },
            Some(_) => {},
        }
        self.final_states.set(r, Some(req));
        self.current_states.set(r, Some(req));
        if w {
            self.active_readers.set(r, Vec::new());
            self.last_writers.set(r, Some(node));
        } else {
            let mut rs = self.active_readers[r].clone();
            assert(rs@ =~= m0.active_readers[r as int]);
            rs.push(node);
            self.active_readers.set(r, rs);
        }
        let ghost m1 = apply_binding(m0, r as int, *b, node);
        assert(self.model().active_readers =~= m1.active_readers);
        assert(self.model().current_states =~= m1.current_states);
        assert(self.model().last_writers =~= m1.last_writers);
        assert(self.model().initial_states =~= m1.initial_states);
        assert(self.model().final_states =~= m1.final_states);
    }
}

fn find_resource(defs: &Vec<ResourceDefinition>, name: &String) -> (r: Option<usize>)
    ensures
        match r {
            Some(p) => p < defs@.len() && resource_name(defs@[p as int]) == name@,
            None => forall|j: int| 0 <= j < defs@.len() ==> resource_name(#[trigger] defs@[j]) != name@,
        },
{
    let mut j: usize = 0;
    while j < defs.len()
        invariant
            j <= defs@.len(),
            forall|k: int| 0 <= k < j ==> resource_name(#[trigger] defs@[k]) != name@,
        decreases defs@.len() - j,
    {
        if name_of(&defs[j]).eq(name) {
            return Some(j);
        }
        j += 1;
    }
    None
}

fn copy_bindings(bindings: &Vec<ResourceBinding>) -> (r: Vec<ResourceBinding>)
    ensures
        r@ == bindings@,
{
    let mut out: Vec<ResourceBinding> = Vec::new();
    let mut k: usize = 0;
    while k < bindings.len()
        invariant
            k <= bindings@.len(),
            out@ == bindings@.subrange(0, k as int),
        decreases bindings@.len() - k,
    {
        out.push(bindings[k].clone());
        k += 1;
        assert(out@ =~= bindings@.subrange(0, k as int));
    }
    assert(out@ =~= bindings@);
    out
}



/// The positions of the definitions, ordered by the definitions' names.
fn positions_by_name(defs: &Vec<ResourceDefinition>) -> (order: Vec<usize>)
    requires
        distinct_names(definition_names(defs@)),
    ensures
        sorted_by_name(definition_names(defs@), order@),
{
    let ghost names = definition_names(defs@);
    let n = defs.len();
    let mut order: Vec<usize> = Vec::new();
    let mut i: usize = 0;
    while i < n
        invariant
            i <= n == defs@.len() == names.len(),
            names == definition_names(defs@),
            distinct_names(names),
            order@.len() == i,
            forall|k: int| 0 <= k < i ==> order@[k] < i,
            forall|q: usize| q < i ==> #[trigger] order@.contains(q),
            forall|k1: int, k2: int| 0 <= k1 < k2 < i
                ==> name_less(names[order@[k1] as int], names[order@[k2] as int]),
        decreases n - i,
    {
        let target = name_of(&defs[i]);
        assert(target@ == names[i as int]);
        let mut p: usize = 0;
        let mut done = false;
        while p < i && !done
            invariant
                p <= i == order@.len(),
                i < n == defs@.len() == names.len(),
                names == definition_names(defs@),
                target@ == names[i as int],
                forall|k: int| 0 <= k < i ==> order@[k] < i,
                forall|k: int| 0 <= k < p ==> name_less(names[order@[k] as int], names[i as int]),
                done ==> p < i && !name_less(names[order@[p as int] as int], names[i as int]),
            decreases i - p + (if done { 0int } else { 1int }),
        {
            let q = order[p];
            assert(names[q as int] == resource_name(defs@[q as int]));
            if precedes(name_of(&defs[q]).as_str(), target.as_str()) {
                p += 1;
            } else {
                done = true;
            }
        }
        let ghost old_order = order@;
        order.insert(p, i);
        proof {
            let new_order = order@;
            assert(new_order == old_order.insert(p as int, i));
            if p < i {
                let q = old_order[p as int];
                assert(names[q as int] != names[i as int]);
                lemma_name_less_total(names[q as int], names[i as int]);
            }
            assert forall|k1: int, k2: int| 0 <= k1 < k2 < i + 1
                implies name_less(names[new_order[k1] as int], names[new_order[k2] as int]) by {
                let a = new_order[k1];
                let b = new_order[k2];
                if k2 < p {
                    assert(a == old_order[k1] && b == old_order[k2]);
                } else if k2 == p {
                    assert(a == old_order[k1] && b == i);
                } else if k1 > p {
                    assert(a == old_order[k1 - 1] && b == old_order[k2 - 1]);
                } else if k1 == p {
                    assert(a == i && b == old_order[k2 - 1]);
                    if k2 - 1 > p {
                        lemma_name_less_transitive(names[i as int], names[old_order[p as int] as int],
                            names[old_order[k2 - 1] as int]);
                    }
                } else {
                    assert(a == old_order[k1] && b == old_order[k2 - 1]);
                    if k2 - 1 > p {
                        lemma_name_less_transitive(names[i as int], names[old_order[p as int] as int],
                            names[old_order[k2 - 1] as int]);
                    }
                    lemma_name_less_transitive(names[a as int], names[i as int], names[b as int]);
                }
            }
            assert forall|q: usize| q < i + 1 implies #[trigger] new_order.contains(q) by {
                if q == i {
                    assert(new_order[p as int] == i);
                } else {
                    assert(old_order.contains(q));
                    let t = choose|t: int| 0 <= t < old_order.len() && old_order[t] == q;
                    if t < p {
                        assert(new_order[t] == q);
                    } else {
                        assert(new_order[t + 1] == q);
                    }
                }
            }
            assert forall|k: int| 0 <= k < i + 1 implies new_order[k] < i + 1 by {
                if k < p {
                    assert(new_order[k] == old_order[k]);
                } else if k > p {
                    assert(new_order[k] == old_order[k - 1]);
                }
            }
        }
        i += 1;
    }
    order
}


/// The resources and their state tables, ordered by name.
fn tables_in_name_order(
    defs: &Vec<ResourceDefinition>,
    initial: &Vec<Option<PlannedResourceState>>,
    finals: &Vec<Option<PlannedResourceState>>,
) -> (r: (Vec<ResourceDefinition>, Vec<(String, PlannedResourceState)>, Vec<(String, PlannedResourceState)>))
    requires
        distinct_names(definition_names(defs@)),
        initial@.len() == defs@.len(),
        finals@.len() == defs@.len(),
    ensures
        exists|order: Seq<usize>| #[trigger] sorted_by_name(definition_names(defs@), order)
            && r.0@ == resources_in_order(defs@, order)
            && r.1@ == state_entries(defs@, order, initial@, order.len())
            && r.2@ == state_entries(defs@, order, finals@, order.len()),
{
    let order = positions_by_name(defs);
    let ghost names = definition_names(defs@);
    let n = order.len();
    let mut sorted: Vec<ResourceDefinition> = Vec::new();
    let mut first: Vec<(String, PlannedResourceState)> = Vec::new();
    let mut last: Vec<(String, PlannedResourceState)> = Vec::new();
    let mut k: usize = 0;
    while k < n
        invariant
            k <= n == order@.len() == defs@.len(),
            initial@.len() == defs@.len(),
            finals@.len() == defs@.len(),
            sorted_by_name(names, order@),
            names == definition_names(defs@),
            sorted@ == resources_in_order(defs@, order@.subrange(0, k as int)),
            first@ == state_entries(defs@, order@, initial@, k as nat),
            last@ == state_entries(defs@, order@, finals@, k as nat),
        decreases n - k,
    {
        let p = order[k];
        assert(p < defs@.len());
        sorted.push(defs[p].clone());
        assert(sorted@ =~= resources_in_order(defs@, order@.subrange(0, k + 1)));
        let ghost name_str = name_string(defs@[p as int]);
        match initial[p] {
            Some(st) => {
                let name = match &defs[p] {
                    ResourceDefinition::Image(img) => img.name.clone(),
                    ResourceDefinition::Buffer(buf) => buf.name.clone(),
                };
                assert(name == name_str);
                first.push((name, st));
            },
            None => {},
        }
        match finals[p] {
            Some(st) => {
                let name = match &defs[p] {
                    ResourceDefinition::Image(img) => img.name.clone(),
                    ResourceDefinition::Buffer(buf) => buf.name.clone(),
                };
                assert(name == name_str);
                last.push((name, st));
            },
            None => {},
        }
        k += 1;
    }
    assert(order@.subrange(0, n as int) =~= order@);
    (sorted, first, last)
}

fn false_flags(n: usize) -> (v: Vec<bool>)
    ensures
        v@.len() == n,
        forall|j: int| 0 <= j < n ==> !v@[j],
{
    let mut v: Vec<bool> = Vec::new();
    let mut i: usize = 0;
    while i < n
        invariant
            i <= n,
            v@.len() == i,
            forall|j: int| 0 <= j < i ==> !v@[j],
        decreases n - i,
    {
        v.push(false);
        i += 1;
    }
    v
}

impl ComputeGraphConfig {
    /// Plans the execution of the graph: each node waits for the last writer
    /// of every resource it binds and, when it writes, for the readers since
    /// that write; barriers mark state changes and back-to-back unordered
    /// accesses; the first and last state of every resource are recorded.
    /// Rejects repeated resource names and bindings of undeclared resources.
    pub fn build_execution_plan(&self) -> (r: Result<ExecutionPlan, GraphConfigError>)
        ensures
            match r {
                Ok(plan) => plan_fault(*self) is None && is_plan_of(*self, plan),
                Err(e) => plan_fault(*self) == Some(e@),
            },
    {
        let resources = match self.collect_resources() {
            Ok(d) => d,
            Err(e) => {
                return Err(e);
            },
        };
        let ghost names = declared_names(*self);
        let ghost nodes = self.compute_nodes@;
        proof {
            lemma_no_repeat_distinct(names);
            assert(definition_names(resources@) =~= names);
        }
        let nres = resources.len();
        let n = self.compute_nodes.len();
        let mut state = PlanningState::new(nres);
        let mut planned: Vec<PlannedComputeNode> = Vec::new();
        let mut i: usize = 0;
        while i < n
            invariant
                i <= n == nodes.len(),
                nodes == self.compute_nodes@,
                names == declared_names(*self),
                distinct_names(names),
                resources@ == declared_resources(*self),
                nres == resources@.len() == names.len(),
                resources_fault(*self) is None,
                state.model() == model_before(nodes, names, i as nat),
                model_sized(state.model(), nres as nat),
                model_indices_below(state.model(), n as nat),
                planned@.len() == i,
                forall|p: int| 0 <= p < i ==> #[trigger] planned_node_matches(planned@[p], nodes, names, p),
                unknown_fault_from(names, nodes, 0) == unknown_fault_from(names, nodes, i as int),
            decreases n - i,
        {
            let node = &self.compute_nodes[i];
            let ghost bs = node.bindings@;
            let ghost m_start = state.model();
            let mut deps = false_flags(n);
            let mut barriers: Vec<PlannedBarrier> = Vec::new();
            let nb = node.bindings.len();
            let mut k: usize = 0;
            while k < nb
                invariant
                    k <= nb == bs.len(),
                    i < n == nodes.len(),
                    *node == nodes[i as int],
                    nodes == self.compute_nodes@,
                    resources_fault(*self) is None,
                    bs == node.bindings@,
                    distinct_names(names),
                    resources@ == declared_resources(*self),
                    names == declared_names(*self),
                    nres == resources@.len() == names.len(),
                    m_start == model_before(nodes, names, i as nat),
                    state.model() == bindings_outcome(m_start, names, bs, i, k as nat).model,
                    model_sized(state.model(), nres as nat),
                    model_indices_below(state.model(), n as nat),
                    deps@.len() == n,
                    forall|x: usize| x < n ==> deps@[x as int]
                        == bindings_outcome(m_start, names, bs, i, k as nat).dependencies.contains(x),
                    forall|x: usize| bindings_outcome(m_start, names, bs, i, k as nat).dependencies.contains(x) ==> x < n,
                    barriers@ == bindings_outcome(m_start, names, bs, i, k as nat).barriers,
                    unknown_binding_from(names, nodes[i as int], 0) == unknown_binding_from(names, nodes[i as int], k as int),
                    unknown_fault_from(names, nodes, 0) == unknown_fault_from(names, nodes, i as int),
                decreases nb - k,
            {
                let b = &node.bindings[k];
                let ghost acc = bindings_outcome(m_start, names, bs, i, k as nat);
                let r = match find_resource(&resources, &b.resource) {
                    Some(r) => r,
                    None => {
                        proof {
                            assert(definition_names(resources@) =~= names);
                            assert forall|j: int| 0 <= j < names.len() implies names[j] != b.resource@ by {
                                assert(names[j] == resource_name(resources@[j]));
                            }
                            assert(bs[k as int] == *b);
                            assert(position_of(names, b.resource@) is None);
                            assert(unknown_binding_from(names, nodes[i as int], k as int) == Some(
                                GraphConfigFault::UnknownResource { node: node.name@, resource: b.resource@ }));
                            assert(unknown_fault_from(names, nodes, i as int) == Some(
                                GraphConfigFault::UnknownResource { node: node.name@, resource: b.resource@ }));
                            assert(plan_fault(*self) == Some(
                                GraphConfigFault::UnknownResource { node: node.name@, resource: b.resource@ }));
                        }
                        let e = GraphConfigError::UnknownResource {
                            node: node.name.clone(),
                            resource: b.resource.clone(),
                        };
                        assert(e@ == GraphConfigFault::UnknownResource { node: node.name@, resource: b.resource@ });
                        return Err(e);
                    },
                };
                proof {
                    assert(names[r as int] == resource_name(resources@[r as int]));
                    lemma_position_of_distinct(names, r as int);
                }
                state.apply(&mut deps, &mut barriers, r, b, i, Ghost(n as nat));
                k += 1;
                proof {
                    assert(bs[k - 1] == *b);
                    let next = bindings_outcome(m_start, names, bs, i, k as nat);
                    assert(next == binding_outcome(acc, names, *b, i));
                }
            }
            let ghost outcome = bindings_outcome(m_start, names, bs, i, nb as nat);
            let mut dependencies: Vec<String> = Vec::new();
            let mut j: usize = 0;
            while j < n
                invariant
                    j <= n == nodes.len(),
                    nodes == self.compute_nodes@,
                    deps@.len() == n,
                    forall|x: usize| x < n ==> deps@[x as int] == outcome.dependencies.contains(x),
                    dependencies@ == dependency_names(nodes, outcome.dependencies, j as nat),
                decreases n - j,
            {
                if deps[j] {
                    dependencies.push(self.compute_nodes[j].name.clone());
                }
                j += 1;
            }
            let pn = PlannedComputeNode {
                name: node.name.clone(),
                shader: node.shader.clone(),
                dispatch: node.dispatch,
                bindings: copy_bindings(&node.bindings),
                dependencies,
                barriers_before: barriers,
            };
            let ghost prev = planned@;
            planned.push(pn);
            i += 1;
            proof {
                assert(planned_node_matches(planned@[i - 1], nodes, names, i - 1));
                assert forall|p: int| 0 <= p < i implies #[trigger] planned_node_matches(planned@[p], nodes, names, p) by {
                    if p < i - 1 {
                        assert(planned@[p] == prev[p]);
                    }
                }
            }
        }
        proof {
            assert(definition_names(resources@) =~= names);
        }
        let (sorted, first, last) = tables_in_name_order(&resources, &state.initial_states, &state.final_states);
        Ok(ExecutionPlan {
            resources: sorted,
            nodes: planned,
            initial_resource_states: first,
            final_resource_states: last,
        })
    }
}


// ---------------------------------------------------------------------------
// Plans built from validated configurations, and what a plan answers
// ---------------------------------------------------------------------------

/// What building a plan from a configuration rejects, if anything: first what
/// validation rejects, then what planning rejects.
pub open spec fn config_plan_fault(c: ComputeGraphConfig) -> Option<GraphConfigFault> {
    match config_fault(c) {
        Some(f) => Some(f),
        None => plan_fault(c),
    }
}

/// Whether binding `k` of planned node `i` exists.
pub open spec fn plan_has_binding(plan: ExecutionPlan, i: int, k: int) -> bool {
    0 <= i < plan.nodes@.len() && 0 <= k < plan.nodes@[i].bindings@.len()
}

/// The slot of binding `k` of planned node `i`.
pub open spec fn plan_slot(plan: ExecutionPlan, i: int, k: int) -> u32 {
    plan.nodes@[i].bindings@[k].slot
}

/// Position `j` is the first resource of the plan called `name`.
pub open spec fn first_resource_named(plan: ExecutionPlan, name: Seq<char>, j: int) -> bool {
    &&& 0 <= j < plan.resources@.len()
    &&& resource_name(plan.resources@[j]) == name
    &&& forall|k: int| 0 <= k < j ==> resource_name(#[trigger] plan.resources@[k]) != name
}

/// No resource of the plan is called `name`.
pub open spec fn no_resource_named(plan: ExecutionPlan, name: Seq<char>) -> bool {
    forall|j: int| 0 <= j < plan.resources@.len() ==> resource_name(#[trigger] plan.resources@[j]) != name
}

/// The state recorded for `name`: that of its first entry, if there is one.
pub open spec fn entry_state(entries: Seq<(String, PlannedResourceState)>, name: Seq<char>) -> Option<PlannedResourceState>
    decreases entries.len(),
{
    if entries.len() == 0 {
        None
    } else if entries[0].0@ == name {
        Some(entries[0].1)
    } else {
        entry_state(entries.drop_first(), name)
    }
}

fn entry_lookup(entries: &Vec<(String, PlannedResourceState)>, name: &str) -> (r: Option<PlannedResourceState>)
    ensures
        r == entry_state(entries@, name@),
{
    let target = String::from_str(name);
    let n = entries.len();
    let mut j: usize = 0;
    assert(entries@.skip(0) =~= entries@);
    while j < n
        invariant
            j <= n == entries@.len(),
            target@ == name@,
            entry_state(entries@, name@) == entry_state(entries@.skip(j as int), name@),
        decreases n - j,
    {
        assert(entries@.skip(j as int)[0] == entries@[j as int]);
        assert(entries@.skip(j as int).drop_first() =~= entries@.skip(j + 1));
        if entries[j].0.eq(&target) {
            return Some(entries[j].1);
        }
        j += 1;
    }
    None
}

impl ExecutionPlan {
    /// Validates the configuration, then plans it.
    pub fn from_config(config: &ComputeGraphConfig) -> (r: Result<ExecutionPlan, GraphConfigError>)
        ensures
            match r {
                Ok(plan) => config_plan_fault(*config) is None && is_plan_of(*config, plan),
                Err(e) => config_plan_fault(*config) == Some(e@),
            },
    {
        match config.validate() {
            Ok(()) => {},
            Err(e) => {
                return Err(e);
            },
        }
        config.build_execution_plan()
    }

    /// The number of descriptors the plan needs: one more than the highest
    /// slot bound by any node, or zero when nothing is bound.
    pub fn descriptor_count(&self) -> (count: u32)
        requires
            forall|i: int, k: int| plan_has_binding(*self, i, k) ==> plan_slot(*self, i, k) < u32::MAX,
        ensures
            forall|i: int, k: int| plan_has_binding(*self, i, k) ==> plan_slot(*self, i, k) < count,
            count > 0 ==> exists|i: int, k: int| plan_has_binding(*self, i, k) && plan_slot(*self, i, k) + 1 == count,
    {
        let mut count: u32 = 0;
        let n = self.nodes.len();
        let mut i: usize = 0;
        while i < n
            invariant
                i <= n == self.nodes@.len(),
                forall|i: int, k: int| plan_has_binding(*self, i, k) ==> plan_slot(*self, i, k) < u32::MAX,
                forall|p: int, k: int| 0 <= p < i && plan_has_binding(*self, p, k) ==> plan_slot(*self, p, k) < count,
                count > 0 ==> exists|p: int, k: int| plan_has_binding(*self, p, k) && plan_slot(*self, p, k) + 1 == count,
            decreases n - i,
        {
            let bindings = &self.nodes[i].bindings;
            let nb = bindings.len();
            let mut k: usize = 0;
            while k < nb
                invariant
                    k <= nb == bindings@.len(),
                    i < n == self.nodes@.len(),
                    *bindings == self.nodes@[i as int].bindings,
                    forall|i: int, k: int| plan_has_binding(*self, i, k) ==> plan_slot(*self, i, k) < u32::MAX,
                    forall|p: int, q: int| 0 <= p < i && plan_has_binding(*self, p, q) ==> plan_slot(*self, p, q) < count,
                    forall|q: int| 0 <= q < k ==> plan_slot(*self, i as int, q) < count,
                    count > 0 ==> exists|p: int, q: int| plan_has_binding(*self, p, q) && plan_slot(*self, p, q) + 1 == count,
                decreases nb - k,
            {
                let slot = bindings[k].slot;
                assert(plan_has_binding(*self, i as int, k as int));
                if slot >= count {
                    count = slot + 1;
                }
                k += 1;
            }
            i += 1;
        }
        count
    }

    /// The declared resource called `name`.
    pub fn resource(&self, name: &str) -> (r: Option<&ResourceDefinition>)
        ensures
            match r {
                Some(d) => exists|j: int| first_resource_named(*self, name@, j) && self.resources@[j] == *d,
                None => no_resource_named(*self, name@),
            },
    {
        match self.position_of_resource(name) {
            Some(j) => Some(&self.resources[j]),
            None => None,
        }
    }

    /// The state of the resource called `name` at its first use, if it is declared and used.
    pub fn initial_resource_state(&self, name: &str) -> (r: Option<PlannedResourceState>)
        ensures
            r == entry_state(self.initial_resource_states@, name@),
    {
        entry_lookup(&self.initial_resource_states, name)
    }

    /// The state of the resource called `name` at its last use, if it is declared and used.
    pub fn final_resource_state(&self, name: &str) -> (r: Option<PlannedResourceState>)
        ensures
            r == entry_state(self.final_resource_states@, name@),
    {
        entry_lookup(&self.final_resource_states, name)
    }

    fn position_of_resource(&self, name: &str) -> (r: Option<usize>)
        ensures
            match r {
                Some(j) => first_resource_named(*self, name@, j as int),
                None => no_resource_named(*self, name@),
            },
    {
        let target = String::from_str(name);
        let mut j: usize = 0;
        while j < self.resources.len()
            invariant
                j <= self.resources@.len(),
                target@ == name@,
                forall|k: int| 0 <= k < j ==> resource_name(#[trigger] self.resources@[k]) != name@,
            decreases self.resources@.len() - j,
        {
            if name_of(&self.resources[j]).eq(&target) {
                return Some(j);
            }
            j += 1;
        }
        None
    }
}

// ---------------------------------------------------------------------------
// Messages
// ---------------------------------------------------------------------------

/// The message that describes a rejection.
pub open spec fn fault_message(f: GraphConfigFault) -> Seq<char> {
    match f {
        GraphConfigFault::DuplicateResource(r) =>
            "resource '"@ + r + "' is defined more than once"@,
        GraphConfigFault::DuplicateNode(n) =>
            "compute node '"@ + n + "' is defined more than once"@,
        GraphConfigFault::DuplicateNodeResourceBinding { node, resource } =>
            "compute node '"@ + node + "' binds resource '"@ + resource + "' more than once"@,
        GraphConfigFault::DuplicateNodeBindingSlot { node, slot } =>
            "compute node '"@ + node + "' binds descriptor slot "@ + decimal(slot as nat) + " more than once"@,
        GraphConfigFault::UnknownResource { node, resource } =>
            "compute node '"@ + node + "' references unknown resource '"@ + resource + "'"@,
    }
}

impl GraphConfigError {
    /// Describes the rejection in words.
    pub fn message(&self) -> (m: String)
        ensures
            m@ == fault_message(self@),
    {
        let mut m = String::new();
        match self {
            GraphConfigError::DuplicateResource(r) => {
                m.append("resource '");
                m.append(r.as_str());
                m.append("' is defined more than once");
            },
            GraphConfigError::DuplicateNode(n) => {
                m.append("compute node '");
                m.append(n.as_str());
                m.append("' is defined more than once");
            },
            GraphConfigError::DuplicateNodeResourceBinding { node, resource } => {
                m.append("compute node '");
                m.append(node.as_str());
                m.append("' binds resource '");
                m.append(resource.as_str());
                m.append("' more than once");
            },
            GraphConfigError::DuplicateNodeBindingSlot { node, slot } => {
                m.append("compute node '");
                m.append(node.as_str());
                m.append("' binds descriptor slot ");
                push_decimal(&mut m, *slot);
                m.append(" more than once");
            },
            GraphConfigError::UnknownResource { node, resource } => {
                m.append("compute node '");
                m.append(node.as_str());
                m.append("' references unknown resource '");
                m.append(resource.as_str());
                m.append("'");
            },
        }
        assert(m@ =~= fault_message(self@));
        m
    }
}

} // verus!
