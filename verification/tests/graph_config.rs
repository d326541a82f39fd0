use ai_gfx_dev::graph_config::{
    BufferResourceConfig, ComputeGraphConfig, ComputeNodeConfig, ExecutionPlan, GraphConfigError,
    ImageFormat, ImageResourceConfig, PlannedBarrier, PlannedResourceState, ResourceAccess,
    ResourceBinding, ResourceDefinition,
};

fn image(name: &str) -> ImageResourceConfig {
    ImageResourceConfig { name: name.to_string(), width: 8, height: 8, format: ImageFormat::Rgba8Unorm }
}

fn buffer(name: &str, size_in_bytes: u64) -> BufferResourceConfig {
    BufferResourceConfig { name: name.to_string(), size_in_bytes }
}

fn binding(resource: &str, slot: u32, access: ResourceAccess) -> ResourceBinding {
    ResourceBinding { resource: resource.to_string(), slot, access }
}

fn node(name: &str, shader: &str, bindings: Vec<ResourceBinding>) -> ComputeNodeConfig {
    ComputeNodeConfig { name: name.to_string(), shader: shader.to_string(), dispatch: [1, 1, 1], bindings }
}

fn config(
    images: Vec<ImageResourceConfig>,
    buffers: Vec<BufferResourceConfig>,
    compute_nodes: Vec<ComputeNodeConfig>,
) -> ComputeGraphConfig {
    ComputeGraphConfig { images, buffers, compute_nodes }
}

fn names(list: &[&str]) -> Vec<String> {
    list.iter().map(|name| name.to_string()).collect()
}

#[test]
fn infers_dependencies_and_barriers_from_resource_usage() {
    // [[images]] checkerboard 8x8 rgba8_unorm; [[buffers]] scratch 64 bytes;
    // writer writes checkerboard at slot 0, then reader reads it at slot 0.
    let graph = config(
        vec![image("checkerboard")],
        vec![buffer("scratch", 64)],
        vec![
            node("writer", "checkerboard_compute", vec![binding("checkerboard", 0, ResourceAccess::Write)]),
            node("reader", "simple_compute", vec![binding("checkerboard", 0, ResourceAccess::Read)]),
        ],
    );
    let plan = ExecutionPlan::from_config(&graph).expect("graph plan should parse");

    assert_eq!(plan.descriptor_count(), 1);
    assert!(matches!(plan.resource("checkerboard"), Some(ResourceDefinition::Image(_))));
    assert!(matches!(plan.resource("scratch"), Some(ResourceDefinition::Buffer(_))));
    assert_eq!(plan.nodes[0].dependencies, Vec::<String>::new());
    assert_eq!(plan.nodes[0].bindings[0].access, ResourceAccess::Write);
    assert_eq!(plan.nodes[1].dependencies, vec!["writer".to_string()]);
    assert_eq!(
        plan.nodes[1].barriers_before,
        vec![PlannedBarrier::Transition {
            resource: "checkerboard".to_string(),
            before: PlannedResourceState::UnorderedAccess,
            after: PlannedResourceState::ShaderRead,
        }]
    );
}

#[test]
fn writer_after_readers_waits_for_all_of_them() {
    let graph = config(
        vec![image("a")],
        vec![],
        vec![
            node("w0", "s", vec![binding("a", 0, ResourceAccess::Write)]),
            node("r1", "s", vec![binding("a", 0, ResourceAccess::Read)]),
            node("r2", "s", vec![binding("a", 1, ResourceAccess::Read)]),
            node("w3", "s", vec![binding("a", 0, ResourceAccess::ReadWrite)]),
            node("r4", "s", vec![binding("a", 0, ResourceAccess::Read)]),
        ],
    );
    let plan = ExecutionPlan::from_config(&graph).unwrap();
    assert_eq!(plan.nodes[1].dependencies, names(&["w0"]));
    assert_eq!(plan.nodes[2].dependencies, names(&["w0"]));
    assert_eq!(plan.nodes[3].dependencies, names(&["w0", "r1", "r2"]));
    assert_eq!(plan.nodes[4].dependencies, names(&["w3"]));
    assert_eq!(plan.nodes[2].barriers_before, vec![]);
    assert_eq!(
        plan.nodes[3].barriers_before,
        vec![PlannedBarrier::Transition {
            resource: "a".to_string(),
            before: PlannedResourceState::ShaderRead,
            after: PlannedResourceState::UnorderedAccess,
        }]
    );
}

#[test]
fn back_to_back_writes_get_a_uav_barrier() {
    let graph = config(
        vec![],
        vec![buffer("buf", 16)],
        vec![
            node("first", "s", vec![binding("buf", 2, ResourceAccess::Write)]),
            node("second", "s", vec![binding("buf", 2, ResourceAccess::ReadWrite)]),
        ],
    );
    let plan = ExecutionPlan::from_config(&graph).unwrap();
    assert_eq!(plan.nodes[0].barriers_before, vec![]);
    assert_eq!(plan.nodes[1].barriers_before, vec![PlannedBarrier::Uav { resource: "buf".to_string() }]);
    assert_eq!(plan.nodes[1].dependencies, names(&["first"]));
    assert_eq!(plan.descriptor_count(), 3);
}

#[test]
fn records_first_and_last_states_per_resource() {
    let graph = config(
        vec![image("img")],
        vec![buffer("unused", 4), buffer("buf", 4)],
        vec![
            node("a", "s", vec![binding("img", 0, ResourceAccess::Read), binding("buf", 1, ResourceAccess::Write)]),
            node("b", "s", vec![binding("img", 0, ResourceAccess::Write)]),
        ],
    );
    let plan = ExecutionPlan::from_config(&graph).unwrap();
    assert_eq!(plan.resources.len(), 3);
    assert_eq!(plan.initial_resource_state("img"), Some(PlannedResourceState::ShaderRead));
    assert_eq!(plan.final_resource_state("img"), Some(PlannedResourceState::UnorderedAccess));
    assert_eq!(plan.initial_resource_state("buf"), Some(PlannedResourceState::UnorderedAccess));
    assert_eq!(plan.final_resource_state("buf"), Some(PlannedResourceState::UnorderedAccess));
    assert_eq!(plan.initial_resource_state("unused"), None);
    assert_eq!(plan.initial_resource_state("missing"), None);
    assert!(plan.resource("missing").is_none());
    assert_eq!(
        plan.initial_resource_states,
        vec![
            ("buf".to_string(), PlannedResourceState::UnorderedAccess),
            ("img".to_string(), PlannedResourceState::ShaderRead),
        ]
    );
    assert_eq!(
        plan.final_resource_states,
        vec![
            ("buf".to_string(), PlannedResourceState::UnorderedAccess),
            ("img".to_string(), PlannedResourceState::UnorderedAccess),
        ]
    );
    assert_eq!(plan.nodes[1].dependencies, names(&["a"]));
    assert_eq!(plan.nodes[1].shader, "s".to_string());
    assert_eq!(plan.nodes[1].dispatch, [1, 1, 1]);
}

#[test]
fn independent_nodes_do_not_wait() {
    let graph = config(
        vec![image("x"), image("y")],
        vec![],
        vec![
            node("n0", "s", vec![binding("x", 0, ResourceAccess::Write)]),
            node("n1", "s", vec![binding("y", 0, ResourceAccess::Write)]),
            node("n2", "s", vec![binding("x", 0, ResourceAccess::Read), binding("y", 1, ResourceAccess::Read)]),
        ],
    );
    let plan = ExecutionPlan::from_config(&graph).unwrap();
    assert_eq!(plan.nodes[1].dependencies, Vec::<String>::new());
    assert_eq!(plan.nodes[2].dependencies, names(&["n0", "n1"]));
    assert_eq!(plan.nodes[2].barriers_before.len(), 2);
}

#[test]
fn empty_graph_needs_no_descriptors() {
    let plan = ExecutionPlan::from_config(&config(vec![], vec![], vec![])).unwrap();
    assert_eq!(plan.descriptor_count(), 0);
    assert!(plan.nodes.is_empty());
}

#[test]
fn rejects_duplicate_resource() {
    let graph = config(vec![image("same")], vec![buffer("same", 1)], vec![]);
    let err = ExecutionPlan::from_config(&graph).unwrap_err();
    assert_eq!(err, GraphConfigError::DuplicateResource("same".to_string()));
    assert_eq!(err.message(), "resource 'same' is defined more than once");
    assert_eq!(graph.validate(), Err(GraphConfigError::DuplicateResource("same".to_string())));
    assert!(graph.collect_resources().is_err());
}

#[test]
fn rejects_duplicate_node() {
    let graph = config(vec![image("a")], vec![], vec![node("n", "s", vec![]), node("n", "t", vec![])]);
    let err = graph.validate().unwrap_err();
    assert_eq!(err, GraphConfigError::DuplicateNode("n".to_string()));
    assert_eq!(err.message(), "compute node 'n' is defined more than once");
    // Planning alone does not look at node names.
    assert!(graph.build_execution_plan().is_ok());
}

#[test]
fn rejects_resource_bound_twice_by_one_node() {
    let graph = config(
        vec![image("a")],
        vec![],
        vec![node("n", "s", vec![binding("a", 0, ResourceAccess::Read), binding("a", 1, ResourceAccess::Write)])],
    );
    let err = ExecutionPlan::from_config(&graph).unwrap_err();
    assert_eq!(
        err,
        GraphConfigError::DuplicateNodeResourceBinding { node: "n".to_string(), resource: "a".to_string() }
    );
    assert_eq!(err.message(), "compute node 'n' binds resource 'a' more than once");
    // Without validation, the node waits for itself.
    let plan = graph.build_execution_plan().unwrap();
    assert_eq!(plan.nodes[0].dependencies, names(&["n"]));
}

#[test]
fn rejects_slot_bound_twice_by_one_node() {
    let graph = config(
        vec![image("a"), image("b")],
        vec![],
        vec![node("n", "s", vec![binding("a", 17, ResourceAccess::Read), binding("b", 17, ResourceAccess::Read)])],
    );
    let err = ExecutionPlan::from_config(&graph).unwrap_err();
    assert_eq!(err, GraphConfigError::DuplicateNodeBindingSlot { node: "n".to_string(), slot: 17 });
    assert_eq!(err.message(), "compute node 'n' binds descriptor slot 17 more than once");
}

#[test]
fn rejects_unknown_resource() {
    let graph = config(
        vec![image("a")],
        vec![],
        vec![node("n", "s", vec![binding("a", 0, ResourceAccess::Read)]), node("m", "s", vec![binding("ghost", 1, ResourceAccess::Read)])],
    );
    assert_eq!(graph.validate(), Ok(()));
    let err = ExecutionPlan::from_config(&graph).unwrap_err();
    assert_eq!(err, GraphConfigError::UnknownResource { node: "m".to_string(), resource: "ghost".to_string() });
    assert_eq!(err.message(), "compute node 'm' references unknown resource 'ghost'");
}

#[test]
fn validation_reports_the_first_problem() {
    let graph = config(
        vec![image("a")],
        vec![],
        vec![
            node("n", "s", vec![binding("a", 0, ResourceAccess::Read), binding("a", 0, ResourceAccess::Read)]),
            node("n", "s", vec![]),
        ],
    );
    assert_eq!(
        graph.validate(),
        Err(GraphConfigError::DuplicateNodeResourceBinding { node: "n".to_string(), resource: "a".to_string() })
    );
}

#[test]
fn access_modes_map_to_states() {
    assert_eq!(ResourceAccess::Read.required_state(), PlannedResourceState::ShaderRead);
    assert_eq!(ResourceAccess::Write.required_state(), PlannedResourceState::UnorderedAccess);
    assert_eq!(ResourceAccess::ReadWrite.required_state(), PlannedResourceState::UnorderedAccess);
    assert!(!ResourceAccess::Read.is_write());
    assert!(ResourceAccess::Write.is_write());
    assert!(ResourceAccess::ReadWrite.is_write());
}

#[test]
fn collects_images_before_buffers() {
    let graph = config(vec![image("i1"), image("i2")], vec![buffer("b1", 8)], vec![]);
    let resources = graph.collect_resources().unwrap();
    assert_eq!(resources.len(), 3);
    assert_eq!(resources[0], ResourceDefinition::Image(image("i1")));
    assert_eq!(resources[2], ResourceDefinition::Buffer(buffer("b1", 8)));
}

#[test]
fn plan_lists_resources_by_name() {
    let graph = config(
        vec![image("zeta"), image("Alpha")],
        vec![buffer("beta", 4), buffer("alpha", 4), buffer("alphabet", 4)],
        vec![node("n", "s", vec![binding("zeta", 0, ResourceAccess::Read), binding("alpha", 1, ResourceAccess::Write)])],
    );
    let plan = ExecutionPlan::from_config(&graph).unwrap();
    let listed: Vec<String> = plan
        .resources
        .iter()
        .map(|d| match d {
            ResourceDefinition::Image(i) => i.name.clone(),
            ResourceDefinition::Buffer(b) => b.name.clone(),
        })
        .collect();
    assert_eq!(listed, names(&["Alpha", "alpha", "alphabet", "beta", "zeta"]));
    assert_eq!(
        plan.initial_resource_states,
        vec![
            ("alpha".to_string(), PlannedResourceState::UnorderedAccess),
            ("zeta".to_string(), PlannedResourceState::ShaderRead),
        ]
    );
    assert!(matches!(plan.resource("zeta"), Some(ResourceDefinition::Image(_))));
}
