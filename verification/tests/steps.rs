use voxel_engine::steps::{DotEntry, DotKind, NodeData, RenderGraph, RenderStage, TypeNameRegistry};

// Resources: Input, Input1, Input2, Reversed, ReversedHalf, Half, Output.
const INPUT: u64 = 0;
const INPUT1: u64 = 1;
const INPUT2: u64 = 2;
const REVERSED: u64 = 3;
const REVERSED_HALF: u64 = 4;
const HALF: u64 = 5;
const OUTPUT: u64 = 6;

fn node(type_id: u64, inputs: Vec<u64>, outputs: Vec<u64>) -> NodeData {
    NodeData { type_id, inputs, outputs }
}

#[test]
fn complex_construction() {
    let mut graph = RenderGraph::new();
    graph.push_node(node(100, vec![INPUT], vec![INPUT1, INPUT2]));
    graph.push_node(node(101, vec![HALF, REVERSED_HALF], vec![OUTPUT]));
    graph.push_node(node(102, vec![REVERSED], vec![REVERSED_HALF]));
    graph.push_node(node(103, vec![INPUT1], vec![REVERSED]));
    graph.push_node(node(104, vec![INPUT2], vec![HALF]));
    graph.define_input(INPUT);
    assert_eq!(graph.construct_steps(), vec![0, 3, 4, 2, 1]);
}

#[test]
fn nodes_in_order_run_in_one_pass() {
    let mut graph = RenderGraph::new();
    graph.define_input(INPUT);
    graph.push_node(node(100, vec![INPUT], vec![INPUT1]));
    graph.push_node(node(101, vec![INPUT1], vec![OUTPUT]));
    assert_eq!(graph.construct_steps(), vec![0, 1]);
}

#[test]
fn consumed_resources_are_gone() {
    // Both nodes consume the only input: the second can never run.
    let mut graph = RenderGraph::new();
    graph.define_input(INPUT);
    graph.push_node(node(100, vec![INPUT], vec![INPUT1]));
    graph.push_node(node(101, vec![INPUT], vec![INPUT2]));
    assert_eq!(graph.try_construct_steps(), None);
}

#[test]
fn missing_input_blocks_the_graph() {
    let mut graph = RenderGraph::new();
    graph.push_node(node(100, vec![INPUT], vec![OUTPUT]));
    assert_eq!(graph.try_construct_steps(), None);
}

#[test]
fn type_names_are_recorded_and_replaced() {
    let mut registry = TypeNameRegistry::new();
    assert_eq!(registry.get_name(1), None);
    registry.register(1, "Blur");
    registry.register(2, "Depth");
    assert_eq!(registry.get_name(1), Some("Blur"));
    assert_eq!(registry.get_name(2), Some("Depth"));
    registry.register(1, "Bloom");
    assert_eq!(registry.get_name(1), Some("Bloom"));
    assert_eq!(registry.get_name(3), None);
}

#[test]
fn render_stages_are_ordered() {
    assert!(RenderStage::NoStage < RenderStage::Background);
    assert!(RenderStage::Background < RenderStage::Content3D);
    assert!(RenderStage::Content3D < RenderStage::Content2D);
    assert!(RenderStage::Content2D < RenderStage::UI);
}

fn entry(kind: DotKind, id: u64, name: usize, declares: bool) -> DotEntry {
    DotEntry { kind, id, name, declares }
}

#[test]
fn dot_entries_name_in_order_of_first_appearance() {
    let mut graph = RenderGraph::new();
    graph.define_input(INPUT);
    graph.push_node(node(100, vec![INPUT], vec![INPUT1, INPUT2]));
    graph.push_node(node(103, vec![INPUT1], vec![REVERSED]));
    assert_eq!(
        graph.dot_entries(),
        vec![
            entry(DotKind::Input, INPUT, 0, true),
            entry(DotKind::Node, 100, 0, true),
            entry(DotKind::Consumed, INPUT, 0, false),
            entry(DotKind::Produced, INPUT1, 1, true),
            entry(DotKind::Produced, INPUT2, 2, true),
            entry(DotKind::Node, 103, 1, true),
            entry(DotKind::Consumed, INPUT1, 1, false),
            entry(DotKind::Produced, REVERSED, 3, true),
        ]
    );
}

#[test]
fn a_valid_graph_has_its_steps_checked() {
    let mut graph = RenderGraph::new();
    graph.define_input(INPUT);
    graph.push_node(node(100, vec![INPUT1], vec![OUTPUT]));
    graph.push_node(node(101, vec![INPUT], vec![INPUT1]));
    assert_eq!(graph.try_construct_steps(), Some(vec![1, 0]));
    assert_eq!(graph.construct_steps(), vec![1, 0]);
}
