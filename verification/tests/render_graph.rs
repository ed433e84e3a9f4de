use voxel_engine::compiler::CompiledGraph;
use voxel_engine::render_graph::RenderGraph;

#[test]
fn shape_numbers_nodes_and_resources_densely() {
    let mut g = RenderGraph::new();
    let a = g.create_resource_untyped(String::from("a"), false, false);
    let b = g.create_resource_untyped(String::from("b"), true, false);
    let c = g.create_resource_untyped(String::from("c"), false, true);
    g.define_resource_input(a);
    g.define_resource_input(a);
    let n1 = g.push_node_complete(vec![a], vec![], vec![b]);
    let n2 = g.push_node_complete(vec![], vec![b], vec![c]);
    g.define_explicit_ordering(n1, n2);

    let shape = g.shape();
    assert_eq!(shape.nodes.len(), 2);
    assert_eq!(shape.nodes[0].consumes, vec![0]);
    assert!(shape.nodes[0].borrows.is_empty());
    assert_eq!(shape.nodes[0].outputs, vec![1]);
    assert_eq!(shape.nodes[1].borrows, vec![1]);
    assert_eq!(shape.nodes[1].outputs, vec![2]);
    assert_eq!(shape.permanent, vec![false, true, false]);
    assert_eq!(shape.unordered, vec![false, false, true]);
    assert_eq!(shape.inputs, vec![0]);
    assert_eq!(shape.explicit_orderings, vec![(0, 1)]);
    assert!(CompiledGraph::new(&shape).is_some());
}

#[test]
fn removing_a_node_drops_its_orderings() {
    let mut g = RenderGraph::new();
    let a = g.create_resource_untyped(String::from("a"), false, false);
    let b = g.create_resource_untyped(String::from("b"), false, false);
    let n1 = g.push_node_complete(vec![], vec![], vec![a]);
    let n2 = g.push_node_complete(vec![a], vec![], vec![b]);
    let n3 = g.push_node_complete(vec![], vec![b], vec![]);
    g.define_explicit_ordering(n1, n3);
    g.define_explicit_ordering(n2, n3);

    let removed = g.remove_node_untyped(n1);
    assert!(removed.is_some());
    assert_eq!(removed.unwrap().outputs.len(), 1);
    assert!(g.remove_node_untyped(n1).is_none());

    let shape = g.shape();
    assert_eq!(shape.nodes.len(), 2);
    assert_eq!(shape.explicit_orderings.len(), 1);
    let (before, after) = shape.explicit_orderings[0];
    assert_eq!(shape.nodes[before].consumes, vec![0]);
    assert_eq!(shape.nodes[after].borrows, vec![1]);
}

#[test]
fn computing_a_permanent_resource_plans_its_producer() {
    let mut g = RenderGraph::new();
    let a = g.create_resource_untyped(String::from("a"), false, false);
    let b = g.create_resource_untyped(String::from("b"), true, false);
    let c = g.create_resource_untyped(String::from("c"), false, false);
    g.define_resource_input(a);
    let n1 = g.push_node_complete(vec![a], vec![], vec![b]);
    let _n2 = g.push_node_complete(vec![], vec![b], vec![c]);
    assert!(!g.is_prepared());

    assert!(g.compute_untyped(c).is_none());
    assert!(g.is_prepared());

    let plan = g.compute_untyped(b).unwrap();
    assert_eq!(plan.steps, vec![0]);
    assert_eq!(plan.required_inputs, vec![0]);
    assert_eq!(g.node_at(plan.steps[0]), Some(n1));
    assert_eq!(g.resource_at(plan.required_inputs[0]), Some(a));
    assert!(g.finish_compute(&plan));

    let again = g.compute_untyped(b).unwrap();
    assert_eq!(again.steps, vec![0]);

    let d = g.create_resource_untyped(String::from("d"), true, false);
    assert!(g.is_prepared());
    assert!(g.compute_untyped(d).is_none());
}

#[test]
fn a_permanent_resource_without_producer_cannot_compile() {
    let mut g = RenderGraph::new();
    let a = g.create_resource_untyped(String::from("a"), true, false);
    let b = g.create_resource_untyped(String::from("b"), false, false);
    g.push_node_complete(vec![], vec![a], vec![b]);
    assert!(!g.prepare_run());
    assert!(g.compute_untyped(b).is_none());
}
