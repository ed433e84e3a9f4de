use voxel_engine::compiled::{GraphShape, NodeIo};
use voxel_engine::compiler::CompiledGraph;
use voxel_engine::graph::{InputOrNode, ResolvedInput};
use voxel_engine::resolver::resolve_resources;

fn node(consumes: Vec<usize>, borrows: Vec<usize>, outputs: Vec<usize>) -> NodeIo {
    NodeIo { consumes, borrows, outputs }
}

/// Input 0 -> a (0) -> 1 -> b (1) -> 2 (permanent), borrowed by c (2) -> 3.
fn chain_shape() -> GraphShape {
    GraphShape {
        nodes: vec![node(vec![0], vec![], vec![1]), node(vec![1], vec![], vec![2]), node(vec![], vec![2], vec![3])],
        permanent: vec![false, false, true, false],
        unordered: vec![false, false, false, false],
        inputs: vec![0],
        explicit_orderings: vec![],
    }
}

#[test]
fn producers_list_nodes_then_input() {
    let mut shape = chain_shape();
    shape.nodes.push(node(vec![], vec![], vec![1, 0]));
    let producers = shape.compute_producers();
    assert_eq!(producers[0], vec![InputOrNode::Node(3), InputOrNode::Input]);
    assert_eq!(producers[1], vec![InputOrNode::Node(0), InputOrNode::Node(3)]);
    assert_eq!(producers[2], vec![InputOrNode::Node(1)]);
    assert_eq!(producers[3], vec![InputOrNode::Node(2)]);
}

#[test]
fn resolution_follows_the_only_producers() {
    let shape = chain_shape();
    let resolved = resolve_resources(&shape).unwrap();
    assert_eq!(resolved.inputs[0], vec![ResolvedInput { resource: 0, producer: InputOrNode::Input }]);
    assert_eq!(resolved.inputs[1], vec![ResolvedInput { resource: 1, producer: InputOrNode::Node(0) }]);
    assert_eq!(resolved.borrows[2], vec![ResolvedInput { resource: 2, producer: InputOrNode::Node(1) }]);
    assert!(resolved.find_loop().is_none());
    assert_eq!(resolved.compute_total_order(), vec![0, 1, 2]);
    assert_eq!(resolved.users(ResolvedInput { resource: 2, producer: InputOrNode::Node(1) }), vec![2]);
}

#[test]
fn borrowers_and_consumers_of_single_producers_resolve() {
    // Node 0 makes resources 1 and 2 from input 0; node 1 consumes 1 and
    // borrows 2 to make 3; node 2 consumes 3 and borrows 2 to make 4.
    let shape = GraphShape {
        nodes: vec![node(vec![0], vec![], vec![1, 2]), node(vec![1], vec![2], vec![3]), node(vec![3], vec![2], vec![4])],
        permanent: vec![false, false, false, false, true],
        unordered: vec![false, false, false, false, false],
        inputs: vec![0],
        explicit_orderings: vec![],
    };
    let resolved = resolve_resources(&shape).unwrap();
    assert_eq!(resolved.inputs[1], vec![ResolvedInput { resource: 1, producer: InputOrNode::Node(0) }]);
    assert_eq!(resolved.borrows[1], vec![ResolvedInput { resource: 2, producer: InputOrNode::Node(0) }]);
    assert_eq!(resolved.inputs[2], vec![ResolvedInput { resource: 3, producer: InputOrNode::Node(1) }]);
    assert_eq!(resolved.borrows[2], vec![ResolvedInput { resource: 2, producer: InputOrNode::Node(0) }]);
    assert_eq!(resolved.compute_total_order(), vec![0, 1, 2]);
    assert!(CompiledGraph::new(&shape).is_some());
}

#[test]
fn mutators_take_the_previous_version() {
    // Node 0 makes resource 0, node 1 changes it (consumes and outputs it),
    // node 2 consumes the final version.
    let shape = GraphShape {
        nodes: vec![node(vec![], vec![], vec![0]), node(vec![0], vec![], vec![0]), node(vec![0], vec![], vec![1])],
        permanent: vec![false, false],
        unordered: vec![false, false],
        inputs: vec![],
        explicit_orderings: vec![],
    };
    let resolved = resolve_resources(&shape).unwrap();
    assert_eq!(resolved.inputs[1], vec![ResolvedInput { resource: 0, producer: InputOrNode::Node(0) }]);
    assert_eq!(resolved.inputs[2], vec![ResolvedInput { resource: 0, producer: InputOrNode::Node(1) }]);
    assert_eq!(resolved.compute_total_order(), vec![0, 1, 2]);
}

#[test]
fn a_loop_is_found() {
    let shape = GraphShape {
        nodes: vec![node(vec![1], vec![], vec![0]), node(vec![0], vec![], vec![1])],
        permanent: vec![false, false],
        unordered: vec![false, false],
        inputs: vec![],
        explicit_orderings: vec![],
    };
    match resolve_resources(&shape) {
        Some(resolved) => assert!(resolved.find_loop().is_some()),
        None => {},
    }
    assert!(CompiledGraph::new(&shape).is_none());
}

#[test]
fn computing_a_permanent_resource_runs_its_producers() {
    let shape = chain_shape();
    let mut graph = CompiledGraph::new(&shape).unwrap();
    let result = graph.compute(&shape, 2);
    assert_eq!(result.steps, vec![0, 1]);
    assert_eq!(result.required_inputs, vec![0]);
    assert!(result.output_new_permanents().is_empty());
    assert!(graph.is_dirty(&shape, &ResolvedInput { resource: 2, producer: InputOrNode::Node(1) }));
}

#[test]
fn up_to_date_permanents_are_not_recomputed() {
    // Node 0 makes permanent resource 0; node 1 consumes it and makes
    // permanent resource 1.
    let shape = GraphShape {
        nodes: vec![node(vec![], vec![], vec![0]), node(vec![0], vec![], vec![1])],
        permanent: vec![true, true],
        unordered: vec![false, false],
        inputs: vec![],
        explicit_orderings: vec![],
    };
    let mut graph = CompiledGraph::new(&shape).unwrap();
    let first = graph.compute(&shape, 1);
    assert_eq!(first.steps, vec![0, 1]);
    assert_eq!(first.output_new_permanents(), &vec![0]);
    graph.apply_compute_result(&shape, &first);
    assert!(!graph.is_dirty(&shape, &ResolvedInput { resource: 0, producer: InputOrNode::Node(0) }));
    let second = graph.compute(&shape, 1);
    assert_eq!(second.steps, vec![1]);
    assert!(second.output_new_permanents().is_empty());
    graph.mark_resource_dirty(&shape, 0);
    assert!(graph.is_dirty(&shape, &ResolvedInput { resource: 0, producer: InputOrNode::Node(0) }));
    let third = graph.compute(&shape, 1);
    assert_eq!(third.steps, vec![0, 1]);
}

#[test]
fn a_graph_that_takes_only_its_inputs_resolves_to_them() {
    let shape = GraphShape {
        nodes: vec![node(vec![0], vec![], vec![2]), node(vec![1], vec![], vec![3])],
        permanent: vec![false, false, false, false],
        unordered: vec![false, false, false, false],
        inputs: vec![0, 1],
        explicit_orderings: vec![],
    };
    let resolved = resolve_resources(&shape).unwrap();
    assert_eq!(resolved.inputs[0], vec![ResolvedInput { resource: 0, producer: InputOrNode::Input }]);
    assert_eq!(resolved.inputs[1], vec![ResolvedInput { resource: 1, producer: InputOrNode::Input }]);
    assert!(CompiledGraph::new(&shape).is_some());
}

#[test]
fn a_producer_met_first_through_an_up_to_date_resource_still_runs() {
    // Node 0 makes permanent resource 0 and resource 1; node 1 consumes 0
    // and borrows 1 to make permanent resource 2.
    let shape = GraphShape {
        nodes: vec![node(vec![], vec![], vec![0, 1]), node(vec![0], vec![1], vec![2])],
        permanent: vec![true, false, true],
        unordered: vec![false, false, false],
        inputs: vec![],
        explicit_orderings: vec![],
    };
    let resolved = resolve_resources(&shape).unwrap();
    let order = resolved.compute_total_order();
    assert_eq!(order, vec![0, 1]);
    let fresh = resolved.plan(&shape, &vec![0], &order, 1);
    assert_eq!(fresh.steps, vec![0, 1]);
    assert!(fresh.output_new_permanents().is_empty());
    let stale = resolved.plan(&shape, &vec![], &order, 1);
    assert_eq!(stale.steps, vec![0, 1]);
    assert_eq!(stale.output_new_permanents(), &vec![0]);
}
