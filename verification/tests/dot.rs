use voxel_engine::dot::dot_layout;
use voxel_engine::graph::{InputOrNode, ResolvedInput, ResolvedResources};

fn input(resource: usize) -> ResolvedInput {
    ResolvedInput { resource, producer: InputOrNode::Input }
}

fn from_node(resource: usize, node: usize) -> ResolvedInput {
    ResolvedInput { resource, producer: InputOrNode::Node(node) }
}

#[test]
fn input_resources_are_named_once_in_order_of_appearance() {
    let res = ResolvedResources {
        node_count: 3,
        explicit_orderings: vec![],
        inputs: vec![vec![input(7)], vec![input(4), from_node(2, 0)], vec![]],
        borrows: vec![vec![], vec![input(7)], vec![input(4)]],
    };
    let layout = dot_layout(&res, &[1, 0, 2]);
    assert_eq!(layout.len(), 3);
    assert_eq!(layout[0].node, 1);
    assert_eq!(layout[1].node, 0);
    assert_eq!(layout[2].node, 2);

    let first = &layout[0].edges;
    assert_eq!(first.len(), 3);
    assert_eq!((first[0].name, first[0].declares, first[0].borrowed), (0, true, false));
    assert_eq!(first[1].input, from_node(2, 0));
    assert!(!first[1].declares && !first[1].borrowed);
    assert_eq!((first[2].name, first[2].declares, first[2].borrowed), (1, true, true));

    let second = &layout[1].edges;
    assert_eq!(second.len(), 1);
    assert_eq!((second[0].name, second[0].declares), (1, false));

    let third = &layout[2].edges;
    assert_eq!((third[0].name, third[0].declares, third[0].borrowed), (0, false, true));
}
