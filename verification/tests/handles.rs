use voxel_engine::gen_map::GenMap;
use voxel_engine::handles::{NodeHandle, ResourceHandle};
use voxel_engine::render_graph::{NodeEntry, ResourceEntry};

struct Blur;
struct Depth;

#[test]
fn untyped_handles_keep_identity() {
    let mut nodes = GenMap::<NodeEntry>::new();
    let h1 = nodes.insert(NodeEntry { consumes: vec![], borrows: vec![], outputs: vec![] });
    let h2 = nodes.insert(NodeEntry { consumes: vec![], borrows: vec![], outputs: vec![] });
    let a = NodeHandle::<Blur>::new(h1);
    let b = NodeHandle::<Blur>::new(h2);
    assert!(a == a.clone());
    assert!(a != b);
    assert!(a.to_untyped() == a.to_untyped());
    assert!(a.to_untyped() != b.to_untyped());
    assert!(a.to_untyped().handle() == h1);

    let mut resources = GenMap::<ResourceEntry>::new();
    let r1 = resources.insert(ResourceEntry { label: String::from("depth"), permanent: false, unordered: false });
    let r = ResourceHandle::<Depth>::new(r1);
    assert!(r.to_untyped().handle() == r1);
    assert!(r.to_untyped().handle().sparse_index() == h1.sparse_index());
}
