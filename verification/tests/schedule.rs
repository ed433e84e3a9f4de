use voxel_engine::schedule::{ring, ChunkSchedule};

#[test]
fn first_ring_is_the_origin_column_twice() {
    let r = ring(0);
    assert_eq!(r.len(), 20);
    assert_eq!(r[0], (0, -5, 0));
    assert_eq!(r[1], (0, -5, 0));
    assert_eq!(r[19], (0, 4, 0));
}

#[test]
fn second_ring_layer_order() {
    let r = ring(1);
    assert_eq!(r.len(), 80);
    assert_eq!(
        r[..8].to_vec(),
        vec![(-1, -5, -1), (-1, -5, 1), (0, -5, -1), (0, -5, 1), (1, -5, -1), (1, -5, 1), (-1, -5, 0), (1, -5, 0)]
    );
    assert_eq!(r[8], (-1, -4, -1));
    for &(x, y, z) in &r {
        assert_eq!(x.abs().max(z.abs()), 1);
        assert!((-5..5).contains(&y));
    }
}

#[test]
fn rings_grow_when_the_queue_empties() {
    let mut s = ChunkSchedule::new();
    assert!(!s.has_generation_work());
    assert_eq!(s.pop_generation(), None);
    s.refill();
    assert!(s.has_generation_work());
    let mut count = 0;
    while let Some(pos) = s.pop_generation() {
        assert_eq!((pos.0, pos.2), (0, 0));
        count += 1;
        // Not refilled while chunks wait.
        if s.has_generation_work() {
            s.refill();
        }
    }
    assert_eq!(count, 20);
    s.refill();
    assert_eq!(s.pop_generation(), Some((-1, -5, -1)));
}

#[test]
fn rings_stop_at_the_maximum_distance() {
    let mut s = ChunkSchedule::new();
    let mut rings = 0;
    loop {
        s.refill();
        if !s.has_generation_work() {
            break;
        }
        rings += 1;
        while s.pop_generation().is_some() {}
    }
    assert_eq!(rings, 20);
}

#[test]
fn mesh_queue_keeps_order_and_unmeshed_chunks() {
    let mut s = ChunkSchedule::new();
    s.queue_mesh((1, 0, 0));
    s.queue_mesh((2, 0, 0));
    s.queue_mesh((1, 0, 0));
    s.queue_mesh((3, 0, 0));
    assert_eq!(s.mesh_queue(), vec![(1, 0, 0), (2, 0, 0), (3, 0, 0)]);
    s.finish_meshing(&vec![true, false, true]);
    assert_eq!(s.mesh_queue(), vec![(2, 0, 0)]);
    s.queue_mesh((1, 0, 0));
    assert_eq!(s.mesh_queue(), vec![(2, 0, 0), (1, 0, 0)]);
}
