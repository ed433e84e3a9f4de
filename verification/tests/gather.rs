use voxel_engine::gather::{gather_vec, Gather};

#[test]
fn gather_picks_in_the_given_order() {
    let v = vec![String::from("a"), String::from("b"), String::from("c"), String::from("d")];
    assert_eq!(gather_vec(v, &[0, 2]), vec![String::from("a"), String::from("c")]);
    assert_eq!(gather_vec(vec![10, 20, 30], &[2, 0, 1]), vec![30, 10, 20]);
    assert!(gather_vec(vec![1, 2], &[]).is_empty());
}

#[test]
fn gather_through_the_trait() {
    let v = vec![5u8, 6, 7];
    assert_eq!(v.gather(&[1]), vec![6]);
    let w = vec![String::from("x"), String::from("y")];
    assert_eq!(w.gather(&[1, 0]), vec![String::from("y"), String::from("x")]);
}
