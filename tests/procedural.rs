use ncollide::procedural::{
    push_degenerate_open_top_ring_indices, push_degenerate_top_ring_indices,
    push_filled_circle_indices, push_open_ring_indices, push_rectangle_indices,
    push_ring_indices, reverse_clockwising, split_index_buffer,
    split_index_buffer_and_recover_topology, Vec3,
};

fn t(x: u32, y: u32, z: u32) -> Vec3<u32> {
    Vec3::new(x, y, z)
}

#[test]
fn rectangle_gives_two_counterclockwise_triangles() {
    let mut out = vec![t(9, 9, 9)];
    push_rectangle_indices(1u32, 2, 3, 4, &mut out);
    assert_eq!(out, vec![t(9, 9, 9), t(1, 3, 4), t(4, 2, 1)]);
}

#[test]
fn open_ring_joins_consecutive_points() {
    let mut out = Vec::new();
    push_open_ring_indices(0, 10, 3, &mut out);
    assert_eq!(out, vec![t(11, 1, 0), t(0, 10, 11), t(12, 2, 1), t(1, 11, 12)]);
}

#[test]
fn open_ring_of_one_point_is_empty() {
    let mut out = Vec::new();
    push_open_ring_indices(4, 8, 1, &mut out);
    assert!(out.is_empty());
}

#[test]
fn closed_ring_adds_the_closing_quad() {
    let mut out = Vec::new();
    push_ring_indices(0, 10, 3, &mut out);
    assert_eq!(
        out,
        vec![t(11, 1, 0), t(0, 10, 11), t(12, 2, 1), t(1, 11, 12), t(10, 0, 2), t(2, 12, 10)]
    );
}

#[test]
fn open_fan_around_a_point() {
    let mut out = Vec::new();
    push_degenerate_open_top_ring_indices(5, 99, 3, &mut out);
    assert_eq!(out, vec![t(5, 99, 6), t(6, 99, 7)]);
}

#[test]
fn closed_fan_around_a_point() {
    let mut out = Vec::new();
    push_degenerate_top_ring_indices(5, 99, 3, &mut out);
    assert_eq!(out, vec![t(5, 99, 6), t(6, 99, 7), t(7, 99, 5)]);
}

#[test]
fn filled_circle_pushes_nsubdiv_minus_two_triangles() {
    let mut out = Vec::new();
    push_filled_circle_indices(4, 5, &mut out);
    assert_eq!(out, vec![t(4, 5, 6), t(4, 6, 7), t(4, 7, 8)]);
}

#[test]
fn filled_circle_of_fewer_than_three_points_is_empty() {
    let mut out = Vec::new();
    push_filled_circle_indices(4, 2, &mut out);
    push_filled_circle_indices(4, 1, &mut out);
    push_filled_circle_indices(0, 0, &mut out);
    assert!(out.is_empty());
}

#[test]
fn reversing_swaps_the_first_two_indices() {
    let mut faces = vec![t(0, 1, 2), t(3, 4, 5)];
    reverse_clockwising(&mut faces);
    assert_eq!(faces, vec![t(1, 0, 2), t(4, 3, 5)]);
    reverse_clockwising(&mut faces);
    assert_eq!(faces, vec![t(0, 1, 2), t(3, 4, 5)]);
}

#[test]
fn split_repeats_each_index() {
    let r = split_index_buffer(&[t(0, 1, 2)]);
    assert_eq!(r, vec![Vec3::new(t(0, 0, 0), t(1, 1, 1), t(2, 2, 2))]);
}

#[test]
fn recovering_topology_merges_equal_coordinates() {
    let a = Vec3::new(1u64, 2, 3);
    let b = Vec3::new(4u64, 5, 6);
    let coords = vec![a, b, a, b];
    let faces = vec![t(0, 1, 2), t(3, 2, 0)];
    let (out, new_coords) = split_index_buffer_and_recover_topology(&faces, &coords);
    assert_eq!(new_coords, vec![a, b]);
    assert_eq!(
        out,
        vec![
            Vec3::new(t(0, 0, 0), t(1, 1, 1), t(0, 2, 2)),
            Vec3::new(t(1, 3, 3), t(0, 2, 2), t(0, 0, 0)),
        ]
    );
}

#[test]
fn recovering_topology_of_no_faces() {
    let coords = vec![Vec3::new(1u64, 1, 1)];
    let (out, new_coords) = split_index_buffer_and_recover_topology(&[], &coords);
    assert!(out.is_empty());
    assert!(new_coords.is_empty());
}
