use particle_sim::mesh::{filled_circle_indices, line_circle_indices};

#[test]
fn outline_closes_on_the_first_vertex() {
    assert_eq!(line_circle_indices(4), vec![0, 1, 1, 2, 2, 3, 3, 0]);
    assert_eq!(line_circle_indices(1), vec![0, 0]);
    assert_eq!(line_circle_indices(0), Vec::<u32>::new());
    let big = line_circle_indices(200);
    assert_eq!(big.len(), 400);
    assert_eq!(&big[396..], &[198, 199, 199, 0]);
}

#[test]
fn disk_is_a_fan_around_the_first_vertex() {
    assert_eq!(filled_circle_indices(5), vec![1, 0, 2, 2, 0, 3, 3, 0, 4]);
    assert_eq!(filled_circle_indices(3), vec![1, 0, 2]);
    assert_eq!(filled_circle_indices(2), Vec::<u32>::new());
    assert_eq!(filled_circle_indices(1), Vec::<u32>::new());
    let big = filled_circle_indices(120);
    assert_eq!(big.len(), 354);
    assert_eq!(&big[351..], &[118, 0, 119]);
}
