use bevyjam::grid::{coord_from_1d, coord_to_1d, get_neighbours};
use bevyjam::pathfinding::{add_to_open, pluck_from_open, sort_open};

/// Cost in the library's fixed-point unit (ten-thousandths).
fn cost(v: f64) -> i64 {
    (v * 10_000.0).round() as i64
}

fn costs(vs: &[f64]) -> Vec<i64> {
    vs.iter().map(|v| cost(*v)).collect()
}

#[test]
fn test_coord_to_1d() {
    let a = coord_to_1d(4, 2, 1);
    assert_eq!(a, 6);
    let b = coord_to_1d(4, 3, 2);
    assert_eq!(b, 11);
    let c = coord_to_1d(4, 3, 3);
    assert_eq!(c, 15);
    let d = coord_to_1d(4, 0, 0);
    assert_eq!(d, 0);
}

#[test]
fn test_1d_to_coord() {
    let a = coord_from_1d(4, 0);
    let b = coord_from_1d(4, 15);
    let c = coord_from_1d(4, 3);
    let d = coord_from_1d(4, 10);
    assert_eq!(a, (0, 0));
    assert_eq!(b, (3, 3));
    assert_eq!(c, (3, 0));
    assert_eq!(d, (2, 2));
}

#[test]
fn test_get_neighbours() {
    let mut a = get_neighbours(4, 1, 1);
    assert_eq!(a, vec![0, 1, 2, 4, 6, 8, 9, 10]);
    a = get_neighbours(4, 0, 0);
    assert_eq!(a, vec![-1, -1, -1, -1, 1, -1, 4, 5]);
    a = get_neighbours(4, 3, 3);
    assert_eq!(a, vec![10, 11, -1, 14, -1, -1, -1, -1]);
}

#[test]
fn test_sort_open_ordering() {
    let mut vec_a = vec![0, 1, 2, 3];
    let vec_ref = costs(&[7.0, 1.0, 5.0, 12.0]);
    sort_open(&mut vec_a, &vec_ref);
    let pop1 = vec_a.pop().unwrap();
    let pop2 = vec_a.pop().unwrap();
    let pop3 = vec_a.pop().unwrap();
    assert_eq!(pop1, 1);
    assert_eq!(pop2, 2);
    assert_eq!(pop3, 0);
}

#[test]
fn test_adding_to_open() {
    let mut vec_a = vec![3, 0, 2, 1];
    let mut vec_ref = costs(&[7.0, 1.0, 5.0, 12.0, 0.5]);
    add_to_open(&mut vec_a, &mut vec_ref, 4, cost(0.5));
    assert_eq!(vec_a[4], 4);
    vec_ref.push(cost(10.0));
    add_to_open(&mut vec_a, &mut vec_ref, 5, cost(0.5));
    assert_eq!(vec_a[5], 4);
    vec_ref.push(cost(0.2));
    add_to_open(&mut vec_a, &mut vec_ref, 6, cost(0.2));
    assert_eq!(vec_a[6], 6);
    vec_ref[0] = cost(0.1);
    pluck_from_open(&mut vec_a, 0);
    add_to_open(&mut vec_a, &mut vec_ref, 0, cost(0.1));
    assert_eq!(vec_a[6], 0);
    vec_a.pop();
    assert_eq!(vec_a[5], 6);
}

#[test]
fn test_plucking() {
    let mut vec_a = vec![1, 2, 3, 4, 5, 6, 78, 97, 123, 515, 621];
    pluck_from_open(&mut vec_a, 3);
    pluck_from_open(&mut vec_a, 1);
    pluck_from_open(&mut vec_a, 2);
    pluck_from_open(&mut vec_a, 4);
    pluck_from_open(&mut vec_a, 515);
    pluck_from_open(&mut vec_a, 97);
    pluck_from_open(&mut vec_a, 5);
    pluck_from_open(&mut vec_a, 6);
    pluck_from_open(&mut vec_a, 78);
    pluck_from_open(&mut vec_a, 123);
    assert_eq!(vec_a[0], 621);
}
