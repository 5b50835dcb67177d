use wfc_solver::bits::Mask;
use wfc_solver::error::ProblemError;
use wfc_solver::utils::{Dimensions, FieldGrid, Point};

fn mask_of(pattern: &[u8]) -> Mask {
    let mut m = Mask::repeat(false, pattern.len());
    for (i, b) in pattern.iter().enumerate() {
        if *b == 1 {
            m.set(i, true);
        }
    }
    m
}

#[test]
fn dimensions_len_is_the_product() {
    let d = Dimensions::new(3, 4, 5);
    assert_eq!(d.len(), 60);
    assert_eq!(d.width(), 3);
    assert_eq!(d.height(), 4);
    assert_eq!(d.depth(), 5);
    assert_eq!(Dimensions::new(1, 1, 1).len(), 1);
}

#[test]
fn point_id_is_x_major() {
    let d = Dimensions::new(3, 4, 5);
    assert_eq!(Point::new(0, 0, 0).id(d), 0);
    assert_eq!(Point::new(1, 0, 0).id(d), 1);
    assert_eq!(Point::new(0, 0, 1).id(d), 3);
    assert_eq!(Point::new(0, 1, 0).id(d), 15);
    assert_eq!(Point::new(2, 3, 4).id(d), 2 + 3 * 15 + 4 * 3);
    assert_eq!(Point::new(2, 3, 4).id(d), 59);
}

#[test]
fn neighbors_stop_at_the_boundary() {
    let d = Dimensions::new(2, 2, 2);
    let origin = Point::new(0, 0, 0);
    assert_eq!(origin.left(d), None);
    assert_eq!(origin.down(d), None);
    assert_eq!(origin.backward(d), None);
    assert_eq!(origin.right(d), Some(Point::new(1, 0, 0)));
    assert_eq!(origin.up(d), Some(Point::new(0, 1, 0)));
    assert_eq!(origin.forward(d), Some(Point::new(0, 0, 1)));
    let corner = Point::new(1, 1, 1);
    assert_eq!(corner.right(d), None);
    assert_eq!(corner.up(d), None);
    assert_eq!(corner.forward(d), None);
    assert_eq!(corner.left(d), Some(Point::new(0, 1, 1)));
    assert_eq!(corner.down(d), Some(Point::new(1, 0, 1)));
    assert_eq!(corner.backward(d), Some(Point::new(1, 1, 0)));
}

#[test]
fn update_intersects_and_reports_change() {
    let d = Dimensions::new(1, 1, 2);
    let mut grid = FieldGrid::new(d, mask_of(&[1, 1, 1, 1]));
    let p = Point::new(0, 0, 0);

    // A superset of the current domain changes nothing.
    assert!(!grid.should_update(p, &mask_of(&[1, 1, 1, 1])));
    assert!(!grid.update(p, &mask_of(&[1, 1, 1, 1])));
    assert_eq!(grid.get(p).unwrap().count_ones(), 4);

    // Dropping bits applies the intersection, and only at that cell.
    assert!(grid.should_update(p, &mask_of(&[0, 1, 1, 0])));
    assert!(grid.update(p, &mask_of(&[0, 1, 1, 0])));
    assert!(grid.get(p).unwrap().same_bits(&mask_of(&[0, 1, 1, 0])));
    assert_eq!(grid.get(Point::new(0, 0, 1)).unwrap().count_ones(), 4);

    // A disjoint candidate empties the cell.
    assert!(grid.update(p, &mask_of(&[1, 0, 0, 1])));
    assert_eq!(grid.get(p).unwrap().count_ones(), 0);
}

#[test]
fn update_popcounts_never_rise() {
    let d = Dimensions::new(1, 1, 1);
    let mut grid = FieldGrid::new(d, mask_of(&[1, 1, 1, 1]));
    let p = Point::new(0, 0, 0);
    let candidates = [
        mask_of(&[1, 1, 1, 1]),
        mask_of(&[1, 0, 1, 1]),
        mask_of(&[1, 1, 0, 1]),
        mask_of(&[0, 1, 1, 1]),
        mask_of(&[1, 0, 0, 0]),
        mask_of(&[1, 1, 1, 1]),
    ];
    let mut last = grid.get(p).unwrap().count_ones();
    for candidate in candidates.iter() {
        grid.update(p, candidate);
        let now = grid.get(p).unwrap().count_ones();
        assert!(now <= last);
        last = now;
    }
}

#[test]
fn grid_state_queries() {
    let d = Dimensions::new(2, 1, 1);
    let mut grid = FieldGrid::new(d, mask_of(&[1, 1]));
    assert!(grid.is_satisfiable());
    assert!(!grid.is_complete());
    grid.update(Point::new(0, 0, 0), &mask_of(&[1, 0]));
    grid.update(Point::new(1, 0, 0), &mask_of(&[0, 1]));
    assert!(grid.is_satisfiable());
    assert!(grid.is_complete());
    grid.update(Point::new(1, 0, 0), &mask_of(&[1, 0]));
    assert!(!grid.is_satisfiable());
    assert!(!grid.is_complete());
}

#[test]
fn grid_set_replaces_one_cell() {
    let d = Dimensions::new(2, 1, 1);
    let mut grid = FieldGrid::new(d, mask_of(&[1, 1]));
    grid.set(Point::new(1, 0, 0), mask_of(&[0, 1]));
    assert!(grid.get(Point::new(0, 0, 0)).unwrap().same_bits(&mask_of(&[1, 1])));
    assert!(grid.get(Point::new(1, 0, 0)).unwrap().same_bits(&mask_of(&[0, 1])));
}

#[test]
fn mask_surface_behaves() {
    let mut m = Mask::repeat(false, 5);
    assert_eq!(m.len(), 5);
    assert_eq!(m.count_ones(), 0);
    m.set(2, true);
    m.set(4, true);
    assert!(m.get(2));
    assert!(!m.get(3));
    assert_eq!(m.count_ones(), 2);
    assert_eq!(m.ones(), vec![2, 4]);
    let copy = m.duplicate();
    assert!(copy.same_bits(&m));
    m.set(2, false);
    assert!(!copy.same_bits(&m));
    assert_eq!(m.ones(), vec![4]);
    let full = Mask::repeat(true, 5);
    assert_eq!(full.count_ones(), 5);
    assert_eq!(full.ones(), vec![0, 1, 2, 3, 4]);
}

#[test]
fn error_messages() {
    assert_eq!(
        ProblemError::Unsatisfiable.describe(),
        "Cannot satisfy problem description"
    );
    assert_eq!(ProblemError::Dimensions.describe(), "Invalid dimensions occured");
    assert_ne!(ProblemError::Unsatisfiable, ProblemError::Dimensions);
}
