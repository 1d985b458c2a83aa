use exergon_core::orientation::{Mirror, Orientation, Rotation};
use exergon_core::routing::Cell;

fn c(x: i32, y: i32, z: i32) -> Cell {
    Cell { x, y, z }
}

#[test]
fn orientation_all_returns_8() {
    assert_eq!(Orientation::all().len(), 8);
}

#[test]
fn orientation_north_normal_is_identity() {
    let o = Orientation { rotation: Rotation::North, mirror: Mirror::Normal };
    assert_eq!(o.transform(c(1, 2, 3)), c(1, 2, 3));
}

#[test]
fn orientation_east_rotates_correctly() {
    let o = Orientation { rotation: Rotation::East, mirror: Mirror::Normal };
    assert_eq!(o.transform(c(1, 0, 0)), c(0, 0, -1));
    assert_eq!(o.transform(c(0, 0, 1)), c(1, 0, 0));
}

#[test]
fn orientation_mirror_negates_x() {
    let o = Orientation { rotation: Rotation::North, mirror: Mirror::Mirrored };
    assert_eq!(o.transform(c(2, 1, 3)), c(-2, 1, 3));
}

#[test]
fn orientation_south_normal() {
    let o = Orientation { rotation: Rotation::South, mirror: Mirror::Normal };
    assert_eq!(o.transform(c(1, 0, 0)), c(-1, 0, 0));
    assert_eq!(o.transform(c(0, 0, 1)), c(0, 0, -1));
}

#[test]
fn orientation_west_normal() {
    let o = Orientation { rotation: Rotation::West, mirror: Mirror::Normal };
    assert_eq!(o.transform(c(1, 0, 0)), c(0, 0, 1));
    assert_eq!(o.transform(c(0, 0, 1)), c(-1, 0, 0));
}

#[test]
fn orientation_y_unchanged_all_variants() {
    for o in Orientation::all() {
        assert_eq!(o.transform(c(3, 7, 5)).y, 7);
    }
}

#[test]
fn orientation_all_variants_distinct() {
    let all = Orientation::all();
    for i in 0..8 {
        for j in 0..8 {
            if i != j {
                assert_ne!(all[i], all[j]);
            }
        }
    }
}

#[test]
fn transform_keeps_manhattan_length() {
    for o in Orientation::all() {
        let t = o.transform(c(2, -3, 5));
        assert_eq!(t.x.abs() + t.y.abs() + t.z.abs(), 10);
    }
}

#[test]
fn transform_is_injective_on_samples() {
    for o in Orientation::all() {
        assert_ne!(o.transform(c(1, 0, 2)), o.transform(c(2, 0, 1)));
    }
}
