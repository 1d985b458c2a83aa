use exergon_core::routing::{auto_route, route_avoiding, Cell};

fn c(x: i32, y: i32, z: i32) -> Cell {
    Cell { x, y, z }
}

fn step_len(a: Cell, b: Cell) -> i32 {
    (b.x - a.x).abs() + (b.y - a.y).abs() + (b.z - a.z).abs()
}

#[test]
fn same_point_returns_single_element() {
    let path = auto_route(c(0, 0, 0), c(0, 0, 0));
    assert_eq!(path, vec![c(0, 0, 0)]);
}

#[test]
fn along_x_axis() {
    let path = auto_route(c(0, 0, 0), c(3, 0, 0));
    assert_eq!(path, vec![c(0, 0, 0), c(1, 0, 0), c(2, 0, 0), c(3, 0, 0)]);
}

#[test]
fn xyz_order() {
    let path = auto_route(c(0, 0, 0), c(2, 1, 1));
    assert_eq!(path[0], c(0, 0, 0));
    assert_eq!(*path.last().unwrap(), c(2, 1, 1));
    for w in path.windows(2) {
        assert_eq!(step_len(w[0], w[1]), 1);
    }
}

#[test]
fn straight_line_no_obstacles() {
    let path = route_avoiding(c(0, 0, 0), c(4, 0, 0), &vec![]);
    assert_eq!(path.first(), Some(&c(0, 0, 0)));
    assert_eq!(path.last(), Some(&c(4, 0, 0)));
    assert_eq!(path.len(), 5);
    let has_turn = path.windows(3).any(|w| {
        (w[1].x - w[0].x, w[1].y - w[0].y, w[1].z - w[0].z) != (w[2].x - w[1].x, w[2].y - w[1].y, w[2].z - w[1].z)
    });
    assert!(!has_turn, "straight line should have no turns");
}

#[test]
fn routes_around_single_obstacle() {
    let blocked = vec![c(1, 0, 0)];
    let path = route_avoiding(c(0, 0, 0), c(2, 0, 0), &blocked);
    assert_eq!(*path.first().unwrap(), c(0, 0, 0));
    assert_eq!(*path.last().unwrap(), c(2, 0, 0));
    assert!(!path.contains(&c(1, 0, 0)));
}

#[test]
fn fallback_when_all_neighbors_blocked() {
    let blocked = vec![c(1, 0, 0), c(-1, 0, 0), c(0, 1, 0), c(0, -1, 0), c(0, 0, 1), c(0, 0, -1)];
    let to = c(3, 0, 0);
    let path = route_avoiding(c(0, 0, 0), to, &blocked);
    assert_eq!(*path.first().unwrap(), c(0, 0, 0));
    assert_eq!(*path.last().unwrap(), to);
}

#[test]
fn avoiding_route_is_connected_and_free() {
    let blocked = vec![c(1, 0, 0), c(1, 1, 0), c(1, -1, 0)];
    let path = route_avoiding(c(0, 0, 0), c(2, 0, 0), &blocked);
    for w in path.windows(2) {
        assert_eq!(step_len(w[0], w[1]), 1);
    }
    for cell in &path[1..] {
        assert!(!blocked.contains(cell));
    }
}

#[test]
fn auto_route_length_is_manhattan_plus_one() {
    let path = auto_route(c(-2, 3, 1), c(1, -1, 4));
    assert_eq!(path.len(), 3 + 4 + 3 + 1);
}

#[test]
fn routes_far_from_the_origin() {
    let x = 1 << 30;
    let path = route_avoiding(c(x, 0, 0), c(x + 2, 0, 0), &vec![c(x + 1, 0, 0)]);
    assert_eq!(path.first(), Some(&c(x, 0, 0)));
    assert_eq!(path.last(), Some(&c(x + 2, 0, 0)));
    assert!(!path.contains(&c(x + 1, 0, 0)));
    assert_eq!(path.len(), 5);
}

#[test]
fn blocked_target_is_reached_but_never_crossed() {
    let path = route_avoiding(c(0, 0, 0), c(2, 0, 0), &vec![c(2, 0, 0)]);
    assert_eq!(path.last(), Some(&c(2, 0, 0)));
    assert!(path[..path.len() - 1].iter().all(|p| *p != c(2, 0, 0)));
}

fn turns(path: &[Cell]) -> usize {
    path.windows(3)
        .filter(|w| (w[1].x - w[0].x, w[1].y - w[0].y, w[1].z - w[0].z) != (w[2].x - w[1].x, w[2].y - w[1].y, w[2].z - w[1].z))
        .count()
}

#[test]
fn detour_is_the_cheapest_one() {
    let path = route_avoiding(c(0, 0, 0), c(2, 0, 0), &vec![c(1, 0, 0)]);
    assert_eq!(path.len(), 5);
    assert_eq!(turns(&path), 2);
    for w in path.windows(2) {
        assert_eq!(step_len(w[0], w[1]), 1);
    }
}

#[test]
fn corner_route_turns_once() {
    let path = route_avoiding(c(0, 0, 0), c(2, 2, 0), &vec![]);
    assert_eq!(path.len(), 5);
    assert_eq!(turns(&path), 1);
}

#[test]
fn routes_at_the_edge_of_the_grid() {
    let x = i32::MAX;
    let path = route_avoiding(c(x - 2, 0, 0), c(x, 0, 0), &vec![c(x - 1, 0, 0)]);
    assert_eq!(path.first(), Some(&c(x - 2, 0, 0)));
    assert_eq!(path.last(), Some(&c(x, 0, 0)));
    assert!(!path.contains(&c(x - 1, 0, 0)));
    assert_eq!(path.len(), 5);
    assert_eq!(turns(&path), 2);
}
