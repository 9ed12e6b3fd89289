use std::collections::HashMap;

use tree_of_stars::error::Error;
use tree_of_stars::geom::{AreaMap, GridMap, Space};
use tree_of_stars::graph::{link_shape, node_shape, node_space, space_for_link, space_for_node, LinkSpace};
use tree_of_stars::hex::{contains_coord, Coord, Direction};
use tree_of_stars::map::{LocMap, Location};

fn c(x: i32, y: i32) -> Coord {
    Coord::new(x, y)
}

#[test]
fn hex_distance_counts_steps() {
    assert_eq!(c(0, 0).distance(c(0, 0)), 0);
    assert_eq!(c(0, 0).distance(c(3, 0)), 3);
    assert_eq!(c(0, 0).distance(c(2, -1)), 2);
    assert_eq!(c(0, 0).distance(c(2, 2)), 4);
    assert_eq!(c(-1, 4).distance(c(2, -3)), 7);
}

#[test]
fn directions_in_grid_order_with_offsets() {
    let all = Direction::all();
    assert_eq!(
        all,
        vec![Direction::YZ, Direction::XZ, Direction::XY, Direction::ZY, Direction::ZX, Direction::YX]
    );
    let origin = c(5, 5);
    assert_eq!(origin.step(Direction::YZ), c(5, 6));
    assert_eq!(origin.step(Direction::XZ), c(6, 5));
    assert_eq!(origin.step(Direction::XY), c(6, 4));
    assert_eq!(origin.step(Direction::ZY), c(5, 4));
    assert_eq!(origin.step(Direction::ZX), c(4, 5));
    assert_eq!(origin.step(Direction::YX), c(4, 6));
    for (i, d) in all.iter().enumerate() {
        assert_eq!(d.index(), i as i32);
        assert_eq!(Direction::from_index(i as i32), *d);
    }
}

#[test]
fn range_and_ring_sizes() {
    let center = c(2, -1);
    let disk = center.range(2);
    assert_eq!(disk.len(), 19);
    for x in &disk {
        assert!(center.distance(*x) <= 2);
    }
    let ring = center.ring(3, Direction::XY);
    assert_eq!(ring.len(), 18);
    for x in &ring {
        assert_eq!(center.distance(*x), 3);
    }
    assert_eq!(node_space(center).len(), 7);
    assert_eq!(node_shape(center).len(), 6);
}

#[test]
fn line_runs_end_to_end() {
    let a = c(0, 0);
    let b = c(4, -2);
    let line = a.line_to(b);
    assert_eq!(line.len(), 5);
    assert_eq!(line[0], a);
    assert_eq!(line[4], b);
    for w in line.windows(2) {
        assert_eq!(w[0].distance(w[1]), 1);
    }
}

#[test]
fn link_space_leaves_out_ends_and_node_cells() {
    let ls = LinkSpace::new_pos(c(0, 0), c(6, 0));
    assert_eq!(ls.path, vec![c(1, 0), c(2, 0), c(3, 0), c(4, 0), c(5, 0)]);
    assert_eq!(ls.shape, vec![c(2, 0), c(3, 0), c(4, 0)]);
    assert_eq!(link_shape(c(0, 0), c(6, 0)), ls.shape);
}

#[test]
fn link_space_needs_both_nodes() {
    let nodes: HashMap<u64, tree_of_stars::graph::Node> = HashMap::new();
    assert_eq!(LinkSpace::new(&nodes, 1, 2).err(), Some(Error::NoSuchComponent));
}

#[test]
fn space_dedups_cells() {
    let s = Space::new(vec![c(1, 1), c(2, 2), c(1, 1)]);
    assert_eq!(s.coords().len(), 2);
    assert!(contains_coord(s.coords(), c(2, 2)));
}

#[test]
fn grid_map_set_and_clear() {
    let mut map = GridMap::new();
    let mut locs = HashMap::new();
    assert_eq!(map.set(&mut locs, 1, Space::new(node_space(c(0, 0)))), Ok(()));
    assert_eq!(map.get(c(1, 0)), Some(1));
    assert_eq!(map.get(c(2, 0)), None);
    assert!(!space_for_node(&map, c(2, 0)));
    assert!(space_for_node(&map, c(3, 0)));
    // An overlapping space is refused and nothing changes.
    assert_eq!(map.set(&mut locs, 2, Space::new(node_space(c(2, 0)))), Err(Error::Occupied));
    assert_eq!(map.get(c(3, 0)), None);
    assert!(!locs.contains_key(&2));
    // Clearing frees exactly what was set.
    assert_eq!(map.clear(&mut locs, 1), Ok(()));
    assert_eq!(map.get(c(0, 0)), None);
    assert!(locs.is_empty());
    assert_eq!(map.clear(&mut locs, 1), Err(Error::NoSuchComponent));
}

#[test]
fn grid_map_in_range_finds_occupants() {
    let mut map = GridMap::new();
    let mut locs = HashMap::new();
    map.set(&mut locs, 4, Space::new(vec![c(0, 0)])).unwrap();
    map.set(&mut locs, 5, Space::new(vec![c(5, 0)])).unwrap();
    let found = map.in_range(c(1, 0), 2);
    assert!(found.contains(&4));
    assert!(!found.contains(&5));
    assert_eq!(found.len(), 1);
}

#[test]
fn space_for_link_sees_blockers() {
    let mut map = GridMap::new();
    let mut locs = HashMap::new();
    assert!(space_for_link(&map, c(0, 0), c(6, 0)));
    map.set(&mut locs, 9, Space::new(vec![c(3, 0)])).unwrap();
    assert!(!space_for_link(&map, c(0, 0), c(6, 0)));
    assert!(space_for_link(&map, c(0, 0), c(0, 6)));
}

#[test]
fn area_map_find_and_remove() {
    let mut areas = AreaMap::new();
    areas.insert(c(0, 0), 3, 10);
    areas.insert(c(10, 0), 2, 11);
    assert_eq!(areas.find(c(2, 0)), vec![10]);
    assert_eq!(areas.find(c(9, 0)), vec![11]);
    assert_eq!(areas.find(c(5, 0)), Vec::<u64>::new());
    assert_eq!(areas.find_overlap(c(5, 0), 3), vec![10, 11]);
    assert_eq!(areas.find_overlap(c(5, 0), 1), Vec::<u64>::new());
    assert!(areas.remove(c(0, 0), 3, 10));
    assert!(!areas.remove(c(0, 0), 3, 10));
    assert_eq!(areas.find(c(2, 0)), Vec::<u64>::new());
}

#[test]
fn loc_map_set_replaces_and_clear_restores() {
    let mut m = LocMap::new();
    let mut locs = HashMap::new();
    assert_eq!(m.set(&mut locs, c(1, 1), 3), None);
    assert_eq!(locs.get(&3), Some(&Location::new(c(1, 1))));
    assert_eq!(m.set(&mut locs, c(1, 1), 4), Some(3));
    assert!(!locs.contains_key(&3));
    assert_eq!(m.get(c(1, 1)), Some(4));
    assert_eq!(m.clear(&mut locs, c(1, 1)), Some(4));
    assert_eq!(m.get(c(1, 1)), None);
    assert!(locs.is_empty());
    assert_eq!(m.clear(&mut locs, c(1, 1)), None);
    assert_eq!(Location::new(c(2, 3)).coord(), c(2, 3));
}

#[test]
fn loc_map_in_range() {
    let mut m = LocMap::new();
    let mut locs = HashMap::new();
    m.set(&mut locs, c(0, 0), 1);
    m.set(&mut locs, c(1, 0), 2);
    m.set(&mut locs, c(4, 0), 3);
    let mut found = m.in_range(c(0, 0), 1);
    found.sort();
    assert_eq!(found, vec![1, 2]);
}
