use std::collections::HashMap;

use tree_of_stars::area::{AreaGraph, AreaSet};
use tree_of_stars::error::Error;
use tree_of_stars::game::{
    can_grow, grow_into, grow_plans, handle_node_selection, node_at, place_link_target, prep_world,
    selected_kind, toggle_exclude_at, valid_to, GrowTest, MWKind, MouseWidget, PointerEvent,
};
use tree_of_stars::graph::{can_link, LinkRange};
use tree_of_stars::hex::{Coord, Direction};
use tree_of_stars::power::{PowerGrid, Pylon};
use tree_of_stars::resource::{Pool, Resource, Source};
use tree_of_stars::world::{common, Network};

fn c(x: i32, y: i32) -> Coord {
    Coord::new(x, y)
}

/// Nodes 1 at (0,0), 2 at (6,0), 3 at (12,0); links 10 (1-2) and 11 (2-3).
fn small_net() -> Network {
    let mut net = Network::new();
    net.make_node(1, c(0, 0));
    net.make_node(2, c(6, 0));
    net.make_node(3, c(12, 0));
    net.make_link(10, 1, 2);
    net.make_link(11, 2, 3);
    net
}

#[test]
fn make_node_takes_its_cells() {
    let mut net = Network::new();
    net.make_node(1, c(0, 0));
    assert_eq!(net.nodes[&1].at(), c(0, 0));
    assert_eq!(net.map.get(c(1, -1)), Some(1));
    assert_eq!(net.map.get(c(2, 0)), None);
    assert_eq!(net.spaces[&1].coords().len(), 7);
}

#[test]
fn make_node_joins_covering_area_sets() {
    let mut net = Network::new();
    net.make_node(1, c(0, 0));
    assert_eq!(AreaSet::add(&mut net, 1, 10), Ok(()));
    net.make_node(2, c(5, 0));
    net.make_node(3, c(20, 0));
    let set = &net.area_sets[&1];
    assert!(set.data.contains(&1));
    assert!(set.data.contains(&2));
    assert!(!set.data.contains(&3));
    let mut members = set.nodes();
    members.sort();
    assert_eq!(members, vec![1, 2]);
    assert_eq!(AreaSet::add(&mut net, 99, 10), Err(Error::NoSuchComponent));
}

#[test]
fn make_link_records_everywhere() {
    let net = small_net();
    assert_eq!(net.links[&10].from, 1);
    assert_eq!(net.links[&10].to, 2);
    assert_eq!(net.links[&10].path.len(), 5);
    assert_eq!(net.nodes[&1].link_to(2), Some(10));
    assert_eq!(net.nodes[&2].link_to(1), Some(10));
    assert_eq!(net.nodes[&2].link_to(3), Some(11));
    assert_eq!(net.map.get(c(3, 0)), Some(10));
    assert_eq!(net.map.get(c(9, 0)), Some(11));
}

#[test]
fn area_graph_add_sees_links_within_range() {
    let mut net = small_net();
    assert_eq!(AreaGraph::add(&mut net, 1, 7), Ok(()));
    let ag = &net.graphs[&1];
    assert!(ag.data.contains_edge(1, 2));
    assert!(!ag.data.contains_edge(2, 3));
    assert_eq!(AreaGraph::add(&mut net, 42, 7), Err(Error::NoSuchComponent));
}

#[test]
fn new_links_reach_graphs_covering_both_ends() {
    let mut net = Network::new();
    net.make_node(1, c(0, 0));
    net.make_node(2, c(6, 0));
    net.make_node(3, c(30, 0));
    AreaGraph::add(&mut net, 1, 10).unwrap();
    net.make_link(10, 1, 2);
    net.make_link(11, 2, 3);
    assert!(net.graphs[&1].data.contains_edge(1, 2));
    assert!(!net.graphs[&1].data.contains_edge(2, 3));
}

#[test]
fn make_then_delete_link_restores_map_and_graph() {
    let mut net = Network::new();
    net.make_node(1, c(0, 0));
    net.make_node(2, c(6, 0));
    AreaGraph::add(&mut net, 1, 10).unwrap();
    let cells_before: Vec<Option<u64>> = (-2..9).map(|x| net.map.get(c(x, 0))).collect();
    net.make_link(10, 1, 2);
    assert!(net.graphs[&1].data.contains_edge(1, 2));
    net.delete_link(10);
    let cells_after: Vec<Option<u64>> = (-2..9).map(|x| net.map.get(c(x, 0))).collect();
    assert_eq!(cells_before, cells_after);
    assert!(!net.graphs[&1].data.contains_edge(1, 2));
    assert!(!net.spaces.contains_key(&10));
    // The link and the nodes' record of it stay.
    assert!(net.links.contains_key(&10));
    assert_eq!(net.nodes[&1].link_to(2), Some(10));
}

#[test]
fn common_keeps_shared_entities_once() {
    assert_eq!(common(&vec![3, 1, 3, 2], &vec![2, 3, 5]), vec![3, 2]);
    assert_eq!(common(&vec![], &vec![1]), Vec::<u64>::new());
}

#[test]
fn can_link_checks_range_and_space() {
    let mut net = Network::new();
    net.make_node(1, c(0, 0));
    net.make_node(2, c(6, 0));
    net.make_node(3, c(0, 6));
    let mut ranges = HashMap::new();
    ranges.insert(1, LinkRange::new(5));
    ranges.insert(2, LinkRange::new(6));
    assert!(can_link(&net.nodes, &ranges, &net.map, 1, 2));
    assert!(!can_link(&net.nodes, &ranges, &net.map, 1, 3));
    ranges.insert(3, LinkRange::new(3));
    assert!(!can_link(&net.nodes, &ranges, &net.map, 1, 3));
    ranges.insert(3, LinkRange::new(6));
    assert!(can_link(&net.nodes, &ranges, &net.map, 1, 3));
    net.make_link(10, 1, 2);
    assert!(!can_link(&net.nodes, &ranges, &net.map, 1, 2));
    assert!(!can_link(&net.nodes, &ranges, &net.map, 2, 1));
    assert_eq!(LinkRange::new(4).get(), 4);
}

#[test]
fn pointer_selects_nodes() {
    let net = small_net();
    let mut w = prep_world();
    assert_eq!(w, MouseWidget::new());
    assert_eq!(w.kind, MWKind::Blank);
    assert!(w.valid);
    assert_eq!(handle_node_selection(&net.map, &net.nodes, &mut w, PointerEvent::Motion(c(3, 0))), None);
    assert!(!w.valid);
    assert_eq!(handle_node_selection(&net.map, &net.nodes, &mut w, PointerEvent::Motion(c(0, 1))), None);
    assert!(w.valid);
    assert_eq!(handle_node_selection(&net.map, &net.nodes, &mut w, PointerEvent::Motion(c(0, 5))), None);
    assert!(w.valid);
    assert_eq!(handle_node_selection(&net.map, &net.nodes, &mut w, PointerEvent::Press(c(1, 0))), Some(1));
    assert_eq!(handle_node_selection(&net.map, &net.nodes, &mut w, PointerEvent::Press(c(3, 0))), None);
    assert_eq!(handle_node_selection(&net.map, &net.nodes, &mut w, PointerEvent::Other), None);
    assert_eq!(node_at(&net.map, &net.nodes, c(12, 0)), Some(3));
    assert_eq!(selected_kind(&net.links, &net.nodes, 10), "link");
    assert_eq!(selected_kind(&net.links, &net.nodes, 2), "node");
    assert_eq!(selected_kind(&net.links, &net.nodes, 77), "unknown");
}

#[test]
fn build_and_link_placement_rules() {
    let net = small_net();
    assert!(valid_to(&net.map, c(0, 0), c(0, 6)));
    assert!(!valid_to(&net.map, c(0, 0), c(1, 1)));
    assert_eq!(place_link_target(&net, 1, c(12, 0)), None);
    assert_eq!(place_link_target(&net, 1, c(0, 0)), None);
    assert_eq!(place_link_target(&net, 1, c(3, 0)), None);
    let mut open = Network::new();
    open.make_node(1, c(0, 0));
    open.make_node(2, c(0, 6));
    assert_eq!(place_link_target(&open, 1, c(0, 6)), Some(2));
    assert!(can_grow(&open.map, c(0, 0), c(6, 0)));
}

#[test]
fn toggle_exclude_twice_restores() {
    let mut net = small_net();
    AreaGraph::add(&mut net, 1, 20).unwrap();
    assert!(toggle_exclude_at(&mut net, 1, c(6, 0)));
    assert!(net.graphs[&1].exclude.contains(&2));
    let (mut nodes, _) = net.graphs.get_mut(&1).unwrap().nodes_route();
    nodes.sort();
    assert_eq!(nodes, vec![1, 3]);
    assert!(toggle_exclude_at(&mut net, 1, c(6, 0)));
    assert!(net.graphs[&1].exclude.is_empty());
    assert!(!toggle_exclude_at(&mut net, 1, c(0, 0)));
    assert!(!toggle_exclude_at(&mut net, 1, c(3, 0)));
    assert!(!toggle_exclude_at(&mut net, 1, c(40, 40)));
}

#[test]
fn growth_test_grows_one_direction_per_hydrogen() {
    let mut net = Network::new();
    net.make_node(1, c(0, 0));
    let mut grows = HashMap::new();
    GrowTest::start(&mut net, &mut grows, 1);
    assert_eq!(grows[&1].next_growth, 1);
    assert_eq!(grows[&1].to_grow.len(), 6);
    assert_eq!(net.sources[&1].has.get(Resource::H2), 6);
    assert_eq!(net.sinks[&1].want.get(Resource::H2), 6);
    // Nothing arrived yet: no growth.
    assert!(grow_plans(&net, &mut grows).is_empty());
    net.sinks.get_mut(&1).unwrap().has.set(Resource::H2, 1);
    let plans = grow_plans(&net, &mut grows);
    assert_eq!(plans, vec![(1, c(0, 0), c(-5, 5))]);
    assert_eq!(grows[&1].next_growth, 2);
    assert_eq!(grows[&1].to_grow.last(), Some(&Direction::ZX));
    assert!(can_grow(&net.map, c(0, 0), c(-5, 5)));
    grow_into(&mut net, &mut grows, 1, c(-5, 5), 2, 20);
    assert_eq!(net.nodes[&2].at(), c(-5, 5));
    assert_eq!(net.nodes[&1].link_to(2), Some(20));
    assert!(grows.contains_key(&2));
    // Starting twice changes nothing.
    GrowTest::start(&mut net, &mut grows, 1);
    assert_eq!(grows[&1].next_growth, 2);
}

#[test]
fn power_grid_links_and_coverage() {
    let mut net = Network::new();
    net.make_node(1, c(0, 0));
    net.make_node(2, c(8, 0));
    net.make_node(3, c(30, 0));
    net.make_node(4, c(2, 2));
    let mut grid = PowerGrid::new();
    let mut pylons = HashMap::new();
    Pylon::add(&mut net, &mut grid, &mut pylons, 1, 5);
    Pylon::add(&mut net, &mut grid, &mut pylons, 2, 5);
    Pylon::add(&mut net, &mut grid, &mut pylons, 3, 5);
    assert_eq!(pylons[&1].range(), 5);
    assert_eq!(grid.links(1), vec![2]);
    assert_eq!(grid.links(2), vec![1]);
    assert!(grid.links(3).is_empty());
    let mut visited = hibitset::BitSet::new();
    let covered = grid.find_covered(&net.area_sets, 1, &mut visited);
    assert!(visited.contains(1));
    assert!(visited.contains(2));
    assert!(!visited.contains(3));
    assert!(covered.contains(1));
    assert!(covered.contains(2));
    assert!(covered.contains(4));
    assert!(!covered.contains(3));
    // The second pylon's group was found already: starting there finds only
    // its own area.
    let again = grid.find_covered(&net.area_sets, 2, &mut visited);
    assert!(again.contains(2));
    assert!(!again.contains(1));
    assert!(!again.contains(4));
}

#[test]
fn source_add_offers_to_area() {
    let mut net = small_net();
    Source::add(&mut net, 2, Pool::from(vec![(Resource::O2, 2)]), 8);
    assert_eq!(net.sources[&2].has.get(Resource::O2), 2);
    assert!(net.graphs[&2].data.contains_edge(1, 2));
    assert!(net.graphs[&2].data.contains_edge(2, 3));
}
