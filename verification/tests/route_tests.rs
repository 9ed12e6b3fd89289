use std::collections::HashMap;

use tree_of_stars::error::Error;
use tree_of_stars::graph::{path_ix, FollowRoute, Link, Node, PathCoord, PathDir, RoutePhase, RouteStep};
use tree_of_stars::hex::Coord;
use tree_of_stars::network::{calc_route, Graph};

fn c(x: i32, y: i32) -> Coord {
    Coord::new(x, y)
}

fn link(from: u64, to: u64, path: Vec<Coord>) -> Link {
    Link { from, to, path }
}

/// Three nodes in a row, 1 -- 2 -- 3, joined by links 10 and 11.
fn row() -> (HashMap<u64, Node>, HashMap<u64, Link>) {
    let mut nodes = HashMap::new();
    nodes.insert(1, Node::new(c(0, 0)));
    nodes.insert(2, Node::new(c(4, 0)));
    nodes.insert(3, Node::new(c(8, 0)));
    let mut links = HashMap::new();
    links.insert(10, link(1, 2, vec![c(1, 0), c(2, 0), c(3, 0)]));
    links.insert(11, link(3, 2, vec![c(7, 0), c(6, 0), c(5, 0)]));
    (nodes, links)
}

#[test]
fn graph_add_and_remove_links() {
    let mut g = Graph::new();
    assert!(!g.contains_edge(1, 2));
    g.add_link_to(1, 2, 10);
    assert!(g.contains_edge(1, 2));
    assert!(g.contains_edge(2, 1));
    assert_eq!(g.nodes(), vec![1, 2]);
    g.add_link(&link(3, 2, vec![]), 11);
    assert_eq!(g.nodes(), vec![1, 2, 3]);
    // Removing a link that was added gives back the edges there were.
    assert_eq!(g.remove_link(2, 3), Some(11));
    assert!(!g.contains_edge(3, 2));
    assert!(g.contains_edge(1, 2));
    assert_eq!(g.remove_link(2, 3), None);
    // Nodes stay when their links go.
    assert_eq!(g.nodes(), vec![1, 2, 3]);
}

#[test]
fn calc_route_crosses_links_in_direction() {
    let (nodes, links) = row();
    let mut data = Graph::new();
    data.add_link_to(1, 2, 10);
    data.add_link_to(2, 3, 11);
    let mut g = data;
    let r = g.route(&links, &nodes, 1, 3).expect("a route");
    assert_eq!(r.1, vec![(10, PathDir::Fwd), (11, PathDir::Rev)]);
    let back = g.route(&links, &nodes, 3, 1).expect("a route back");
    assert_eq!(back.1, vec![(11, PathDir::Fwd), (10, PathDir::Rev)]);
}

#[test]
fn route_to_unreachable_node_is_none() {
    let (mut nodes, links) = row();
    nodes.insert(4, Node::new(c(0, 8)));
    let mut g = Graph::new();
    g.add_link_to(1, 2, 10);
    assert!(g.route(&links, &nodes, 1, 4).is_none());
    assert!(g.route(&links, &nodes, 1, 3).is_none());
}

#[test]
fn route_asked_twice_gives_same_answer() {
    let (nodes, links) = row();
    let mut g = Graph::new();
    g.add_link_to(1, 2, 10);
    g.add_link_to(2, 3, 11);
    let first = g.route(&links, &nodes, 1, 3);
    let second = g.route(&links, &nodes, 1, 3);
    assert_eq!(first, second);
    // A change of links forgets remembered routes.
    g.remove_link(2, 3);
    assert!(g.route(&links, &nodes, 1, 3).is_none());
}

#[test]
fn calc_route_on_graph_data_directly() {
    let (nodes, links) = row();
    let mut g = Graph::new();
    g.add_link_to(1, 2, 10);
    let (mut list, router) = {
        let mut ag = tree_of_stars::area::AreaGraph::new(c(0, 0), 20, &HashMap::new());
        ag.data = g;
        let (l, r) = ag.nodes_route();
        (l, r.route(&links, &nodes, 2, 1))
    };
    list.sort();
    assert_eq!(list, vec![1, 2]);
    assert_eq!(router.map(|x| x.1), Some(vec![(10, PathDir::Rev)]));
    let _ = calc_route;
}

#[test]
fn path_ix_both_directions() {
    let (_, links) = row();
    assert_eq!(path_ix((10, PathDir::Fwd), 0, &links), Ok((c(1, 0), PathCoord::More)));
    assert_eq!(path_ix((10, PathDir::Fwd), 2, &links), Ok((c(3, 0), PathCoord::End)));
    assert_eq!(path_ix((10, PathDir::Rev), 0, &links), Ok((c(3, 0), PathCoord::More)));
    assert_eq!(path_ix((10, PathDir::Rev), 2, &links), Ok((c(1, 0), PathCoord::End)));
    assert_eq!(path_ix((10, PathDir::Fwd), 3, &links), Err(Error::PathIxOverflow));
    assert_eq!(path_ix((99, PathDir::Fwd), 0, &links), Err(Error::NoSuchComponent));
}

#[test]
fn follow_route_visits_every_cell_and_node() {
    let (nodes, links) = row();
    let route = vec![(10, PathDir::Fwd), (11, PathDir::Rev)];
    let mut f = FollowRoute::start(route, &links, &nodes);
    assert_eq!(f.phase, RoutePhase::ToLink(c(1, 0), PathCoord::More));
    let mut stops = vec![c(1, 0)];
    loop {
        match f.advance(&links, &nodes) {
            RouteStep::Done => break,
            RouteStep::Move(from, to) => {
                assert_eq!(from, *stops.last().unwrap());
                stops.push(to);
            }
        }
    }
    assert_eq!(
        stops,
        vec![c(1, 0), c(2, 0), c(3, 0), c(4, 0), c(5, 0), c(6, 0), c(7, 0), c(8, 0)]
    );
}

#[test]
fn node_links_and_link_list() {
    let mut n = Node::new(c(1, 2));
    assert_eq!(n.at(), c(1, 2));
    n.add_link(5, 50);
    n.add_link(6, 60);
    assert_eq!(n.link_to(5), Some(50));
    let mut l = n.link_list();
    l.sort();
    assert_eq!(l, vec![(5, 50), (6, 60)]);
    assert_eq!(n.remove_link(5), Some(50));
    assert_eq!(n.link_to(5), None);
    let copy = link(1, 2, vec![c(0, 1)]).copy();
    assert_eq!((copy.from, copy.to, copy.path), (1, 2, vec![c(0, 1)]));
}

#[test]
fn route_cost_counts_link_cells() {
    let (nodes, links) = row();
    let mut g = Graph::new();
    g.add_link_to(1, 2, 10);
    g.add_link_to(2, 3, 11);
    let (len, route) = g.route(&links, &nodes, 1, 3).expect("a route");
    assert_eq!(len, 6);
    assert_eq!(route.len(), 2);
    let (len, _) = g.route(&links, &nodes, 2, 3).expect("a route");
    assert_eq!(len, 3);
}

#[test]
fn route_to_itself_is_empty_and_free() {
    let (nodes, links) = row();
    let mut g = Graph::new();
    g.add_link_to(1, 2, 10);
    assert_eq!(g.route(&links, &nodes, 1, 1), Some((0, vec![])));
    let mut lone = Graph::new();
    assert_eq!(lone.route(&links, &nodes, 2, 2), Some((0, vec![])));
}

#[test]
fn route_length_is_what_the_route_crosses() {
    let (mut nodes, mut links) = row();
    nodes.insert(4, Node::new(c(4, 4)));
    // A long direct link from 1 to 3 beside the two short ones.
    let long: Vec<Coord> = (1..40).map(|i| c(i, 100)).collect();
    links.insert(12, link(1, 3, long));
    let mut g = Graph::new();
    g.add_link_to(1, 2, 10);
    g.add_link_to(2, 3, 11);
    g.add_link_to(1, 3, 12);
    let (len, route) = g.route(&links, &nodes, 1, 3).expect("a route");
    let crossed: usize = route.iter().map(|(l, _)| links[l].path.len()).sum();
    assert_eq!(crossed, len);
    assert_eq!(len, 6);
}

#[test]
fn check_tells_a_fitting_progress() {
    let (nodes, mut links) = row();
    let route = vec![(10, PathDir::Fwd), (11, PathDir::Rev)];
    let mut f = FollowRoute::start(route, &links, &nodes);
    assert!(f.check(&links, &nodes));
    while let RouteStep::Move(_, _) = f.advance(&links, &nodes) {
        assert!(f.check(&links, &nodes));
    }
    let g = FollowRoute::start(vec![(10, PathDir::Fwd)], &links, &nodes);
    links.remove(&10);
    assert!(!g.check(&links, &nodes));
}
