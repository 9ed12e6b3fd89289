//! The routing graph of one area: the links between the nodes that lie within
//! a radius of a centre, and the nodes its owner ignores.

use std::collections::{HashMap, HashSet};

use vstd::prelude::*;
use vstd::std_specs::iter::IteratorSpec;

use crate::graph::Node;
use crate::hex::{coord_ok, hex_distance, Coord};
use crate::network::{edge_key, EdgeKey, Graph};
use crate::Entity;

verus! {

broadcast use vstd::std_specs::hash::group_hash_axioms;

/// `a` is a node within `radius` of `center`.
pub open spec fn in_area(nodes: Map<Entity, Node>, center: Coord, radius: int, a: Entity) -> bool {
    nodes.contains_key(a) && hex_distance(center, nodes[a].pos()) <= radius
}

/// The link `w`, stored under `k`, joins the area's nodes `a` and `b`, as `a`
/// records it.
pub open spec fn area_edge(
    nodes: Map<Entity, Node>,
    center: Coord,
    radius: int,
    a: Entity,
    b: Entity,
    k: EdgeKey,
    w: Entity,
) -> bool {
    &&& in_area(nodes, center, radius, a)
    &&& in_area(nodes, center, radius, b)
    &&& nodes[a].neighbors().contains_key(b)
    &&& nodes[a].neighbors()[b] == w
    &&& k == edge_key(a, b)
}

/// Every edge is a link between two nodes of the area.
pub open spec fn area_edges_sound(
    edges: Map<EdgeKey, Entity>,
    nodes: Map<Entity, Node>,
    center: Coord,
    radius: int,
) -> bool {
    forall|k: EdgeKey| #[trigger]
        edges.contains_key(k) ==> exists|a: Entity, b: Entity|
            #[trigger] area_edge(nodes, center, radius, a, b, k, edges[k])
}

/// Every link between two nodes of the area is an edge.
pub open spec fn area_edges_complete(
    edges: Map<EdgeKey, Entity>,
    nodes: Map<Entity, Node>,
    center: Coord,
    radius: int,
) -> bool {
    forall|a: Entity, b: Entity|
        in_area(nodes, center, radius, a) && in_area(nodes, center, radius, b)
            && #[trigger] nodes[a].neighbors().contains_key(b) ==> edges.contains_key(
            edge_key(a, b),
        )
}

/// The nodes of `s` that are not in `ex`, in order.
pub open spec fn unexcluded(s: Seq<Entity>, ex: Set<Entity>) -> Seq<Entity> {
    s.filter(|e: Entity| !ex.contains(e))
}

/// The routing graph of the nodes within `radius` of `center`.
#[derive(Debug)]
pub struct AreaGraph {
    pub center: Coord,
    pub radius: i32,
    pub data: Graph,
    pub exclude: HashSet<Entity>,
}

impl AreaGraph {
    /// The nodes the owner of the area ignores when it looks for partners.
    pub open spec fn excluded(&self) -> Set<Entity> {
        self.exclude@
    }

    /// The graph of the links between the nodes within `radius` of `center`.
    pub fn new(center: Coord, radius: i32, nodes: &HashMap<Entity, Node>) -> (ag: AreaGraph)
        requires
            coord_ok(center),
            crate::graph::nodes_ok(nodes@),
        ensures
            ag.center == center,
            ag.radius == radius,
            ag.excluded() == Set::<Entity>::empty(),
            ag.data.cache_ok(),
            forall|a: Entity, b: Entity| #[trigger] ag.data.cached(a, b) is None,
            area_edges_sound(ag.data.edges(), nodes@, center, radius as int),
            area_edges_complete(ag.data.edges(), nodes@, center, radius as int),
    {
        let mut data = Graph::new();
        let ghost all = nodes.iter().remaining();
        for pair in it: nodes.iter()
            invariant
                all == it.seq(),
                coord_ok(center),
                crate::graph::nodes_ok(nodes@),
                forall|i: int|
                    #![trigger all[i]]
                    0 <= i < all.len() ==> nodes@.contains_key(*all[i].0) && nodes@[*all[i].0]
                        == *all[i].1,
                forall|k: Entity| #[trigger] nodes@.contains_key(k) ==> all.contains((&k, &nodes@[k])),
                data.cache_ok(),
                forall|a: Entity, b: Entity| #[trigger] data.cached(a, b) is None,
                area_edges_sound(data.edges(), nodes@, center, radius as int),
                forall|j: int, b: Entity|
                    0 <= j < it.index() && in_area(nodes@, center, radius as int, *all[j].0)
                        && in_area(nodes@, center, radius as int, b)
                        && #[trigger] nodes@[*all[j].0].neighbors().contains_key(b)
                        ==> data.edges().contains_key(edge_key(*all[j].0, b)),
        {
            let a = *pair.0;
            let node = pair.1;
            assert(all[it.index() as int] == pair);
            if center.distance(node.at()) <= radius {
                let pairs = node.link_list();
                let ghost start_edges = data.edges();
                let mut i: usize = 0;
                while i < pairs.len()
                    invariant
                        0 <= i <= pairs.len(),
                        in_area(nodes@, center, radius as int, a),
                        nodes@[a] == *node,
                        coord_ok(center),
                        crate::graph::nodes_ok(nodes@),
                        forall|i: int|
                            #![trigger pairs@[i]]
                            0 <= i < pairs@.len() ==> node.neighbors().contains_key(pairs@[i].0)
                                && node.neighbors()[pairs@[i].0] == pairs@[i].1,
                        data.cache_ok(),
                        forall|a: Entity, b: Entity| #[trigger] data.cached(a, b) is None,
                        area_edges_sound(data.edges(), nodes@, center, radius as int),
                        forall|k: EdgeKey| #[trigger] start_edges.contains_key(k) ==> data.edges().contains_key(k),
                        forall|j: int|
                            #![trigger pairs@[j]]
                            0 <= j < i && in_area(nodes@, center, radius as int, pairs@[j].0)
                                ==> data.edges().contains_key(edge_key(a, pairs@[j].0)),
                    decreases pairs.len() - i,
                {
                    let (b, l) = pairs[i];
                    if !data.contains_edge(a, b) {
                        let inside = match nodes.get(&b) {
                            Some(bn) => center.distance(bn.at()) <= radius,
                            None => false,
                        };
                        if inside {
                            let ghost before = data.edges();
                            data.add_link_to(a, b, l);
                            proof {
                                assert(area_edge(nodes@, center, radius as int, a, b, edge_key(a, b), l));
                                assert forall|k: EdgeKey| #[trigger]
                                    data.edges().contains_key(k) implies exists|x: Entity, y: Entity|
                                    #[trigger] area_edge(nodes@, center, radius as int, x, y, k, data.edges()[k]) by {
                                    if k != edge_key(a, b) {
                                        assert(before.contains_key(k));
                                        let (x, y) = choose|x: Entity, y: Entity|
                                            #[trigger] area_edge(nodes@, center, radius as int, x, y, k, before[k]);
                                        assert(area_edge(nodes@, center, radius as int, x, y, k, data.edges()[k]));
                                    } else {
                                        assert(area_edge(nodes@, center, radius as int, a, b, k, data.edges()[k]));
                                    }
                                }
                            }
                        }
                    }
                    i += 1;
                }
                proof {
                    assert forall|j: int, b: Entity|
                        0 <= j < it.index() + 1 && in_area(nodes@, center, radius as int, *all[j].0)
                            && in_area(nodes@, center, radius as int, b)
                            && #[trigger] nodes@[*all[j].0].neighbors().contains_key(b)
                            implies data.edges().contains_key(edge_key(*all[j].0, b)) by {
                        if j < it.index() {
                            assert(start_edges.contains_key(edge_key(*all[j].0, b)));
                        } else {
                            assert(*all[j].0 == a);
                            assert(node.neighbors().contains_key(b));
                            let q = choose|q: int| 0 <= q < pairs@.len() && #[trigger] pairs@[q] == (b, node.neighbors()[b]);
                            assert(pairs@[q].0 == b);
                        }
                    }
                }
            }
        }
        proof {
            assert forall|a: Entity, b: Entity|
                in_area(nodes@, center, radius as int, a) && in_area(nodes@, center, radius as int, b)
                    && #[trigger] nodes@[a].neighbors().contains_key(b) implies data.edges().contains_key(
                    edge_key(a, b),
                ) by {
                assert(all.contains((&a, &nodes@[a])));
                let j = choose|j: int| 0 <= j < all.len() && all[j] == (&a, &nodes@[a]);
                assert(*all[j].0 == a);
            }
        }
        AreaGraph { center, radius, data, exclude: HashSet::new() }
    }

    /// The nodes of the graph that are not excluded, in the graph's order,
    /// with the graph to route through.
    pub fn nodes_route(&mut self) -> (r: (Vec<Entity>, &mut Graph))
        ensures
            r.0@ == unexcluded(old(self).data.node_seq(), old(self).excluded()),
            *r.1 == old(self).data,
            final(self).data == *final(r.1),
            final(self).center == old(self).center,
            final(self).radius == old(self).radius,
            final(self).exclude == old(self).exclude,
    {
        let all = self.data.nodes();
        let mut out: Vec<Entity> = Vec::new();
        let mut i: usize = 0;
        while i < all.len()
            invariant
                i <= all.len(),
                out@ == all@.take(i as int).filter(|e: Entity| !self.exclude@.contains(e)),
            decreases all.len() - i,
        {
            proof {
                crate::util::lemma_filter_take_step(all@, |e: Entity| !self.exclude@.contains(e), i as int);
            }
            if !self.exclude.contains(&all[i]) {
                out.push(all[i]);
            }
            i += 1;
        }
        proof {
            assert(all@.take(all@.len() as int) =~= all@);
        }
        (out, &mut self.data)
    }

    /// Excludes `node` when it is not excluded, and stops excluding it when it
    /// is.
    pub fn toggle_exclude(&mut self, node: Entity)
        ensures
            final(self).excluded() == (if old(self).excluded().contains(node) {
                old(self).excluded().remove(node)
            } else {
                old(self).excluded().insert(node)
            }),
            final(self).center == old(self).center,
            final(self).radius == old(self).radius,
            final(self).data == old(self).data,
    {
        if !self.exclude.remove(&node) {
            self.exclude.insert(node);
        }
    }
}

/// The nodes within `radius` of `center`, as the area's owner keeps them.
#[derive(Debug)]
pub struct AreaSet {
    pub center: Coord,
    pub radius: i32,
    pub data: HashSet<Entity>,
}

impl AreaSet {
    /// An area with no nodes recorded yet.
    pub fn new(center: Coord, radius: i32) -> (a: AreaSet)
        ensures
            a.center == center,
            a.radius == radius,
            a.data@ == Set::<Entity>::empty(),
    {
        AreaSet { center, radius, data: HashSet::new() }
    }

    /// The nodes of the area, each once, in no particular order.
    pub fn nodes(&self) -> (v: Vec<Entity>)
        ensures
            v@.no_duplicates(),
            v@.to_set() == self.data@,
    {
        let mut v: Vec<Entity> = Vec::new();
        let ghost all = self.data.iter().remaining();
        for e in it: self.data.iter()
            invariant
                all == it.seq(),
                v@.len() == it.index(),
                forall|i: int| #![trigger v@[i]] 0 <= i < v@.len() ==> v@[i] == *all[i],
        {
            v.push(*e);
        }
        proof {
            assert(v@ =~= all.unref());
        }
        v
    }
}


/// Toggling the same node twice leaves the set of ignored nodes as it was.
pub proof fn law_toggle_twice(ex: Set<Entity>, e: Entity)
    ensures
        ({
            let once = if ex.contains(e) { ex.remove(e) } else { ex.insert(e) };
            let twice = if once.contains(e) { once.remove(e) } else { once.insert(e) };
            twice == ex
        }),
{
    let once = if ex.contains(e) { ex.remove(e) } else { ex.insert(e) };
    let twice = if once.contains(e) { once.remove(e) } else { once.insert(e) };
    assert(twice =~= ex);
}

} // verus!
