//! The tables of the simulation and the operations that keep them in step:
//! making nodes and links, deleting links, and giving nodes areas.

use std::collections::HashMap;

use vstd::prelude::*;
use vstd::std_specs::iter::IteratorSpec;

use crate::area::{area_edges_complete, area_edges_sound, AreaGraph, AreaSet};
use crate::error::{Error, Result};
use crate::geom::{areas_ok, covering, first_each, occupied, placed, AreaMap, GridMap, Space};
use crate::graph::{
    link_fits, link_path_spec, link_shape_spec, node_fits, node_space, nodes_ok, Link, LinkSpace, Node,
    NODE_RADIUS,
};
use crate::hex::{coord_ok, hex_distance, Coord};
use crate::network::{add_node, edge_key};
use crate::bits::bitset_ids;
use crate::power::{Pylon, PowerGrid};
use crate::network::EdgeKey;
use crate::reactor::{Progress, Reactor};
use crate::resource::{Pool, Resource, Sink, Source, DEFAULT_CAP, RESOURCE_COUNT};
use crate::util::lemma_push_contains;
use crate::{Entity, Nanos};

verus! {

broadcast use vstd::std_specs::hash::group_hash_axioms;

/// The tables of the network: nodes and links, the cells they take up, the
/// areas nodes watch, and what flows between them.
#[derive(Debug)]
pub struct Network {
    pub nodes: HashMap<Entity, Node>,
    pub links: HashMap<Entity, Link>,
    pub spaces: HashMap<Entity, Space>,
    pub map: GridMap,
    pub areas: AreaMap,
    pub area_sets: HashMap<Entity, AreaSet>,
    pub graphs: HashMap<Entity, AreaGraph>,
    pub sources: HashMap<Entity, Source>,
    pub sinks: HashMap<Entity, Sink>,
}

/// The entities that `a` and `b` both hold, each once.
pub fn common(a: &Vec<Entity>, b: &Vec<Entity>) -> (v: Vec<Entity>)
    ensures
        v@.no_duplicates(),
        forall|e: Entity| #[trigger] v@.contains(e) <==> a@.contains(e) && b@.contains(e),
{
    let mut v: Vec<Entity> = Vec::new();
    let mut i: usize = 0;
    while i < a.len()
        invariant
            i <= a.len(),
            v@.no_duplicates(),
            forall|e: Entity| #[trigger] v@.contains(e) <==> a@.take(i as int).contains(e) && b@.contains(e),
        decreases a.len() - i,
    {
        let e = a[i];
        let mut in_b = false;
        let mut j: usize = 0;
        while j < b.len()
            invariant
                j <= b.len(),
                in_b <==> b@.take(j as int).contains(e),
            decreases b.len() - j,
        {
            proof {
                assert(b@.take(j + 1) =~= b@.take(j as int).push(b@[j as int]));
                lemma_push_contains(b@.take(j as int), b@[j as int], e);
            }
            if b[j] == e {
                in_b = true;
            }
            j += 1;
        }
        let mut in_v = false;
        let mut k: usize = 0;
        while k < v.len()
            invariant
                k <= v.len(),
                in_v <==> v@.take(k as int).contains(e),
            decreases v.len() - k,
        {
            proof {
                assert(v@.take(k + 1) =~= v@.take(k as int).push(v@[k as int]));
                lemma_push_contains(v@.take(k as int), v@[k as int], e);
            }
            if v[k] == e {
                in_v = true;
            }
            k += 1;
        }
        proof {
            assert(b@.take(b@.len() as int) =~= b@);
            assert(v@.take(v@.len() as int) =~= v@);
            assert(a@.take(i + 1) =~= a@.take(i as int).push(e));
        }
        let ghost v0 = v@;
        if in_b && !in_v {
            v.push(e);
        }
        proof {
            assert forall|x: Entity| #[trigger] v@.contains(x) <==> a@.take(i + 1).contains(x) && b@.contains(x) by {
                lemma_push_contains(a@.take(i as int), e, x);
                lemma_push_contains(v0, e, x);
            }
        }
        i += 1;
    }
    proof {
        assert(a@.take(a@.len() as int) =~= a@);
    }
    v
}

impl Network {
    pub fn new() -> (net: Network)
        ensures
            net.nodes@ == Map::<Entity, Node>::empty(),
            net.links@ == Map::<Entity, Link>::empty(),
            net.spaces@ == Map::<Entity, Space>::empty(),
            net.map@ == Map::<Coord, Entity>::empty(),
            net.areas@ == Seq::<crate::geom::Area>::empty(),
            net.area_sets@ == Map::<Entity, AreaSet>::empty(),
            net.graphs@ == Map::<Entity, AreaGraph>::empty(),
            net.sources@ == Map::<Entity, Source>::empty(),
            net.sinks@ == Map::<Entity, Sink>::empty(),
    {
        Network {
            nodes: HashMap::new(),
            links: HashMap::new(),
            spaces: HashMap::new(),
            map: GridMap::new(),
            areas: AreaMap::new(),
            area_sets: HashMap::new(),
            graphs: HashMap::new(),
            sources: HashMap::new(),
            sinks: HashMap::new(),
        }
    }
}

/// The cells within the node radius of `center`.
pub open spec fn node_disk(center: Coord) -> Set<Coord> {
    Set::new(|c: Coord| hex_distance(center, c) <= NODE_RADIUS)
}

impl Network {
    /// Adds the node `ent` at `center`: it takes up the cells around
    /// `center`, and every area that covers `center` and keeps a set of nodes
    /// records it.
    pub fn make_node(&mut self, ent: Entity, center: Coord)
        requires
            coord_ok(center),
            node_fits(old(self).map@, center),
            areas_ok(old(self).areas@),
        ensures
            final(self).nodes@.dom() == old(self).nodes@.dom().insert(ent),
            final(self).nodes@.remove(ent) == old(self).nodes@.remove(ent),
            final(self).nodes@[ent].pos() == center,
            final(self).nodes@[ent].neighbors() == Map::<Entity, Entity>::empty(),
            final(self).spaces@.dom() == old(self).spaces@.dom().insert(ent),
            final(self).spaces@.remove(ent) == old(self).spaces@.remove(ent),
            final(self).spaces@[ent]@.to_set() == node_disk(center),
            final(self).map@ == placed(old(self).map@, final(self).spaces@[ent]@, ent),
            final(self).area_sets@.dom() == old(self).area_sets@.dom(),
            forall|a: Entity| #[trigger] final(self).area_sets@.contains_key(a) ==> {
                let before = old(self).area_sets@[a];
                let after = final(self).area_sets@[a];
                &&& after.center == before.center
                &&& after.radius == before.radius
                &&& after.data@ == if covering(old(self).areas@, center).contains(a) {
                    before.data@.insert(ent)
                } else {
                    before.data@
                }
            },
            final(self).links@ == old(self).links@,
            final(self).areas@ == old(self).areas@,
            final(self).graphs@ == old(self).graphs@,
            final(self).sources@ == old(self).sources@,
            final(self).sinks@ == old(self).sinks@,
    {
        self.nodes.insert(ent, Node::new(center));
        let cells = node_space(center);
        let space = Space::new(cells);
        proof {
            assert(space@.to_set() =~= node_disk(center));
            assert(!occupied(self.map@, space@)) by {
                if occupied(self.map@, space@) {
                    let c = choose|c: Coord| #[trigger] space@.contains(c) && self.map@.contains_key(c);
                    assert(space@.to_set().contains(c));
                }
            }
        }
        let r = self.map.set(&mut self.spaces, ent, space);
        let found = self.areas.find(center);
        let ghost sets0 = self.area_sets@;
        let ghost nodes1 = self.nodes@;
        let ghost spaces1 = self.spaces@;
        let ghost map1 = self.map@;
        let mut i: usize = 0;
        while i < found.len()
            invariant
                i <= found.len(),
                self.nodes@ == nodes1,
                self.spaces@ == spaces1,
                self.map@ == map1,
                self.links@ == old(self).links@,
                self.areas@ == old(self).areas@,
                self.graphs@ == old(self).graphs@,
                self.sources@ == old(self).sources@,
                self.sinks@ == old(self).sinks@,
                found@ == covering(self.areas@, center),
                self.area_sets@.dom() == sets0.dom(),
                forall|a: Entity| #[trigger] self.area_sets@.contains_key(a) ==> {
                    let before = sets0[a];
                    let after = self.area_sets@[a];
                    &&& after.center == before.center
                    &&& after.radius == before.radius
                    &&& after.data@ == if found@.take(i as int).contains(a) {
                        before.data@.insert(ent)
                    } else {
                        before.data@
                    }
                },
            decreases found.len() - i,
        {
            let a = found[i];
            proof {
                assert(found@.take(i + 1) =~= found@.take(i as int).push(a));
            }
            let ghost sets1 = self.area_sets@;
            match self.area_sets.remove(&a) {
                Some(mut set) => {
                    set.data.insert(ent);
                    self.area_sets.insert(a, set);
                },
                None => {},
            }
            proof {
                assert(self.area_sets@.dom() =~= sets0.dom());
                assert forall|x: Entity| #[trigger] self.area_sets@.contains_key(x) implies {
                    let before = sets0[x];
                    let after = self.area_sets@[x];
                    &&& after.center == before.center
                    &&& after.radius == before.radius
                    &&& after.data@ == if found@.take(i + 1).contains(x) {
                        before.data@.insert(ent)
                    } else {
                        before.data@
                    }
                } by {
                    lemma_push_contains(found@.take(i as int), a, x);
                    if x == a && found@.take(i as int).contains(a) {
                        assert(sets1[a].data@.insert(ent) =~= sets1[a].data@);
                    }
                }
            }
            i += 1;
        }
        proof {
            assert(found@.take(found@.len() as int) =~= found@);
            assert(self.nodes@.dom() =~= old(self).nodes@.dom().insert(ent));
            assert(self.nodes@.remove(ent) =~= old(self).nodes@.remove(ent));
            assert(self.spaces@.dom() =~= old(self).spaces@.dom().insert(ent));
            assert(self.spaces@.remove(ent) =~= old(self).spaces@.remove(ent));
        }
    }
}

/// The graph `after` is `before` with the link `ent` between `from` and `to`
/// added, and no route remembered.
pub open spec fn linked_graph(before: AreaGraph, after: AreaGraph, from: Entity, to: Entity, ent: Entity) -> bool {
    &&& after.center == before.center
    &&& after.radius == before.radius
    &&& after.exclude == before.exclude
    &&& after.data.edges() == before.data.edges().insert(edge_key(from, to), ent)
    &&& after.data.node_seq() == add_node(add_node(before.data.node_seq(), from), to)
    &&& after.data.cache_ok()
    &&& forall|a: Entity, b: Entity| #[trigger] after.data.cached(a, b) is None
}

/// The graph `after` is `before` without the edge between `from` and `to`.
pub open spec fn unlinked_graph(before: AreaGraph, after: AreaGraph, from: Entity, to: Entity) -> bool {
    &&& after.center == before.center
    &&& after.radius == before.radius
    &&& after.exclude == before.exclude
    &&& after.data.edges() == before.data.edges().remove(edge_key(from, to))
    &&& after.data.node_seq() == before.data.node_seq()
    &&& after.data.cache_ok()
}

impl Network {
    /// Adds the link `ent` from node `from` to node `to`: it takes up the cells
    /// of its shape, both nodes record it, and the graph of every area that
    /// covers both nodes gains it.
    pub fn make_link(&mut self, ent: Entity, from: Entity, to: Entity)
        requires
            nodes_ok(old(self).nodes@),
            old(self).nodes@.contains_key(from),
            old(self).nodes@.contains_key(to),
            link_fits(old(self).map@, old(self).nodes@[from].pos(), old(self).nodes@[to].pos()),
            areas_ok(old(self).areas@),
        ensures
            ({
                let fp = old(self).nodes@[from].pos();
                let tp = old(self).nodes@[to].pos();
                &&& final(self).links@ == old(self).links@.insert(ent, final(self).links@[ent])
                &&& final(self).links@[ent].from == from
                &&& final(self).links@[ent].to == to
                &&& final(self).links@[ent].path@ == link_path_spec(fp, tp)
                &&& final(self).spaces@ == old(self).spaces@.insert(ent, final(self).spaces@[ent])
                &&& final(self).spaces@[ent]@ == first_each(link_shape_spec(fp, tp))
                &&& final(self).spaces@[ent]@.to_set() == link_shape_spec(fp, tp).to_set()
                &&& final(self).map@ == placed(old(self).map@, final(self).spaces@[ent]@, ent)
                &&& final(self).graphs@.dom() == old(self).graphs@.dom()
                &&& forall|g: Entity| #[trigger] final(self).graphs@.contains_key(g) ==> if covering(
                    old(self).areas@,
                    fp,
                ).contains(g) && covering(old(self).areas@, tp).contains(g) {
                    linked_graph(old(self).graphs@[g], final(self).graphs@[g], from, to, ent)
                } else {
                    final(self).graphs@[g] == old(self).graphs@[g]
                }
            }),
            final(self).nodes@.dom() == old(self).nodes@.dom(),
            forall|x: Entity| #[trigger] final(self).nodes@.contains_key(x) ==> final(self).nodes@[x].pos() == old(self).nodes@[x].pos(),
            final(self).nodes@[from].neighbors() == old(self).nodes@[from].neighbors().insert(to, ent),
            final(self).nodes@[to].neighbors() == old(self).nodes@[to].neighbors().insert(from, ent),
            forall|x: Entity| #[trigger] final(self).nodes@.contains_key(x) && x != from && x != to ==> final(self).nodes@[x]
                == old(self).nodes@[x],
            final(self).areas@ == old(self).areas@,
            final(self).area_sets@ == old(self).area_sets@,
            final(self).sources@ == old(self).sources@,
            final(self).sinks@ == old(self).sinks@,
    {
        let ls = match LinkSpace::new(&self.nodes, from, to) {
            Ok(ls) => ls,
            Err(_) => vstd::pervasive::unreached(),
        };
        let ghost fp = ls.from;
        let ghost tp = ls.to;
        let link = Link { from, to, path: ls.path };
        let space = Space::new(ls.shape);
        proof {
            assert(!occupied(self.map@, space@)) by {
                if occupied(self.map@, space@) {
                    let c = choose|c: Coord| #[trigger] space@.contains(c) && self.map@.contains_key(c);
                    assert(space@.to_set().contains(c));
                    assert(link_shape_spec(fp, tp).to_set().contains(c));
                }
            }
        }
        let _ = self.map.set(&mut self.spaces, ent, space);
        let found_from = self.areas.find(ls.from);
        let found_to = self.areas.find(ls.to);
        let both = common(&found_from, &found_to);
        let ghost graphs0 = self.graphs@;
        let ghost spaces1 = self.spaces@;
        let ghost map1 = self.map@;
        let mut i: usize = 0;
        while i < both.len()
            invariant
                i <= both.len(),
                both@.no_duplicates(),
                forall|e: Entity| #[trigger] both@.contains(e) <==> covering(old(self).areas@, fp).contains(e)
                    && covering(old(self).areas@, tp).contains(e),
                link.from == from,
                link.to == to,
                self.graphs@.dom() == graphs0.dom(),
                forall|g: Entity| #[trigger] self.graphs@.contains_key(g) ==> if both@.take(i as int).contains(g) {
                    linked_graph(graphs0[g], self.graphs@[g], from, to, ent)
                } else {
                    self.graphs@[g] == graphs0[g]
                },
                self.nodes@ == old(self).nodes@,
                self.spaces@ == spaces1,
                self.map@ == map1,
                self.links@ == old(self).links@,
                self.areas@ == old(self).areas@,
                self.area_sets@ == old(self).area_sets@,
                self.sources@ == old(self).sources@,
                self.sinks@ == old(self).sinks@,
            decreases both.len() - i,
        {
            let g = both[i];
            proof {
                assert(both@.take(i + 1) =~= both@.take(i as int).push(g));
                assert(!both@.take(i as int).contains(g)) by {
                    if both@.take(i as int).contains(g) {
                        let j = choose|j: int| 0 <= j < i && both@.take(i as int)[j] == g;
                        assert(both@[j] == both@[i as int]);
                    }
                }
            }
            let ghost graphs1 = self.graphs@;
            match self.graphs.remove(&g) {
                Some(mut ag) => {
                    ag.data.add_link(&link, ent);
                    self.graphs.insert(g, ag);
                },
                None => {},
            }
            proof {
                assert(self.graphs@.dom() =~= graphs0.dom());
                assert forall|x: Entity| #[trigger] self.graphs@.contains_key(x) implies if both@.take(i + 1).contains(x) {
                    linked_graph(graphs0[x], self.graphs@[x], from, to, ent)
                } else {
                    self.graphs@[x] == graphs0[x]
                } by {
                    lemma_push_contains(both@.take(i as int), g, x);
                }
            }
            i += 1;
        }
        proof {
            assert(both@.take(both@.len() as int) =~= both@);
        }
        let ghost nodes0 = self.nodes@;
        match self.nodes.remove(&from) {
            Some(mut n) => {
                n.add_link(to, ent);
                self.nodes.insert(from, n);
            },
            None => {},
        }
        let ghost nodes1 = self.nodes@;
        match self.nodes.remove(&to) {
            Some(mut n) => {
                n.add_link(from, ent);
                self.nodes.insert(to, n);
            },
            None => {},
        }
        proof {
            assert(self.nodes@.dom() =~= old(self).nodes@.dom());
            if from == to {
                assert(nodes0[from].neighbors().insert(to, ent).insert(from, ent) =~= nodes0[from].neighbors().insert(to, ent));
            }
        }
        let ghost path = link.path@;
        self.links.insert(ent, link);
        proof {
            assert(self.links@ =~= old(self).links@.insert(ent, self.links@[ent]));
            assert(self.spaces@ =~= old(self).spaces@.insert(ent, self.spaces@[ent]));
        }
    }
}

impl Network {
    /// Deletes the link `link_ent` from the map and from the graph of every
    /// area that covers both its nodes; the link itself and the nodes' record
    /// of it stay.
    pub fn delete_link(&mut self, link_ent: Entity)
        requires
            nodes_ok(old(self).nodes@),
            areas_ok(old(self).areas@),
            old(self).spaces@.contains_key(link_ent),
            old(self).links@.contains_key(link_ent),
            old(self).nodes@.contains_key(old(self).links@[link_ent].from),
            old(self).nodes@.contains_key(old(self).links@[link_ent].to),
            ({
                let link = old(self).links@[link_ent];
                let fp = old(self).nodes@[link.from].pos();
                let tp = old(self).nodes@[link.to].pos();
                forall|g: Entity|
                    #[trigger] old(self).graphs@.contains_key(g) && covering(old(self).areas@, fp).contains(g)
                        && covering(old(self).areas@, tp).contains(g) ==> {
                        &&& old(self).graphs@[g].data.cache_ok()
                        &&& old(self).graphs@[g].data.edges().contains_key(edge_key(link.from, link.to))
                        &&& old(self).graphs@[g].data.edges()[edge_key(link.from, link.to)] == link_ent
                    }
            }),
        ensures
            final(self).map@ == old(self).map@.remove_keys(old(self).spaces@[link_ent]@.to_set()),
            final(self).spaces@ == old(self).spaces@.remove(link_ent),
            ({
                let link = old(self).links@[link_ent];
                let fp = old(self).nodes@[link.from].pos();
                let tp = old(self).nodes@[link.to].pos();
                &&& final(self).graphs@.dom() == old(self).graphs@.dom()
                &&& forall|g: Entity| #[trigger] final(self).graphs@.contains_key(g) ==> if covering(
                    old(self).areas@,
                    fp,
                ).contains(g) && covering(old(self).areas@, tp).contains(g) {
                    unlinked_graph(old(self).graphs@[g], final(self).graphs@[g], link.from, link.to)
                } else {
                    final(self).graphs@[g] == old(self).graphs@[g]
                }
            }),
            final(self).nodes@ == old(self).nodes@,
            final(self).links@ == old(self).links@,
            final(self).areas@ == old(self).areas@,
            final(self).area_sets@ == old(self).area_sets@,
            final(self).sources@ == old(self).sources@,
            final(self).sinks@ == old(self).sinks@,
    {
        let _ = self.map.clear(&mut self.spaces, link_ent);
        let (from, to) = match self.links.get(&link_ent) {
            Some(l) => (l.from, l.to),
            None => vstd::pervasive::unreached(),
        };
        let fp = match self.nodes.get(&from) {
            Some(n) => n.at(),
            None => vstd::pervasive::unreached(),
        };
        let tp = match self.nodes.get(&to) {
            Some(n) => n.at(),
            None => vstd::pervasive::unreached(),
        };
        let found_from = self.areas.find(fp);
        let found_to = self.areas.find(tp);
        let both = common(&found_from, &found_to);
        let ghost graphs0 = self.graphs@;
        let ghost spaces1 = self.spaces@;
        let ghost map1 = self.map@;
        let mut i: usize = 0;
        while i < both.len()
            invariant
                i <= both.len(),
                both@.no_duplicates(),
                forall|e: Entity| #[trigger] both@.contains(e) <==> covering(old(self).areas@, fp).contains(e)
                    && covering(old(self).areas@, tp).contains(e),
                forall|g: Entity|
                    #[trigger] graphs0.contains_key(g) && covering(old(self).areas@, fp).contains(g)
                        && covering(old(self).areas@, tp).contains(g) ==> {
                        &&& graphs0[g].data.cache_ok()
                        &&& graphs0[g].data.edges().contains_key(edge_key(from, to))
                        &&& graphs0[g].data.edges()[edge_key(from, to)] == link_ent
                    },
                self.graphs@.dom() == graphs0.dom(),
                forall|g: Entity| #[trigger] self.graphs@.contains_key(g) ==> if both@.take(i as int).contains(g) {
                    unlinked_graph(graphs0[g], self.graphs@[g], from, to)
                } else {
                    self.graphs@[g] == graphs0[g]
                },
                self.nodes@ == old(self).nodes@,
                self.spaces@ == spaces1,
                self.map@ == map1,
                self.links@ == old(self).links@,
                self.areas@ == old(self).areas@,
                self.area_sets@ == old(self).area_sets@,
                self.sources@ == old(self).sources@,
                self.sinks@ == old(self).sinks@,
            decreases both.len() - i,
        {
            let g = both[i];
            proof {
                assert(both@.take(i + 1) =~= both@.take(i as int).push(g));
                assert(!both@.take(i as int).contains(g)) by {
                    if both@.take(i as int).contains(g) {
                        let j = choose|j: int| 0 <= j < i && both@.take(i as int)[j] == g;
                        assert(both@[j] == both@[i as int]);
                    }
                }
                assert(both@.contains(g));
            }
            match self.graphs.remove(&g) {
                Some(mut ag) => {
                    let _ = ag.data.remove_link(from, to);
                    self.graphs.insert(g, ag);
                },
                None => {},
            }
            proof {
                assert(self.graphs@.dom() =~= graphs0.dom());
                assert forall|x: Entity| #[trigger] self.graphs@.contains_key(x) implies if both@.take(i + 1).contains(x) {
                    unlinked_graph(graphs0[x], self.graphs@[x], from, to)
                } else {
                    self.graphs@[x] == graphs0[x]
                } by {
                    lemma_push_contains(both@.take(i as int), g, x);
                }
            }
            i += 1;
        }
        proof {
            assert(both@.take(both@.len() as int) =~= both@);
        }
    }
}

impl AreaGraph {
    /// Gives node `parent` the routing graph of the nodes within `range` of
    /// it, and the area it watches.  Fails with `NoSuchComponent`, changing
    /// nothing, when `parent` is not a node.
    pub fn add(net: &mut Network, parent: Entity, range: i32) -> (r: Result<()>)
        requires
            nodes_ok(old(net).nodes@),
        ensures
            r is Ok <==> old(net).nodes@.contains_key(parent),
            r is Err ==> r == Err::<(), Error>(Error::NoSuchComponent) && *final(net) == *old(net),
            r is Ok ==> {
                let center = old(net).nodes@[parent].pos();
                let ag = final(net).graphs@[parent];
                &&& final(net).graphs@ == old(net).graphs@.insert(parent, ag)
                &&& ag.center == center
                &&& ag.radius == range
                &&& ag.excluded() == Set::<Entity>::empty()
                &&& ag.data.cache_ok()
                &&& area_edges_sound(ag.data.edges(), old(net).nodes@, center, range as int)
                &&& area_edges_complete(ag.data.edges(), old(net).nodes@, center, range as int)
                &&& final(net).areas@ == old(net).areas@.push(crate::geom::area_of(center, range, parent))
                &&& final(net).nodes@ == old(net).nodes@
                &&& final(net).links@ == old(net).links@
                &&& final(net).spaces@ == old(net).spaces@
                &&& final(net).map@ == old(net).map@
                &&& final(net).area_sets@ == old(net).area_sets@
                &&& final(net).sources@ == old(net).sources@
                &&& final(net).sinks@ == old(net).sinks@
            },
    {
        let center = match crate::util::try_get(&net.nodes, parent) {
            Ok(n) => n.at(),
            Err(e) => {
                return Err(e);
            },
        };
        let ag = AreaGraph::new(center, range, &net.nodes);
        net.areas.insert(center, range, parent);
        net.graphs.insert(parent, ag);
        proof {
            assert(net.graphs@ =~= old(net).graphs@.insert(parent, net.graphs@[parent]));
        }
        Ok(())
    }
}

impl AreaSet {
    /// Gives node `parent` the set of the nodes within `range` of it, and the
    /// area it watches.  Fails with `NoSuchComponent`, changing nothing, when
    /// `parent` is not a node.
    pub fn add(net: &mut Network, parent: Entity, range: i32) -> (r: Result<()>)
        requires
            nodes_ok(old(net).nodes@),
        ensures
            r is Ok <==> old(net).nodes@.contains_key(parent),
            r is Err ==> r == Err::<(), Error>(Error::NoSuchComponent) && *final(net) == *old(net),
            r is Ok ==> {
                let center = old(net).nodes@[parent].pos();
                let a = final(net).area_sets@[parent];
                &&& final(net).area_sets@ == old(net).area_sets@.insert(parent, a)
                &&& a.center == center
                &&& a.radius == range
                &&& a.data@ == Set::new(|e: Entity| crate::area::in_area(old(net).nodes@, center, range as int, e))
                &&& final(net).areas@ == old(net).areas@.push(crate::geom::area_of(center, range, parent))
                &&& final(net).nodes@ == old(net).nodes@
                &&& final(net).links@ == old(net).links@
                &&& final(net).spaces@ == old(net).spaces@
                &&& final(net).map@ == old(net).map@
                &&& final(net).graphs@ == old(net).graphs@
                &&& final(net).sources@ == old(net).sources@
                &&& final(net).sinks@ == old(net).sinks@
            },
    {
        let center = match crate::util::try_get(&net.nodes, parent) {
            Ok(n) => n.at(),
            Err(e) => {
                return Err(e);
            },
        };
        let mut a = AreaSet::new(center, range);
        let ghost all = net.nodes.iter().remaining();
        for pair in it: net.nodes.iter()
            invariant
                all == it.seq(),
                coord_ok(center),
                nodes_ok(net.nodes@),
                a.center == center,
                a.radius == range,
                forall|i: int|
                    #![trigger all[i]]
                    0 <= i < all.len() ==> net.nodes@.contains_key(*all[i].0) && net.nodes@[*all[i].0] == *all[i].1,
                forall|k: Entity| #[trigger] net.nodes@.contains_key(k) ==> all.contains((&k, &net.nodes@[k])),
                forall|e: Entity| #[trigger] a.data@.contains(e) <==> exists|i: int|
                    0 <= i < it.index() && *all[i].0 == e && crate::area::in_area(net.nodes@, center, range as int, e),
        {
            let e = *pair.0;
            assert(all[it.index() as int] == pair);
            let ghost d0 = a.data@;
            if center.distance(pair.1.at()) <= range {
                a.data.insert(e);
            }
            proof {
                assert forall|x: Entity| #[trigger] a.data@.contains(x) <==> exists|i: int|
                    0 <= i < it.index() + 1 && *all[i].0 == x && crate::area::in_area(net.nodes@, center, range as int, x) by {
                    if a.data@.contains(x) && !d0.contains(x) {
                        assert(x == e);
                        assert(*all[it.index() as int].0 == x);
                    }
                    if exists|i: int| 0 <= i < it.index() + 1 && *all[i].0 == x && crate::area::in_area(net.nodes@, center, range as int, x) {
                        let i = choose|i: int| 0 <= i < it.index() + 1 && *all[i].0 == x && crate::area::in_area(net.nodes@, center, range as int, x);
                        if i < it.index() {
                            assert(d0.contains(x));
                        }
                    }
                }
            }
        }
        proof {
            assert(a.data@ =~= Set::new(|e: Entity| crate::area::in_area(net.nodes@, center, range as int, e))) by {
                assert forall|e: Entity| crate::area::in_area(net.nodes@, center, range as int, e) implies #[trigger] a.data@.contains(e) by {
                    assert(all.contains((&e, &net.nodes@[e])));
                    let i = choose|i: int| 0 <= i < all.len() && all[i] == (&e, &net.nodes@[e]);
                    assert(*all[i].0 == e);
                }
            }
        }
        net.areas.insert(center, range, parent);
        net.area_sets.insert(parent, a);
        proof {
            assert(net.area_sets@ =~= old(net).area_sets@.insert(parent, net.area_sets@[parent]));
        }
        Ok(())
    }
}

impl Source {
    /// Makes node `entity` a source holding `has`, offering to the nodes within
    /// `range` of it.
    pub fn add(net: &mut Network, entity: Entity, has: Pool, range: i32)
        requires
            nodes_ok(old(net).nodes@),
            old(net).nodes@.contains_key(entity),
        ensures
            final(net).sources@ == old(net).sources@.insert(entity, final(net).sources@[entity]),
            final(net).sources@[entity].has == has,
            final(net).sources@[entity].sent() == Map::<Entity, crate::Nanos>::empty(),
            ({
                let center = old(net).nodes@[entity].pos();
                let ag = final(net).graphs@[entity];
                &&& final(net).graphs@ == old(net).graphs@.insert(entity, ag)
                &&& ag.center == center
                &&& ag.radius == range
                &&& ag.excluded() == Set::<Entity>::empty()
                &&& ag.data.cache_ok()
                &&& area_edges_sound(ag.data.edges(), old(net).nodes@, center, range as int)
                &&& area_edges_complete(ag.data.edges(), old(net).nodes@, center, range as int)
                &&& final(net).areas@ == old(net).areas@.push(crate::geom::area_of(center, range, entity))
            }),
            final(net).nodes@ == old(net).nodes@,
            final(net).links@ == old(net).links@,
            final(net).spaces@ == old(net).spaces@,
            final(net).map@ == old(net).map@,
            final(net).area_sets@ == old(net).area_sets@,
            final(net).sinks@ == old(net).sinks@,
    {
        let _ = AreaGraph::add(net, entity, range);
        net.sources.insert(entity, Source::new(has));
        proof {
            assert(net.sources@ =~= old(net).sources@.insert(entity, net.sources@[entity]));
        }
    }
}

impl Reactor {
    /// Makes node `entity` a reactor turning `input` into `output` every
    /// `delay`: an empty source offering to the nodes within `range`, a sink
    /// wanting the input, no work under way, and the reactor itself.
    pub fn add(
        net: &mut Network,
        reactors: &mut HashMap<Entity, Reactor>,
        progs: &mut HashMap<Entity, Progress>,
        entity: Entity,
        input: Pool,
        delay: Nanos,
        output: Pool,
        range: i32,
    )
        requires
            nodes_ok(old(net).nodes@),
            old(net).nodes@.contains_key(entity),
        ensures
            final(net).sources@ == old(net).sources@.insert(entity, final(net).sources@[entity]),
            forall|r: Resource| #[trigger] final(net).sources@[entity].has.amount(r) == 0
                && final(net).sources@[entity].has.limit(r) == DEFAULT_CAP,
            final(net).sources@[entity].sent() == Map::<Entity, Nanos>::empty(),
            final(net).graphs@.dom() == old(net).graphs@.dom().insert(entity),
            final(net).sinks@ == old(net).sinks@.insert(entity, final(net).sinks@[entity]),
            final(net).sinks@[entity].want == input,
            forall|r: Resource| #[trigger] final(net).sinks@[entity].has.amount(r) == 0
                && final(net).sinks@[entity].in_transit.amount(r) == 0,
            final(progs)@ == old(progs)@.insert(entity, final(progs)@[entity]),
            final(progs)@[entity].made is None,
            final(reactors)@ == old(reactors)@.insert(entity, final(reactors)@[entity]),
            final(reactors)@[entity].input == input,
            final(reactors)@[entity].delay == delay,
            final(reactors)@[entity].output == output,
            forall|id: u32| #[trigger] bitset_ids(final(reactors)@[entity].targets).contains(id) <==> id < RESOURCE_COUNT,
            final(net).nodes@ == old(net).nodes@,
            final(net).links@ == old(net).links@,
            final(net).map@ == old(net).map@,
    {
        Source::add(net, entity, Pool::new(), range);
        let mut sink = Sink::new();
        sink.want = input;
        net.sinks.insert(entity, sink);
        progs.insert(entity, Progress::new());
        reactors.insert(entity, Reactor::new(input, delay, output));
        proof {
            assert(net.sinks@ =~= old(net).sinks@.insert(entity, net.sinks@[entity]));
            assert(progs@ =~= old(progs)@.insert(entity, progs@[entity]));
            assert(reactors@ =~= old(reactors)@.insert(entity, reactors@[entity]));
        }
    }
}

/// The keys of the links from `e` to each of `s`.
pub open spec fn link_keys(e: Entity, s: Set<Entity>) -> Set<EdgeKey> {
    Set::new(|k: EdgeKey| exists|x: Entity| #[trigger] s.contains(x) && k == edge_key(e, x))
}

/// The pylons whose areas overlap the disk of radius `range` around `at`.
pub open spec fn overlapping_pylons(
    areas: Seq<crate::geom::Area>,
    pylons: Map<Entity, Pylon>,
    at: Coord,
    range: int,
) -> Set<Entity> {
    Set::new(|e: Entity| crate::geom::overlapping(areas, at, range).contains(e) && pylons.contains_key(e))
}

impl Pylon {
    /// Makes node `entity` a pylon of range `range`: it is joined in the grid
    /// to every pylon whose area overlaps its own, and watches the nodes
    /// within its range.
    pub fn add(
        net: &mut Network,
        grid: &mut PowerGrid,
        pylons: &mut HashMap<Entity, Pylon>,
        entity: Entity,
        range: i32,
    )
        requires
            nodes_ok(old(net).nodes@),
            areas_ok(old(net).areas@),
            old(net).nodes@.contains_key(entity),
            old(grid).wf(),
        ensures
            ({
                let at = old(net).nodes@[entity].pos();
                let others = overlapping_pylons(old(net).areas@, old(pylons)@, at, range as int);
                &&& final(grid).wf()
                &&& final(grid).links_spec() == old(grid).links_spec().union(
                    link_keys(entity, others),
                )
                &&& final(grid).pylons() == if others.is_empty() {
                    old(grid).pylons()
                } else {
                    old(grid).pylons().union(others).insert(entity)
                }
                &&& final(net).area_sets@.contains_key(entity)
                &&& final(net).area_sets@[entity].data@ == Set::new(
                    |e: Entity| crate::area::in_area(old(net).nodes@, at, range as int, e),
                )
                &&& final(net).areas@ == old(net).areas@.push(crate::geom::area_of(at, range, entity))
            }),
            final(pylons)@ == old(pylons)@.insert(entity, Pylon { range }),
            final(net).nodes@ == old(net).nodes@,
            final(net).links@ == old(net).links@,
            final(net).map@ == old(net).map@,
            final(net).graphs@ == old(net).graphs@,
            final(net).sources@ == old(net).sources@,
            final(net).sinks@ == old(net).sinks@,
    {
        let at = match net.nodes.get(&entity) {
            Some(n) => n.at(),
            None => vstd::pervasive::unreached(),
        };
        let found = net.areas.find_overlap(at, range);
        let ghost others = overlapping_pylons(net.areas@, pylons@, at, range as int);
        let ghost links0 = grid.links_spec();
        let ghost pyl0 = grid.pylons();
        let mut i: usize = 0;
        while i < found.len()
            invariant
                i <= found.len(),
                found@ == crate::geom::overlapping(old(net).areas@, at, range as int),
                others == overlapping_pylons(old(net).areas@, pylons@, at, range as int),
                grid.wf(),
                ({
                    let done = Set::new(|e: Entity| found@.take(i as int).contains(e) && pylons@.contains_key(e));
                    &&& grid.links_spec() == links0.union(link_keys(entity, done))
                    &&& grid.pylons() == if done.is_empty() {
                        pyl0
                    } else {
                        pyl0.union(done).insert(entity)
                    }
                }),
            decreases found.len() - i,
        {
            let o = found[i];
            let ghost done0 = Set::new(|e: Entity| found@.take(i as int).contains(e) && pylons@.contains_key(e));
            let ghost done1 = Set::new(|e: Entity| found@.take(i + 1).contains(e) && pylons@.contains_key(e));
            proof {
                assert(found@.take(i + 1) =~= found@.take(i as int).push(o));
                assert forall|e: Entity| done1.contains(e) <==> done0.contains(e) || (e == o && pylons@.contains_key(o)) by {
                    lemma_push_contains(found@.take(i as int), o, e);
                }
            }
            if pylons.contains_key(&o) {
                grid.add_link(entity, o);
                proof {
                    assert(done1 =~= done0.insert(o));
                    assert(link_keys(entity, done1) =~= link_keys(entity, done0).insert(edge_key(entity, o))) by {
                        assert forall|k: EdgeKey| #[trigger] link_keys(entity, done1).contains(k) implies link_keys(entity, done0).insert(edge_key(entity, o)).contains(k) by {
                            let x = choose|x: Entity| #[trigger] done1.contains(x) && k == edge_key(entity, x);
                            if x != o {
                                assert(done0.contains(x));
                            }
                        }
                        assert forall|k: EdgeKey| #[trigger] link_keys(entity, done0).insert(edge_key(entity, o)).contains(k) implies link_keys(entity, done1).contains(k) by {
                            if k == edge_key(entity, o) {
                                assert(done1.contains(o));
                            } else {
                                let x = choose|x: Entity| #[trigger] done0.contains(x) && k == edge_key(entity, x);
                                assert(done1.contains(x));
                            }
                        }
                    }
                    assert(grid.links_spec() =~= links0.union(link_keys(entity, done1)));
                    assert(!done1.is_empty()) by {
                        assert(done1.contains(o));
                    }
                    if done0.is_empty() {
                        assert(done1 =~= set![o]);
                        assert(grid.pylons() =~= pyl0.union(done1).insert(entity));
                    } else {
                        assert(grid.pylons() =~= pyl0.union(done1).insert(entity));
                    }
                }
            } else {
                proof {
                    assert(done1 =~= done0);
                }
            }
            i += 1;
        }
        proof {
            assert(found@.take(found@.len() as int) =~= found@);
            assert(Set::new(|e: Entity| found@.take(found@.len() as int).contains(e) && pylons@.contains_key(e)) =~= others);
        }
        let ghost grid_links = grid.links_spec();
        let _ = AreaSet::add(net, entity, range);
        pylons.insert(entity, Pylon { range });
        proof {
            assert(pylons@ =~= old(pylons)@.insert(entity, Pylon { range }));
        }
    }
}


/// Making a link and then deleting it gives back the map it was made on, and
/// every area graph that gained it and had no edge between its nodes before
/// gets back the edges it had.
pub proof fn law_make_then_delete_link(
    m0: Map<Coord, Entity>,
    shape: Seq<Coord>,
    ent: Entity,
    g0: AreaGraph,
    g1: AreaGraph,
    g2: AreaGraph,
    from: Entity,
    to: Entity,
)
    requires
        !occupied(m0, shape),
        linked_graph(g0, g1, from, to, ent),
        unlinked_graph(g1, g2, from, to),
        !g0.data.edges().contains_key(edge_key(from, to)),
    ensures
        placed(m0, shape, ent).remove_keys(shape.to_set()) == m0,
        g2.data.edges() == g0.data.edges(),
        g2.center == g0.center && g2.radius == g0.radius && g2.exclude == g0.exclude,
{
    crate::geom::law_clear_undoes_set(m0, shape, ent);
    assert(g2.data.edges() =~= g0.data.edges());
}

} // verus!
