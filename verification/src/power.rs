//! The power grid: pylons joined when their areas overlap, and the nodes a
//! connected group of pylons covers.

use std::collections::{HashMap, VecDeque};

use hibitset::BitSet;
use petgraph::graphmap::GraphMap;
use petgraph::Undirected;

use vstd::prelude::*;

use crate::area::AreaSet;
use crate::bits::{bitset_add, bitset_ids, bitset_new, MAX_ID};
use crate::network::{edge_key, EdgeKey};
use crate::Entity;

verus! {

broadcast use vstd::std_specs::hash::group_hash_axioms;

/// The undirected graph of pylons.
pub type GridGraph = GraphMap<Entity, (), Undirected>;

/// The pairs of pylons a grid joins, each by `edge_key`.
pub uninterp spec fn grid_links(g: GridGraph) -> Set<EdgeKey>;

/// The pylons a grid holds.
pub uninterp spec fn grid_pylons(g: GridGraph) -> Set<Entity>;

/// `GraphMap::new`: no pylons, no links.
#[verifier::external_body]
fn grid_new() -> (g: GridGraph)
    ensures
        grid_links(g) == Set::<EdgeKey>::empty(),
        grid_pylons(g) == Set::<Entity>::empty(),
{
    GraphMap::new()
}

/// `GraphMap::add_edge`: stores the link under its key and records both ends.
#[verifier::external_body]
fn grid_add_edge(g: &mut GridGraph, a: Entity, b: Entity)
    ensures
        grid_links(*final(g)) == grid_links(*old(g)).insert(edge_key(a, b)),
        grid_pylons(*final(g)) == grid_pylons(*old(g)).insert(a).insert(b),
{
    g.add_edge(a, b, ());
}

/// `GraphMap::neighbors` on an undirected graph: the adjacency list of `a`
/// holds one entry per link that touches `a`, the other end, so each pylon
/// linked to `a` comes out once.
#[verifier::external_body]
fn grid_neighbors(g: &GridGraph, a: Entity) -> (v: Vec<Entity>)
    ensures
        v@.no_duplicates(),
        forall|m: Entity| #[trigger] v@.contains(m) <==> grid_links(*g).contains(edge_key(a, m)),
{
    g.neighbors(a).collect()
}

/// The index part of an entity, which bit sets of entities hold.
pub open spec fn entity_id(e: Entity) -> u32 {
    (e % 0x1_0000_0000) as u32
}

fn id_of(e: Entity) -> (id: u32)
    ensures
        id == entity_id(e),
{
    (e % 0x1_0000_0000u64) as u32
}

/// Pylons joined when their areas overlap.
#[derive(Debug)]
pub struct PowerGrid {
    graph: GridGraph,
}

impl PowerGrid {
    /// The links of the grid, by key.
    pub closed spec fn links_spec(&self) -> Set<EdgeKey> {
        grid_links(self.graph)
    }

    /// The pylons of the grid.
    pub closed spec fn pylons(&self) -> Set<Entity> {
        grid_pylons(self.graph)
    }

    /// The grid knows finitely many pylons, and both ends of each link.
    pub open spec fn wf(&self) -> bool {
        &&& self.pylons().finite()
        &&& forall|k: EdgeKey| #[trigger]
            self.links_spec().contains(k) ==> self.pylons().contains(k.0) && self.pylons().contains(k.1)
    }

    pub fn new() -> (g: PowerGrid)
        ensures
            g.wf(),
            g.links_spec() == Set::<EdgeKey>::empty(),
            g.pylons() == Set::<Entity>::empty(),
    {
        PowerGrid { graph: grid_new() }
    }

    /// Joins the pylons `from` and `to`.
    pub fn add_link(&mut self, from: Entity, to: Entity)
        requires
            old(self).wf(),
        ensures
            final(self).wf(),
            final(self).links_spec() == old(self).links_spec().insert(edge_key(from, to)),
            final(self).pylons() == old(self).pylons().insert(from).insert(to),
    {
        grid_add_edge(&mut self.graph, from, to);
        proof {
            assert forall|k: EdgeKey| #[trigger] self.links_spec().contains(k) implies self.pylons().contains(k.0)
                && self.pylons().contains(k.1) by {
                if k != edge_key(from, to) {
                    assert(old(self).links_spec().contains(k));
                }
            }
        }
    }

    /// The pylons joined to `from`, each once.
    pub fn links(&self, from: Entity) -> (v: Vec<Entity>)
        ensures
            v@.no_duplicates(),
            forall|m: Entity| #[trigger] v@.contains(m) <==> self.links_spec().contains(edge_key(from, m)),
    {
        grid_neighbors(&self.graph, from)
    }
}

/// A node that carries power to the nodes within its range.
#[derive(Debug, Clone, Copy, PartialEq, Eq, Structural)]
pub struct Pylon {
    pub range: i32,
}

impl Pylon {
    pub fn range(&self) -> (r: i32)
        ensures
            r == self.range,
    {
        self.range
    }
}

/// `p` walks the grid's links from `start`, and no pylon after the first has
/// an id in `seen`.
pub open spec fn fresh_walk(links: Set<EdgeKey>, seen: Set<u32>, p: Seq<Entity>, start: Entity) -> bool {
    &&& p.len() >= 1
    &&& p[0] == start
    &&& forall|i: int| #![trigger p[i]] 0 <= i < p.len() - 1 ==> links.contains(edge_key(p[i], p[i + 1]))
    &&& forall|i: int| #![trigger p[i]] 1 <= i < p.len() ==> !seen.contains(entity_id(p[i]))
}

/// Some fresh walk leads from `start` to `x`.
pub open spec fn grid_reach(links: Set<EdgeKey>, seen: Set<u32>, start: Entity, x: Entity) -> bool {
    exists|p: Seq<Entity>| #[trigger] fresh_walk(links, seen, p, start) && p.last() == x
}

/// The ids of the pylons fresh walks reach from `start`.
pub open spec fn reached_ids(links: Set<EdgeKey>, seen: Set<u32>, start: Entity) -> Set<u32> {
    Set::new(|id: u32| exists|x: Entity| #[trigger] grid_reach(links, seen, start, x) && entity_id(x) == id)
}

/// The ids of the nodes in the areas of the pylons fresh walks reach from
/// `start`.
pub open spec fn covered_ids(
    links: Set<EdgeKey>,
    seen: Set<u32>,
    start: Entity,
    areas: Map<Entity, AreaSet>,
) -> Set<u32> {
    Set::new(
        |id: u32|
            exists|p: Entity, e: Entity|
                #[trigger] grid_reach(links, seen, start, p) && areas.contains_key(p)
                    && #[trigger] areas[p].data@.contains(e) && entity_id(e) == id,
    )
}

/// The ids of the nodes in the areas of the pylons of `ps`.
pub open spec fn area_ids(ps: Set<Entity>, areas: Map<Entity, AreaSet>) -> Set<u32> {
    Set::new(
        |id: u32|
            exists|p: Entity, e: Entity|
                #[trigger] ps.contains(p) && areas.contains_key(p) && #[trigger] areas[p].data@.contains(e)
                    && entity_id(e) == id,
    )
}

/// Distinct pylons of `ps` have distinct ids.
pub open spec fn ids_distinct(ps: Set<Entity>) -> bool {
    forall|a: Entity, b: Entity|
        #![trigger ps.contains(a), ps.contains(b)]
        ps.contains(a) && ps.contains(b) && entity_id(a) == entity_id(b) ==> a == b
}

proof fn lemma_walk_explored(
    links: Set<EdgeKey>,
    seen: Set<u32>,
    p: Seq<Entity>,
    start: Entity,
    explored: Set<Entity>,
    visited: Set<u32>,
    all: Set<Entity>,
)
    requires
        fresh_walk(links, seen, p, start),
        explored.contains(start),
        explored.subset_of(all),
        ids_distinct(all),
        forall|k: EdgeKey| #[trigger] links.contains(k) ==> all.contains(k.0) && all.contains(k.1),
        forall|q: Entity, m: Entity|
            #![trigger explored.contains(q), links.contains(edge_key(q, m))]
            explored.contains(q) && links.contains(edge_key(q, m)) ==> visited.contains(entity_id(m)),
        forall|id: u32| #[trigger] visited.contains(id) ==> seen.contains(id) || exists|x: Entity| #[trigger] explored.contains(x) && entity_id(x) == id,
    ensures
        explored.contains(p.last()),
    decreases p.len(),
{
    if p.len() > 1 {
        let q = p.drop_last();
        assert(fresh_walk(links, seen, q, start)) by {
            assert forall|i: int| #![trigger q[i]] 0 <= i < q.len() - 1 implies links.contains(edge_key(q[i], q[i + 1])) by {
                assert(p[i] == q[i] && p[i + 1] == q[i + 1]);
            }
            assert forall|i: int| #![trigger q[i]] 1 <= i < q.len() implies !seen.contains(entity_id(q[i])) by {
                assert(p[i] == q[i]);
            }
        }
        lemma_walk_explored(links, seen, q, start, explored, visited, all);
        let a = q.last();
        let b = p.last();
        assert(a == p[p.len() - 2]);
        assert(links.contains(edge_key(p[p.len() - 2], p[p.len() - 1])));
        assert(visited.contains(entity_id(b)));
        assert(!seen.contains(entity_id(p[p.len() - 1])));
        let x = choose|x: Entity| #[trigger] explored.contains(x) && entity_id(x) == entity_id(b);
        let k = edge_key(a, b);
        assert(all.contains(k.0) && all.contains(k.1));
        assert(all.contains(b));
        assert(all.contains(x));
    }
}

impl PowerGrid {
    /// The nodes covered by the pylons that `start` reaches over links
    /// through pylons whose ids `visited` does not hold yet: the ids of every
    /// node in the area of each such pylon.  The ids of the pylons reached
    /// join `visited`.
    pub fn find_covered(
        &self,
        areas: &HashMap<Entity, AreaSet>,
        start: Entity,
        visited: &mut BitSet,
    ) -> (covered: BitSet)
        requires
            self.wf(),
            ids_distinct(self.pylons().insert(start)),
            forall|e: Entity| #[trigger] self.pylons().insert(start).contains(e) ==> entity_id(e) < MAX_ID,
            forall|p: Entity, e: Entity|
                #[trigger] areas@.contains_key(p) && #[trigger] areas@[p].data@.contains(e) ==> entity_id(e) < MAX_ID,
        ensures
            bitset_ids(*final(visited)) == bitset_ids(*old(visited)).union(
                reached_ids(self.links_spec(), bitset_ids(*old(visited)), start),
            ),
            bitset_ids(covered) == covered_ids(self.links_spec(), bitset_ids(*old(visited)), start, areas@),
    {
        let ghost links = self.links_spec();
        let ghost seen = bitset_ids(*visited);
        let ghost all = self.pylons().insert(start);
        let mut pending: VecDeque<Entity> = VecDeque::new();
        pending.push_back(start);
        assert(self.pylons().insert(start).contains(start));
        bitset_add(visited, id_of(start));
        let mut covered = bitset_new();
        let ghost mut explored: Set<Entity> = Set::empty();
        proof {
            assert(fresh_walk(links, seen, seq![start], start));
            assert(seq![start].last() == start);
            assert(pending@ =~= seq![start]);
            assert(pending@.contains(start));
            assert forall|id: u32| #[trigger] bitset_ids(*visited).contains(id) <==> seen.contains(id)
                || (exists|x: Entity| #[trigger] explored.contains(x) && entity_id(x) == id)
                || (exists|x: Entity| #[trigger] pending@.contains(x) && entity_id(x) == id) by {
                if exists|x: Entity| #[trigger] pending@.contains(x) && entity_id(x) == id {
                    let x = choose|x: Entity| #[trigger] pending@.contains(x) && entity_id(x) == id;
                    let i = choose|i: int| 0 <= i < pending@.len() && pending@[i] == x;
                    assert(x == start);
                }
                if id == entity_id(start) {
                    assert(pending@.contains(start));
                }
            }
            assert(all.finite());
        }
        while pending.len() > 0
            invariant
                self.wf(),
                links == self.links_spec(),
                all == self.pylons().insert(start),
                all.finite(),
                ids_distinct(all),
                forall|e: Entity| #[trigger] all.contains(e) ==> entity_id(e) < MAX_ID,
                forall|p: Entity, e: Entity|
                    #[trigger] areas@.contains_key(p) && #[trigger] areas@[p].data@.contains(e) ==> entity_id(e) < MAX_ID,
                explored.subset_of(all),
                explored.finite(),
                pending@.no_duplicates(),
                forall|x: Entity| #[trigger] pending@.contains(x) ==> all.contains(x) && !explored.contains(x),
                explored.contains(start) || pending@.contains(start),
                forall|x: Entity| #[trigger] explored.contains(x) ==> grid_reach(links, seen, start, x),
                forall|x: Entity| #[trigger] pending@.contains(x) ==> grid_reach(links, seen, start, x),
                forall|id: u32| #[trigger] bitset_ids(*visited).contains(id) <==> seen.contains(id)
                    || (exists|x: Entity| #[trigger] explored.contains(x) && entity_id(x) == id)
                    || (exists|x: Entity| #[trigger] pending@.contains(x) && entity_id(x) == id),
                forall|q: Entity, m: Entity|
                    #![trigger explored.contains(q), links.contains(edge_key(q, m))]
                    explored.contains(q) && links.contains(edge_key(q, m)) ==> bitset_ids(*visited).contains(entity_id(m)),
                bitset_ids(covered) == area_ids(explored, areas@),
            decreases all.len() - explored.len(),
        {
            let ghost pend0 = pending@;
            let ghost explored0 = explored;
            let pylon = match pending.pop_front() {
                Some(p) => p,
                None => vstd::pervasive::unreached(),
            };
            proof {
                assert(pend0.contains(pylon));
                assert(pending@ =~= pend0.subrange(1, pend0.len() as int));
                assert forall|x: Entity| #[trigger] pending@.contains(x) implies pend0.contains(x) && x != pylon by {
                    if pending@.contains(x) {
                        let i = choose|i: int| 0 <= i < pending@.len() && pending@[i] == x;
                        assert(pend0[i + 1] == x);
                    }
                }
                assert forall|x: Entity| #[trigger] pend0.contains(x) && x != pylon implies pending@.contains(x) by {
                    let i = choose|i: int| 0 <= i < pend0.len() && pend0[i] == x;
                    assert(i != 0);
                    assert(pending@[i - 1] == x);
                }
                explored = explored.insert(pylon);
                vstd::set_lib::lemma_len_subset(explored, all);
                assert forall|id: u32| #[trigger] bitset_ids(*visited).contains(id) <==> seen.contains(id)
                    || (exists|x: Entity| #[trigger] explored.contains(x) && entity_id(x) == id)
                    || (exists|x: Entity| #[trigger] pending@.contains(x) && entity_id(x) == id) by {
                    if exists|x: Entity| #[trigger] pend0.contains(x) && entity_id(x) == id {
                        let x = choose|x: Entity| #[trigger] pend0.contains(x) && entity_id(x) == id;
                        if x == pylon {
                            assert(explored.contains(x));
                        } else {
                            assert(pending@.contains(x));
                        }
                    }
                    if exists|x: Entity| #[trigger] explored0.contains(x) && entity_id(x) == id {
                        let x = choose|x: Entity| #[trigger] explored0.contains(x) && entity_id(x) == id;
                        assert(explored.contains(x));
                    }
                    if exists|x: Entity| #[trigger] explored.contains(x) && entity_id(x) == id {
                        let x = choose|x: Entity| #[trigger] explored.contains(x) && entity_id(x) == id;
                        if x != pylon {
                            assert(explored0.contains(x));
                        } else {
                            assert(pend0.contains(x));
                        }
                    }
                    if exists|x: Entity| #[trigger] pending@.contains(x) && entity_id(x) == id {
                        let x = choose|x: Entity| #[trigger] pending@.contains(x) && entity_id(x) == id;
                        assert(pend0.contains(x));
                    }
                }
            }
            let ns = self.links(pylon);
            let mut j: usize = 0;
            while j < ns.len()
                invariant
                    self.wf(),
                    links == self.links_spec(),
                    all == self.pylons().insert(start),
                    ids_distinct(all),
                    forall|e: Entity| #[trigger] all.contains(e) ==> entity_id(e) < MAX_ID,
                    explored.subset_of(all),
                    explored.contains(pylon),
                    grid_reach(links, seen, start, pylon),
                    j <= ns@.len(),
                    ns@.no_duplicates(),
                    forall|m: Entity| #[trigger] ns@.contains(m) <==> links.contains(edge_key(pylon, m)),
                    pending@.no_duplicates(),
                    forall|x: Entity| #[trigger] pending@.contains(x) ==> all.contains(x) && !explored.contains(x),
                    explored.contains(start) || pending@.contains(start),
                    forall|x: Entity| #[trigger] explored.contains(x) ==> grid_reach(links, seen, start, x),
                    forall|x: Entity| #[trigger] pending@.contains(x) ==> grid_reach(links, seen, start, x),
                    forall|id: u32| #[trigger] bitset_ids(*visited).contains(id) <==> seen.contains(id)
                        || (exists|x: Entity| #[trigger] explored.contains(x) && entity_id(x) == id)
                        || (exists|x: Entity| #[trigger] pending@.contains(x) && entity_id(x) == id),
                    forall|q: Entity, m: Entity|
                        #![trigger explored.contains(q), links.contains(edge_key(q, m))]
                        explored.contains(q) && q != pylon && links.contains(edge_key(q, m))
                            ==> bitset_ids(*visited).contains(entity_id(m)),
                    forall|k: int| #![trigger ns@[k]] 0 <= k < j ==> bitset_ids(*visited).contains(entity_id(ns@[k])),
                decreases ns@.len() - j,
            {
                let n = ns[j];
                proof {
                    assert(ns@.contains(n));
                    let k = edge_key(pylon, n);
                    assert(all.contains(k.0) && all.contains(k.1));
                    assert(all.contains(n));
                }
                let ghost vis0 = bitset_ids(*visited);
                let ghost pend1 = pending@;
                let was = bitset_add(visited, id_of(n));
                if !was {
                    pending.push_back(n);
                    proof {
                        assert(!seen.contains(entity_id(n)));
                        assert(!explored.contains(n)) by {
                            if explored.contains(n) {
                                assert(vis0.contains(entity_id(n)));
                            }
                        }
                        assert(!pend1.contains(n)) by {
                            if pend1.contains(n) {
                                assert(vis0.contains(entity_id(n)));
                            }
                        }
                        let w = choose|w: Seq<Entity>| #[trigger] fresh_walk(links, seen, w, start) && w.last() == pylon;
                        let w2 = w.push(n);
                        assert(w2.last() == n);
                        assert(fresh_walk(links, seen, w2, start)) by {
                            assert forall|i: int| #![trigger w2[i]] 0 <= i < w2.len() - 1 implies links.contains(edge_key(w2[i], w2[i + 1])) by {
                                if i < w.len() - 1 {
                                    assert(w2[i] == w[i] && w2[i + 1] == w[i + 1]);
                                } else {
                                    assert(w2[i] == pylon && w2[i + 1] == n);
                                }
                            }
                            assert forall|i: int| #![trigger w2[i]] 1 <= i < w2.len() implies !seen.contains(entity_id(w2[i])) by {
                                if i < w.len() {
                                    assert(w2[i] == w[i]);
                                }
                            }
                        }
                        assert(pending@ =~= pend1.push(n));
                        assert forall|x: Entity| #[trigger] pending@.contains(x) <==> pend1.contains(x) || x == n by {
                            if pending@.contains(x) {
                                let i = choose|i: int| 0 <= i < pending@.len() && pending@[i] == x;
                                if i < pend1.len() {
                                    assert(pend1[i] == x);
                                }
                            }
                            if pend1.contains(x) {
                                let i = choose|i: int| 0 <= i < pend1.len() && pend1[i] == x;
                                assert(pending@[i] == x);
                            }
                            if x == n {
                                assert(pending@[pend1.len() as int] == n);
                            }
                        }
                    }
                }
                proof {
                    assert forall|id: u32| #[trigger] bitset_ids(*visited).contains(id) <==> seen.contains(id)
                        || (exists|x: Entity| #[trigger] explored.contains(x) && entity_id(x) == id)
                        || (exists|x: Entity| #[trigger] pending@.contains(x) && entity_id(x) == id) by {
                        if !was && id == entity_id(n) {
                            assert(pending@.contains(n));
                        }
                        if was && id == entity_id(n) {
                            assert(vis0.contains(id));
                        }
                        if exists|x: Entity| #[trigger] pending@.contains(x) && entity_id(x) == id {
                            let x = choose|x: Entity| #[trigger] pending@.contains(x) && entity_id(x) == id;
                            if x != n {
                                assert(pend1.contains(x));
                            }
                        }
                        if exists|x: Entity| #[trigger] pend1.contains(x) && entity_id(x) == id {
                            let x = choose|x: Entity| #[trigger] pend1.contains(x) && entity_id(x) == id;
                            assert(pending@.contains(x));
                        }
                    }
                }
                j += 1;
            }
            proof {
                assert forall|q: Entity, m: Entity|
                    #![trigger explored.contains(q), links.contains(edge_key(q, m))]
                    explored.contains(q) && links.contains(edge_key(q, m))
                        implies bitset_ids(*visited).contains(entity_id(m)) by {
                    if q == pylon {
                        assert(ns@.contains(m));
                        let k = choose|k: int| 0 <= k < ns@.len() && ns@[k] == m;
                        assert(bitset_ids(*visited).contains(entity_id(ns@[k])));
                    }
                }
            }
            match areas.get(&pylon) {
                None => {
                    proof {
                        assert(area_ids(explored, areas@) =~= area_ids(explored0, areas@)) by {
                            assert forall|id: u32| area_ids(explored, areas@).contains(id) implies area_ids(explored0, areas@).contains(id) by {
                                let (p, e) = choose|p: Entity, e: Entity|
                                    #[trigger] explored.contains(p) && areas@.contains_key(p) && #[trigger] areas@[p].data@.contains(e)
                                        && entity_id(e) == id;
                                assert(explored0.contains(p));
                            }
                            assert forall|id: u32| area_ids(explored0, areas@).contains(id) implies area_ids(explored, areas@).contains(id) by {
                                let (p, e) = choose|p: Entity, e: Entity|
                                    #[trigger] explored0.contains(p) && areas@.contains_key(p) && #[trigger] areas@[p].data@.contains(e)
                                        && entity_id(e) == id;
                                assert(explored.contains(p));
                            }
                        }
                    }
                },
                Some(a) => {
                    let members = a.nodes();
                    let ghost cov0 = bitset_ids(covered);
                    let mut k: usize = 0;
                    while k < members.len()
                        invariant
                            k <= members@.len(),
                            members@.to_set() == a.data@,
                            areas@.contains_key(pylon),
                            areas@[pylon] == *a,
                            forall|p: Entity, e: Entity|
                                #[trigger] areas@.contains_key(p) && #[trigger] areas@[p].data@.contains(e) ==> entity_id(e) < MAX_ID,
                            forall|id: u32| #[trigger] bitset_ids(covered).contains(id) <==> cov0.contains(id)
                                || exists|i: int| 0 <= i < k && #[trigger] entity_id(members@[i]) == id,
                        decreases members@.len() - k,
                    {
                        let e = members[k];
                        proof {
                            assert(members@.to_set().contains(e));
                            assert(a.data@.contains(e));
                        }
                        let ghost c1 = bitset_ids(covered);
                        bitset_add(&mut covered, id_of(e));
                        proof {
                            assert forall|id: u32| #[trigger] bitset_ids(covered).contains(id) <==> cov0.contains(id)
                                || exists|i: int| 0 <= i < k + 1 && #[trigger] entity_id(members@[i]) == id by {
                                if id == entity_id(e) {
                                    assert(entity_id(members@[k as int]) == id);
                                }
                                if exists|i: int| 0 <= i < k + 1 && #[trigger] entity_id(members@[i]) == id {
                                    let i = choose|i: int| 0 <= i < k + 1 && #[trigger] entity_id(members@[i]) == id;
                                    if i < k {
                                        assert(c1.contains(id));
                                    }
                                }
                            }
                        }
                        k += 1;
                    }
                    proof {
                        assert(bitset_ids(covered) =~= area_ids(explored, areas@)) by {
                            assert forall|id: u32| #[trigger] bitset_ids(covered).contains(id) implies area_ids(explored, areas@).contains(id) by {
                                if cov0.contains(id) {
                                    let (p, e) = choose|p: Entity, e: Entity|
                                        #[trigger] explored0.contains(p) && areas@.contains_key(p) && #[trigger] areas@[p].data@.contains(e)
                                            && entity_id(e) == id;
                                    assert(explored.contains(p));
                                } else {
                                    let i = choose|i: int| 0 <= i < k && #[trigger] entity_id(members@[i]) == id;
                                    assert(members@.to_set().contains(members@[i]));
                                    assert(areas@[pylon].data@.contains(members@[i]));
                                    assert(explored.contains(pylon));
                                }
                            }
                            assert forall|id: u32| area_ids(explored, areas@).contains(id) implies #[trigger] bitset_ids(covered).contains(id) by {
                                let (p, e) = choose|p: Entity, e: Entity|
                                    #[trigger] explored.contains(p) && areas@.contains_key(p) && #[trigger] areas@[p].data@.contains(e)
                                        && entity_id(e) == id;
                                if p == pylon {
                                    assert(members@.to_set().contains(e));
                                    let i = choose|i: int| 0 <= i < members@.len() && members@[i] == e;
                                    assert(entity_id(members@[i]) == id);
                                } else {
                                    assert(explored0.contains(p));
                                    assert(cov0.contains(id));
                                }
                            }
                        }
                    }
                },
            }
        }
        proof {
            assert forall|x: Entity| #[trigger] grid_reach(links, seen, start, x) implies explored.contains(x) by {
                let p = choose|p: Seq<Entity>| #[trigger] fresh_walk(links, seen, p, start) && p.last() == x;
                assert(explored.contains(start));
                lemma_walk_explored(links, seen, p, start, explored, bitset_ids(*visited), all);
            }
            assert(bitset_ids(*visited) =~= seen.union(reached_ids(links, seen, start))) by {
                assert forall|id: u32| #[trigger] bitset_ids(*visited).contains(id) implies seen.union(reached_ids(links, seen, start)).contains(id) by {
                    if !seen.contains(id) {
                        let x = choose|x: Entity| #[trigger] explored.contains(x) && entity_id(x) == id;
                        assert(grid_reach(links, seen, start, x));
                    }
                }
                assert forall|id: u32| seen.union(reached_ids(links, seen, start)).contains(id) implies #[trigger] bitset_ids(*visited).contains(id) by {
                    if !seen.contains(id) {
                        let x = choose|x: Entity| #[trigger] grid_reach(links, seen, start, x) && entity_id(x) == id;
                        assert(explored.contains(x));
                    }
                }
            }
            assert(bitset_ids(covered) =~= covered_ids(links, seen, start, areas@)) by {
                assert forall|id: u32| #[trigger] bitset_ids(covered).contains(id) implies covered_ids(links, seen, start, areas@).contains(id) by {
                    let (p, e) = choose|p: Entity, e: Entity|
                        #[trigger] explored.contains(p) && areas@.contains_key(p) && #[trigger] areas@[p].data@.contains(e)
                            && entity_id(e) == id;
                    assert(grid_reach(links, seen, start, p));
                }
                assert forall|id: u32| covered_ids(links, seen, start, areas@).contains(id) implies #[trigger] bitset_ids(covered).contains(id) by {
                    let (p, e) = choose|p: Entity, e: Entity|
                        #[trigger] grid_reach(links, seen, start, p) && areas@.contains_key(p)
                            && #[trigger] areas@[p].data@.contains(e) && entity_id(e) == id;
                    assert(explored.contains(p));
                    assert(area_ids(explored, areas@).contains(id));
                }
            }
        }
        covered
    }
}

} // verus!
