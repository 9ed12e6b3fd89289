//! The network of nodes and links, and the routes packets take through it.

use std::collections::HashMap;

use vstd::prelude::*;
use vstd::std_specs::iter::IteratorSpec;

use crate::error::{Error, Result};
use crate::geom::GridMap;
use crate::util::lemma_filter_take_step;
use crate::hex::{contains_coord, coord_ok, hex_distance, hex_line, Coord, Direction};
use crate::Entity;

verus! {

broadcast use vstd::std_specs::hash::group_hash_axioms;

/// The direction in which a route crosses a link.
#[derive(Debug, Clone, Copy, PartialEq, Eq, Structural)]
pub enum PathDir {
    Fwd,
    Rev,
}

/// The links a route crosses, in order, each with its direction.
pub type Route = Vec<(Entity, PathDir)>;

/// A junction of the network, at a cell, with the links that leave it.
#[derive(Debug)]
pub struct Node {
    at: Coord,
    links: HashMap<Entity, Entity>,
}

impl Node {
    /// Where the node stands.
    pub closed spec fn pos(&self) -> Coord {
        self.at
    }

    /// For each neighbouring node, the link that joins it to this one.
    pub closed spec fn neighbors(&self) -> Map<Entity, Entity> {
        self.links@
    }

    /// A node at `at` with no links yet.
    pub fn new(at: Coord) -> (n: Node)
        ensures
            n.pos() == at,
            n.neighbors() == Map::<Entity, Entity>::empty(),
    {
        Node { at, links: HashMap::new() }
    }

    pub fn at(&self) -> (c: Coord)
        ensures
            c == self.pos(),
    {
        self.at
    }

    /// The link that joins this node to `other`, if any.
    pub fn link_to(&self, other: Entity) -> (l: Option<Entity>)
        ensures
            l == (if self.neighbors().contains_key(other) {
                Some(self.neighbors()[other])
            } else {
                None
            }),
    {
        match self.links.get(&other) {
            Some(l) => Some(*l),
            None => None,
        }
    }

    /// Each neighbouring node with the link that joins it to this one, once
    /// each, in no particular order.
    pub fn link_list(&self) -> (v: Vec<(Entity, Entity)>)
        ensures
            v@.len() == self.neighbors().len(),
            forall|i: int|
                #![trigger v@[i]]
                0 <= i < v@.len() ==> self.neighbors().contains_key(v@[i].0) && self.neighbors()[v@[i].0] == v@[i].1,
            forall|k: Entity|
                #[trigger] self.neighbors().contains_key(k) ==> exists|i: int|
                    0 <= i < v@.len() && #[trigger] v@[i] == (k, self.neighbors()[k]),
    {
        let mut v: Vec<(Entity, Entity)> = Vec::new();
        let ghost all = self.links.iter().remaining();
        for pair in it: self.links.iter()
            invariant
                all == it.seq(),
                v@.len() == it.index(),
                forall|i: int| #![trigger v@[i]] 0 <= i < v@.len() ==> v@[i] == (*all[i].0, *all[i].1),
        {
            v.push((*pair.0, *pair.1));
        }
        proof {
            assert forall|k: Entity| #[trigger] self.neighbors().contains_key(k) implies exists|i: int|
                0 <= i < v@.len() && #[trigger] v@[i] == (k, self.neighbors()[k]) by {
                assert(all.contains((&k, &self.links@[k])));
                let i = choose|i: int| 0 <= i < all.len() && all[i] == (&k, &self.links@[k]);
                assert(v@[i] == (k, self.neighbors()[k]));
            }
        }
        v
    }

    /// Records that `link` joins this node to `other`.
    pub fn add_link(&mut self, other: Entity, link: Entity)
        ensures
            final(self).pos() == old(self).pos(),
            final(self).neighbors() == old(self).neighbors().insert(other, link),
    {
        self.links.insert(other, link);
    }

    /// Forgets the link to `other`; returns it.
    pub fn remove_link(&mut self, other: Entity) -> (l: Option<Entity>)
        ensures
            final(self).pos() == old(self).pos(),
            final(self).neighbors() == old(self).neighbors().remove(other),
            l == (if old(self).neighbors().contains_key(other) {
                Some(old(self).neighbors()[other])
            } else {
                None
            }),
    {
        self.links.remove(&other)
    }
}

/// A connection between two nodes, along the cells strictly between them.
#[derive(Debug)]
pub struct Link {
    pub from: Entity,
    pub to: Entity,
    pub path: Vec<Coord>,
}

impl Link {
    /// A copy of the link.
    pub fn copy(&self) -> (l: Link)
        ensures
            l.from == self.from,
            l.to == self.to,
            l.path@ == self.path@,
    {
        Link { from: self.from, to: self.to, path: self.path.clone() }
    }
}

/// Whether a cell of a path is the last one.
#[derive(Debug, Clone, Copy, PartialEq, Eq, Structural)]
pub enum PathCoord {
    More,
    End,
}

/// The `ix`-th cell of `path` when crossed in direction `dir`.
pub open spec fn path_cell(path: Seq<Coord>, dir: PathDir, ix: int) -> Coord {
    match dir {
        PathDir::Fwd => path[ix],
        PathDir::Rev => path[path.len() - 1 - ix],
    }
}

/// Whether the `ix`-th cell is the last of a path of `len` cells.
pub open spec fn path_mark(len: int, ix: int) -> PathCoord {
    if ix == len - 1 {
        PathCoord::End
    } else {
        PathCoord::More
    }
}

/// The `ix`-th cell of the path of `step.0`, crossed in direction `step.1`,
/// and whether it is the last.  Fails when the link is unknown or the path has
/// no such cell.
pub fn path_ix(step: (Entity, PathDir), ix: usize, links: &HashMap<Entity, Link>) -> (r: Result<
    (Coord, PathCoord),
>)
    requires
        links@.contains_key(step.0) && step.1 == PathDir::Rev ==> ix < links@[step.0].path@.len(),
    ensures
        !links@.contains_key(step.0) ==> r == Err::<(Coord, PathCoord), Error>(
            Error::NoSuchComponent,
        ),
        links@.contains_key(step.0) && ix >= links@[step.0].path@.len() ==> r == Err::<
            (Coord, PathCoord),
            Error,
        >(Error::PathIxOverflow),
        links@.contains_key(step.0) && ix < links@[step.0].path@.len() ==> r == Ok::<
            (Coord, PathCoord),
            Error,
        >(
            (
                path_cell(links@[step.0].path@, step.1, ix as int),
                path_mark(links@[step.0].path@.len() as int, ix as int),
            ),
        ),
{
    let (link_ent, path_dir) = step;
    let link = match links.get(&link_ent) {
        Some(l) => l,
        None => {
            return Err(Error::NoSuchComponent);
        },
    };
    if ix >= link.path.len() {
        return Err(Error::PathIxOverflow);
    }
    let coord_ix = match path_dir {
        PathDir::Fwd => ix,
        PathDir::Rev => link.path.len() - 1 - ix,
    };
    Ok(
        (
            link.path[coord_ix],
            if ix == link.path.len() - 1 {
                PathCoord::End
            } else {
                PathCoord::More
            },
        ),
    )
}

/// The node a link leads to when crossed in direction `dir`.
pub open spec fn end_node(link: Link, dir: PathDir) -> Entity {
    match dir {
        PathDir::Fwd => link.to,
        PathDir::Rev => link.from,
    }
}

/// A step of a route can be walked: its link is known, has cells, and leads
/// to a known node.
pub open spec fn step_ok(s: (Entity, PathDir), links: Map<Entity, Link>, nodes: Map<Entity, Node>) -> bool {
    &&& links.contains_key(s.0)
    &&& links[s.0].path@.len() > 0
    &&& nodes.contains_key(end_node(links[s.0], s.1))
}

/// A route can be walked from end to end.
pub open spec fn route_ok(
    route: Seq<(Entity, PathDir)>,
    links: Map<Entity, Link>,
    nodes: Map<Entity, Node>,
) -> bool {
    &&& route.len() > 0
    &&& forall|i: int| 0 <= i < route.len() ==> #[trigger] step_ok(route[i], links, nodes)
}

/// Where a packet following a route is heading.
#[derive(Debug, Clone, Copy, PartialEq, Eq, Structural)]
pub enum RoutePhase {
    /// To a cell of the current link's path.
    ToLink(Coord, PathCoord),
    /// To the node at the end of the current link.
    ToNode(Coord),
}

/// A packet's progress along a route.
#[derive(Debug)]
pub struct FollowRoute {
    pub route: Route,
    pub link_ix: usize,
    pub coord_ix: usize,
    pub phase: RoutePhase,
}

/// What a packet does once it reaches where it was heading.
#[derive(Debug, Clone, Copy, PartialEq, Eq, Structural)]
pub enum RouteStep {
    /// The route is finished.
    Done,
    /// It moves on, from the first cell to the second.
    Move(Coord, Coord),
}

/// The number of cells of the path of the link of step `s`.
pub open spec fn step_len(s: (Entity, PathDir), links: Map<Entity, Link>) -> int {
    links[s.0].path@.len() as int
}

/// The `ix`-th cell of step `s`.
pub open spec fn step_cell(s: (Entity, PathDir), links: Map<Entity, Link>, ix: int) -> Coord {
    path_cell(links[s.0].path@, s.1, ix)
}

/// The cell of the node step `s` ends at.
pub open spec fn step_end(
    s: (Entity, PathDir),
    links: Map<Entity, Link>,
    nodes: Map<Entity, Node>,
) -> Coord {
    nodes[end_node(links[s.0], s.1)].pos()
}

/// `b` is further along its route than `a`: on a later link, on a later cell
/// of the same link, or on the way to the link's end node from its last cell.
pub open spec fn progressed(a: FollowRoute, b: FollowRoute) -> bool {
    ||| b.link_ix > a.link_ix
    ||| b.link_ix == a.link_ix && b.coord_ix > a.coord_ix
    ||| b.link_ix == a.link_ix && b.coord_ix == a.coord_ix && a.phase is ToLink && b.phase is ToNode
}

impl FollowRoute {
    /// The progress is consistent with the route and the network.
    pub open spec fn follow_ok(&self, links: Map<Entity, Link>, nodes: Map<Entity, Node>) -> bool {
        let s = self.route@[self.link_ix as int];
        &&& route_ok(self.route@, links, nodes)
        &&& self.link_ix < self.route@.len()
        &&& self.coord_ix < step_len(s, links)
        &&& match self.phase {
            RoutePhase::ToLink(c, m) => c == step_cell(s, links, self.coord_ix as int) && m
                == path_mark(step_len(s, links), self.coord_ix as int),
            RoutePhase::ToNode(c) => c == step_end(s, links, nodes) && self.coord_ix == step_len(
                s,
                links,
            ) - 1,
        }
    }

    /// The progress of a packet just sent along `route`: heading for the
    /// first cell of its first link.
    pub fn start(route: Route, links: &HashMap<Entity, Link>, nodes: &HashMap<Entity, Node>) -> (f:
        FollowRoute)
        requires
            route_ok(route@, links@, nodes@),
        ensures
            f.route@ == route@,
            f.link_ix == 0,
            f.coord_ix == 0,
            f.phase == RoutePhase::ToLink(
                step_cell(route@[0], links@, 0),
                path_mark(step_len(route@[0], links@), 0),
            ),
            f.follow_ok(links@, nodes@),
    {
        assert(step_ok(route@[0], links@, nodes@));
        let first = route[0];
        let (coord, more) = match path_ix(first, 0, links) {
            Ok(p) => p,
            Err(_) => vstd::pervasive::unreached(),
        };
        FollowRoute { route, link_ix: 0, coord_ix: 0, phase: RoutePhase::ToLink(coord, more) }
    }

    /// Whether the packet's progress fits the tables: every link of its route
    /// is known, has cells and leads to a known node, and the packet is
    /// heading where its place on the route says.
    pub fn check(&self, links: &HashMap<Entity, Link>, nodes: &HashMap<Entity, Node>) -> (b: bool)
        ensures
            b == self.follow_ok(links@, nodes@),
    {
        if self.route.len() == 0 {
            return false;
        }
        let mut i: usize = 0;
        while i < self.route.len()
            invariant
                i <= self.route@.len(),
                forall|j: int| 0 <= j < i ==> #[trigger] step_ok(self.route@[j], links@, nodes@),
            decreases self.route.len() - i,
        {
            let s = self.route[i];
            match links.get(&s.0) {
                None => {
                    assert(!step_ok(self.route@[i as int], links@, nodes@));
                    return false;
                },
                Some(l) => {
                    let end = match s.1 {
                        PathDir::Fwd => l.to,
                        PathDir::Rev => l.from,
                    };
                    if l.path.len() == 0 || !nodes.contains_key(&end) {
                        assert(!step_ok(self.route@[i as int], links@, nodes@));
                        return false;
                    }
                },
            }
            i += 1;
        }
        if self.link_ix >= self.route.len() {
            return false;
        }
        let s = self.route[self.link_ix];
        assert(step_ok(self.route@[self.link_ix as int], links@, nodes@));
        let l = match links.get(&s.0) {
            Some(l) => l,
            None => vstd::pervasive::unreached(),
        };
        let len = l.path.len();
        if self.coord_ix >= len {
            return false;
        }
        match self.phase {
            RoutePhase::ToLink(c, m) => {
                let cell = match s.1 {
                    PathDir::Fwd => l.path[self.coord_ix],
                    PathDir::Rev => l.path[len - 1 - self.coord_ix],
                };
                let mark = if self.coord_ix == len - 1 {
                    PathCoord::End
                } else {
                    PathCoord::More
                };
                c == cell && m == mark
            },
            RoutePhase::ToNode(c) => {
                let end = match s.1 {
                    PathDir::Fwd => l.to,
                    PathDir::Rev => l.from,
                };
                let at = match nodes.get(&end) {
                    Some(n) => n.at(),
                    None => vstd::pervasive::unreached(),
                };
                c == at && self.coord_ix == len - 1
            },
        }
    }

    /// The packet reached where it was heading: it finishes the route, or
    /// heads for the next cell of the link, the node at the link's end, or the
    /// first cell of the next link.
    pub fn advance(&mut self, links: &HashMap<Entity, Link>, nodes: &HashMap<Entity, Node>) -> (r:
        RouteStep)
        requires
            old(self).follow_ok(links@, nodes@),
        ensures
            final(self).route@ == old(self).route@,
            r is Move ==> final(self).follow_ok(links@, nodes@),
            r is Move ==> progressed(*old(self), *final(self)),
            ({
                let route = old(self).route@;
                let li = old(self).link_ix as int;
                let ci = old(self).coord_ix as int;
                match old(self).phase {
                    RoutePhase::ToNode(c) => if li + 1 >= route.len() {
                        &&& r == RouteStep::Done
                        &&& final(self).link_ix == li + 1
                        &&& final(self).coord_ix == 0
                        &&& final(self).phase == old(self).phase
                    } else {
                        let s = route[li + 1];
                        let to = step_cell(s, links@, 0);
                        &&& r == RouteStep::Move(c, to)
                        &&& final(self).link_ix == li + 1
                        &&& final(self).coord_ix == 0
                        &&& final(self).phase == RoutePhase::ToLink(
                            to,
                            path_mark(step_len(s, links@), 0),
                        )
                    },
                    RoutePhase::ToLink(c, PathCoord::More) => {
                        let s = route[li];
                        let to = step_cell(s, links@, ci + 1);
                        &&& r == RouteStep::Move(c, to)
                        &&& final(self).link_ix == li
                        &&& final(self).coord_ix == ci + 1
                        &&& final(self).phase == RoutePhase::ToLink(
                            to,
                            path_mark(step_len(s, links@), ci + 1),
                        )
                    },
                    RoutePhase::ToLink(c, PathCoord::End) => {
                        let to = step_end(route[li], links@, nodes@);
                        &&& r == RouteStep::Move(c, to)
                        &&& final(self).link_ix == li
                        &&& final(self).coord_ix == ci
                        &&& final(self).phase == RoutePhase::ToNode(to)
                    },
                }
            }),
    {
        let (from_coord, link_next) = match self.phase {
            RoutePhase::ToLink(c, m) => {
                let l = match m {
                    PathCoord::More => {
                        proof {
                            assert(step_ok(self.route@[self.link_ix as int], links@, nodes@));
                        }
                        let (link_ent, _) = self.route[self.link_ix];
                        let path_len = match links.get(&link_ent) {
                            Some(l) => l.path.len(),
                            None => vstd::pervasive::unreached(),
                        };
                        assert(self.coord_ix + 1 < path_len);
                        self.coord_ix = self.coord_ix + 1;
                        true
                    },
                    PathCoord::End => false,
                };
                (c, l)
            },
            RoutePhase::ToNode(c) => {
                let route_len = self.route.len();
                self.coord_ix = 0;
                self.link_ix = self.link_ix + 1;
                if self.link_ix >= route_len {
                    return RouteStep::Done;
                }
                (c, true)
            },
        };
        let ghost li = self.link_ix as int;
        assert(step_ok(self.route@[li], links@, nodes@));
        let to_coord = if link_next {
            let (coord, more) = match path_ix(self.route[self.link_ix], self.coord_ix, links) {
                Ok(p) => p,
                Err(_) => vstd::pervasive::unreached(),
            };
            self.phase = RoutePhase::ToLink(coord, more);
            coord
        } else {
            let (link_ent, path_dir) = self.route[self.link_ix];
            let link = match links.get(&link_ent) {
                Some(l) => l,
                None => vstd::pervasive::unreached(),
            };
            let node_ent = match path_dir {
                PathDir::Fwd => link.to,
                PathDir::Rev => link.from,
            };
            let coord = match nodes.get(&node_ent) {
                Some(n) => n.at(),
                None => vstd::pervasive::unreached(),
            };
            self.phase = RoutePhase::ToNode(coord);
            coord
        };
        RouteStep::Move(from_coord, to_coord)
    }
}

/// The radius of the disk a node takes up.
pub const NODE_RADIUS: i32 = 1;

/// The ring of cells drawn for a node at `center`.
pub fn node_shape(center: Coord) -> (v: Vec<Coord>)
    requires
        coord_ok(center),
    ensures
        v@.len() == 6,
        v@.no_duplicates(),
        forall|c: Coord| v@.contains(c) <==> hex_distance(center, c) == NODE_RADIUS,
{
    center.ring(NODE_RADIUS, Direction::XY)
}

/// The cells a node at `center` takes up.
pub fn node_space(center: Coord) -> (v: Vec<Coord>)
    requires
        coord_ok(center),
    ensures
        v@.no_duplicates(),
        forall|c: Coord| v@.contains(c) <==> hex_distance(center, c) <= NODE_RADIUS,
{
    center.range(NODE_RADIUS)
}

/// Every cell a node at `center` would take up is free.
pub open spec fn node_fits(m: Map<Coord, Entity>, center: Coord) -> bool {
    forall|c: Coord| #[trigger] hex_distance(center, c) <= NODE_RADIUS ==> !m.contains_key(c)
}

/// Whether a node fits at `center`.
pub fn space_for_node(map: &GridMap, center: Coord) -> (b: bool)
    requires
        coord_ok(center),
    ensures
        b == node_fits(map@, center),
{
    let cells = node_space(center);
    let mut i: usize = 0;
    while i < cells.len()
        invariant
            i <= cells.len(),
            forall|c: Coord| cells@.contains(c) <==> hex_distance(center, c) <= NODE_RADIUS,
            forall|j: int| 0 <= j < i ==> !map@.contains_key(#[trigger] cells@[j]),
        decreases cells.len() - i,
    {
        if map.get(cells[i]).is_some() {
            assert(cells@.contains(cells@[i as int]));
            return false;
        }
        i += 1;
    }
    proof {
        assert forall|c: Coord| #[trigger] hex_distance(center, c) <= NODE_RADIUS implies !map@.contains_key(c) by {
            assert(cells@.contains(c));
            let j = choose|j: int| 0 <= j < cells@.len() && cells@[j] == c;
        }
    }
    true
}

/// The cells a link from `from` to `to` is drawn on: the line between them,
/// less the cells the two nodes take up.
pub open spec fn link_shape_spec(from: Coord, to: Coord) -> Seq<Coord> {
    hex_line(from, to).filter(off_nodes(from, to))
}

/// A cell outside both nodes' spaces.
pub open spec fn off_nodes(from: Coord, to: Coord) -> spec_fn(Coord) -> bool {
    |c: Coord| hex_distance(from, c) > NODE_RADIUS && hex_distance(to, c) > NODE_RADIUS
}

/// A cell other than the two ends.
pub open spec fn between_ends(from: Coord, to: Coord) -> spec_fn(Coord) -> bool {
    |c: Coord| c != from && c != to
}

/// The cells a packet crosses on a link from `from` to `to`: the line between
/// them, less its two ends.
pub open spec fn link_path_spec(from: Coord, to: Coord) -> Seq<Coord> {
    hex_line(from, to).filter(between_ends(from, to))
}

/// The cells of a prospective link.
pub struct LinkSpace {
    pub from: Coord,
    pub to: Coord,
    pub path: Vec<Coord>,
    pub shape: Vec<Coord>,
}

impl LinkSpace {
    /// The cells of a link from node `from` to node `to`; fails with
    /// `NoSuchComponent` when either is not a node.
    pub fn new(nodes: &HashMap<Entity, Node>, from: Entity, to: Entity) -> (r: Result<LinkSpace>)
        requires
            nodes_ok(nodes@),
        ensures
            r is Ok <==> nodes@.contains_key(from) && nodes@.contains_key(to),
            r is Err ==> r == Err::<LinkSpace, Error>(Error::NoSuchComponent),
            r matches Ok(ls) ==> {
                &&& ls.from == nodes@[from].pos()
                &&& ls.to == nodes@[to].pos()
                &&& ls.path@ == link_path_spec(ls.from, ls.to)
                &&& ls.shape@ == link_shape_spec(ls.from, ls.to)
            },
    {
        let source_pos = match nodes.get(&from) {
            Some(n) => n.at(),
            None => {
                return Err(Error::NoSuchComponent);
            },
        };
        let sink_pos = match nodes.get(&to) {
            Some(n) => n.at(),
            None => {
                return Err(Error::NoSuchComponent);
            },
        };
        Ok(LinkSpace::new_pos(source_pos, sink_pos))
    }

    /// The path and the drawn cells of a link from `from` to `to`.
    pub fn new_pos(from: Coord, to: Coord) -> (ls: LinkSpace)
        requires
            coord_ok(from),
            coord_ok(to),
        ensures
            ls.from == from,
            ls.to == to,
            ls.path@ == link_path_spec(from, to),
            ls.shape@ == link_shape_spec(from, to),
    {
        let mut excl = from.range(NODE_RADIUS);
        let mut to_space = to.range(NODE_RADIUS);
        let ghost from_part = excl@;
        let ghost to_part = to_space@;
        excl.append(&mut to_space);
        proof {
            assert(excl@ =~= from_part + to_part);
            assert forall|c: Coord| excl@.contains(c) <==> (hex_distance(from, c) <= NODE_RADIUS
                || hex_distance(to, c) <= NODE_RADIUS) by {
                if excl@.contains(c) {
                    let j = choose|j: int| 0 <= j < excl@.len() && excl@[j] == c;
                    if j < from_part.len() {
                        assert(from_part.contains(c));
                    } else {
                        assert(to_part[j - from_part.len()] == c);
                        assert(to_part.contains(c));
                    }
                }
                if hex_distance(from, c) <= NODE_RADIUS {
                    assert(from_part.contains(c));
                    let j = choose|j: int| 0 <= j < from_part.len() && from_part[j] == c;
                    assert(excl@[j] == c);
                }
                if hex_distance(to, c) <= NODE_RADIUS {
                    assert(to_part.contains(c));
                    let j = choose|j: int| 0 <= j < to_part.len() && to_part[j] == c;
                    assert(excl@[from_part.len() + j] == c);
                }
            }
        }
        let line = from.line_to(to);
        let mut path: Vec<Coord> = Vec::new();
        let mut shape: Vec<Coord> = Vec::new();
        let mut i: usize = 0;
        while i < line.len()
            invariant
                i <= line.len(),
                forall|c: Coord| excl@.contains(c) <==> (hex_distance(from, c) <= NODE_RADIUS
                    || hex_distance(to, c) <= NODE_RADIUS),
                shape@ == line@.take(i as int).filter(off_nodes(from, to)),
                path@ == line@.take(i as int).filter(between_ends(from, to)),
            decreases line.len() - i,
        {
            let c = line[i];
            proof {
                lemma_filter_take_step(line@, off_nodes(from, to), i as int);
                lemma_filter_take_step(line@, between_ends(from, to), i as int);
            }
            if !contains_coord(&excl, c) {
                shape.push(c);
            }
            if c != from && c != to {
                path.push(c);
            }
            i += 1;
        }
        proof {
            assert(line@.take(line@.len() as int) =~= line@);
        }
        LinkSpace { from, to, path, shape }
    }
}

/// Every cell a link from `from` to `to` would be drawn on is free.
pub open spec fn link_fits(m: Map<Coord, Entity>, from: Coord, to: Coord) -> bool {
    forall|c: Coord| #[trigger] link_shape_spec(from, to).contains(c) ==> !m.contains_key(c)
}

/// Whether a link from `from` to `to` fits.
pub fn space_for_link(map: &GridMap, from: Coord, to: Coord) -> (b: bool)
    requires
        coord_ok(from),
        coord_ok(to),
    ensures
        b == link_fits(map@, from, to),
{
    let ls = LinkSpace::new_pos(from, to);
    let shape = ls.shape;
    let mut i: usize = 0;
    while i < shape.len()
        invariant
            i <= shape.len(),
            shape@ == link_shape_spec(from, to),
            forall|j: int| 0 <= j < i ==> !map@.contains_key(#[trigger] shape@[j]),
        decreases shape.len() - i,
    {
        if map.get(shape[i]).is_some() {
            assert(shape@.contains(shape@[i as int]));
            return false;
        }
        i += 1;
    }
    proof {
        assert forall|c: Coord| #[trigger] link_shape_spec(from, to).contains(c) implies !map@.contains_key(c) by {
            let j = choose|j: int| 0 <= j < shape@.len() && shape@[j] == c;
        }
    }
    true
}

/// The cells a link from `from` to `to` is drawn on.
pub fn link_shape(from: Coord, to: Coord) -> (v: Vec<Coord>)
    requires
        coord_ok(from),
        coord_ok(to),
    ensures
        v@ == link_shape_spec(from, to),
{
    LinkSpace::new_pos(from, to).shape
}

/// How far links from a node may reach.
#[derive(Debug, Clone, Copy, PartialEq, Eq, Structural)]
pub struct LinkRange(pub i32);

impl LinkRange {
    pub fn new(range: i32) -> (r: LinkRange)
        ensures
            r.0 == range,
    {
        LinkRange(range)
    }

    pub fn get(&self) -> (r: i32)
        ensures
            r == self.0,
    {
        self.0
    }
}

/// Every node stands where distances can be computed.
pub open spec fn nodes_ok(nodes: Map<Entity, Node>) -> bool {
    forall|e: Entity| #[trigger] nodes.contains_key(e) ==> coord_ok(nodes[e].pos())
}

/// A link may be made from `from` to `to`: both are nodes, not yet linked
/// either way, the link's cells are free, both have a link range, and the
/// larger range reaches across the distance.
pub open spec fn linkable(
    nodes: Map<Entity, Node>,
    ranges: Map<Entity, LinkRange>,
    m: Map<Coord, Entity>,
    from: Entity,
    to: Entity,
) -> bool {
    &&& nodes.contains_key(from)
    &&& nodes.contains_key(to)
    &&& !nodes[from].neighbors().contains_key(to)
    &&& !nodes[to].neighbors().contains_key(from)
    &&& link_fits(m, nodes[from].pos(), nodes[to].pos())
    &&& ranges.contains_key(from)
    &&& ranges.contains_key(to)
    &&& hex_distance(nodes[from].pos(), nodes[to].pos()) <= (if ranges[from].0 >= ranges[to].0 {
        ranges[from].0
    } else {
        ranges[to].0
    })
}

/// Whether a link may be made from `from` to `to`.
pub fn can_link(
    nodes: &HashMap<Entity, Node>,
    ranges: &HashMap<Entity, LinkRange>,
    map: &GridMap,
    from: Entity,
    to: Entity,
) -> (b: bool)
    requires
        nodes_ok(nodes@),
    ensures
        b == linkable(nodes@, ranges@, map@, from, to),
{
    let from_node = match nodes.get(&from) {
        Some(n) => n,
        None => {
            return false;
        },
    };
    let to_node = match nodes.get(&to) {
        Some(n) => n,
        None => {
            return false;
        },
    };
    if from_node.link_to(to).is_some() || to_node.link_to(from).is_some() {
        return false;
    }
    let from_at = from_node.at();
    let to_at = to_node.at();
    if !space_for_link(map, from_at, to_at) {
        return false;
    }
    let from_range = match ranges.get(&from) {
        Some(r) => r.get(),
        None => {
            return false;
        },
    };
    let to_range = match ranges.get(&to) {
        Some(r) => r.get(),
        None => {
            return false;
        },
    };
    let reach = if from_range >= to_range {
        from_range
    } else {
        to_range
    };
    if reach < from_at.distance(to_at) {
        return false;
    }
    true
}

} // verus!
