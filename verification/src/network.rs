//! The routing graph of an area: which nodes are joined by which links, and
//! the routes between them.

use std::collections::HashMap;
use std::hash::BuildHasher;

use petgraph::graphmap::GraphMap;
use petgraph::Undirected;

use vstd::prelude::*;

use crate::graph::{Link, Node, PathDir, Route};
use crate::hex::{coord_ok, hex_distance, Coord, COORD_LIMIT};
use crate::Entity;

verus! {

broadcast use vstd::std_specs::hash::group_hash_axioms;

#[verifier::external_type_specification]
#[verifier::external_body]
pub struct ExUndirected(Undirected);

#[verifier::external_type_specification]
#[verifier::external_body]
#[verifier::reject_recursive_types(N)]
#[verifier::reject_recursive_types(E)]
#[verifier::reject_recursive_types(Ty)]
#[verifier::reject_recursive_types(S)]
pub struct ExGraphMap<N, E, Ty, S: BuildHasher>(GraphMap<N, E, Ty, S>);

/// The undirected graph of nodes, each edge weighted by its link.
pub type GraphData = GraphMap<Entity, Entity, Undirected>;

/// The two ends of an edge.
pub type EdgeKey = (Entity, Entity);

/// The key an undirected edge is stored under: its ends, smaller first.
pub open spec fn edge_key(a: Entity, b: Entity) -> (Entity, Entity) {
    if a <= b { (a, b) } else { (b, a) }
}

/// The edges of a graph, by `edge_key`, with their link.
pub uninterp spec fn graph_edges(g: GraphData) -> Map<(Entity, Entity), Entity>;

/// The nodes of a graph, in the order they were first added.
pub uninterp spec fn graph_nodes(g: GraphData) -> Seq<Entity>;

/// A graph without edges.
pub open spec fn no_edges() -> Map<EdgeKey, Entity> {
    Map::empty()
}

/// `s` with `n` added at the end unless it is there already.
pub open spec fn add_node(s: Seq<Entity>, n: Entity) -> Seq<Entity> {
    if s.contains(n) { s } else { s.push(n) }
}

/// `GraphMap::new`: no nodes and no edges.
#[verifier::external_body]
fn graph_new() -> (out: GraphData)
    ensures
        graph_edges(out) == no_edges(),
        graph_nodes(out) == Seq::<Entity>::empty(),
{
    GraphMap::new()
}

/// `GraphMap::add_edge`: stores the weight under the edge's key, returns the
/// weight it replaced, and appends each end (first `a`, then `b`) to the node
/// list unless present.
#[verifier::external_body]
fn graph_add_edge(g: &mut GraphData, a: Entity, b: Entity, w: Entity) -> (old_w: Option<Entity>)
    ensures
        graph_edges(*final(g)) == graph_edges(*old(g)).insert(edge_key(a, b), w),
        old_w == (if graph_edges(*old(g)).contains_key(edge_key(a, b)) {
            Some(graph_edges(*old(g))[edge_key(a, b)])
        } else {
            None
        }),
        graph_nodes(*final(g)) == add_node(add_node(graph_nodes(*old(g)), a), b),
{
    g.add_edge(a, b, w)
}

/// `GraphMap::remove_edge`: removes the edge's key and returns its weight;
/// the node list stays.
#[verifier::external_body]
fn graph_remove_edge(g: &mut GraphData, a: Entity, b: Entity) -> (old_w: Option<Entity>)
    ensures
        graph_edges(*final(g)) == graph_edges(*old(g)).remove(edge_key(a, b)),
        old_w == (if graph_edges(*old(g)).contains_key(edge_key(a, b)) {
            Some(graph_edges(*old(g))[edge_key(a, b)])
        } else {
            None
        }),
        graph_nodes(*final(g)) == graph_nodes(*old(g)),
{
    g.remove_edge(a, b)
}

/// `GraphMap::contains_edge`: whether the edge's key is stored.
#[verifier::external_body]
fn graph_contains_edge(g: &GraphData, a: Entity, b: Entity) -> (r: bool)
    ensures
        r == graph_edges(*g).contains_key(edge_key(a, b)),
{
    g.contains_edge(a, b)
}

/// `GraphMap::edge_weight`: the weight stored under the edge's key.
#[verifier::external_body]
fn graph_edge_weight(g: &GraphData, a: Entity, b: Entity) -> (w: Option<Entity>)
    ensures
        w == (if graph_edges(*g).contains_key(edge_key(a, b)) {
            Some(graph_edges(*g)[edge_key(a, b)])
        } else {
            None
        }),
{
    g.edge_weight(a, b).copied()
}

/// `GraphMap::nodes`: the keys of the node index, in insertion order.
#[verifier::external_body]
fn graph_node_list(g: &GraphData) -> (v: Vec<Entity>)
    ensures
        v@ == graph_nodes(*g),
{
    g.nodes().collect()
}

/// The most nodes a routing graph may have.  The search adds up link costs
/// along paths without repeated nodes, plus a guess below 2^25; this bound and
/// `MAX_LINK_COST` together keep every such sum below 2^31, so that it fits a
/// `usize` of 32 bits as well as one of 64.
pub const MAX_ROUTE_NODES: usize = 1024;

/// The longest link a route may cross, in cells; with `MAX_ROUTE_NODES` it
/// keeps the search's sums within a 32-bit `usize`.
pub const MAX_LINK_COST: usize = 1048576;

/// The cost of crossing link `w`: the number of cells of its path.
pub open spec fn link_cost(links: Map<Entity, Link>, w: Entity) -> int {
    if links.contains_key(w) {
        links[w].path@.len() as int
    } else {
        0
    }
}

/// The summed cost of the links a walk crosses, edge by edge.
pub open spec fn walk_cost(edges: Map<EdgeKey, Entity>, links: Map<Entity, Link>, p: Seq<Entity>) -> int
    decreases p.len(),
{
    if p.len() <= 1 {
        0
    } else {
        walk_cost(edges, links, p.drop_last()) + link_cost(
            links,
            edges[edge_key(p[p.len() - 2], p[p.len() - 1])],
        )
    }
}

/// The summed cost of the links a route crosses.
pub open spec fn route_cost(links: Map<Entity, Link>, route: Seq<(Entity, PathDir)>) -> int
    decreases route.len(),
{
    if route.len() == 0 {
        0
    } else {
        route_cost(links, route.drop_last()) + link_cost(links, route.last().0)
    }
}

/// `len` is what some walk from `a` to `b` costs.
pub open spec fn walk_cost_of(
    edges: Map<EdgeKey, Entity>,
    links: Map<Entity, Link>,
    a: Entity,
    b: Entity,
    len: int,
) -> bool {
    exists|q: Seq<Entity>| #[trigger] walk_between(edges, q, a, b) && walk_cost(edges, links, q) == len
}

/// `p` steps from node to node along edges of the graph.
pub open spec fn is_walk(edges: Map<EdgeKey, Entity>, p: Seq<Entity>) -> bool {
    forall|i: int|
        #![trigger p[i]]
        0 <= i < p.len() - 1 ==> edges.contains_key(edge_key(p[i], p[i + 1]))
}

/// `p` walks from `a` to `b`.
pub open spec fn walk_between(edges: Map<EdgeKey, Entity>, p: Seq<Entity>, a: Entity, b: Entity) -> bool {
    &&& p.len() >= 1
    &&& p[0] == a
    &&& p.last() == b
    &&& is_walk(edges, p)
}

/// Some walk leads from `a` to `b`.
pub open spec fn connected(edges: Map<EdgeKey, Entity>, a: Entity, b: Entity) -> bool {
    exists|p: Seq<Entity>| #[trigger] walk_between(edges, p, a, b)
}

/// The route's `i`-th step crosses the link of the walk's `i`-th edge, forward
/// when the walk leaves from the link's `from` node.
pub open spec fn step_along(
    edges: Map<EdgeKey, Entity>,
    links: Map<Entity, Link>,
    p: Seq<Entity>,
    route: Seq<(Entity, PathDir)>,
    i: int,
) -> bool {
    let w = edges[edge_key(p[i], p[i + 1])];
    route[i] == (w, if links[w].from == p[i] {
        PathDir::Fwd
    } else {
        PathDir::Rev
    })
}

/// `route` crosses, in order, the links of a walk from `a` to `b`.
pub open spec fn route_along(
    edges: Map<EdgeKey, Entity>,
    links: Map<Entity, Link>,
    a: Entity,
    b: Entity,
    route: Seq<(Entity, PathDir)>,
) -> bool {
    exists|p: Seq<Entity>|
        #[trigger] walk_between(edges, p, a, b) && route.len() == p.len() - 1 && forall|i: int|
            #![trigger route[i]]
            0 <= i < route.len() ==> step_along(edges, links, p, route, i)
}

/// The link of an edge is known, joins exactly the edge's ends, and is not
/// too long.
pub open spec fn edge_fits(k: EdgeKey, w: Entity, links: Map<Entity, Link>) -> bool {
    &&& links.contains_key(w)
    &&& edge_key(links[w].from, links[w].to) == k
    &&& links[w].path@.len() <= MAX_LINK_COST
}

/// The graph agrees with the tables of links and nodes, and is small enough
/// for its route costs to be counted.
pub open spec fn graph_fits(g: GraphData, links: Map<Entity, Link>, nodes: Map<Entity, Node>) -> bool {
    &&& graph_nodes(g).len() <= MAX_ROUTE_NODES
    &&& forall|k: EdgeKey| #[trigger]
        graph_edges(g).contains_key(k) ==> edge_fits(k, graph_edges(g)[k], links)
    &&& forall|i: int|
        #![trigger graph_nodes(g)[i]]
        0 <= i < graph_nodes(g).len() ==> nodes.contains_key(graph_nodes(g)[i]) && coord_ok(
            nodes[graph_nodes(g)[i]].pos(),
        )
}

/// Whether `n` is the node searched for.
fn reached(n: Entity, goal: Entity) -> (b: bool)
    ensures
        b == (n == goal),
{
    n == goal
}

/// The cost of crossing link `w`.
fn edge_cost(links: &HashMap<Entity, Link>, w: Entity) -> (c: usize)
    ensures
        c == link_cost(links@, w),
{
    match links.get(&w) {
        Some(l) => l.path.len(),
        None => 0,
    }
}

/// The guess of the search at node `n`: nothing at the goal or at an unknown
/// node, elsewhere the hex distance from `from_coord` to the node less two,
/// never below zero.
pub open spec fn estimate_at(nodes: Map<Entity, Node>, from_coord: Coord, goal: Entity, n: Entity) -> int {
    if n == goal || !nodes.contains_key(n) || !coord_ok(from_coord) || !coord_ok(nodes[n].pos()) {
        0
    } else {
        let d = hex_distance(from_coord, nodes[n].pos());
        if d > 2 {
            d - 2
        } else {
            0
        }
    }
}

/// The guess of the search at node `n`: nothing at the goal, elsewhere the
/// distance from the route's first node less two, never below zero.  At the
/// goal the guess is zero rather than that distance, because the search
/// asserts as much in debug builds; this may change which of several routes
/// the search finds, though not how a route's length is counted.
fn route_estimate(nodes: &HashMap<Entity, Node>, from_coord: Coord, goal: Entity, n: Entity) -> (e:
    usize)
    ensures
        e == estimate_at(nodes@, from_coord, goal, n),
        n == goal ==> e == 0,
        e <= 4 * COORD_LIMIT,
{
    if n == goal {
        return 0;
    }
    match nodes.get(&n) {
        Some(node) => {
            let at = node.at();
            if coord_ok_exec(from_coord) && coord_ok_exec(at) {
                let d = from_coord.distance(at);
                if d > 2 {
                    (d - 2) as usize
                } else {
                    0
                }
            } else {
                0
            }
        },
        None => 0,
    }
}

fn coord_ok_exec(c: Coord) -> (b: bool)
    ensures
        b == coord_ok(c),
{
    -COORD_LIMIT <= c.x && c.x <= COORD_LIMIT && -COORD_LIMIT <= c.y && c.y <= COORD_LIMIT
}

/// `petgraph::algo::astar` from `start` to `goal`, each edge costing its
/// link's path length, with `route_estimate` as the guess.  A found path
/// comes from the search's predecessor links, so it starts at `start`, ends
/// at the goal, and steps along edges; the search visits every node it can
/// reach, so it finds nothing only when no walk leads to `goal`.  The cost it
/// returns is the goal's f-score, which is its g-score as the guess is zero at
/// the goal: the summed edge costs of the walk along which the search last
/// lowered the goal's score, a walk from `start` to the goal.  Each node's
/// predecessor was set together with its g-score, and a g-score only ever
/// falls, so along the returned path every node's score is at least its
/// predecessor's plus the edge between: the path costs no more than the
/// returned cost.  As the guess is not consistent, the cost need not be the
/// least there is, nor equal to the path's own cost, and neither is stated.
/// When `start` is the goal the search stops at once with cost 0 and the path
/// `[start]`.  Every g-score is the cost of a path without repeated nodes, so
/// with at most `MAX_ROUTE_NODES` nodes and `MAX_LINK_COST` a link, the
/// search's sums, its guesses included, stay below 2^31 and cannot overflow
/// even a 32-bit `usize`.
#[verifier::external_body]
fn graph_astar(
    g: &GraphData,
    start: Entity,
    goal: Entity,
    links: &HashMap<Entity, Link>,
    nodes: &HashMap<Entity, Node>,
    from_coord: Coord,
) -> (r: Option<(usize, Vec<Entity>)>)
    requires
        graph_nodes(*g).len() <= MAX_ROUTE_NODES,
        forall|k: EdgeKey| #[trigger]
            graph_edges(*g).contains_key(k) ==> link_cost(links@, graph_edges(*g)[k])
                <= MAX_LINK_COST,
    ensures
        r matches Some(found) ==> walk_between(graph_edges(*g), found.1@, start, goal),
        r matches Some(found) ==> walk_cost(graph_edges(*g), links@, found.1@) <= found.0,
        r matches Some(found) ==> walk_cost_of(graph_edges(*g), links@, start, goal, found.0 as int),
        r is None ==> !connected(graph_edges(*g), start, goal),
        start == goal ==> r is Some,
        r matches Some(found) ==> (start == goal ==> found.0 == 0 && found.1@ == seq![start]),
{
    petgraph::algo::astar(
        g,
        start,
        |n| reached(n, goal),
        |e: (Entity, Entity, &Entity)| edge_cost(links, *e.2),
        |n| route_estimate(nodes, from_coord, goal, n),
    )
}

proof fn lemma_edge_key_ends(x: Entity, y: Entity, a: Entity, b: Entity)
    requires
        edge_key(x, y) == edge_key(a, b),
    ensures
        (x == a && y == b) || (x == b && y == a),
{
}

/// The cost of a walk's first `k` nodes is no more than the whole walk's.
proof fn lemma_walk_cost_prefix(edges: Map<EdgeKey, Entity>, links: Map<Entity, Link>, p: Seq<Entity>, k: int)
    requires
        1 <= k <= p.len(),
    ensures
        walk_cost(edges, links, p.take(k)) <= walk_cost(edges, links, p),
    decreases p.len(),
{
    if k < p.len() {
        assert(p.drop_last().take(k) =~= p.take(k));
        lemma_walk_cost_prefix(edges, links, p.drop_last(), k);
    } else {
        assert(p.take(k) =~= p);
    }
}

/// A route from `from` to `to` through the graph, with its length: `None`
/// exactly when no walk leads there.  The length is the number of cells of
/// the paths of the links the route crosses; from a node to itself the route
/// is empty and its length 0.  The search finds the route; the length is
/// counted along the route itself, so that it never exceeds the search's own
/// cost.
pub fn calc_route(
    data: &GraphData,
    links: &HashMap<Entity, Link>,
    nodes: &HashMap<Entity, Node>,
    from: Entity,
    to: Entity,
) -> (r: Option<(usize, Route)>)
    requires
        graph_fits(*data, links@, nodes@),
        nodes@.contains_key(from),
        coord_ok(nodes@[from].pos()),
    ensures
        r is None <==> !connected(graph_edges(*data), from, to),
        r matches Some(found) ==> route_along(graph_edges(*data), links@, from, to, found.1@),
        r matches Some(found) ==> found.0 == route_cost(links@, found.1@),
        r matches Some(found) ==> walk_cost_of(graph_edges(*data), links@, from, to, found.0 as int),
        from == to ==> (r matches Some(found) && found.0 == 0 && found.1@.len() == 0),
{
    let from_coord = match nodes.get(&from) {
        Some(n) => n.at(),
        None => vstd::pervasive::unreached(),
    };
    proof {
        assert forall|k: EdgeKey| #[trigger] graph_edges(*data).contains_key(k) implies link_cost(
            links@,
            graph_edges(*data)[k],
        ) <= MAX_LINK_COST by {
            assert(edge_fits(k, graph_edges(*data)[k], links@));
        }
    }
    let (len, path) = match graph_astar(data, from, to, links, nodes, from_coord) {
        Some(found) => found,
        None => {
            return None;
        },
    };
    let ghost edges = graph_edges(*data);
    let mut route: Route = Vec::new();
    let mut cost: usize = 0;
    let mut ix: usize = 0;
    while ix < path.len() - 1
        invariant
            walk_between(edges, path@, from, to),
            edges == graph_edges(*data),
            graph_fits(*data, links@, nodes@),
            ix <= path.len() - 1,
            route@.len() == ix,
            forall|i: int|
                #![trigger route@[i]]
                0 <= i < ix ==> step_along(edges, links@, path@, route@, i),
            route_cost(links@, route@) == walk_cost(edges, links@, path@.take(ix + 1)),
            walk_cost(edges, links@, path@) <= len,
            cost == route_cost(links@, route@),
        decreases path.len() - 1 - ix,
    {
        assert(edges.contains_key(edge_key(path@[ix as int], path@[ix + 1])));
        let link_ent = match graph_edge_weight(data, path[ix], path[ix + 1]) {
            Some(w) => w,
            None => vstd::pervasive::unreached(),
        };
        assert(edge_fits(edge_key(path@[ix as int], path@[ix + 1]), link_ent, links@));
        let link = match links.get(&link_ent) {
            Some(l) => l,
            None => vstd::pervasive::unreached(),
        };
        proof {
            lemma_edge_key_ends(link.from, link.to, path@[ix as int], path@[ix + 1]);
        }
        let dir = if link.from == path[ix] {
            PathDir::Fwd
        } else {
            PathDir::Rev
        };
        let ghost route0 = route@;
        proof {
            assert(path@.take(ix + 2).drop_last() =~= path@.take(ix + 1));
            let t = path@.take(ix + 2);
            assert(t[t.len() - 2] == path@[ix as int] && t[t.len() - 1] == path@[ix + 1]);
            lemma_walk_cost_prefix(edges, links@, path@, ix + 2);
        }
        cost = cost + link.path.len();
        route.push((link_ent, dir));
        proof {
            assert(route@.drop_last() =~= route0);
            assert forall|i: int| #![trigger route@[i]] 0 <= i < ix + 1 implies step_along(
                edges,
                links@,
                path@,
                route@,
                i,
            ) by {
                if i < ix {
                    assert(step_along(edges, links@, path@, route@.drop_last(), i));
                }
            }
        }
        ix += 1;
    }
    proof {
        assert(walk_between(edges, path@, from, to) && route@.len() == path@.len() - 1);
        assert(path@.take(ix + 1) =~= path@);
    }
    Some((cost, route))
}

/// The key a pair of nodes is cached under.
pub open spec fn pair_key(a: Entity, b: Entity) -> int {
    a * 18446744073709551616 + b
}

proof fn lemma_pair_key_injective(a: Entity, b: Entity, c: Entity, d: Entity)
    requires
        pair_key(a, b) == pair_key(c, d),
    ensures
        a == c && b == d,
{
    if a > c {
        assert(a * 18446744073709551616 - c * 18446744073709551616 >= 18446744073709551616)
            by (nonlinear_arith)
            requires
                a > c,
        ;
    }
    if a < c {
        assert(c * 18446744073709551616 - a * 18446744073709551616 >= 18446744073709551616)
            by (nonlinear_arith)
            requires
                a < c,
        ;
    }
}

fn pair_key_exec(a: Entity, b: Entity) -> (k: u128)
    ensures
        k == pair_key(a, b),
{
    proof {
        assert(a * 18446744073709551616 + b <= u128::MAX) by (nonlinear_arith)
            requires
                a <= u64::MAX,
                b <= u64::MAX,
        ;
    }
    (a as u128) * 18446744073709551616u128 + (b as u128)
}

/// `route` crosses, in order, the edges of a walk from `a` to `b`.
pub open spec fn route_walks(
    edges: Map<EdgeKey, Entity>,
    a: Entity,
    b: Entity,
    route: Seq<(Entity, PathDir)>,
) -> bool {
    exists|p: Seq<Entity>|
        #[trigger] walk_between(edges, p, a, b) && route.len() == p.len() - 1 && forall|i: int|
            #![trigger route[i]]
            0 <= i < route.len() ==> route[i].0 == edges[edge_key(p[i], p[i + 1])]
}

/// What an answer says: the route's length and the links crossed, if found.
pub open spec fn answer_view(r: Option<(usize, Route)>) -> Option<(usize, Seq<(Entity, PathDir)>)> {
    match r {
        None => None,
        Some(found) => Some((found.0, found.1@)),
    }
}

/// A remembered answer for the route from `a` to `b` is right for the edges.
pub open spec fn answer_ok(
    edges: Map<EdgeKey, Entity>,
    a: Entity,
    b: Entity,
    r: Option<(usize, Seq<(Entity, PathDir)>)>,
) -> bool {
    match r {
        None => !connected(edges, a, b),
        Some(found) => route_walks(edges, a, b, found.1),
    }
}

/// A remembered answer's length is right for the links: what its route
/// costs, which is what a walk from `a` to `b` costs.
pub open spec fn answer_costs_ok(
    edges: Map<EdgeKey, Entity>,
    links: Map<Entity, Link>,
    a: Entity,
    b: Entity,
    r: Option<(usize, Seq<(Entity, PathDir)>)>,
) -> bool {
    match r {
        None => true,
        Some(found) => found.0 == route_cost(links, found.1) && walk_cost_of(edges, links, a, b, found.0 as int),
    }
}

/// A copy of a route.
pub fn copy_route(r: &Route) -> (c: Route)
    ensures
        c@ == r@,
{
    let mut v: Route = Vec::new();
    let mut i: usize = 0;
    while i < r.len()
        invariant
            i <= r.len(),
            v@ == r@.take(i as int),
        decreases r.len() - i,
    {
        v.push(r[i]);
        i += 1;
        proof {
            assert(v@ =~= r@.take(i as int));
        }
    }
    proof {
        assert(v@ =~= r@);
    }
    v
}

/// A copy of an answer.
fn copy_answer(r: &Option<(usize, Route)>) -> (c: Option<(usize, Route)>)
    ensures
        answer_view(c) == answer_view(*r),
{
    match r {
        None => None,
        Some(found) => {
            let v = copy_route(&found.1);
            Some((found.0, v))
        },
    }
}

/// A routing graph, remembering the routes it has worked out since its edges
/// last changed.
#[derive(Debug)]
pub struct Graph {
    data: GraphData,
    route_cache: HashMap<u128, Option<(usize, Route)>>,
}

impl Graph {
    /// The edges of the graph, by key, with their links.
    pub closed spec fn edges(&self) -> Map<EdgeKey, Entity> {
        graph_edges(self.data)
    }

    /// The nodes of the graph, in the order they were first added.
    pub closed spec fn node_seq(&self) -> Seq<Entity> {
        graph_nodes(self.data)
    }

    /// The graph as the routing search sees it.
    pub closed spec fn data_view(&self) -> GraphData {
        self.data
    }

    /// The answer remembered for the route from `a` to `b`, if any.
    pub closed spec fn cached(&self, a: Entity, b: Entity) -> Option<
        Option<(usize, Seq<(Entity, PathDir)>)>,
    > {
        if self.route_cache@.contains_key(pair_key(a, b) as u128) {
            Some(answer_view(self.route_cache@[pair_key(a, b) as u128]))
        } else {
            None
        }
    }

    /// Every remembered answer is right for the current edges.
    pub closed spec fn cache_ok(&self) -> bool {
        forall|a: Entity, b: Entity|
            #![trigger self.route_cache@.contains_key(pair_key(a, b) as u128)]
            self.route_cache@.contains_key(pair_key(a, b) as u128) ==> answer_ok(
                graph_edges(self.data),
                a,
                b,
                answer_view(self.route_cache@[pair_key(a, b) as u128]),
            )
    }

    /// Every remembered cost is right for the links `links`.
    pub closed spec fn costs_ok(&self, links: Map<Entity, Link>) -> bool {
        forall|a: Entity, b: Entity|
            #![trigger self.route_cache@.contains_key(pair_key(a, b) as u128)]
            self.route_cache@.contains_key(pair_key(a, b) as u128) ==> answer_costs_ok(
                graph_edges(self.data),
                links,
                a,
                b,
                answer_view(self.route_cache@[pair_key(a, b) as u128]),
            )
    }

    /// A remembered cost of a graph whose costs are right is right.
    pub proof fn lemma_cached_costs(&self, links: Map<Entity, Link>, a: Entity, b: Entity)
        requires
            self.costs_ok(links),
            self.cached(a, b) is Some,
        ensures
            answer_costs_ok(self.edges(), links, a, b, self.cached(a, b)->0),
    {
        assert(self.route_cache@.contains_key(pair_key(a, b) as u128));
    }

    /// A remembered answer of a graph whose answers are right is right.
    pub proof fn lemma_cached_ok(&self, a: Entity, b: Entity)
        requires
            self.cache_ok(),
            self.cached(a, b) is Some,
        ensures
            answer_ok(self.edges(), a, b, self.cached(a, b)->0),
    {
        assert(self.route_cache@.contains_key(pair_key(a, b) as u128));
    }

    pub fn new() -> (g: Graph)
        ensures
            g.edges() == no_edges(),
            g.node_seq() == Seq::<Entity>::empty(),
            g.cache_ok(),
            forall|l: Map<Entity, Link>| #[trigger] g.costs_ok(l),
            forall|a: Entity, b: Entity| #[trigger] g.cached(a, b) is None,
    {
        Graph { data: graph_new(), route_cache: HashMap::new() }
    }

    /// Joins `from` and `to` by the link `link_ent`; forgets every remembered
    /// route.
    pub fn add_link_to(&mut self, from: Entity, to: Entity, link_ent: Entity)
        ensures
            final(self).edges() == old(self).edges().insert(edge_key(from, to), link_ent),
            final(self).node_seq() == add_node(add_node(old(self).node_seq(), from), to),
            final(self).cache_ok(),
            forall|l: Map<Entity, Link>| #[trigger] final(self).costs_ok(l),
            forall|a: Entity, b: Entity| #[trigger] final(self).cached(a, b) is None,
    {
        graph_add_edge(&mut self.data, from, to, link_ent);
        self.route_cache.clear();
    }

    /// Adds the link `link`, whose entity is `entity`.
    pub fn add_link(&mut self, link: &Link, entity: Entity)
        ensures
            final(self).edges() == old(self).edges().insert(edge_key(link.from, link.to), entity),
            final(self).node_seq() == add_node(add_node(old(self).node_seq(), link.from), link.to),
            final(self).cache_ok(),
            forall|l: Map<Entity, Link>| #[trigger] final(self).costs_ok(l),
            forall|a: Entity, b: Entity| #[trigger] final(self).cached(a, b) is None,
    {
        self.add_link_to(link.from, link.to, entity);
    }

    /// Removes the link between `from` and `to`, returning it; forgets every
    /// remembered route when there was one.
    pub fn remove_link(&mut self, from: Entity, to: Entity) -> (r: Option<Entity>)
        requires
            old(self).cache_ok(),
        ensures
            final(self).edges() == old(self).edges().remove(edge_key(from, to)),
            final(self).node_seq() == old(self).node_seq(),
            r == (if old(self).edges().contains_key(edge_key(from, to)) {
                Some(old(self).edges()[edge_key(from, to)])
            } else {
                None
            }),
            r is Some ==> forall|a: Entity, b: Entity| #[trigger] final(self).cached(a, b) is None,
            r is None ==> forall|a: Entity, b: Entity| #[trigger]
                final(self).cached(a, b) == old(self).cached(a, b),
            final(self).cache_ok(),
            forall|l: Map<Entity, Link>| old(self).costs_ok(l) ==> #[trigger] final(self).costs_ok(l),
    {
        let ret = graph_remove_edge(&mut self.data, from, to);
        if ret.is_some() {
            self.route_cache.clear();
        } else {
            proof {
                assert(self.edges() =~= old(self).edges());
            }
        }
        ret
    }

    /// The nodes of the graph.
    pub fn nodes(&self) -> (v: Vec<Entity>)
        ensures
            v@ == self.node_seq(),
    {
        graph_node_list(&self.data)
    }

    /// Whether an edge joins `a` and `b`.
    pub fn contains_edge(&self, a: Entity, b: Entity) -> (r: bool)
        ensures
            r == self.edges().contains_key(edge_key(a, b)),
    {
        graph_contains_edge(&self.data, a, b)
    }

    /// The route from `from` to `to`: the remembered answer if there is one,
    /// else a freshly worked out one, which is then remembered.
    pub fn route(
        &mut self,
        links: &HashMap<Entity, Link>,
        nodes: &HashMap<Entity, Node>,
        from: Entity,
        to: Entity,
    ) -> (r: Option<(usize, Route)>)
        requires
            old(self).cache_ok(),
            old(self).costs_ok(links@),
            graph_fits(old(self).data_view(), links@, nodes@),
            nodes@.contains_key(from),
            coord_ok(nodes@[from].pos()),
        ensures
            final(self).edges() == old(self).edges(),
            final(self).node_seq() == old(self).node_seq(),
            final(self).data_view() == old(self).data_view(),
            final(self).cache_ok(),
            final(self).costs_ok(links@),
            answer_costs_ok(old(self).edges(), links@, from, to, answer_view(r)),
            final(self).cached(from, to) == Some(answer_view(r)),
            forall|a: Entity, b: Entity|
                (a, b) != (from, to) ==> #[trigger] final(self).cached(a, b) == old(self).cached(a, b),
            answer_ok(old(self).edges(), from, to, answer_view(r)),
            old(self).cached(from, to) matches Some(c) ==> answer_view(r) == c,
            old(self).cached(from, to) is None ==> (r is None <==> !connected(
                old(self).edges(),
                from,
                to,
            )) && (r matches Some(found) ==> route_along(
                old(self).edges(),
                links@,
                from,
                to,
                found.1@,
            )),
            old(self).cached(from, to) is None ==> (r matches Some(found) ==> found.0 == route_cost(
                links@,
                found.1@,
            ) && walk_cost_of(old(self).edges(), links@, from, to, found.0 as int)),
            old(self).cached(from, to) is None && from == to ==> (r matches Some(found) && found.0 == 0
                && found.1@.len() == 0),
    {
        let key = pair_key_exec(from, to);
        match self.route_cache.get(&key) {
            Some(cached) => {
                let r = copy_answer(cached);
                proof {
                    assert(self.route_cache@.contains_key(pair_key(from, to) as u128));
                }
                return r;
            },
            None => {},
        }
        let r = calc_route(&self.data, links, nodes, from, to);
        proof {
            if r is Some {
                let found = r->0;
                let p = choose|p: Seq<Entity>|
                    #[trigger] walk_between(graph_edges(self.data), p, from, to) && found.1@.len()
                        == p.len() - 1 && forall|i: int|
                        #![trigger found.1@[i]]
                        0 <= i < found.1@.len() ==> step_along(
                            graph_edges(self.data),
                            links@,
                            p,
                            found.1@,
                            i,
                        );
                assert forall|i: int| #![trigger found.1@[i]] 0 <= i < found.1@.len() implies found.1@[i].0
                    == graph_edges(self.data)[edge_key(p[i], p[i + 1])] by {
                    assert(step_along(graph_edges(self.data), links@, p, found.1@, i));
                }
            }
        }
        let stored = copy_answer(&r);
        self.route_cache.insert(key, stored);
        proof {
            assert forall|a: Entity, b: Entity|
                #![trigger self.route_cache@.contains_key(pair_key(a, b) as u128)]
                self.route_cache@.contains_key(pair_key(a, b) as u128) implies answer_ok(
                graph_edges(self.data),
                a,
                b,
                answer_view(self.route_cache@[pair_key(a, b) as u128]),
            ) by {
                if pair_key(a, b) as u128 == key {
                    lemma_pair_key_injective(a, b, from, to);
                } else {
                    assert(old(self).route_cache@.contains_key(pair_key(a, b) as u128));
                }
            }
            assert forall|a: Entity, b: Entity|
                #![trigger self.route_cache@.contains_key(pair_key(a, b) as u128)]
                self.route_cache@.contains_key(pair_key(a, b) as u128) implies answer_costs_ok(
                graph_edges(self.data),
                links@,
                a,
                b,
                answer_view(self.route_cache@[pair_key(a, b) as u128]),
            ) by {
                if pair_key(a, b) as u128 == key {
                    lemma_pair_key_injective(a, b, from, to);
                } else {
                    assert(old(self).route_cache@.contains_key(pair_key(a, b) as u128));
                }
            }
            assert forall|a: Entity, b: Entity|
                (a, b) != (from, to) implies #[trigger] self.cached(a, b) == old(self).cached(a, b) by {
                if pair_key(a, b) as u128 == key {
                    lemma_pair_key_injective(a, b, from, to);
                }
            }
        }
        r
    }
}


/// Adding an edge between two nodes that had none and then removing it gives
/// back the edges the graph had.
pub proof fn law_link_then_unlink(
    e0: Map<EdgeKey, Entity>,
    e1: Map<EdgeKey, Entity>,
    e2: Map<EdgeKey, Entity>,
    a: Entity,
    b: Entity,
    w: Entity,
)
    requires
        !e0.contains_key(edge_key(a, b)),
        e1 == e0.insert(edge_key(a, b), w),
        e2 == e1.remove(edge_key(a, b)),
    ensures
        e2 == e0,
{
    assert(e2 =~= e0);
}

/// Edges have no direction: a graph joins `a` to `b` exactly when it joins
/// `b` to `a`, by the same link.
pub proof fn law_edges_undirected(g: Graph, a: Entity, b: Entity)
    ensures
        g.edges().contains_key(edge_key(a, b)) == g.edges().contains_key(edge_key(b, a)),
        g.edges()[edge_key(a, b)] == g.edges()[edge_key(b, a)],
{
}

/// What a graph remembers is right: a remembered answer for a pair is `None`
/// exactly when no walk joins them, and otherwise crosses the edges of a walk
/// from the first to the second.
pub proof fn law_remembered_answers_hold(g: Graph, a: Entity, b: Entity)
    requires
        g.cache_ok(),
        g.cached(a, b) is Some,
    ensures
        answer_ok(g.edges(), a, b, g.cached(a, b)->0),
{
    g.lemma_cached_ok(a, b);
}

} // verus!
