//! The rules of play: what the pointer selects, where things may be built,
//! and the growth test that spreads nodes outward.

use std::collections::HashMap;

use vstd::prelude::*;

use crate::area::AreaGraph;
use crate::geom::{areas_ok, GridMap};
use crate::graph::{link_fits, node_fits, nodes_ok, space_for_link, space_for_node, Node};
use crate::hex::{coord_ok, steps, Coord, Direction, COORD_LIMIT};
use crate::resource::{last_value, Pool, Resource, Sink, Source};
use crate::util::{increasing, sorted_keys};
use crate::world::Network;
use crate::Entity;

verus! {

broadcast use vstd::std_specs::hash::group_hash_axioms;

/// What the cell under the pointer is drawn as.
#[derive(Debug, Clone, Copy, PartialEq, Eq, Structural)]
pub enum MWKind {
    Blank,
    Highlight,
    PlaceNodeFrom(Coord),
}

/// The cell under the pointer, how it is drawn, and whether acting there is
/// allowed.
#[derive(Debug, Clone, Copy, PartialEq, Eq, Structural)]
pub struct MouseWidget {
    pub coord: Option<Coord>,
    pub kind: MWKind,
    pub valid: bool,
}

impl MouseWidget {
    /// The widget a fresh game starts with: nowhere, drawn as nothing, valid.
    pub fn new() -> (w: MouseWidget)
        ensures
            w.coord is None,
            w.kind == MWKind::Blank,
            w.valid,
    {
        MouseWidget { coord: None, kind: MWKind::Blank, valid: true }
    }
}

/// The widget a fresh game starts with.
pub fn prep_world() -> (w: MouseWidget)
    ensures
        w == MouseWidget::new_spec(),
{
    MouseWidget::new()
}

impl MouseWidget {
    pub open spec fn new_spec() -> MouseWidget {
        MouseWidget { coord: None, kind: MWKind::Blank, valid: true }
    }
}

/// What the pointer did, at which cell.
#[derive(Debug, Clone, Copy, PartialEq, Eq, Structural)]
pub enum PointerEvent {
    Motion(Coord),
    Press(Coord),
    Other,
}

/// The node whose cells include `at`, if the occupant there is a node.
pub open spec fn node_at_spec(map: Map<Coord, Entity>, nodes: Map<Entity, Node>, at: Coord) -> Option<Entity> {
    if map.contains_key(at) && nodes.contains_key(map[at]) {
        Some(map[at])
    } else {
        None
    }
}

/// The node whose cells include `at`, if the occupant there is a node.
pub fn node_at(map: &GridMap, nodes: &HashMap<Entity, Node>, at: Coord) -> (r: Option<Entity>)
    ensures
        r == node_at_spec(map@, nodes@, at),
{
    match map.get(at) {
        Some(e) => if nodes.contains_key(&e) {
            Some(e)
        } else {
            None
        },
        None => None,
    }
}

/// Selecting with the pointer: moving marks the cell valid unless something
/// other than a node is there, and selects nothing; pressing selects the node
/// there, if any; other events select nothing.
pub fn handle_node_selection(
    map: &GridMap,
    nodes: &HashMap<Entity, Node>,
    widget: &mut MouseWidget,
    event: PointerEvent,
) -> (sel: Option<Entity>)
    ensures
        match event {
            PointerEvent::Motion(c) => sel is None && *final(widget) == (MouseWidget {
                valid: !map@.contains_key(c) || nodes@.contains_key(map@[c]),
                ..*old(widget)
            }),
            PointerEvent::Press(c) => sel == node_at_spec(map@, nodes@, c) && *final(widget) == *old(widget),
            PointerEvent::Other => sel is None && *final(widget) == *old(widget),
        },
{
    match event {
        PointerEvent::Motion(c) => {
            let valid = match map.get(c) {
                Some(e) => nodes.contains_key(&e),
                None => true,
            };
            widget.valid = valid;
            None
        },
        PointerEvent::Press(c) => node_at(map, nodes, c),
        PointerEvent::Other => None,
    }
}

/// Whether a node may be built at `coord` and linked from the node at `fork`:
/// its cells are free, and so are the link's.
pub fn valid_to(map: &GridMap, fork: Coord, coord: Coord) -> (b: bool)
    requires
        coord_ok(fork),
        coord_ok(coord),
    ensures
        b == (node_fits(map@, coord) && link_fits(map@, fork, coord)),
{
    if !space_for_node(map, coord) {
        return false;
    }
    if !space_for_link(map, fork, coord) {
        return false;
    }
    true
}

/// The node a link from `from` would go to when the pointer is pressed at
/// `at`: the node there, if it is another node and the link's cells are free.
pub fn place_link_target(net: &Network, from: Entity, at: Coord) -> (r: Option<Entity>)
    requires
        nodes_ok(net.nodes@),
        net.nodes@.contains_key(from),
    ensures
        r == (match node_at_spec(net.map@, net.nodes@, at) {
            Some(e) => if e != from && link_fits(net.map@, net.nodes@[from].pos(), net.nodes@[e].pos()) {
                Some(e)
            } else {
                None
            },
            None => None,
        }),
{
    let found = match net.map.get(at) {
        Some(e) => e,
        None => {
            return None;
        },
    };
    if found == from {
        return None;
    }
    let dest_at = match net.nodes.get(&found) {
        Some(n) => n.at(),
        None => {
            return None;
        },
    };
    let self_at = match net.nodes.get(&from) {
        Some(n) => n.at(),
        None => vstd::pervasive::unreached(),
    };
    if !space_for_link(&net.map, self_at, dest_at) {
        return None;
    }
    Some(found)
}

/// Pressing at `at` while choosing what the area of `owner` ignores: the node
/// there, if it is another node, is ignored from now on, or no longer
/// ignored.  Returns whether it was.
pub fn toggle_exclude_at(net: &mut Network, owner: Entity, at: Coord) -> (done: bool)
    requires
        old(net).graphs@.contains_key(owner),
    ensures
        done == (node_at_spec(old(net).map@, old(net).nodes@, at) matches Some(e) && e != owner),
        !done ==> *final(net) == *old(net),
        done ==> {
            let e = old(net).map@[at];
            let before = old(net).graphs@[owner];
            let after = final(net).graphs@[owner];
            &&& final(net).graphs@ == old(net).graphs@.insert(owner, after)
            &&& after.center == before.center
            &&& after.radius == before.radius
            &&& after.data == before.data
            &&& after.excluded() == if before.excluded().contains(e) {
                before.excluded().remove(e)
            } else {
                before.excluded().insert(e)
            }
            &&& final(net).nodes@ == old(net).nodes@
            &&& final(net).links@ == old(net).links@
            &&& final(net).map@ == old(net).map@
            &&& final(net).sources@ == old(net).sources@
            &&& final(net).sinks@ == old(net).sinks@
        },
{
    let found = match net.map.get(at) {
        Some(e) => e,
        None => {
            return false;
        },
    };
    if found == owner {
        return false;
    }
    if !net.nodes.contains_key(&found) {
        return false;
    }
    let mut ag = match net.graphs.remove(&owner) {
        Some(g) => g,
        None => vstd::pervasive::unreached(),
    };
    ag.toggle_exclude(found);
    net.graphs.insert(owner, ag);
    proof {
        assert(net.graphs@ =~= old(net).graphs@.insert(owner, net.graphs@[owner]));
    }
    true
}

/// How many cells a growth step reaches out.
pub const GROW_LEN: usize = 5;

/// A node that keeps growing new nodes around it, one direction at a time.
#[derive(Debug)]
pub struct GrowTest {
    pub to_grow: Vec<Direction>,
    pub next_growth: usize,
}

impl GrowTest {
    /// A test that will grow in every direction, last listed first, starting
    /// once one unit of hydrogen has arrived.
    pub fn new() -> (g: GrowTest)
        ensures
            g.to_grow@ == seq![
                Direction::YZ,
                Direction::XZ,
                Direction::XY,
                Direction::ZY,
                Direction::ZX,
                Direction::YX,
            ],
            g.next_growth == 1,
    {
        GrowTest { to_grow: Direction::all(), next_growth: 1 }
    }
}

/// The amount of hydrogen a growth test keeps and asks for.
pub const GROW_STOCK: usize = 6;

/// How far a growth test's node offers its hydrogen.
pub const GROW_RANGE: i32 = 6;

impl GrowTest {
    /// Starts a growth test at node `ent`, unless one runs there already: the
    /// node becomes a source of hydrogen for the nodes near it and a sink
    /// wanting hydrogen.
    pub fn start(net: &mut Network, grows: &mut HashMap<Entity, GrowTest>, ent: Entity)
        requires
            nodes_ok(old(net).nodes@),
            old(grows)@.contains_key(ent) || old(net).nodes@.contains_key(ent),
        ensures
            areas_ok(old(net).areas@) ==> areas_ok(final(net).areas@),
            old(grows)@.contains_key(ent) ==> *final(net) == *old(net) && final(grows)@ == old(grows)@,
            !old(grows)@.contains_key(ent) ==> {
                &&& final(grows)@ == old(grows)@.insert(ent, final(grows)@[ent])
                &&& final(grows)@[ent].to_grow@.len() == 6
                &&& final(grows)@[ent].next_growth == 1
                &&& final(net).sources@.contains_key(ent)
                &&& final(net).sources@[ent].has.amount(Resource::H2) == GROW_STOCK
                &&& forall|r: Resource| r != Resource::H2 ==> #[trigger] final(net).sources@[ent].has.amount(r) == 0
                &&& final(net).graphs@.dom() == old(net).graphs@.dom().insert(ent)
                &&& final(net).graphs@[ent].center == old(net).nodes@[ent].pos()
                &&& final(net).graphs@[ent].radius == GROW_RANGE
                &&& final(net).sinks@ == old(net).sinks@.insert(ent, final(net).sinks@[ent])
                &&& final(net).sinks@[ent].want.amount(Resource::H2) == GROW_STOCK
                &&& forall|r: Resource| r != Resource::H2 ==> #[trigger] final(net).sinks@[ent].want.amount(r) == 0
                &&& forall|r: Resource| #[trigger] final(net).sinks@[ent].has.amount(r) == 0
                    && final(net).sinks@[ent].in_transit.amount(r) == 0
                &&& final(net).nodes@ == old(net).nodes@
                &&& final(net).links@ == old(net).links@
                &&& final(net).map@ == old(net).map@
            },
    {
        if grows.contains_key(&ent) {
            return;
        }
        grows.insert(ent, GrowTest::new());
        let mut stock: Vec<(Resource, usize)> = Vec::new();
        stock.push((Resource::H2, GROW_STOCK));
        let has = Pool::from(stock);
        proof {
            assert(last_value(stock@, Resource::H2) == Some(GROW_STOCK)) by {
                reveal_with_fuel(last_value, 2);
            }
            assert forall|r: Resource| r != Resource::H2 implies last_value(stock@, r) is None by {
                reveal_with_fuel(last_value, 2);
            }
        }
        Source::add(net, ent, has, GROW_RANGE);
        proof {
            if areas_ok(old(net).areas@) {
                assert forall|i: int| 0 <= i < net.areas@.len() implies coord_ok(#[trigger] net.areas@[i].center) by {
                    if i < old(net).areas@.len() {
                        assert(net.areas@[i] == old(net).areas@[i]);
                    }
                }
            }
        }
        let mut sink = Sink::new();
        let _ = sink.want.inc_by(Resource::H2, GROW_STOCK);
        net.sinks.insert(ent, sink);
        proof {
            assert(grows@ =~= old(grows)@.insert(ent, grows@[ent]));
            assert(net.sinks@ =~= old(net).sinks@.insert(ent, net.sinks@[ent]));
        }
    }
}

/// A coordinate far enough inside the grid that a growth step from it stays
/// on the grid.
pub open spec fn grow_room(c: Coord) -> bool {
    -COORD_LIMIT + GROW_LEN <= c.x <= COORD_LIMIT - GROW_LEN && -COORD_LIMIT + GROW_LEN <= c.y
        <= COORD_LIMIT - GROW_LEN
}

/// The growth test at `ent` grows this step: the node has a sink holding at
/// least the hydrogen the next growth takes, and directions are left.
pub open spec fn grows_now(net: &Network, grows: Map<Entity, GrowTest>, ent: Entity) -> bool {
    &&& net.nodes@.contains_key(ent)
    &&& net.sinks@.contains_key(ent)
    &&& grows.contains_key(ent)
    &&& net.sinks@[ent].has.amount(Resource::H2) >= grows[ent].next_growth
    &&& grows[ent].to_grow@.len() > 0
}

/// The growth the test at `ent` plans: from the node's cell, `GROW_LEN` cells
/// out in the last direction left.
pub open spec fn grow_plan(net: &Network, grows: Map<Entity, GrowTest>, ent: Entity) -> (Entity, Coord, Coord) {
    let at = net.nodes@[ent].pos();
    (ent, at, steps(at, grows[ent].to_grow@.last(), GROW_LEN as int))
}

fn grow_step_from(at: Coord, d: Direction) -> (c: Coord)
    requires
        grow_room(at),
    ensures
        c == steps(at, d, GROW_LEN as int),
{
    let mut c = at;
    let mut i: usize = 0;
    while i < GROW_LEN
        invariant
            i <= GROW_LEN,
            grow_room(at),
            c == steps(at, d, i as int),
        decreases GROW_LEN - i,
    {
        c = c.step(d);
        i += 1;
    }
    c
}

/// One step of the growth tests, in the order of their nodes: each test that
/// grows now (`grows_now`) takes its last direction and asks a hydrogen more
/// for the next growth, and its plan (`grow_plan`) is returned; the others
/// stay as they were.
pub fn grow_plans(net: &Network, grows: &mut HashMap<Entity, GrowTest>) -> (plans: Vec<(Entity, Coord, Coord)>)
    requires
        forall|e: Entity| #[trigger] net.nodes@.contains_key(e) ==> grow_room(net.nodes@[e].pos()),
        forall|e: Entity| #[trigger] old(grows)@.contains_key(e) ==> old(grows)@[e].next_growth < usize::MAX,
    ensures
        final(grows)@.dom() == old(grows)@.dom(),
        forall|e: Entity| #[trigger] final(grows)@.contains_key(e) ==> if grows_now(net, old(grows)@, e) {
            &&& final(grows)@[e].to_grow@ == old(grows)@[e].to_grow@.drop_last()
            &&& final(grows)@[e].next_growth == old(grows)@[e].next_growth + 1
        } else {
            final(grows)@[e] == old(grows)@[e]
        },
        exists|keys: Seq<Entity>|
            {
                &&& increasing(keys)
                &&& keys.to_set() == old(grows)@.dom()
                &&& plans@ == keys.filter(|e: Entity| grows_now(net, old(grows)@, e)).map_values(
                    |e: Entity| grow_plan(net, old(grows)@, e),
                )
            },
{
    let keys = sorted_keys(grows);
    let ghost g0 = grows@;
    let ghost now_p = |e: Entity| grows_now(net, g0, e);
    let ghost plan_f = |e: Entity| grow_plan(net, g0, e);
    let mut plans: Vec<(Entity, Coord, Coord)> = Vec::new();
    let mut i: usize = 0;
    while i < keys.len()
        invariant
            i <= keys.len(),
            keys@.no_duplicates(),
            keys@.to_set() == g0.dom(),
            forall|e: Entity| #[trigger] net.nodes@.contains_key(e) ==> grow_room(net.nodes@[e].pos()),
            forall|e: Entity| #[trigger] g0.contains_key(e) ==> g0[e].next_growth < usize::MAX,
            grows@.dom() == g0.dom(),
            forall|e: Entity| #[trigger] grows@.contains_key(e) ==> if keys@.take(i as int).contains(e) && grows_now(net, g0, e) {
                &&& grows@[e].to_grow@ == g0[e].to_grow@.drop_last()
                &&& grows@[e].next_growth == g0[e].next_growth + 1
            } else {
                grows@[e] == g0[e]
            },
            plans@ == keys@.take(i as int).filter(now_p).map_values(plan_f),
            now_p == (|e: Entity| grows_now(net, g0, e)),
            plan_f == (|e: Entity| grow_plan(net, g0, e)),
        decreases keys.len() - i,
    {
        let e = keys[i];
        proof {
            assert(keys@.take(i + 1) =~= keys@.take(i as int).push(e));
            assert(!keys@.take(i as int).contains(e)) by {
                if keys@.take(i as int).contains(e) {
                    let j = choose|j: int| 0 <= j < i && keys@.take(i as int)[j] == e;
                    assert(keys@[j] == keys@[i as int]);
                }
            }
            assert(keys@.to_set().contains(e));
            crate::util::lemma_filter_take_step(keys@, now_p, i as int);
        }
        let ghost grows1 = grows@;
        let ghost plans0 = plans@;
        let mut grew = false;
        let node_at_e = net.nodes.get(&e);
        let sink_e = net.sinks.get(&e);
        if node_at_e.is_some() && sink_e.is_some() {
            let at = match node_at_e {
                Some(n) => n.at(),
                None => vstd::pervasive::unreached(),
            };
            let h2 = match sink_e {
                Some(s) => s.has.get(Resource::H2),
                None => vstd::pervasive::unreached(),
            };
            let mut g = match grows.remove(&e) {
                Some(g) => g,
                None => vstd::pervasive::unreached(),
            };
            if h2 >= g.next_growth && g.to_grow.len() > 0 {
                let d = match g.to_grow.pop() {
                    Some(d) => d,
                    None => vstd::pervasive::unreached(),
                };
                let next = grow_step_from(at, d);
                proof {
                    assert(grows1[e] == g0[e]);
                    assert(d == g0[e].to_grow@.last());
                    assert((e, at, next) == plan_f(e));
                }
                plans.push((e, at, next));
                g.next_growth = g.next_growth + 1;
                grew = true;
            }
            grows.insert(e, g);
        }
        proof {
            assert(grew == grows_now(net, g0, e));
            if grew {
                assert(keys@.take(i as int).filter(now_p).push(e).map_values(plan_f) =~= keys@.take(i as int).filter(now_p).map_values(plan_f).push(plan_f(e)));
                assert(plans@ == plans0.push(plan_f(e)));
            } else {
                assert(plans@ == plans0);
            }
            assert(now_p(e) == grows_now(net, g0, e));
            assert(grows@.dom() =~= g0.dom());
            assert forall|x: Entity| #[trigger] grows@.contains_key(x) implies if keys@.take(i + 1).contains(x) && grows_now(net, g0, x) {
                &&& grows@[x].to_grow@ == g0[x].to_grow@.drop_last()
                &&& grows@[x].next_growth == g0[x].next_growth + 1
            } else {
                grows@[x] == g0[x]
            } by {
                crate::util::lemma_push_contains(keys@.take(i as int), e, x);
            }
        }
        i += 1;
    }
    proof {
        assert(keys@.take(keys@.len() as int) =~= keys@);
    }
    plans
}

/// Whether a growth from a node at `at` to `next` has room: the new node's
/// cells and the link's are free.
pub fn can_grow(map: &GridMap, at: Coord, next: Coord) -> (b: bool)
    requires
        coord_ok(at),
        coord_ok(next),
    ensures
        b == (node_fits(map@, next) && link_fits(map@, at, next)),
{
    valid_to(map, at, next)
}

proof fn lemma_link_fits_after_node(m: Map<Coord, Entity>, s: Seq<Coord>, e: Entity, a: Coord, b: Coord)
    requires
        link_fits(m, a, b),
        s.to_set() == crate::world::node_disk(b),
    ensures
        link_fits(crate::geom::placed(m, s, e), a, b),
{
    let shape = crate::graph::link_shape_spec(a, b);
    assert forall|c: Coord| #[trigger] shape.contains(c) implies !crate::geom::placed(m, s, e).contains_key(c) by {
        let i = choose|i: int| 0 <= i < shape.len() && shape[i] == c;
        crate::hex::hex_line(a, b).lemma_filter_pred(crate::graph::off_nodes(a, b), i);
        assert(!s.to_set().contains(c));
        assert(!s.contains(c));
    }
}

/// A growth happens: node `node_ent` is made at `next`, starts a growth test
/// of its own, and is linked from `from` by the link `link_ent`.
pub fn grow_into(
    net: &mut Network,
    grows: &mut HashMap<Entity, GrowTest>,
    from: Entity,
    next: Coord,
    node_ent: Entity,
    link_ent: Entity,
)
    requires
        nodes_ok(old(net).nodes@),
        areas_ok(old(net).areas@),
        old(net).nodes@.contains_key(from),
        !old(net).nodes@.contains_key(node_ent),
        coord_ok(next),
        node_fits(old(net).map@, next),
        link_fits(old(net).map@, old(net).nodes@[from].pos(), next),
    ensures
        final(net).nodes@.dom() == old(net).nodes@.dom().insert(node_ent),
        final(net).nodes@[node_ent].pos() == next,
        final(net).nodes@[node_ent].neighbors() == Map::<Entity, Entity>::empty().insert(from, link_ent),
        final(net).nodes@[from].pos() == old(net).nodes@[from].pos(),
        final(net).nodes@[from].neighbors() == old(net).nodes@[from].neighbors().insert(node_ent, link_ent),
        final(net).links@.contains_key(link_ent),
        final(net).links@[link_ent].from == from,
        final(net).links@[link_ent].to == node_ent,
        final(grows)@.contains_key(node_ent),
        old(grows)@.contains_key(node_ent) ==> final(grows)@ == old(grows)@,
        !old(grows)@.contains_key(node_ent) ==> final(grows)@ == old(grows)@.insert(node_ent, final(grows)@[node_ent])
            && final(grows)@[node_ent].next_growth == 1,
{
    net.make_node(node_ent, next);
    proof {
        assert(net.nodes@.contains_key(from));
        assert(net.nodes@.remove(node_ent).contains_key(from));
        assert(net.nodes@.remove(node_ent)[from] == old(net).nodes@.remove(node_ent)[from]);
        assert(net.nodes@[from] == old(net).nodes@[from]);
        assert forall|e: Entity| #[trigger] net.nodes@.contains_key(e) implies coord_ok(net.nodes@[e].pos()) by {
            if e != node_ent {
                assert(net.nodes@.remove(node_ent).contains_key(e));
                assert(net.nodes@.remove(node_ent)[e] == old(net).nodes@.remove(node_ent)[e]);
                assert(old(net).nodes@.contains_key(e));
            }
        }
        lemma_link_fits_after_node(old(net).map@, net.spaces@[node_ent]@, node_ent, old(net).nodes@[from].pos(), next);
    }
    GrowTest::start(net, grows, node_ent);
    net.make_link(link_ent, from, node_ent);
}

/// What a selected entity is, as the selection window names it.
pub fn selected_kind(
    links: &HashMap<Entity, crate::graph::Link>,
    nodes: &HashMap<Entity, Node>,
    e: Entity,
) -> (s: &'static str)
    ensures
        s@ == if links@.contains_key(e) {
            "link"@
        } else if nodes@.contains_key(e) {
            "node"@
        } else {
            "unknown"@
        },
{
    if links.contains_key(&e) {
        "link"
    } else if nodes.contains_key(&e) {
        "node"
    } else {
        "unknown"
    }
}

} // verus!
